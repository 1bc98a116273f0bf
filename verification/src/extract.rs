//! Turning one reconstructed command into database entries: one entry per
//! recognized source-file token, each with the file's path resolved to an
//! absolute path against the command's working directory.

use vstd::prelude::*;

use crate::raw::{join_spaces, source_files_of, RawCommand};

verus! {

/// The model of a [`CompileCommandsEntry`]: its three fields as character
/// sequences.
pub struct EntryModel {
    pub directory: Seq<char>,
    pub command: Seq<char>,
    pub file: Seq<char>,
}

/// One row of the compile-commands database: the working directory, the full
/// invocation text, and the absolute path of one source file the invocation
/// compiled.
#[derive(Debug, PartialEq, Eq)]
pub struct CompileCommandsEntry {
    pub directory: String,
    pub command: String,
    pub file: String,
}

impl View for CompileCommandsEntry {
    type V = EntryModel;

    open spec fn view(&self) -> EntryModel {
        EntryModel { directory: self.directory@, command: self.command@, file: self.file@ }
    }
}

impl DeepView for CompileCommandsEntry {
    type V = EntryModel;

    open spec fn deep_view(&self) -> EntryModel {
        self.view()
    }
}

/// A source token that could not be resolved to an absolute path; `path`
/// holds the token as it stood in the log.
#[derive(Debug)]
pub struct ResolveError {
    pub path: String,
}

#[verifier::external_type_specification]
#[verifier::external_body]
pub struct ExPathBuf(std::path::PathBuf);

/// Relies on std::path::Path::join: appends `token` to the path `dir`, with a
/// separator as needed; an absolute `token` replaces `dir` entirely.
#[verifier::external_body]
fn path_join(dir: &String, token: &String) -> std::path::PathBuf {
    std::path::Path::new(dir.as_str()).join(token.as_str())
}

/// Relies on std::path::absolute: makes the path absolute by resolving it
/// against the process working directory, without touching the filesystem.
/// The result depends on that directory, so nothing is claimed of it.
#[verifier::external_body]
fn path_absolute(p: &std::path::PathBuf) -> Option<String> {
    match std::path::absolute(p) {
        Ok(a) => Some(a.to_string_lossy().into_owned()),
        Err(_) => None,
    }
}

/// Builds one database entry per resolved file, all sharing the given
/// directory and command text.
pub fn entries_for_sources(directory: &String, command: &String, files: Vec<String>) -> (r: Vec<
    CompileCommandsEntry,
>)
    ensures
        r.deep_view().len() == files.deep_view().len(),
        forall|i: int|
            0 <= i < files.deep_view().len() ==> #[trigger] r.deep_view()[i] == (EntryModel {
                directory: directory@,
                command: command@,
                file: files.deep_view()[i],
            }),
{
    let mut r: Vec<CompileCommandsEntry> = Vec::new();
    let mut i: usize = 0;
    while i < files.len()
        invariant
            i <= files.len(),
            r.deep_view().len() == i,
            forall|j: int|
                0 <= j < i ==> #[trigger] r.deep_view()[j] == (EntryModel {
                    directory: directory@,
                    command: command@,
                    file: files.deep_view()[j],
                }),
        decreases files.len() - i,
    {
        let entry = CompileCommandsEntry {
            directory: directory.clone(),
            command: command.clone(),
            file: files[i].clone(),
        };
        let ghost old_dv = r.deep_view();
        r.push(entry);
        proof {
            assert(r.deep_view() =~= old_dv.push(
                EntryModel {
                    directory: directory@,
                    command: command@,
                    file: files.deep_view()[i as int],
                },
            ));
        }
        i += 1;
    }
    r
}

impl CompileCommandsEntry {
    /// Extracts the database entries of one command: one entry per
    /// source-file token, sharing the command's directory and its space-joined
    /// invocation text, each with its own file resolved to an absolute path.
    /// Fails when a token cannot be resolved, naming that token.
    pub fn from_raw_command(command: &RawCommand) -> (r: Result<
        Vec<CompileCommandsEntry>,
        ResolveError,
    >)
        ensures
            ({
                let srcs = source_files_of(command.lines.deep_view());
                let cmd = join_spaces(command.lines.deep_view());
                match r {
                    Result::Ok(entries) => entries.deep_view().len() == srcs.len() && forall|i: int|
                        0 <= i < srcs.len() ==> (#[trigger] entries.deep_view()[i]).directory
                            == command.dir@ && entries.deep_view()[i].command == cmd,
                    Result::Err(e) => srcs.contains(e.path@),
                }
            }),
    {
        let full = command.full_command();
        let srcs = command.source_files();
        let ghost sdv = srcs.deep_view();
        let mut resolved: Vec<String> = Vec::new();
        let mut i: usize = 0;
        while i < srcs.len()
            invariant
                i <= srcs.len(),
                resolved.len() == i,
                sdv == srcs.deep_view(),
                sdv == source_files_of(command.lines.deep_view()),
            decreases srcs.len() - i,
        {
            let joined = path_join(&command.dir, &srcs[i]);
            match path_absolute(&joined) {
                Option::Some(p) => {
                    resolved.push(p);
                },
                Option::None => {
                    let token = srcs[i].clone();
                    proof {
                        assert(sdv.contains(token@)) by {
                            assert(sdv[i as int] == token@);
                        }
                    }
                    return Result::Err(ResolveError { path: token });
                },
            }
            i += 1;
        }
        Result::Ok(entries_for_sources(&command.dir, &full, resolved))
    }
}

} // verus!
