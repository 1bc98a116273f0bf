use compile_commands::merge_new_compile_commands;
use compile_commands::CompileCommandsEntry;
use compile_commands::RawCommand;

fn entry(directory: &str, command: &str, file: &str) -> CompileCommandsEntry {
    CompileCommandsEntry {
        directory: directory.to_string(),
        command: command.to_string(),
        file: file.to_string(),
    }
}

fn sorted_by_file(mut v: Vec<CompileCommandsEntry>) -> Vec<CompileCommandsEntry> {
    v.sort_by(|a, b| a.file.cmp(&b.file));
    v
}

#[test]
fn one_entry_per_source_file() {
    let raw = RawCommand {
        dir: "/proj".to_string(),
        lines: vec!["cl /c foo.cpp bar.c".to_string()],
    };
    let entries = CompileCommandsEntry::from_raw_command(&raw).unwrap();
    assert_eq!(
        entries,
        vec![
            entry("/proj", "cl /c foo.cpp bar.c", "/proj/foo.cpp"),
            entry("/proj", "cl /c foo.cpp bar.c", "/proj/bar.c"),
        ]
    );
}

#[test]
fn near_match_suffixes_are_rejected() {
    let raw = RawCommand {
        dir: "/d".to_string(),
        lines: vec!["cl program.cppx library.ccpp keep.cpp also.c x.CPP y.cpps".to_string()],
    };
    assert_eq!(raw.source_files(), vec!["keep.cpp", "also.c"]);
}

#[test]
fn source_files_span_all_lines() {
    let raw = RawCommand {
        dir: "/d".to_string(),
        lines: vec![
            "cl /c a.cpp".to_string(),
            "/DFLAG b.c /Iinclude".to_string(),
        ],
    };
    assert_eq!(raw.source_files(), vec!["a.cpp", "b.c"]);
}

#[test]
fn full_command_of_no_lines_is_empty() {
    let raw = RawCommand {
        dir: "/d".to_string(),
        lines: Vec::new(),
    };
    assert_eq!(raw.full_command(), "");
    assert!(CompileCommandsEntry::from_raw_command(&raw).unwrap().is_empty());
}

#[test]
fn absolute_source_token_overrides_the_directory() {
    let raw = RawCommand {
        dir: "/a".to_string(),
        lines: vec!["cl /other/y.cpp".to_string()],
    };
    let entries = CompileCommandsEntry::from_raw_command(&raw).unwrap();
    assert_eq!(entries, vec![entry("/a", "cl /other/y.cpp", "/other/y.cpp")]);
}

#[test]
fn relative_source_token_is_resolved_under_the_directory() {
    let raw = RawCommand {
        dir: "/a/b".to_string(),
        lines: vec!["cl src/x.c".to_string()],
    };
    let entries = CompileCommandsEntry::from_raw_command(&raw).unwrap();
    assert_eq!(entries, vec![entry("/a/b", "cl src/x.c", "/a/b/src/x.c")]);
}

#[test]
fn merge_with_no_new_entries_keeps_the_existing_database() {
    let existing = vec![entry("/a", "cl x.cpp", "/a/x.cpp"), entry("/b", "cl y.c", "/b/y.c")];
    let merged = merge_new_compile_commands(existing, Vec::new());
    assert_eq!(
        sorted_by_file(merged),
        vec![entry("/a", "cl x.cpp", "/a/x.cpp"), entry("/b", "cl y.c", "/b/y.c")]
    );
}

#[test]
fn merge_overwrites_an_existing_entry_for_the_same_file() {
    let existing = vec![entry("/a", "cl -old x.cpp", "/a/x.cpp")];
    let new = vec![entry("/a", "cl -new x.cpp", "/a/x.cpp")];
    let merged = merge_new_compile_commands(existing, new);
    assert_eq!(merged, vec![entry("/a", "cl -new x.cpp", "/a/x.cpp")]);
}

#[test]
fn merge_retains_entries_only_in_the_existing_database() {
    let existing = vec![entry("/a", "cl x.cpp", "/a/x.cpp")];
    let new = vec![entry("/b", "cl y.c", "/b/y.c")];
    let merged = merge_new_compile_commands(existing, new);
    assert_eq!(
        sorted_by_file(merged),
        vec![entry("/a", "cl x.cpp", "/a/x.cpp"), entry("/b", "cl y.c", "/b/y.c")]
    );
}

#[test]
fn merge_is_idempotent() {
    let existing = vec![
        entry("/a", "cl -old x.cpp", "/a/x.cpp"),
        entry("/c", "cl z.cpp", "/c/z.cpp"),
    ];
    let new = vec![entry("/a", "cl -new x.cpp", "/a/x.cpp"), entry("/b", "cl y.c", "/b/y.c")];
    let once = merge_new_compile_commands(existing, new);
    let again = merge_new_compile_commands(
        once.iter().map(|e| entry(&e.directory, &e.command, &e.file)).collect(),
        vec![entry("/a", "cl -new x.cpp", "/a/x.cpp"), entry("/b", "cl y.c", "/b/y.c")],
    );
    assert_eq!(sorted_by_file(once), sorted_by_file(again));
}

#[test]
fn log_to_merged_database_end_to_end() {
    let log = "0001>BUILDMSG: Processing /proj/lib\n\
               0002>Compiling /proj/app ***\n\
               0001>cl /c util.cpp\n\
               0002>cl /c main.cpp\n\
               0002>   helper.c\n\
               done\n";
    let raw = compile_commands::get_raw_commands(log).unwrap();
    let mut new_entries = Vec::new();
    for r in &raw {
        new_entries.extend(CompileCommandsEntry::from_raw_command(r).unwrap());
    }
    let existing = vec![
        entry("/proj/lib", "cl -stale util.cpp", "/proj/lib/util.cpp"),
        entry("/gone", "cl old.cpp", "/gone/old.cpp"),
    ];
    let merged = merge_new_compile_commands(existing, new_entries);
    assert_eq!(
        sorted_by_file(merged),
        vec![
            entry("/gone", "cl old.cpp", "/gone/old.cpp"),
            entry("/proj/app", "cl /c main.cpp helper.c", "/proj/app/helper.c"),
            entry("/proj/app", "cl /c main.cpp helper.c", "/proj/app/main.cpp"),
            entry("/proj/lib", "cl /c util.cpp", "/proj/lib/util.cpp"),
        ]
    );
}

#[test]
fn later_new_entry_for_a_file_wins() {
    let new = vec![
        entry("/a", "cl -first x.cpp", "/a/x.cpp"),
        entry("/a", "cl -second x.cpp", "/a/x.cpp"),
    ];
    let merged = merge_new_compile_commands(Vec::new(), new);
    assert_eq!(merged, vec![entry("/a", "cl -second x.cpp", "/a/x.cpp")]);
}
