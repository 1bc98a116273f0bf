//! The log parser: a two-state machine over the lines of a build log that
//! reconstructs the compiler invocations interleaved across build threads.
//!
//! Every line carries a 4-digit thread tag. A line `NNNN>cl ...` starts a
//! command for thread `NNNN`; lines `NNNN>   ...` continue it; any other line
//! ends it, and is then itself considered anew as a command start or a
//! directory announcement. Directory announcements
//! (`NNNN>BUILDMSG: Processing <dir>` or `NNNN>Compiling <dir> ***`) record
//! the working directory of a thread; a command finalized for a thread with
//! no recorded directory is a fatal, unrecoverable condition.

use vstd::prelude::*;
use vstd::string::*;

use crate::raw::RawCommand;
use crate::text::{
    is_digit, is_digit_char, is_ws, is_ws_char, match_at, spec_lines, spec_trim, split_lines,
    trim_from,
};

verus! {

/// The model of one reconstructed command: its working directory and its line
/// fragments.
pub struct CommandModel {
    pub dir: Seq<char>,
    pub lines: Seq<Seq<char>>,
}

/// The model of a [`RawCommand`].
pub open spec fn raw_model(c: RawCommand) -> CommandModel {
    CommandModel { dir: c.dir@, lines: c.lines.deep_view() }
}

/// Whether the line begins with a 4-digit thread tag and `'>'`.
pub open spec fn has_tag(l: Seq<char>) -> bool {
    l.len() >= 5 && is_digit_char(l[0]) && is_digit_char(l[1]) && is_digit_char(l[2])
        && is_digit_char(l[3]) && l[4] == '>'
}

/// The 4-digit thread tag of a tagged line.
pub open spec fn spec_tag(l: Seq<char>) -> Seq<char> {
    l.subrange(0, 4)
}

/// Whether the line starts a command: a thread tag, then `cl` and whitespace.
pub open spec fn is_cmd_start(l: Seq<char>) -> bool {
    l.len() >= 8 && has_tag(l) && l[5] == 'c' && l[6] == 'l' && is_ws_char(l[7])
}

/// Whether the line announces a directory in its first form:
/// `NNNN>BUILDMSG: Processing <dir>`, with a nonempty `<dir>`.
pub open spec fn is_dir_a(l: Seq<char>) -> bool {
    l.len() >= 27 && has_tag(l) && l.subrange(5, 26) == "BUILDMSG: Processing "@
}

/// The directory announced by a line of the first form.
pub open spec fn dir_a_dir(l: Seq<char>) -> Seq<char> {
    l.subrange(26, l.len() as int)
}

/// The length of the maximal run of `'*'` at the end of the line.
pub open spec fn star_run(l: Seq<char>) -> int
    decreases l.len(),
{
    if l.len() == 0 {
        0
    } else if l.last() == '*' {
        1 + star_run(l.drop_last())
    } else {
        0
    }
}

/// Whether the line announces a directory in its second form:
/// `NNNN>Compiling <dir> ***`, with a nonempty `<dir>` followed by a space
/// and a trailing run of one or more `'*'`.
pub open spec fn is_dir_b(l: Seq<char>) -> bool {
    let k = star_run(l);
    l.len() >= 15 && has_tag(l) && l.subrange(5, 15) == "Compiling "@ && k >= 1 && l.len() - k - 1
        >= 16 && l[l.len() - k - 1] == ' '
}

/// The directory announced by a line of the second form.
pub open spec fn dir_b_dir(l: Seq<char>) -> Seq<char> {
    l.subrange(15, l.len() - star_run(l) - 1)
}

/// Whether the line continues the command of the thread with the given tag:
/// it begins with the tag, `'>'`, and three spaces.
pub open spec fn is_continuation(l: Seq<char>, tag: Seq<char>) -> bool {
    l.len() >= 8 && l.subrange(0, 4) == tag && l[4] == '>' && l[5] == ' ' && l[6] == ' ' && l[7]
        == ' '
}

/// The state of the parse after some prefix of the log's lines: the directory
/// each thread last announced, the command being read if one is, the
/// finalized commands, and the tag of the offending thread once a command was
/// finalized for a thread with no directory.
pub struct ParseModel {
    pub dirs: Map<Seq<char>, Seq<char>>,
    pub reading: Option<(Seq<char>, Seq<Seq<char>>)>,
    pub done: Seq<CommandModel>,
    pub failed: Option<Seq<char>>,
}

/// The state before any line has been read.
pub open spec fn init_model() -> ParseModel {
    ParseModel {
        dirs: Map::empty(),
        reading: Option::None,
        done: Seq::empty(),
        failed: Option::None,
    }
}

/// One line read while no command is being read: a command start opens one, a
/// directory announcement (first form before second) records a directory,
/// and any other line is ignored.
pub open spec fn looking_step(st: ParseModel, l: Seq<char>) -> ParseModel {
    if is_cmd_start(l) {
        ParseModel {
            dirs: st.dirs,
            reading: Option::Some((spec_tag(l), seq![spec_trim(l.skip(5))])),
            done: st.done,
            failed: st.failed,
        }
    } else if is_dir_a(l) {
        ParseModel {
            dirs: st.dirs.insert(spec_tag(l), dir_a_dir(l)),
            reading: st.reading,
            done: st.done,
            failed: st.failed,
        }
    } else if is_dir_b(l) {
        ParseModel {
            dirs: st.dirs.insert(spec_tag(l), dir_b_dir(l)),
            reading: st.reading,
            done: st.done,
            failed: st.failed,
        }
    } else {
        st
    }
}

/// One line read. While a command is being read, a continuation line of its
/// thread extends it; any other line finalizes it with the thread's recorded
/// directory — failing if there is none — and is then itself read as if no
/// command were being read, so that it can start the next command or announce
/// a directory.
pub open spec fn step(st: ParseModel, l: Seq<char>) -> ParseModel {
    if st.failed is Some {
        st
    } else {
        match st.reading {
            Option::None => looking_step(st, l),
            Option::Some((tag, frags)) => {
                if is_continuation(l, tag) {
                    ParseModel {
                        dirs: st.dirs,
                        reading: Option::Some((tag, frags.push(spec_trim(l.skip(5))))),
                        done: st.done,
                        failed: st.failed,
                    }
                } else if !st.dirs.dom().contains(tag) {
                    ParseModel {
                        dirs: st.dirs,
                        reading: st.reading,
                        done: st.done,
                        failed: Option::Some(tag),
                    }
                } else {
                    let st2 = ParseModel {
                        dirs: st.dirs,
                        reading: Option::None,
                        done: st.done.push(CommandModel { dir: st.dirs[tag], lines: frags }),
                        failed: st.failed,
                    };
                    looking_step(st2, l)
                }
            },
        }
    }
}

/// The state after all the given lines have been read, in order. A command
/// still being read when the lines end is not finalized.
pub open spec fn parse_lines(ls: Seq<Seq<char>>) -> ParseModel
    decreases ls.len(),
{
    if ls.len() == 0 {
        init_model()
    } else {
        step(parse_lines(ls.drop_last()), ls.last())
    }
}

/// A command was finalized for a thread that never announced a working
/// directory; `thread` is its 4-digit tag.
#[derive(Debug)]
pub struct ParseError {
    pub thread: String,
}

/// Once a parse has failed on some prefix of the lines, reading further lines
/// changes nothing.
proof fn lemma_failed_sticks(ls: Seq<Seq<char>>, n: int)
    requires
        0 <= n <= ls.len(),
        parse_lines(ls.take(n)).failed is Some,
    ensures
        parse_lines(ls).failed == parse_lines(ls.take(n)).failed,
    decreases ls.len() - n,
{
    if n == ls.len() {
        assert(ls.take(n) =~= ls);
    } else {
        assert(ls.take(n + 1).drop_last() =~= ls.take(n));
        assert(ls.take(n + 1).last() == ls[n]);
        lemma_failed_sticks(ls, n + 1);
    }
}

/// A log with no command-start line yields no commands and cannot fail.
pub proof fn lemma_no_command_start(ls: Seq<Seq<char>>)
    requires
        forall|i: int| 0 <= i < ls.len() ==> !is_cmd_start(ls[i]),
    ensures
        parse_lines(ls).done == Seq::<CommandModel>::empty(),
        parse_lines(ls).failed is None,
        parse_lines(ls).reading is None,
    decreases ls.len(),
{
    if ls.len() > 0 {
        let dl = ls.drop_last();
        assert(forall|i: int| 0 <= i < dl.len() ==> dl[i] == ls[i] && !is_cmd_start(ls[i]));
        lemma_no_command_start(dl);
        assert(!is_cmd_start(ls[ls.len() - 1]));
    }
}

/// Law: continuation matching is thread-scoped. A line can continue the
/// command of at most one thread, as its first four characters are compared
/// against the reading thread's tag; interleaved threads therefore never have
/// their lines cross-attributed.
pub proof fn lemma_continuation_thread_scoped(l: Seq<char>, t1: Seq<char>, t2: Seq<char>)
    requires
        t1 != t2,
        is_continuation(l, t1),
    ensures
        !is_continuation(l, t2),
{
}

/// Law: a command still being read when the log ends yields nothing. After
/// any log whose parse is not failed and not mid-command, a trailing command
/// start followed only by continuation lines of its thread leaves the
/// finalized commands unchanged and cannot fail.
pub proof fn lemma_incomplete_command_dropped(ls: Seq<Seq<char>>, tail: Seq<Seq<char>>)
    requires
        parse_lines(ls).failed is None,
        parse_lines(ls).reading is None,
        tail.len() > 0,
        is_cmd_start(tail[0]),
        forall|i: int|
            1 <= i < tail.len() ==> is_continuation(#[trigger] tail[i], spec_tag(tail[0])),
    ensures
        parse_lines(ls + tail).done == parse_lines(ls).done,
        parse_lines(ls + tail).failed is None,
        exists|frags: Seq<Seq<char>>|
            parse_lines(ls + tail).reading == Option::Some((spec_tag(tail[0]), frags)),
    decreases tail.len(),
{
    let t0 = tail[0];
    if tail.len() == 1 {
        assert(ls + tail =~= ls.push(t0));
        assert((ls.push(t0)).drop_last() =~= ls);
        assert((ls.push(t0)).last() == t0);
        assert(parse_lines(ls.push(t0)).reading == Option::Some(
            (spec_tag(t0), seq![spec_trim(t0.skip(5))]),
        ));
    } else {
        let tl = tail.drop_last();
        let x = tail.last();
        assert(tl[0] == t0);
        assert(forall|i: int|
            1 <= i < tl.len() ==> is_continuation(#[trigger] tl[i], spec_tag(tl[0])));
        lemma_incomplete_command_dropped(ls, tl);
        let mid = parse_lines(ls + tl);
        let frags = choose|frags: Seq<Seq<char>>|
            mid.reading == Option::Some((spec_tag(tl[0]), frags));
        assert(is_continuation(x, spec_tag(t0)));
        assert(ls + tail =~= (ls + tl).push(x));
        assert(((ls + tl).push(x)).drop_last() =~= ls + tl);
        assert(((ls + tl).push(x)).last() == x);
        assert(parse_lines(ls + tail).reading == Option::Some(
            (spec_tag(t0), frags.push(spec_trim(x.skip(5)))),
        ));
    }
}

/// The mapping from a thread tag to the directory it last announced.
pub struct DirMap {
    entries: Vec<(String, String)>,
}

/// The mapping that a sequence of announcements denotes: each key maps to the
/// value it was last announced with.
pub open spec fn dir_map_of(es: Seq<(String, String)>) -> Map<Seq<char>, Seq<char>>
    decreases es.len(),
{
    if es.len() == 0 {
        Map::empty()
    } else {
        dir_map_of(es.drop_last()).insert(es.last().0@, es.last().1@)
    }
}

impl View for DirMap {
    type V = Map<Seq<char>, Seq<char>>;

    closed spec fn view(&self) -> Map<Seq<char>, Seq<char>> {
        dir_map_of(self.entries@)
    }
}

proof fn lemma_dir_map_found(es: Seq<(String, String)>, i: int)
    requires
        0 <= i < es.len(),
        forall|j: int| i < j < es.len() ==> (#[trigger] es[j]).0@ != es[i].0@,
    ensures
        dir_map_of(es).dom().contains(es[i].0@),
        dir_map_of(es)[es[i].0@] == es[i].1@,
    decreases es.len(),
{
    if i < es.len() - 1 {
        let dl = es.drop_last();
        assert(dl[i] == es[i]);
        assert(forall|j: int| i < j < dl.len() ==> (#[trigger] dl[j]).0@ != dl[i].0@);
        lemma_dir_map_found(dl, i);
        assert(es.last() == es[es.len() - 1]);
    }
}

proof fn lemma_dir_map_absent(es: Seq<(String, String)>, k: Seq<char>)
    requires
        forall|j: int| 0 <= j < es.len() ==> (#[trigger] es[j]).0@ != k,
    ensures
        !dir_map_of(es).dom().contains(k),
    decreases es.len(),
{
    if es.len() > 0 {
        let dl = es.drop_last();
        assert(forall|j: int| 0 <= j < dl.len() ==> (#[trigger] dl[j]).0@ != k);
        lemma_dir_map_absent(dl, k);
        assert(es.last() == es[es.len() - 1]);
    }
}

impl DirMap {
    /// An empty mapping.
    pub fn new() -> (r: DirMap)
        ensures
            r@ == Map::<Seq<char>, Seq<char>>::empty(),
    {
        DirMap { entries: Vec::new() }
    }

    /// Records `val` as the directory of the thread tagged `key`, replacing
    /// any earlier announcement.
    pub fn insert(&mut self, key: String, val: String)
        ensures
            final(self)@ == old(self)@.insert(key@, val@),
    {
        let ghost es = self.entries@;
        self.entries.push((key, val));
        proof {
            assert(self.entries@.drop_last() =~= es);
        }
    }

    /// The directory the thread tagged `key` last announced, if any.
    pub fn get(&self, key: &String) -> (r: Option<String>)
        ensures
            match r {
                Option::Some(v) => self@.dom().contains(key@) && self@[key@] == v@,
                Option::None => !self@.dom().contains(key@),
            },
    {
        let mut i: usize = self.entries.len();
        while i > 0
            invariant
                i <= self.entries.len(),
                forall|j: int|
                    i <= j < self.entries@.len() ==> (#[trigger] self.entries@[j]).0@ != key@,
            decreases i,
        {
            i -= 1;
            if self.entries[i].0 == *key {
                proof {
                    lemma_dir_map_found(self.entries@, i as int);
                }
                return Option::Some(self.entries[i].1.clone());
            }
        }
        proof {
            lemma_dir_map_absent(self.entries@, key@);
        }
        Option::None
    }
}

/// What a single line is to the state machine when no command is being read.
enum LineClass {
    CmdStart { tag: String, frag: String },
    DirAnnounce { tag: String, dir: String },
    Other,
}

proof fn lemma_star_run(l: Seq<char>, k: int)
    requires
        0 <= k <= l.len(),
        forall|j: int| l.len() - k <= j < l.len() ==> l[j] == '*',
        k < l.len() ==> l[l.len() - k - 1] != '*',
    ensures
        star_run(l) == k,
    decreases k,
{
    if l.len() > 0 {
        let dl = l.drop_last();
        if k == 0 {
        } else {
            assert(l.last() == l[l.len() - 1]);
            assert(forall|j: int| dl.len() - (k - 1) <= j < dl.len() ==> dl[j] == l[j] && l[j]
                == '*');
            lemma_star_run(dl, k - 1);
        }
    }
}

/// Classifies a line as the state machine reads it when looking for a
/// command: a command start takes priority, then the first directory form,
/// then the second; anything else is ignored.
fn classify(line: &str) -> (r: LineClass)
    ensures
        match r {
            LineClass::CmdStart { tag, frag } => is_cmd_start(line@) && tag@ == spec_tag(line@)
                && frag@ == spec_trim(line@.skip(5)),
            LineClass::DirAnnounce { tag, dir } => !is_cmd_start(line@) && tag@ == spec_tag(line@)
                && (is_dir_a(line@) || is_dir_b(line@)) && dir@ == (if is_dir_a(line@) {
                dir_a_dir(line@)
            } else {
                dir_b_dir(line@)
            }),
            LineClass::Other => !is_cmd_start(line@) && !is_dir_a(line@) && !is_dir_b(line@),
        },
{
    let n = line.unicode_len();
    if n < 5 {
        return LineClass::Other;
    }
    let tag_ok = is_digit(line.get_char(0)) && is_digit(line.get_char(1)) && is_digit(
        line.get_char(2),
    ) && is_digit(line.get_char(3)) && line.get_char(4) == '>';
    if !tag_ok {
        return LineClass::Other;
    }
    let tag = line.substring_char(0, 4).to_owned();
    if n >= 8 && line.get_char(5) == 'c' && line.get_char(6) == 'l' && is_ws(line.get_char(7)) {
        let frag = trim_from(line, 5);
        return LineClass::CmdStart { tag, frag };
    }
    let mut a_ok = false;
    if n >= 27 {
        proof {
            reveal_strlit("BUILDMSG: Processing ");
        }
        a_ok = match_at(line, 5, "BUILDMSG: Processing ");
    }
    if a_ok {
        let dir = line.substring_char(26, n).to_owned();
        return LineClass::DirAnnounce { tag, dir };
    }
    let mut b_ok = false;
    if n >= 15 {
        proof {
            reveal_strlit("Compiling ");
        }
        b_ok = match_at(line, 5, "Compiling ");
    }
    if b_ok {
        let mut k: usize = 0;
        while k < n && line.get_char(n - 1 - k) == '*'
            invariant
                k <= n,
                n == line@.len(),
                forall|j: int| n - k <= j < n ==> line@[j] == '*',
            decreases n - k,
        {
            k += 1;
        }
        proof {
            lemma_star_run(line@, k as int);
        }
        if k >= 1 && n - k >= 17 {
            let cut = n - k - 1;
            if line.get_char(cut) == ' ' {
                let dir = line.substring_char(15, cut).to_owned();
                return LineClass::DirAnnounce { tag, dir };
            }
        }
    }
    LineClass::Other
}

/// Whether the line continues the command of the thread tagged `tag`.
fn is_continuation_line(line: &str, tag: &String) -> (r: bool)
    requires
        tag@.len() == 4,
    ensures
        r == is_continuation(line@, tag@),
{
    let n = line.unicode_len();
    if n < 8 {
        return false;
    }
    let t = tag.as_str();
    let tags_eq = line.get_char(0) == t.get_char(0) && line.get_char(1) == t.get_char(1)
        && line.get_char(2) == t.get_char(2) && line.get_char(3) == t.get_char(3);
    let rest_ok = line.get_char(4) == '>' && line.get_char(5) == ' ' && line.get_char(6) == ' '
        && line.get_char(7) == ' ';
    proof {
        let sub = line@.subrange(0, 4);
        assert(sub[0] == line@[0] && sub[1] == line@[1] && sub[2] == line@[2] && sub[3]
            == line@[3]);
        if tags_eq {
            assert(sub =~= tag@);
        } else {
            assert(sub != tag@);
        }
    }
    tags_eq && rest_ok
}

/// Parses the full text of a build log into the ordered sequence of the
/// commands it holds, each with the working directory its thread last
/// announced. Fails when a command ends for a thread that never announced a
/// directory, naming that thread's tag; a command still being read when the
/// log ends yields no command.
pub fn get_raw_commands(log: &str) -> (r: Result<Vec<RawCommand>, ParseError>)
    ensures
        ({
            let m = parse_lines(spec_lines(log@));
            match r {
                Result::Ok(cmds) => m.failed is None && cmds@.map_values(
                    |c: RawCommand| raw_model(c),
                ) == m.done,
                Result::Err(e) => m.failed == Option::Some(e.thread@),
            }
        }),
{
    let lines = split_lines(log);
    let ghost ls = lines.deep_view();
    let mut dirs = DirMap::new();
    let mut out: Vec<RawCommand> = Vec::new();
    let mut reading = false;
    let mut cur_tag = String::new();
    let mut cur_frags: Vec<String> = Vec::new();
    let mut i: usize = 0;
    proof {
        assert(ls.take(0) =~= Seq::<Seq<char>>::empty());
        assert(out@.map_values(|c: RawCommand| raw_model(c)) =~= Seq::<CommandModel>::empty());
    }
    while i < lines.len()
        invariant
            i <= lines.len(),
            ls == lines.deep_view(),
            ls == spec_lines(log@),
            ({
                let m = parse_lines(ls.take(i as int));
                &&& m.failed is None
                &&& m.dirs == dirs@
                &&& m.done == out@.map_values(|c: RawCommand| raw_model(c))
                &&& (reading ==> m.reading == Option::Some((cur_tag@, cur_frags.deep_view()))
                    && cur_tag@.len() == 4)
                &&& (!reading ==> m.reading is None)
            }),
        decreases lines.len() - i,
    {
        let ghost pre = parse_lines(ls.take(i as int));
        proof {
            assert(ls.take(i + 1).drop_last() =~= ls.take(i as int));
            assert(ls.take(i + 1).last() == ls[i as int]);
            assert(ls[i as int] == lines@[i as int]@);
        }
        let line: &String = &lines[i];
        let cls = classify(line.as_str());
        if reading {
            if is_continuation_line(line.as_str(), &cur_tag) {
                let frag = trim_from(line.as_str(), 5);
                let ghost fv = cur_frags.deep_view();
                cur_frags.push(frag);
                proof {
                    assert(cur_frags.deep_view() =~= fv.push(spec_trim(line@.skip(5))));
                }
            } else {
                match dirs.get(&cur_tag) {
                    Option::None => {
                        proof {
                            lemma_failed_sticks(ls, i + 1);
                        }
                        return Result::Err(ParseError { thread: cur_tag });
                    },
                    Option::Some(d) => {
                        let ghost before = out@.map_values(|c: RawCommand| raw_model(c));
                        let rc = RawCommand { dir: d, lines: cur_frags };
                        let ghost rcm = raw_model(rc);
                        out.push(rc);
                        cur_frags = Vec::new();
                        reading = false;
                        proof {
                            assert(out@.map_values(|c: RawCommand| raw_model(c)) =~= before.push(
                                rcm,
                            ));
                        }
                        match cls {
                            LineClass::CmdStart { tag, frag } => {
                                cur_tag = tag;
                                let mut nf: Vec<String> = Vec::new();
                                nf.push(frag);
                                cur_frags = nf;
                                reading = true;
                                proof {
                                    assert(cur_frags.deep_view() =~= seq![
                                        spec_trim(line@.skip(5)),
                                    ]);
                                }
                            },
                            LineClass::DirAnnounce { tag, dir } => {
                                dirs.insert(tag, dir);
                            },
                            LineClass::Other => {},
                        }
                    },
                }
            }
        } else {
            match cls {
                LineClass::CmdStart { tag, frag } => {
                    cur_tag = tag;
                    let mut nf: Vec<String> = Vec::new();
                    nf.push(frag);
                    cur_frags = nf;
                    reading = true;
                    proof {
                        assert(cur_frags.deep_view() =~= seq![spec_trim(line@.skip(5))]);
                    }
                },
                LineClass::DirAnnounce { tag, dir } => {
                    dirs.insert(tag, dir);
                },
                LineClass::Other => {},
            }
        }
        i += 1;
    }
    proof {
        assert(ls.take(lines.len() as int) =~= ls);
    }
    Result::Ok(out)
}

} // verus!
