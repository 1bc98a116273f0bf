//! Character-level groundwork for the log parser: splitting text into lines,
//! splitting a line into whitespace-delimited tokens, trimming, and matching
//! a fixed pattern at a position.

use vstd::prelude::*;
use vstd::string::*;

verus! {

/// The whitespace characters recognized when tokenizing and trimming.
pub open spec fn is_ws_char(c: char) -> bool {
    c == ' ' || c == '\t' || c == '\n' || c == '\r' || c == '\x0b' || c == '\x0c'
}

/// The ASCII decimal digits.
pub open spec fn is_digit_char(c: char) -> bool {
    '0' as u32 <= c as u32 && c as u32 <= '9' as u32
}

pub fn is_ws(c: char) -> (r: bool)
    ensures
        r == is_ws_char(c),
{
    c == ' ' || c == '\t' || c == '\n' || c == '\r' || c == '\x0b' || c == '\x0c'
}

pub fn is_digit(c: char) -> (r: bool)
    ensures
        r == is_digit_char(c),
{
    let u = c as u32;
    '0' as u32 <= u && u <= '9' as u32
}

/// A line with one trailing carriage return removed, as a line separator
/// `"\r\n"` leaves one behind.
pub open spec fn chop_cr(l: Seq<char>) -> Seq<char> {
    if l.len() > 0 && l.last() == '\r' {
        l.drop_last()
    } else {
        l
    }
}

/// The lines of `s` after the characters of `cur` have already been read from
/// the current line: a `'\n'` ends a line, `"\r\n"` counts as a single line
/// ending, and characters after the last line ending form a final line only
/// if there are any.
pub open spec fn lines_go(s: Seq<char>, cur: Seq<char>) -> Seq<Seq<char>>
    decreases s.len(),
{
    if s.len() == 0 {
        if cur.len() > 0 {
            seq![cur]
        } else {
            Seq::empty()
        }
    } else if s[0] == '\n' {
        seq![chop_cr(cur)] + lines_go(s.drop_first(), Seq::empty())
    } else {
        lines_go(s.drop_first(), cur.push(s[0]))
    }
}

/// The lines of `s`, as `str::lines` yields them.
pub open spec fn spec_lines(s: Seq<char>) -> Seq<Seq<char>> {
    lines_go(s, Seq::empty())
}

/// Splits `s` into lines.
pub fn split_lines(s: &str) -> (r: Vec<String>)
    ensures
        r.deep_view() == spec_lines(s@),
{
    let n = s.unicode_len();
    let mut out: Vec<String> = Vec::new();
    let mut start: usize = 0;
    let mut i: usize = 0;
    proof {
        assert(s@.skip(0) =~= s@);
        assert(s@.subrange(0, 0) =~= Seq::<char>::empty());
        assert(out.deep_view() =~= Seq::<Seq<char>>::empty());
        assert(out.deep_view() + lines_go(s@, Seq::empty()) =~= lines_go(s@, Seq::empty()));
    }
    while i < n
        invariant
            start <= i <= n,
            n == s@.len(),
            spec_lines(s@) == out.deep_view() + lines_go(
                s@.skip(i as int),
                s@.subrange(start as int, i as int),
            ),
        decreases n - i,
    {
        let ghost cur = s@.subrange(start as int, i as int);
        let ghost rest = s@.skip(i as int);
        proof {
            assert(rest[0] == s@[i as int]);
            assert(rest.drop_first() =~= s@.skip(i + 1));
        }
        let c = s.get_char(i);
        if c == '\n' {
            let line_end: usize = if i > start && s.get_char(i - 1) == '\r' {
                i - 1
            } else {
                i
            };
            proof {
                if i > start && s@[i - 1] == '\r' {
                    assert(cur.len() > 0 && cur.last() == '\r');
                    assert(chop_cr(cur) =~= s@.subrange(start as int, line_end as int));
                } else {
                    if cur.len() > 0 {
                        assert(cur.last() == s@[i - 1]);
                    }
                    assert(chop_cr(cur) =~= s@.subrange(start as int, line_end as int));
                }
            }
            let line = s.substring_char(start, line_end).to_owned();
            let ghost old_dv = out.deep_view();
            out.push(line);
            proof {
                assert(out.deep_view() =~= old_dv.push(chop_cr(cur)));
                assert(lines_go(rest, cur) == seq![chop_cr(cur)] + lines_go(
                    s@.skip(i + 1),
                    Seq::empty(),
                ));
                assert(s@.subrange(i + 1, i + 1) =~= Seq::<char>::empty());
                assert(out.deep_view() + lines_go(s@.skip(i + 1), s@.subrange(i + 1, i + 1))
                    =~= old_dv + lines_go(rest, cur));
            }
            start = i + 1;
        } else {
            proof {
                assert(lines_go(rest, cur) == lines_go(s@.skip(i + 1), cur.push(s@[i as int])));
                assert(cur.push(s@[i as int]) =~= s@.subrange(start as int, i + 1));
            }
        }
        i += 1;
    }
    proof {
        assert(s@.skip(n as int) =~= Seq::<char>::empty());
        if start < n {
            assert(s@.subrange(start as int, n as int).len() > 0);
        } else {
            assert(s@.subrange(start as int, n as int).len() == 0);
        }
    }
    if start < n {
        let line = s.substring_char(start, n).to_owned();
        let ghost old_dv = out.deep_view();
        out.push(line);
        proof {
            assert(out.deep_view() =~= old_dv.push(s@.subrange(start as int, n as int)));
            assert(out.deep_view() =~= old_dv + seq![s@.subrange(start as int, n as int)]);
        }
    }
    out
}

/// The whitespace-delimited tokens of `s`, after the characters of `cur` have
/// already been read from the current token.
pub open spec fn ws_go(s: Seq<char>, cur: Seq<char>) -> Seq<Seq<char>>
    decreases s.len(),
{
    if s.len() == 0 {
        if cur.len() > 0 {
            seq![cur]
        } else {
            Seq::empty()
        }
    } else if is_ws_char(s[0]) {
        if cur.len() > 0 {
            seq![cur] + ws_go(s.drop_first(), Seq::empty())
        } else {
            ws_go(s.drop_first(), Seq::empty())
        }
    } else {
        ws_go(s.drop_first(), cur.push(s[0]))
    }
}

/// The whitespace-delimited tokens of `s`: the maximal runs of non-whitespace
/// characters, in order.
pub open spec fn split_ws(s: Seq<char>) -> Seq<Seq<char>> {
    ws_go(s, Seq::empty())
}

/// Splits `s` into whitespace-delimited tokens.
pub fn split_whitespace(s: &str) -> (r: Vec<String>)
    ensures
        r.deep_view() == split_ws(s@),
{
    let n = s.unicode_len();
    let mut out: Vec<String> = Vec::new();
    let mut start: usize = 0;
    let mut i: usize = 0;
    proof {
        assert(s@.skip(0) =~= s@);
        assert(s@.subrange(0, 0) =~= Seq::<char>::empty());
        assert(out.deep_view() =~= Seq::<Seq<char>>::empty());
        assert(out.deep_view() + ws_go(s@, Seq::empty()) =~= ws_go(s@, Seq::empty()));
    }
    while i < n
        invariant
            start <= i <= n,
            n == s@.len(),
            split_ws(s@) == out.deep_view() + ws_go(
                s@.skip(i as int),
                s@.subrange(start as int, i as int),
            ),
        decreases n - i,
    {
        let ghost cur = s@.subrange(start as int, i as int);
        let ghost rest = s@.skip(i as int);
        proof {
            assert(rest[0] == s@[i as int]);
            assert(rest.drop_first() =~= s@.skip(i + 1));
            assert(s@.subrange(i + 1, i + 1) =~= Seq::<char>::empty());
        }
        let c = s.get_char(i);
        if is_ws(c) {
            if i > start {
                let tok = s.substring_char(start, i).to_owned();
                let ghost old_dv = out.deep_view();
                out.push(tok);
                proof {
                    assert(out.deep_view() =~= old_dv.push(cur));
                    assert(out.deep_view() + ws_go(s@.skip(i + 1), s@.subrange(i + 1, i + 1))
                        =~= old_dv + ws_go(rest, cur));
                }
            }
            start = i + 1;
        } else {
            proof {
                assert(ws_go(rest, cur) == ws_go(s@.skip(i + 1), cur.push(s@[i as int])));
                assert(cur.push(s@[i as int]) =~= s@.subrange(start as int, i + 1));
            }
        }
        i += 1;
    }
    proof {
        assert(s@.skip(n as int) =~= Seq::<char>::empty());
    }
    if start < n {
        let tok = s.substring_char(start, n).to_owned();
        let ghost old_dv = out.deep_view();
        out.push(tok);
        proof {
            assert(out.deep_view() =~= old_dv.push(s@.subrange(start as int, n as int)));
            assert(out.deep_view() =~= old_dv + seq![s@.subrange(start as int, n as int)]);
        }
    }
    out
}

/// Whether a token names a source file: its text ends in `".cpp"` or `".c"`,
/// case-sensitively.
pub open spec fn is_source_token(t: Seq<char>) -> bool {
    (t.len() >= 4 && t.subrange(t.len() - 4, t.len() as int) == ".cpp"@) || (t.len() >= 2
        && t.subrange(t.len() - 2, t.len() as int) == ".c"@)
}

/// The tokens among `ts` that name a source file, in order.
pub open spec fn keep_sources(ts: Seq<Seq<char>>) -> Seq<Seq<char>>
    decreases ts.len(),
{
    if ts.len() == 0 {
        Seq::empty()
    } else {
        keep_sources(ts.drop_last()) + (if is_source_token(ts.last()) {
            seq![ts.last()]
        } else {
            Seq::empty()
        })
    }
}

/// Whether the token names a source file.
pub fn is_source_file(t: &str) -> (r: bool)
    ensures
        r == is_source_token(t@),
{
    proof {
        reveal_strlit(".cpp");
        reveal_strlit(".c");
    }
    let n = t.unicode_len();
    let cpp = n >= 4 && t.get_char(n - 4) == '.' && t.get_char(n - 3) == 'c' && t.get_char(n - 2)
        == 'p' && t.get_char(n - 1) == 'p';
    let c = n >= 2 && t.get_char(n - 2) == '.' && t.get_char(n - 1) == 'c';
    proof {
        if n >= 4 {
            let sub = t@.subrange(n - 4, n as int);
            assert(sub[0] == t@[n - 4] && sub[1] == t@[n - 3] && sub[2] == t@[n - 2] && sub[3]
                == t@[n - 1]);
            if cpp {
                assert(sub =~= ".cpp"@);
            } else {
                assert(sub != ".cpp"@);
            }
        }
        if n >= 2 {
            let sub = t@.subrange(n - 2, n as int);
            assert(sub[0] == t@[n - 2] && sub[1] == t@[n - 1]);
            if c {
                assert(sub =~= ".c"@);
            } else {
                assert(sub != ".c"@);
            }
        }
    }
    cpp || c
}

/// `s` without its leading whitespace.
pub open spec fn trim_start(s: Seq<char>) -> Seq<char>
    decreases s.len(),
{
    if s.len() > 0 && is_ws_char(s[0]) {
        trim_start(s.drop_first())
    } else {
        s
    }
}

/// `s` without its trailing whitespace.
pub open spec fn trim_end(s: Seq<char>) -> Seq<char>
    decreases s.len(),
{
    if s.len() > 0 && is_ws_char(s.last()) {
        trim_end(s.drop_last())
    } else {
        s
    }
}

/// `s` without leading and trailing whitespace.
pub open spec fn spec_trim(s: Seq<char>) -> Seq<char> {
    trim_end(trim_start(s))
}

/// The characters of `line` from position `from` on, without leading and
/// trailing whitespace.
pub fn trim_from(line: &str, from: usize) -> (r: String)
    requires
        from <= line@.len(),
    ensures
        r@ == spec_trim(line@.skip(from as int)),
{
    let n = line.unicode_len();
    let mut a: usize = from;
    while a < n && is_ws(line.get_char(a))
        invariant
            from <= a <= n,
            n == line@.len(),
            trim_start(line@.skip(from as int)) == trim_start(line@.skip(a as int)),
        decreases n - a,
    {
        proof {
            let rest = line@.skip(a as int);
            assert(rest[0] == line@[a as int]);
            assert(rest.drop_first() =~= line@.skip(a + 1));
        }
        a += 1;
    }
    proof {
        if a == n {
            assert(line@.skip(n as int) =~= Seq::<char>::empty());
        }
    }
    if a == n {
        return String::new();
    }
    proof {
        let rest = line@.skip(a as int);
        assert(rest[0] == line@[a as int]);
        assert(trim_start(line@.skip(from as int)) == line@.skip(a as int));
    }
    let mut b: usize = n;
    while b > a && is_ws(line.get_char(b - 1))
        invariant
            a <= b <= n,
            n == line@.len(),
            a < n,
            !is_ws_char(line@[a as int]),
            trim_end(line@.skip(a as int)) == trim_end(line@.subrange(a as int, b as int)),
        decreases b,
    {
        proof {
            let cur = line@.subrange(a as int, b as int);
            assert(cur.last() == line@[b - 1]);
            assert(cur.drop_last() =~= line@.subrange(a as int, b - 1));
        }
        b -= 1;
    }
    proof {
        assert(line@.skip(a as int) =~= line@.subrange(a as int, n as int));
        let cur = line@.subrange(a as int, b as int);
        if b > a {
            assert(cur.last() == line@[b - 1]);
        } else {
            assert(b == a);
            assert(cur.len() == 0);
        }
        assert(trim_end(cur) == cur);
    }
    line.substring_char(a, b).to_owned()
}

/// Whether `pat` occurs in `line` starting at position `pos`.
pub fn match_at(line: &str, pos: usize, pat: &str) -> (r: bool)
    requires
        pos + pat@.len() <= line@.len(),
    ensures
        r == (line@.subrange(pos as int, pos as int + pat@.len() as int) == pat@),
{
    let n = line.unicode_len();
    let m = pat.unicode_len();
    let ghost sub = line@.subrange(pos as int, pos as int + pat@.len() as int);
    let mut j: usize = 0;
    while j < m
        invariant
            0 <= j <= m,
            m == pat@.len(),
            n == line@.len(),
            pos + m <= n,
            sub == line@.subrange(pos as int, pos as int + pat@.len() as int),
            forall|j2: int| 0 <= j2 < j ==> sub[j2] == pat@[j2],
        decreases m - j,
    {
        let lc = line.get_char(pos + j);
        let pc = pat.get_char(j);
        proof {
            assert(sub[j as int] == line@[pos + j]);
        }
        if lc != pc {
            proof {
                assert(sub[j as int] != pat@[j as int]);
            }
            return false;
        }
        j += 1;
    }
    proof {
        assert(sub =~= pat@);
    }
    true
}

} // verus!
