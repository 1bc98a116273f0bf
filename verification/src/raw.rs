//! A raw command: the reconstruction of one compiler invocation as it
//! appeared in the log, holding its working directory and the
//! continuation-stripped content of each of its lines.

use vstd::prelude::*;
use vstd::string::*;

use crate::text::{is_source_file, keep_sources, split_ws, split_whitespace};

verus! {

/// One reconstructed compiler invocation: the working directory it ran in and
/// the text fragments of its log lines, in order.
#[derive(Debug, PartialEq, Eq)]
pub struct RawCommand {
    pub dir: String,
    pub lines: Vec<String>,
}

/// The given line fragments joined with single spaces.
pub open spec fn join_spaces(ls: Seq<Seq<char>>) -> Seq<char>
    decreases ls.len(),
{
    if ls.len() == 0 {
        Seq::empty()
    } else if ls.len() == 1 {
        ls[0]
    } else {
        join_spaces(ls.drop_last()) + seq![' '] + ls.last()
    }
}

/// The source-file tokens of the given line fragments: every
/// whitespace-delimited token ending in a recognized source suffix, in order,
/// line by line.
pub open spec fn source_files_of(lines: Seq<Seq<char>>) -> Seq<Seq<char>>
    decreases lines.len(),
{
    if lines.len() == 0 {
        Seq::empty()
    } else {
        source_files_of(lines.drop_last()) + keep_sources(split_ws(lines.last()))
    }
}

impl RawCommand {
    /// The full invocation text: the line fragments joined with single spaces.
    pub fn full_command(&self) -> (r: String)
        ensures
            r@ == join_spaces(self.lines.deep_view()),
    {
        let ghost dv = self.lines.deep_view();
        let mut r = String::new();
        let mut i: usize = 0;
        proof {
            assert(dv.take(0) =~= Seq::<Seq<char>>::empty());
        }
        while i < self.lines.len()
            invariant
                i <= self.lines.len(),
                dv == self.lines.deep_view(),
                r@ == join_spaces(dv.take(i as int)),
            decreases self.lines.len() - i,
        {
            proof {
                reveal_strlit(" ");
                assert(dv.take(i + 1).drop_last() =~= dv.take(i as int));
                assert(dv.take(i + 1).last() == dv[i as int]);
            }
            if i > 0 {
                r.append(" ");
            }
            r.append(self.lines[i].as_str());
            proof {
                if i == 0 {
                    assert(dv.take(1) =~= seq![dv[0]]);
                    assert(join_spaces(dv.take(0)) + dv[0] =~= dv[0]);
                }
            }
            i += 1;
        }
        proof {
            assert(dv.take(self.lines.len() as int) =~= dv);
        }
        r
    }

    /// Every whitespace-delimited token across the lines whose text ends in a
    /// recognized source-file suffix, in order.
    pub fn source_files(&self) -> (r: Vec<String>)
        ensures
            r.deep_view() == source_files_of(self.lines.deep_view()),
    {
        let ghost dv = self.lines.deep_view();
        let mut r: Vec<String> = Vec::new();
        let mut i: usize = 0;
        proof {
            assert(dv.take(0) =~= Seq::<Seq<char>>::empty());
            assert(r.deep_view() =~= Seq::<Seq<char>>::empty());
        }
        while i < self.lines.len()
            invariant
                i <= self.lines.len(),
                dv == self.lines.deep_view(),
                r.deep_view() == source_files_of(dv.take(i as int)),
            decreases self.lines.len() - i,
        {
            let toks = split_whitespace(self.lines[i].as_str());
            let ghost tv = toks.deep_view();
            let mut j: usize = 0;
            proof {
                assert(tv.take(0) =~= Seq::<Seq<char>>::empty());
                assert(r.deep_view() + keep_sources(tv.take(0)) =~= r.deep_view());
            }
            let ghost before = r.deep_view();
            while j < toks.len()
                invariant
                    j <= toks.len(),
                    tv == toks.deep_view(),
                    r.deep_view() == before + keep_sources(tv.take(j as int)),
                decreases toks.len() - j,
            {
                proof {
                    assert(tv.take(j + 1).drop_last() =~= tv.take(j as int));
                    assert(tv.take(j + 1).last() == tv[j as int]);
                }
                if is_source_file(toks[j].as_str()) {
                    let ghost old_dv = r.deep_view();
                    r.push(toks[j].clone());
                    proof {
                        assert(r.deep_view() =~= old_dv.push(tv[j as int]));
                        assert(r.deep_view() =~= before + keep_sources(tv.take(j + 1)));
                    }
                } else {
                    proof {
                        assert(keep_sources(tv.take(j + 1)) =~= keep_sources(tv.take(j as int)));
                    }
                }
                j += 1;
            }
            proof {
                assert(tv.take(toks.len() as int) =~= tv);
                assert(dv.take(i + 1).drop_last() =~= dv.take(i as int));
                assert(dv.take(i + 1).last() == dv[i as int]);
                assert(dv[i as int] == self.lines[i as int]@);
            }
            i += 1;
        }
        proof {
            assert(dv.take(self.lines.len() as int) =~= dv);
        }
        r
    }
}

} // verus!
