//! Merging freshly extracted entries into a previously persisted database.
//!
//! The database is conceptually a mapping from absolute source-file path to
//! entry. Merging inserts the existing entries and then the new ones, so a
//! new entry replaces an existing entry for the same file, and a later entry
//! replaces an earlier one within the same run.

use vstd::prelude::*;

use crate::extract::{CompileCommandsEntry, EntryModel};

verus! {

/// The mapping that a sequence of entries denotes: each file path maps to the
/// last entry in the sequence that carries it.
pub open spec fn merged_map(es: Seq<EntryModel>) -> Map<Seq<char>, EntryModel>
    decreases es.len(),
{
    if es.len() == 0 {
        Map::empty()
    } else {
        merged_map(es.drop_last()).insert(es.last().file, es.last())
    }
}

/// Whether no two entries share a file path.
pub open spec fn unique_files(es: Seq<EntryModel>) -> bool {
    forall|i: int, j: int|
        0 <= i < j < es.len() ==> (#[trigger] es[i]).file != (#[trigger] es[j]).file
}

proof fn lemma_merged_map_update(es: Seq<EntryModel>, j: int, e: EntryModel)
    requires
        0 <= j < es.len(),
        es[j].file == e.file,
        forall|k: int| j < k < es.len() ==> (#[trigger] es[k]).file != e.file,
    ensures
        merged_map(es.update(j, e)) == merged_map(es).insert(e.file, e),
    decreases es.len(),
{
    let u = es.update(j, e);
    if j == es.len() - 1 {
        assert(u.drop_last() =~= es.drop_last());
        assert(u.last() == e);
        assert(merged_map(es.drop_last()).insert(es.last().file, es.last()).insert(e.file, e)
            =~= merged_map(es.drop_last()).insert(e.file, e));
    } else {
        assert(u.drop_last() =~= es.drop_last().update(j, e));
        assert(u.last() == es.last());
        assert(es.drop_last()[j] == es[j]);
        assert(forall|k: int|
            j < k < es.drop_last().len() ==> (#[trigger] es.drop_last()[k]).file != e.file);
        lemma_merged_map_update(es.drop_last(), j, e);
        assert(es.last() == es[es.len() - 1]);
        assert(es.last().file != e.file);
        assert(merged_map(es.drop_last()).insert(e.file, e).insert(es.last().file, es.last())
            =~= merged_map(es.drop_last()).insert(es.last().file, es.last()).insert(e.file, e));
    }
}

/// Inserts `e` into `r0`, replacing the entry with the same file path if one
/// is there. `g` is the caller's snapshot of `r0`'s model.
fn upsert(
    r0: Vec<CompileCommandsEntry>,
    e: &CompileCommandsEntry,
    Ghost(g): Ghost<Seq<EntryModel>>,
) -> (r: Vec<CompileCommandsEntry>)
    requires
        g == r0.deep_view(),
        unique_files(g),
    ensures
        unique_files(r.deep_view()),
        merged_map(r.deep_view()) == merged_map(g).insert(e.deep_view().file, e.deep_view()),
{
    let ghost ed = e.deep_view();
    let mut r = r0;
    let mut j: usize = 0;
    while j < r.len()
        invariant
            j <= r.len(),
            g == r.deep_view(),
            ed == e.deep_view(),
            unique_files(g),
            forall|k: int| 0 <= k < j ==> (#[trigger] g[k]).file != ed.file,
        decreases r.len() - j,
    {
        if r[j].file == e.file {
            proof {
                assert(g[j as int].file == ed.file);
                assert forall|k: int| j < k < g.len() implies (#[trigger] g[k]).file != ed.file by {
                    assert(g[j as int].file != g[k].file);
                }
                lemma_merged_map_update(g, j as int, ed);
            }
            r[j] = clone_entry(e);
            proof {
                let nd = g.update(j as int, ed);
                assert(r.deep_view() =~= nd);
                assert forall|x: int, y: int|
                    0 <= x < y < nd.len() implies (#[trigger] nd[x]).file != (
                #[trigger] nd[y]).file by {
                    assert(g[x].file != g[y].file);
                }
            }
            return r;
        }
        j += 1;
    }
    r.push(clone_entry(e));
    proof {
        let nd = g.push(ed);
        assert(r.deep_view() =~= nd);
        assert(nd.drop_last() =~= g);
        assert forall|x: int, y: int|
            0 <= x < y < nd.len() implies (#[trigger] nd[x]).file != (#[trigger] nd[y]).file by {
            if y == nd.len() - 1 {
                assert(g[x].file != ed.file);
            } else {
                assert(g[x].file != g[y].file);
            }
        }
    }
    r
}

fn clone_entry(e: &CompileCommandsEntry) -> (r: CompileCommandsEntry)
    ensures
        r.deep_view() == e.deep_view(),
{
    CompileCommandsEntry {
        directory: e.directory.clone(),
        command: e.command.clone(),
        file: e.file.clone(),
    }
}

/// Merges newly extracted entries into an existing database. The result has
/// one entry per file path and denotes the mapping of the existing entries
/// followed by the new ones: a new entry replaces an existing entry for the
/// same file, entries only in the existing set are retained, and within the
/// new set a later entry for a file replaces an earlier one.
pub fn merge_new_compile_commands(
    existing: Vec<CompileCommandsEntry>,
    new: Vec<CompileCommandsEntry>,
) -> (r: Vec<CompileCommandsEntry>)
    ensures
        unique_files(r.deep_view()),
        merged_map(r.deep_view()) == merged_map(existing.deep_view() + new.deep_view()),
{
    let ghost edv = existing.deep_view();
    let ghost ndv = new.deep_view();
    let mut r: Vec<CompileCommandsEntry> = Vec::new();
    proof {
        assert(r.deep_view() =~= Seq::<EntryModel>::empty());
        assert(edv.take(0) =~= Seq::<EntryModel>::empty());
    }
    let mut i: usize = 0;
    while i < existing.len()
        invariant
            i <= existing.len(),
            edv == existing.deep_view(),
            unique_files(r.deep_view()),
            merged_map(r.deep_view()) == merged_map(edv.take(i as int)),
        decreases existing.len() - i,
    {
        proof {
            assert(edv.take(i + 1).drop_last() =~= edv.take(i as int));
            assert(edv.take(i + 1).last() == edv[i as int]);
        }
        let ghost g = r.deep_view();
        r = upsert(r, &existing[i], Ghost(g));
        i += 1;
    }
    proof {
        assert(edv.take(existing.len() as int) =~= edv);
        assert(edv + ndv.take(0) =~= edv);
    }
    let mut i2: usize = 0;
    while i2 < new.len()
        invariant
            i2 <= new.len(),
            ndv == new.deep_view(),
            edv == existing.deep_view(),
            unique_files(r.deep_view()),
            merged_map(r.deep_view()) == merged_map(edv + ndv.take(i2 as int)),
        decreases new.len() - i2,
    {
        proof {
            assert((edv + ndv.take(i2 + 1)).drop_last() =~= edv + ndv.take(i2 as int));
            assert((edv + ndv.take(i2 + 1)).last() == ndv[i2 as int]);
        }
        let ghost g2 = r.deep_view();
        r = upsert(r, &new[i2], Ghost(g2));
        i2 += 1;
    }
    proof {
        assert(edv + ndv.take(new.len() as int) =~= edv + ndv);
    }
    r
}

/// How a merged mapping looks up a key: the new entries decide where they
/// speak, and the existing entries decide elsewhere.
pub proof fn lemma_merged_map_append(a: Seq<EntryModel>, b: Seq<EntryModel>, k: Seq<char>)
    ensures
        merged_map(a + b).dom().contains(k) <==> (merged_map(a).dom().contains(k) || merged_map(
            b,
        ).dom().contains(k)),
        merged_map(b).dom().contains(k) ==> merged_map(a + b)[k] == merged_map(b)[k],
        (!merged_map(b).dom().contains(k) && merged_map(a).dom().contains(k)) ==> merged_map(a + b)[
            k] == merged_map(a)[k],
    decreases b.len(),
{
    if b.len() == 0 {
        assert(a + b =~= a);
    } else {
        let bl = b.drop_last();
        assert((a + b).drop_last() =~= a + bl);
        assert((a + b).last() == b.last());
        lemma_merged_map_append(a, bl, k);
    }
}

proof fn lemma_merged_map_last(es: Seq<EntryModel>, j: int)
    requires
        0 <= j < es.len(),
        forall|k: int| j < k < es.len() ==> (#[trigger] es[k]).file != es[j].file,
    ensures
        merged_map(es).dom().contains(es[j].file),
        merged_map(es)[es[j].file] == es[j],
    decreases es.len(),
{
    if j < es.len() - 1 {
        let dl = es.drop_last();
        assert(dl[j] == es[j]);
        assert(forall|k: int| j < k < dl.len() ==> (#[trigger] dl[k]).file != dl[j].file);
        lemma_merged_map_last(dl, j);
        assert(es.last() == es[es.len() - 1]);
        assert(es.last().file != es[j].file);
    }
}

/// Law: merging overwrites by file path. Where the existing set has an entry
/// for a file and `new[j]` is the last new entry for that same file, the
/// merged mapping holds exactly `new[j]` for it, whatever the commands of the
/// two entries are.
pub proof fn lemma_merge_overwrite(existing: Seq<EntryModel>, new: Seq<EntryModel>, i: int, j: int)
    requires
        0 <= i < existing.len(),
        0 <= j < new.len(),
        existing[i].file == new[j].file,
        forall|k: int| j < k < new.len() ==> (#[trigger] new[k]).file != new[j].file,
    ensures
        merged_map(existing + new).dom().contains(new[j].file),
        merged_map(existing + new)[new[j].file] == new[j],
{
    lemma_merged_map_last(new, j);
    lemma_merged_map_append(existing, new, new[j].file);
}

/// Law: merging is idempotent. A merged result, taken as the existing set and
/// merged again with the same new entries, denotes the same mapping.
pub proof fn lemma_merge_idempotent(
    existing: Seq<EntryModel>,
    new: Seq<EntryModel>,
    merged: Seq<EntryModel>,
)
    requires
        merged_map(merged) == merged_map(existing + new),
    ensures
        merged_map(merged + new) == merged_map(existing + new),
{
    let lhs = merged_map(merged + new);
    let rhs = merged_map(existing + new);
    assert(lhs =~= rhs) by {
        assert forall|k: Seq<char>| #[trigger]
            lhs.dom().contains(k) implies rhs.dom().contains(k) && lhs[k] == rhs[k] by {
            lemma_merged_map_append(merged, new, k);
            lemma_merged_map_append(existing, new, k);
        }
        assert forall|k: Seq<char>| #[trigger] rhs.dom().contains(k) implies lhs.dom().contains(
            k,
        ) by {
            lemma_merged_map_append(merged, new, k);
            lemma_merged_map_append(existing, new, k);
        }
    }
}

/// Law: merging no new entries leaves the existing mapping unchanged.
pub proof fn lemma_merge_empty_new(existing: Seq<EntryModel>)
    ensures
        merged_map(existing + Seq::<EntryModel>::empty()) == merged_map(existing),
{
    assert(existing + Seq::<EntryModel>::empty() =~= existing);
}

} // verus!
