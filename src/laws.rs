use vstd::prelude::*;

use crate::descriptor::{lemma_less_strict_total, ranks_before};
use crate::store::{
    kept, lemma_reindexed_well_formed, placed, reindexed, sorted, well_formed, EntryModel,
};

verus! {

/// Reindexing twice gives the same ids as reindexing once.
pub proof fn lemma_reindex_idempotent(s: Seq<EntryModel>)
    ensures
        reindexed(reindexed(s)) == reindexed(s),
{
    assert(reindexed(reindexed(s)) =~= reindexed(s));
}

/// Reindexing a well-formed store changes nothing.
pub proof fn lemma_reindex_well_formed_unchanged(s: Seq<EntryModel>)
    requires
        well_formed(s),
    ensures
        reindexed(s) == s,
{
    assert forall|i: int| 0 <= i < s.len() implies #[trigger] reindexed(s)[i] == s[i] by {
        assert(s[i].0.id == i + 1);
    }
    assert(reindexed(s) =~= s);
}

/// The ids of a well-formed store are exactly `1..=n`, `n` its number of tasks.
pub proof fn lemma_ids_dense(s: Seq<EntryModel>)
    requires
        well_formed(s),
    ensures
        s.map_values(|e: EntryModel| e.0.id).to_set() == Set::new(|k: nat| 1 <= k <= s.len()),
{
    let ids = s.map_values(|e: EntryModel| e.0.id);
    assert forall|k: nat| ids.to_set().contains(k) <==> 1 <= k <= s.len() by {
        if 1 <= k <= s.len() {
            assert(ids[k - 1] == k);
            assert(ids.contains(k));
        }
        if ids.contains(k) {
            let i = choose|i: int| 0 <= i < ids.len() && ids[i] == k;
            assert(s[i].0.id == i + 1);
        }
    }
    assert(ids.to_set() =~= Set::new(|k: nat| 1 <= k <= s.len()));
}

/// In a well-formed store one task has a lower id than another exactly when it
/// ranks before it in display order.
pub proof fn lemma_ids_follow_rank(s: Seq<EntryModel>, i: int, j: int)
    requires
        well_formed(s),
        0 <= i < s.len(),
        0 <= j < s.len(),
    ensures
        s[i].0.id < s[j].0.id <==> ranks_before(s[i].0, s[j].0),
{
    lemma_less_strict_total(s[i].0, s[j].0, s[i].0);
    if j < i {
        assert(ranks_before(s[j].0, s[i].0));
    }
}

/// Entries of `s` that pass `f` rank before `y` when all of `s` does.
proof fn lemma_filter_ranks_before(s: Seq<EntryModel>, f: spec_fn(EntryModel) -> bool, y: EntryModel)
    requires
        forall|j: int| 0 <= j < s.len() ==> ranks_before(#[trigger] s[j].0, y.0),
    ensures
        forall|i: int| 0 <= i < s.filter(f).len() ==> ranks_before(#[trigger] s.filter(f)[i].0, y.0),
    decreases s.len(),
{
    reveal(Seq::filter);
    if s.len() > 0 {
        let t = s.drop_last();
        assert forall|j: int| 0 <= j < t.len() implies ranks_before(#[trigger] t[j].0, y.0) by {
            assert(t[j] == s[j]);
        }
        lemma_filter_ranks_before(t, f, y);
        assert(s =~= t.push(s.last()));
        t.lemma_filter_push(s.last(), f);
        assert(ranks_before(s[s.len() - 1].0, y.0));
        assert forall|i: int| 0 <= i < s.filter(f).len() implies ranks_before(
            #[trigger] s.filter(f)[i].0,
            y.0,
        ) by {
            if i < t.filter(f).len() {
                assert(s.filter(f)[i] == t.filter(f)[i]);
            }
        }
    }
}

/// Keeping some entries of a sorted sequence, in order, leaves it sorted.
proof fn lemma_filter_sorted(s: Seq<EntryModel>, f: spec_fn(EntryModel) -> bool)
    requires
        sorted(s),
    ensures
        sorted(s.filter(f)),
    decreases s.len(),
{
    reveal(Seq::filter);
    if s.len() > 0 {
        let t = s.drop_last();
        assert(sorted(t)) by {
            assert forall|i: int, j: int| 0 <= i < j < t.len() implies ranks_before(
                #[trigger] t[i].0,
                #[trigger] t[j].0,
            ) by {
                assert(ranks_before(s[i].0, s[j].0));
            }
        }
        lemma_filter_sorted(t, f);
        assert forall|j: int| 0 <= j < t.len() implies ranks_before(#[trigger] t[j].0, s.last().0) by {
            assert(ranks_before(s[j].0, s[s.len() - 1].0));
        }
        lemma_filter_ranks_before(t, f, s.last());
        assert(s =~= t.push(s.last()));
        t.lemma_filter_push(s.last(), f);
        let tf = t.filter(f);
        assert forall|i: int, j: int| 0 <= i < j < s.filter(f).len() implies ranks_before(
            #[trigger] s.filter(f)[i].0,
            #[trigger] s.filter(f)[j].0,
        ) by {
            assert(s.filter(f)[i] == tf[i]);
            if j < tf.len() {
                assert(s.filter(f)[j] == tf[j]);
            }
        }
    }
}

/// A well-formed sequence has ids `1..=n` that follow rank.
proof fn lemma_well_formed_ids(t: Seq<EntryModel>)
    requires
        well_formed(t),
    ensures
        t.map_values(|e: EntryModel| e.0.id).to_set() == Set::new(|k: nat| 1 <= k <= t.len()),
        forall|i: int, j: int|
            0 <= i < t.len() && 0 <= j < t.len() ==> (#[trigger] t[i].0.id < #[trigger] t[j].0.id
                <==> ranks_before(t[i].0, t[j].0)),
{
    lemma_ids_dense(t);
    assert forall|i: int, j: int| 0 <= i < t.len() && 0 <= j < t.len() implies (
    #[trigger] t[i].0.id < #[trigger] t[j].0.id <==> ranks_before(t[i].0, t[j].0)) by {
        lemma_ids_follow_rank(t, i, j);
    }
}

/// After a task is added or edited (`t` is `s` with the task put where the order
/// puts it, then reindexed), the ids are exactly `1..=n` and a lower id means an
/// earlier rank, whatever ids `s` held.
pub proof fn lemma_placed_ids(s: Seq<EntryModel>, k: int, e: EntryModel, t: Seq<EntryModel>)
    requires
        placed(s, k, e, t),
    ensures
        well_formed(t),
        t.map_values(|e: EntryModel| e.0.id).to_set() == Set::new(|k: nat| 1 <= k <= t.len()),
        forall|i: int, j: int|
            0 <= i < t.len() && 0 <= j < t.len() ==> (#[trigger] t[i].0.id < #[trigger] t[j].0.id
                <==> ranks_before(t[i].0, t[j].0)),
{
    lemma_reindexed_well_formed(s.insert(k - 1, e));
    lemma_well_formed_ids(t);
}

/// After a deletion from a well-formed store, the ids are exactly `1..=n` and a
/// lower id means an earlier rank.
pub proof fn lemma_deleted_ids(s: Seq<EntryModel>, ids: Seq<usize>)
    requires
        well_formed(s),
    ensures
        well_formed(reindexed(kept(s, ids))),
        reindexed(kept(s, ids)).map_values(|e: EntryModel| e.0.id).to_set() == Set::new(
            |k: nat| 1 <= k <= kept(s, ids).len(),
        ),
        forall|i: int, j: int|
            0 <= i < kept(s, ids).len() && 0 <= j < kept(s, ids).len() ==> (
            #[trigger] reindexed(kept(s, ids))[i].0.id < #[trigger] reindexed(kept(s, ids))[j].0.id
                <==> ranks_before(reindexed(kept(s, ids))[i].0, reindexed(kept(s, ids))[j].0)),
{
    lemma_filter_sorted(s, |e: EntryModel| !crate::store::requested(ids, e.0.id));
    lemma_reindexed_well_formed(kept(s, ids));
    lemma_well_formed_ids(reindexed(kept(s, ids)));
}

} // verus!
