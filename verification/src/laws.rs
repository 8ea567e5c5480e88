use vstd::prelude::*;

use crate::key::{key_parse, KeyParse};
use crate::map::{
    drain_entries, into_seq_spec, next_key_spec, terminal_segment, DrainedEntries, MapModel,
    NextKey,
};
use crate::pair::PairModel;
use crate::seq::ItemModel;
use crate::sort::{lemma_insert_stable_multiset, lemma_stable_sort_sorted, stable_sort};
use crate::stash::{stash_add, StashModel};

verus! {

/// Law: each key request that produces a terminal key, with its matching
/// value request, contributes exactly that segment/value couple to the
/// level's drained entries.
pub proof fn lemma_drain_entries_unfold(pairs: Seq<PairModel>, stash: StashModel)
    ensures
        ({
            match next_key_spec(pairs, stash) {
                NextKey::Found { segment, value, rest, stash: st } => ({
                    match drain_entries(rest, st) {
                        DrainedEntries::Done { entries, stash: st2 } => drain_entries(pairs, stash)
                            == (DrainedEntries::Done {
                            entries: seq![(segment, value)] + entries,
                            stash: st2,
                        }),
                        DrainedEntries::Fail => drain_entries(pairs, stash)
                            == DrainedEntries::Fail,
                    }
                }),
                NextKey::Exhausted { stash: st } => drain_entries(pairs, stash)
                    == (DrainedEntries::Done { entries: Seq::empty(), stash: st }),
                NextKey::Fail { .. } => drain_entries(pairs, stash) == DrainedEntries::Fail,
            }
        }),
    decreases pairs.len(),
{
    if pairs.len() == 0 {
    } else {
        let p = pairs.last();
        match key_parse(p.key) {
            KeyParse::Terminal { .. } => {
            },
            KeyParse::Deferred { segment, rest } => {
                lemma_drain_entries_unfold(
                    pairs.drop_last(),
                    stash_add(stash, segment, PairModel { key: rest, value: p.value }),
                );
            },
            KeyParse::Invalid => {
            },
        }
    }
}

/// Law: the sequence ordering only rearranges: the stable sort emits a
/// permutation of the discovered entries, none lost, invented or repeated.
pub proof fn lemma_stable_sort_permutes(s: Seq<(int, ItemModel)>)
    ensures
        stable_sort(s).to_multiset() == s.to_multiset(),
    decreases s.len(),
{
    broadcast use vstd::seq_lib::group_to_multiset_ensures;

    if s.len() > 0 {
        lemma_stable_sort_permutes(s.drop_last());
        lemma_insert_stable_multiset(stable_sort(s.drop_last()), s.last());
        assert(s.drop_last().push(s.last()) =~~= s);
        assert(s.drop_last().push(s.last()).to_multiset() =~= s.drop_last().to_multiset().insert(
            s.last(),
        ));
    }
}

/// Law: a level whose pairs are all terminal (no bracket nesting) resolves,
/// by repeated key and value requests, to exactly those pairs' segment/value
/// couples: every pair appears, each with its own value, in discovery order,
/// and nothing reaches the stash.
pub proof fn lemma_all_terminal_entries(pairs: Seq<PairModel>, stash: StashModel)
    requires
        forall|i: int| 0 <= i < pairs.len() ==> key_parse(#[trigger] pairs[i].key) is Terminal,
    ensures
        drain_entries(pairs, stash) == (DrainedEntries::Done {
            entries: pairs.reverse().map_values(
                |p: PairModel| (terminal_segment(p.key), p.value),
            ),
            stash,
        }),
    decreases pairs.len(),
{
    let f = |p: PairModel| (terminal_segment(p.key), p.value);
    if pairs.len() == 0 {
        assert(pairs.reverse().map_values(f) =~~= Seq::<(Seq<u8>, Seq<u8>)>::empty());
    } else {
        let p = pairs.last();
        assert(key_parse(p.key) is Terminal);
        lemma_all_terminal_entries(pairs.drop_last(), stash);
        assert(pairs.reverse().map_values(f) =~~= seq![f(p)] + pairs.drop_last().reverse(
        ).map_values(f));
    }
}

/// Law: resolution has no hidden state; it is a pure function of the level's
/// contents. Two maps over equal pair collections drain to equal entries and
/// convert to equal sequences, so decoding the same immutable input twice
/// produces structurally identical results.
pub proof fn lemma_resolution_deterministic(a: MapModel, b: MapModel)
    requires
        a == b,
    ensures
        drain_entries(a.pairs, a.stash) == drain_entries(b.pairs, b.stash),
        into_seq_spec(a) == into_seq_spec(b),
{
}

/// Law: in a converted sequence's emission order, every sentinel (unindexed)
/// entry precedes every explicitly indexed one: past an indexed entry, no
/// sentinel follows.
pub proof fn lemma_sentinels_precede_indexed(s: Seq<(int, ItemModel)>, i: int, j: int)
    requires
        0 <= i < j < stable_sort(s).len(),
        stable_sort(s)[i].0 >= 0,
    ensures
        stable_sort(s)[j].0 >= 0,
{
    lemma_stable_sort_sorted(s);
    assert(stable_sort(s)[i].0 <= stable_sort(s)[j].0);
}

} // verus!
