use vstd::prelude::*;
use vstd::multiset::Multiset;

use crate::seq::{ItemKind, ItemModel};

verus! {

/// Mathematical image of one sequence entry awaiting ordering: its integer
/// sort key (the sentinel -1 for unindexed entries) and the item itself.
pub open spec fn entry_model<'a>(e: (i64, ItemKind<'a>)) -> (int, ItemModel) {
    (e.0 as int, e.1@)
}

pub open spec fn entries_model<'a>(s: Seq<(i64, ItemKind<'a>)>) -> Seq<(int, ItemModel)> {
    s.map_values(|e: (i64, ItemKind<'a>)| entry_model(e))
}

pub open spec fn sorted_by_key(s: Seq<(int, ItemModel)>) -> bool {
    forall|i: int, j: int| 0 <= i < j < s.len() ==> s[i].0 <= s[j].0
}

/// Inserts `x` into the sorted sequence `s`, after every entry whose key is
/// at most `x`'s: equal keys keep their discovery order.
pub open spec fn insert_stable(s: Seq<(int, ItemModel)>, x: (int, ItemModel)) -> Seq<
    (int, ItemModel),
>
    decreases s.len(),
{
    if s.len() == 0 {
        seq![x]
    } else if s.last().0 <= x.0 {
        s.push(x)
    } else {
        insert_stable(s.drop_last(), x).push(s.last())
    }
}

/// The stable ascending-by-key ordering of `s`: entries inserted one by one
/// in discovery order, each after all entries with a key at most its own.
pub open spec fn stable_sort(s: Seq<(int, ItemModel)>) -> Seq<(int, ItemModel)>
    decreases s.len(),
{
    if s.len() == 0 {
        s
    } else {
        insert_stable(stable_sort(s.drop_last()), s.last())
    }
}

/// Where the stable insert lands: at the position `j` below which every key
/// is at most `x`'s and from which on every key exceeds it.
pub proof fn lemma_insert_stable_at(s: Seq<(int, ItemModel)>, x: (int, ItemModel), j: int)
    requires
        0 <= j <= s.len(),
        forall|k: int| j <= k < s.len() ==> s[k].0 > x.0,
        j > 0 ==> s[j - 1].0 <= x.0,
    ensures
        insert_stable(s, x) == s.take(j) + seq![x] + s.skip(j),
    decreases s.len(),
{
    if j == s.len() {
        if s.len() == 0 {
            assert(insert_stable(s, x) =~~= s.take(j) + seq![x] + s.skip(j));
        } else {
            assert(s.last().0 <= x.0);
            assert(s.push(x) =~~= s.take(j) + seq![x] + s.skip(j));
        }
    } else {
        assert(s[s.len() - 1].0 > x.0);
        lemma_insert_stable_at(s.drop_last(), x, j);
        assert(insert_stable(s.drop_last(), x).push(s.last()) =~~= s.take(j) + seq![x] + s.skip(
            j,
        ));
    }
}

/// The stable insert keeps the sequence sorted.
pub proof fn lemma_insert_stable_sorted(s: Seq<(int, ItemModel)>, x: (int, ItemModel))
    requires
        sorted_by_key(s),
    ensures
        sorted_by_key(insert_stable(s, x)),
    decreases s.len(),
{
    if s.len() == 0 {
    } else if s.last().0 <= x.0 {
        assert forall|i: int, j: int|
            0 <= i < j < s.push(x).len() implies s.push(x)[i].0 <= s.push(x)[j].0 by {
            if j == s.len() {
                assert(s.push(x)[i] == s[i]);
            }
        }
    } else {
        assert(sorted_by_key(s.drop_last()));
        lemma_insert_stable_sorted(s.drop_last(), x);
        let t = insert_stable(s.drop_last(), x);
        assert forall|i: int, j: int|
            0 <= i < j < t.push(s.last()).len() implies t.push(s.last())[i].0 <= t.push(
            s.last(),
        )[j].0 by {
            lemma_insert_stable_bounds(s.drop_last(), x);
            if j < t.len() {
                assert(t[i].0 <= t[j].0);
            }
        }
    }
}

/// Every entry of the stable insert is either `x` or an entry of `s`.
pub proof fn lemma_insert_stable_bounds(s: Seq<(int, ItemModel)>, x: (int, ItemModel))
    ensures
        insert_stable(s, x).len() == s.len() + 1,
        forall|i: int|
            0 <= i < insert_stable(s, x).len() ==> #[trigger] insert_stable(s, x)[i] == x
                || exists|k: int| 0 <= k < s.len() && insert_stable(s, x)[i] == s[k],
    decreases s.len(),
{
    if s.len() == 0 {
    } else if s.last().0 <= x.0 {
    } else {
        lemma_insert_stable_bounds(s.drop_last(), x);
        assert forall|i: int|
            0 <= i < insert_stable(s, x).len() implies #[trigger] insert_stable(s, x)[i] == x
            || exists|k: int| 0 <= k < s.len() && insert_stable(s, x)[i] == s[k] by {
            let t = insert_stable(s.drop_last(), x);
            if i < t.len() {
                if t[i] == x {
                } else {
                    let k = choose|k: int| 0 <= k < s.drop_last().len() && t[i] == s.drop_last()[k];
                    assert(s.drop_last()[k] == s[k]);
                }
            } else {
                assert(insert_stable(s, x)[i] == s[s.len() - 1]);
            }
        }
    }
}

/// The stable sort is ascending by key.
pub proof fn lemma_stable_sort_sorted(s: Seq<(int, ItemModel)>)
    ensures
        sorted_by_key(stable_sort(s)),
    decreases s.len(),
{
    if s.len() > 0 {
        lemma_stable_sort_sorted(s.drop_last());
        lemma_insert_stable_sorted(stable_sort(s.drop_last()), s.last());
    }
}

/// The stable insert only rearranges: the entries are those of `s` plus `x`.
pub proof fn lemma_insert_stable_multiset(s: Seq<(int, ItemModel)>, x: (int, ItemModel))
    ensures
        insert_stable(s, x).to_multiset() == s.to_multiset().insert(x),
    decreases s.len(),
{
    broadcast use vstd::seq_lib::group_to_multiset_ensures;

    if s.len() == 0 {
        assert(seq![x] =~~= Seq::<(int, ItemModel)>::empty().push(x));
        assert(Seq::<(int, ItemModel)>::empty().push(x).to_multiset() =~= Multiset::empty().insert(
            x,
        ));
    } else if s.last().0 <= x.0 {
        assert(s.push(x).to_multiset() =~= s.to_multiset().insert(x));
    } else {
        lemma_insert_stable_multiset(s.drop_last(), x);
        let t = insert_stable(s.drop_last(), x);
        assert(t.push(s.last()).to_multiset() =~= t.to_multiset().insert(s.last()));
        assert(s.drop_last().push(s.last()) =~~= s);
        assert(s.drop_last().push(s.last()).to_multiset() =~= s.drop_last().to_multiset().insert(
            s.last(),
        ));
        assert(s.drop_last().to_multiset().insert(x).insert(s.last())
            =~= s.drop_last().to_multiset().insert(s.last()).insert(x));
    }
}

/// Stable insertion sort of the pending entries, ascending by sort key; equal
/// keys keep their discovery order.
pub fn sort_entries<'a>(entries: Vec<(i64, ItemKind<'a>)>) -> (r: Vec<(i64, ItemKind<'a>)>)
    ensures
        entries_model(r@) == stable_sort(entries_model(entries@)),
{
    let ghost total = entries_model(entries@);
    let mut src = entries;
    let mut out: Vec<(i64, ItemKind<'a>)> = Vec::new();
    let ghost mut done: Seq<(int, ItemModel)> = Seq::empty();
    proof {
        assert(done + entries_model(src@) =~~= total);
        assert(entries_model(out@) =~~= stable_sort(done));
    }
    while src.len() > 0
        invariant
            done + entries_model(src@) == total,
            entries_model(out@) == stable_sort(done),
            sorted_by_key(entries_model(out@)),
        decreases src.len(),
    {
        let ghost src0 = entries_model(src@);
        let ghost out0 = entries_model(out@);
        let x = src.remove(0);
        proof {
            assert(entries_model(src@) =~~= src0.drop_first());
            assert(entry_model(x) == src0.first());
        }
        let mut j = out.len();
        while j > 0 && out[j - 1].0 > x.0
            invariant
                0 <= j <= out.len(),
                entries_model(out@) == out0,
                x.0 == src0.first().0,
                forall|k: int| j <= k < out0.len() ==> out0[k].0 > x.0 as int,
            decreases j,
        {
            proof {
                assert(out0[j - 1].0 == out[j - 1].0 as int);
            }
            j = j - 1;
        }
        proof {
            if j > 0 {
                assert(out0[j - 1].0 == out[j - 1].0 as int);
            }
            lemma_insert_stable_at(out0, entry_model(x), j as int);
            lemma_insert_stable_sorted(out0, entry_model(x));
        }
        out.insert(j, x);
        proof {
            assert(entries_model(out@) =~~= out0.take(j as int) + seq![entry_model(x)]
                + out0.skip(j as int));
            let done1 = done.push(entry_model(x));
            assert(done1.drop_last() =~~= done);
            assert(stable_sort(done1) == insert_stable(stable_sort(done), entry_model(x)));
            done = done1;
            assert(done + entries_model(src@) =~~= total);
        }
    }
    proof {
        assert(done =~~= total);
    }
    out
}

} // verus!
