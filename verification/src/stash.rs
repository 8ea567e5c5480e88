use vstd::prelude::*;
use std::collections::VecDeque;

use crate::error::Error;
use crate::map::{MapModel, PairMap};
use crate::pair::{Pair, PairModel};

verus! {

/// One buffered grouping: the shared next-segment name and the pairs deferred
/// under it, newest first (consumption pops from the back, oldest first).
pub struct Group<'a> {
    key: &'a [u8],
    pairs: VecDeque<Pair<'a>>,
}

/// Mathematical image of a [`Group`].
#[verifier::ext_equal]
pub ghost struct GroupModel {
    pub key: Seq<u8>,
    pub pairs: Seq<PairModel>,
}

/// Buffers pairs destined for deeper nesting levels, keyed by the name of the
/// next segment, and reconstructs them into child maps on demand, honoring
/// the depth ceiling.
pub struct Stash<'a> {
    remaining_depth: u16,
    groups: Vec<Group<'a>>,
    pending: Option<VecDeque<Pair<'a>>>,
}

/// Mathematical image of a [`Stash`]: the depth still available below this
/// level, the groupings in discovery order, and the at most one group whose
/// key has been handed out but whose child map has not yet been built.
#[verifier::ext_equal]
pub ghost struct StashModel {
    pub depth: u16,
    pub groups: Seq<GroupModel>,
    pub pending: Option<Seq<PairModel>>,
}

impl<'a> View for Group<'a> {
    type V = GroupModel;

    closed spec fn view(&self) -> GroupModel {
        GroupModel { key: self.key@, pairs: self.pairs@.map_values(|p: Pair<'a>| p@) }
    }
}

impl<'a> View for Stash<'a> {
    type V = StashModel;

    closed spec fn view(&self) -> StashModel {
        StashModel {
            depth: self.remaining_depth,
            groups: self.groups@.map_values(|g: Group<'a>| g@),
            pending: match self.pending {
                Some(ps) => Some(ps@.map_values(|p: Pair<'a>| p@)),
                None => None,
            },
        }
    }
}

/// An empty stash with `depth` levels still available below it.
pub open spec fn stash_empty(depth: u16) -> StashModel {
    StashModel { depth, groups: Seq::empty(), pending: None }
}

/// Registers one deferred pair under its group: appended (newest first) to
/// the group already carrying that key, else opening a fresh group at the end.
pub open spec fn groups_add(groups: Seq<GroupModel>, key: Seq<u8>, p: PairModel) -> Seq<GroupModel>
    decreases groups.len(),
{
    if groups.len() == 0 {
        seq![GroupModel { key, pairs: seq![p] }]
    } else if groups.first().key == key {
        seq![GroupModel { key, pairs: seq![p] + groups.first().pairs }] + groups.drop_first()
    } else {
        seq![groups.first()] + groups_add(groups.drop_first(), key, p)
    }
}

pub open spec fn stash_add(s: StashModel, key: Seq<u8>, p: PairModel) -> StashModel {
    StashModel { groups: groups_add(s.groups, key, p), ..s }
}

/// When `key` already heads group `i` (and no earlier group), adding amounts
/// to prepending the pair to that group.
pub proof fn lemma_groups_add_found(groups: Seq<GroupModel>, key: Seq<u8>, p: PairModel, i: int)
    requires
        0 <= i < groups.len(),
        groups[i].key == key,
        forall|j: int| 0 <= j < i ==> groups[j].key != key,
    ensures
        groups_add(groups, key, p) == groups.update(
            i,
            (GroupModel { key, pairs: seq![p] + groups[i].pairs }),
        ),
    decreases i,
{
    if i == 0 {
        assert(groups_add(groups, key, p) =~~= groups.update(
            0,
            GroupModel { key, pairs: seq![p] + groups[0].pairs },
        ));
    } else {
        lemma_groups_add_found(groups.drop_first(), key, p, i - 1);
        assert(seq![groups.first()] + groups.drop_first().update(
            i - 1,
            GroupModel { key, pairs: seq![p] + groups[i].pairs },
        ) =~~= groups.update(i, GroupModel { key, pairs: seq![p] + groups[i].pairs }));
    }
}

/// When no group carries `key`, adding opens a fresh group at the end.
pub proof fn lemma_groups_add_missing(groups: Seq<GroupModel>, key: Seq<u8>, p: PairModel)
    requires
        forall|j: int| 0 <= j < groups.len() ==> groups[j].key != key,
    ensures
        groups_add(groups, key, p) == groups.push(GroupModel { key, pairs: seq![p] }),
    decreases groups.len(),
{
    if groups.len() == 0 {
        assert(groups_add(groups, key, p) =~~= groups.push(GroupModel { key, pairs: seq![p] }));
    } else {
        lemma_groups_add_missing(groups.drop_first(), key, p);
        assert(seq![groups.first()] + groups.drop_first().push(
            GroupModel { key, pairs: seq![p] },
        ) =~~= groups.push(GroupModel { key, pairs: seq![p] }));
    }
}

/// Byte-for-byte equality of two byte ranges.
pub fn bytes_eq(a: &[u8], b: &[u8]) -> (r: bool)
    ensures
        r == (a@ == b@),
{
    if a.len() != b.len() {
        assert(a@ != b@);
        return false;
    }
    let mut i: usize = 0;
    while i < a.len()
        invariant
            0 <= i <= a.len(),
            a.len() == b.len(),
            forall|j: int| 0 <= j < i ==> a@[j] == b@[j],
        decreases a.len() - i,
    {
        if a[i] != b[i] {
            return false;
        }
        i = i + 1;
    }
    proof {
        assert(a@ =~~= b@);
    }
    true
}

impl<'a> Stash<'a> {
    /// A stash with no groupings and `depth` levels still available.
    pub fn new(depth: u16) -> (r: Stash<'a>)
        ensures
            r@ == stash_empty(depth),
    {
        let r = Stash { remaining_depth: depth, groups: Vec::new(), pending: None };
        proof {
            assert(r@ =~~= stash_empty(depth));
        }
        r
    }

    /// The depth still available below this level.
    pub fn remaining_depth(&self) -> (r: u16)
        ensures
            r == self@.depth,
    {
        self.remaining_depth
    }

    /// Buffers one pair destined for the next level under group `key`; `rest`
    /// is the remaining bracket path and `value` the raw value range.
    pub fn add(&mut self, key: &'a [u8], rest: &'a [u8], value: &'a [u8])
        ensures
            final(self)@ == stash_add(
                old(self)@,
                key@,
                (PairModel { key: rest@, value: value@ }),
            ),
    {
        let pair = Pair::new(rest, value);
        let ghost gs = self@.groups;
        let ghost pm = PairModel { key: rest@, value: value@ };
        let mut i: usize = 0;
        let mut found = false;
        while !found && i < self.groups.len()
            invariant
                0 <= i <= self.groups.len(),
                gs == self@.groups,
                found ==> i < self.groups.len() && gs[i as int].key == key@,
                forall|j: int| 0 <= j < i ==> gs[j].key != key@,
            decreases self.groups.len() - i, (if found { 0int } else { 1int }),
        {
            if bytes_eq(self.groups[i].key, key) {
                found = true;
            } else {
                i = i + 1;
            }
        }
        if found {
            let mut g = self.groups.remove(i);
            g.pairs.push_front(pair);
            self.groups.insert(i, g);
            proof {
                lemma_groups_add_found(gs, key@, pm, i as int);
                assert(self@.groups =~~= gs.update(
                    i as int,
                    GroupModel { key: key@, pairs: seq![pm] + gs[i as int].pairs },
                ));
                assert(self@ =~~= stash_add(old(self)@, key@, pm));
            }
        } else {
            let mut pairs = VecDeque::new();
            pairs.push_front(pair);
            let g = Group { key, pairs };
            self.groups.push(g);
            proof {
                lemma_groups_add_missing(gs, key@, pm);
                assert(g@.pairs =~~= seq![pm]);
                assert(self@.groups =~~= gs.push(GroupModel { key: key@, pairs: seq![pm] }));
                assert(self@ =~~= stash_add(old(self)@, key@, pm));
            }
        }
    }

    /// Hands out the next unresolved group name in discovery order, marking
    /// that group as pending for [`Stash::next_value_map`]. A group already
    /// pending is dropped in favor of the next one.
    pub fn next_key(&mut self) -> (r: Option<&'a [u8]>)
        ensures
            old(self)@.groups.len() == 0 ==> (r is None && final(self)@ == old(self)@),
            old(self)@.groups.len() > 0 ==> (r matches Some(k) && k@
                == old(self)@.groups.first().key && final(self)@ == (StashModel {
                groups: old(self)@.groups.drop_first(),
                pending: Some(old(self)@.groups.first().pairs),
                ..old(self)@
            })),
    {
        if self.groups.len() == 0 {
            return None;
        }
        let g = self.groups.remove(0);
        let k = g.key;
        self.pending = Some(g.pairs);
        proof {
            assert(self@.groups =~~= old(self)@.groups.drop_first());
            assert(self@ =~~= StashModel {
                groups: old(self)@.groups.drop_first(),
                pending: Some(old(self)@.groups.first().pairs),
                ..old(self)@
            });
        }
        Some(k)
    }

    /// Builds the child map for the group whose key was last handed out, one
    /// level deeper. Fails with `InvalidMapValue` when no group is pending,
    /// and with `MaximumDepthReached` when no depth remains to descend.
    pub fn next_value_map(&mut self) -> (r: Result<PairMap<'a>, Error>)
        ensures
            old(self)@.pending is None ==> (r matches Err(e) && e == Error::InvalidMapValue
                && final(self)@ == old(self)@),
            old(self)@.pending is Some && old(self)@.depth == 0 ==> (r matches Err(e)
                && e == Error::MaximumDepthReached && final(self)@ == old(self)@),
            old(self)@.pending is Some && old(self)@.depth > 0 ==> (r matches Ok(m)
                && m@ == (MapModel {
                    pairs: old(self)@.pending.unwrap(),
                    pending: None,
                    stash: stash_empty((old(self)@.depth - 1) as u16),
                }) && final(self)@ == (StashModel { pending: None, ..old(self)@ })),
    {
        if self.pending.is_none() {
            return Err(Error::InvalidMapValue);
        }
        if self.remaining_depth == 0 {
            return Err(Error::MaximumDepthReached);
        }
        let ps = self.pending.take().unwrap();
        let m = PairMap::new(self.remaining_depth - 1, ps);
        proof {
            assert(self@ =~~= StashModel { pending: None, ..old(self)@ });
        }
        Ok(m)
    }
}

} // verus!
