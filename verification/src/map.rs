use vstd::prelude::*;
use std::collections::VecDeque;

use crate::error::Error;
use vstd::slice::slice_subrange;
use crate::key::{first_close, key_parse, parse_index, sort_key, KeyParse};
use crate::pair::{Pair, PairModel};
use crate::seq::{items_model, ItemKind, ItemModel, PairSeq, SeqModel};
use crate::sort::{entries_model, entry_model, sort_entries, stable_sort};
use crate::stash::{stash_add, stash_empty, GroupModel, Stash, StashModel};

verus! {

/// Mathematical image of a [`PairMap`]: the level-local queue (consumed from
/// the back), the at most one buffered scalar value, and the stash of pairs
/// deferred to deeper levels.
#[verifier::ext_equal]
pub ghost struct MapModel {
    pub pairs: Seq<PairModel>,
    pub pending: Option<Seq<u8>>,
    pub stash: StashModel,
}

/// The pair queue of one nesting level, plus one [`Stash`] for pairs whose
/// keys continue deeper. Created once per level and consumed exactly once,
/// either by repeated key/value resolution or wholesale by sequence
/// conversion.
pub struct PairMap<'a> {
    pub(crate) pairs: VecDeque<Pair<'a>>,
    value: Option<&'a [u8]>,
    stash: Stash<'a>,
}

pub open spec fn pairs_model<'a>(s: Seq<Pair<'a>>) -> Seq<PairModel> {
    s.map_values(|p: Pair<'a>| p@)
}

impl<'a> View for PairMap<'a> {
    type V = MapModel;

    closed spec fn view(&self) -> MapModel {
        MapModel {
            pairs: pairs_model(self.pairs@),
            pending: match self.value {
                Some(v) => Some(v@),
                None => None,
            },
            stash: self.stash@,
        }
    }
}

/// Outcome of resolving the next terminal key out of a level's queue:
/// either a terminal key was produced (with its value and the state left
/// behind), or the queue ran dry, or a key broke the bracket grammar.
#[verifier::ext_equal]
pub ghost enum NextKey {
    Found { segment: Seq<u8>, value: Seq<u8>, rest: Seq<PairModel>, stash: StashModel },
    Exhausted { stash: StashModel },
    Fail { rest: Seq<PairModel>, stash: StashModel },
}

/// One level's key resolution: pairs are popped from the back of the queue;
/// a terminal key stops the search, a deferred pair moves into the stash and
/// the search goes on, a malformed key fails it.
pub open spec fn next_key_spec(pairs: Seq<PairModel>, stash: StashModel) -> NextKey
    decreases pairs.len(),
{
    if pairs.len() == 0 {
        NextKey::Exhausted { stash }
    } else {
        let p = pairs.last();
        match key_parse(p.key) {
            KeyParse::Terminal { segment } => NextKey::Found {
                segment,
                value: p.value,
                rest: pairs.drop_last(),
                stash,
            },
            KeyParse::Deferred { segment, rest } => next_key_spec(
                pairs.drop_last(),
                stash_add(stash, segment, PairModel { key: rest, value: p.value }),
            ),
            KeyParse::Invalid => NextKey::Fail { rest: pairs.drop_last(), stash },
        }
    }
}


/// Phase-one outcome of sequence conversion: the level's terminal pairs
/// turned into keyed scalar entries in discovery order, with the stash as
/// the drain left it; or a bracket-grammar failure.
#[verifier::ext_equal]
pub ghost enum Drained {
    Done { items: Seq<(int, ItemModel)>, stash: StashModel },
    Fail,
}

pub open spec fn drain_prepend(items: Seq<(int, ItemModel)>, d: Drained) -> Drained {
    match d {
        Drained::Done { items: rest, stash } => Drained::Done { items: items + rest, stash },
        Drained::Fail => Drained::Fail,
    }
}

/// Drains every terminal pair of the queue into a keyed scalar entry; pairs
/// with continuing keys move into the stash on the way.
pub open spec fn drain_terminals(pairs: Seq<PairModel>, stash: StashModel) -> Drained
    decreases pairs.len(),
{
    if pairs.len() == 0 {
        Drained::Done { items: Seq::empty(), stash }
    } else {
        let p = pairs.last();
        match key_parse(p.key) {
            KeyParse::Terminal { segment } => drain_prepend(
                seq![(sort_key(segment), ItemModel::Value(p.value))],
                drain_terminals(pairs.drop_last(), stash),
            ),
            KeyParse::Deferred { segment, rest } => drain_terminals(
                pairs.drop_last(),
                stash_add(stash, segment, PairModel { key: rest, value: p.value }),
            ),
            KeyParse::Invalid => Drained::Fail,
        }
    }
}

/// One resolution step of the drain: what a single key request contributes.
pub proof fn lemma_drain_unfold(pairs: Seq<PairModel>, stash: StashModel)
    ensures
        ({
            match next_key_spec(pairs, stash) {
                NextKey::Found { segment, value, rest, stash: st } => rest.len() < pairs.len()
                    && drain_terminals(pairs, stash) == drain_prepend(
                    seq![(sort_key(segment), ItemModel::Value(value))],
                    drain_terminals(rest, st),
                ),
                NextKey::Exhausted { stash: st } => drain_terminals(pairs, stash)
                    == (Drained::Done { items: Seq::empty(), stash: st }),
                NextKey::Fail { .. } => drain_terminals(pairs, stash) == Drained::Fail,
            }
        }),
    decreases pairs.len(),
{
    if pairs.len() == 0 {
    } else {
        let p = pairs.last();
        match key_parse(p.key) {
            KeyParse::Terminal { .. } => {
            },
            KeyParse::Deferred { segment, rest } => {
                lemma_drain_unfold(
                    pairs.drop_last(),
                    stash_add(stash, segment, PairModel { key: rest, value: p.value }),
                );
            },
            KeyParse::Invalid => {
            },
        }
    }
}

/// The entries one exploded anonymous group contributes: each buffered pair
/// becomes its own single-pair child map under the sentinel key, in the
/// order the pairs arrived (the reverse of storage order).
pub open spec fn exploded(pairs: Seq<PairModel>, child_depth: u16) -> Seq<(int, ItemModel)> {
    pairs.reverse().map_values(
        |p: PairModel|
            (
                -1int,
                ItemModel::Nested(
                    MapModel { pairs: seq![p], pending: None, stash: stash_empty(child_depth) },
                ),
            ),
    )
}

/// Phase-two outcome of sequence conversion: the stash groups turned into
/// entries, or a failed descent for want of depth.
#[verifier::ext_equal]
pub ghost enum Grouped {
    Done { items: Seq<(int, ItemModel)> },
    Fail,
}

pub open spec fn grouped_prepend(items: Seq<(int, ItemModel)>, g: Grouped) -> Grouped {
    match g {
        Grouped::Done { items: rest } => Grouped::Done { items: items + rest },
        Grouped::Fail => Grouped::Fail,
    }
}

/// The entries one stash group contributes: an anonymous (empty-keyed) group
/// is exploded pair by pair; a named group becomes one child-map entry keyed
/// by its name read as an index.
pub open spec fn group_entries(g: GroupModel, child_depth: u16) -> Seq<(int, ItemModel)> {
    if g.key.len() == 0 {
        exploded(g.pairs, child_depth)
    } else {
        seq![
            (
                sort_key(g.key),
                ItemModel::Nested(
                    MapModel { pairs: g.pairs, pending: None, stash: stash_empty(child_depth) },
                ),
            ),
        ]
    }
}

/// Drains every stash group into entries, in discovery order, each child one
/// level deeper; any group at depth zero stops the conversion.
pub open spec fn group_items(groups: Seq<GroupModel>, depth: u16) -> Grouped
    decreases groups.len(),
{
    if groups.len() == 0 {
        Grouped::Done { items: Seq::empty() }
    } else if depth == 0 {
        Grouped::Fail
    } else {
        grouped_prepend(
            group_entries(groups.first(), (depth - 1) as u16),
            group_items(groups.drop_first(), depth),
        )
    }
}

/// What converting a level map into sequence form yields: terminal scalars,
/// then stash groups, stable-sorted ascending by index key with sentinel
/// entries first; or the error that stops the conversion.
pub open spec fn into_seq_spec(m: MapModel) -> Result<SeqModel, Error> {
    match drain_terminals(m.pairs, m.stash) {
        Drained::Fail => Err(Error::InvalidMapKey),
        Drained::Done { items, stash } => match group_items(stash.groups, stash.depth) {
            Grouped::Fail => Err(Error::MaximumDepthReached),
            Grouped::Done { items: gitems } => Ok(
                SeqModel {
                    items: stable_sort(items + gitems).map_values(|e: (int, ItemModel)| e.1),
                    depth: stash.depth,
                },
            ),
        },
    }
}


/// The segment a terminal key resolves to (meaningful only for such keys).
pub open spec fn terminal_segment(k: Seq<u8>) -> Seq<u8> {
    match key_parse(k) {
        KeyParse::Terminal { segment } => segment,
        _ => Seq::empty(),
    }
}

/// Outcome of draining one level by repeated key and value requests.
#[verifier::ext_equal]
pub ghost enum DrainedEntries {
    Done { entries: Seq<(Seq<u8>, Seq<u8>)>, stash: StashModel },
    Fail,
}

/// What repeated key/value resolution yields for one level: the terminal
/// (segment, value) couples in discovery order, and the stash as the drain
/// leaves it; or a bracket-grammar failure.
pub open spec fn drain_entries(pairs: Seq<PairModel>, stash: StashModel) -> DrainedEntries
    decreases pairs.len(),
{
    if pairs.len() == 0 {
        DrainedEntries::Done { entries: Seq::empty(), stash }
    } else {
        let p = pairs.last();
        match key_parse(p.key) {
            KeyParse::Terminal { segment } => match drain_entries(pairs.drop_last(), stash) {
                DrainedEntries::Done { entries, stash } => DrainedEntries::Done {
                    entries: seq![(segment, p.value)] + entries,
                    stash,
                },
                DrainedEntries::Fail => DrainedEntries::Fail,
            },
            KeyParse::Deferred { segment, rest } => drain_entries(
                pairs.drop_last(),
                stash_add(stash, segment, PairModel { key: rest, value: p.value }),
            ),
            KeyParse::Invalid => DrainedEntries::Fail,
        }
    }
}

impl<'a> PairMap<'a> {
    /// A level map over a caller-supplied pair queue, with `depth` levels
    /// still allowed below it.
    pub fn new(depth: u16, pairs: VecDeque<Pair<'a>>) -> (r: PairMap<'a>)
        ensures
            r@ == (MapModel {
                pairs: pairs_model(pairs@),
                pending: None,
                stash: stash_empty(depth),
            }),
    {
        let r = PairMap { pairs, value: None, stash: Stash::new(depth) };
        proof {
            assert(r@ =~~= MapModel {
                pairs: pairs_model(pairs@),
                pending: None,
                stash: stash_empty(depth),
            });
        }
        r
    }

    /// A level map holding exactly one pair.
    pub fn with_one_pair(depth: u16, pair: Pair<'a>) -> (r: PairMap<'a>)
        ensures
            r@ == (MapModel {
                pairs: seq![pair@],
                pending: None,
                stash: stash_empty(depth),
            }),
    {
        let mut pairs = VecDeque::new();
        pairs.push_front(pair);
        let r = PairMap { pairs, value: None, stash: Stash::new(depth) };
        proof {
            assert(r@.pairs =~~= seq![pair@]);
            assert(r@ =~~= MapModel { pairs: seq![pair@], pending: None, stash: stash_empty(depth) });
        }
        r
    }

    /// The depth still allowed below this level.
    pub fn remaining_depth(&self) -> (r: u16)
        ensures
            r == self@.stash.depth,
    {
        self.stash.remaining_depth()
    }

    /// Whether any pair remains in the level-local queue; an empty queue is
    /// what resolves an optional value to "absent".
    pub fn has_pairs(&self) -> (r: bool)
        ensures
            r == (self@.pairs.len() > 0),
    {
        self.pairs.len() > 0
    }

    /// Resolves one pair against the bracket grammar `<segment> ']' [ '['
    /// <rest> ]`: a terminal key buffers the pair's value and hands back the
    /// segment; a continuing key defers the remainder into the stash and
    /// hands back nothing; anything else fails with `InvalidMapKey`.
    pub fn parse_pair(&mut self, pair: Pair<'a>) -> (r: Result<Option<&'a [u8]>, Error>)
        ensures
            ({
                let m0 = old(self)@;
                match key_parse(pair@.key) {
                    KeyParse::Terminal { segment } => r matches Ok(Some(k)) && k@ == segment
                        && final(self)@ == (MapModel { pending: Some(pair@.value), ..m0 }),
                    KeyParse::Deferred { segment, rest } => r matches Ok(None) && final(self)@
                        == (MapModel {
                        stash: stash_add(
                            m0.stash,
                            segment,
                            (PairModel { key: rest, value: pair@.value }),
                        ),
                        ..m0
                    }),
                    KeyParse::Invalid => r matches Err(e) && e == Error::InvalidMapKey
                        && final(self)@ == m0,
                }
            }),
    {
        let klen = pair.key.len();
        let mut key_index: usize = 0;
        while key_index < klen && pair.key[key_index] != 93u8
            invariant
                0 <= key_index <= klen,
                klen == pair@.key.len(),
                first_close(pair@.key, 0) == first_close(pair@.key, key_index as int),
            decreases klen - key_index,
        {
            key_index = key_index + 1;
        }

        if key_index == klen {
            // No closing bracket anywhere in the key.
            assert(first_close(pair@.key, 0) == klen);
            return Err(Error::InvalidMapKey);
        }
        assert(first_close(pair@.key, 0) == key_index);

        if klen > key_index + 1 {
            if klen > key_index + 2 && pair.key[key_index + 1] == 91u8 {
                let segment = slice_take(pair.key, key_index);
                let rest = slice_skip(pair.key, key_index + 2);
                self.stash.add(segment, rest, pair.value);
                proof {
                    assert(self@ =~~= MapModel {
                        stash: stash_add(
                            old(self)@.stash,
                            pair@.key.take(key_index as int),
                            PairModel { key: pair@.key.skip(key_index + 2), value: pair@.value },
                        ),
                        ..old(self)@
                    });
                }
                Ok(None)
            } else {
                // Trailing content after the closing bracket that is not a
                // fresh opener with content.
                Err(Error::InvalidMapKey)
            }
        } else {
            self.value = Some(pair.value);
            let segment = slice_take(pair.key, key_index);
            proof {
                assert(self@ =~~= MapModel { pending: Some(pair@.value), ..old(self)@ });
            }
            Ok(Some(segment))
        }
    }

    /// Pops pairs off the level-local queue until one resolves to a terminal
    /// key (returned, with its value buffered) or the queue runs dry.
    pub fn next_key(&mut self) -> (r: Result<Option<&'a [u8]>, Error>)
        ensures
            ({
                let m0 = old(self)@;
                match next_key_spec(m0.pairs, m0.stash) {
                    NextKey::Found { segment, value, rest, stash } => r matches Ok(Some(k))
                        && k@ == segment && final(self)@ == (MapModel {
                        pairs: rest,
                        pending: Some(value),
                        stash,
                    }),
                    NextKey::Exhausted { stash } => r matches Ok(None) && final(self)@
                        == (MapModel { pairs: Seq::empty(), pending: m0.pending, stash }),
                    NextKey::Fail { rest, stash } => r matches Err(e) && e == Error::InvalidMapKey
                        && final(self)@ == (MapModel { pairs: rest, pending: m0.pending, stash }),
                }
            }),
    {
        loop
            invariant
                next_key_spec(old(self)@.pairs, old(self)@.stash) == next_key_spec(
                    self@.pairs,
                    self@.stash,
                ),
                self@.pending == old(self)@.pending,
            decreases self@.pairs.len(),
        {
            let ghost cur = self@;
            match self.pairs.pop_back() {
                Some(pair) => {
                    proof {
                        assert(pairs_model(self.pairs@) =~~= cur.pairs.drop_last());
                        assert(pair@ == cur.pairs.last());
                    }
                    match self.parse_pair(pair) {
                        Ok(Some(key)) => {
                            proof {
                                assert(next_key_spec(cur.pairs, cur.stash) matches NextKey::Found {
                                    segment,
                                    value,
                                    rest,
                                    stash,
                                } && key@ == segment && self@ =~~= (MapModel {
                                    pairs: rest,
                                    pending: Some(value),
                                    stash,
                                }));
                            }
                            return Ok(Some(key));
                        },
                        Ok(None) => {
                            proof {
                                assert(next_key_spec(cur.pairs, cur.stash) == next_key_spec(
                                    self@.pairs,
                                    self@.stash,
                                ));
                            }
                        },
                        Err(e) => {
                            proof {
                                assert(next_key_spec(cur.pairs, cur.stash) matches NextKey::Fail {
                                    rest,
                                    stash,
                                } && self@ =~~= (MapModel {
                                    pairs: rest,
                                    pending: cur.pending,
                                    stash,
                                }));
                            }
                            return Err(e);
                        },
                    }
                },
                None => {
                    proof {
                        assert(cur.pairs.len() == 0);
                        assert(self@ =~~= (MapModel {
                            pairs: Seq::empty(),
                            pending: cur.pending,
                            stash: cur.stash,
                        }));
                    }
                    return Ok(None);
                },
            }
        }
    }

    /// Takes the buffered scalar value set by the last terminal key. Fails
    /// with `InvalidMapValue` exactly when none is pending: the caller asked
    /// for a value before resolving a key, or twice in a row.
    pub fn next_value(&mut self) -> (r: Result<&'a [u8], Error>)
        ensures
            old(self)@.pending matches Some(v) ==> (r matches Ok(b) && b@ == v && final(self)@
                == (MapModel { pending: None, ..old(self)@ })),
            old(self)@.pending is None ==> (r matches Err(e) && e == Error::InvalidMapValue
                && final(self)@ == old(self)@),
    {
        match self.value.take() {
            Some(value) => Ok(value),
            None => Err(Error::InvalidMapValue),
        }
    }


    /// Converts this level map wholesale into an ordered sequence: terminal
    /// pairs first, then stash groups, stable-sorted ascending by index key
    /// with sentinel (unindexed) entries first.
    pub fn into_seq(self) -> (r: Result<PairSeq<'a>, Error>)
        ensures
            ({
                match into_seq_spec(self@) {
                    Ok(sm) => r matches Ok(s) && s@ == sm,
                    Err(e0) => r matches Err(e) && e == e0,
                }
            }),
    {
        let mut this = self;
        let ghost m0 = this@;
        let mut entries: Vec<(i64, ItemKind<'a>)> = Vec::new();

        proof {
            assert(entries_model(entries@) =~~= Seq::<(int, ItemModel)>::empty());
            assert(drain_terminals(m0.pairs, m0.stash) =~~= drain_prepend(
                entries_model(entries@),
                drain_terminals(this@.pairs, this@.stash),
            ));
        }
        let mut drained = false;
        while !drained
            invariant
                m0 == self@,
                drain_terminals(m0.pairs, m0.stash) == drain_prepend(
                    entries_model(entries@),
                    drain_terminals(this@.pairs, this@.stash),
                ),
                drained ==> this@.pairs.len() == 0,
            decreases this@.pairs.len() + (if drained { 0int } else { 1int }),
        {
            let ghost cur = this@;
            let ghost e0 = entries_model(entries@);
            proof {
                lemma_drain_unfold(cur.pairs, cur.stash);
            }
            match this.next_key() {
                Ok(Some(k)) => {
                    let v = match this.next_value() {
                        Ok(v) => v,
                        Err(e) => {
                            return Err(e);
                        },
                    };
                    let idx: i64 = match parse_index(k) {
                        Some(n) => n as i64,
                        None => -1,
                    };
                    entries.push((idx, ItemKind::Value(v)));
                    proof {
                        let item = (sort_key(k@), ItemModel::Value(v@));
                        assert(idx as int == sort_key(k@));
                        assert(entries_model(entries@) =~~= e0 + seq![item]);
                        assert(drain_prepend(e0, drain_prepend(
                            seq![item],
                            drain_terminals(this@.pairs, this@.stash),
                        )) =~~= drain_prepend(
                            e0 + seq![item],
                            drain_terminals(this@.pairs, this@.stash),
                        ));
                    }
                },
                Ok(None) => {
                    drained = true;
                },
                Err(e) => {
                    proof {
                        assert(drain_terminals(m0.pairs, m0.stash) == Drained::Fail);
                    }
                    return Err(e);
                },
            }
        }
        let ghost items1 = entries_model(entries@);
        let ghost stash1 = this@.stash;
        let ghost depth = this@.stash.depth;
        proof {
            assert(drain_terminals(this@.pairs, this@.stash) =~~= Drained::Done {
                items: Seq::empty(),
                stash: stash1,
            });
            assert(drain_terminals(m0.pairs, m0.stash) =~~= Drained::Done {
                items: items1,
                stash: stash1,
            });
        }

        let ghost mut acc2: Seq<(int, ItemModel)> = Seq::empty();
        proof {
            assert(entries_model(entries@) =~~= items1 + acc2);
            assert(group_items(stash1.groups, depth) =~~= grouped_prepend(
                acc2,
                group_items(this@.stash.groups, depth),
            ));
        }
        let mut grouped = false;
        while !grouped
            invariant
                m0 == self@,
                drain_terminals(m0.pairs, m0.stash) == (Drained::Done {
                    items: items1,
                    stash: stash1,
                }),
                stash1.depth == depth,
                this@.stash.depth == depth,
                entries_model(entries@) == items1 + acc2,
                group_items(stash1.groups, depth) == grouped_prepend(
                    acc2,
                    group_items(this@.stash.groups, depth),
                ),
                grouped ==> this@.stash.groups.len() == 0,
            decreases this@.stash.groups.len() + (if grouped { 0int } else { 1int }),
        {
            let ghost cur = this@;
            let ghost a0 = acc2;
            match this.stash.next_key() {
                Some(key) => {
                    let ghost g = cur.stash.groups.first();
                    let mut child = match this.stash.next_value_map() {
                        Ok(m) => m,
                        Err(e) => {
                            proof {
                                assert(cur.stash.groups.len() > 0);
                                assert(group_items(cur.stash.groups, depth) == Grouped::Fail);
                                assert(group_items(stash1.groups, depth) == Grouped::Fail);
                            }
                            return Err(e);
                        },
                    };
                    let d1 = this.stash.remaining_depth() - 1;
                    if key.len() == 0 {
                        let ghost gp = g.pairs;
                        let ghost base = entries_model(entries@);
                        let ghost mut count: int = 0;
                        proof {
                            assert(pairs_model(child.pairs@) =~~= gp.take(gp.len() - count));
                            assert(entries_model(entries@) =~~= base + exploded(gp, d1).take(
                                count,
                            ));
                        }
                        let mut exhausted = false;
                        while !exhausted
                            invariant
                                0 <= count <= gp.len(),
                                pairs_model(child.pairs@) == gp.take(gp.len() - count),
                                entries_model(entries@) == base + exploded(gp, d1).take(count),
                                exhausted ==> count == gp.len(),
                            decreases gp.len() - count + (if exhausted { 0int } else { 1int }),
                        {
                            let ghost pcur = pairs_model(child.pairs@);
                            match child.pairs.pop_back() {
                                Some(pair) => {
                                    proof {
                                        assert(pcur.len() > 0);
                                        assert(pcur[pcur.len() - 1] == pair@);
                                        assert(pcur =~~= gp.take(gp.len() - count));
                                        assert(pair@ == gp[gp.len() - count - 1]);
                                    }
                                    let item = PairMap::with_one_pair(d1, pair);
                                    entries.push((-1i64, ItemKind::Nested(item)));
                                    proof {
                                        assert(pair@ == gp[gp.len() - count - 1]);
                                        assert(pairs_model(child.pairs@) =~~= gp.take(
                                            gp.len() - count - 1,
                                        ));
                                        assert(gp.reverse().len() == gp.len());
                                        assert(gp.reverse()[count] == gp[gp.len() - 1 - count]);
                                        assert(exploded(gp, d1)[count] == (
                                            -1int,
                                            ItemModel::Nested(
                                                MapModel {
                                                    pairs: seq![pair@],
                                                    pending: None,
                                                    stash: stash_empty(d1),
                                                },
                                            ),
                                        ));
                                        count = count + 1;
                                        let eprev = base + exploded(gp, d1).take(count - 1);
                                        assert(entries_model(entries@) =~~= eprev.push(
                                            (-1int, ItemModel::Nested(item@)),
                                        ));
                                        assert((-1int, ItemModel::Nested(item@)) == exploded(
                                            gp,
                                            d1,
                                        )[count - 1]);
                                        assert(exploded(gp, d1).take(count) =~~= exploded(
                                            gp,
                                            d1,
                                        ).take(count - 1).push(exploded(gp, d1)[count - 1]));
                                        assert(entries_model(entries@) =~~= base + exploded(
                                            gp,
                                            d1,
                                        ).take(count));
                                    }
                                },
                                None => {
                                    exhausted = true;
                                    proof {
                                        assert(gp.take(gp.len() - count).len() == 0);
                                    }
                                },
                            }
                        }
                        proof {
                            assert(exploded(gp, d1).take(count) =~~= exploded(gp, d1));
                            assert(group_entries(g, d1) =~~= exploded(gp, d1));
                            acc2 = a0 + group_entries(g, d1);
                            assert(entries_model(entries@) =~~= items1 + acc2);
                            assert(grouped_prepend(a0, grouped_prepend(
                                group_entries(g, d1),
                                group_items(this@.stash.groups, depth),
                            )) =~~= grouped_prepend(
                                acc2,
                                group_items(this@.stash.groups, depth),
                            ));
                        }
                    } else {
                        let idx: i64 = match parse_index(key) {
                            Some(n) => n as i64,
                            None => -1,
                        };
                        entries.push((idx, ItemKind::Nested(child)));
                        proof {
                            assert(idx as int == sort_key(key@));
                            assert(group_entries(g, d1) =~~= seq![
                                (sort_key(g.key), ItemModel::Nested(
                                    MapModel {
                                        pairs: g.pairs,
                                        pending: None,
                                        stash: stash_empty(d1),
                                    },
                                )),
                            ]);
                            acc2 = a0 + group_entries(g, d1);
                            assert(key@ == g.key);
                            assert(d1 == (depth - 1) as u16);
                            assert(entries_model(entries@) =~~= (items1 + a0).push(
                                (idx as int, ItemModel::Nested(child@)),
                            ));
                            assert((idx as int, ItemModel::Nested(child@)) == (
                                sort_key(g.key),
                                ItemModel::Nested(
                                    MapModel {
                                        pairs: g.pairs,
                                        pending: None,
                                        stash: stash_empty(d1),
                                    },
                                ),
                            ));
                            assert(entries_model(entries@) =~~= items1 + acc2);
                            assert(grouped_prepend(a0, grouped_prepend(
                                group_entries(g, d1),
                                group_items(this@.stash.groups, depth),
                            )) =~~= grouped_prepend(
                                acc2,
                                group_items(this@.stash.groups, depth),
                            ));
                        }
                    }
                },
                None => {
                    grouped = true;
                },
            }
        }
        proof {
            assert(group_items(this@.stash.groups, depth) =~~= Grouped::Done {
                items: Seq::empty(),
            });
            assert(group_items(stash1.groups, depth) =~~= Grouped::Done { items: acc2 });
            assert(entries_model(entries@) =~~= items1 + acc2);
        }

        let ghost sm = stable_sort(items1 + acc2);
        let sorted = sort_entries(entries);
        let mut rest = sorted;
        let mut items: Vec<ItemKind<'a>> = Vec::new();
        proof {
            assert(items_model(items@) =~~= sm.map_values(|e: (int, ItemModel)| e.1).take(
                items@.len() as int,
            ));
            assert(entries_model(rest@) =~~= sm.skip(items@.len() as int));
        }
        while rest.len() > 0
            invariant
                items@.len() + rest@.len() == sm.len(),
                items_model(items@) == sm.map_values(|e: (int, ItemModel)| e.1).take(
                    items@.len() as int,
                ),
                entries_model(rest@) == sm.skip(items@.len() as int),
            decreases rest.len(),
        {
            let ghost r0 = entries_model(rest@);
            let ghost n0 = items@.len() as int;
            let e = rest.remove(0);
            items.push(e.1);
            proof {
                assert(entry_model(e) == r0.first());
                assert(entry_model(e) == sm[n0]);
                assert(entries_model(rest@) =~~= r0.drop_first());
                assert(r0.drop_first() =~~= sm.skip(n0 + 1));
                assert(items_model(items@) =~~= sm.map_values(|e: (int, ItemModel)| e.1).take(
                    n0 + 1,
                ));
                assert(entries_model(rest@) =~~= sm.skip(n0 + 1));
            }
        }
        proof {
            assert(items_model(items@) =~~= sm.map_values(|e: (int, ItemModel)| e.1));
        }
        let d = this.stash.remaining_depth();
        let r = PairSeq::new(items, d);
        proof {
            assert(r@ =~~= SeqModel {
                items: sm.map_values(|e: (int, ItemModel)| e.1),
                depth: depth,
            });
        }
        Ok(r)
    }

    /// Resolves the next map-entry key: the level's own queue first, then the
    /// next unresolved stash group. Requires depth to descend; exhaustion of
    /// both sources is "no more entries".
    pub fn next_entry_key(&mut self) -> (r: Result<Option<&'a [u8]>, Error>)
        ensures
            ({
                let m0 = old(self)@;
                if m0.stash.depth == 0 {
                    r matches Err(e) && e == Error::MaximumDepthReached && final(self)@ == m0
                } else {
                    match next_key_spec(m0.pairs, m0.stash) {
                        NextKey::Found { segment, value, rest, stash } => r matches Ok(Some(k))
                            && k@ == segment && final(self)@ == (MapModel {
                            pairs: rest,
                            pending: Some(value),
                            stash,
                        }),
                        NextKey::Exhausted { stash } => {
                            if stash.groups.len() > 0 {
                                r matches Ok(Some(k)) && k@ == stash.groups.first().key && final(self)@ == (MapModel {
                                    pairs: Seq::empty(),
                                    pending: m0.pending,
                                    stash: StashModel {
                                        groups: stash.groups.drop_first(),
                                        pending: Some(stash.groups.first().pairs),
                                        ..stash
                                    },
                                })
                            } else {
                                r matches Ok(None) && final(self)@ == (MapModel {
                                    pairs: Seq::empty(),
                                    pending: m0.pending,
                                    stash,
                                })
                            }
                        },
                        NextKey::Fail { rest, stash } => r matches Err(e) && e
                            == Error::InvalidMapKey && final(self)@ == (MapModel {
                            pairs: rest,
                            pending: m0.pending,
                            stash,
                        }),
                    }
                }
            }),
    {
        if self.stash.remaining_depth() == 0 {
            return Err(Error::MaximumDepthReached);
        }
        match self.next_key() {
            Ok(Some(k)) => Ok(Some(k)),
            Ok(None) => Ok(self.stash.next_key()),
            Err(e) => Err(e),
        }
    }

    /// Resolves an enum discriminant: exactly like a map-entry key, except
    /// that running out of pairs is a failure (`EofReached`), since one
    /// discriminant is mandatory.
    pub fn variant_key(&mut self) -> (r: Result<&'a [u8], Error>)
        ensures
            ({
                let m0 = old(self)@;
                if m0.stash.depth == 0 {
                    r matches Err(e) && e == Error::MaximumDepthReached && final(self)@ == m0
                } else {
                    match next_key_spec(m0.pairs, m0.stash) {
                        NextKey::Found { segment, value, rest, stash } => r matches Ok(k) && k@
                            == segment && final(self)@ == (MapModel {
                            pairs: rest,
                            pending: Some(value),
                            stash,
                        }),
                        NextKey::Exhausted { stash } => {
                            if stash.groups.len() > 0 {
                                r matches Ok(k) && k@ == stash.groups.first().key && final(self)@
                                    == (MapModel {
                                    pairs: Seq::empty(),
                                    pending: m0.pending,
                                    stash: StashModel {
                                        groups: stash.groups.drop_first(),
                                        pending: Some(stash.groups.first().pairs),
                                        ..stash
                                    },
                                })
                            } else {
                                r matches Err(e) && e == Error::EofReached && final(self)@
                                    == (MapModel {
                                    pairs: Seq::empty(),
                                    pending: m0.pending,
                                    stash,
                                })
                            }
                        },
                        NextKey::Fail { rest, stash } => r matches Err(e) && e
                            == Error::InvalidMapKey && final(self)@ == (MapModel {
                            pairs: rest,
                            pending: m0.pending,
                            stash,
                        }),
                    }
                }
            }),
    {
        if self.stash.remaining_depth() == 0 {
            return Err(Error::MaximumDepthReached);
        }
        match self.next_key() {
            Ok(Some(k)) => Ok(k),
            Ok(None) => match self.stash.next_key() {
                Some(k) => Ok(k),
                None => Err(Error::EofReached),
            },
            Err(e) => Err(e),
        }
    }

    /// Resolves the value matching the key just handed out: the buffered
    /// scalar if one is pending, else the child map reconstructed from the
    /// pending stash group, one level deeper.
    pub fn next_entry_value(&mut self) -> (r: Result<ItemKind<'a>, Error>)
        ensures
            ({
                let m0 = old(self)@;
                match m0.pending {
                    Some(v) => r matches Ok(it) && it@ == ItemModel::Value(v) && final(self)@
                        == (MapModel { pending: None, ..m0 }),
                    None => match m0.stash.pending {
                        None => r matches Err(e) && e == Error::InvalidMapValue && final(self)@
                            == m0,
                        Some(ps) => {
                            if m0.stash.depth == 0 {
                                r matches Err(e) && e == Error::MaximumDepthReached && final(self)@
                                    == m0
                            } else {
                                r matches Ok(it) && it@ == ItemModel::Nested(
                                    MapModel {
                                        pairs: ps,
                                        pending: None,
                                        stash: stash_empty((m0.stash.depth - 1) as u16),
                                    },
                                ) && final(self)@ == (MapModel {
                                    stash: StashModel { pending: None, ..m0.stash },
                                    ..m0
                                })
                            }
                        },
                    },
                }
            }),
    {
        match self.next_value() {
            Ok(v) => {
                proof {
                    assert(self@ =~~= MapModel { pending: None, ..old(self)@ });
                }
                Ok(ItemKind::Value(v))
            },
            Err(_) => match self.stash.next_value_map() {
                Ok(m) => {
                    proof {
                        assert(self@ =~~= MapModel {
                            stash: StashModel { pending: None, ..old(self)@.stash },
                            ..old(self)@
                        });
                    }
                    Ok(ItemKind::Nested(m))
                },
                Err(e) => {
                    proof {
                        assert(self@ =~~= old(self)@);
                    }
                    Err(e)
                },
            },
        }
    }

    /// Builds the child map for the stash group whose key was just handed
    /// out, bypassing any buffered scalar: struct-shaped enum payloads
    /// resolve through this.
    pub fn stash_value_map(&mut self) -> (r: Result<PairMap<'a>, Error>)
        ensures
            ({
                let m0 = old(self)@;
                match m0.stash.pending {
                    None => r matches Err(e) && e == Error::InvalidMapValue && final(self)@ == m0,
                    Some(ps) => {
                        if m0.stash.depth == 0 {
                            r matches Err(e) && e == Error::MaximumDepthReached && final(self)@
                                == m0
                        } else {
                            r matches Ok(m) && m@ == (MapModel {
                                pairs: ps,
                                pending: None,
                                stash: stash_empty((m0.stash.depth - 1) as u16),
                            }) && final(self)@ == (MapModel {
                                stash: StashModel { pending: None, ..m0.stash },
                                ..m0
                            })
                        }
                    },
                }
            }),
    {
        self.stash.next_value_map()
    }
}

/// The first `n` bytes of a slice.
pub fn slice_take<'a>(s: &'a [u8], n: usize) -> (r: &'a [u8])
    requires
        n <= s@.len(),
    ensures
        r@ == s@.take(n as int),
{
    let r = slice_subrange(s, 0, n);
    proof {
        assert(r@ =~~= s@.take(n as int));
    }
    r
}

/// The bytes of a slice from position `n` on.
pub fn slice_skip<'a>(s: &'a [u8], n: usize) -> (r: &'a [u8])
    requires
        n <= s@.len(),
    ensures
        r@ == s@.skip(n as int),
{
    let r = slice_subrange(s, n, s.len());
    proof {
        assert(r@ =~~= s@.skip(n as int));
    }
    r
}

} // verus!
