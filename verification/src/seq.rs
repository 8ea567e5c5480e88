use vstd::prelude::*;

use crate::map::{MapModel, PairMap};

verus! {

/// One resolved sequence item: either a scalar byte range or a nested map
/// that resolves its own shape recursively.
pub enum ItemKind<'a> {
    Value(&'a [u8]),
    Nested(PairMap<'a>),
}

/// Mathematical image of an [`ItemKind`].
#[verifier::ext_equal]
pub ghost enum ItemModel {
    Value(Seq<u8>),
    Nested(MapModel),
}

impl<'a> View for ItemKind<'a> {
    type V = ItemModel;

    open spec fn view(&self) -> ItemModel {
        match self {
            ItemKind::Value(v) => ItemModel::Value(v@),
            ItemKind::Nested(m) => ItemModel::Nested(m@),
        }
    }
}

pub open spec fn items_model<'a>(s: Seq<ItemKind<'a>>) -> Seq<ItemModel> {
    s.map_values(|i: ItemKind<'a>| i@)
}

/// An ordered, already-resolved sequence of items, stored in final emission
/// order and handed out from the front.
pub struct PairSeq<'a> {
    items: Vec<ItemKind<'a>>,
    remaining_depth: u16,
}

/// Mathematical image of a [`PairSeq`]: the items still to be emitted, in
/// emission order, and the depth still allowed below each scalar item.
#[verifier::ext_equal]
pub ghost struct SeqModel {
    pub items: Seq<ItemModel>,
    pub depth: u16,
}

impl<'a> View for PairSeq<'a> {
    type V = SeqModel;

    closed spec fn view(&self) -> SeqModel {
        SeqModel { items: items_model(self.items@), depth: self.remaining_depth }
    }
}

impl<'a> PairSeq<'a> {
    /// A resolved sequence over `items`, already in emission order.
    pub fn new(items: Vec<ItemKind<'a>>, remaining_depth: u16) -> (r: PairSeq<'a>)
        ensures
            r@ == (SeqModel { items: items_model(items@), depth: remaining_depth }),
    {
        let r = PairSeq { items, remaining_depth };
        proof {
            assert(r@ =~~= SeqModel { items: items_model(items@), depth: remaining_depth });
        }
        r
    }

    /// The depth still allowed below this sequence's scalar items.
    pub fn remaining_depth(&self) -> (r: u16)
        ensures
            r == self@.depth,
    {
        self.remaining_depth
    }

    /// Removes and hands out the next item in emission order, or nothing once
    /// the sequence is exhausted.
    pub fn next_item(&mut self) -> (r: Option<ItemKind<'a>>)
        ensures
            old(self)@.items.len() == 0 ==> (r is None && final(self)@ == old(self)@),
            old(self)@.items.len() > 0 ==> (r matches Some(it) && it@ == old(self)@.items.first()
                && final(self)@ == (SeqModel {
                items: old(self)@.items.drop_first(),
                ..old(self)@
            })),
    {
        if self.items.len() == 0 {
            return None;
        }
        let it = self.items.remove(0);
        proof {
            assert(self@.items =~~= old(self)@.items.drop_first());
        }
        Some(it)
    }
}

} // verus!
