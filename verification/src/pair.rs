use vstd::prelude::*;

verus! {

/// One raw key/value pair of the flat input collection. The key is the
/// remaining bracket path from the owning level downward; both ranges borrow
/// from the original input buffer and are never copied.
#[derive(Clone, Copy)]
pub struct Pair<'a> {
    pub key: &'a [u8],
    pub value: &'a [u8],
}

/// Mathematical image of a [`Pair`]: its key and value byte strings.
#[verifier::ext_equal]
pub ghost struct PairModel {
    pub key: Seq<u8>,
    pub value: Seq<u8>,
}

impl<'a> Pair<'a> {
    pub fn new(key: &'a [u8], value: &'a [u8]) -> (r: Pair<'a>)
        ensures
            r@ == (PairModel { key: key@, value: value@ }),
    {
        Pair { key, value }
    }
}

impl<'a> View for Pair<'a> {
    type V = PairModel;

    open spec fn view(&self) -> PairModel {
        PairModel { key: self.key@, value: self.value@ }
    }
}

} // verus!
