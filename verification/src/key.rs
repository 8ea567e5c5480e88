use vstd::prelude::*;

verus! {

/// The shape of one pair's key at the current nesting level.
///
/// A key must match `<segment> ']' [ '[' <rest> ]`: either it terminates at
/// this level (a scalar follows), or it continues into a deeper level with
/// `rest` as the remaining bracket path, or it is malformed.
pub ghost enum KeyParse {
    /// The key ends right after its closing bracket: a terminal key.
    Terminal { segment: Seq<u8> },
    /// A fresh opener with content follows the closing bracket: the pair
    /// belongs to the deeper level named by `segment`.
    Deferred { segment: Seq<u8>, rest: Seq<u8> },
    /// No closing bracket, or trailing content that is not a fresh opener.
    Invalid,
}

/// Index of the first `]` at or after position `i`, or `k.len()` if none.
pub open spec fn first_close(k: Seq<u8>, i: int) -> int
    decreases k.len() - i,
{
    if i >= k.len() {
        k.len() as int
    } else if k[i] == 93u8 {
        i
    } else {
        first_close(k, i + 1)
    }
}

/// The bracket grammar of one key: `<segment> ']' [ '[' <rest> ]`.
pub open spec fn key_parse(k: Seq<u8>) -> KeyParse {
    let i = first_close(k, 0);
    if i == k.len() {
        KeyParse::Invalid
    } else if k.len() == i + 1 {
        KeyParse::Terminal { segment: k.take(i) }
    } else if k.len() > i + 2 && k[i + 1] == 91u8 {
        KeyParse::Deferred { segment: k.take(i), rest: k.skip(i + 2) }
    } else {
        KeyParse::Invalid
    }
}

pub open spec fn is_digit(b: u8) -> bool {
    48 <= b <= 57
}

pub open spec fn all_digits(s: Seq<u8>) -> bool {
    forall|i: int| 0 <= i < s.len() ==> is_digit(s[i])
}

/// Value of a digit string read in base 10.
pub open spec fn dec_value(s: Seq<u8>) -> int
    decreases s.len(),
{
    if s.len() == 0 {
        0
    } else {
        dec_value(s.drop_last()) * 10 + (s.last() - 48)
    }
}

/// What a byte string resolves to when read as a bounded non-negative index:
/// a non-empty all-digit string whose value fits `u16`, else nothing.
pub open spec fn parse_index_spec(s: Seq<u8>) -> Option<u16> {
    if s.len() > 0 && all_digits(s) && dec_value(s) <= u16::MAX {
        Some(dec_value(s) as u16)
    } else {
        None
    }
}

/// The integer ordering key of one resolved segment: its bounded index
/// value, or the sentinel -1 when it is not one.
pub open spec fn sort_key(segment: Seq<u8>) -> int {
    match parse_index_spec(segment) {
        Some(n) => n as int,
        None => -1,
    }
}

pub proof fn lemma_dec_value_nonneg(s: Seq<u8>)
    requires
        all_digits(s),
    ensures
        dec_value(s) >= 0,
    decreases s.len(),
{
    if s.len() > 0 {
        assert(all_digits(s.drop_last()));
        lemma_dec_value_nonneg(s.drop_last());
    }
}

/// A digit string's value only grows as more digits are appended.
pub proof fn lemma_dec_value_mono(s: Seq<u8>, j: int)
    requires
        all_digits(s),
        0 <= j <= s.len(),
    ensures
        dec_value(s.take(j)) <= dec_value(s),
    decreases s.len() - j,
{
    if j == s.len() {
        assert(s.take(j) =~= s);
    } else {
        assert(s.take(j + 1).drop_last() =~= s.take(j));
        assert(s.take(j + 1).last() == s[j]);
        assert(all_digits(s.take(j)));
        lemma_dec_value_nonneg(s.take(j));
        lemma_dec_value_mono(s, j + 1);
    }
}

/// Reads a byte string as a bounded non-negative sequence index: base-10
/// digits only, value at most `u16::MAX`.
pub fn parse_index(s: &[u8]) -> (r: Option<u16>)
    ensures
        r == parse_index_spec(s@),
{
    if s.len() == 0 {
        return None;
    }
    let mut acc: u32 = 0;
    let mut i: usize = 0;
    while i < s.len()
        invariant
            0 <= i <= s.len(),
            all_digits(s@.take(i as int)),
            acc == dec_value(s@.take(i as int)),
            acc <= 65535,
        decreases s.len() - i,
    {
        let b = s[i];
        if b < 48 || b > 57 {
            assert(!is_digit(s@[i as int]));
            return None;
        }
        proof {
            assert(s@.take(i + 1).drop_last() =~= s@.take(i as int));
            assert(s@.take(i + 1).last() == s@[i as int]);
        }
        let next: u32 = acc * 10 + (b - 48) as u32;
        if next > 65535 {
            proof {
                if all_digits(s@) {
                    lemma_dec_value_mono(s@, i + 1);
                }
            }
            return None;
        }
        acc = next;
        i = i + 1;
    }
    proof {
        assert(s@.take(i as int) =~= s@);
    }
    Some(acc as u16)
}

} // verus!
