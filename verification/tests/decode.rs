use std::collections::VecDeque;

use bracket_pairs::{Error, ItemKind, Pair, PairMap, PairSeq};
use bracket_pairs::parse_index;

fn map_of<'a>(depth: u16, pairs: &[(&'a [u8], &'a [u8])]) -> PairMap<'a> {
    let mut q = VecDeque::new();
    // pushed to the front so the queue hands pairs out in slice order
    for (k, v) in pairs {
        q.push_front(Pair::new(k, v));
    }
    PairMap::new(depth, q)
}

fn drain_entries<'a>(m: &mut PairMap<'a>) -> Vec<(&'a [u8], &'a [u8])> {
    let mut out = Vec::new();
    while let Some(k) = m.next_key().unwrap() {
        let v = m.next_value().unwrap();
        out.push((k, v));
    }
    out
}

#[test]
fn all_terminal_map() {
    let mut m = map_of(5, &[(b"a]", b"1"), (b"b]", b"2"), (b"c]", b"3")]);
    let entries = drain_entries(&mut m);
    assert_eq!(
        entries,
        vec![
            (b"a" as &[u8], b"1" as &[u8]),
            (b"b" as &[u8], b"2" as &[u8]),
            (b"c" as &[u8], b"3" as &[u8]),
        ]
    );
}

#[test]
fn key_without_closing_bracket_is_invalid() {
    let mut m = map_of(5, &[]);
    let r = m.parse_pair(Pair::new(b"abc", b"1"));
    assert_eq!(r.unwrap_err(), Error::InvalidMapKey);
}

#[test]
fn key_with_trailing_content_is_invalid() {
    let mut m = map_of(5, &[]);
    let r = m.parse_pair(Pair::new(b"a]c", b"1"));
    assert_eq!(r.unwrap_err(), Error::InvalidMapKey);
}

#[test]
fn bare_terminal_key_resolves() {
    let mut m = map_of(5, &[]);
    let r = m.parse_pair(Pair::new(b"a]", b"1")).unwrap();
    assert_eq!(r.unwrap(), b"a");
    assert_eq!(m.next_value().unwrap(), b"1");
}

#[test]
fn opener_with_nothing_after_is_invalid() {
    let mut m = map_of(5, &[]);
    let r = m.parse_pair(Pair::new(b"a][", b"1"));
    assert_eq!(r.unwrap_err(), Error::InvalidMapKey);
}

#[test]
fn sequence_orders_by_index() {
    let m = map_of(5, &[(b"0]", b"x"), (b"2]", b"y"), (b"1]", b"z")]);
    let mut s = m.into_seq().unwrap();
    let mut got: Vec<&[u8]> = Vec::new();
    while let Some(item) = s.next_item() {
        match item {
            ItemKind::Value(v) => got.push(v),
            ItemKind::Nested(_) => panic!("expected scalar items"),
        }
    }
    assert_eq!(got, vec![b"x" as &[u8], b"z", b"y"]);
}

#[test]
fn sentinel_precedes_indexed() {
    let m = map_of(5, &[(b"foo]", b"p"), (b"0]", b"q")]);
    let mut s = m.into_seq().unwrap();
    let mut got: Vec<&[u8]> = Vec::new();
    while let Some(item) = s.next_item() {
        match item {
            ItemKind::Value(v) => got.push(v),
            ItemKind::Nested(_) => panic!("expected scalar items"),
        }
    }
    assert_eq!(got, vec![b"p" as &[u8], b"q"]);
}

#[test]
fn depth_two_reaches_two_levels() {
    let mut root = map_of(2, &[(b"a][b]", b"v")]);
    let k = root.next_entry_key().unwrap().unwrap();
    assert_eq!(k, b"a");
    let mut child = match root.next_entry_value().unwrap() {
        ItemKind::Nested(c) => c,
        ItemKind::Value(_) => panic!("expected a nested map"),
    };
    let k2 = child.next_entry_key().unwrap().unwrap();
    assert_eq!(k2, b"b");
    match child.next_entry_value().unwrap() {
        ItemKind::Value(v) => assert_eq!(v, b"v"),
        ItemKind::Nested(_) => panic!("expected a scalar"),
    }
}

#[test]
fn depth_one_fails_at_second_descent() {
    let mut root = map_of(1, &[(b"a][b]", b"v")]);
    let k = root.next_entry_key().unwrap().unwrap();
    assert_eq!(k, b"a");
    let mut child = match root.next_entry_value().unwrap() {
        ItemKind::Nested(c) => c,
        ItemKind::Value(_) => panic!("expected a nested map"),
    };
    // the child sits at depth 0: any further key resolution must fail
    assert_eq!(child.next_entry_key().unwrap_err(), Error::MaximumDepthReached);
}

#[test]
fn value_before_key_is_invalid() {
    let mut m = map_of(5, &[(b"a]", b"1")]);
    assert_eq!(m.next_value().unwrap_err(), Error::InvalidMapValue);
}

#[test]
fn value_twice_is_invalid() {
    let mut m = map_of(5, &[(b"a]", b"1")]);
    let _ = m.next_key().unwrap().unwrap();
    assert_eq!(m.next_value().unwrap(), b"1");
    assert_eq!(m.next_value().unwrap_err(), Error::InvalidMapValue);
}

#[test]
fn enum_discriminant_on_empty_input_is_eof() {
    let mut m = map_of(5, &[]);
    assert_eq!(m.variant_key().unwrap_err(), Error::EofReached);
}

#[test]
fn unit_variant_resolves_from_single_pair() {
    let mut m = map_of(5, &[(b"Alpha]", b"")]);
    let k = m.variant_key().unwrap();
    assert_eq!(k, b"Alpha");
    // a unit variant consumes no payload: nothing else is requested
}

#[test]
fn decoding_twice_is_identical() {
    let pairs: &[(&[u8], &[u8])] = &[(b"0]", b"x"), (b"foo]", b"y"), (b"2]", b"z")];
    let collect = |_: ()| -> Vec<Vec<u8>> {
        let m = map_of(5, pairs);
        let mut s = m.into_seq().unwrap();
        let mut got = Vec::new();
        while let Some(item) = s.next_item() {
            match item {
                ItemKind::Value(v) => got.push(v.to_vec()),
                ItemKind::Nested(_) => panic!("expected scalar items"),
            }
        }
        got
    };
    let first = collect(());
    let second = collect(());
    assert_eq!(first, second);
}

#[test]
fn parse_index_reads_bounded_decimal() {
    assert_eq!(parse_index(b"0"), Some(0));
    assert_eq!(parse_index(b"123"), Some(123));
    assert_eq!(parse_index(b"007"), Some(7));
    assert_eq!(parse_index(b"65535"), Some(65535));
    assert_eq!(parse_index(b"65536"), None);
    assert_eq!(parse_index(b"99999"), None);
    assert_eq!(parse_index(b""), None);
    assert_eq!(parse_index(b"12a"), None);
    assert_eq!(parse_index(b"-1"), None);
}

#[test]
fn empty_group_explodes_per_pair() {
    let m = map_of(5, &[(b"][x]", b"1"), (b"][y]", b"2")]);
    let mut s = m.into_seq().unwrap();
    let mut keys: Vec<&[u8]> = Vec::new();
    while let Some(item) = s.next_item() {
        match item {
            ItemKind::Nested(mut c) => {
                let k = c.next_entry_key().unwrap().unwrap();
                keys.push(k);
                match c.next_entry_value().unwrap() {
                    ItemKind::Value(_) => {}
                    ItemKind::Nested(_) => panic!("expected a scalar"),
                }
            }
            ItemKind::Value(_) => panic!("expected nested items"),
        }
    }
    assert_eq!(keys, vec![b"x" as &[u8], b"y"]);
}

#[test]
fn named_groups_order_as_indices() {
    let m = map_of(5, &[(b"1][x]", b"a"), (b"0][y]", b"b")]);
    let mut s = m.into_seq().unwrap();
    let mut keys: Vec<&[u8]> = Vec::new();
    while let Some(item) = s.next_item() {
        match item {
            ItemKind::Nested(mut c) => {
                keys.push(c.next_entry_key().unwrap().unwrap());
            }
            ItemKind::Value(_) => panic!("expected nested items"),
        }
    }
    // group "0" sorts before group "1", whatever the input order
    assert_eq!(keys, vec![b"y" as &[u8], b"x"]);
}

#[test]
fn invalid_key_fails_sequence_conversion() {
    let m = map_of(5, &[(b"oops", b"1")]);
    match m.into_seq() {
        Err(e) => assert_eq!(e, Error::InvalidMapKey),
        Ok(_) => panic!("conversion must fail"),
    }
}

#[test]
fn sequence_conversion_at_zero_depth_fails_on_groups() {
    let m = map_of(0, &[(b"a][b]", b"1")]);
    match m.into_seq() {
        Err(e) => assert_eq!(e, Error::MaximumDepthReached),
        Ok(_) => panic!("conversion must fail"),
    }
}

#[test]
fn struct_variant_payload_comes_from_stash() {
    let mut m = map_of(5, &[(b"Var][field]", b"7")]);
    let k = m.variant_key().unwrap();
    assert_eq!(k, b"Var");
    let mut payload = m.stash_value_map().unwrap();
    let fk = payload.next_entry_key().unwrap().unwrap();
    assert_eq!(fk, b"field");
    match payload.next_entry_value().unwrap() {
        ItemKind::Value(v) => assert_eq!(v, b"7"),
        ItemKind::Nested(_) => panic!("expected a scalar"),
    }
}

#[test]
fn option_presence_follows_queue() {
    let absent = map_of(5, &[]);
    assert!(!absent.has_pairs());
    let present = map_of(5, &[(b"a]", b"1")]);
    assert!(present.has_pairs());
}

#[test]
fn with_one_pair_holds_exactly_one() {
    let mut m = PairMap::with_one_pair(3, Pair::new(b"k]", b"v"));
    assert_eq!(m.remaining_depth(), 3);
    let k = m.next_key().unwrap().unwrap();
    assert_eq!(k, b"k");
    assert_eq!(m.next_value().unwrap(), b"v");
    assert!(m.next_key().unwrap().is_none());
}

#[test]
fn pair_seq_hands_items_in_order() {
    let items = vec![ItemKind::Value(b"a" as &[u8]), ItemKind::Value(b"b" as &[u8])];
    let mut s = PairSeq::new(items, 4);
    assert_eq!(s.remaining_depth(), 4);
    match s.next_item().unwrap() {
        ItemKind::Value(v) => assert_eq!(v, b"a"),
        ItemKind::Nested(_) => panic!("expected a scalar"),
    }
    match s.next_item().unwrap() {
        ItemKind::Value(v) => assert_eq!(v, b"b"),
        ItemKind::Nested(_) => panic!("expected a scalar"),
    }
    assert!(s.next_item().is_none());
}

#[test]
fn error_descriptions() {
    assert_eq!(Error::InvalidMapKey.describe(), "invalid map key");
    assert_eq!(Error::InvalidMapValue.describe(), "invalid map value");
    assert_eq!(Error::MaximumDepthReached.describe(), "maximum depth reached");
    assert_eq!(Error::EofReached.describe(), "end of input reached");
}

#[test]
fn deferred_pairs_group_under_one_key() {
    let mut m = map_of(5, &[(b"g][a]", b"1"), (b"g][b]", b"2")]);
    let k = m.next_entry_key().unwrap().unwrap();
    assert_eq!(k, b"g");
    let mut child = match m.next_entry_value().unwrap() {
        ItemKind::Nested(c) => c,
        ItemKind::Value(_) => panic!("expected a nested map"),
    };
    let entries = drain_entries(&mut child);
    assert_eq!(entries, vec![(b"a" as &[u8], b"1" as &[u8]), (b"b", b"2")]);
    assert!(m.next_entry_key().unwrap().is_none());
}

#[test]
fn lone_closing_bracket_is_empty_segment() {
    let mut m = map_of(5, &[]);
    let r = m.parse_pair(Pair::new(b"]", b"1")).unwrap();
    assert_eq!(r.unwrap(), b"");
    assert_eq!(m.next_value().unwrap(), b"1");
}

#[test]
fn mixed_scalars_and_groups_interleave_by_index() {
    let m = map_of(5, &[(b"1]", b"s1"), (b"0][k]", b"v")]);
    let mut s = m.into_seq().unwrap();
    // the nested group carries index 0 and comes before the scalar at index 1
    match s.next_item().unwrap() {
        ItemKind::Nested(mut c) => {
            assert_eq!(c.next_entry_key().unwrap().unwrap(), b"k");
        }
        ItemKind::Value(_) => panic!("expected the nested group first"),
    }
    match s.next_item().unwrap() {
        ItemKind::Value(v) => assert_eq!(v, b"s1"),
        ItemKind::Nested(_) => panic!("expected the scalar second"),
    }
    assert!(s.next_item().is_none());
}

#[test]
fn sentinel_ties_keep_discovery_order() {
    let m = map_of(5, &[(b"foo]", b"1"), (b"bar]", b"2"), (b"baz]", b"3")]);
    let mut s = m.into_seq().unwrap();
    let mut got: Vec<&[u8]> = Vec::new();
    while let Some(item) = s.next_item() {
        match item {
            ItemKind::Value(v) => got.push(v),
            ItemKind::Nested(_) => panic!("expected scalar items"),
        }
    }
    assert_eq!(got, vec![b"1" as &[u8], b"2", b"3"]);
}
