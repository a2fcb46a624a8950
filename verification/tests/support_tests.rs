use kopi_registry::numbers::{parse_u32_range, u32_to_decimal};
use kopi_registry::sorted_map::{str_less_exec, SortedMap};
use kopi_registry::text::{chars_of, trimmed_range};

fn parse(s: &str) -> Option<u32> {
    let c = chars_of(s);
    parse_u32_range(&c, 0, c.len())
}

#[test]
fn parse_u32_like_std() {
    for s in ["0", "42", "+7", "4294967295", "4294967296", "", "+", "-1", "1a", " 1", "007", "99999999999999999999"] {
        assert_eq!(parse(s), s.parse::<u32>().ok(), "input {s:?}");
    }
}

#[test]
fn decimal_round_trip() {
    for n in [0u32, 9, 10, 305, u32::MAX] {
        assert_eq!(u32_to_decimal(n), n.to_string());
        assert_eq!(parse(&u32_to_decimal(n)), Some(n));
    }
}

#[test]
fn trim_like_std() {
    for s in ["  a b \n", "", " \u{3000}x\u{a0}", "x"] {
        let c = chars_of(s);
        assert_eq!(trimmed_range(&c, 0, c.len()), s.trim());
    }
}

#[test]
fn string_order_like_std() {
    for (a, b) in [("a", "b"), ("ab", "a"), ("", "a"), ("é", "z"), ("same", "same")] {
        assert_eq!(str_less_exec(a, b), a < b, "{a:?} < {b:?}");
    }
}

#[test]
fn sorted_map_get_after_insert() {
    let mut m: SortedMap<u8> = SortedMap::new();
    m.insert("b".to_string(), 1);
    m.insert("a".to_string(), 2);
    m.insert("b".to_string(), 3);
    assert_eq!(m.get("b"), Some(&3));
    assert_eq!(m.get("a"), Some(&2));
    assert_eq!(m.get("c"), None);
    let keys: Vec<&str> = m.entries().iter().map(|(k, _)| k.as_str()).collect();
    assert_eq!(keys, vec!["a", "b"]);
}
