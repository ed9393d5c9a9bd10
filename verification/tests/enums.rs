use std::sync::Arc;

use region_merge::buffer_vec::BufferVec;
use region_merge::enums::{Enum, EnumRef, Error};

fn names(data: &[&str]) -> BufferVec {
    let mut buf = BufferVec::new();
    for v in data {
        buf.push(v.as_bytes());
    }
    buf
}

#[test]
fn test_to_string() {
    let cases = vec![(vec!["a", "b", "c"], 1, "a"), (vec!["a", "b", "c"], 3, "c")];

    for (data, value, expect) in cases {
        let mut buf = BufferVec::new();
        for v in data {
            buf.push(v.as_bytes())
        }

        let e = Enum::new(Arc::new(buf), value);

        assert_eq!(e.to_string(), expect.to_string())
    }
}

#[test]
fn test_as_str() {
    let cases = vec![(vec!["a", "b", "c"], 1, "a"), (vec!["a", "b", "c"], 3, "c")];

    for (data, value, expect) in cases {
        let mut buf = BufferVec::new();
        for v in data {
            buf.push(v.as_bytes())
        }

        let e = EnumRef::new(&buf, value);

        assert_eq!(e.as_str().expect("get str correctly"), expect)
    }
}

#[test]
fn test_is_empty() {
    let mut buf = BufferVec::new();
    for v in &["a", "b", "c"] {
        buf.push(v.as_bytes())
    }
    let data = Arc::new(buf);

    let s = Enum::new(Arc::clone(&data), 1);

    assert!(!s.as_ref().is_empty());

    let s = Enum::new(data, 0);

    assert!(s.as_ref().is_empty());
}

#[test]
fn empty_value_reads_as_empty_text() {
    let buf = names(&["a", "b"]);
    let e = EnumRef::new(&buf, 0);
    assert_eq!(e.as_str(), Ok(""));
    assert_eq!(e.to_string(), "");
    assert_eq!(e.to_owned().to_string(), "");
}

#[test]
fn as_str_rejects_invalid_utf8() {
    let mut buf = BufferVec::new();
    buf.push(b"ok");
    buf.push(&[0xff, 0xfe]);
    assert_eq!(EnumRef::new(&buf, 1).as_str(), Ok("ok"));
    assert_eq!(EnumRef::new(&buf, 2).as_str(), Err(Error::Encoding));
}

#[test]
fn to_string_replaces_invalid_utf8() {
    let mut buf = BufferVec::new();
    buf.push(&[b'a', 0xff, b'b']);
    assert_eq!(EnumRef::new(&buf, 1).to_string(), "a\u{fffd}b");
}

#[test]
fn names_with_multibyte_text_round_trip() {
    let buf = names(&["é", "日本語", ""]);
    assert_eq!(EnumRef::new(&buf, 1).as_str(), Ok("é"));
    assert_eq!(EnumRef::new(&buf, 2).as_str(), Ok("日本語"));
    assert_eq!(EnumRef::new(&buf, 3).as_str(), Ok(""));
    assert_eq!(EnumRef::new(&buf, 2).to_string(), "日本語");
}

#[test]
fn values_compare_by_index_only() {
    let one = names(&["a", "b", "c"]);
    let other = names(&["x", "y", "z"]);
    let a = EnumRef::new(&one, 2);
    let b = EnumRef::new(&other, 2);
    let c = EnumRef::new(&one, 3);
    assert!(a == b);
    assert!(a != c);
    assert!(a < c);
    assert!(c > b);
    assert_eq!(a.cmp(&c), std::cmp::Ordering::Less);
    assert_eq!(a.partial_cmp(&b), Some(std::cmp::Ordering::Equal));
    assert_eq!(c.to_owned().cmp(&a.to_owned()), std::cmp::Ordering::Greater);
    assert!(a.to_owned() == b.to_owned());
}

#[test]
fn to_owned_keeps_names_and_value() {
    let buf = names(&["a", "b", "c"]);
    let r = EnumRef::new(&buf, 2);
    let owned = r.to_owned();
    assert_eq!(owned.value(), 2);
    assert_eq!(r.value(), 2);
    assert_eq!(owned.as_ref().as_str(), Ok("b"));
}

#[test]
fn mysql_bool_is_false_only_for_empty() {
    let data = Arc::new(names(&["a"]));
    assert_eq!(Enum::new(Arc::clone(&data), 0).as_mysql_bool(), Ok(false));
    assert_eq!(Enum::new(data, 1).as_mysql_bool(), Ok(true));
}

#[test]
fn buffer_vec_keeps_buffers_apart() {
    let mut buf = BufferVec::new();
    assert!(buf.is_empty());
    assert_eq!(buf.len(), 0);
    assert_eq!(buf.total_len(), 0);
    buf.push(b"ab");
    buf.push(b"");
    buf.push(b"cde");
    assert!(!buf.is_empty());
    assert_eq!(buf.len(), 3);
    assert_eq!(buf.total_len(), 5);
    assert_eq!(buf.get(0), b"ab");
    assert_eq!(buf.get(1), b"");
    assert_eq!(buf.get(2), b"cde");
    let copy = buf.clone();
    assert_eq!(copy.len(), 3);
    assert_eq!(copy.get(2), b"cde");
}

#[test]
fn index_is_in_range_up_to_the_number_of_names() {
    let buf = names(&["a", "b"]);
    for (value, inside) in [(0, true), (1, true), (2, true), (3, false), (usize::MAX, false)] {
        assert_eq!(EnumRef::new(&buf, value).is_in_range(), inside);
        assert_eq!(Enum::new(Arc::new(buf.clone()), value).is_in_range(), inside);
    }
    let none = BufferVec::new();
    assert!(EnumRef::new(&none, 0).is_in_range());
    assert!(!EnumRef::new(&none, 1).is_in_range());
}

#[test]
fn printing_agrees_with_as_str_wherever_as_str_succeeds() {
    let mut buf = names(&["a", "", "日本語", "x y"]);
    buf.push(&[0xc3, 0x28]);
    for value in 0..=5 {
        let e = EnumRef::new(&buf, value);
        match e.as_str() {
            Ok(text) => {
                assert_eq!(e.to_string(), text);
                assert_eq!(e.to_owned().to_string(), text);
            }
            Err(error) => {
                assert_eq!(value, 5);
                assert_eq!(error, Error::Encoding);
                assert_eq!(e.to_string(), "\u{fffd}(");
            }
        }
    }
}

#[test]
fn equal_values_over_different_names_print_differently() {
    let a = Enum::new(Arc::new(names(&["a"])), 1);
    let b = Enum::new(Arc::new(names(&["b"])), 1);
    assert!(a == b);
    assert_eq!(a.to_string(), "a");
    assert_eq!(b.to_string(), "b");
}
