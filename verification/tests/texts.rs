use miaosuan::idmap::{IdMap, Tags};
use miaosuan::order::order_by_key;
use miaosuan::text::{
    float_text, i64_text, parse_i64, parse_u64, push_padded, replace_all, same,
    slice_bytes, split, trim, trimmed_lines, u64_text,
};

#[test]
fn numbers_read_as_the_language_reads_them() {
    for s in ["", "+", "-", "0", "-0", "+7", "007", "9223372036854775807", "9223372036854775808", "-9223372036854775808",
        "-9223372036854775809", "18446744073709551615", "18446744073709551616", "1_0", " 1", "１", "99999999999999999999999999999999999999999999"]
    {
        assert_eq!(parse_i64(s), s.parse::<i64>().ok(), "{s}");
        assert_eq!(parse_u64(s), s.parse::<u64>().ok(), "{s}");
    }
}

#[test]
fn floating_point_texts_as_the_language_reads_them() {
    for s in ["", "+", "-", ".", "1", "1.", ".5", "1.5", "-.5e3", "1e", "1e+", "1e+5", "1E-5", "1.e5", "e5", ".e5", "inf", "-INF",
        "infinity", "+Infinity", "nan", "-NaN", "infinit", "1.5.2", "1 ", "0x1", "1f", "--1", "１"]
    {
        assert_eq!(float_text(s), s.parse::<f64>().is_ok(), "{s}");
        assert_eq!(float_text(s), s.parse::<f32>().is_ok(), "{s}");
    }
}

#[test]
fn numerals() {
    for n in [0, 9, 10, 12345, u64::MAX] {
        assert_eq!(u64_text(n), n.to_string());
    }
    for i in [0, -1, i64::MIN, i64::MAX] {
        assert_eq!(i64_text(i), i.to_string());
    }
    for (i, w) in [(5, 2), (-5, 4), (123, 2), (-1, 0), (0, 3)] {
        let mut s = String::new();
        push_padded(&mut s, i, w);
        assert_eq!(s, format!("{i:0w$}"));
    }
}

#[test]
fn searching_and_replacing() {
    assert_eq!(replace_all("aaa", "aa", "b"), "aaa".replace("aa", "b"));
    assert_eq!(replace_all("{z}é{z}", "{z}", "{z}{z}"), "{z}{z}é{z}{z}");
    assert!(same("é", "é") && !same("é", "e"));
}

#[test]
fn lines_and_pieces() {
    for s in ["", "a", "a\n", "a\r\n b \n\nc", "\n", "x\u{3000}\ny\u{85}"] {
        let want: Vec<String> = s.lines().map(|l| l.trim_end().to_string()).collect();
        assert_eq!(trimmed_lines(s), want, "{s:?}");
        assert_eq!(trim(s), s.trim());
    }
    for s in ["", ",", "a,b", ",,a"] {
        let want: Vec<String> = s.split(',').map(|p| p.to_string()).collect();
        assert_eq!(split(s, ','), want);
    }
    let s = "aé€x";
    for a in 0..8 {
        for b in a..8 {
            assert_eq!(slice_bytes(s, a, b), s.get(a..b));
        }
    }
}

#[test]
fn white_space_is_that_of_the_language() {
    for u in 0..0x3100u32 {
        if let Some(c) = char::from_u32(u) {
            assert_eq!(miaosuan::text::space(c), c.is_whitespace(), "{u:x}");
        }
    }
}

#[test]
fn maps_hold_what_was_put_in() {
    let mut m = IdMap::new();
    for id in [5, -3, 9, 5, i64::MIN] {
        m.insert(id, id * 2 / 2);
    }
    assert_eq!(m.len(), 4);
    assert_eq!((m.get(9), m.get(8)), (Some(&9), None));
    *m.get_mut(9).unwrap() = 1;
    assert_eq!(m.get(9), Some(&1));
    assert!(m.get_mut(8).is_none());
    let ids: Vec<i64> = m.entries.iter().map(|e| e.0).collect();
    assert_eq!(ids, vec![i64::MIN, -3, 5, 9]);
    let mut t = Tags::new();
    t.insert("a".into(), "1".into());
    t.insert("b".into(), "2".into());
    t.insert("a".into(), "3".into());
    assert_eq!((t.len(), t.get("a"), t.get("c")), (2, Some("3"), None));
}

#[test]
fn sorting_is_stable() {
    assert_eq!(order_by_key(&[3, 1, 2, 1]), vec![1, 3, 2, 0]);
    assert!(order_by_key(&[]).is_empty());
}
