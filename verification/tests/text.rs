use resonantdust::text::{decimal, hex, split_steps, str_eq, tail_after_colons};

#[test]
fn numbers_are_written_as_std_writes_them() {
    for n in [0u64, 7, 9, 10, 99, 100, 1026, 4294967295, u64::MAX] {
        assert_eq!(decimal(n), format!("{n}"));
    }
    for n in [0u16, 0xA, 0x1F, 0xFFF, 0x1234, 0xFFFF] {
        assert_eq!(hex(n), format!("{n:#06x}"));
    }
    assert_eq!(hex(0x2F), "0x002f");
}

#[test]
fn strings_compare_by_their_characters() {
    assert!(str_eq("", ""));
    assert!(str_eq("tile", "tile"));
    assert!(str_eq("ünïcode", "ünïcode"));
    assert!(!str_eq("tile", "tiles"));
    assert!(!str_eq("tile", "tila"));
}

#[test]
fn steps_split_at_dots() {
    for s in ["", ".", "a", "a.b", ".owner", "owner..inventory.", "...", "ö.parent"] {
        let expected: Vec<&str> = s.split('.').filter(|p| !p.is_empty()).collect();
        assert_eq!(split_steps(s), expected);
    }
}

#[test]
fn key_is_the_tail_after_the_last_colons() {
    for s in ["card::corpus_dim", "corpus_dim", "a::b::c", "a:b", "a:::b", ":::", "::", "", ":", "x::", "é::ü"] {
        assert_eq!(tail_after_colons(s), s.rsplit("::").next().unwrap());
    }
}
