use mac_shell::text::{
    is_whitespace, join_strings, sanitize_string, split_string, u64_to_decimal,
    unescape_newlines_string,
};

#[test]
fn whitespace_matches_std() {
    for u in 0u32..=0x10FFFF {
        if let Some(c) = char::from_u32(u) {
            assert_eq!(is_whitespace(c), c.is_whitespace(), "char {:x}", u);
        }
    }
}

#[test]
fn sanitize_and_unescape() {
    assert_eq!(sanitize_string(&"a\nb\n".to_string()), "a\\nb\\n");
    assert_eq!(unescape_newlines_string(&"a\\nb\\\\n".to_string()), "a\nb\\\n");
    assert_eq!(unescape_newlines_string(&"\\".to_string()), "\\");
}

#[test]
fn split_join_round_trip() {
    for s in ["", ":", "a", "a:b", "::x:", "/usr/bin:/bin"] {
        let parts = split_string(s, ':');
        assert_eq!(parts, s.split(':').map(|p| p.to_string()).collect::<Vec<_>>());
        assert_eq!(join_strings(&parts, ":"), s);
    }
}

#[test]
fn decimal_numbers() {
    assert_eq!(u64_to_decimal(0), "0");
    assert_eq!(u64_to_decimal(7), "7");
    assert_eq!(u64_to_decimal(1024), "1024");
    assert_eq!(u64_to_decimal(u64::MAX), u64::MAX.to_string());
}

#[test]
fn split_of_join_gives_parts() {
    for parts in [vec!["a", "b"], vec![""], vec!["", ""], vec!["/usr/bin", "", "x y"]] {
        let parts: Vec<String> = parts.iter().map(|p| p.to_string()).collect();
        assert_eq!(split_string(&join_strings(&parts, ":"), ':'), parts);
    }
}

#[test]
fn unescape_undoes_sanitize() {
    for t in ["", "a\nb", "\n\n", "plain", "tab\there\n"] {
        assert_eq!(unescape_newlines_string(&sanitize_string(&t.to_string())), t);
    }
    // A written-out `\n` typed by the user is not kept.
    assert_eq!(unescape_newlines_string(&sanitize_string(&"a\\nb".to_string())), "a\nb");
}
