use mac_shell::welcome::{centered, get_centered_subtitle, welcome, BANNER, DIM, HINT, NEON_BLUE, RESET};

#[test]
fn subtitle_is_padded_by_byte_length() {
    assert_eq!(get_centered_subtitle(), format!("{:24}{}", "", "Go for it!\n"));
}

#[test]
fn centring_matches_format() {
    for (text, w) in [("abc", 10usize), ("ab", 7), ("", 3), ("long text", 4), ("ü", 4)] {
        assert_eq!(centered(text, w), format!("{:^w$}", text, w = w));
    }
}

#[test]
fn greeting_text() {
    let sub = get_centered_subtitle();
    let expected = format!(
        "{NEON_BLUE}{}{RESET}\n{DIM}{:^60}{RESET}\n{DIM}{}{RESET}\n",
        BANNER, sub, HINT
    );
    assert_eq!(welcome(), expected);
    assert!(welcome().contains("Go for it!"));
}
