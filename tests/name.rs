use specimen_rename::name::{is_whitespace, normalize, strip_all_tags, strip_tags, trim};

#[test]
fn marker_onward_with_tag_removed() {
    assert_eq!(normalize("foo CODE-128:MGCL 1037795 bar"), "MGCL_1037795_bar");
}

#[test]
fn empty_text_gives_empty_name() {
    assert_eq!(normalize(""), "");
}

#[test]
fn text_without_marker_gives_empty_name() {
    assert_eq!(normalize("no code here"), "");
    assert_eq!(normalize("MGCL 123456"), "");
    assert_eq!(normalize("MGCL_1037795"), "");
    assert_eq!(normalize("mgcl 1037795"), "");
}

#[test]
fn prefix_before_marker_is_dropped() {
    assert_eq!(normalize("foo MGCL 1234567"), "MGCL_1234567");
}

#[test]
fn lines_are_joined_and_trimmed() {
    let r = normalize("junk\nCODE-128:MGCL 1037795\n");
    assert_eq!(r, "MGCL_1037795");
    let r = normalize("  MGCL 1234567 a b\nc \n");
    assert_eq!(r, "MGCL_1234567_a_bc");
    assert!(!r.contains('\n') && !r.contains(' '));
}

#[test]
fn marker_split_by_a_newline_still_counts() {
    assert_eq!(normalize("MGCL\n1234567"), "MGCL1234567");
}

#[test]
fn eight_digits_and_no_space() {
    assert_eq!(normalize("MGCL12345678"), "MGCL12345678");
}

#[test]
fn earliest_marker_wins() {
    assert_eq!(normalize("x MGCL 1111111 y MGCL 2222222"), "MGCL_1111111_y_MGCL_2222222");
}

#[test]
fn non_ascii_prefix_is_dropped() {
    assert_eq!(normalize("é ü MGCL 1234567"), "MGCL_1234567");
}

#[test]
fn canonical_name_is_a_fixed_point() {
    let once = normalize("MGCL1037795_bar");
    assert_eq!(once, "MGCL1037795_bar");
    assert_eq!(normalize(&once), once);
}

#[test]
fn tags_are_removed_left_to_right() {
    assert_eq!(strip_tags("aCODE-128:bCODE-128:"), "ab");
    assert_eq!(strip_tags("CODCODE-128:E-128:x"), "CODE-128:x");
}

#[test]
fn trim_uses_unicode_whitespace() {
    assert_eq!(trim("\u{3000}\t a b \r\n"), "a b");
    assert!(is_whitespace('\u{85}'));
    assert!(!is_whitespace('_'));
}

#[test]
fn inner_whitespace_becomes_underscore() {
    assert_eq!(normalize("MGCL1234567\tx\ry\u{a0}z"), "MGCL1234567_x_y_z");
    assert_eq!(normalize("MGCL\t1234567 a"), "MGCL_1234567_a");
}

#[test]
fn tags_are_removed_until_none_is_left() {
    assert_eq!(normalize("MGCL1234567CODECODE-128:-128:"), "MGCL1234567");
    assert_eq!(strip_all_tags("CODCODE-128:E-128:x"), "x");
    assert_eq!(strip_all_tags("plain"), "plain");
}
