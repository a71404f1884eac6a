use dxf_sheets::{replace_in_line, rewrite_text, sheet_label};

#[test]
fn the_placeholder_gives_way_to_the_label() {
    assert_eq!(replace_in_line("Title XX/XX End", "1/2"), "Title 1/2 End");
}

#[test]
fn every_placeholder_of_a_line_is_replaced() {
    assert_eq!(replace_in_line("XX/XX and XX/XX", "3/7"), "3/7 and 3/7");
    assert_eq!(replace_in_line("XX/XXXX/XX", "3/7"), "3/73/7");
}

#[test]
fn a_line_without_placeholder_is_kept() {
    assert_eq!(replace_in_line("nothing here", "1/2"), "nothing here");
    assert_eq!(replace_in_line("", "1/2"), "");
    assert_eq!(replace_in_line("XX/X", "1/2"), "XX/X");
    assert_eq!(replace_in_line("xx/xx", "1/2"), "xx/xx");
    assert_eq!(replace_in_line("XX-XX", "1/2"), "XX-XX");
}

#[test]
fn placeholders_do_not_overlap() {
    assert_eq!(replace_in_line("XX/XX/XX", "1/2"), "1/2/XX");
    assert_eq!(replace_in_line("XXX/XX", "1/2"), "X1/2");
    assert_eq!(replace_in_line("XX/XXX", "1/2"), "1/2X");
    assert_eq!(replace_in_line("XX/XX/XX/XX", "1/2"), "1/2/1/2");
}

#[test]
fn characters_beyond_ascii_pass_through() {
    assert_eq!(replace_in_line("Blad XX/XX – Ålesund", "4/9"), "Blad 4/9 – Ålesund");
}

#[test]
fn each_line_is_rewritten_and_lines_are_joined_by_line_feeds() {
    assert_eq!(
        rewrite_text("0\nSECTION\nTitle XX/XX End\nXX/XX", "1/2"),
        "0\nSECTION\nTitle 1/2 End\n1/2"
    );
}

#[test]
fn carriage_return_and_line_feed_become_a_line_feed() {
    assert_eq!(rewrite_text("a\r\nb\r\nc", "1/2"), "a\nb\nc");
    assert_eq!(rewrite_text("XX/XX\r\nXX/XX\r\n", "5/6"), "5/6\n5/6\n");
}

#[test]
fn a_line_feed_at_the_end_is_kept() {
    assert_eq!(rewrite_text("a\n", "1/2"), "a\n");
    assert_eq!(rewrite_text("a\nb\n", "1/2"), "a\nb\n");
    assert_eq!(rewrite_text("\n", "1/2"), "\n");
    assert_eq!(rewrite_text("l1\nl2\n", "1/2"), "l1\nl2\n");
}

#[test]
fn line_feeds_at_the_end_are_all_kept() {
    assert_eq!(rewrite_text("a\n\n", "1/2"), "a\n\n");
    assert_eq!(rewrite_text("XX/XX\n\n\n", "1/2"), "1/2\n\n\n");
}

#[test]
fn a_carriage_return_and_line_feed_at_the_end_become_a_line_feed() {
    assert_eq!(rewrite_text("a\r\n", "1/2"), "a\n");
    assert_eq!(rewrite_text("\r\n", "1/2"), "\n");
}

#[test]
fn empty_lines_are_kept() {
    assert_eq!(rewrite_text("a\n\nb", "1/2"), "a\n\nb");
    assert_eq!(rewrite_text("\n\na", "1/2"), "\n\na");
}

#[test]
fn a_carriage_return_without_line_feed_is_kept() {
    assert_eq!(rewrite_text("a\r", "1/2"), "a\r");
    assert_eq!(rewrite_text("a\rb\nc", "1/2"), "a\rb\nc");
    assert_eq!(rewrite_text("a\nb\r", "1/2"), "a\nb\r");
}

#[test]
fn only_one_carriage_return_is_taken_from_a_line_end() {
    assert_eq!(rewrite_text("a\r\r\nb", "1/2"), "a\r\nb");
}

#[test]
fn the_empty_text_stays_empty() {
    assert_eq!(rewrite_text("", "1/2"), "");
}

#[test]
fn a_placeholder_does_not_reach_over_a_line_end() {
    assert_eq!(rewrite_text("XX/\nXX", "1/2"), "XX/\nXX");
    assert_eq!(rewrite_text("XX\r\n/XX", "1/2"), "XX\n/XX");
}

#[test]
fn a_text_without_placeholder_only_has_its_line_ends_changed() {
    assert_eq!(rewrite_text("one\r\ntwo\r\n", "1/2"), "one\ntwo\n");
    assert_eq!(rewrite_text("one\ntwo", "1/2"), "one\ntwo");
}

#[test]
fn a_sheet_label_leaves_no_placeholder_behind() {
    let label = sheet_label(3, 14);
    let once = rewrite_text("XXX/XX/XX XX/XX\r\nXX/XXX/XX", &label);
    assert_eq!(once, "X3/14/XX 3/14\n3/14X/XX");
    assert!(!once.contains("XX/XX"));
}

#[test]
fn a_second_label_finds_nothing_to_replace() {
    let once = rewrite_text("Title XX/XX End\r\nplain\r\n", &sheet_label(1, 2));
    let twice = rewrite_text(&once, &sheet_label(2, 2));
    assert_eq!(once, "Title 1/2 End\nplain\n");
    assert_eq!(twice, once);
}

#[test]
fn a_second_pass_may_still_change_a_line_end() {
    let once = rewrite_text("a\r\r\nXX/XX", "1/2");
    assert_eq!(once, "a\r\n1/2");
    assert_eq!(rewrite_text(&once, "2/2"), "a\n1/2");
}

#[test]
fn a_text_without_placeholder_and_carriage_return_is_left_as_it_is() {
    for text in ["", "a", "a\n", "a\n\n", "\n\na\n", "0\nSECTION\n2\nHEADER\n", "XX/X\nX"] {
        assert_eq!(rewrite_text(text, "1/2"), text);
        assert_eq!(rewrite_text(&rewrite_text(text, "1/2"), "2/2"), text);
    }
}

#[test]
fn without_carriage_returns_rewriting_is_replacing() {
    for text in ["XX/XX\n", "a XX/XX\n\nXX/XXXX/XX b\n", "XX/\nXX XX/XX"] {
        assert_eq!(rewrite_text(text, "3/4"), text.replace("XX/XX", "3/4"));
    }
}
