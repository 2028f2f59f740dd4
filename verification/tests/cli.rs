use buddy_cast::cli::{
    apply_display_limit, getinfo_table_lines, parse_display_limit, sanitize_title_for_display,
    truncate, DisplayLimit,
};
use buddy_cast::model::NormalizedItem;

fn item(index: usize) -> NormalizedItem {
    NormalizedItem {
        item_id: index.to_string(),
        asset_id: format!("asset-{index}"),
        url: String::new(),
        size: "1".to_string(),
        title: format!("title-{index}"),
        has_sub_tag: true,
        size_bytes: 1,
    }
}

#[test]
fn sanitize_title_removes_html_break_tags() {
    assert_eq!(
        sanitize_title_for_display("第一行<br/>第二行"),
        "第一行第二行"
    );
}

#[test]
fn display_limit_defaults_to_first_fifty_items() {
    let items = (0..60).map(item).collect::<Vec<_>>();
    let limited = apply_display_limit(&items, &DisplayLimit::Count(50));
    assert_eq!(limited.len(), 50);
    assert_eq!(limited[0].asset_id, "asset-0");
    assert_eq!(limited[49].asset_id, "asset-49");
}

#[test]
fn display_limit_all_and_larger_counts_keep_every_item() {
    let items = (0..3).map(item).collect::<Vec<_>>();
    assert_eq!(apply_display_limit(&items, &DisplayLimit::All).len(), 3);
    assert_eq!(apply_display_limit(&items, &DisplayLimit::Count(10)).len(), 3);
}

#[test]
fn display_limit_parsing() {
    assert_eq!(parse_display_limit("all"), Ok(DisplayLimit::All));
    assert_eq!(parse_display_limit("ALL"), Ok(DisplayLimit::All));
    assert_eq!(parse_display_limit("50"), Ok(DisplayLimit::Count(50)));
    assert_eq!(parse_display_limit("+7"), Ok(DisplayLimit::Count(7)));
    assert_eq!(
        parse_display_limit("0"),
        Err("limit must be greater than zero or `all`".to_string())
    );
    assert_eq!(
        parse_display_limit("ten"),
        Err("invalid limit `ten`: use a positive integer or `all`".to_string())
    );
    assert_eq!(
        parse_display_limit(""),
        Err("invalid limit ``: use a positive integer or `all`".to_string())
    );
}

#[test]
fn truncate_keeps_short_text_and_marks_cut_text() {
    assert_eq!(truncate("abc", 0), "");
    assert_eq!(truncate("abc", 3), "abc");
    assert_eq!(truncate("abcdef", 3), "abc");
    assert_eq!(truncate("abcdefgh", 6), "abc...");
    assert_eq!(truncate("日本語のタイトル", 5), "日本...");
    assert!(truncate("a long title indeed", 7).chars().count() <= 7);
}

#[test]
fn getinfo_table_lays_out_padded_columns() {
    let items = vec![
        NormalizedItem {
            item_id: "1".to_string(),
            asset_id: "a1".to_string(),
            url: String::new(),
            size: String::new(),
            title: "T<br/>U".to_string(),
            has_sub_tag: true,
            size_bytes: 0,
        },
    ];
    let lines = getinfo_table_lines(&items);
    assert_eq!(lines.len(), 3);
    assert_eq!(lines[0], "ASSET_ID  SIZE  TITLE");
    assert_eq!(lines[1], "--------  ----  -----");
    assert_eq!(lines[2], "a1        -     TU   ");
}

#[test]
fn getinfo_table_caps_and_truncates_wide_columns() {
    let items = vec![NormalizedItem {
        item_id: "1".to_string(),
        asset_id: "x".repeat(30),
        url: String::new(),
        size: "12345678901".to_string(),
        title: "t".to_string(),
        has_sub_tag: true,
        size_bytes: 0,
    }];
    let lines = getinfo_table_lines(&items);
    assert_eq!(lines[2], format!("{}...  1234567...  t    ", "x".repeat(21)));
}

#[test]
fn getinfo_table_lines_all_have_the_same_width() {
    let mut items = (0..3).map(item).collect::<Vec<_>>();
    items[1].title = "日本語のタイトル".to_string();
    items[2].asset_id = "y".repeat(40);
    let lines = getinfo_table_lines(&items);
    assert_eq!(lines.len(), items.len() + 2);
    let width = lines[0].chars().count();
    for line in &lines {
        assert_eq!(line.chars().count(), width);
    }
}
