use buddy_cast::api::{
    auth_header, find_item_by_asset_id, find_item_by_id, is_displayable_item,
    iter_delivery_contents, normalize_item, normalized_display_items, retry_after_failure,
    retry_attempts, JsonValue, RetryStep,
};
use buddy_cast::error::BuddyCastError;

fn s(text: &str) -> JsonValue {
    JsonValue::Str(text.to_string())
}

fn obj(entries: Vec<(&str, JsonValue)>) -> JsonValue {
    JsonValue::Object(entries.into_iter().map(|(k, v)| (k.to_string(), v)).collect())
}

fn raw_item(id: &str, asset: &str, size: &str, title: &str, tags: Vec<&str>) -> JsonValue {
    obj(vec![
        ("id", s(id)),
        ("title", s(title)),
        ("tags", JsonValue::Array(tags.into_iter().map(s).collect())),
        (
            "contents",
            obj(vec![
                ("eTags", s(asset)),
                ("url", s(&format!("/masc/contentzip/{asset}.zip"))),
                ("size", s(size)),
            ]),
        ),
    ])
}

/// The content list that the sample contents document describes.
fn sample_list() -> JsonValue {
    obj(vec![(
        "contents",
        obj(vec![(
            "deliveryContents",
            JsonValue::Array(vec![
                raw_item("sample-item-1", "sample-asset-1", "123456", "Sample Title", vec!["sub"]),
                raw_item("sample-item-2", "sample-asset-no-sub", "123456", "No Sub", vec!["dub"]),
                raw_item(
                    "sample-item-3",
                    "sample-asset-adjusting",
                    "123456",
                    "字幕調整中",
                    vec!["SUB"],
                ),
                raw_item("sample-item-4", "sample-asset-small", "99", "Small", vec!["sub"]),
            ]),
        )]),
    )])
}

#[test]
fn normalize_sample_item_matches_expected_fields() {
    let list_json = sample_list();
    let raw_item = find_item_by_id(&list_json, "sample-item-1").expect("sample item should exist");
    let item = normalize_item(raw_item).expect("sample item should normalize");

    assert_eq!(item.item_id, "sample-item-1");
    assert_eq!(item.asset_id, "sample-asset-1");
    assert_eq!(
        item.url,
        "https://cms.palabra.jp/masc/contentzip/sample-asset-1.zip"
    );
    assert_eq!(item.size, "123456");
    assert_eq!(item.size_bytes, 123456);
    assert_eq!(item.title, "Sample Title");
    assert!(item.has_sub_tag);
}

#[test]
fn display_items_apply_sub_title_and_size_filters() {
    let list_json = sample_list();
    let items = normalized_display_items(&list_json).expect("filtered items should load");

    assert_eq!(items.len(), 1);
    assert_eq!(items[0].asset_id, "sample-asset-1");
}

#[test]
fn find_item_by_asset_id_uses_filtered_set() {
    let list_json = sample_list();

    assert!(find_item_by_asset_id(&list_json, "sample-asset-1").is_ok());
    assert!(find_item_by_asset_id(&list_json, "sample-asset-no-sub").is_err());
    assert!(find_item_by_asset_id(&list_json, "sample-asset-adjusting").is_err());
    assert!(find_item_by_asset_id(&list_json, "sample-asset-small").is_err());
}

#[test]
fn missing_lookup_names_the_id() {
    let list_json = sample_list();
    match find_item_by_asset_id(&list_json, "missing-asset") {
        Err(e) => assert_eq!(e.message(), "item id not found: missing-asset"),
        Ok(_) => panic!("missing asset must not be found"),
    }
    match find_item_by_id(&list_json, "nope") {
        Err(BuddyCastError::ItemNotFound(id)) => assert_eq!(id, "nope"),
        _ => panic!("missing id must not be found"),
    }
}

#[test]
fn normalize_reports_each_missing_field() {
    let no_contents = obj(vec![("id", s("x"))]);
    assert!(matches!(normalize_item(&no_contents), Err(BuddyCastError::MissingItemContents)));
    let contents_not_object = obj(vec![("id", s("x")), ("contents", s("text"))]);
    assert!(matches!(
        normalize_item(&contents_not_object),
        Err(BuddyCastError::MissingItemContents)
    ));
    let no_id = obj(vec![("contents", obj(vec![]))]);
    assert!(matches!(normalize_item(&no_id), Err(BuddyCastError::MissingItemId)));
    let no_asset = obj(vec![("id", s("x")), ("contents", obj(vec![("url", s("/u"))]))]);
    assert!(matches!(normalize_item(&no_asset), Err(BuddyCastError::MissingAssetId)));
    let no_url = obj(vec![("id", s("x")), ("contents", obj(vec![("etag", s("a"))]))]);
    assert!(matches!(normalize_item(&no_url), Err(BuddyCastError::MissingItemUrl)));
}

#[test]
fn normalize_keeps_absolute_urls_and_defaults() {
    let item = obj(vec![
        ("id", s("i")),
        (
            "contents",
            obj(vec![("etag", s("a")), ("url", s("https://example.org/x.zip")), ("size", s("12x"))]),
        ),
    ]);
    let n = normalize_item(&item).expect("item normalizes");
    assert_eq!(n.asset_id, "a");
    assert_eq!(n.url, "https://example.org/x.zip");
    assert_eq!(n.size, "12x");
    assert_eq!(n.size_bytes, 0);
    assert_eq!(n.title, "");
    assert!(!n.has_sub_tag);
    assert!(!is_displayable_item(&n));
}

#[test]
fn delivery_contents_errors() {
    let missing = obj(vec![("contents", obj(vec![]))]);
    assert!(matches!(
        iter_delivery_contents(&missing),
        Err(BuddyCastError::MissingDeliveryContents)
    ));
    let not_list = obj(vec![("contents", obj(vec![("deliveryContents", s("x"))]))]);
    assert!(matches!(
        iter_delivery_contents(&not_list),
        Err(BuddyCastError::DeliveryContentsNotList)
    ));
    assert!(matches!(iter_delivery_contents(&JsonValue::Null), Err(BuddyCastError::MissingDeliveryContents)));
}

#[test]
fn auth_header_is_basic_base64() {
    assert_eq!(auth_header("UDeC4PTB", "iqKJwKZJ"), "Basic VURlQzRQVEI6aXFLSndLWko=");
    assert_eq!(auth_header("a", "b"), "Basic YTpi");
}

#[test]
fn retry_policy() {
    assert_eq!(retry_attempts(3), 4);
    assert_eq!(retry_attempts(usize::MAX), usize::MAX);
    assert_eq!(retry_after_failure(0, 4, true), RetryStep::SleepThenRetry);
    assert_eq!(retry_after_failure(2, 4, false), RetryStep::RetryNow);
    assert_eq!(retry_after_failure(3, 4, true), RetryStep::GiveUp);
}
