//! The content-list rules: how raw items are read from the list JSON, how
//! they are normalized, which of them are shown, and how one is looked up.
use crate::error::BuddyCastError;
use crate::model::{NormalizedItem, NormalizedView};
use crate::text::{
    ascii_lowercase, chars_of, eq_ignore_ascii_case, eq_ignore_ascii_case_exec, is_lowercase_word,
    lemma_lowercase_is_any_case_spelling, matches_at, parse_u64, spells_in_any_case,
    parse_unsigned, push_str, starts_with, starts_with_exec, str_eq, contains, contains_exec,
};
use base64::Engine;
use vstd::prelude::*;
use vstd::string::StringExecFns;

verus! {

/// Origin of the content service.
pub const BASE_URL: &'static str = "https://cms.palabra.jp";

/// Path of the content list on the service.
pub const LIST_PATH: &'static str = "/masc/encrypt/list";

/// User of the service's HTTP Basic authorization.
pub const DEFAULT_USER: &'static str = "UDeC4PTB";

/// Password of the service's HTTP Basic authorization.
pub const DEFAULT_PASSWORD: &'static str = "iqKJwKZJ";

/// Items of this size in bytes or smaller are not shown.
pub const MINIMUM_VISIBLE_SIZE_BYTES: u64 = 100_000;

/// A JSON document; numbers keep their text, objects their entries in order.
#[derive(Debug)]
pub enum JsonValue {
    Null,
    Bool(bool),
    Number(String),
    Str(String),
    Array(Vec<JsonValue>),
    Object(Vec<(String, JsonValue)>),
}

/// The value of the first entry named `key` among `entries`.
pub open spec fn entry_lookup(entries: Seq<(String, JsonValue)>, key: Seq<char>) -> Option<
    JsonValue,
>
    decreases entries.len(),
{
    if entries.len() == 0 {
        None
    } else if entries[0].0@ == key {
        Some(entries[0].1)
    } else {
        entry_lookup(entries.drop_first(), key)
    }
}

/// The member `key` of an object (`Value::get`); nothing for other values.
pub open spec fn json_get(v: JsonValue, key: Seq<char>) -> Option<JsonValue> {
    match v {
        JsonValue::Object(entries) => entry_lookup(entries@, key),
        _ => None,
    }
}

/// The text of a string value (`Value::as_str`).
pub open spec fn json_str(v: Option<JsonValue>) -> Option<Seq<char>> {
    match v {
        Some(JsonValue::Str(s)) => Some(s@),
        _ => None,
    }
}

/// The member `key` of an object.
pub fn json_get_exec<'a>(v: &'a JsonValue, key: &str) -> (r: Option<&'a JsonValue>)
    ensures
        r is None <==> json_get(*v, key@) is None,
        r matches Some(y) ==> json_get(*v, key@) == Some(*y),
{
    match v {
        JsonValue::Object(entries) => {
            let mut i: usize = 0;
            assert(entries@.skip(0) =~= entries@);
            while i < entries.len()
                invariant
                    i <= entries.len(),
                    json_get(*v, key@) == entry_lookup(entries@, key@),
                    entry_lookup(entries@, key@) == entry_lookup(entries@.skip(i as int), key@),
                decreases entries.len() - i,
            {
                assert(entries@.skip(i as int).drop_first() =~= entries@.skip(i + 1));
                assert(entries@.skip(i as int)[0] == entries@[i as int]);
                if str_eq(entries[i].0.as_str(), key) {
                    return Some(&entries[i].1);
                }
                i = i + 1;
            }
            None
        },
        _ => None,
    }
}

/// The text of a string value.
pub fn json_as_str<'a>(v: Option<&'a JsonValue>) -> (r: Option<&'a String>)
    ensures
        match v {
            Some(JsonValue::Str(s)) => r == Some(s),
            _ => r is None,
        },
{
    match v {
        Some(JsonValue::Str(s)) => Some(s),
        _ => None,
    }
}

/// The value of a field when it is a string, else the empty text.
pub open spec fn str_or_empty(v: Option<JsonValue>) -> Seq<char> {
    match json_str(v) {
        Some(s) => s,
        None => Seq::empty(),
    }
}

/// A tag that marks an item as subtitled: the text `sub` in any ASCII case.
pub open spec fn is_sub_tag(tag: JsonValue) -> bool {
    match tag {
        JsonValue::Str(s) => eq_ignore_ascii_case(s@, "sub"@),
        _ => false,
    }
}

/// The tags of an item: its `tags` array, or none.
pub open spec fn item_tags(item: JsonValue) -> Seq<JsonValue> {
    match json_get(item, "tags"@) {
        Some(JsonValue::Array(a)) => a@,
        _ => Seq::empty(),
    }
}

/// A download URL: kept when it is absolute, else joined to `BASE_URL`.
pub open spec fn full_url(path: Seq<char>) -> Seq<char> {
    if starts_with(path, "http://"@) || starts_with(path, "https://"@) {
        path
    } else {
        BASE_URL@ + path
    }
}

/// The asset id of an item's contents: `eTags`, or `etag` when `eTags` is absent.
pub open spec fn asset_tag(contents: JsonValue) -> Option<JsonValue> {
    match json_get(contents, "eTags"@) {
        Some(v) => Some(v),
        None => json_get(contents, "etag"@),
    }
}

/// What `normalize_item` gives for a raw item.
pub open spec fn normalize_spec(item: JsonValue) -> Result<NormalizedView, BuddyCastError> {
    match json_get(item, "contents"@) {
        Some(JsonValue::Object(entries)) => {
            let contents = JsonValue::Object(entries);
            match json_str(json_get(item, "id"@)) {
                None => Err(BuddyCastError::MissingItemId),
                Some(id) => match json_str(asset_tag(contents)) {
                    None => Err(BuddyCastError::MissingAssetId),
                    Some(asset) => match json_str(json_get(contents, "url"@)) {
                        None => Err(BuddyCastError::MissingItemUrl),
                        Some(url_path) => {
                            let size = str_or_empty(json_get(contents, "size"@));
                            Ok(
                                NormalizedView {
                                    item_id: id,
                                    asset_id: asset,
                                    url: full_url(url_path),
                                    size: size,
                                    title: str_or_empty(json_get(item, "title"@)),
                                    has_sub_tag: exists|i: int|
                                        0 <= i < item_tags(item).len() && #[trigger] is_sub_tag(
                                            item_tags(item)[i],
                                        ),
                                    size_bytes: match parse_unsigned(size, u64::MAX as nat) {
                                        Some(n) => n as u64,
                                        None => 0,
                                    },
                                },
                            )
                        },
                    },
                },
            }
        },
        _ => Err(BuddyCastError::MissingItemContents),
    }
}

/// `r` is what normalizing `item` gives.
pub open spec fn normalizes_to(item: JsonValue, r: Result<NormalizedItem, BuddyCastError>) -> bool {
    match normalize_spec(item) {
        Ok(v) => r matches Ok(n) && n@ == v,
        Err(e) => r matches Err(e2) && e2 == e,
    }
}

fn text_or_empty(v: Option<&String>) -> (r: String)
    ensures
        r@ == match v {
            Some(s) => s@,
            None => Seq::<char>::empty(),
        },
{
    match v {
        Some(s) => s.clone(),
        None => String::new(),
    }
}

/// Whether a tag marks an item as subtitled.
fn has_sub_tag(tag: &JsonValue) -> (r: bool)
    ensures
        r == is_sub_tag(*tag),
{
    match tag {
        JsonValue::Str(s) => {
            let cs = chars_of(s.as_str());
            let sub = chars_of("sub");
            eq_ignore_ascii_case_exec(cs.as_slice(), sub.as_slice())
        },
        _ => false,
    }
}

/// Normalize a raw content item into the compact model used by the CLI and workflow.
pub fn normalize_item(item: &JsonValue) -> (r: Result<NormalizedItem, BuddyCastError>)
    ensures
        normalizes_to(*item, r),
{
    let contents = match json_get_exec(item, "contents") {
        Some(c) => match c {
            JsonValue::Object(_) => c,
            _ => {
                return Err(BuddyCastError::MissingItemContents);
            },
        },
        None => {
            return Err(BuddyCastError::MissingItemContents);
        },
    };
    let item_id = match json_as_str(json_get_exec(item, "id")) {
        Some(s) => s,
        None => {
            return Err(BuddyCastError::MissingItemId);
        },
    };
    let tag = match json_get_exec(contents, "eTags") {
        Some(v) => Some(v),
        None => json_get_exec(contents, "etag"),
    };
    let asset_id = match json_as_str(tag) {
        Some(s) => s,
        None => {
            return Err(BuddyCastError::MissingAssetId);
        },
    };
    let url_path = match json_as_str(json_get_exec(contents, "url")) {
        Some(s) => s,
        None => {
            return Err(BuddyCastError::MissingItemUrl);
        },
    };
    let size = text_or_empty(json_as_str(json_get_exec(contents, "size")));
    let title = text_or_empty(json_as_str(json_get_exec(item, "title")));

    let mut any_sub = false;
    match json_get_exec(item, "tags") {
        Some(JsonValue::Array(tags)) => {
            let mut i: usize = 0;
            while i < tags.len()
                invariant
                    i <= tags.len(),
                    item_tags(*item) == tags@,
                    any_sub == exists|j: int| 0 <= j < i && #[trigger] is_sub_tag(tags@[j]),
                decreases tags.len() - i,
            {
                if has_sub_tag(&tags[i]) {
                    any_sub = true;
                }
                i = i + 1;
            }
        },
        _ => {},
    }

    let path_chars = chars_of(url_path.as_str());
    let http = chars_of("http://");
    let https = chars_of("https://");
    let url = if starts_with_exec(path_chars.as_slice(), http.as_slice()) || starts_with_exec(
        path_chars.as_slice(),
        https.as_slice(),
    ) {
        url_path.clone()
    } else {
        let mut u = String::from_str(BASE_URL);
        push_str(&mut u, url_path.as_str());
        u
    };
    let size_chars = chars_of(size.as_str());
    let size_bytes = match parse_u64(size_chars.as_slice()) {
        Some(n) => n,
        None => 0,
    };
    Ok(
        NormalizedItem {
            item_id: item_id.clone(),
            asset_id: asset_id.clone(),
            url,
            size,
            title,
            has_sub_tag: any_sub,
            size_bytes,
        },
    )
}

/// The title marker of items whose subtitles are still being adjusted.
pub open spec fn adjusting_marker() -> Seq<char> {
    "調整中"@
}

/// An item is shown when it carries the `sub` tag, its title is not marked
/// as being adjusted, and it is larger than the minimum visible size.
pub open spec fn displayable(item: NormalizedView) -> bool {
    item.has_sub_tag && !contains(item.title, adjusting_marker()) && item.size_bytes
        > MINIMUM_VISIBLE_SIZE_BYTES
}

/// Check whether a normalized item should be visible to the user.
pub fn is_displayable_item(item: &NormalizedItem) -> (r: bool)
    ensures
        r == displayable(item@),
{
    if !item.has_sub_tag {
        return false;
    }
    let title = chars_of(item.title.as_str());
    let marker = chars_of("調整中");
    !contains_exec(title.as_slice(), marker.as_slice()) && item.size_bytes
        > MINIMUM_VISIBLE_SIZE_BYTES
}

/// The raw items of the list JSON: `contents.deliveryContents`.
pub open spec fn delivery_contents(list: JsonValue) -> Result<Seq<JsonValue>, BuddyCastError> {
    match json_get(list, "contents"@) {
        None => Err(BuddyCastError::MissingDeliveryContents),
        Some(c) => match json_get(c, "deliveryContents"@) {
            None => Err(BuddyCastError::MissingDeliveryContents),
            Some(JsonValue::Array(a)) => Ok(a@),
            Some(_) => Err(BuddyCastError::DeliveryContentsNotList),
        },
    }
}

/// Return the raw delivery content items from the list JSON.
pub fn iter_delivery_contents(list_json: &JsonValue) -> (r: Result<&Vec<JsonValue>, BuddyCastError>)
    ensures
        match delivery_contents(*list_json) {
            Ok(items) => r matches Ok(v) && v@ == items,
            Err(e) => r matches Err(e2) && e2 == e,
        },
{
    let contents = match json_get_exec(list_json, "contents") {
        Some(c) => c,
        None => {
            return Err(BuddyCastError::MissingDeliveryContents);
        },
    };
    match json_get_exec(contents, "deliveryContents") {
        None => Err(BuddyCastError::MissingDeliveryContents),
        Some(JsonValue::Array(a)) => Ok(a),
        Some(_) => Err(BuddyCastError::DeliveryContentsNotList),
    }
}

/// The normalized items among the first `n` raw items that are shown, in
/// order; the first item that cannot be normalized makes it fail.
pub open spec fn display_prefix(items: Seq<JsonValue>, n: int) -> Result<
    Seq<NormalizedView>,
    BuddyCastError,
>
    decreases n,
{
    if n <= 0 {
        Ok(Seq::empty())
    } else {
        match display_prefix(items, n - 1) {
            Err(e) => Err(e),
            Ok(v) => match normalize_spec(items[n - 1]) {
                Err(e) => Err(e),
                Ok(x) => Ok(
                    if displayable(x) {
                        v.push(x)
                    } else {
                        v
                    },
                ),
            },
        }
    }
}

/// What `normalized_display_items` gives for the list JSON.
pub open spec fn display_items(list: JsonValue) -> Result<Seq<NormalizedView>, BuddyCastError> {
    match delivery_contents(list) {
        Err(e) => Err(e),
        Ok(items) => display_prefix(items, items.len() as int),
    }
}

/// The views of a list of normalized items.
pub open spec fn views(v: Seq<NormalizedItem>) -> Seq<NormalizedView> {
    Seq::new(v.len(), |i: int| v[i]@)
}

/// Build a filtered list of normalized items suitable for display and asset-id lookup.
pub fn normalized_display_items(list_json: &JsonValue) -> (r: Result<Vec<NormalizedItem>, BuddyCastError>)
    ensures
        match display_items(*list_json) {
            Ok(v) => r matches Ok(items) && views(items@) == v,
            Err(e) => r matches Err(e2) && e2 == e,
        },
{
    let raw = iter_delivery_contents(list_json)?;
    let mut items: Vec<NormalizedItem> = Vec::new();
    let mut i: usize = 0;
    while i < raw.len()
        invariant
            i <= raw.len(),
            delivery_contents(*list_json) == Ok::<Seq<JsonValue>, BuddyCastError>(raw@),
            display_prefix(raw@, i as int) matches Ok(v) && views(items@) == v,
        decreases raw.len() - i,
    {
        let normalized = normalize_item(&raw[i]);
        match normalized {
            Err(e) => {
                proof {
                    lemma_display_prefix_error(raw@, i as int + 1, raw@.len() as int);
                }
                return Err(e);
            },
            Ok(n) => {
                let ghost before = items@;
                if is_displayable_item(&n) {
                    items.push(n);
                    assert(views(items@) =~= views(before).push(n@));
                }
            },
        }
        i = i + 1;
    }
    Ok(items)
}

/// Once a prefix fails to normalize, every longer prefix fails the same way.
proof fn lemma_display_prefix_error(items: Seq<JsonValue>, n: int, m: int)
    requires
        0 < n <= m,
        display_prefix(items, n) is Err,
    ensures
        display_prefix(items, m) == display_prefix(items, n),
    decreases m - n,
{
    if m > n {
        lemma_display_prefix_error(items, n, m - 1);
    }
}

/// The index of the first of the first `n` raw items that is shown and has
/// the asset id `asset_id`; an item that cannot be normalized before it makes
/// the search fail.
pub open spec fn asset_search(items: Seq<JsonValue>, asset_id: Seq<char>, n: int) -> Result<
    Option<int>,
    BuddyCastError,
>
    decreases n,
{
    if n <= 0 {
        Ok(None)
    } else {
        match asset_search(items, asset_id, n - 1) {
            Err(e) => Err(e),
            Ok(Some(i)) => Ok(Some(i)),
            Ok(None) => match normalize_spec(items[n - 1]) {
                Err(e) => Err(e),
                Ok(x) => if displayable(x) && x.asset_id == asset_id {
                    Ok(Some(n - 1))
                } else {
                    Ok(None)
                },
            },
        }
    }
}

/// Find a raw item by its asset id after applying the same display filters used by the CLI.
pub fn find_item_by_asset_id<'a>(list_json: &'a JsonValue, asset_id: &str) -> (r: Result<
    &'a JsonValue,
    BuddyCastError,
>)
    ensures
        match delivery_contents(*list_json) {
            Err(e) => r matches Err(e2) && e2 == e,
            Ok(items) => match asset_search(items, asset_id@, items.len() as int) {
                Err(e) => r matches Err(e2) && e2 == e,
                Ok(Some(i)) => r matches Ok(item) && *item == items[i],
                Ok(None) => r matches Err(BuddyCastError::ItemNotFound(s)) && s@ == asset_id@,
            },
        },
{
    let raw = iter_delivery_contents(list_json)?;
    let mut i: usize = 0;
    while i < raw.len()
        invariant
            i <= raw.len(),
            delivery_contents(*list_json) == Ok::<Seq<JsonValue>, BuddyCastError>(raw@),
            asset_search(raw@, asset_id@, i as int) == Ok::<Option<int>, BuddyCastError>(None),
        decreases raw.len() - i,
    {
        match normalize_item(&raw[i]) {
            Err(e) => {
                proof {
                    lemma_asset_search_stops(raw@, asset_id@, i as int + 1, raw@.len() as int);
                }
                return Err(e);
            },
            Ok(n) => {
                let shown = is_displayable_item(&n);
                if shown && str_eq(n.asset_id.as_str(), asset_id) {
                    proof {
                        lemma_asset_search_stops(raw@, asset_id@, i as int + 1, raw@.len() as int);
                    }
                    return Ok(&raw[i]);
                }
            },
        }
        i = i + 1;
    }
    Err(BuddyCastError::ItemNotFound(String::from_str(asset_id)))
}

/// Once the search has an answer or has failed, looking further changes nothing.
proof fn lemma_asset_search_stops(items: Seq<JsonValue>, asset_id: Seq<char>, n: int, m: int)
    requires
        0 < n <= m,
        !(asset_search(items, asset_id, n) == Ok::<Option<int>, BuddyCastError>(None)),
    ensures
        asset_search(items, asset_id, m) == asset_search(items, asset_id, n),
    decreases m - n,
{
    if m > n {
        lemma_asset_search_stops(items, asset_id, n, m - 1);
    }
}

/// The index of the first of the first `n` raw items whose `id` is `item_id`.
pub open spec fn id_search(items: Seq<JsonValue>, item_id: Seq<char>, n: int) -> Option<int>
    decreases n,
{
    if n <= 0 {
        None
    } else {
        match id_search(items, item_id, n - 1) {
            Some(i) => Some(i),
            None => if json_str(json_get(items[n - 1], "id"@)) == Some(item_id) {
                Some(n - 1)
            } else {
                None
            },
        }
    }
}

/// Find a raw item by its item id.
pub fn find_item_by_id<'a>(list_json: &'a JsonValue, item_id: &str) -> (r: Result<
    &'a JsonValue,
    BuddyCastError,
>)
    ensures
        match delivery_contents(*list_json) {
            Err(e) => r matches Err(e2) && e2 == e,
            Ok(items) => match id_search(items, item_id@, items.len() as int) {
                Some(i) => r matches Ok(item) && *item == items[i],
                None => r matches Err(BuddyCastError::ItemNotFound(s)) && s@ == item_id@,
            },
        },
{
    let raw = iter_delivery_contents(list_json)?;
    let mut i: usize = 0;
    while i < raw.len()
        invariant
            i <= raw.len(),
            delivery_contents(*list_json) == Ok::<Seq<JsonValue>, BuddyCastError>(raw@),
            id_search(raw@, item_id@, i as int) is None,
        decreases raw.len() - i,
    {
        let matched = match json_as_str(json_get_exec(&raw[i], "id")) {
            Some(s) => str_eq(s.as_str(), item_id),
            None => false,
        };
        if matched {
            proof {
                lemma_id_search_stops(raw@, item_id@, i as int + 1, raw@.len() as int);
            }
            return Ok(&raw[i]);
        }
        i = i + 1;
    }
    Err(BuddyCastError::ItemNotFound(String::from_str(item_id)))
}

proof fn lemma_id_search_stops(items: Seq<JsonValue>, item_id: Seq<char>, n: int, m: int)
    requires
        0 < n <= m,
        id_search(items, item_id, n) is Some,
    ensures
        id_search(items, item_id, m) == id_search(items, item_id, n),
    decreases m - n,
{
    if m > n {
        lemma_id_search_stops(items, item_id, n, m - 1);
    }
}

/// An item counts as subtitled exactly when one of its tags is a string
/// spelling `sub` with its letters in any case (`sub`, `SUB`, `Sub`, ...).
pub proof fn lemma_sub_tag_in_any_case(item: JsonValue)
    requires
        normalize_spec(item) is Ok,
    ensures
        normalize_spec(item)->Ok_0.has_sub_tag <==> exists|i: int|
            0 <= i < item_tags(item).len() && (#[trigger] item_tags(item)[i] matches JsonValue::Str(
                s,
            ) && spells_in_any_case(s@, "sub"@)),
{
    reveal_strlit("sub");
    assert(is_lowercase_word("sub"@));
    let tags = item_tags(item);
    assert forall|i: int| 0 <= i < tags.len() implies #[trigger] is_sub_tag(tags[i]) <==> (
    tags[i] matches JsonValue::Str(s) && spells_in_any_case(s@, "sub"@)) by {
        if let JsonValue::Str(s) = tags[i] {
            lemma_lowercase_is_any_case_spelling(s@, "sub"@);
            assert(ascii_lowercase("sub"@) =~= "sub"@);
        }
    }
    let v = normalize_spec(item)->Ok_0;
    assert(v.has_sub_tag <==> exists|i: int| 0 <= i < tags.len() && #[trigger] is_sub_tag(tags[i]));
    if v.has_sub_tag {
        let i = choose|i: int| 0 <= i < tags.len() && #[trigger] is_sub_tag(tags[i]);
        assert(tags[i] matches JsonValue::Str(s) && spells_in_any_case(s@, "sub"@));
    }
    if exists|i: int|
        0 <= i < tags.len() && (#[trigger] tags[i] matches JsonValue::Str(s) && spells_in_any_case(
            s@,
            "sub"@,
        )) {
        let i = choose|i: int|
            0 <= i < tags.len() && (#[trigger] tags[i] matches JsonValue::Str(s) && spells_in_any_case(
                s@,
                "sub"@,
            ));
        assert(is_sub_tag(tags[i]));
    }
}

/// Every item of the display list passes the display filter.
pub proof fn lemma_display_items_are_displayable(list: JsonValue)
    ensures
        display_items(list) matches Ok(v) ==> forall|j: int|
            0 <= j < v.len() ==> displayable(#[trigger] v[j]),
{
    if let Ok(items) = delivery_contents(list) {
        lemma_display_prefix_displayable(items, items.len() as int);
    }
}

proof fn lemma_display_prefix_displayable(items: Seq<JsonValue>, n: int)
    ensures
        display_prefix(items, n) matches Ok(v) ==> forall|j: int|
            0 <= j < v.len() ==> displayable(#[trigger] v[j]),
    decreases n,
{
    if n > 0 {
        lemma_display_prefix_displayable(items, n - 1);
    }
}

/// Looking an item up by asset id searches the display list: when the list
/// can be built, the lookup finds an item exactly when the list holds an item
/// with that asset id, and the item it finds is shown and has that asset id.
pub proof fn lemma_asset_lookup_uses_display_list(list: JsonValue, asset_id: Seq<char>)
    requires
        display_items(list) is Ok,
    ensures
        ({
            let items = delivery_contents(list)->Ok_0;
            let v = display_items(list)->Ok_0;
            let found = asset_search(items, asset_id, items.len() as int);
            &&& found is Ok
            &&& (found == Ok::<Option<int>, BuddyCastError>(None)) <==> !(exists|j: int|
                0 <= j < v.len() && (#[trigger] v[j]).asset_id == asset_id)
            &&& found matches Ok(Some(i)) ==> 0 <= i < items.len() && (normalize_spec(
                items[i],
            ) matches Ok(x) && displayable(x) && x.asset_id == asset_id)
        }),
{
    let items = delivery_contents(list)->Ok_0;
    lemma_search_vs_display(items, asset_id, items.len() as int);
}

proof fn lemma_search_vs_display(items: Seq<JsonValue>, asset_id: Seq<char>, n: int)
    requires
        0 <= n <= items.len(),
        display_prefix(items, n) is Ok,
    ensures
        ({
            let v = display_prefix(items, n)->Ok_0;
            let found = asset_search(items, asset_id, n);
            &&& found is Ok
            &&& (found == Ok::<Option<int>, BuddyCastError>(None)) <==> !(exists|j: int|
                0 <= j < v.len() && (#[trigger] v[j]).asset_id == asset_id)
            &&& found matches Ok(Some(i)) ==> 0 <= i < n && (normalize_spec(items[i]) matches Ok(
                x,
            ) && displayable(x) && x.asset_id == asset_id)
        }),
    decreases n,
{
    if n > 0 {
        lemma_search_vs_display(items, asset_id, n - 1);
        let v0 = display_prefix(items, n - 1)->Ok_0;
        let v = display_prefix(items, n)->Ok_0;
        let x = normalize_spec(items[n - 1])->Ok_0;
        if asset_search(items, asset_id, n - 1) == Ok::<Option<int>, BuddyCastError>(None) {
            if displayable(x) {
                assert(v == v0.push(x));
                if x.asset_id == asset_id {
                    assert(v[v0.len() as int].asset_id == asset_id);
                } else {
                    assert forall|j: int| 0 <= j < v.len() implies (#[trigger] v[j]).asset_id
                        != asset_id by {
                        if j < v0.len() {
                            assert(v[j] == v0[j]);
                        }
                    }
                }
            }
        } else {
            let j0 = choose|j: int| 0 <= j < v0.len() && (#[trigger] v0[j]).asset_id == asset_id;
            if displayable(x) {
                assert(v[j0] == v0[j0]);
            }
            assert(v[j0].asset_id == asset_id);
        }
    }
}

/// The character of the standard base64 alphabet for a six-bit value:
/// `A`-`Z`, `a`-`z`, `0`-`9`, `+`, `/`.
pub open spec fn base64_digit(v: int) -> char {
    if v < 26 {
        (65 + v) as char
    } else if v < 52 {
        (97 + v - 26) as char
    } else if v < 62 {
        (48 + v - 52) as char
    } else if v == 62 {
        '+'
    } else {
        '/'
    }
}

/// Base64 with the standard alphabet and `=` padding: every group of three
/// bytes becomes four characters of six bits each, most significant first;
/// a last group of one or two bytes is filled with zero bits and padded to
/// four characters with `=`.
pub open spec fn base64_standard(data: Seq<u8>) -> Seq<char>
    decreases data.len(),
{
    if data.len() == 0 {
        Seq::empty()
    } else if data.len() == 1 {
        let b0 = data[0] as int;
        seq![base64_digit(b0 / 4), base64_digit((b0 % 4) * 16), '=', '=']
    } else if data.len() == 2 {
        let b0 = data[0] as int;
        let b1 = data[1] as int;
        seq![
            base64_digit(b0 / 4),
            base64_digit((b0 % 4) * 16 + b1 / 16),
            base64_digit((b1 % 16) * 4),
            '=',
        ]
    } else {
        let b0 = data[0] as int;
        let b1 = data[1] as int;
        let b2 = data[2] as int;
        seq![
            base64_digit(b0 / 4),
            base64_digit((b0 % 4) * 16 + b1 / 16),
            base64_digit((b1 % 16) * 4 + b2 / 64),
            base64_digit(b2 % 64),
        ] + base64_standard(data.subrange(3, data.len() as int))
    }
}

/// The length of the `STANDARD` encoding of `n` bytes fits in `usize`.
pub open spec fn base64_len_fits(n: nat) -> bool {
    (n / 3) * 4 + (if n % 3 == 0 {
        0int
    } else {
        4int
    }) <= usize::MAX
}

/// `Engine::encode` of the `STANDARD` engine of the `base64` crate: standard
/// base64 with padding of the bytes. The crate panics when the length of the
/// encoding does not fit in `usize`, which `requires` rules out.
#[verifier::external_body]
fn base64_encode(data: &[u8]) -> (r: String)
    requires
        base64_len_fits(data@.len()),
    ensures
        r@ == base64_standard(data@),
{
    base64::engine::general_purpose::STANDARD.encode(data)
}

/// The value of the HTTP Basic `Authorization` header for a user and password.
pub open spec fn auth_header_value(user: Seq<char>, password: Seq<char>) -> Seq<char> {
    "Basic "@ + base64_standard(vstd::utf8::encode_utf8(user + ":"@ + password))
}

/// Build the HTTP Basic authorization header value used by the service.
pub fn auth_header(user: &str, password: &str) -> (r: String)
    requires
        base64_len_fits(vstd::utf8::encode_utf8(user@ + ":"@ + password@).len()),
    ensures
        r@ == auth_header_value(user@, password@),
{
    let mut credentials = String::from_str(user);
    push_str(&mut credentials, ":");
    push_str(&mut credentials, password);
    let token = base64_encode(credentials.as_str().as_bytes());
    let mut r = String::from_str("Basic ");
    push_str(&mut r, token.as_str());
    r
}

/// The number of attempts a download makes with `retries` retries: one more
/// than the retries, at least one.
pub open spec fn retry_attempts_spec(retries: usize) -> usize {
    if retries == usize::MAX {
        usize::MAX
    } else {
        (retries + 1) as usize
    }
}

/// The number of attempts for a number of retries.
pub fn retry_attempts(retries: usize) -> (r: usize)
    ensures
        r == retry_attempts_spec(retries),
        r >= 1,
{
    let a = retries.saturating_add(1);
    if a < 1 {
        1
    } else {
        a
    }
}

/// What a retry loop does after an attempt failed.
#[derive(Debug, Clone, Copy, PartialEq, Eq, Structural)]
pub enum RetryStep {
    /// Wait the retry delay, then try again.
    SleepThenRetry,
    /// Try again at once.
    RetryNow,
    /// Give up and report the last error.
    GiveUp,
}

/// The step after failed attempt number `attempt` (from zero) of `attempts`.
pub open spec fn retry_step_spec(attempt: usize, attempts: usize, delay_positive: bool) -> RetryStep {
    if attempt + 1 < attempts {
        if delay_positive {
            RetryStep::SleepThenRetry
        } else {
            RetryStep::RetryNow
        }
    } else {
        RetryStep::GiveUp
    }
}

/// Decide what follows a failed attempt: another attempt remains when
/// `attempt + 1 < attempts`, and it is preceded by the delay when the delay
/// is positive.
pub fn retry_after_failure(attempt: usize, attempts: usize, delay_positive: bool) -> (r: RetryStep)
    ensures
        r == retry_step_spec(attempt, attempts, delay_positive),
{
    if attempt < attempts && attempts - attempt > 1 {
        if delay_positive {
            RetryStep::SleepThenRetry
        } else {
            RetryStep::RetryNow
        }
    } else {
        RetryStep::GiveUp
    }
}

/// A retry loop makes exactly `attempts` attempts when every attempt fails:
/// each of the first `attempts - 1` failures is followed by another attempt,
/// and the last by giving up.
pub proof fn lemma_retry_makes_all_attempts(attempts: usize, attempt: usize, delay_positive: bool)
    requires
        attempt < attempts,
    ensures
        (retry_step_spec(attempt, attempts, delay_positive) == RetryStep::GiveUp) <==> attempt
            + 1 == attempts,
{
}

} // verus!
