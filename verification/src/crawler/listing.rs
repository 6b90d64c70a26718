//! The h5ai protocol: what is asked of the server and how its answer is read.
use vstd::prelude::*;

use crate::crawler::parser::{extract_clckd, extract_title, page_title, page_token, DirEntry};
use crate::outside::{
    debug_form, format_minute, json_from_str, json_get, json_quote, status_text, url_join,
};
use crate::outside::{
    debug_text, is_plain, json_elements, json_int, json_member, json_quoted, json_text, json_value,
    minute_text, status_phrase, url_joined,
};
use crate::text::{
    begins_with, chars_of, decimal, is_char, lemma_run_start, push_decimal, same_chars, slice_text,
    split, split_chars, starts_with, text_of, text_view, trim_end_chars, trim_end_of,
    trim_start_chars, trim_start_of,
};

verus! {

// ---------------------------------------------------------------------------
// Addresses
// ---------------------------------------------------------------------------

/// The last segment of a path or URL, trailing slashes aside.
pub open spec fn segment_of(url: Seq<char>) -> Seq<char> {
    split(trim_end_of(url, '/'), '/').last()
}

/// The path of `url` relative to the server at `base`, with a leading slash; a URL elsewhere
/// is left as it is.
pub open spec fn path_of(url: Seq<char>, base: Seq<char>) -> Seq<char> {
    let root = trim_end_of(base, '/');
    if begins_with(url, root) {
        let rest = url.skip(root.len() as int);
        if rest.len() > 0 && rest[0] == '/' {
            rest
        } else {
            seq!['/'] + rest
        }
    } else {
        url
    }
}

/// The last segment of a path or URL.
pub fn last_segment(url: &str) -> (r: String)
    ensures
        r@ == segment_of(url@),
{
    let chars: Vec<char> = trim_end_chars(&chars_of(url), '/');
    let pieces: Vec<Vec<char>> = split_chars(&chars, '/');
    text_of(&pieces[pieces.len() - 1])
}

/// The path of `url` relative to the server at `base`.
pub fn url_to_path(url: &str, base: &str) -> (r: String)
    ensures
        r@ == path_of(url@, base@),
{
    let root: Vec<char> = trim_end_chars(&chars_of(base), '/');
    let chars: Vec<char> = chars_of(url);
    if !starts_with(&chars, &root) {
        return url.to_owned();
    }
    let rest: String = slice_text(&chars, root.len(), chars.len());
    assert(rest@ =~= url@.skip(root@.len() as int));
    if root.len() < chars.len() && chars[root.len()] == '/' {
        rest
    } else {
        let mut path: String = String::new();
        path.push('/');
        path.append(rest.as_str());
        assert(path@ =~= seq!['/'] + rest@);
        path
    }
}

// ---------------------------------------------------------------------------
// Requests
// ---------------------------------------------------------------------------

/// The path that names a directory to the server.
pub open spec fn href_of(base_url: Seq<char>, dir_url: Seq<char>) -> Seq<char> {
    let root = trim_end_of(base_url, '/');
    if begins_with(dir_url, root) {
        path_of(dir_url, base_url)
    } else {
        seq!['/']
    }
}

/// The address of the server's listing interface.
pub open spec fn api_url_of(base_url: Seq<char>) -> Seq<char> {
    trim_end_of(base_url, '/') + "/?"@
}

/// The body of a listing request.
pub open spec fn payload_of(href: Seq<char>) -> Seq<char> {
    "{\"action\":\"get\",\"items\":{\"href\":"@ + json_quoted(href) + ",\"what\":1}}"@
}

/// The path that names the directory at `dir_url` to the server at `base_url`.
pub fn directory_href(base_url: &str, dir_url: &str) -> (r: String)
    ensures
        r@ == href_of(base_url@, dir_url@),
{
    let root: Vec<char> = trim_end_chars(&chars_of(base_url), '/');
    if starts_with(&chars_of(dir_url), &root) {
        url_to_path(dir_url, base_url)
    } else {
        let mut href: String = String::new();
        href.push('/');
        assert(href@ =~= seq!['/']);
        href
    }
}

/// The address to which listing requests are posted.
pub fn api_url(base_url: &str) -> (r: String)
    ensures
        r@ == api_url_of(base_url@),
{
    let mut url: String = text_of(&trim_end_chars(&chars_of(base_url), '/'));
    url.append("/?");
    url
}

/// The JSON body of the request for the listing of `href`.
pub fn listing_payload(href: &str) -> (r: String)
    ensures
        r@ == payload_of(href@),
{
    let mut body: String = "{\"action\":\"get\",\"items\":{\"href\":".to_owned();
    body.append(json_quote(href).as_str());
    body.append(",\"what\":1}}");
    body
}

// ---------------------------------------------------------------------------
// Answers
// ---------------------------------------------------------------------------

/// Why a directory listing could not be had.
#[derive(Debug)]
pub enum H5aiError {
    /// The page answered with a status other than success.
    PageStatus { status: u16, title: Option<String> },
    /// The page, which answered with this status, holds no anti-forgery token.
    TokenMissing { status: u16, title: Option<String> },
    /// The listing interface answered with a status other than success.
    ApiStatus { status: u16 },
    /// The answer is no JSON document.
    InvalidJson,
    /// The answer has no array of items.
    MissingItems,
}

/// An HTTP status for a message: with its reason, if it is a status.
pub open spec fn status_words(status: u16) -> Seq<char> {
    match status_phrase(status) {
        Some(phrase) => phrase,
        None => decimal(status as nat),
    }
}

/// An HTTP status for a message.
pub fn status_message(status: u16) -> (r: String)
    ensures
        r@ == status_words(status),
{
    match status_text(status) {
        Some(phrase) => phrase,
        None => {
            let mut text: String = String::new();
            push_decimal(&mut text, status as u64);
            assert(text@ =~= decimal(status as nat));
            text
        },
    }
}

/// The page title that an error carries, if it carries one.
pub open spec fn title_of(error: H5aiError) -> Option<Seq<char>> {
    match error {
        H5aiError::PageStatus { title, .. } => text_view(title),
        H5aiError::TokenMissing { title, .. } => text_view(title),
        _ => None,
    }
}

/// The message of an error on a request to `url`, given how the page title is shown.
pub open spec fn error_text(error: H5aiError, url: Seq<char>, title: Seq<char>) -> Seq<char> {
    match error {
        H5aiError::PageStatus { status, .. } => "h5ai page GET returned HTTP "@ + status_words(status)
            + " for "@ + url + " (title: "@ + title + ")"@,
        H5aiError::TokenMissing { status, .. } =>
            "h5ai CSRF token ('clckd') not found in page HTML for "@ + url + " (HTTP "@
            + status_words(status) + ", title: "@ + title
            + "). Server may require a Cloudflare session or have changed its markup."@,
        H5aiError::ApiStatus { status } => "h5ai API returned HTTP "@ + status_words(status)
            + " for "@ + url,
        H5aiError::InvalidJson => "parsing h5ai JSON from "@ + url,
        H5aiError::MissingItems => "h5ai response missing items array"@,
    }
}

impl H5aiError {
    /// The message of an error on a request to `url`, given how the page title is shown.
    pub fn message_with(&self, url: &str, title: &str) -> (r: String)
        ensures
            r@ == error_text(*self, url@, title@),
    {
        match self {
            H5aiError::PageStatus { status, .. } => {
                let mut text: String = "h5ai page GET returned HTTP ".to_owned();
                text.append(status_message(*status).as_str());
                text.append(" for ");
                text.append(url);
                text.append(" (title: ");
                text.append(title);
                text.append(")");
                text
            },
            H5aiError::TokenMissing { status, .. } => {
                let mut text: String =
                    "h5ai CSRF token ('clckd') not found in page HTML for ".to_owned();
                text.append(url);
                text.append(" (HTTP ");
                text.append(status_message(*status).as_str());
                text.append(", title: ");
                text.append(title);
                text.append(
                    "). Server may require a Cloudflare session or have changed its markup.",
                );
                text
            },
            H5aiError::ApiStatus { status } => {
                let mut text: String = "h5ai API returned HTTP ".to_owned();
                text.append(status_message(*status).as_str());
                text.append(" for ");
                text.append(url);
                text
            },
            H5aiError::InvalidJson => {
                let mut text: String = "parsing h5ai JSON from ".to_owned();
                text.append(url);
                text
            },
            H5aiError::MissingItems => "h5ai response missing items array".to_owned(),
        }
    }

    /// The message of an error on a request to `url`.
    pub fn message(&self, url: &str) -> (r: String)
        ensures
            r@ == error_text(*self, url@, debug_text(title_of(*self))),
            title_of(*self) is None ==> r@ == error_text(*self, url@, "None"@),
            title_of(*self) matches Some(title) ==> is_plain(title) ==> r@ == error_text(
                *self,
                url@,
                "Some(\""@ + title + "\")"@,
            ),
    {
        let title: String = match self {
            H5aiError::PageStatus { title, .. } => debug_form(title),
            H5aiError::TokenMissing { title, .. } => debug_form(title),
            _ => debug_form(&None),
        };
        self.message_with(url, title.as_str())
    }
}

/// Whether an HTTP status means success.
pub open spec fn is_success(status: u16) -> bool {
    200 <= status <= 299
}

/// Whether an HTTP status means success.
pub fn status_is_success(status: u16) -> (r: bool)
    ensures
        r == is_success(status),
{
    200 <= status && status <= 299
}

/// Whether an optional text is the given one.
pub open spec fn is_text(text: Option<String>, value: Option<Seq<char>>) -> bool {
    match (text, value) {
        (Some(t), Some(v)) => t@ == v,
        (None, None) => true,
        _ => false,
    }
}

/// Takes the anti-forgery token from the answer to the page request.
///
/// The token is had exactly if the status is a success and the page gives one; each error
/// carries the page title for the message.
pub fn token_from_page(status: u16, html: &str) -> (r: Result<String, H5aiError>)
    ensures
        match r {
            Ok(token) => is_success(status) && page_token(html@, 0) == Some(token@),
            Err(H5aiError::PageStatus { status: s, title }) => !is_success(status) && s == status
                && is_text(title, page_title(html@)),
            Err(H5aiError::TokenMissing { status: s, title }) => is_success(status) && s == status
                && page_token(html@, 0) is None && is_text(title, page_title(html@)),
            Err(_) => false,
        },
{
    if !status_is_success(status) {
        return Err(H5aiError::PageStatus { status, title: extract_title(html) });
    }
    match extract_clckd(html) {
        Some(token) => Ok(token),
        None => Err(H5aiError::TokenMissing { status, title: extract_title(html) }),
    }
}

/// One item of a listing, as far as the mirror reads it.
#[derive(Debug)]
pub struct H5aiItem {
    /// The server path; a directory's ends with a slash.
    pub href: Option<String>,
    /// Last modification in milliseconds since the Unix epoch.
    pub time: Option<i64>,
    /// Size in bytes.
    pub size: Option<i64>,
}

/// The contents of an `H5aiItem`.
pub struct ItemView {
    pub href: Option<Seq<char>>,
    pub time: Option<i64>,
    pub size: Option<i64>,
}

impl View for H5aiItem {
    type V = ItemView;

    open spec fn view(&self) -> ItemView {
        ItemView { href: text_view(self.href), time: self.time, size: self.size }
    }
}

/// The contents of a `DirEntry`.
pub struct EntryView {
    pub url: Seq<char>,
    pub name: Seq<char>,
    pub is_dir: bool,
    pub last_modified: Option<Seq<char>>,
    pub size_bytes: Option<i64>,
}

impl View for DirEntry {
    type V = EntryView;

    open spec fn view(&self) -> EntryView {
        EntryView {
            url: self.url@,
            name: self.name@,
            is_dir: self.is_dir,
            last_modified: text_view(self.last_modified),
            size_bytes: self.size_bytes,
        }
    }
}

/// Whole seconds in a number of milliseconds, rounded towards zero.
pub open spec fn whole_seconds(ms: i64) -> i64 {
    if ms >= 0 {
        (ms / 1000) as i64
    } else {
        (-((-ms) / 1000)) as i64
    }
}

/// The full URL of a server path: resolved against the base, or appended to it where that
/// cannot be resolved.
pub open spec fn item_url(base_url: Seq<char>, href: Seq<char>) -> Seq<char> {
    match url_joined(base_url, href) {
        Some(url) => url,
        None => trim_end_of(base_url, '/') + seq!['/'] + trim_start_of(href, '/'),
    }
}

/// Whether an item lies below the listed directory: not the directory itself, not the root,
/// and under its path.
pub open spec fn is_child(href: Seq<char>, current: Seq<char>) -> bool {
    let path = trim_end_of(href, '/');
    path.len() > 0 && path != trim_end_of(current, '/') && begins_with(href, current)
}

/// The directory entry that an item stands for, if it is a child of the listed directory.
pub open spec fn entry_of(item: ItemView, base_url: Seq<char>, current: Seq<char>) -> Option<
    EntryView,
> {
    match item.href {
        None => None,
        Some(href) => if is_child(href, current) {
            Some(
                EntryView {
                    url: item_url(base_url, href),
                    name: segment_of(href),
                    is_dir: href.last() == '/',
                    last_modified: match item.time {
                        Some(ms) => minute_text(whole_seconds(ms)),
                        None => None,
                    },
                    size_bytes: match item.size {
                        Some(size) => if size >= 0 && href.last() != '/' {
                            Some(size)
                        } else {
                            None
                        },
                        None => None,
                    },
                },
            )
        } else {
            None
        },
    }
}

/// The directory entries of a listing: one for each child item, in the listing's order.
pub open spec fn entries_of(
    items: Seq<ItemView>,
    base_url: Seq<char>,
    current: Seq<char>,
) -> Seq<EntryView> {
    items.filter_map(|item: ItemView| entry_of(item, base_url, current))
}

/// The contents of a vector of items.
pub open spec fn item_views(items: Seq<H5aiItem>) -> Seq<ItemView> {
    items.map_values(|item: H5aiItem| item@)
}

/// The contents of a vector of entries.
pub open spec fn entry_views(entries: Seq<DirEntry>) -> Seq<EntryView> {
    entries.map_values(|entry: DirEntry| entry@)
}

/// Whole seconds in a number of milliseconds.
fn seconds_of(ms: i64) -> (r: i64)
    ensures
        r == whole_seconds(ms),
{
    ms / 1000
}

/// The full URL of a server path.
fn resolve(base_url: &str, href: &str) -> (r: String)
    ensures
        r@ == item_url(base_url@, href@),
{
    match url_join(base_url, href) {
        Some(url) => url,
        None => {
            let mut url: String = text_of(&trim_end_chars(&chars_of(base_url), '/'));
            url.push('/');
            url.append(text_of(&trim_start_chars(&chars_of(href), '/')).as_str());
            assert(url@ =~= item_url(base_url@, href@));
            url
        },
    }
}

/// The directory entry that an item stands for.
fn entry_from_item(item: &H5aiItem, base_url: &str, current_href: &str) -> (r: Option<DirEntry>)
    ensures
        match r {
            Some(entry) => entry_of(item@, base_url@, current_href@) == Some(entry@),
            None => entry_of(item@, base_url@, current_href@) is None,
        },
{
    let href: &String = match &item.href {
        Some(href) => href,
        None => {
            return None;
        },
    };
    let chars: Vec<char> = chars_of(href.as_str());
    let path: Vec<char> = trim_end_chars(&chars, '/');
    let current: Vec<char> = chars_of(current_href);
    if path.len() == 0 || same_chars(&path, &trim_end_chars(&current, '/')) || !starts_with(
        &chars,
        &current,
    ) {
        return None;
    }
    proof {
        lemma_run_start(chars@, chars@.len() as int, is_char('/'));
    }
    let is_dir: bool = chars[chars.len() - 1] == '/';
    let last_modified: Option<String> = match item.time {
        Some(ms) => format_minute(seconds_of(ms)),
        None => None,
    };
    let size_bytes: Option<i64> = match item.size {
        Some(size) => if size >= 0 && !is_dir {
            Some(size)
        } else {
            None
        },
        None => None,
    };
    Some(
        DirEntry {
            url: resolve(base_url, href.as_str()),
            name: last_segment(href.as_str()),
            is_dir,
            last_modified,
            size_bytes,
        },
    )
}

/// The directory entries of the items of a listing.
pub fn entries_from_items(items: &Vec<H5aiItem>, base_url: &str, current_href: &str) -> (r: Vec<
    DirEntry,
>)
    ensures
        entry_views(r@) == entries_of(item_views(items@), base_url@, current_href@),
{
    let ghost views: Seq<ItemView> = item_views(items@);
    let ghost f = |item: ItemView| entry_of(item, base_url@, current_href@);
    let mut out: Vec<DirEntry> = Vec::new();
    let mut i: usize = 0;
    proof {
        assert(views.take(0) =~= Seq::<ItemView>::empty());
        assert(entry_views(out@) =~= views.take(0).filter_map(f));
    }
    while i < items.len()
        invariant
            i <= items@.len(),
            views == item_views(items@),
            f == (|item: ItemView| entry_of(item, base_url@, current_href@)),
            entry_views(out@) == views.take(i as int).filter_map(f),
        decreases items.len() - i,
    {
        proof {
            views.lemma_filter_map_take_succ(f, i as int);
            assert(views[i as int] == items@[i as int]@);
        }
        let ghost before: Seq<EntryView> = entry_views(out@);
        match entry_from_item(&items[i], base_url, current_href) {
            Some(entry) => {
                let ghost view: EntryView = entry@;
                out.push(entry);
                assert(entry_views(out@) =~= before.push(view));
                assert(entry_views(out@) =~= views.take(i + 1).filter_map(f));
            },
            None => {
                assert(entry_views(out@) =~= views.take(i + 1).filter_map(f));
            },
        }
        i += 1;
    }
    assert(views.take(i as int) =~= views);
    out
}

// ---------------------------------------------------------------------------
// JSON
// ---------------------------------------------------------------------------

/// The item that a JSON value describes: its `href`, `time` and `size` members, as far as
/// they have the expected types.
pub open spec fn json_item(value: serde_json::Value) -> ItemView {
    ItemView {
        href: match json_member(value, "href"@) {
            Some(member) => json_text(member),
            None => None,
        },
        time: match json_member(value, "time"@) {
            Some(member) => json_int(member),
            None => None,
        },
        size: match json_member(value, "size"@) {
            Some(member) => json_int(member),
            None => None,
        },
    }
}

/// The items of a JSON answer: the elements of its `items` member, if that is an array.
pub open spec fn json_items(value: serde_json::Value) -> Option<Seq<ItemView>> {
    match json_member(value, "items"@) {
        Some(member) => match json_elements(member) {
            Some(elements) => Some(elements.map_values(|e: serde_json::Value| json_item(e))),
            None => None,
        },
        None => None,
    }
}

fn int_member(value: &serde_json::Value, key: &str) -> (r: Option<i64>)
    ensures
        r == (match json_member(*value, key@) {
            Some(member) => json_int(member),
            None => None,
        }),
{
    match json_get(value, key) {
        Some(member) => member.as_i64(),
        None => None,
    }
}

/// Reads one item of a JSON answer.
fn item_from_json(value: &serde_json::Value) -> (r: H5aiItem)
    ensures
        r@ == json_item(*value),
{
    let href: Option<String> = match json_get(value, "href") {
        Some(member) => match member.as_str() {
            Some(text) => Some(text.to_owned()),
            None => None,
        },
        None => None,
    };
    H5aiItem { href, time: int_member(value, "time"), size: int_member(value, "size") }
}

/// Reads the items of a JSON answer.
pub fn items_from_json(json: &serde_json::Value) -> (r: Option<Vec<H5aiItem>>)
    ensures
        match r {
            Some(items) => json_items(*json) == Some(item_views(items@)),
            None => json_items(*json) is None,
        },
{
    let elements: &Vec<serde_json::Value> = match json_get(json, "items") {
        Some(member) => match member.as_array() {
            Some(elements) => elements,
            None => {
                return None;
            },
        },
        None => {
            return None;
        },
    };
    let mut items: Vec<H5aiItem> = Vec::new();
    let mut i: usize = 0;
    while i < elements.len()
        invariant
            i <= elements@.len(),
            items@.len() == i,
            forall|k: int| 0 <= k < i ==> (#[trigger] items@[k])@ == json_item(elements@[k]),
        decreases elements.len() - i,
    {
        items.push(item_from_json(&elements[i]));
        i += 1;
    }
    assert(item_views(items@) =~= elements@.map_values(|e: serde_json::Value| json_item(e)));
    Some(items)
}

/// Reads an h5ai answer into directory entries.
///
/// It fails exactly if the answer has no array of items.
pub fn parse_h5ai_response(json: &serde_json::Value, base_url: &str, current_href: &str) -> (r:
    Result<Vec<DirEntry>, H5aiError>)
    ensures
        match r {
            Ok(entries) => json_items(*json) is Some && entry_views(entries@) == entries_of(
                json_items(*json)->0,
                base_url@,
                current_href@,
            ),
            Err(e) => json_items(*json) is None && e == H5aiError::MissingItems,
        },
{
    match items_from_json(json) {
        Some(items) => Ok(entries_from_items(&items, base_url, current_href)),
        None => Err(H5aiError::MissingItems),
    }
}

/// Reads the answer to a listing request for the directory at `dir_url`.
///
/// The entries are had exactly if the status is a success, the body is a JSON document and
/// it has an array of items.
pub fn listing_from_answer(status: u16, body: &str, base_url: &str, dir_url: &str) -> (r: Result<
    Vec<DirEntry>,
    H5aiError,
>)
    ensures
        match r {
            Ok(entries) => is_success(status) && json_value(body@) is Some && json_items(
                json_value(body@)->0,
            ) is Some && entry_views(entries@) == entries_of(
                json_items(json_value(body@)->0)->0,
                trim_end_of(base_url@, '/'),
                href_of(base_url@, dir_url@),
            ),
            Err(H5aiError::ApiStatus { status: s }) => !is_success(status) && s == status,
            Err(H5aiError::InvalidJson) => is_success(status) && json_value(body@) is None,
            Err(H5aiError::MissingItems) => is_success(status) && json_value(body@) is Some
                && json_items(json_value(body@)->0) is None,
            Err(_) => false,
        },
{
    if !status_is_success(status) {
        return Err(H5aiError::ApiStatus { status });
    }
    match json_from_str(body) {
        Ok(json) => {
            let base: String = text_of(&trim_end_chars(&chars_of(base_url), '/'));
            let href: String = directory_href(base_url, dir_url);
            parse_h5ai_response(&json, base.as_str(), href.as_str())
        },
        Err(_) => Err(H5aiError::InvalidJson),
    }
}

} // verus!
