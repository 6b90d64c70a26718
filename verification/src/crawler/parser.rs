//! Reading the h5ai page: its anti-forgery token and its title.
use vstd::prelude::*;

use crate::text::{
    blank_run_end, chars_of, eq_ignore_ascii_case, is_whitespace, lower_char, lower_chars,
    position_of, slice_chars, slice_text, text_of, trim_chars,
};
use crate::text::{
    find_char, find_from, is_blank, is_space, lemma_find_char, lemma_find_from, lemma_run_end,
    lowered, occurs_at, run_end, same_ignoring_case, trimmed,
};

verus! {

/// A single entry of a directory listing.
#[derive(Debug, Clone)]
pub struct DirEntry {
    /// Full URL of the entry.
    pub url: String,
    /// Display name.
    pub name: String,
    /// True if this entry is a sub-directory.
    pub is_dir: bool,
    /// Last modification, such as "2023-04-13 00:12".
    pub last_modified: Option<String>,
    /// Size in bytes (`None` for directories or when unavailable).
    pub size_bytes: Option<i64>,
}

// ---------------------------------------------------------------------------
// Tag attributes
// ---------------------------------------------------------------------------

/// What may stand between two attributes: white space and slashes.
pub open spec fn is_gap() -> spec_fn(char) -> bool {
    |c: char| is_space(c) || c == '/'
}

/// What an attribute name is made of.
pub open spec fn is_key() -> spec_fn(char) -> bool {
    |c: char| !is_space(c) && c != '=' && c != '>' && c != '/'
}

/// What an unquoted value is made of.
pub open spec fn is_bare() -> spec_fn(char) -> bool {
    |c: char| !is_space(c) && c != '>' && c != '/'
}

/// What a value quoted by `quote` is made of.
pub open spec fn is_quoted(quote: char) -> spec_fn(char) -> bool {
    |c: char| c != quote
}

/// The attributes in the tag body `s` from position `i` on, as pairs of name and value.
///
/// An attribute is a name, then optionally an equals sign and a value, with white space
/// allowed around the sign.  A value is quoted by `"` or `'`, or extends up to white space,
/// `>` or `/`.  An attribute without a value has the empty one.  A character that starts no
/// name is passed over.
pub open spec fn attributes(s: Seq<char>, i: int) -> Seq<(Seq<char>, Seq<char>)>
    decreases s.len() - i,
{
    if i < 0 || i > s.len() {
        seq![]
    } else {
        let k = run_end(s, i, is_gap());
        let e = run_end(s, k, is_key());
        let key = s.subrange(k, e);
        let a = run_end(s, e, is_blank());
        let v = run_end(s, a + 1, is_blank());
        proof {
            lemma_run_end(s, i, is_gap());
            lemma_run_end(s, k, is_key());
            lemma_run_end(s, e, is_blank());
            if a < s.len() {
                lemma_run_end(s, a + 1, is_blank());
                lemma_run_end(s, v, is_bare());
                if v < s.len() {
                    lemma_run_end(s, v + 1, is_quoted(s[v]));
                }
            }
        }
        if k >= s.len() {
            seq![]
        } else if e == k {
            attributes(s, k + 1)
        } else if a >= s.len() || s[a] != '=' {
            seq![(key, Seq::<char>::empty())] + attributes(s, a)
        } else if v >= s.len() {
            seq![(key, Seq::<char>::empty())]
        } else if s[v] == '"' || s[v] == '\'' {
            let q = run_end(s, v + 1, is_quoted(s[v]));
            seq![(key, s.subrange(v + 1, q))] + attributes(
                s,
                if q < s.len() {
                    q + 1
                } else {
                    q
                },
            )
        } else {
            let u = run_end(s, v, is_bare());
            seq![(key, s.subrange(v, u))] + attributes(s, u)
        }
    }
}

/// The attribute list as a sequence of pairs of texts.
pub open spec fn attr_views(attrs: Seq<(String, String)>) -> Seq<(Seq<char>, Seq<char>)> {
    attrs.map_values(|a: (String, String)| (a.0@, a.1@))
}

fn gap_end(s: &Vec<char>, from: usize) -> (r: usize)
    requires
        from <= s@.len(),
    ensures
        r == run_end(s@, from as int, is_gap()),
        from <= r <= s@.len(),
{
    let mut i: usize = from;
    while i < s.len() && (is_whitespace(s[i]) || s[i] == '/')
        invariant
            from <= i <= s@.len(),
            run_end(s@, from as int, is_gap()) == run_end(s@, i as int, is_gap()),
        decreases s.len() - i,
    {
        i += 1;
    }
    i
}

fn key_end(s: &Vec<char>, from: usize) -> (r: usize)
    requires
        from <= s@.len(),
    ensures
        r == run_end(s@, from as int, is_key()),
        from <= r <= s@.len(),
{
    let mut i: usize = from;
    while i < s.len() && !is_whitespace(s[i]) && s[i] != '=' && s[i] != '>' && s[i] != '/'
        invariant
            from <= i <= s@.len(),
            run_end(s@, from as int, is_key()) == run_end(s@, i as int, is_key()),
        decreases s.len() - i,
    {
        i += 1;
    }
    i
}

fn bare_end(s: &Vec<char>, from: usize) -> (r: usize)
    requires
        from <= s@.len(),
    ensures
        r == run_end(s@, from as int, is_bare()),
        from <= r <= s@.len(),
{
    let mut i: usize = from;
    while i < s.len() && !is_whitespace(s[i]) && s[i] != '>' && s[i] != '/'
        invariant
            from <= i <= s@.len(),
            run_end(s@, from as int, is_bare()) == run_end(s@, i as int, is_bare()),
        decreases s.len() - i,
    {
        i += 1;
    }
    i
}

fn quote_end(s: &Vec<char>, from: usize, quote: char) -> (r: usize)
    requires
        from <= s@.len(),
    ensures
        r == run_end(s@, from as int, is_quoted(quote)),
        from <= r <= s@.len(),
{
    let mut i: usize = from;
    while i < s.len() && s[i] != quote
        invariant
            from <= i <= s@.len(),
            run_end(s@, from as int, is_quoted(quote)) == run_end(s@, i as int, is_quoted(quote)),
        decreases s.len() - i,
    {
        i += 1;
    }
    i
}

/// Splits the body of a tag into attribute names and values.
pub fn parse_tag_attributes(body: &str) -> (r: Vec<(String, String)>)
    ensures
        attr_views(r@) == attributes(body@, 0),
{
    let s: Vec<char> = chars_of(body);
    let n: usize = s.len();
    let mut attrs: Vec<(String, String)> = Vec::new();
    let mut i: usize = 0;
    assert(attr_views(attrs@) + attributes(s@, 0) =~= attributes(s@, 0));
    while i < n
        invariant
            s@ == body@,
            n == s@.len(),
            i <= n,
            attr_views(attrs@) + attributes(s@, i as int) == attributes(body@, 0),
        decreases n - i,
    {
        let ghost done: Seq<(Seq<char>, Seq<char>)> = attr_views(attrs@);
        let ghost from: int = i as int;
        let k: usize = gap_end(&s, i);
        if k >= n {
            assert(done + attributes(s@, from) =~= done);
            assert(attributes(s@, n as int) =~= seq![]);
            assert(done + attributes(s@, n as int) =~= done);
            i = n;
            continue;
        }
        let e: usize = key_end(&s, k);
        if e == k {
            i = k + 1;
            continue;
        }
        let key: String = slice_text(&s, k, e);
        let ghost key_view: Seq<char> = key@;
        let a: usize = blank_run_end(&s, e);
        if a >= n || s[a] != '=' {
            let value: String = String::new();
            attrs.push((key, value));
            proof {
                assert(value@ =~= Seq::<char>::empty());
                assert(attr_views(attrs@) =~= done.push((key_view, Seq::<char>::empty())));
                assert(attr_views(attrs@) + attributes(s@, a as int) =~= done + attributes(s@, from));
            }
            i = a;
            continue;
        }
        let v: usize = blank_run_end(&s, a + 1);
        if v >= n {
            let value: String = String::new();
            attrs.push((key, value));
            proof {
                assert(value@ =~= Seq::<char>::empty());
                assert(attr_views(attrs@) =~= done.push((key_view, Seq::<char>::empty())));
                assert(attributes(s@, n as int) =~= seq![]);
                assert(attr_views(attrs@) + attributes(s@, n as int) =~= done + attributes(
                    s@,
                    from,
                ));
            }
            i = n;
            continue;
        }
        let quote: char = s[v];
        if quote == '"' || quote == '\'' {
            let q: usize = quote_end(&s, v + 1, quote);
            let value: String = slice_text(&s, v + 1, q);
            let ghost value_view: Seq<char> = value@;
            attrs.push((key, value));
            let next: usize = if q < n {
                q + 1
            } else {
                q
            };
            proof {
                assert(attr_views(attrs@) =~= done.push((key_view, value_view)));
                assert(attr_views(attrs@) + attributes(s@, next as int) =~= done + attributes(
                    s@,
                    from,
                ));
            }
            i = next;
        } else {
            let u: usize = bare_end(&s, v);
            let value: String = slice_text(&s, v, u);
            let ghost value_view: Seq<char> = value@;
            attrs.push((key, value));
            proof {
                assert(attr_views(attrs@) =~= done.push((key_view, value_view)));
                assert(attr_views(attrs@) + attributes(s@, u as int) =~= done + attributes(
                    s@,
                    from,
                ));
            }
            i = u;
        }
    }
    assert(attributes(s@, n as int) =~= seq![]);
    assert(attr_views(attrs@) + attributes(s@, n as int) =~= attr_views(attrs@));
    attrs
}

// ---------------------------------------------------------------------------
// Token
// ---------------------------------------------------------------------------

/// Whether an attribute declares its tag to be the token's: its name is `name`, `property`
/// or `id` and its value is `clckd`, in any case.
pub open spec fn declares_token(attr: (Seq<char>, Seq<char>)) -> bool {
    let key = lowered(attr.0);
    (key == "name"@ || key == "property"@ || key == "id"@) && same_ignoring_case(attr.1, "clckd"@)
}

/// Whether an attribute carries the content of its tag.
pub open spec fn carries_content(attr: (Seq<char>, Seq<char>)) -> bool {
    lowered(attr.0) == "content"@
}

/// Whether some attribute declares the tag to be the token's.
pub open spec fn has_token(attrs: Seq<(Seq<char>, Seq<char>)>) -> bool {
    exists|i: int| 0 <= i < attrs.len() && declares_token(#[trigger] attrs[i])
}

/// The content of a tag; of several contents, the last.
pub open spec fn content_of(attrs: Seq<(Seq<char>, Seq<char>)>) -> Option<Seq<char>>
    decreases attrs.len(),
{
    if attrs.len() == 0 {
        None
    } else if carries_content(attrs.last()) {
        Some(attrs.last().1)
    } else {
        content_of(attrs.drop_last())
    }
}

/// The token that a `meta` tag with these attributes gives: the content, if the tag is the
/// token's and the content is not empty.
pub open spec fn tag_token(attrs: Seq<(Seq<char>, Seq<char>)>) -> Option<Seq<char>> {
    match content_of(attrs) {
        Some(content) => if has_token(attrs) && content.len() > 0 {
            Some(content)
        } else {
            None
        },
        None => None,
    }
}

/// The token of the first `meta` tag from `from` on that gives one.
///
/// A tag begins with `<meta`, in any case, and ends with the next `>`.
pub open spec fn page_token(html: Seq<char>, from: int) -> Option<Seq<char>>
    decreases html.len() - from,
{
    if from < 0 || from > html.len() {
        None
    } else {
        proof {
            lemma_find_from(lowered(html), lowered("<meta"@), from);
        }
        match find_from(lowered(html), lowered("<meta"@), from) {
            None => None,
            Some(k) => {
                let body = k + "<meta"@.len();
                proof {
                    lemma_find_char(html, '>', body);
                }
                match find_char(html, '>', body) {
                    None => None,
                    Some(end) => match tag_token(attributes(html.subrange(body, end), 0)) {
                        Some(token) => Some(token),
                        None => page_token(html, end + 1),
                    },
                }
            },
        }
    }
}

/// The token that a parsed tag gives.
fn token_of(attrs: &Vec<(String, String)>) -> (r: Option<String>)
    ensures
        match r {
            Some(token) => tag_token(attr_views(attrs@)) == Some(token@),
            None => tag_token(attr_views(attrs@)) is None,
        },
{
    let ghost views: Seq<(Seq<char>, Seq<char>)> = attr_views(attrs@);
    let name: String = "name".to_owned();
    let property: String = "property".to_owned();
    let id: String = "id".to_owned();
    let content_key: String = "content".to_owned();
    let mut is_token: bool = false;
    let mut content: Option<usize> = None;
    let mut i: usize = 0;
    while i < attrs.len()
        invariant
            i <= attrs@.len(),
            views == attr_views(attrs@),
            name@ == "name"@,
            property@ == "property"@,
            id@ == "id"@,
            content_key@ == "content"@,
            is_token == has_token(views.take(i as int)),
            match content {
                Some(k) => k < attrs@.len() && content_of(views.take(i as int)) == Some(views[k as int].1),
                None => content_of(views.take(i as int)) is None,
            },
        decreases attrs.len() - i,
    {
        let key: String = text_of(&lower_chars(&chars_of(attrs[i].0.as_str())));
        proof {
            let so_far = views.take(i + 1);
            reveal_strlit("name");
            reveal_strlit("property");
            reveal_strlit("id");
            reveal_strlit("content");
            assert("content"@.len() == 7 && "name"@.len() == 4 && "property"@.len() == 8 && "id"@.len()
                == 2);
            assert(so_far.drop_last() =~= views.take(i as int));
            assert(so_far.last() == views[i as int]);
            assert(views[i as int] == (attrs@[i as int].0@, attrs@[i as int].1@));
            assert(has_token(so_far) == (has_token(views.take(i as int)) || declares_token(
                views[i as int],
            ))) by {
                if has_token(views.take(i as int)) {
                    let j = choose|j: int|
                        0 <= j < views.take(i as int).len() && declares_token(
                            #[trigger] views.take(i as int)[j],
                        );
                    assert(declares_token(so_far[j]));
                }
                if declares_token(views[i as int]) {
                    assert(declares_token(so_far[i as int]));
                }
                if has_token(so_far) {
                    let j = choose|j: int|
                        0 <= j < so_far.len() && declares_token(#[trigger] so_far[j]);
                    if j < i {
                        assert(declares_token(views.take(i as int)[j]));
                    }
                }
            }
        }
        if key == name || key == property || key == id {
            if eq_ignore_ascii_case(attrs[i].1.as_str(), "clckd") {
                is_token = true;
            }
        } else if key == content_key {
            content = Some(i);
        }
        i += 1;
    }
    assert(views.take(i as int) =~= views);
    match content {
        Some(k) => {
            let chars: Vec<char> = chars_of(attrs[k].1.as_str());
            if is_token && chars.len() > 0 {
                Some(attrs[k].1.clone())
            } else {
                None
            }
        },
        None => None,
    }
}

/// Whether `needle` stands in `haystack` at `k`, ignoring the case of ASCII letters.
fn stands_at_ignoring_case(haystack: &Vec<char>, needle: &Vec<char>, k: usize) -> (r: bool)
    requires
        k + needle@.len() <= haystack@.len(),
    ensures
        r == occurs_at(lowered(haystack@), lowered(needle@), k as int),
{
    let ghost h: Seq<char> = lowered(haystack@);
    let ghost n: Seq<char> = lowered(needle@);
    let total: usize = haystack.len();
    let mut i: usize = 0;
    while i < needle.len()
        invariant
            total == haystack@.len(),
            k + needle@.len() <= total,
            i <= needle@.len(),
            h == lowered(haystack@),
            n == lowered(needle@),
            forall|j: int| 0 <= j < i ==> h[k + j] == #[trigger] n[j],
        decreases needle.len() - i,
    {
        if lower_char(haystack[k + i]) != lower_char(needle[i]) {
            assert(h.subrange(k as int, k + n.len())[i as int] != n[i as int]);
            return false;
        }
        i += 1;
    }
    assert(h.subrange(k as int, k + n.len()) =~= n);
    true
}

/// The position of `needle` in `haystack` at or after `from`, ignoring the case of ASCII
/// letters.
fn find_case_insensitive(haystack: &Vec<char>, needle: &Vec<char>, from: usize) -> (r: Option<
    usize,
>)
    requires
        from <= haystack@.len(),
    ensures
        match r {
            Some(i) => from <= i && i + needle@.len() <= haystack@.len() && find_from(
                lowered(haystack@),
                lowered(needle@),
                from as int,
            ) == Some(i as int),
            None => find_from(lowered(haystack@), lowered(needle@), from as int) is None,
        },
{
    let n: usize = needle.len();
    let ghost h: Seq<char> = lowered(haystack@);
    let ghost low: Seq<char> = lowered(needle@);
    if n > haystack.len() {
        return None;
    }
    let mut k: usize = from;
    while k <= haystack.len() - n
        invariant
            n == needle@.len(),
            n <= haystack@.len(),
            h == lowered(haystack@),
            low == lowered(needle@),
            from <= k <= haystack@.len(),
            find_from(h, low, from as int) == find_from(h, low, k as int),
        decreases haystack.len() - k,
    {
        if stands_at_ignoring_case(haystack, needle, k) {
            return Some(k);
        }
        if k == haystack.len() {
            assert(find_from(h, low, k + 1) is None);
            return None;
        }
        k += 1;
    }
    None
}

/// Extracts the h5ai anti-forgery token from the `meta` tags of a page.
pub fn extract_clckd(html: &str) -> (r: Option<String>)
    ensures
        match r {
            Some(token) => page_token(html@, 0) == Some(token@),
            None => page_token(html@, 0) is None,
        },
{
    let chars: Vec<char> = chars_of(html);
    let opening: Vec<char> = chars_of("<meta");
    let mut from: usize = 0;
    loop
        invariant
            chars@ == html@,
            opening@ == "<meta"@,
            from <= chars@.len(),
            page_token(html@, 0) == page_token(html@, from as int),
        decreases chars.len() - from,
    {
        match find_case_insensitive(&chars, &opening, from) {
            None => {
                return None;
            },
            Some(k) => {
                let body: usize = k + opening.len();
                match position_of(&chars, '>', body) {
                    None => {
                        return None;
                    },
                    Some(end) => {
                        let attrs: Vec<(String, String)> = parse_tag_attributes(
                            slice_text(&chars, body, end).as_str(),
                        );
                        match token_of(&attrs) {
                            Some(token) => {
                                return Some(token);
                            },
                            None => {
                                from = end + 1;
                            },
                        }
                    },
                }
            },
        }
    }
}

// ---------------------------------------------------------------------------
// Title
// ---------------------------------------------------------------------------

/// The title of a page: the trimmed text between the first `<title ...>` and the next
/// `</title>`, both in any case, unless it is empty.
pub open spec fn page_title(html: Seq<char>) -> Option<Seq<char>> {
    match find_from(lowered(html), lowered("<title"@), 0) {
        None => None,
        Some(k) => match find_char(html, '>', k + "<title"@.len()) {
            None => None,
            Some(open) => match find_from(lowered(html), lowered("</title>"@), open + 1) {
                None => None,
                Some(close) => {
                    let title = trimmed(html.subrange(open + 1, close));
                    if title.len() > 0 {
                        Some(title)
                    } else {
                        None
                    }
                },
            },
        },
    }
}

/// Extracts the page title, for diagnostics.
pub fn extract_title(html: &str) -> (r: Option<String>)
    ensures
        match r {
            Some(title) => page_title(html@) == Some(title@),
            None => page_title(html@) is None,
        },
{
    let chars: Vec<char> = chars_of(html);
    let opening: Vec<char> = chars_of("<title");
    let closing: Vec<char> = chars_of("</title>");
    let n: usize = chars.len();
    assert(n == html@.len());
    match find_case_insensitive(&chars, &opening, 0) {
        None => None,
        Some(k) => match position_of(&chars, '>', k + opening.len()) {
            None => None,
            Some(open) => match find_case_insensitive(&chars, &closing, open + 1) {
                None => None,
                Some(close) => {
                    let title: Vec<char> = trim_chars(&slice_chars(&chars, open + 1, close));
                    if title.len() > 0 {
                        Some(text_of(&title))
                    } else {
                        None
                    }
                },
            },
        },
    }
}

} // verus!
