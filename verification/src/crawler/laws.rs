//! What holds of reading pages and listings, and of choosing what is wanted.
use vstd::prelude::*;

use crate::crawler::filter::{
    excluded, extension_is_allowed, extension_wanted, has_char, pattern_excludes, relative_path,
};
use crate::crawler::listing::{
    api_url_of, entries_of, entry_of, href_of, is_child, item_url, json_item, json_items, path_of,
    payload_of, segment_of, whole_seconds, EntryView, ItemView,
};
use crate::crawler::parser::{
    attributes, carries_content, content_of, declares_token, has_token, is_bare, is_gap, is_key,
    is_quoted, page_title, page_token, tag_token,
};
use crate::order::{lemma_picked, lemma_picked_from_both};
use crate::outside::{
    glob_match, glob_valid, json_contents, json_elements, json_int, json_member, json_text,
    minute_text, url_joined,
};
use crate::paths::{
    is_plain_name, law_extensions_follow_the_last_dot,
    law_names_without_inner_dot_have_no_extension,
};
use crate::text::{
    begins_with, find_char, find_from, is_blank, is_char, is_space,
    law_texts_are_cut_at_every_separator, law_texts_without_separator_stay_whole,
    law_trimming_takes_one_character, lemma_find_char, lemma_find_char_skip, lemma_find_from,
    lemma_run_end, lemma_run_ends_at, lemma_run_start, lowered, occurs_at, occurs_in, run_end,
    run_start, same_ignoring_case, split, trim_end_of, trim_start_of, trimmed,
};

verus! {

// ---------------------------------------------------------------------------
// Attributes
// ---------------------------------------------------------------------------

/// A run in the end of a text is the run in the whole text.
proof fn lemma_run_end_skip(s: Seq<char>, n: int, i: int, p: spec_fn(char) -> bool)
    requires
        0 <= n <= s.len(),
        0 <= i <= s.len() - n,
    ensures
        run_end(s, n + i, p) == n + run_end(s.skip(n), i, p),
{
    let t = s.skip(n);
    lemma_run_end(t, i, p);
    let j = run_end(t, i, p);
    assert forall|k: int| n + i <= k < n + j implies p(#[trigger] s[k]) by {
        assert(t[k - n] == s[k]);
    }
    if j < t.len() {
        assert(t[j] == s[n + j]);
    }
    lemma_run_ends_at(s, n + i, p, n + j);
}

/// The attributes from a position on are those of the rest of the tag.
proof fn lemma_attributes_skip(s: Seq<char>, n: int, i: int)
    requires
        0 <= n <= s.len(),
        0 <= i <= s.len() - n,
    ensures
        attributes(s, n + i) == attributes(s.skip(n), i),
    decreases s.len() - n - i,
{
    let t = s.skip(n);
    let k = run_end(t, i, is_gap());
    lemma_run_end(t, i, is_gap());
    lemma_run_end_skip(s, n, i, is_gap());
    let e = run_end(t, k, is_key());
    lemma_run_end(t, k, is_key());
    lemma_run_end_skip(s, n, k, is_key());
    let a = run_end(t, e, is_blank());
    lemma_run_end(t, e, is_blank());
    lemma_run_end_skip(s, n, e, is_blank());
    if k < t.len() {
        if e == k {
            lemma_attributes_skip(s, n, k + 1);
        } else {
            assert(t.subrange(k, e) =~= s.subrange(n + k, n + e));
            if a >= t.len() || t[a] != '=' {
                lemma_attributes_skip(s, n, a);
            } else {
                assert(s[n + a] == '=');
                let v = run_end(t, a + 1, is_blank());
                lemma_run_end(t, a + 1, is_blank());
                lemma_run_end_skip(s, n, a + 1, is_blank());
                if v < t.len() {
                    assert(s[n + v] == t[v]);
                    if t[v] == '"' || t[v] == '\'' {
                        let q = run_end(t, v + 1, is_quoted(t[v]));
                        lemma_run_end(t, v + 1, is_quoted(t[v]));
                        lemma_run_end_skip(s, n, v + 1, is_quoted(t[v]));
                        assert(t.subrange(v + 1, q) =~= s.subrange(n + v + 1, n + q));
                        lemma_attributes_skip(
                            s,
                            n,
                            if q < t.len() {
                                q + 1
                            } else {
                                q
                            },
                        );
                    } else {
                        let u = run_end(t, v, is_bare());
                        lemma_run_end(t, v, is_bare());
                        lemma_run_end_skip(s, n, v, is_bare());
                        assert(t.subrange(v, u) =~= s.subrange(n + v, n + u));
                        lemma_attributes_skip(s, n, u);
                    }
                }
            }
        }
    }
}

/// White space and slashes before an attribute, or at the end of a tag, do not matter.
pub proof fn law_gaps_do_not_matter(gap: Seq<char>, rest: Seq<char>)
    requires
        forall|i: int| 0 <= i < gap.len() ==> is_space(#[trigger] gap[i]) || gap[i] == '/',
    ensures
        attributes(gap + rest, 0) == attributes(rest, 0),
        attributes(gap, 0).len() == 0,
{
    let s = gap + rest;
    let n = gap.len() as int;
    assert(s.skip(n) =~= rest);
    lemma_run_end(rest, 0, is_gap());
    let k = run_end(rest, 0, is_gap());
    assert forall|i: int| 0 <= i < n + k implies is_gap()(#[trigger] s[i]) by {
        if i >= n {
            assert(s[i] == rest[i - n]);
        } else {
            assert(s[i] == gap[i]);
        }
    }
    if k < rest.len() {
        assert(s[n + k] == rest[k]);
    }
    lemma_run_ends_at(s, 0, is_gap(), n + k);
    lemma_run_ends_at(s, n, is_gap(), n + k);
    assert(attributes(s, 0) == attributes(s, n));
    lemma_attributes_skip(s, n, 0);
    lemma_run_ends_at(gap, 0, is_gap(), n);
}

/// An attribute reads the same in all its spellings: with white space around the equals sign,
/// and with the value in double quotes, in single quotes or, where it has no characters that
/// end it, without quotes.
pub proof fn law_attribute_spellings(
    key: Seq<char>,
    before: Seq<char>,
    after: Seq<char>,
    value: Seq<char>,
    quote: char,
    rest: Seq<char>,
)
    requires
        key.len() > 0,
        forall|i: int|
            0 <= i < key.len() ==> !is_space(#[trigger] key[i]) && key[i] != '=' && key[i] != '>'
                && key[i] != '/',
        forall|i: int| 0 <= i < before.len() ==> is_space(#[trigger] before[i]),
        forall|i: int| 0 <= i < after.len() ==> is_space(#[trigger] after[i]),
        quote == '"' || quote == '\'',
    ensures
        (forall|i: int| 0 <= i < value.len() ==> #[trigger] value[i] != quote) ==> attributes(
            key + before + seq!['='] + after + seq![quote] + value + seq![quote] + rest,
            0,
        ) == seq![(key, value)] + attributes(rest, 0),
        (value.len() > 0 && value[0] != '"' && value[0] != '\'' && (forall|i: int|
            0 <= i < value.len() ==> !is_space(#[trigger] value[i]) && value[i] != '>' && value[i]
                != '/') && (rest.len() == 0 || is_space(rest[0]) || rest[0] == '>' || rest[0]
            == '/')) ==> attributes(
            key + before + seq!['='] + after + value + rest,
            0,
        ) == seq![(key, value)] + attributes(rest, 0),
{
    if forall|i: int| 0 <= i < value.len() ==> #[trigger] value[i] != quote {
        lemma_quoted_attribute(key, before, after, value, quote, rest);
    }
    if value.len() > 0 && value[0] != '"' && value[0] != '\'' && (forall|i: int|
        0 <= i < value.len() ==> !is_space(#[trigger] value[i]) && value[i] != '>' && value[i]
            != '/') && (rest.len() == 0 || is_space(rest[0]) || rest[0] == '>' || rest[0] == '/') {
        lemma_bare_attribute(key, before, after, value, rest);
    }
}

/// An attribute without an equals sign has an empty value, and reading goes on behind it.
pub proof fn law_attributes_without_value(key: Seq<char>, gap: Seq<char>, rest: Seq<char>)
    requires
        key.len() > 0,
        forall|i: int|
            0 <= i < key.len() ==> !is_space(#[trigger] key[i]) && key[i] != '=' && key[i] != '>'
                && key[i] != '/',
        forall|i: int| 0 <= i < gap.len() ==> is_space(#[trigger] gap[i]),
        rest.len() == 0 || (!is_space(rest[0]) && rest[0] != '=' && (gap.len() > 0 || rest[0] == '/'
            || rest[0] == '>')),
    ensures
        attributes(key + gap + rest, 0) == seq![(key, Seq::<char>::empty())] + attributes(rest, 0),
{
    let s = key + gap + rest;
    let e = key.len() as int;
    let a = e + gap.len();
    assert(s[0] == key[0]);
    lemma_run_ends_at(s, 0, is_gap(), 0);
    assert forall|i: int| 0 <= i < e implies is_key()(#[trigger] s[i]) by {
        assert(s[i] == key[i]);
    }
    if gap.len() > 0 {
        assert(s[e] == gap[0]);
    }
    lemma_run_ends_at(s, 0, is_key(), e);
    assert forall|i: int| e <= i < a implies is_blank()(#[trigger] s[i]) by {
        assert(s[i] == gap[i - e]);
    }
    if rest.len() > 0 {
        assert(s[a] == rest[0]);
    }
    lemma_run_ends_at(s, e, is_blank(), a);
    assert(s.subrange(0, e) =~= key);
    assert(s.skip(a) =~= rest);
    lemma_attributes_skip(s, a, 0);
}

/// A stray equals sign or end of a tag is passed over.
pub proof fn law_stray_signs_are_passed_over(sign: char, rest: Seq<char>)
    requires
        sign == '=' || sign == '>',
    ensures
        attributes(seq![sign] + rest, 0) == attributes(rest, 0),
{
    let s = seq![sign] + rest;
    assert(s[0] == sign);
    lemma_run_ends_at(s, 0, is_gap(), 0);
    lemma_run_ends_at(s, 0, is_key(), 0);
    assert(s.skip(1) =~= rest);
    lemma_attributes_skip(s, 1, 0);
}

/// Reads a key, the equals sign and the white space around it.
proof fn lemma_key_and_sign(s: Seq<char>, key: Seq<char>, before: Seq<char>, after: Seq<char>)
    requires
        key.len() > 0,
        forall|i: int| 0 <= i < key.len() ==> is_key()(#[trigger] key[i]),
        forall|i: int| 0 <= i < before.len() ==> is_space(#[trigger] before[i]),
        forall|i: int| 0 <= i < after.len() ==> is_space(#[trigger] after[i]),
        begins_with(s, key + before + seq!['='] + after),
        s.len() > (key + before + seq!['='] + after).len(),
        !is_space(s[(key + before + seq!['='] + after).len() as int]),
    ensures
        run_end(s, 0, is_gap()) == 0,
        run_end(s, 0, is_key()) == key.len(),
        run_end(s, key.len() as int, is_blank()) == key.len() + before.len(),
        s[(key.len() + before.len()) as int] == '=',
        run_end(s, (key.len() + before.len() + 1) as int, is_blank()) == key.len() + before.len()
            + 1 + after.len(),
        s.subrange(0, key.len() as int) == key,
{
    let head = key + before + seq!['='] + after;
    let e = key.len() as int;
    let a = e + before.len();
    let v = a + 1 + after.len();
    assert(head.len() == v);
    assert forall|i: int| 0 <= i < v implies s[i] == head[i] by {
        assert(s.take(head.len() as int)[i] == s[i]);
    }
    assert(s[a] == '=');
    assert(s[0] == key[0]);
    assert(is_key()(key[0]));
    lemma_run_ends_at(s, 0, is_gap(), 0);
    assert forall|i: int| 0 <= i < e implies is_key()(#[trigger] s[i]) by {
        assert(s[i] == key[i]);
    }
    if before.len() > 0 {
        assert(s[e] == before[0]);
    }
    lemma_run_ends_at(s, 0, is_key(), e);
    assert forall|i: int| e <= i < a implies is_blank()(#[trigger] s[i]) by {
        assert(s[i] == before[i - e]);
    }
    lemma_run_ends_at(s, e, is_blank(), a);
    assert forall|i: int| a + 1 <= i < v implies is_blank()(#[trigger] s[i]) by {
        assert(s[i] == after[i - a - 1]);
    }
    lemma_run_ends_at(s, a + 1, is_blank(), v);
    assert(s.subrange(0, e) =~= key);
}

proof fn lemma_quoted_attribute(
    key: Seq<char>,
    before: Seq<char>,
    after: Seq<char>,
    value: Seq<char>,
    quote: char,
    rest: Seq<char>,
)
    requires
        key.len() > 0,
        forall|i: int| 0 <= i < key.len() ==> is_key()(#[trigger] key[i]),
        forall|i: int| 0 <= i < before.len() ==> is_space(#[trigger] before[i]),
        forall|i: int| 0 <= i < after.len() ==> is_space(#[trigger] after[i]),
        quote == '"' || quote == '\'',
        forall|i: int| 0 <= i < value.len() ==> #[trigger] value[i] != quote,
    ensures
        attributes(
            key + before + seq!['='] + after + seq![quote] + value + seq![quote] + rest,
            0,
        ) == seq![(key, value)] + attributes(rest, 0),
{
    let head = key + before + seq!['='] + after;
    let s = head + seq![quote] + value + seq![quote] + rest;
    let v = head.len() as int;
    assert(s.take(v) =~= head);
    assert(s[v] == quote);
    lemma_key_and_sign(s, key, before, after);
    let q = v + 1 + value.len();
    assert(s[q] == quote);
    assert forall|i: int| v + 1 <= i < q implies is_quoted(quote)(#[trigger] s[i]) by {
        assert(s[i] == value[i - v - 1]);
    }
    lemma_run_ends_at(s, v + 1, is_quoted(quote), q);
    assert(s.subrange(v + 1, q) =~= value);
    assert(s.skip(q + 1) =~= rest);
    lemma_attributes_skip(s, q + 1, 0);
}

proof fn lemma_bare_attribute(
    key: Seq<char>,
    before: Seq<char>,
    after: Seq<char>,
    value: Seq<char>,
    rest: Seq<char>,
)
    requires
        key.len() > 0,
        forall|i: int| 0 <= i < key.len() ==> is_key()(#[trigger] key[i]),
        forall|i: int| 0 <= i < before.len() ==> is_space(#[trigger] before[i]),
        forall|i: int| 0 <= i < after.len() ==> is_space(#[trigger] after[i]),
        value.len() > 0,
        value[0] != '"',
        value[0] != '\'',
        forall|i: int| 0 <= i < value.len() ==> is_bare()(#[trigger] value[i]),
        rest.len() == 0 || !is_bare()(rest[0]),
    ensures
        attributes(key + before + seq!['='] + after + value + rest, 0) == seq![(key, value)]
            + attributes(rest, 0),
{
    let head = key + before + seq!['='] + after;
    let s = head + value + rest;
    let v = head.len() as int;
    assert(s.take(v) =~= head);
    assert(s[v] == value[0]);
    assert(is_bare()(value[0]));
    lemma_key_and_sign(s, key, before, after);
    let u = v + value.len();
    assert forall|i: int| v <= i < u implies is_bare()(#[trigger] s[i]) by {
        assert(s[i] == value[i - v]);
    }
    if u < s.len() {
        assert(s[u] == rest[0]);
    }
    lemma_run_ends_at(s, v, is_bare(), u);
    assert(s.subrange(v, u) =~= value);
    assert(s.skip(u) =~= rest);
    lemma_attributes_skip(s, u, 0);
}

// ---------------------------------------------------------------------------
// The token
// ---------------------------------------------------------------------------

/// A tag's content is that of one of its attributes.
proof fn lemma_content_of(attrs: Seq<(Seq<char>, Seq<char>)>)
    ensures
        match content_of(attrs) {
            Some(content) => exists|i: int|
                0 <= i < attrs.len() && carries_content(#[trigger] attrs[i]) && attrs[i].1 == content,
            None => forall|i: int| 0 <= i < attrs.len() ==> !carries_content(#[trigger] attrs[i]),
        },
    decreases attrs.len(),
{
    if attrs.len() > 0 {
        let shorter = attrs.drop_last();
        if carries_content(attrs.last()) {
            assert(attrs[attrs.len() - 1] == attrs.last());
        } else {
            lemma_content_of(shorter);
            match content_of(shorter) {
                Some(content) => {
                    let i = choose|i: int|
                        0 <= i < shorter.len() && carries_content(#[trigger] shorter[i])
                            && shorter[i].1 == content;
                    assert(attrs[i] == shorter[i]);
                },
                None => {
                    assert forall|i: int| 0 <= i < attrs.len() implies !carries_content(
                        #[trigger] attrs[i],
                    ) by {
                        if i < shorter.len() {
                            assert(attrs[i] == shorter[i]);
                        }
                    }
                },
            }
        }
    }
}

/// The order of the attributes of a tag does not matter: tags with the same attributes, of which
/// one carries the content, give the same token.
pub proof fn law_attribute_order_does_not_matter(
    attrs: Seq<(Seq<char>, Seq<char>)>,
    other: Seq<(Seq<char>, Seq<char>)>,
)
    requires
        forall|a: (Seq<char>, Seq<char>)| #[trigger] attrs.contains(a) <==> other.contains(a),
        forall|i: int, j: int|
            0 <= i < attrs.len() && 0 <= j < attrs.len() && carries_content(#[trigger] attrs[i])
                && carries_content(#[trigger] attrs[j]) ==> attrs[i].1 == attrs[j].1,
    ensures
        tag_token(attrs) == tag_token(other),
{
    lemma_content_of(attrs);
    lemma_content_of(other);
    assert forall|i: int| 0 <= i < other.len() implies attrs.contains(#[trigger] other[i]) by {
        assert(other.contains(other[i]));
    }
    assert forall|i: int| 0 <= i < attrs.len() implies other.contains(#[trigger] attrs[i]) by {
        assert(attrs.contains(attrs[i]));
    }
    if has_token(attrs) {
        let i = choose|i: int| 0 <= i < attrs.len() && declares_token(#[trigger] attrs[i]);
        let j = choose|j: int| 0 <= j < other.len() && other[j] == attrs[i];
        assert(declares_token(other[j]));
    }
    if has_token(other) {
        let i = choose|i: int| 0 <= i < other.len() && declares_token(#[trigger] other[i]);
        let j = choose|j: int| 0 <= j < attrs.len() && attrs[j] == other[i];
        assert(declares_token(attrs[j]));
    }
    match content_of(attrs) {
        Some(content) => {
            let i = choose|i: int|
                0 <= i < attrs.len() && carries_content(#[trigger] attrs[i]) && attrs[i].1 == content;
            let j = choose|j: int| 0 <= j < other.len() && other[j] == attrs[i];
            assert(carries_content(other[j]));
            let found = content_of(other)->0;
            let k = choose|k: int|
                0 <= k < other.len() && carries_content(#[trigger] other[k]) && other[k].1 == found;
            let l = choose|l: int| 0 <= l < attrs.len() && attrs[l] == other[k];
            assert(carries_content(attrs[l]));
            assert(attrs[l].1 == attrs[i].1);
        },
        None => {
            if content_of(other) is Some {
                let found = content_of(other)->0;
                let k = choose|k: int|
                    0 <= k < other.len() && carries_content(#[trigger] other[k]) && other[k].1
                        == found;
                let l = choose|l: int| 0 <= l < attrs.len() && attrs[l] == other[k];
                assert(carries_content(attrs[l]));
            }
        },
    }
}

/// The case of names does not matter: tags whose attributes differ in the case of ASCII letters,
/// except in the content, give the same token.
pub proof fn law_case_does_not_matter(
    attrs: Seq<(Seq<char>, Seq<char>)>,
    other: Seq<(Seq<char>, Seq<char>)>,
)
    requires
        attrs.len() == other.len(),
        forall|i: int|
            0 <= i < attrs.len() ==> same_ignoring_case((#[trigger] attrs[i]).0, other[i].0)
                && same_ignoring_case(attrs[i].1, other[i].1),
        forall|i: int|
            0 <= i < attrs.len() && carries_content(#[trigger] attrs[i]) ==> attrs[i].1
                == other[i].1,
    ensures
        tag_token(attrs) == tag_token(other),
{
    lemma_same_content(attrs, other, attrs.len() as int);
    assert(attrs.take(attrs.len() as int) =~= attrs);
    assert(other.take(attrs.len() as int) =~= other);
    if has_token(attrs) {
        let i = choose|i: int| 0 <= i < attrs.len() && declares_token(#[trigger] attrs[i]);
        assert(declares_token(other[i]));
    }
    if has_token(other) {
        let i = choose|i: int| 0 <= i < other.len() && declares_token(#[trigger] other[i]);
        assert(same_ignoring_case(attrs[i].0, other[i].0));
        assert(declares_token(attrs[i]));
    }
}

proof fn lemma_same_content(
    attrs: Seq<(Seq<char>, Seq<char>)>,
    other: Seq<(Seq<char>, Seq<char>)>,
    n: int,
)
    requires
        attrs.len() == other.len(),
        0 <= n <= attrs.len(),
        forall|i: int|
            0 <= i < attrs.len() ==> same_ignoring_case((#[trigger] attrs[i]).0, other[i].0)
                && same_ignoring_case(attrs[i].1, other[i].1),
        forall|i: int|
            0 <= i < attrs.len() && carries_content(#[trigger] attrs[i]) ==> attrs[i].1
                == other[i].1,
    ensures
        content_of(attrs.take(n)) == content_of(other.take(n)),
    decreases n,
{
    if n > 0 {
        let a = attrs.take(n);
        let b = other.take(n);
        assert(a.drop_last() =~= attrs.take(n - 1));
        assert(b.drop_last() =~= other.take(n - 1));
        assert(a.last() == attrs[n - 1]);
        assert(b.last() == other[n - 1]);
        lemma_same_content(attrs, other, n - 1);
    }
}

/// Where the first `meta` tag of a page lies.
proof fn lemma_first_tag(
    prefix: Seq<char>,
    opening: Seq<char>,
    body: Seq<char>,
    rest: Seq<char>,
)
    requires
        same_ignoring_case(opening, "<meta"@),
        forall|k: int|
            0 <= k < prefix.len() ==> !occurs_at(
                lowered(prefix + opening + body + seq!['>'] + rest),
                lowered("<meta"@),
                k,
            ),
        forall|i: int| 0 <= i < body.len() ==> #[trigger] body[i] != '>',
    ensures
        ({
            let html = prefix + opening + body + seq!['>'] + rest;
            let start = prefix.len() + "<meta"@.len();
            let end = start + body.len();
            &&& find_from(lowered(html), lowered("<meta"@), 0) == Some(prefix.len() as int)
            &&& find_char(html, '>', start as int) == Some(end as int)
            &&& html.subrange(start as int, end as int) == body
        }),
{
    let html = prefix + opening + body + seq!['>'] + rest;
    let low = lowered(html);
    let needle = lowered("<meta"@);
    let k = prefix.len() as int;
    assert(lowered(opening).len() == opening.len());
    assert(needle.len() == "<meta"@.len());
    assert(low.subrange(k, k + needle.len()) =~= needle) by {
        assert forall|i: int| 0 <= i < needle.len() implies low[k + i] == needle[i] by {
            assert(html[k + i] == opening[i]);
            assert(lowered(opening)[i] == needle[i]);
        }
    }
    assert(occurs_at(low, needle, k));
    lemma_find_from(low, needle, 0);
    assert(find_from(low, needle, 0) == Some(k));
    let start = k + "<meta"@.len();
    let end = start + body.len();
    assert(html[end] == '>');
    lemma_find_char(html, '>', start);
    assert forall|i: int| start <= i < end implies html[i] != '>' by {
        assert(html[i] == body[i - start]);
    }
    assert(find_char(html, '>', start) == Some(end));
    assert(html.subrange(start, end) =~= body);
}

/// The token of a page is that of its first token tag: of a `meta` tag, opened in any case, that
/// gives a token while none was opened before.
pub proof fn law_first_token_tag_counts(
    prefix: Seq<char>,
    opening: Seq<char>,
    body: Seq<char>,
    rest: Seq<char>,
)
    requires
        same_ignoring_case(opening, "<meta"@),
        forall|k: int|
            0 <= k < prefix.len() ==> !occurs_at(
                lowered(prefix + opening + body + seq!['>'] + rest),
                lowered("<meta"@),
                k,
            ),
        forall|i: int| 0 <= i < body.len() ==> #[trigger] body[i] != '>',
        tag_token(attributes(body, 0)) is Some,
    ensures
        page_token(prefix + opening + body + seq!['>'] + rest, 0) == tag_token(attributes(body, 0)),
{
    lemma_first_tag(prefix, opening, body, rest);
}

/// A tag gives a token exactly if one of its attributes `name`, `property` and `id` says `clckd`,
/// in any case, and its content, the last one if there are several, is not empty.  The token is
/// the content.
pub proof fn law_tokens_are_the_content_of_token_tags(
    attrs: Seq<(Seq<char>, Seq<char>)>,
    token: Seq<char>,
)
    ensures
        tag_token(attrs) == Some(token) <==> {
            &&& token.len() > 0
            &&& exists|i: int|
                0 <= i < attrs.len() && same_ignoring_case((#[trigger] attrs[i]).1, "clckd"@) && (
                same_ignoring_case(attrs[i].0, "name"@) || same_ignoring_case(
                    attrs[i].0,
                    "property"@,
                ) || same_ignoring_case(attrs[i].0, "id"@))
            &&& exists|j: int|
                0 <= j < attrs.len() && (#[trigger] attrs[j]).1 == token && same_ignoring_case(
                    attrs[j].0,
                    "content"@,
                ) && forall|k: int|
                    j < k < attrs.len() ==> !same_ignoring_case((#[trigger] attrs[k]).0, "content"@)
        },
{
    reveal_strlit("name");
    reveal_strlit("property");
    reveal_strlit("id");
    reveal_strlit("content");
    assert(lowered("name"@) =~= "name"@);
    assert(lowered("property"@) =~= "property"@);
    assert(lowered("id"@) =~= "id"@);
    assert(lowered("content"@) =~= "content"@);
    lemma_last_content(attrs);
    if has_token(attrs) {
        let i = choose|i: int| 0 <= i < attrs.len() && declares_token(#[trigger] attrs[i]);
        assert(same_ignoring_case(attrs[i].1, "clckd"@));
    }
    if exists|i: int|
        0 <= i < attrs.len() && same_ignoring_case((#[trigger] attrs[i]).1, "clckd"@) && (
        same_ignoring_case(attrs[i].0, "name"@) || same_ignoring_case(attrs[i].0, "property"@)
            || same_ignoring_case(attrs[i].0, "id"@)) {
        let i = choose|i: int|
            0 <= i < attrs.len() && same_ignoring_case((#[trigger] attrs[i]).1, "clckd"@) && (
            same_ignoring_case(attrs[i].0, "name"@) || same_ignoring_case(attrs[i].0, "property"@)
                || same_ignoring_case(attrs[i].0, "id"@));
        assert(declares_token(attrs[i]));
    }
}

/// The content of a tag is that of its last content attribute.
proof fn lemma_last_content(attrs: Seq<(Seq<char>, Seq<char>)>)
    ensures
        match content_of(attrs) {
            Some(content) => exists|j: int|
                0 <= j < attrs.len() && (#[trigger] attrs[j]).1 == content && carries_content(
                    attrs[j],
                ) && forall|k: int| j < k < attrs.len() ==> !carries_content(#[trigger] attrs[k]),
            None => forall|k: int| 0 <= k < attrs.len() ==> !carries_content(#[trigger] attrs[k]),
        },
    decreases attrs.len(),
{
    if attrs.len() > 0 {
        let shorter = attrs.drop_last();
        let n = attrs.len() - 1;
        assert(attrs[n] == attrs.last());
        if !carries_content(attrs.last()) {
            lemma_last_content(shorter);
            match content_of(shorter) {
                Some(content) => {
                    let j = choose|j: int|
                        0 <= j < shorter.len() && (#[trigger] shorter[j]).1 == content
                            && carries_content(shorter[j]) && forall|k: int|
                            j < k < shorter.len() ==> !carries_content(#[trigger] shorter[k]);
                    assert(attrs[j] == shorter[j]);
                    assert forall|k: int| j < k < attrs.len() implies !carries_content(
                        #[trigger] attrs[k],
                    ) by {
                        if k < n {
                            assert(attrs[k] == shorter[k]);
                        }
                    }
                },
                None => {
                    assert forall|k: int| 0 <= k < attrs.len() implies !carries_content(
                        #[trigger] attrs[k],
                    ) by {
                        if k < n {
                            assert(attrs[k] == shorter[k]);
                        }
                    }
                },
            }
        }
    }
}

/// Searching the end of a text is searching the whole text from there on.
proof fn lemma_find_from_skip(s: Seq<char>, needle: Seq<char>, n: int, k: int)
    requires
        0 <= n <= s.len(),
        0 <= k,
    ensures
        find_from(s.skip(n), needle, k) == (match find_from(s, needle, n + k) {
            Some(i) => Some(i - n),
            None => None::<int>,
        }),
    decreases s.len() + 1 - n - k,
{
    if n + k + needle.len() <= s.len() {
        assert(s.skip(n).subrange(k, k + needle.len()) =~= s.subrange(
            n + k,
            n + k + needle.len(),
        ));
        if !occurs_at(s, needle, n + k) {
            lemma_find_from_skip(s, needle, n, k + 1);
        }
    }
}

/// The token from a position on is that of the rest of the page.
proof fn lemma_page_token_skip(html: Seq<char>, n: int, from: int)
    requires
        0 <= n <= html.len(),
        0 <= from <= html.len() - n,
    ensures
        page_token(html, n + from) == page_token(html.skip(n), from),
    decreases html.len() - n - from,
{
    let rest = html.skip(n);
    let needle = lowered("<meta"@);
    assert(lowered(html).skip(n) =~= lowered(rest));
    lemma_find_from_skip(lowered(html), needle, n, from);
    lemma_find_from(lowered(rest), needle, from);
    match find_from(lowered(rest), needle, from) {
        Some(k) => {
            let body = k + "<meta"@.len();
            lemma_find_char_skip(html, '>', n, body);
            lemma_find_char(rest, '>', body);
            match find_char(rest, '>', body) {
                Some(end) => {
                    assert(rest.subrange(body, end) =~= html.subrange(n + body, n + end));
                    lemma_page_token_skip(html, n, end + 1);
                },
                None => {},
            }
        },
        None => {},
    }
}

/// A `meta` tag without a token, opened in any case, and the text before it do not change the
/// token of a page: it is that of what follows the tag, whatever that begins with.
pub proof fn law_tags_without_token_are_passed_over(
    prefix: Seq<char>,
    opening: Seq<char>,
    body: Seq<char>,
    rest: Seq<char>,
)
    requires
        same_ignoring_case(opening, "<meta"@),
        forall|k: int|
            0 <= k < prefix.len() ==> !occurs_at(
                lowered(prefix + opening + body + seq!['>'] + rest),
                lowered("<meta"@),
                k,
            ),
        forall|i: int| 0 <= i < body.len() ==> #[trigger] body[i] != '>',
        tag_token(attributes(body, 0)) is None,
    ensures
        page_token(prefix + opening + body + seq!['>'] + rest, 0) == page_token(rest, 0),
{
    let html = prefix + opening + body + seq!['>'] + rest;
    lemma_first_tag(prefix, opening, body, rest);
    let next = prefix.len() as int + "<meta"@.len() + body.len() + 1;
    assert(lowered(opening).len() == lowered("<meta"@).len());
    assert(html.skip(next) =~= rest);
    lemma_page_token_skip(html, next, 0);
}

/// Text before the first `meta` tag does not matter for the token, and a page without such a tag
/// has none.
pub proof fn law_text_between_tags_does_not_matter(prefix: Seq<char>, rest: Seq<char>)
    requires
        forall|k: int|
            0 <= k < prefix.len() ==> !occurs_at(lowered(prefix + rest), lowered("<meta"@), k),
    ensures
        page_token(prefix + rest, 0) == page_token(rest, 0),
        rest.len() == 0 ==> page_token(prefix + rest, 0) is None,
{
    let html = prefix + rest;
    let n = prefix.len() as int;
    let low = lowered(html);
    let needle = lowered("<meta"@);
    assert(html.skip(n) =~= rest);
    lemma_find_from(low, needle, 0);
    lemma_find_from(low, needle, n);
    assert(find_from(low, needle, 0) == find_from(low, needle, n));
    assert(page_token(html, 0) == page_token(html, n));
    lemma_page_token_skip(html, n, 0);
    if rest.len() == 0 {
        reveal_strlit("<meta");
        assert forall|k: int| 0 <= k implies !occurs_at(low, needle, k) by {}
    }
}

/// A page has a token whenever one of its tags gives one: tags without a token before it, with
/// any text between them, change nothing.
pub proof fn law_later_token_tags_count(
    tags: Seq<(Seq<char>, Seq<char>, Seq<char>)>,
    html: Seq<char>,
    rest: Seq<char>,
)
    requires
        tags_lead_to(tags, html, rest),
        forall|i: int| 0 <= i < tags.len() ==> tag_token(attributes((#[trigger] tags[i]).2, 0)) is None,
    ensures
        page_token(html, 0) == page_token(rest, 0),
    decreases tags.len(),
{
    if tags.len() > 0 {
        let (prefix, opening, body) = tags[0];
        let next = html.skip((prefix + opening + body + seq!['>']).len() as int);
        law_tags_without_token_are_passed_over(prefix, opening, body, next);
        let others = tags.skip(1);
        assert forall|i: int| 0 <= i < others.len() implies tag_token(
            attributes((#[trigger] others[i]).2, 0),
        ) is None by {
            assert(others[i] == tags[i + 1]);
        }
        law_later_token_tags_count(others, next, rest);
    }
}

/// Whether a page begins with the given `meta` tags, each with the text before it, how it is
/// opened and what stands in it, and goes on with `rest`.
pub open spec fn tags_lead_to(
    tags: Seq<(Seq<char>, Seq<char>, Seq<char>)>,
    html: Seq<char>,
    rest: Seq<char>,
) -> bool
    decreases tags.len(),
{
    if tags.len() == 0 {
        html == rest
    } else {
        let (prefix, opening, body) = tags[0];
        let tag = prefix + opening + body + seq!['>'];
        let next = html.skip(tag.len() as int);
        &&& html == tag + next
        &&& same_ignoring_case(opening, "<meta"@)
        &&& forall|k: int|
            0 <= k < prefix.len() ==> !occurs_at(lowered(html), lowered("<meta"@), k)
        &&& forall|i: int| 0 <= i < body.len() ==> #[trigger] body[i] != '>'
        &&& tags_lead_to(tags.skip(1), next, rest)
    }
}

// ---------------------------------------------------------------------------
// The title
// ---------------------------------------------------------------------------

/// The title of a page is what stands between its first `title` tag and the next closing one, in
/// any case, without the white space around it; a blank one counts as none.
pub proof fn law_titles_stand_between_their_tags(
    prefix: Seq<char>,
    opening: Seq<char>,
    attrs: Seq<char>,
    text: Seq<char>,
    closing: Seq<char>,
    rest: Seq<char>,
)
    requires
        same_ignoring_case(opening, "<title"@),
        same_ignoring_case(closing, "</title>"@),
        forall|i: int| 0 <= i < attrs.len() ==> #[trigger] attrs[i] != '>',
        ({
            let low = lowered(prefix + opening + attrs + seq!['>'] + text + closing + rest);
            let start = (prefix + opening + attrs + seq!['>']).len();
            &&& forall|k: int| 0 <= k < prefix.len() ==> !occurs_at(low, lowered("<title"@), k)
            &&& forall|k: int|
                start <= k < start + text.len() ==> !occurs_at(low, lowered("</title>"@), k)
        }),
    ensures
        page_title(prefix + opening + attrs + seq!['>'] + text + closing + rest) == (if trimmed(
            text,
        ).len() > 0 {
            Some(trimmed(text))
        } else {
            None
        }),
{
    let html = prefix + opening + attrs + seq!['>'] + text + closing + rest;
    let low = lowered(html);
    let needle = lowered("<title"@);
    let k = prefix.len() as int;
    assert(lowered(opening).len() == opening.len());
    assert(lowered(closing).len() == closing.len());
    assert(needle.len() == "<title"@.len());
    assert(low.subrange(k, k + needle.len()) =~= needle) by {
        assert forall|i: int| 0 <= i < needle.len() implies low[k + i] == needle[i] by {
            assert(html[k + i] == opening[i]);
            assert(lowered(opening)[i] == needle[i]);
        }
    }
    assert(occurs_at(low, needle, k));
    lemma_find_from(low, needle, 0);
    assert(find_from(low, needle, 0) == Some(k));
    let body = k + "<title"@.len();
    let open = body + attrs.len();
    assert(html[open] == '>');
    lemma_find_char(html, '>', body);
    assert forall|i: int| body <= i < open implies html[i] != '>' by {
        assert(html[i] == attrs[i - body]);
    }
    assert(find_char(html, '>', body) == Some(open));
    let end = lowered("</title>"@);
    let close = open + 1 + text.len();
    assert(end.len() == "</title>"@.len());
    assert(low.subrange(close, close + end.len()) =~= end) by {
        assert forall|i: int| 0 <= i < end.len() implies low[close + i] == end[i] by {
            assert(html[close + i] == closing[i]);
            assert(lowered(closing)[i] == end[i]);
        }
    }
    assert(occurs_at(low, end, close));
    lemma_find_from(low, end, open + 1);
    assert(find_from(low, end, open + 1) == Some(close));
    assert(html.subrange(open + 1, close) =~= text);
}

/// A page in which no `title` tag is opened has no title.
pub proof fn law_pages_without_title_tag_have_none(html: Seq<char>)
    requires
        forall|k: int| !occurs_at(lowered(html), lowered("<title"@), k),
    ensures
        page_title(html) is None,
{
    lemma_find_from(lowered(html), lowered("<title"@), 0);
}

// ---------------------------------------------------------------------------
// Listings
// ---------------------------------------------------------------------------

/// The last piece of a split text holds no separator, and is not empty if the text does not end
/// with one.
proof fn lemma_last_piece(s: Seq<char>, c: char)
    ensures
        split(s, c).len() > 0,
        !has_char(split(s, c).last(), c),
        s.len() > 0 && s.last() != c ==> split(s, c).last().len() > 0,
    decreases s.len(),
{
    lemma_find_char(s, c, 0);
    match find_char(s, c, 0) {
        Some(i) => {
            let rest = s.skip(i + 1);
            lemma_last_piece(rest, c);
            assert(split(s, c) == seq![s.take(i)] + split(rest, c));
            assert(split(s, c).last() == split(rest, c).last());
            if s.last() != c {
                assert(i < s.len() - 1);
                assert(rest.last() == s.last());
            }
        },
        None => {},
    }
}

/// Everything in a listing lies below the listed directory: no entry is the directory itself,
/// every name is a single path segment, and no size is negative.
pub proof fn law_listings_lead_downwards(
    items: Seq<ItemView>,
    base_url: Seq<char>,
    current: Seq<char>,
    entry: EntryView,
)
    requires
        entries_of(items, base_url, current).contains(entry),
    ensures
        exists|i: int|
            0 <= i < items.len() && (#[trigger] items[i]).href is Some && is_child(
                items[i].href->0,
                current,
            ) && entry_of(items[i], base_url, current) == Some(entry),
        entry.name.len() > 0,
        !has_char(entry.name, '/'),
        entry.size_bytes is Some ==> entry.size_bytes->0 >= 0,
{
    let f = |item: ItemView| entry_of(item, base_url, current);
    items.lemma_filter_map_contains(f, entry);
    let i = choose|i: int| 0 <= i < items.len() && #[trigger] f(items[i]) == Some(entry);
    let href = items[i].href->0;
    let path = trim_end_of(href, '/');
    lemma_run_start(href, href.len() as int, is_char('/'));
    assert(path.len() > 0);
    assert(path.last() == href[path.len() - 1]);
    lemma_last_piece(path, '/');
    assert(entry_of(items[i], base_url, current) == Some(entry));
}

/// The path of a URL on the server, put behind the server's address, is the URL.
pub proof fn law_paths_lead_back(url: Seq<char>, base: Seq<char>)
    requires
        begins_with(url, trim_end_of(base, '/') + seq!['/']),
    ensures
        trim_end_of(base, '/') + path_of(url, base) == url,
{
    let root = trim_end_of(base, '/');
    let prefix = root + seq!['/'];
    assert(url.take(prefix.len() as int)[root.len() as int] == '/');
    assert(url.take(root.len() as int) =~= root) by {
        assert forall|i: int| 0 <= i < root.len() implies url[i] == root[i] by {
            assert(url.take(prefix.len() as int)[i] == prefix[i]);
        }
    }
    assert(url.skip(root.len() as int)[0] == '/');
    assert(root + url.skip(root.len() as int) =~= url);
}

/// A URL elsewhere is its own path.
pub proof fn law_foreign_urls_stay(url: Seq<char>, base: Seq<char>)
    requires
        !begins_with(url, trim_end_of(base, '/')),
    ensures
        path_of(url, base) == url,
{
}

/// The name of an address is its last segment, whatever lies before it and however many slashes
/// follow it.
pub proof fn law_names_are_last_segments(parent: Seq<char>, name: Seq<char>, slashes: Seq<char>)
    requires
        name.len() > 0,
        forall|i: int| 0 <= i < name.len() ==> #[trigger] name[i] != '/',
        forall|i: int| 0 <= i < slashes.len() ==> #[trigger] slashes[i] == '/',
    ensures
        segment_of(parent + seq!['/'] + name + slashes) == name,
        segment_of(name + slashes) == name,
{
    let shown = parent + seq!['/'] + name;
    law_trimming_takes_one_character(slashes, shown, '/');
    law_trimming_takes_one_character(slashes, name, '/');
    law_texts_are_cut_at_every_separator(parent, name, '/');
    law_texts_without_separator_stay_whole(name, '/');
}

/// Every item that lies below the listed directory becomes an entry: under its name, as a
/// directory exactly if its address ends with a slash, with the time that is given to the
/// minute, and with its size if it is a file and the size is not negative.
pub proof fn law_items_become_entries(
    item: ItemView,
    base_url: Seq<char>,
    current: Seq<char>,
    between: Seq<char>,
    parent: Seq<char>,
    name: Seq<char>,
    slashes: Seq<char>,
)
    requires
        name.len() > 0,
        forall|i: int| 0 <= i < name.len() ==> #[trigger] name[i] != '/',
        forall|i: int| 0 <= i < slashes.len() ==> #[trigger] slashes[i] == '/',
        item.href == Some(parent + seq!['/'] + name + slashes),
        parent + seq!['/'] == current + between,
    ensures
        entry_of(item, base_url, current) == Some(
            EntryView {
                url: item_url(base_url, item.href->0),
                name,
                is_dir: slashes.len() > 0,
                last_modified: match item.time {
                    Some(ms) => minute_text(whole_seconds(ms)),
                    None => None,
                },
                size_bytes: if slashes.len() == 0 && item.size is Some && item.size->0 >= 0 {
                    item.size
                } else {
                    None
                },
            },
        ),
{
    let href = item.href->0;
    let shown = parent + seq!['/'] + name;
    law_names_are_last_segments(parent, name, slashes);
    law_trimming_takes_one_character(slashes, shown, '/');
    lemma_run_start(current, current.len() as int, is_char('/'));
    assert(trim_end_of(current, '/').len() < shown.len());
    assert(href =~= current + between + name + slashes);
    assert(href.take(current.len() as int) =~= current);
    if slashes.len() > 0 {
        assert(href.last() == slashes[slashes.len() - 1]);
    } else {
        assert(href.last() == name[name.len() - 1]);
    }
}

/// Items elsewhere become no entries: those without an address, those whose address does not
/// begin with that of the listed directory, and the directory itself, however many slashes follow
/// it.
pub proof fn law_other_items_are_left_out(
    item: ItemView,
    base_url: Seq<char>,
    dir: Seq<char>,
    slashes: Seq<char>,
    more: Seq<char>,
)
    requires
        dir.len() == 0 || dir.last() != '/',
        forall|i: int| 0 <= i < slashes.len() ==> #[trigger] slashes[i] == '/',
        forall|i: int| 0 <= i < more.len() ==> #[trigger] more[i] == '/',
    ensures
        item.href is None ==> entry_of(item, base_url, dir + slashes) is None,
        item.href == Some(dir + more) ==> entry_of(item, base_url, dir + slashes) is None,
        item.href is Some && !(exists|rest: Seq<char>|
            item.href->0 == #[trigger] (dir + slashes + rest)) ==> entry_of(
            item,
            base_url,
            dir + slashes,
        ) is None,
{
    let current = dir + slashes;
    law_trimming_takes_one_character(slashes, dir, '/');
    law_trimming_takes_one_character(more, dir, '/');
    if item.href is Some {
        let href = item.href->0;
        if begins_with(href, current) {
            let rest = href.skip(current.len() as int);
            assert(href =~= href.take(current.len() as int) + rest);
            assert(href == dir + slashes + rest);
        }
    }
}

/// A listing has the entries of its items, each and no others, in their order.
pub proof fn law_listings_have_the_entries_of_their_items(
    items: Seq<ItemView>,
    more: Seq<ItemView>,
    base_url: Seq<char>,
    current: Seq<char>,
    entry: EntryView,
)
    ensures
        entries_of(items, base_url, current).contains(entry) <==> exists|i: int|
            0 <= i < items.len() && entry_of(#[trigger] items[i], base_url, current) == Some(entry),
        entries_of(items + more, base_url, current) == entries_of(items, base_url, current)
            + entries_of(more, base_url, current),
{
    let f = |item: ItemView| entry_of(item, base_url, current);
    lemma_picked(items, f, entry);
    lemma_picked_from_both(items, more, f);
    if entries_of(items, base_url, current).contains(entry) {
        let i = choose|i: int| 0 <= i < items.len() && #[trigger] f(items[i]) == Some(entry);
        assert(entry_of(items[i], base_url, current) == Some(entry));
    }
    if exists|i: int|
        0 <= i < items.len() && entry_of(#[trigger] items[i], base_url, current) == Some(entry) {
        let i = choose|i: int|
            0 <= i < items.len() && entry_of(#[trigger] items[i], base_url, current) == Some(entry);
        assert(f(items[i]) == Some(entry));
    }
}

/// A time in milliseconds lies less than a second from its whole seconds, on the side away from
/// zero.
pub proof fn law_seconds_are_cut_towards_zero(ms: i64)
    ensures
        ms >= 0 ==> 0 <= ms - 1000 * whole_seconds(ms) < 1000,
        ms <= 0 ==> -1000 < ms - 1000 * whole_seconds(ms) <= 0,
{
}

/// An address that cannot be resolved is put behind that of the server, with one slash between
/// them whatever slashes stood there.
pub proof fn law_unresolved_addresses_lie_on_the_server(
    root: Seq<char>,
    slashes: Seq<char>,
    lead: Seq<char>,
    rest: Seq<char>,
)
    requires
        root.len() == 0 || root.last() != '/',
        forall|i: int| 0 <= i < slashes.len() ==> #[trigger] slashes[i] == '/',
        forall|i: int| 0 <= i < lead.len() ==> #[trigger] lead[i] == '/',
        rest.len() == 0 || rest[0] != '/',
        url_joined(root + slashes, lead + rest) is None,
    ensures
        item_url(root + slashes, lead + rest) == root + seq!['/'] + rest,
{
    law_trimming_takes_one_character(slashes, root, '/');
    law_trimming_takes_one_character(lead, rest, '/');
}

/// An address on the server has as its path what follows the server's address, with a slash in
/// front, whatever slashes end the server's address.  Such a path is asked for; for an address
/// elsewhere the root is.
pub proof fn law_paths_follow_the_root(
    root: Seq<char>,
    slashes: Seq<char>,
    rest: Seq<char>,
    elsewhere: Seq<char>,
)
    requires
        root.len() == 0 || root.last() != '/',
        forall|i: int| 0 <= i < slashes.len() ==> #[trigger] slashes[i] == '/',
    ensures
        path_of(root + seq!['/'] + rest, root + slashes) == seq!['/'] + rest,
        path_of(root, root + slashes) == seq!['/'],
        rest.len() > 0 && rest[0] != '/' ==> path_of(root + rest, root + slashes) == seq!['/']
            + rest,
        href_of(root + slashes, root + seq!['/'] + rest) == seq!['/'] + rest,
        href_of(root + slashes, root) == seq!['/'],
        !(exists|tail: Seq<char>| elsewhere == #[trigger] (root + tail)) ==> href_of(
            root + slashes,
            elsewhere,
        ) == seq!['/'] && path_of(elsewhere, root + slashes) == elsewhere,
        api_url_of(root + slashes) == root + "/?"@,
{
    law_trimming_takes_one_character(slashes, root, '/');
    let n = root.len() as int;
    let below = root + seq!['/'] + rest;
    assert(below.take(n) =~= root);
    assert(below.skip(n) =~= seq!['/'] + rest);
    assert(root.take(n) =~= root);
    assert(root.skip(n) =~= Seq::<char>::empty());
    assert(seq!['/'] + Seq::<char>::empty() =~= seq!['/']);
    assert((root + rest).take(n) =~= root);
    assert((root + rest).skip(n) =~= rest);
    if begins_with(elsewhere, root) {
        assert(elsewhere =~= elsewhere.take(n) + elsewhere.skip(n));
        assert(elsewhere == root + elsewhere.skip(n));
    }
}

// ---------------------------------------------------------------------------
// Extensions
// ---------------------------------------------------------------------------

/// With extensions given, a file is wanted exactly if the one that its name ends with is among
/// them, in any case; without any every file is.
pub proof fn law_extensions_decide_what_is_wanted(
    dir: Seq<char>,
    stem: Seq<char>,
    ext: Seq<char>,
    allowed: Seq<Seq<char>>,
)
    requires
        is_plain_name(stem + seq!['.'] + ext),
        stem.len() > 0,
        forall|i: int| 0 <= i < ext.len() ==> #[trigger] ext[i] != '.',
    ensures
        extension_wanted(dir + seq!['/'] + stem + seq!['.'] + ext, allowed) <==> allowed.len() == 0
            || exists|i: int|
            0 <= i < allowed.len() && lowered(#[trigger] allowed[i]) == lowered(ext),
{
    law_extensions_follow_the_last_dot(dir, stem, ext);
    let url = dir + seq!['/'] + stem + seq!['.'] + ext;
    if extension_is_allowed(url, allowed) {
        let i = choose|i: int|
            0 <= i < allowed.len() && same_ignoring_case(#[trigger] allowed[i], ext);
        assert(lowered(allowed[i]) == lowered(ext));
    }
    if exists|i: int| 0 <= i < allowed.len() && lowered(#[trigger] allowed[i]) == lowered(ext) {
        let i = choose|i: int|
            0 <= i < allowed.len() && lowered(#[trigger] allowed[i]) == lowered(ext);
        assert(same_ignoring_case(allowed[i], ext));
    }
}

/// A file without an extension is wanted if no extensions are given, or an empty one.
pub proof fn law_files_without_extension(dir: Seq<char>, name: Seq<char>, allowed: Seq<Seq<char>>)
    requires
        is_plain_name(name),
        forall|i: int| 0 < i < name.len() ==> #[trigger] name[i] != '.',
    ensures
        extension_wanted(dir + seq!['/'] + name, allowed) <==> allowed.len() == 0 || exists|i: int|
            0 <= i < allowed.len() && (#[trigger] allowed[i]).len() == 0,
{
    law_names_without_inner_dot_have_no_extension(dir, name);
    let url = dir + seq!['/'] + name;
    let none = Seq::<char>::empty();
    if extension_is_allowed(url, allowed) {
        let i = choose|i: int|
            0 <= i < allowed.len() && same_ignoring_case(#[trigger] allowed[i], none);
        assert(lowered(allowed[i]).len() == lowered(none).len());
        assert(allowed[i].len() == 0);
    }
    if exists|i: int| 0 <= i < allowed.len() && (#[trigger] allowed[i]).len() == 0 {
        let i = choose|i: int| 0 <= i < allowed.len() && (#[trigger] allowed[i]).len() == 0;
        assert(allowed[i] =~= none);
        assert(same_ignoring_case(allowed[i], none));
    }
}

// ---------------------------------------------------------------------------
// Exclusion
// ---------------------------------------------------------------------------

/// Without patterns nothing is excluded, and more patterns exclude no less.
pub proof fn law_exclusion_is_monotone(
    path: Seq<char>,
    patterns: Seq<Seq<char>>,
    more: Seq<Seq<char>>,
)
    ensures
        !excluded(path, Seq::<Seq<char>>::empty()),
        excluded(path, patterns) ==> excluded(path, patterns + more),
        excluded(path, patterns) ==> excluded(path, more + patterns),
{
    if excluded(path, patterns) {
        let i = choose|i: int|
            0 <= i < patterns.len() && pattern_excludes(path, #[trigger] patterns[i]);
        assert((patterns + more)[i] == patterns[i]);
        assert((more + patterns)[more.len() + i] == patterns[i]);
    }
}

/// Slashes around a path do not matter for exclusion.
pub proof fn law_exclusion_ignores_outer_slashes(path: Seq<char>, patterns: Seq<Seq<char>>)
    ensures
        relative_path(seq!['/'] + path) == relative_path(path),
        excluded(seq!['/'] + path, patterns) == excluded(path, patterns),
{
    let longer = seq!['/'] + path;
    assert(longer.skip(1) =~= path);
    lemma_run_end_skip(longer, 1, 0, is_char('/'));
    assert(trim_start_of(longer, '/') =~= trim_start_of(path, '/')) by {
        lemma_run_end(path, 0, is_char('/'));
        let k = run_end(path, 0, is_char('/'));
        assert(run_end(longer, 0, is_char('/')) == k + 1);
        assert(longer.skip(k + 1) =~= path.skip(k));
    }
    if excluded(longer, patterns) {
        let i = choose|i: int|
            0 <= i < patterns.len() && pattern_excludes(longer, #[trigger] patterns[i]);
        assert(pattern_excludes(path, patterns[i]));
    }
    if excluded(path, patterns) {
        let i = choose|i: int|
            0 <= i < patterns.len() && pattern_excludes(path, #[trigger] patterns[i]);
        assert(pattern_excludes(longer, patterns[i]));
    }
}

/// A segment between slashes, or between a slash and an end, is one of the pieces of a path.
proof fn lemma_segment_is_a_piece(x: Seq<char>, segment: Seq<char>, y: Seq<char>)
    requires
        forall|i: int| 0 <= i < segment.len() ==> #[trigger] segment[i] != '/',
        x.len() == 0 || x.last() == '/',
        y.len() == 0 || y[0] == '/',
    ensures
        split(x + segment + y, '/').contains(segment),
{
    law_texts_without_separator_stay_whole(segment, '/');
    let tail = segment + y;
    let after = split(tail, '/');
    if y.len() == 0 {
        assert(tail =~= segment);
        assert(after[0] == segment);
    } else {
        let rest = y.skip(1);
        assert(tail =~= segment + seq!['/'] + rest);
        law_texts_are_cut_at_every_separator(segment, rest, '/');
        assert(after[0] == segment);
    }
    if x.len() == 0 {
        assert(x + segment + y =~= tail);
        assert(split(x + segment + y, '/')[0] == segment);
    } else {
        let head = x.drop_last();
        assert(x + segment + y =~= head + seq!['/'] + tail);
        law_texts_are_cut_at_every_separator(head, tail, '/');
        let whole = split(x + segment + y, '/');
        assert(whole[split(head, '/').len() as int] == segment);
    }
}

/// Every piece of a path is a segment of it.
proof fn lemma_piece_is_a_segment(path: Seq<char>, i: int) -> (around: (Seq<char>, Seq<char>))
    requires
        0 <= i < split(path, '/').len(),
    ensures
        path == around.0 + split(path, '/')[i] + around.1,
        forall|k: int| 0 <= k < split(path, '/')[i].len() ==> #[trigger] split(path, '/')[i][k] != '/',
        around.0.len() == 0 || around.0.last() == '/',
        around.1.len() == 0 || around.1[0] == '/',
    decreases path.len(),
{
    lemma_find_char(path, '/', 0);
    match find_char(path, '/', 0) {
        Some(k) => {
            let rest = path.skip(k + 1);
            let head = path.take(k);
            if i == 0 {
                assert(path =~= Seq::<char>::empty() + head + path.skip(k));
                (Seq::<char>::empty(), path.skip(k))
            } else {
                let inner = lemma_piece_is_a_segment(rest, i - 1);
                let x = head + seq!['/'] + inner.0;
                assert(split(path, '/')[i] == split(rest, '/')[i - 1]);
                assert(path =~= head + seq!['/'] + rest);
                assert(path =~= x + split(path, '/')[i] + inner.1);
                (x, inner.1)
            }
        },
        None => {
            assert(path =~= Seq::<char>::empty() + path + Seq::<char>::empty());
            (Seq::<char>::empty(), Seq::<char>::empty())
        },
    }
}

/// A path is taken without the slashes around it, however many, and with all that lies between
/// them.
pub proof fn law_outer_slashes_are_dropped(lead: Seq<char>, inner: Seq<char>, trail: Seq<char>)
    requires
        forall|i: int| 0 <= i < lead.len() ==> #[trigger] lead[i] == '/',
        forall|i: int| 0 <= i < trail.len() ==> #[trigger] trail[i] == '/',
        inner.len() > 0,
        inner[0] != '/',
        inner.last() != '/',
    ensures
        relative_path(lead + inner + trail) == inner,
{
    let rest = inner + trail;
    assert(lead + inner + trail =~= lead + rest);
    assert(rest[0] == inner[0]);
    law_trimming_takes_one_character(lead, rest, '/');
    law_trimming_takes_one_character(trail, inner, '/');
}

/// What is left of a path around one of its segments after the outer slashes were taken off.
proof fn lemma_relative_segment(x: Seq<char>, segment: Seq<char>, y: Seq<char>) -> (around: (
    Seq<char>,
    Seq<char>,
))
    requires
        segment.len() > 0,
        forall|i: int| 0 <= i < segment.len() ==> #[trigger] segment[i] != '/',
        x.len() == 0 || x.last() == '/',
        y.len() == 0 || y[0] == '/',
    ensures
        relative_path(x + segment + y) == around.0 + segment + around.1,
        around.0.len() == 0 || around.0.last() == '/',
        around.1.len() == 0 || around.1[0] == '/',
{
    let p = is_char('/');
    let whole = x + segment + y;
    let n = x.len() as int;
    lemma_run_end(whole, 0, p);
    let k = run_end(whole, 0, p);
    assert(whole[n] == segment[0]);
    assert(k <= n) by {
        if k > n {
            assert(p(whole[n]));
        }
    }
    let rest = trim_start_of(whole, '/');
    let left = x.skip(k);
    assert(rest =~= left + segment + y);
    lemma_run_start(rest, rest.len() as int, p);
    let e = run_start(rest, rest.len() as int, p);
    let last = left.len() + segment.len() - 1;
    assert(rest[last] == segment[segment.len() - 1]);
    assert(e > last) by {
        if e <= last {
            assert(p(rest[last]));
        }
    }
    let right = y.take(e - last - 1);
    assert(rest.take(e) =~= left + segment + right);
    (left, right)
}

/// A valid pattern without a slash excludes every path that has a segment which it matches, at
/// whatever depth and whatever stands before and behind it.
pub proof fn law_bare_patterns_match_every_segment(
    patterns: Seq<Seq<char>>,
    i: int,
    x: Seq<char>,
    segment: Seq<char>,
    y: Seq<char>,
)
    requires
        0 <= i < patterns.len(),
        forall|k: int| 0 <= k < patterns[i].len() ==> #[trigger] patterns[i][k] != '/',
        glob_valid(patterns[i]),
        glob_match(patterns[i], segment),
        segment.len() > 0,
        forall|k: int| 0 <= k < segment.len() ==> #[trigger] segment[k] != '/',
        x.len() == 0 || x.last() == '/',
        y.len() == 0 || y[0] == '/',
    ensures
        excluded(x + segment + y, patterns),
{
    let p = patterns[i];
    let path = x + segment + y;
    law_trimming_takes_one_character(Seq::<char>::empty(), p, '/');
    assert(Seq::<char>::empty() + p =~= p);
    let around = lemma_relative_segment(x, segment, y);
    let rel = relative_path(path);
    lemma_segment_is_a_piece(around.0, segment, around.1);
    let targets = split(rel, '/');
    let k = choose|k: int| 0 <= k < targets.len() && targets[k] == segment;
    let hits = targets.map_values(|target: Seq<char>| glob_match(p, target));
    assert(hits[k]);
    assert(pattern_excludes(path, patterns[i]));
}

/// The same between slashes: whatever directories lead to the segment and follow it.
pub proof fn law_bare_patterns_match_at_any_depth(
    pattern: Seq<char>,
    before: Seq<char>,
    segment: Seq<char>,
    after: Seq<char>,
)
    requires
        forall|k: int| 0 <= k < pattern.len() ==> #[trigger] pattern[k] != '/',
        glob_valid(pattern),
        glob_match(pattern, segment),
        segment.len() > 0,
        forall|k: int| 0 <= k < segment.len() ==> #[trigger] segment[k] != '/',
    ensures
        excluded(before + seq!['/'] + segment + seq!['/'] + after, seq![pattern]),
        excluded(before + seq!['/'] + segment, seq![pattern]),
        excluded(segment + seq!['/'] + after, seq![pattern]),
        excluded(segment, seq![pattern]),
{
    let none = Seq::<char>::empty();
    let x = before + seq!['/'];
    let y = seq!['/'] + after;
    let patterns = seq![pattern];
    assert(patterns[0] == pattern);
    law_bare_patterns_match_every_segment(patterns, 0, x, segment, y);
    law_bare_patterns_match_every_segment(patterns, 0, x, segment, none);
    law_bare_patterns_match_every_segment(patterns, 0, none, segment, y);
    law_bare_patterns_match_every_segment(patterns, 0, none, segment, none);
    assert(x + segment + y =~= before + seq!['/'] + segment + seq!['/'] + after);
    assert(x + segment + none =~= before + seq!['/'] + segment);
    assert(none + segment + y =~= segment + seq!['/'] + after);
    assert(none + segment + none =~= segment);
}

/// A valid pattern without a slash excludes nothing else: a path that it excludes has, between
/// its outer slashes, a segment which the pattern matches.
pub proof fn law_bare_patterns_match_segments_only(pattern: Seq<char>, path: Seq<char>)
    requires
        forall|k: int| 0 <= k < pattern.len() ==> #[trigger] pattern[k] != '/',
        glob_valid(pattern),
        excluded(path, seq![pattern]),
    ensures
        exists|x: Seq<char>, segment: Seq<char>, y: Seq<char>|
            {
                &&& relative_path(path) == #[trigger] (x + segment + y)
                &&& glob_match(pattern, segment)
                &&& forall|k: int| 0 <= k < segment.len() ==> #[trigger] segment[k] != '/'
                &&& x.len() == 0 || x.last() == '/'
                &&& y.len() == 0 || y[0] == '/'
            },
{
    law_trimming_takes_one_character(Seq::<char>::empty(), pattern, '/');
    assert(Seq::<char>::empty() + pattern =~= pattern);
    assert(pattern_excludes(path, pattern));
    let rel = relative_path(path);
    let targets = split(rel, '/');
    let hits = targets.map_values(|target: Seq<char>| glob_match(pattern, target));
    let i = choose|i: int| 0 <= i < hits.len() && hits[i];
    let around = lemma_piece_is_a_segment(rel, i);
    let segment = targets[i];
    assert(glob_match(pattern, segment));
    assert(rel == around.0 + segment + around.1);
}

/// A valid pattern with a slash inside is held against the whole path, without the slashes
/// around it.  One that is not valid excludes the paths in which it occurs as it stands.
pub proof fn law_other_patterns_match_the_whole_path(
    pattern: Seq<char>,
    slash: int,
    lead: Seq<char>,
    inner: Seq<char>,
    trail: Seq<char>,
)
    requires
        0 < slash < pattern.len(),
        pattern[0] != '/',
        pattern[slash] == '/',
        forall|i: int| 0 <= i < lead.len() ==> #[trigger] lead[i] == '/',
        forall|i: int| 0 <= i < trail.len() ==> #[trigger] trail[i] == '/',
        inner.len() > 0,
        inner[0] != '/',
        inner.last() != '/',
    ensures
        glob_valid(pattern) ==> (excluded(lead + inner + trail, seq![pattern]) <==> glob_match(
            pattern,
            inner,
        )),
        !glob_valid(pattern) ==> (excluded(lead + inner + trail, seq![pattern]) <==> exists|
            a: Seq<char>,
            b: Seq<char>,
        | inner == #[trigger] (a + pattern + b)),
{
    let path = lead + inner + trail;
    law_outer_slashes_are_dropped(lead, inner, trail);
    law_trimming_takes_one_character(Seq::<char>::empty(), pattern, '/');
    assert(Seq::<char>::empty() + pattern =~= pattern);
    assert(has_char(pattern, '/'));
    lemma_one_pattern(path, pattern);
    let hits = seq![inner].map_values(|target: Seq<char>| glob_match(pattern, target));
    assert(hits.len() == 1 && hits[0] == glob_match(pattern, inner));
    lemma_occurrence(inner, pattern);
}

/// A pattern that is not valid excludes exactly the paths in which it occurs as it stands.
pub proof fn law_invalid_patterns_are_sought_literally(
    pattern: Seq<char>,
    lead: Seq<char>,
    inner: Seq<char>,
    trail: Seq<char>,
)
    requires
        !glob_valid(pattern),
        pattern.len() == 0 || pattern[0] != '/',
        forall|i: int| 0 <= i < lead.len() ==> #[trigger] lead[i] == '/',
        forall|i: int| 0 <= i < trail.len() ==> #[trigger] trail[i] == '/',
        inner.len() > 0,
        inner[0] != '/',
        inner.last() != '/',
    ensures
        excluded(lead + inner + trail, seq![pattern]) <==> exists|a: Seq<char>, b: Seq<char>|
            inner == #[trigger] (a + pattern + b),
{
    law_outer_slashes_are_dropped(lead, inner, trail);
    law_trimming_takes_one_character(Seq::<char>::empty(), pattern, '/');
    assert(Seq::<char>::empty() + pattern =~= pattern);
    lemma_one_pattern(lead + inner + trail, pattern);
    lemma_occurrence(inner, pattern);
}

/// Slashes in front of a pattern do not matter.
pub proof fn law_leading_slashes_of_patterns_do_not_matter(
    path: Seq<char>,
    lead: Seq<char>,
    pattern: Seq<char>,
)
    requires
        forall|i: int| 0 <= i < lead.len() ==> #[trigger] lead[i] == '/',
        pattern.len() == 0 || pattern[0] != '/',
    ensures
        excluded(path, seq![lead + pattern]) == excluded(path, seq![pattern]),
{
    law_trimming_takes_one_character(lead, pattern, '/');
    law_trimming_takes_one_character(Seq::<char>::empty(), pattern, '/');
    assert(Seq::<char>::empty() + pattern =~= pattern);
    lemma_one_pattern(path, lead + pattern);
    lemma_one_pattern(path, pattern);
}

/// Several patterns exclude what one of them excludes.
pub proof fn law_any_pattern_excludes(path: Seq<char>, patterns: Seq<Seq<char>>)
    ensures
        excluded(path, patterns) <==> exists|i: int|
            0 <= i < patterns.len() && excluded(path, seq![#[trigger] patterns[i]]),
{
    if excluded(path, patterns) {
        let i = choose|i: int|
            0 <= i < patterns.len() && pattern_excludes(path, #[trigger] patterns[i]);
        lemma_one_pattern(path, patterns[i]);
    }
    if exists|i: int| 0 <= i < patterns.len() && excluded(path, seq![#[trigger] patterns[i]]) {
        let i = choose|i: int|
            0 <= i < patterns.len() && excluded(path, seq![#[trigger] patterns[i]]);
        lemma_one_pattern(path, patterns[i]);
    }
}

proof fn lemma_one_pattern(path: Seq<char>, pattern: Seq<char>)
    ensures
        excluded(path, seq![pattern]) == pattern_excludes(path, pattern),
{
    let patterns = seq![pattern];
    assert(patterns[0] == pattern);
    if pattern_excludes(path, pattern) {
        assert(pattern_excludes(path, patterns[0]));
    }
}

/// A text occurs in another if something before it and something behind it make up the other.
proof fn lemma_occurrence(s: Seq<char>, needle: Seq<char>)
    ensures
        occurs_in(s, needle) <==> exists|a: Seq<char>, b: Seq<char>| s == #[trigger] (a + needle + b),
{
    if occurs_in(s, needle) {
        let k = choose|k: int| occurs_at(s, needle, k);
        let a = s.take(k);
        let b = s.skip(k + needle.len());
        assert(s =~= a + needle + b) by {
            assert forall|i: int| 0 <= i < needle.len() implies s[k + i] == needle[i] by {
                assert(s.subrange(k, k + needle.len())[i] == s[k + i]);
            }
        }
    }
    if exists|a: Seq<char>, b: Seq<char>| s == #[trigger] (a + needle + b) {
        let (a, b) = choose|a: Seq<char>, b: Seq<char>| s == #[trigger] (a + needle + b);
        let k = a.len() as int;
        assert(s.subrange(k, k + needle.len()) =~= needle);
        assert(occurs_at(s, needle, k));
    }
}

/// A path without quotes, backslashes and control characters stands in the request as it is.
pub proof fn law_plain_paths_are_asked_for_as_they_are(href: Seq<char>)
    requires
        forall|i: int|
            0 <= i < href.len() ==> (#[trigger] href[i]) > '\u{1f}' && href[i] != '"' && href[i]
                != '\\',
    ensures
        payload_of(href) == "{\"action\":\"get\",\"items\":{\"href\":"@ + (seq!['"'] + href + seq!['"'])
            + ",\"what\":1}}"@,
{
    lemma_plain_contents(href);
}

/// A text without quotes, backslashes and control characters is not escaped.
proof fn lemma_plain_contents(text: Seq<char>)
    requires
        forall|i: int|
            0 <= i < text.len() ==> (#[trigger] text[i]) > '\u{1f}' && text[i] != '"' && text[i]
                != '\\',
    ensures
        json_contents(text) == text,
    decreases text.len(),
{
    if text.len() > 0 {
        lemma_plain_contents(text.drop_last());
        assert(text =~= text.drop_last() + seq![text.last()]);
    }
}

/// What is read of an item is its members `href`, `time` and `size`, each for itself: a text and
/// two whole numbers.  What is missing, or something else, counts as not given.
pub proof fn law_items_are_read_by_member(
    value: serde_json::Value,
    member: serde_json::Value,
)
    ensures
        json_member(value, "href"@) == Some(member) ==> json_item(value).href == json_text(member),
        json_member(value, "time"@) == Some(member) ==> json_item(value).time == json_int(member),
        json_member(value, "size"@) == Some(member) ==> json_item(value).size == json_int(member),
        json_member(value, "href"@) is None ==> json_item(value).href is None,
        json_member(value, "time"@) is None ==> json_item(value).time is None,
        json_member(value, "size"@) is None ==> json_item(value).size is None,
{
}

/// The items of an answer are the elements of its member `items`, each and in their order; an
/// answer without such an array has none.
pub proof fn law_answers_hold_their_items(
    value: serde_json::Value,
    member: serde_json::Value,
    elements: Seq<serde_json::Value>,
    i: int,
)
    requires
        json_member(value, "items"@) == Some(member),
    ensures
        json_elements(member) == Some(elements) ==> {
            &&& json_items(value) matches Some(items) && items.len() == elements.len() && (0 <= i
                < elements.len() ==> items[i] == json_item(elements[i]))
        },
        json_elements(member) is None ==> json_items(value) is None,
{
}

} // verus!
