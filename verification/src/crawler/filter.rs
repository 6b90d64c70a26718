//! Which folders and files are wanted.
use vstd::prelude::*;

use crate::outside::{glob_accepts, glob_matches};
use crate::outside::{glob_match, glob_valid};
use crate::paths::{extension, extension_of};
use crate::text::{
    chars_of, contains_text, eq_ignore_ascii_case, lemma_find_char, occurs_in, position_of,
    same_ignoring_case, split, split_chars, text_of, texts, trim_end_chars, trim_end_of,
    trim_start_chars, trim_start_of,
};

verus! {

// ---------------------------------------------------------------------------
// Exclude patterns
// ---------------------------------------------------------------------------

/// A server path as patterns see it: without leading and trailing slashes.
pub open spec fn relative_path(path: Seq<char>) -> Seq<char> {
    trim_end_of(trim_start_of(path, '/'), '/')
}

/// A pattern as it is matched: without leading slashes.
pub open spec fn relative_pattern(pattern: Seq<char>) -> Seq<char> {
    trim_start_of(pattern, '/')
}

/// Whether a text contains the character `c`.
pub open spec fn has_char(s: Seq<char>, c: char) -> bool {
    exists|i: int| 0 <= i < s.len() && s[i] == c
}

/// The texts against which a pattern is matched: the whole path for a pattern with a slash,
/// else each segment of the path.
pub open spec fn pattern_targets(rel: Seq<char>, pattern: Seq<char>) -> Seq<Seq<char>> {
    if has_char(pattern, '/') {
        seq![rel]
    } else {
        split(rel, '/')
    }
}

/// Whether one of the targets is hit.
pub open spec fn any_hit(hits: Seq<bool>) -> bool {
    exists|i: int| 0 <= i < hits.len() && hits[i]
}

/// What a pattern decides, given whether it is valid and which of its targets it matches: a
/// valid pattern excludes a path if it matches one of the targets, any other text if it
/// stands in the path.
pub open spec fn verdict(rel: Seq<char>, pattern: Seq<char>, valid: bool, hits: Seq<bool>) -> bool {
    if valid {
        any_hit(hits)
    } else {
        occurs_in(rel, pattern)
    }
}

/// Whether one pattern excludes a path.
pub open spec fn pattern_excludes(path: Seq<char>, pattern: Seq<char>) -> bool {
    let rel = relative_path(path);
    let pat = relative_pattern(pattern);
    verdict(
        rel,
        pat,
        glob_valid(pat),
        pattern_targets(rel, pat).map_values(|target: Seq<char>| glob_match(pat, target)),
    )
}

/// Whether some pattern excludes a path.
pub open spec fn excluded(path: Seq<char>, patterns: Seq<Seq<char>>) -> bool {
    exists|i: int| 0 <= i < patterns.len() && pattern_excludes(path, #[trigger] patterns[i])
}

/// The texts against which `pattern` is matched, for the trimmed path `rel`.
pub fn targets_of(rel: &str, pattern: &str) -> (r: Vec<String>)
    ensures
        texts(r@) == pattern_targets(rel@, pattern@),
{
    let mut out: Vec<String> = Vec::new();
    proof {
        lemma_find_char(pattern@, '/', 0);
    }
    let pat: Vec<char> = chars_of(pattern);
    match position_of(&pat, '/', 0) {
        Some(_) => {
            out.push(rel.to_owned());
            assert(texts(out@) =~= seq![rel@]);
        },
        None => {
            let pieces: Vec<Vec<char>> = split_chars(&chars_of(rel), '/');
            let mut i: usize = 0;
            while i < pieces.len()
                invariant
                    i <= pieces@.len(),
                    out@.len() == i,
                    pieces@.len() == split(rel@, '/').len(),
                    forall|k: int|
                        0 <= k < pieces@.len() ==> (#[trigger] pieces@[k])@ == split(rel@, '/')[k],
                    forall|k: int| 0 <= k < i ==> (#[trigger] out@[k])@ == split(rel@, '/')[k],
                decreases pieces.len() - i,
            {
                out.push(text_of(&pieces[i]));
                i += 1;
            }
            assert(texts(out@) =~= split(rel@, '/'));
        },
    }
    out
}

/// Decides by one pattern, given whether it is valid and which of its targets it matches.
pub fn decide_exclusion(rel: &str, pattern: &str, valid: bool, hits: &Vec<bool>) -> (r: bool)
    ensures
        r == verdict(rel@, pattern@, valid, hits@),
{
    if !valid {
        return contains_text(&chars_of(rel), &chars_of(pattern));
    }
    let mut i: usize = 0;
    while i < hits.len()
        invariant
            valid,
            i <= hits@.len(),
            forall|k: int| 0 <= k < i ==> !hits@[k],
        decreases hits.len() - i,
    {
        if hits[i] {
            return true;
        }
        i += 1;
    }
    false
}

/// Whether `pattern` excludes the server path `rel_path`.
fn excluded_by(rel_path: &str, pattern: &str) -> (r: bool)
    ensures
        r == pattern_excludes(rel_path@, pattern@),
{
    let rel: String = text_of(&trim_end_chars(&trim_start_chars(&chars_of(rel_path), '/'), '/'));
    let pat: String = text_of(&trim_start_chars(&chars_of(pattern), '/'));
    let valid: bool = glob_accepts(pat.as_str());
    let targets: Vec<String> = targets_of(rel.as_str(), pat.as_str());
    let mut hits: Vec<bool> = Vec::new();
    let mut i: usize = 0;
    while i < targets.len()
        invariant
            i <= targets@.len(),
            hits@.len() == i,
            forall|k: int| 0 <= k < i ==> hits@[k] == glob_match(pat@, (#[trigger] targets@[k])@),
        decreases targets.len() - i,
    {
        hits.push(glob_matches(pat.as_str(), targets[i].as_str()));
        i += 1;
    }
    proof {
        let expected = pattern_targets(rel@, pat@).map_values(
            |target: Seq<char>| glob_match(pat@, target),
        );
        assert(texts(targets@).len() == targets@.len());
        assert forall|k: int| 0 <= k < hits@.len() implies hits@[k] == expected[k] by {
            assert(texts(targets@)[k] == targets@[k]@);
        }
        assert(hits@ =~= expected);
    }
    decide_exclusion(rel.as_str(), pat.as_str(), valid, &hits)
}

/// Whether a server-relative path matches any exclude pattern.
///
/// Patterns with a slash are matched against the whole path (such as `Manga/**`), others
/// against each path segment (such as `Drafts` or `*.zip`).  A text that is no valid pattern
/// excludes the paths that contain it.
pub fn is_excluded(rel_path: &str, patterns: &Vec<String>) -> (r: bool)
    ensures
        r == excluded(rel_path@, texts(patterns@)),
{
    let mut i: usize = 0;
    while i < patterns.len()
        invariant
            i <= patterns@.len(),
            forall|k: int| 0 <= k < i ==> !pattern_excludes(rel_path@, #[trigger] texts(patterns@)[k]),
        decreases patterns.len() - i,
    {
        if excluded_by(rel_path, patterns[i].as_str()) {
            assert(texts(patterns@)[i as int] == patterns@[i as int]@);
            return true;
        }
        assert(texts(patterns@)[i as int] == patterns@[i as int]@);
        i += 1;
    }
    false
}

// ---------------------------------------------------------------------------
// Extensions
// ---------------------------------------------------------------------------

/// Whether the extension of a URL's last segment is among the allowed ones, in any case; a
/// URL without an extension has the empty one.
pub open spec fn extension_is_allowed(url: Seq<char>, allowed: Seq<Seq<char>>) -> bool {
    let ext = match extension_of(url) {
        Some(ext) => ext,
        None => Seq::<char>::empty(),
    };
    exists|i: int| 0 <= i < allowed.len() && same_ignoring_case(#[trigger] allowed[i], ext)
}

/// Whether a file at `url` is wanted by its extension: no allowed extensions means all.
pub open spec fn extension_wanted(url: Seq<char>, allowed: Seq<Seq<char>>) -> bool {
    allowed.len() == 0 || extension_is_allowed(url, allowed)
}

/// Whether a remote URL's file extension is in the allowed list, in any case.
pub fn extension_allowed(remote_url: &str, allowed_extensions: &Vec<String>) -> (r: bool)
    ensures
        r == extension_is_allowed(remote_url@, texts(allowed_extensions@)),
{
    let ext: String = match extension(remote_url) {
        Some(ext) => ext,
        None => String::new(),
    };
    let ghost wanted: Seq<char> = ext@;
    let mut i: usize = 0;
    while i < allowed_extensions.len()
        invariant
            i <= allowed_extensions@.len(),
            wanted == ext@,
            wanted == (match extension_of(remote_url@) {
                Some(e) => e,
                None => Seq::<char>::empty(),
            }),
            forall|k: int|
                0 <= k < i ==> !same_ignoring_case(#[trigger] texts(allowed_extensions@)[k], wanted),
        decreases allowed_extensions.len() - i,
    {
        assert(texts(allowed_extensions@)[i as int] == allowed_extensions@[i as int]@);
        if eq_ignore_ascii_case(allowed_extensions[i].as_str(), ext.as_str()) {
            return true;
        }
        i += 1;
    }
    false
}

/// Whether a file is wanted by its extension; an empty list allows all.
pub fn wants_extension(remote_url: &str, allowed_extensions: &Vec<String>) -> (r: bool)
    ensures
        r == extension_wanted(remote_url@, texts(allowed_extensions@)),
{
    allowed_extensions.len() == 0 || extension_allowed(remote_url, allowed_extensions)
}

/// Whether `list` contains the text `item`.
pub fn contains_string(list: &Vec<String>, item: &str) -> (r: bool)
    ensures
        r == texts(list@).contains(item@),
{
    let wanted: String = item.to_owned();
    let mut i: usize = 0;
    while i < list.len()
        invariant
            i <= list@.len(),
            wanted@ == item@,
            forall|k: int| 0 <= k < i ==> texts(list@)[k] != item@,
        decreases list.len() - i,
    {
        assert(texts(list@)[i as int] == list@[i as int]@);
        if list[i] == wanted {
            return true;
        }
        i += 1;
    }
    false
}

} // verus!
