//! File paths as texts, with `/` as the separator.
//!
//! A path is a sequence of components between separators.  Repeated separators, and `.`
//! components other than a leading one, do not count.
//!
//! Windows takes `/` for a separator too; `from_native` brings a path of any platform into this
//! form.
use vstd::prelude::*;

use crate::cli::Platform;
use crate::text::{chars_of, slice_text, text_of};

verus! {

// ---------------------------------------------------------------------------
// Components
// ---------------------------------------------------------------------------

/// Where the components of a path begin: after the root, or after a leading `.`.
pub open spec fn body_start(p: Seq<char>) -> int {
    if p.len() > 0 && p[0] == '/' {
        1
    } else if p.len() > 0 && p[0] == '.' && (p.len() == 1 || p[1] == '/') {
        1
    } else {
        0
    }
}

/// Where the last component of a path begins, if its components begin at `start`.
pub open spec fn last_start(p: Seq<char>, start: int) -> int
    decreases p.len(),
{
    if p.len() <= start || p.len() == 0 || p.last() == '/' {
        p.len() as int
    } else {
        last_start(p.drop_last(), start)
    }
}

/// The end of what stands before the last component and its separator.
pub open spec fn before_last(p: Seq<char>, start: int) -> int {
    if last_start(p, start) > start {
        last_start(p, start) - 1
    } else {
        start
    }
}

/// The last component of a path.
pub open spec fn last_component(p: Seq<char>, start: int) -> Seq<char> {
    p.skip(last_start(p, start))
}

/// Whether a component counts for nothing.
pub open spec fn is_idle(component: Seq<char>) -> bool {
    component.len() == 0 || component == seq!['.']
}

/// A path without the idle components at its end.
pub open spec fn trim_idle(p: Seq<char>, start: int) -> Seq<char>
    decreases p.len(),
{
    if 0 <= start < p.len() && is_idle(last_component(p, start)) && before_last(p, start) < p.len()
        && before_last(p, start) >= 0 {
        trim_idle(p.take(before_last(p, start)), start)
    } else {
        p
    }
}

/// The last component of a path, if it is a name: not the root, `.` or `..`.
pub open spec fn file_name_of(p: Seq<char>) -> Option<Seq<char>> {
    let start = body_start(p);
    let t = trim_idle(p, start);
    if t.len() > start && last_component(t, start) != seq!['.', '.'] {
        Some(last_component(t, start))
    } else {
        None
    }
}

/// A path without its last component; a root and the empty path have no parent.
pub open spec fn parent_of(p: Seq<char>) -> Option<Seq<char>> {
    let start = body_start(p);
    let t = trim_idle(p, start);
    if t.len() > start {
        Some(trim_idle(t.take(before_last(t, start)), start))
    } else if start == 1 && p[0] != '/' {
        Some(Seq::<char>::empty())
    } else {
        None
    }
}

/// The relative path `rel` below `dir`; an absolute `rel` stands for itself.
pub open spec fn joined(dir: Seq<char>, rel: Seq<char>) -> Seq<char> {
    if rel.len() > 0 && rel[0] == '/' {
        rel
    } else if dir.len() > 0 && dir.last() != '/' {
        dir.push('/') + rel
    } else {
        dir + rel
    }
}

/// The position of the last dot of a name.
pub open spec fn last_dot(name: Seq<char>) -> Option<int>
    decreases name.len(),
{
    if name.len() == 0 {
        None
    } else if name.last() == '.' {
        Some(name.len() - 1)
    } else {
        last_dot(name.drop_last())
    }
}

/// The extension of a path: what follows the last dot of its file name, unless that dot is
/// the first character.
pub open spec fn extension_of(p: Seq<char>) -> Option<Seq<char>> {
    match file_name_of(p) {
        None => None,
        Some(name) => match last_dot(name) {
            None => None,
            Some(i) => if i == 0 {
                None
            } else {
                Some(name.skip(i + 1))
            },
        },
    }
}

proof fn lemma_last_start(p: Seq<char>, start: int)
    requires
        0 <= start <= p.len(),
    ensures
        start <= last_start(p, start) <= p.len(),
        start <= before_last(p, start) <= p.len(),
        p.len() > start && is_idle(last_component(p, start)) ==> before_last(p, start) < p.len(),
    decreases p.len(),
{
    if p.len() > start && p.last() != '/' {
        lemma_last_start(p.drop_last(), start);
    }
}

proof fn lemma_trim_idle(p: Seq<char>, start: int)
    requires
        0 <= start <= p.len(),
    ensures
        start <= trim_idle(p, start).len() <= p.len(),
        trim_idle(p, start) == p.take(trim_idle(p, start).len() as int),
    decreases p.len(),
{
    lemma_last_start(p, start);
    if start < p.len() && is_idle(last_component(p, start)) {
        let q = p.take(before_last(p, start));
        lemma_trim_idle(q, start);
        assert(trim_idle(q, start) =~= p.take(trim_idle(q, start).len() as int));
    } else {
        assert(p.take(p.len() as int) =~= p);
    }
}

fn find_body_start(p: &Vec<char>) -> (r: usize)
    ensures
        r == body_start(p@),
        r <= p@.len(),
{
    if p.len() > 0 && p[0] == '/' {
        1
    } else if p.len() > 0 && p[0] == '.' && (p.len() == 1 || p[1] == '/') {
        1
    } else {
        0
    }
}

/// Where the last component of `p[..end]` begins.
fn find_last_start(p: &Vec<char>, start: usize, end: usize) -> (r: usize)
    requires
        start <= end <= p@.len(),
    ensures
        r == last_start(p@.take(end as int), start as int),
        start <= r <= end,
{
    proof {
        lemma_last_start(p@.take(end as int), start as int);
    }
    let mut i: usize = end;
    while i > start && p[i - 1] != '/'
        invariant
            start <= i <= end <= p@.len(),
            last_start(p@.take(end as int), start as int) == last_start(
                p@.take(i as int),
                start as int,
            ),
        decreases i,
    {
        assert(p@.take(i as int).drop_last() =~= p@.take(i - 1));
        i -= 1;
    }
    i
}

/// The length of `p[..end]` without idle components at its end.
fn find_trimmed_end(p: &Vec<char>, start: usize, end: usize) -> (r: usize)
    requires
        start <= end <= p@.len(),
    ensures
        r == trim_idle(p@.take(end as int), start as int).len(),
        p@.take(r as int) == trim_idle(p@.take(end as int), start as int),
        start <= r <= end,
{
    let ghost whole: Seq<char> = p@.take(end as int);
    let mut e: usize = end;
    while e > start
        invariant
            start <= e <= end <= p@.len(),
            whole == p@.take(end as int),
            trim_idle(whole, start as int) == trim_idle(p@.take(e as int), start as int),
        decreases e,
    {
        let ghost now: Seq<char> = p@.take(e as int);
        let s: usize = find_last_start(p, start, e);
        proof {
            lemma_last_start(now, start as int);
            assert(last_component(now, start as int) =~= p@.subrange(s as int, e as int));
        }
        let idle: bool = s == e || (e - s == 1 && p[s] == '.');
        proof {
            if e - s == 1 && p@[s as int] == '.' {
                assert(p@.subrange(s as int, e as int) =~= seq!['.']);
            }
            if is_idle(p@.subrange(s as int, e as int)) && s != e {
                assert(p@.subrange(s as int, e as int)[0] == '.');
            }
        }
        if !idle {
            assert(trim_idle(now, start as int) == now);
            return e;
        }
        let next: usize = if s > start {
            s - 1
        } else {
            start
        };
        assert(now.take(next as int) =~= p@.take(next as int));
        e = next;
    }
    assert(trim_idle(p@.take(e as int), start as int) == p@.take(e as int));
    e
}

/// The file name of a path.
pub fn file_name(path: &str) -> (r: Option<String>)
    ensures
        match r {
            Some(name) => file_name_of(path@) == Some(name@),
            None => file_name_of(path@) is None,
        },
{
    let p: Vec<char> = chars_of(path);
    let start: usize = find_body_start(&p);
    assert(p@.take(p@.len() as int) =~= p@);
    let end: usize = find_trimmed_end(&p, start, p.len());
    let ghost t: Seq<char> = p@.take(end as int);
    if end <= start {
        return None;
    }
    let s: usize = find_last_start(&p, start, end);
    assert(last_component(t, start as int) =~= p@.subrange(s as int, end as int));
    if end - s == 2 && p[s] == '.' && p[s + 1] == '.' {
        assert(p@.subrange(s as int, end as int) =~= seq!['.', '.']);
        return None;
    }
    proof {
        if p@.subrange(s as int, end as int) == seq!['.', '.'] {
            assert(p@.subrange(s as int, end as int)[0] == '.');
            assert(p@.subrange(s as int, end as int)[1] == '.');
        }
    }
    Some(slice_text(&p, s, end))
}

/// The path without its last component.
pub fn parent(path: &str) -> (r: Option<String>)
    ensures
        match r {
            Some(dir) => parent_of(path@) == Some(dir@),
            None => parent_of(path@) is None,
        },
{
    let p: Vec<char> = chars_of(path);
    let start: usize = find_body_start(&p);
    assert(p@.take(p@.len() as int) =~= p@);
    let end: usize = find_trimmed_end(&p, start, p.len());
    let ghost t: Seq<char> = p@.take(end as int);
    if end > start {
        let s: usize = find_last_start(&p, start, end);
        let cut: usize = if s > start {
            s - 1
        } else {
            start
        };
        assert(t.take(cut as int) =~= p@.take(cut as int));
        let dir_end: usize = find_trimmed_end(&p, start, cut);
        assert(p@.subrange(0, dir_end as int) =~= p@.take(dir_end as int));
        Some(slice_text(&p, 0, dir_end))
    } else if start == 1 && p[0] != '/' {
        Some(String::new())
    } else {
        None
    }
}

/// The path `rel` below `dir`.
pub fn join(dir: &str, rel: &str) -> (r: String)
    ensures
        r@ == joined(dir@, rel@),
{
    let d: Vec<char> = chars_of(dir);
    let c: Vec<char> = chars_of(rel);
    if c.len() > 0 && c[0] == '/' {
        return rel.to_owned();
    }
    let mut path: String = dir.to_owned();
    if d.len() > 0 && d[d.len() - 1] != '/' {
        path.push('/');
    }
    path.append(rel);
    path
}

/// The extension of a path.
pub fn extension(path: &str) -> (r: Option<String>)
    ensures
        match r {
            Some(ext) => extension_of(path@) == Some(ext@),
            None => extension_of(path@) is None,
        },
{
    let name: Vec<char> = match file_name(path) {
        Some(name) => chars_of(name.as_str()),
        None => {
            return None;
        },
    };
    assert(name@.take(name@.len() as int) =~= name@);
    let mut i: usize = name.len();
    while i > 0
        invariant
            i <= name@.len(),
            last_dot(name@) == last_dot(name@.take(i as int)),
            file_name_of(path@) == Some(name@),
        decreases i,
    {
        assert(name@.take(i as int).drop_last() =~= name@.take(i - 1));
        if name[i - 1] == '.' {
            if i == 1 {
                return None;
            }
            assert(name@.skip(i as int) =~= name@.subrange(i as int, name@.len() as int));
            return Some(slice_text(&name, i, name.len()));
        }
        i -= 1;
    }
    None
}

/// A path with its file name replaced; a path without a file name gets `name` appended.
pub open spec fn with_file_name(p: Seq<char>, name: Seq<char>) -> Seq<char> {
    match file_name_of(p) {
        Some(_) => match parent_of(p) {
            Some(dir) => joined(dir, name),
            None => joined(p, name),
        },
        None => joined(p, name),
    }
}

/// The path with its file name replaced by `name`.
pub fn set_file_name(path: &str, name: &str) -> (r: String)
    ensures
        r@ == with_file_name(path@, name@),
{
    match file_name(path) {
        Some(_) => match parent(path) {
            Some(dir) => join(dir.as_str(), name),
            None => join(path, name),
        },
        None => join(path, name),
    }
}

// ---------------------------------------------------------------------------
// Platforms
// ---------------------------------------------------------------------------

/// A text with `/` in place of backslashes.
pub open spec fn without_backslashes(path: Seq<char>) -> Seq<char> {
    path.map_values(
        |c: char|
            if c == '\\' {
                '/'
            } else {
                c
            },
    )
}

/// Whether a path begins with a drive and goes on from the working directory of that drive, such
/// as `C:config.toml`.
pub open spec fn is_drive_relative(path: Seq<char>) -> bool {
    path.len() > 2 && ('A' <= path[0] <= 'Z' || 'a' <= path[0] <= 'z') && path[1] == ':' && path[2]
        != '/'
}

/// A path of a platform with `/` as the separator.  On Windows a backslash separates, too, and
/// the working directory of a drive is written out as a component, such as `C:./config.toml`.
pub open spec fn slashed(path: Seq<char>, platform: Platform) -> Seq<char> {
    if platform == Platform::Windows {
        let p = without_backslashes(path);
        if is_drive_relative(p) {
            p.take(2) + seq!['.', '/'] + p.skip(2)
        } else {
            p
        }
    } else {
        path
    }
}

/// A path of a platform with `/` as the separator.
pub fn from_native(path: &str, platform: Platform) -> (r: String)
    ensures
        r@ == slashed(path@, platform),
{
    let chars: Vec<char> = chars_of(path);
    match platform {
        Platform::Windows => {},
        _ => {
            return text_of(&chars);
        },
    }
    let mut p: Vec<char> = Vec::new();
    let mut i: usize = 0;
    while i < chars.len()
        invariant
            i <= chars@.len(),
            p@ == without_backslashes(chars@.take(i as int)),
        decreases chars.len() - i,
    {
        p.push(
            if chars[i] == '\\' {
                '/'
            } else {
                chars[i]
            },
        );
        i += 1;
        assert(p@ =~= without_backslashes(chars@.take(i as int)));
    }
    assert(chars@.take(i as int) =~= chars@);
    let on_drive: bool = p.len() > 2 && (('A' <= p[0] && p[0] <= 'Z') || ('a' <= p[0] && p[0]
        <= 'z')) && p[1] == ':' && p[2] != '/';
    if !on_drive {
        return text_of(&p);
    }
    let mut out: String = slice_text(&p, 0, 2);
    out.push('.');
    out.push('/');
    out.append(slice_text(&p, 2, p.len()).as_str());
    assert(out@ =~= p@.take(2) + seq!['.', '/'] + p@.skip(2));
    out
}

// ---------------------------------------------------------------------------
// Laws
// ---------------------------------------------------------------------------

/// Whether a text is a plain file name: not empty, without separators, not `.` or `..`.
pub open spec fn is_plain_name(name: Seq<char>) -> bool {
    &&& name.len() > 0
    &&& name != seq!['.']
    &&& name != seq!['.', '.']
    &&& forall|i: int| 0 <= i < name.len() ==> #[trigger] name[i] != '/'
}

/// Files in one directory: a plain name joined to a directory is the file name of the whole, and
/// two of them have the same parent.
pub proof fn law_names_share_their_directory(dir: Seq<char>, a: Seq<char>, b: Seq<char>)
    requires
        is_plain_name(a),
        is_plain_name(b),
    ensures
        file_name_of(joined(dir, a)) == Some(a),
        parent_of(joined(dir, a)) is Some,
        parent_of(joined(dir, a)) == parent_of(joined(dir, b)),
{
    lemma_joined_name(dir, a);
    lemma_joined_name(dir, b);
}

/// The empty path and the root, however often its separator is repeated, have no parent and no
/// file name.
pub proof fn law_root_has_no_parent(path: Seq<char>)
    requires
        forall|i: int| 0 <= i < path.len() ==> path[i] == '/',
    ensures
        parent_of(path) is None,
        file_name_of(path) is None,
{
    if path.len() > 0 {
        lemma_separators_are_idle(path);
    }
}

/// Separators after the root are idle.
proof fn lemma_separators_are_idle(path: Seq<char>)
    requires
        path.len() > 0,
        forall|i: int| 0 <= i < path.len() ==> path[i] == '/',
    ensures
        trim_idle(path, 1).len() == 1,
    decreases path.len(),
{
    if path.len() > 1 {
        lemma_separators_are_idle(path.take(path.len() - 1));
    }
}

/// The parent of a plain name in a directory depends on the directory alone.
proof fn lemma_joined_name(dir: Seq<char>, name: Seq<char>)
    requires
        is_plain_name(name),
    ensures
        file_name_of(joined(dir, name)) == Some(name),
        ({
            let base = joined(dir, Seq::empty());
            let start = body_start(base);
            parent_of(joined(dir, name)) == Some(
                trim_idle(
                    base.take(
                        if base.len() > start {
                            base.len() - 1
                        } else {
                            start
                        },
                    ),
                    start,
                ),
            )
        }),
{
    let base = joined(dir, Seq::empty());
    let p = joined(dir, name);
    let start = body_start(base);
    assert(p =~= base + name);
    assert(base.len() > 0 ==> base.last() == '/');
    if base.len() > 0 {
        assert(p[0] == base[0]);
        assert(base.len() > 1 ==> p[1] == base[1]);
    } else {
        assert(p =~= name);
        if name[0] == '.' && name.len() == 1 {
            assert(name =~= seq!['.']);
        }
    }
    assert(body_start(p) == start);
    assert(start <= base.len());
    assert forall|i: int| base.len() <= i < p.len() implies p[i] != '/' by {
        assert(p[i] == name[i - base.len()]);
    }
    assert(base.len() > start ==> p[base.len() - 1] == '/');
    lemma_last_start_at(p, start, base.len() as int);
    assert(last_component(p, start) =~= name);
    assert(trim_idle(p, start) == p);
    assert(p.take(before_last(p, start)) =~= base.take(before_last(p, start)));
}

/// The last component holds no separator, and stands right after one or at the start.
proof fn lemma_last_component(p: Seq<char>, start: int)
    requires
        0 <= start <= p.len(),
    ensures
        start <= last_start(p, start) <= p.len(),
        forall|i: int| last_start(p, start) <= i < p.len() ==> p[i] != '/',
        last_start(p, start) > start ==> p[last_start(p, start) - 1] == '/',
    decreases p.len(),
{
    if p.len() > start && p.last() != '/' {
        let shorter = p.drop_last();
        lemma_last_component(shorter, start);
        let k = last_start(p, start);
        assert(k == last_start(shorter, start));
        assert forall|i: int| k <= i < p.len() implies p[i] != '/' by {
            if i < shorter.len() {
                assert(shorter[i] == p[i]);
            }
        }
        if k > start {
            assert(shorter[k - 1] == p[k - 1]);
        }
    }
}

/// The last component is found by what stands around it.
proof fn lemma_last_start_at(p: Seq<char>, start: int, k: int)
    requires
        0 <= start <= k <= p.len(),
        forall|i: int| k <= i < p.len() ==> p[i] != '/',
        k > start ==> p[k - 1] == '/',
    ensures
        last_start(p, start) == k,
    decreases p.len(),
{
    if p.len() > k {
        lemma_last_start_at(p.drop_last(), start, k);
    }
}

/// A trimmed path ends with a component that counts, or has none; trimming it again changes
/// nothing.
proof fn lemma_trimmed_path(p: Seq<char>, start: int)
    requires
        0 <= start <= p.len(),
    ensures
        start <= trim_idle(p, start).len() <= p.len(),
        trim_idle(p, start) == p.take(trim_idle(p, start).len() as int),
        trim_idle(p, start).len() > start ==> !is_idle(
            last_component(trim_idle(p, start), start),
        ),
        trim_idle(trim_idle(p, start), start) == trim_idle(p, start),
    decreases p.len(),
{
    lemma_trim_idle(p, start);
    lemma_last_start(p, start);
    if start < p.len() && is_idle(last_component(p, start)) {
        lemma_trimmed_path(p.take(before_last(p, start)), start);
    }
}

/// A file name holds no separator.
pub proof fn lemma_file_name(p: Seq<char>)
    ensures
        file_name_of(p) matches Some(name) ==> forall|i: int|
            0 <= i < name.len() ==> #[trigger] name[i] != '/',
{
    let start = body_start(p);
    let t = trim_idle(p, start);
    lemma_trimmed_path(p, start);
    lemma_last_component(t, start);
}

/// The files of a directory are siblings: a path with its file name replaced has the same
/// parent, and the new name as its file name.
pub proof fn law_siblings_share_their_parent(p: Seq<char>, name: Seq<char>)
    requires
        file_name_of(p) is Some,
        name.len() > 0,
        name != seq!['.'],
        name != seq!['.', '.'],
        forall|i: int| 0 <= i < name.len() ==> #[trigger] name[i] != '/',
    ensures
        parent_of(p) is Some,
        with_file_name(p, name) == joined(parent_of(p)->0, name),
        file_name_of(with_file_name(p, name)) == Some(name),
        parent_of(with_file_name(p, name)) == parent_of(p),
{
    let start = body_start(p);
    let t = trim_idle(p, start);
    lemma_trimmed_path(p, start);
    lemma_last_start(t, start);
    lemma_last_component(t, start);
    let cut = before_last(t, start);
    let q = t.take(cut);
    let d = trim_idle(q, start);
    lemma_trimmed_path(q, start);
    assert(parent_of(p) == Some(d));
    let new = joined(d, name);
    assert(d =~= p.take(d.len() as int));
    // Where the new name stands in the new path.
    let sep = d.len() > 0 && d.last() != '/';
    let k: int = if sep {
        d.len() as int + 1
    } else {
        d.len() as int
    };
    assert(new.len() == k + name.len());
    assert(new.skip(k) =~= name);
    assert(new.take(d.len() as int) =~= d);
    assert(body_start(new) == start) by {
        if d.len() >= 2 {
            assert(new[0] == p[0] && new[1] == p[1]);
        } else if d.len() == 1 {
            assert(new[0] == p[0]);
            assert(d[0] == p[0]);
            if start == 0 {
                // The only component of the directory is not a dot: it would not count.
                assert(last_start(d, 0) == 0) by {
                    lemma_last_start_at(d, 0, 0);
                }
                assert(d.skip(0) =~= d);
                if d[0] == '.' {
                    assert(d =~= seq!['.']);
                    assert(is_idle(last_component(d, 0)));
                }
            } else if p[0] == '.' {
                assert(sep);
                assert(new[1] == '/');
            }
        } else {
            assert(start == 0);
            assert(new =~= name);
            if name.len() == 1 && name[0] == '.' {
                assert(name =~= seq!['.']);
            }
        }
    }
    assert(last_start(new, start) == k) by {
        assert forall|i: int| k <= i < new.len() implies new[i] != '/' by {
            assert(new[i] == name[i - k]);
        }
        if k > start {
            if sep {
                assert(new[k - 1] == '/');
            } else {
                assert(d.len() > 0);
                assert(new[k - 1] == d.last());
            }
        }
        lemma_last_start_at(new, start, k);
    }
    assert(last_component(new, start) == name);
    if name.len() == 1 {
        assert(is_idle(name) ==> name =~= seq!['.']);
    }
    assert(trim_idle(new, start) == new);
    // What stands before the new name is the directory, up to idle components.
    let b = before_last(new, start);
    if sep {
        assert(b == d.len());
        assert(new.take(b) =~= d);
    } else if d.len() > start {
        // The directory ends with a separator only if nothing follows the root.
        lemma_last_start(d, start);
        lemma_last_component(d, start);
        assert(last_component(d, start).len() == 0) by {
            lemma_last_start_at(d, start, d.len() as int);
        }
        assert(false);
    } else {
        assert(b == start);
        assert(new.take(b) =~= d);
    }
    assert(trim_idle(new.take(b), start) == d);
}

/// The last dot of a name stands before the part of it that has none.
proof fn lemma_last_dot(stem: Seq<char>, ext: Seq<char>)
    requires
        forall|i: int| 0 <= i < ext.len() ==> #[trigger] ext[i] != '.',
    ensures
        last_dot(stem + seq!['.'] + ext) == Some(stem.len() as int),
    decreases ext.len(),
{
    let name = stem + seq!['.'] + ext;
    if ext.len() > 0 {
        assert(name.last() == ext[ext.len() - 1]);
        assert(name.drop_last() =~= stem + seq!['.'] + ext.drop_last());
        lemma_last_dot(stem, ext.drop_last());
    }
}

proof fn lemma_no_dot(name: Seq<char>)
    requires
        forall|i: int| 0 <= i < name.len() ==> #[trigger] name[i] != '.',
    ensures
        last_dot(name) is None,
    decreases name.len(),
{
    if name.len() > 0 {
        assert(name.last() == name[name.len() - 1]);
        lemma_no_dot(name.drop_last());
    }
}

/// The extension of a file is what follows the last dot of its name, whatever directory it lies
/// in and however many dots stand before.
pub proof fn law_extensions_follow_the_last_dot(dir: Seq<char>, stem: Seq<char>, ext: Seq<char>)
    requires
        is_plain_name(stem + seq!['.'] + ext),
        stem.len() > 0,
        forall|i: int| 0 <= i < ext.len() ==> #[trigger] ext[i] != '.',
    ensures
        extension_of(dir + seq!['/'] + stem + seq!['.'] + ext) == Some(ext),
{
    let name = stem + seq!['.'] + ext;
    let base = dir + seq!['/'];
    law_names_share_their_directory(base, name, name);
    assert(joined(base, name) =~= base + name);
    assert(base + name =~= dir + seq!['/'] + stem + seq!['.'] + ext);
    lemma_last_dot(stem, ext);
    assert(name.skip((stem.len() + 1) as int) =~= ext);
}

/// A file whose name has no dot, or none but the first character, has no extension.
pub proof fn law_names_without_inner_dot_have_no_extension(dir: Seq<char>, name: Seq<char>)
    requires
        is_plain_name(name),
        forall|i: int| 0 < i < name.len() ==> #[trigger] name[i] != '.',
    ensures
        extension_of(dir + seq!['/'] + name) is None,
{
    let base = dir + seq!['/'];
    law_names_share_their_directory(base, name, name);
    assert(joined(base, name) =~= base + name);
    if name[0] == '.' {
        let ext = name.skip(1);
        lemma_last_dot(Seq::<char>::empty(), ext);
        assert(Seq::<char>::empty() + seq!['.'] + ext =~= name);
    } else {
        lemma_no_dot(name);
    }
}

/// A path that begins at the root replaces the directory it is joined to; another one is put
/// behind it, with one separator between them if the directory does not end with one.
pub proof fn law_joining_paths(dir: Seq<char>, rel: Seq<char>)
    requires
        dir.len() > 0,
        dir.last() != '/',
        rel.len() == 0 || rel[0] != '/',
    ensures
        joined(dir, rel) == dir + seq!['/'] + rel,
        joined(dir + seq!['/'], rel) == dir + seq!['/'] + rel,
        joined(Seq::<char>::empty(), rel) == rel,
        joined(dir, seq!['/'] + rel) == seq!['/'] + rel,
{
    assert(dir.push('/') + rel =~= dir + seq!['/'] + rel);
    assert(Seq::<char>::empty() + rel =~= rel);
}

/// The parent of a file is the directory that its name is joined to.
pub proof fn law_parents_hold_their_files(parent: Seq<char>, dir: Seq<char>, name: Seq<char>)
    requires
        is_plain_name(dir),
        is_plain_name(name),
    ensures
        parent_of(parent + seq!['/'] + dir + seq!['/'] + name) == Some(parent + seq!['/'] + dir),
        file_name_of(parent + seq!['/'] + dir + seq!['/'] + name) == Some(name),
{
    let base = parent + seq!['/'] + dir;
    let whole = base + seq!['/'] + name;
    assert(whole =~= parent + seq!['/'] + dir + seq!['/'] + name);
    assert(base.last() == dir[dir.len() - 1]);
    law_joining_paths(base, name);
    lemma_joined_name(base, name);
    let held = joined(base, Seq::empty());
    assert(held =~= base + seq!['/']);
    assert(held.take(held.len() - 1) =~= base);
    let start = body_start(held);
    let k = parent.len() + 1;
    assert forall|i: int| k <= i < base.len() implies base[i] != '/' by {
        assert(base[i] == dir[i - k]);
    }
    lemma_last_start_at(base, start, k as int);
    assert(last_component(base, start) =~= dir);
}

/// Slashes behind a path do not matter, nor does a dot that stands for the directory itself.
pub proof fn law_trailing_slashes_do_not_matter(p: Seq<char>)
    requires
        p.len() > 0,
    ensures
        file_name_of(p + seq!['/']) == file_name_of(p),
        parent_of(p + seq!['/']) == parent_of(p),
        file_name_of(p + seq!['/', '.']) == file_name_of(p),
        parent_of(p + seq!['/', '.']) == parent_of(p),
{
    let start = body_start(p);
    let q = p + seq!['/'];
    assert(q[0] == p[0]);
    if p.len() > 1 {
        assert(q[1] == p[1]);
    } else {
        assert(q[1] == '/');
    }
    assert(body_start(q) == start);
    lemma_last_start_at(q, start, q.len() as int);
    assert(last_component(q, start) =~= Seq::<char>::empty());
    assert(q.take(p.len() as int) =~= p);
    assert(trim_idle(q, start) == trim_idle(p, start));
    let d = p + seq!['/', '.'];
    assert(d[0] == p[0]);
    if p.len() > 1 {
        assert(d[1] == p[1]);
    } else {
        assert(d[1] == '/');
    }
    assert(body_start(d) == start);
    assert(d[p.len() as int] == '/');
    assert(d[p.len() as int + 1] == '.');
    lemma_last_start_at(d, start, p.len() as int + 1);
    assert(last_component(d, start) =~= seq!['.']);
    assert(d.take(p.len() as int) =~= p);
    assert(trim_idle(d, start) == trim_idle(p, start));
}

/// A path that ends with the step to a parent directory has no file name.
pub proof fn law_parent_steps_are_no_names(dir: Seq<char>)
    ensures
        file_name_of(dir + seq!['/', '.', '.']) is None,
        file_name_of(seq!['.', '.']) is None,
{
    let p = dir + seq!['/', '.', '.'];
    let start = body_start(p);
    let k = dir.len() + 1;
    assert(p[dir.len() as int] == '/');
    lemma_last_start_at(p, start, k as int);
    assert(last_component(p, start) =~= seq!['.', '.']);
    let q = seq!['.', '.'];
    assert(body_start(q) == 0);
    lemma_last_start_at(q, 0, 0);
    assert(last_component(q, 0) =~= q);
}

/// On Windows a backslash is a separator: every one becomes a slash and all else of the path
/// stays, but that a path below the present directory of a drive says so.  Elsewhere a path stays
/// as it is.
pub proof fn law_backslashes_become_slashes(path: Seq<char>, platform: Platform, i: int)
    requires
        0 <= i < path.len(),
        path.len() < 2 || path[1] != ':',
    ensures
        platform != Platform::Windows ==> slashed(path, platform) == path,
        platform == Platform::Windows ==> slashed(path, platform).len() == path.len(),
        platform == Platform::Windows ==> slashed(path, platform)[i] == (if path[i] == '\\' {
            '/'
        } else {
            path[i]
        }),
{
    if path.len() >= 2 {
        assert(without_backslashes(path)[1] == path[1] || path[1] == '\\');
    }
}

/// On Windows a path on a drive keeps its drive.  With a separator behind the colon it is
/// complete; without one it lies below the present directory there.
pub proof fn law_drives_are_kept(letter: char, rest: Seq<char>)
    requires
        'A' <= letter <= 'Z' || 'a' <= letter <= 'z',
        rest.len() > 0,
        forall|i: int| 0 <= i < rest.len() ==> #[trigger] rest[i] != '\\',
    ensures
        rest[0] == '/' ==> slashed(seq![letter, ':'] + rest, Platform::Windows) == seq![letter, ':']
            + rest,
        rest[0] != '/' ==> slashed(seq![letter, ':'] + rest, Platform::Windows) == seq![
            letter,
            ':',
            '.',
            '/',
        ] + rest,
{
    let path = seq![letter, ':'] + rest;
    assert(without_backslashes(path) =~= path) by {
        assert forall|i: int| 0 <= i < path.len() implies path[i] != '\\' by {
            if i >= 2 {
                assert(path[i] == rest[i - 2]);
            }
        }
    }
    assert(path.take(2) =~= seq![letter, ':']);
    assert(path.skip(2) =~= rest);
    if rest[0] != '/' {
        assert(slashed(path, Platform::Windows) =~= seq![letter, ':', '.', '/'] + rest);
    }
}

} // verus!
