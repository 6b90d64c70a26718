//! Ordering rows.
use vstd::prelude::*;

use crate::text::chars_of;

verus! {

// ---------------------------------------------------------------------------
// Texts
// ---------------------------------------------------------------------------

/// Whether one text comes before another: character by character, by code point, a prefix
/// first.
pub open spec fn text_before(a: Seq<char>, b: Seq<char>) -> bool
    decreases a.len(),
{
    if b.len() == 0 {
        false
    } else if a.len() == 0 {
        true
    } else if a[0] != b[0] {
        a[0] < b[0]
    } else {
        text_before(a.skip(1), b.skip(1))
    }
}

/// The order of texts is a strict total order.
pub proof fn lemma_text_order(a: Seq<char>, b: Seq<char>, c: Seq<char>)
    ensures
        !text_before(a, a),
        text_before(a, b) || text_before(b, a) || a == b,
        text_before(a, b) && text_before(b, c) ==> text_before(a, c),
    decreases a.len() + b.len() + c.len(),
{
    if a.len() > 0 {
        lemma_text_order(a.skip(1), if b.len() > 0 { b.skip(1) } else { b }, if c.len() > 0 {
            c.skip(1)
        } else {
            c
        });
        if b.len() > 0 && a[0] == b[0] && a.skip(1) == b.skip(1) {
            assert(a =~= seq![a[0]] + a.skip(1));
            assert(b =~= seq![b[0]] + b.skip(1));
        }
    } else if b.len() == 0 {
        assert(a =~= b);
    }
}

/// Whether the text `a` comes before the text `b`.
pub fn comes_before(a: &str, b: &str) -> (r: bool)
    ensures
        r == text_before(a@, b@),
{
    let x: Vec<char> = chars_of(a);
    let y: Vec<char> = chars_of(b);
    let mut i: usize = 0;
    assert(x@.skip(0) =~= x@);
    assert(y@.skip(0) =~= y@);
    while i < x.len() && i < y.len()
        invariant
            i <= x@.len(),
            i <= y@.len(),
            text_before(x@, y@) == text_before(x@.skip(i as int), y@.skip(i as int)),
            x@ == a@,
            y@ == b@,
        decreases x.len() - i,
    {
        let ghost s: Seq<char> = x@.skip(i as int);
        let ghost t: Seq<char> = y@.skip(i as int);
        assert(s[0] == x@[i as int] && t[0] == y@[i as int]);
        if x[i] != y[i] {
            return x[i] < y[i];
        }
        assert(s.skip(1) =~= x@.skip(i + 1));
        assert(t.skip(1) =~= y@.skip(i + 1));
        i += 1;
    }
    i < y.len()
}

// ---------------------------------------------------------------------------
// Arrangements
// ---------------------------------------------------------------------------

/// Whether `r` holds the rows of `rows`, each once, in the order `before`.
pub open spec fn arranges<V>(r: Seq<V>, rows: Seq<V>, before: spec_fn(V, V) -> bool) -> bool {
    &&& forall|i: int, j: int| 0 <= i < j < r.len() ==> before(#[trigger] r[i], #[trigger] r[j])
    &&& forall|i: int| 0 <= i < r.len() ==> rows.contains(#[trigger] r[i])
    &&& forall|i: int| 0 <= i < rows.len() ==> r.contains(#[trigger] rows[i])
}

/// Whether `r` holds the first `limit` of `rows` in the order `before`.
pub open spec fn arranges_first<V>(
    r: Seq<V>,
    rows: Seq<V>,
    before: spec_fn(V, V) -> bool,
    limit: nat,
) -> bool {
    exists|all: Seq<V>| #[trigger]
        arranges(all, rows, before) && r == first_of(all, limit)
}

/// The first `limit` elements.
pub open spec fn first_of<V>(s: Seq<V>, limit: nat) -> Seq<V> {
    if limit < s.len() {
        s.take(limit as int)
    } else {
        s
    }
}

/// An order in which no row comes before itself, and of two rows that come before one another
/// neither does.
pub open spec fn is_strict<V>(before: spec_fn(V, V) -> bool) -> bool {
    forall|a: V, b: V| #[trigger] before(a, b) ==> !before(b, a)
}

/// In a strict order there is only one arrangement of given rows.
pub proof fn lemma_arrangement_unique<V>(
    r: Seq<V>,
    s: Seq<V>,
    rows: Seq<V>,
    before: spec_fn(V, V) -> bool,
)
    requires
        is_strict(before),
        arranges(r, rows, before),
        arranges(s, rows, before),
    ensures
        r == s,
    decreases r.len(),
{
    lemma_same_rows(r, s, rows, before);
}

proof fn lemma_same_rows<V>(
    r: Seq<V>,
    s: Seq<V>,
    rows: Seq<V>,
    before: spec_fn(V, V) -> bool,
)
    requires
        is_strict(before),
        arranges(r, rows, before),
        arranges(s, rows, before),
    ensures
        r == s,
{
    // Each row of one stands in the other, and the positions cannot cross.
    assert forall|i: int| 0 <= i < r.len() implies s.contains(#[trigger] r[i]) by {
        let k = choose|k: int| 0 <= k < rows.len() && rows[k] == r[i];
        assert(s.contains(rows[k]));
    }
    assert forall|i: int| 0 <= i < s.len() implies r.contains(#[trigger] s[i]) by {
        let k = choose|k: int| 0 <= k < rows.len() && rows[k] == s[i];
        assert(r.contains(rows[k]));
    }
    lemma_prefixes_agree(r, s, before, r.len() as int);
    lemma_prefixes_agree(s, r, before, s.len() as int);
    assert(r =~= s);
}

/// Two ordered sequences with the same elements agree on every prefix.
proof fn lemma_prefixes_agree<V>(r: Seq<V>, s: Seq<V>, before: spec_fn(V, V) -> bool, n: int)
    requires
        is_strict(before),
        0 <= n <= r.len(),
        forall|i: int, j: int| 0 <= i < j < r.len() ==> before(#[trigger] r[i], #[trigger] r[j]),
        forall|i: int, j: int| 0 <= i < j < s.len() ==> before(#[trigger] s[i], #[trigger] s[j]),
        forall|i: int| 0 <= i < r.len() ==> s.contains(#[trigger] r[i]),
        forall|i: int| 0 <= i < s.len() ==> r.contains(#[trigger] s[i]),
    ensures
        n <= s.len(),
        forall|i: int| 0 <= i < n ==> r[i] == s[i],
    decreases n,
{
    if n > 0 {
        let m = n - 1;
        lemma_prefixes_agree(r, s, before, m);
        // The element r[m] stands in s, at or after position m.
        assert(s.contains(r[m]));
        let k = choose|k: int| 0 <= k < s.len() && s[k] == r[m];
        if k < m {
            assert(r[k] == s[k]);
            assert(before(r[k], r[m]));
            assert(false);
        }
        if k > m {
            // Then s[m] comes before r[m], so it stands in r before position m: a repetition.
            assert(before(s[m], s[k]));
            assert(r.contains(s[m]));
            let l = choose|l: int| 0 <= l < r.len() && r[l] == s[m];
            if l > m {
                assert(before(r[m], r[l]));
                assert(false);
            } else if l == m {
                assert(false);
            } else {
                assert(r[l] == s[l]);
                assert(before(s[l], s[m]));
                assert(false);
            }
        }
    }
}

/// Rows that can be arranged.
pub trait Ranked: View + Sized {
    /// Whether a row comes before another.
    spec fn ranks_before(a: Self::V, b: Self::V) -> bool;

    /// A strict order that is total up to rows of equal rank.
    proof fn lemma_rank_order(a: Self::V, b: Self::V, c: Self::V)
        ensures
            !Self::ranks_before(a, a),
            Self::ranks_before(a, b) ==> !Self::ranks_before(b, a),
            Self::ranks_before(a, b) && Self::ranks_before(b, c) ==> Self::ranks_before(a, c),
    ;

    /// Whether this row comes before another.
    fn is_before(&self, other: &Self) -> (r: bool)
        ensures
            r == Self::ranks_before(self@, other@),
    ;
}

/// The order of a kind of rows, as a function.
pub open spec fn rank_order<T: Ranked>() -> spec_fn(T::V, T::V) -> bool {
    |a: T::V, b: T::V| T::ranks_before(a, b)
}

/// The contents of a sequence of rows.
pub open spec fn views<T: View>(rows: Seq<T>) -> Seq<T::V> {
    rows.map_values(|row: T| row@)
}

/// Whether any two rows differ in rank.
pub open spec fn all_ranked<T: Ranked>(rows: Seq<T::V>) -> bool {
    forall|i: int, j: int|
        0 <= i < rows.len() && 0 <= j < rows.len() && i != j ==> T::ranks_before(
            #[trigger] rows[i],
            #[trigger] rows[j],
        ) || T::ranks_before(rows[j], rows[i])
}

/// Where `row` belongs in the ordered `rows`.
fn find_place<T: Ranked>(rows: &Vec<T>, row: &T) -> (r: usize)
    requires
        forall|i: int, j: int|
            0 <= i < j < rows@.len() ==> T::ranks_before(
                (#[trigger] rows@[i])@,
                (#[trigger] rows@[j])@,
            ),
    ensures
        r <= rows@.len(),
        forall|i: int| 0 <= i < r ==> T::ranks_before((#[trigger] rows@[i])@, row@),
        forall|i: int| r <= i < rows@.len() ==> !T::ranks_before((#[trigger] rows@[i])@, row@),
{
    let mut low: usize = 0;
    let mut high: usize = rows.len();
    while low < high
        invariant
            low <= high <= rows@.len(),
            forall|i: int, j: int|
                0 <= i < j < rows@.len() ==> T::ranks_before(
                    (#[trigger] rows@[i])@,
                    (#[trigger] rows@[j])@,
                ),
            forall|i: int| 0 <= i < low ==> T::ranks_before((#[trigger] rows@[i])@, row@),
            forall|i: int|
                high <= i < rows@.len() ==> !T::ranks_before((#[trigger] rows@[i])@, row@),
        decreases high - low,
    {
        let mid: usize = low + (high - low) / 2;
        if rows[mid].is_before(row) {
            proof {
                assert forall|i: int| 0 <= i < mid + 1 implies T::ranks_before(
                    (#[trigger] rows@[i])@,
                    row@,
                ) by {
                    T::lemma_rank_order(rows@[i]@, rows@[mid as int]@, row@);
                }
            }
            low = mid + 1;
        } else {
            proof {
                assert forall|i: int| mid <= i < rows@.len() implies !T::ranks_before(
                    (#[trigger] rows@[i])@,
                    row@,
                ) by {
                    T::lemma_rank_order(rows@[mid as int]@, rows@[i]@, row@);
                }
            }
            high = mid;
        }
    }
    low
}

/// Arranges rows of which any two differ in rank.
pub fn arrange<T: Ranked>(rows: Vec<T>) -> (r: Vec<T>)
    requires
        all_ranked::<T>(views(rows@)),
    ensures
        arranges(views(r@), views(rows@), rank_order::<T>()),
        r@.len() == rows@.len(),
{
    let ghost all: Seq<T::V> = views(rows@);
    let mut rest: Vec<T> = rows;
    let mut out: Vec<T> = Vec::new();
    while rest.len() > 0
        invariant
            rest@.len() <= all.len(),
            out@.len() + rest@.len() == all.len(),
            all_ranked::<T>(all),
            views(rest@) == all.take(rest@.len() as int),
            forall|i: int, j: int|
                0 <= i < j < out@.len() ==> T::ranks_before(
                    (#[trigger] out@[i])@,
                    (#[trigger] out@[j])@,
                ),
            forall|i: int|
                0 <= i < out@.len() ==> exists|k: int|
                    rest@.len() <= k < all.len() && all[k] == (#[trigger] out@[i])@,
            forall|k: int|
                rest@.len() <= k < all.len() ==> views(out@).contains(#[trigger] all[k]),
        decreases rest.len(),
    {
        let ghost n: int = rest@.len() as int;
        let ghost before: Seq<T> = out@;
        assert(views(rest@)[n - 1] == rest@[n - 1]@);
        let row: T = match rest.pop() {
            Some(row) => row,
            None => {
                return out;
            },
        };
        let ghost view: T::V = row@;
        assert(view == all[n - 1]);
        let place: usize = find_place(&out, &row);
        proof {
            assert forall|i: int| place <= i < out@.len() implies T::ranks_before(
                view,
                (#[trigger] out@[i])@,
            ) by {
                let k = choose|k: int| n <= k < all.len() && all[k] == out@[i]@;
                assert(T::ranks_before(all[n - 1], all[k]) || T::ranks_before(all[k], all[n - 1]));
            }
        }
        out.insert(place, row);
        proof {
            assert(out@ == before.insert(place as int, row));
            assert(views(rest@) =~= all.take(n - 1));
            assert forall|i: int, j: int| 0 <= i < j < out@.len() implies T::ranks_before(
                (#[trigger] out@[i])@,
                (#[trigger] out@[j])@,
            ) by {
                let a = if i < place {
                    before[i]@
                } else if i == place {
                    view
                } else {
                    before[i - 1]@
                };
                let b = if j < place {
                    before[j]@
                } else if j == place {
                    view
                } else {
                    before[j - 1]@
                };
                assert(out@[i]@ == a && out@[j]@ == b);
            }
            assert forall|i: int| 0 <= i < out@.len() implies exists|k: int|
                n - 1 <= k < all.len() && all[k] == (#[trigger] out@[i])@ by {
                if i == place {
                    assert(all[n - 1] == out@[i]@);
                } else {
                    let old_i = if i < place {
                        i
                    } else {
                        i - 1
                    };
                    assert(out@[i] == before[old_i]);
                    let k = choose|k: int| n <= k < all.len() && all[k] == before[old_i]@;
                    assert(all[k] == out@[i]@);
                }
            }
            assert forall|k: int| n - 1 <= k < all.len() implies views(out@).contains(
                #[trigger] all[k],
            ) by {
                if k == n - 1 {
                    assert(views(out@)[place as int] == view);
                } else {
                    assert(views(before).contains(all[k]));
                    let i = choose|i: int| 0 <= i < before.len() && views(before)[i] == all[k];
                    let j = if i < place {
                        i
                    } else {
                        i + 1
                    };
                    assert(out@[j] == before[i]);
                    assert(views(out@)[j] == all[k]);
                }
            }
        }
    }
    proof {
        let r = views(out@);
        let before = rank_order::<T>();
        assert forall|i: int, j: int| 0 <= i < j < r.len() implies before(
            #[trigger] r[i],
            #[trigger] r[j],
        ) by {
            assert(r[i] == out@[i]@ && r[j] == out@[j]@);
        }
        assert forall|i: int| 0 <= i < r.len() implies all.contains(#[trigger] r[i]) by {
            assert(r[i] == out@[i]@);
        }
    }
    out
}

// ---------------------------------------------------------------------------
// Distinct texts
// ---------------------------------------------------------------------------

impl Ranked for String {
    open spec fn ranks_before(a: Seq<char>, b: Seq<char>) -> bool {
        text_before(a, b)
    }

    proof fn lemma_rank_order(a: Seq<char>, b: Seq<char>, c: Seq<char>) {
        lemma_text_order(a, b, c);
        lemma_text_order(a, b, a);
    }

    fn is_before(&self, other: &Self) -> (r: bool) {
        comes_before(self.as_str(), other.as_str())
    }
}

/// Whether the texts differ from one another.
pub open spec fn distinct(list: Seq<Seq<char>>) -> bool {
    forall|i: int, j: int| 0 <= i < j < list.len() ==> #[trigger] list[i] != #[trigger] list[j]
}

/// Whether the texts differ from one another.
pub fn are_distinct(list: &Vec<String>) -> (r: bool)
    ensures
        r == distinct(views(list@)),
{
    let ghost all: Seq<Seq<char>> = views(list@);
    let mut sorted: Vec<String> = Vec::new();
    let mut i: usize = 0;
    while i < list.len()
        invariant
            i <= list@.len(),
            all == views(list@),
            distinct(all.take(i as int)),
            forall|a: int, b: int|
                0 <= a < b < sorted@.len() ==> text_before(
                    (#[trigger] sorted@[a])@,
                    (#[trigger] sorted@[b])@,
                ),
            forall|a: int|
                0 <= a < sorted@.len() ==> exists|k: int|
                    0 <= k < i && all[k] == (#[trigger] sorted@[a])@,
            forall|k: int| 0 <= k < i ==> views(sorted@).contains(#[trigger] all[k]),
        decreases list.len() - i,
    {
        let key: String = list[i].clone();
        let ghost view: Seq<char> = key@;
        assert(all[i as int] == view);
        let ghost before: Seq<String> = sorted@;
        let place: usize = find_place(&sorted, &key);
        if place < sorted.len() && sorted[place] == key {
            proof {
                let k = choose|k: int| 0 <= k < i && all[k] == sorted@[place as int]@;
                assert(all[k] == all[i as int]);
            }
            return false;
        }
        proof {
            assert forall|a: int| place <= a < sorted@.len() implies text_before(
                view,
                (#[trigger] sorted@[a])@,
            ) by {
                let first = sorted@[place as int]@;
                lemma_text_order(first, view, view);
                lemma_text_order(view, first, sorted@[a]@);
            }
        }
        sorted.insert(place, key);
        proof {
            assert(sorted@ == before.insert(place as int, key));
            assert forall|a: int, b: int| 0 <= a < b < sorted@.len() implies text_before(
                (#[trigger] sorted@[a])@,
                (#[trigger] sorted@[b])@,
            ) by {
                let x = if a < place {
                    before[a]@
                } else if a == place {
                    view
                } else {
                    before[a - 1]@
                };
                let y = if b < place {
                    before[b]@
                } else if b == place {
                    view
                } else {
                    before[b - 1]@
                };
                assert(sorted@[a]@ == x && sorted@[b]@ == y);
            }
            assert forall|a: int| 0 <= a < sorted@.len() implies exists|k: int|
                0 <= k < i + 1 && all[k] == (#[trigger] sorted@[a])@ by {
                if a == place {
                    assert(all[i as int] == sorted@[a]@);
                } else {
                    let old_a = if a < place {
                        a
                    } else {
                        a - 1
                    };
                    assert(sorted@[a] == before[old_a]);
                    let k = choose|k: int| 0 <= k < i && all[k] == before[old_a]@;
                    assert(all[k] == sorted@[a]@);
                }
            }
            assert forall|k: int| 0 <= k < i + 1 implies views(sorted@).contains(
                #[trigger] all[k],
            ) by {
                if k == i {
                    assert(views(sorted@)[place as int] == view);
                } else {
                    assert(views(before).contains(all[k]));
                    let a = choose|a: int| 0 <= a < before.len() && views(before)[a] == all[k];
                    let b = if a < place {
                        a
                    } else {
                        a + 1
                    };
                    assert(sorted@[b] == before[a]);
                    assert(views(sorted@)[b] == all[k]);
                }
            }
            let longer = all.take(i + 1);
            let shorter = all.take(i as int);
            assert forall|a: int, b: int| 0 <= a < b < longer.len() implies #[trigger] longer[a]
                != #[trigger] longer[b] by {
                if b < i {
                    assert(shorter[a] != shorter[b]);
                } else {
                    // The key is none of the earlier texts: those stand in `before`.
                    assert(views(before).contains(all[a]));
                    let c = choose|c: int| 0 <= c < before.len() && views(before)[c] == all[a];
                    assert(before[c]@ == all[a]);
                    lemma_text_order(view, view, view);
                    if c < place {
                        assert(text_before(before[c]@, view));
                    } else {
                        assert(text_before(view, before[c]@));
                    }
                }
            }
        }
        i += 1;
    }
    assert(all.take(i as int) =~= all);
    true
}

// ---------------------------------------------------------------------------
// Picked rows
// ---------------------------------------------------------------------------

/// What is picked from rows is what `f` makes of one of them, and nothing of it is left out.
pub proof fn lemma_picked<A, B>(rows: Seq<A>, f: spec_fn(A) -> Option<B>, picked: B)
    ensures
        rows.filter_map(f).contains(picked) <==> exists|i: int|
            0 <= i < rows.len() && #[trigger] f(rows[i]) == Some(picked),
    decreases rows.len(),
{
    let all = rows.filter_map(f);
    if rows.len() > 0 {
        let shorter = rows.drop_last();
        let n = rows.len() - 1;
        let some = shorter.filter_map(f);
        lemma_picked(shorter, f, picked);
        if all.contains(picked) {
            let k = choose|k: int| 0 <= k < all.len() && all[k] == picked;
            if k < some.len() {
                assert(some[k] == picked);
                assert(some.contains(picked));
                let i = choose|i: int| 0 <= i < shorter.len() && #[trigger] f(shorter[i]) == Some(
                    picked,
                );
                assert(f(rows[i]) == Some(picked));
            } else {
                assert(f(rows[n]) == Some(picked));
            }
        }
        if exists|i: int| 0 <= i < rows.len() && #[trigger] f(rows[i]) == Some(picked) {
            let i = choose|i: int| 0 <= i < rows.len() && #[trigger] f(rows[i]) == Some(picked);
            if i < n {
                assert(f(shorter[i]) == Some(picked));
                let k = choose|k: int| 0 <= k < some.len() && some[k] == picked;
                assert(all[k] == picked);
            } else {
                assert(all[all.len() - 1] == picked);
            }
        }
    }
}

/// Picking from rows behind others adds what is picked from them.
pub proof fn lemma_picked_from_both<A, B>(rows: Seq<A>, more: Seq<A>, f: spec_fn(A) -> Option<B>)
    ensures
        (rows + more).filter_map(f) == rows.filter_map(f) + more.filter_map(f),
    decreases more.len(),
{
    if more.len() == 0 {
        assert(rows + more =~= rows);
        assert(rows.filter_map(f) + more.filter_map(f) =~= rows.filter_map(f));
    } else {
        assert((rows + more).drop_last() =~= rows + more.drop_last());
        lemma_picked_from_both(rows, more.drop_last(), f);
        assert((rows + more).filter_map(f) =~= rows.filter_map(f) + more.filter_map(f));
    }
}

} // verus!
