//! The session with the server: its cookies, and who renews its clearance.
use vstd::prelude::*;

use crate::order::lemma_picked_from_both;
use crate::text::{
    chars_of, is_space, law_texts_are_cut_at_every_separator,
    law_texts_without_separator_stay_whole, law_trimming_takes_outer_space, split, split_chars,
    text_of, texts, trim_chars, trimmed,
};

verus! {

// ---------------------------------------------------------------------------
// Cookies
// ---------------------------------------------------------------------------

/// A part of a cookie header without surrounding white space, if anything is left of it.
pub open spec fn cookie_part(part: Seq<char>) -> Option<Seq<char>> {
    if trimmed(part).len() > 0 {
        Some(trimmed(part))
    } else {
        None
    }
}

/// The cookies of a configured cookie header: the parts between semicolons.
pub open spec fn cookies_of(header: Seq<char>) -> Seq<Seq<char>> {
    split(header, ';').filter_map(|part: Seq<char>| cookie_part(part))
}

/// The cookies of a configured cookie header.
pub fn cookie_parts(header: &str) -> (r: Vec<String>)
    ensures
        texts(r@) == cookies_of(header@),
{
    let pieces: Vec<Vec<char>> = split_chars(&chars_of(header), ';');
    let ghost parts: Seq<Seq<char>> = split(header@, ';');
    let ghost f = |part: Seq<char>| cookie_part(part);
    let mut out: Vec<String> = Vec::new();
    let mut i: usize = 0;
    proof {
        assert(parts.take(0) =~= Seq::<Seq<char>>::empty());
        assert(texts(out@) =~= parts.take(0).filter_map(f));
    }
    while i < pieces.len()
        invariant
            i <= pieces@.len(),
            pieces@.len() == parts.len(),
            forall|k: int| 0 <= k < pieces@.len() ==> (#[trigger] pieces@[k])@ == parts[k],
            f == (|part: Seq<char>| cookie_part(part)),
            texts(out@) == parts.take(i as int).filter_map(f),
        decreases pieces.len() - i,
    {
        proof {
            parts.lemma_filter_map_take_succ(f, i as int);
        }
        let ghost before: Seq<Seq<char>> = texts(out@);
        let part: Vec<char> = trim_chars(&pieces[i]);
        if part.len() > 0 {
            out.push(text_of(&part));
            assert(texts(out@) =~= before.push(part@));
            assert(texts(out@) =~= parts.take(i + 1).filter_map(f));
        } else {
            assert(texts(out@) =~= parts.take(i + 1).filter_map(f));
        }
        i += 1;
    }
    assert(parts.take(i as int) =~= parts);
    out
}

// ---------------------------------------------------------------------------
// Clearance
// ---------------------------------------------------------------------------

/// Keeps track of how often the session's clearance was renewed, so that of several requests
/// that were denied under the same clearance only one renews it.
pub struct Clearance {
    renewals: u64,
}

/// Whether a request that was denied has to renew the clearance: not if it was renewed since the
/// request noted it.
pub open spec fn must_renew(count: int, seen: int) -> bool {
    count == seen
}

impl Clearance {
    /// How often the clearance was renewed.
    pub closed spec fn count(&self) -> u64 {
        self.renewals
    }

    /// The clearance of a new session.
    pub fn new() -> (r: Self)
        ensures
            r.count() == 0,
    {
        Clearance { renewals: 0 }
    }

    /// The present clearance, to be noted before a request.
    pub fn current(&self) -> (r: u64)
        ensures
            r == self.count(),
    {
        self.renewals
    }

    /// Whether a request that was denied under the clearance `seen` has to renew it.
    pub fn needs_renewal(&self, seen: u64) -> (r: bool)
        ensures
            r == must_renew(self.count() as int, seen as int),
    {
        self.renewals == seen
    }

    /// Notes that the clearance was renewed.
    pub fn renewed(&mut self)
        ensures
            final(self).count() == (old(self).count() + 1) as u64,
            final(self).count() != old(self).count(),
    {
        if self.renewals == u64::MAX {
            self.renewals = 0;
            assert((u64::MAX + 1) as u64 == 0) by (bit_vector);
        } else {
            self.renewals = self.renewals + 1;
        }
    }
}

/// How often the clearance is renewed when requests that were denied come forward one after the
/// other, each with the clearance that it noted before.
pub open spec fn renewals_for(count: int, seen: Seq<int>) -> nat
    decreases seen.len(),
{
    if seen.len() == 0 {
        0
    } else if must_renew(count, seen[0]) {
        1 + renewals_for(count + 1, seen.skip(1))
    } else {
        renewals_for(count, seen.skip(1))
    }
}

/// Of any number of requests that were denied under the same clearance, exactly one renews it.
pub proof fn law_one_renewal_per_clearance(count: int, seen: Seq<int>, noted: int)
    requires
        noted <= count,
        forall|i: int| 0 <= i < seen.len() ==> #[trigger] seen[i] == noted,
    ensures
        renewals_for(count, seen) == (if seen.len() > 0 && must_renew(count, noted) {
            1nat
        } else {
            0nat
        }),
    decreases seen.len(),
{
    if seen.len() > 0 {
        let rest = seen.skip(1);
        assert forall|i: int| 0 <= i < rest.len() implies #[trigger] rest[i] == noted by {
            assert(rest[i] == seen[i + 1]);
        }
        if count == noted {
            law_one_renewal_per_clearance(count + 1, rest, noted);
        } else {
            law_one_renewal_per_clearance(count, rest, noted);
        }
    }
}

/// The cookies of a header are those of its parts, wherever a semicolon parts it.
pub proof fn law_headers_are_parted_by_semicolons(a: Seq<char>, b: Seq<char>)
    ensures
        cookies_of(a + seq![';'] + b) == cookies_of(a) + cookies_of(b),
{
    law_texts_are_cut_at_every_separator(a, b, ';');
    lemma_picked_from_both(split(a, ';'), split(b, ';'), |part: Seq<char>| cookie_part(part));
}

/// A part of a header without a semicolon is one cookie, without the white space around it; a
/// blank one is none.
pub proof fn law_parts_are_cookies(lead: Seq<char>, cookie: Seq<char>, trail: Seq<char>)
    requires
        forall|i: int| 0 <= i < lead.len() ==> is_space(#[trigger] lead[i]),
        forall|i: int| 0 <= i < trail.len() ==> is_space(#[trigger] trail[i]),
        cookie.len() > 0 ==> !is_space(cookie[0]) && !is_space(cookie.last()),
        forall|i: int| 0 <= i < cookie.len() ==> #[trigger] cookie[i] != ';',
    ensures
        cookies_of(lead + cookie + trail) == (if cookie.len() > 0 {
            seq![cookie]
        } else {
            Seq::empty()
        }),
{
    let part = lead + cookie + trail;
    assert forall|i: int| 0 <= i < part.len() implies #[trigger] part[i] != ';' by {
        if i < lead.len() {
            assert(is_space(lead[i]));
        } else if i < lead.len() + cookie.len() {
            assert(part[i] == cookie[i - lead.len()]);
        } else {
            assert(is_space(trail[i - lead.len() - cookie.len()]));
        }
    }
    law_texts_without_separator_stay_whole(part, ';');
    law_trimming_takes_outer_space(lead, cookie, trail);
    Seq::lemma_filter_map_singleton(part, |p: Seq<char>| cookie_part(p));
}

/// A clearance is renewed by a request that was denied under it, and by none that was denied
/// under an earlier one.
pub proof fn law_old_clearances_are_not_renewed(count: int, seen: int)
    ensures
        must_renew(count, count),
        seen != count ==> !must_renew(count, seen),
{
}

} // verus!
