//! The transfer of one file: through a `.part` file that survives interruptions.
use vstd::prelude::*;

use crate::crawler::listing::{is_success, status_is_success, status_message, status_words};
use crate::outside::{
    byte_size, checksum_input, hex_digit, is_ordinary, minute_seconds, minute_text, nanos_of,
    rfc2822_time, sha256, time_between,
};
use crate::outside::{
    byte_size_text, checksum_digest, checksum_new, checksum_update, parse_minute, parse_rfc2822,
    time_from_to, utc_now, Checksum,
};
use crate::paths::{
    file_name, file_name_of, law_siblings_share_their_parent, lemma_file_name, parent_of,
    set_file_name, with_file_name,
};
use crate::text::{
    begins_with, chars_of, decimal, digits_value, find_char, is_digit, is_number, is_space,
    law_numbers_read_back, law_trimming_takes_outer_space, lemma_find_char, parse_u64, parsed_u64,
    position_of, push_decimal, slice_chars, starts_with, text_of, trim_chars, trimmed,
};

verus! {

// ---------------------------------------------------------------------------
// Requests
// ---------------------------------------------------------------------------

/// What is downloaded, and where to.
pub struct DownloadRequest<'a> {
    /// A cookie to send with the request.
    pub cookie: Option<&'a str>,
    /// The address of the file.
    pub url: &'a str,
    /// The path of the local copy.
    pub dest_path: &'a str,
    /// The time of last modification that the server lists.
    pub last_modified: Option<&'a str>,
}

/// The path of the temporary file for a download: the destination with `.part` appended to
/// the file name.
pub open spec fn part_path(dest: Seq<char>) -> Seq<char> {
    let name = match file_name_of(dest) {
        Some(name) => name,
        None => Seq::<char>::empty(),
    };
    with_file_name(dest, name + ".part"@)
}

/// The path of the `.part` file used while downloading to `dest_path`.
pub fn part_path_for(dest_path: &str) -> (r: String)
    ensures
        r@ == part_path(dest_path@),
{
    let mut name: String = match file_name(dest_path) {
        Some(name) => name,
        None => String::new(),
    };
    name.append(".part");
    set_file_name(dest_path, name.as_str())
}

/// The `Range` header that asks for the rest of a file of which `resumed` bytes are there; a
/// file of which nothing is there is asked for as a whole.
pub open spec fn range_of(resumed: u64) -> Option<Seq<char>> {
    if resumed > 0 {
        Some("bytes="@ + decimal(resumed as nat) + "-"@)
    } else {
        None
    }
}

/// The `Range` header for a resumed download.
pub fn range_header(resumed: u64) -> (r: Option<String>)
    ensures
        match r {
            Some(header) => range_of(resumed) == Some(header@),
            None => range_of(resumed) is None,
        },
{
    if resumed == 0 {
        return None;
    }
    let mut header: String = "bytes=".to_owned();
    push_decimal(&mut header, resumed);
    header.append("-");
    Some(header)
}

// ---------------------------------------------------------------------------
// Response headers
// ---------------------------------------------------------------------------

/// Whether a text is a content range with these parts: the unit, the first and the last position,
/// and the length of the whole, which may be unknown.
pub open spec fn is_content_range(
    v: Seq<char>,
    first: Seq<char>,
    last: Seq<char>,
    total: Seq<char>,
) -> bool {
    &&& v == "bytes "@ + first + seq!['-'] + last + seq!['/'] + total
    &&& is_number(first) && is_number(last) && (is_number(total) || total == seq!['*'])
    &&& digits_value(first) <= digits_value(last)
}

/// The start offset of a `Content-Range` header value such as `bytes 100-999/1000`; `None` for
/// a value that is no content range, and for an offset that is too large.
pub open spec fn range_start(value: Seq<char>) -> Option<u64> {
    let v = trimmed(value);
    let rest = v.skip("bytes "@.len() as int);
    match (find_char(rest, '-', 0), find_char(rest, '/', 0)) {
        (Some(dash), Some(slash)) => if begins_with(v, "bytes "@) && dash < slash
            && is_content_range(
            v,
            rest.take(dash),
            rest.subrange(dash + 1, slash),
            rest.skip(slash + 1),
        ) && digits_value(rest.take(dash)) <= u64::MAX {
            Some(digits_value(rest.take(dash)) as u64)
        } else {
            None
        },
        _ => None,
    }
}

/// Whether a text is a number: digits, at least one.
fn is_numeric(s: &Vec<char>) -> (r: bool)
    ensures
        r == is_number(s@),
{
    let mut i: usize = 0;
    while i < s.len()
        invariant
            i <= s@.len(),
            forall|k: int| 0 <= k < i ==> is_digit(#[trigger] s@[k]),
        decreases s.len() - i,
    {
        if !('0' <= s[i] && s[i] <= '9') {
            assert(!is_digit(s@[i as int]));
            return false;
        }
        i += 1;
    }
    s.len() > 0
}

/// Reads the start offset of a `Content-Range` header value.
pub fn content_range_start(value: &str) -> (r: Option<u64>)
    ensures
        r == range_start(value@),
{
    let v: Vec<char> = trim_chars(&chars_of(value));
    let unit: Vec<char> = chars_of("bytes ");
    if !starts_with(&v, &unit) {
        return None;
    }
    let rest: Vec<char> = slice_chars(&v, unit.len(), v.len());
    assert(rest@ =~= v@.skip(unit@.len() as int));
    let (dash, slash): (usize, usize) = match (position_of(&rest, '-', 0), position_of(&rest, '/', 0)) {
        (Some(dash), Some(slash)) => (dash, slash),
        _ => {
            return None;
        },
    };
    if dash >= slash {
        return None;
    }
    let first: Vec<char> = slice_chars(&rest, 0, dash);
    let last: Vec<char> = slice_chars(&rest, dash + 1, slash);
    let total: Vec<char> = slice_chars(&rest, slash + 1, rest.len());
    proof {
        lemma_find_char(rest@, '-', 0);
        lemma_find_char(rest@, '/', 0);
        assert(first@ =~= rest@.take(dash as int));
        assert(total@ =~= rest@.skip(slash + 1));
        assert(v@.take(unit@.len() as int) + rest@ =~= v@);
        assert(v@ =~= "bytes "@ + first@ + seq!['-'] + last@ + seq!['/'] + total@);
    }
    let unknown: bool = total.len() == 1 && total[0] == '*';
    assert(unknown == (total@ =~= seq!['*']));
    if !(is_numeric(&first) && is_numeric(&last) && (unknown || is_numeric(&total))) {
        return None;
    }
    proof {
        assert(is_digit(first@[0]) && is_digit(last@[0]));
    }
    match (parse_u64(&first), parse_u64(&last)) {
        (Some(start), Some(end)) => if start <= end {
            Some(start)
        } else {
            None
        },
        (Some(start), None) => Some(start),
        (None, _) => None,
    }
}

/// A length of time.
#[derive(Debug, Clone, Copy, PartialEq, Eq, Structural)]
pub struct Delay {
    pub secs: u64,
    /// Less than a second.
    pub nanos: u32,
}

/// Whether one point in time is later than another.
pub open spec fn is_later(target: (i64, u32), now: (i64, u32)) -> bool {
    target.0 > now.0 || (target.0 == now.0 && target.1 > now.1)
}

/// The wait until a point in time, if that lies ahead.
pub open spec fn wait_until(target: (i64, u32), now: (i64, u32)) -> Option<Delay> {
    if is_later(target, now) {
        match time_between(now, target) {
            Some((secs, nanos)) => Some(Delay { secs, nanos }),
            None => None,
        }
    } else {
        None
    }
}

/// The wait that a `Retry-After` header value asks for, at a given time: a number of seconds,
/// or the time until a date that lies ahead.
pub open spec fn retry_delay(value: Seq<char>, now: (i64, u32)) -> Option<Delay> {
    let v = trimmed(value);
    match parsed_u64(v) {
        Some(secs) => Some(Delay { secs, nanos: 0 }),
        None => match rfc2822_time(v) {
            Some(target) => wait_until(target, now),
            None => None,
        },
    }
}

/// Whether a wait is the time from `now` until `target`; none if that does not lie ahead.
pub open spec fn is_wait(wait: Option<Delay>, target: (i64, u32), now: (i64, u32)) -> bool {
    match wait {
        Some(delay) => is_later(target, now) && delay.nanos < 1_000_000_000 && delay.secs
            * 1_000_000_000 + delay.nanos == nanos_of(target) - nanos_of(now),
        None => !is_later(target, now),
    }
}

/// Whether a wait is the one that a `Retry-After` header value asks for, at a given time.  For an
/// ordinary date it is the time until then.
pub open spec fn is_retry_delay(wait: Option<Delay>, value: Seq<char>, now: (i64, u32)) -> bool {
    let v = trimmed(value);
    &&& wait == retry_delay(value, now)
    &&& match (parsed_u64(v), rfc2822_time(v)) {
        (None, Some(target)) => is_ordinary(target) && is_ordinary(now) ==> is_wait(
            wait,
            target,
            now,
        ),
        _ => true,
    }
}

/// The wait until `target`, if that lies ahead of `now`.  Between ordinary times it is the
/// difference of the two.
pub fn delay_until(target: (i64, u32), now: (i64, u32)) -> (r: Option<Delay>)
    ensures
        r == wait_until(target, now),
        is_ordinary(target) && is_ordinary(now) ==> is_wait(r, target, now),
{
    if !(target.0 > now.0 || (target.0 == now.0 && target.1 > now.1)) {
        return None;
    }
    match time_from_to(now, target) {
        Some((secs, nanos)) => Some(Delay { secs, nanos }),
        None => None,
    }
}

/// Reads a `Retry-After` header value, at the time `now`.
///
/// It is a number of seconds such as `120`, or a date in the form of RFC 2822.
pub fn retry_after_at(header_val: &str, now: (i64, u32)) -> (r: Option<Delay>)
    ensures
        is_retry_delay(r, header_val@, now),
{
    let value: Vec<char> = trim_chars(&chars_of(header_val));
    match parse_u64(&value) {
        Some(secs) => Some(Delay { secs, nanos: 0 }),
        None => match parse_rfc2822(text_of(&value).as_str()) {
            Some(target) => delay_until(target, now),
            None => None,
        },
    }
}

/// Reads a `Retry-After` header value, at the present time.
pub fn parse_retry_after(header_val: &str) -> (r: Option<Delay>)
    ensures
        exists|now: (i64, u32)|
            now.0 >= 0 && now.1 < 1_000_000_000 && #[trigger] is_retry_delay(r, header_val@, now),
{
    let now: (i64, u32) = utc_now();
    retry_after_at(header_val, now)
}

// ---------------------------------------------------------------------------
// Errors
// ---------------------------------------------------------------------------

/// Why a file could not be downloaded.
#[derive(Debug)]
pub enum DownloadError {
    /// The server refused the request.
    HttpStatus {
        status: u16,
        /// The wait that the server asked for.
        retry_after: Option<Delay>,
        url: String,
    },
    /// A file operation failed.
    Io { message: String },
    /// Something else went wrong.
    Other { message: String },
}

/// The message of a download error.
pub open spec fn failure_text(error: DownloadError) -> Seq<char> {
    match error {
        DownloadError::HttpStatus { status, retry_after, url } => "HTTP "@ + status_words(status)
            + " for "@ + url@,
        DownloadError::Io { message } => message@,
        DownloadError::Other { message } => message@,
    }
}

impl DownloadError {
    /// The message for the user and the state database.
    pub fn message(&self) -> (r: String)
        ensures
            r@ == failure_text(*self),
    {
        match self {
            DownloadError::HttpStatus { status, retry_after, url } => {
                let mut text: String = "HTTP ".to_owned();
                text.append(status_message(*status).as_str());
                text.append(" for ");
                text.append(url.as_str());
                text
            },
            DownloadError::Io { message } => message.clone(),
            DownloadError::Other { message } => message.clone(),
        }
    }

    /// Whether the server denied access, as it does when the session is no longer cleared.
    pub fn is_forbidden(&self) -> (r: bool)
        ensures
            r == (self matches DownloadError::HttpStatus { status: 403, .. }),
    {
        match self {
            DownloadError::HttpStatus { status, .. } => *status == 403,
            _ => false,
        }
    }
}

/// The error for a refused request; it carries the wait that the server asked for.
pub fn refused(status: u16, retry_after: Option<&str>, url: &str) -> (r: DownloadError)
    ensures
        r matches DownloadError::HttpStatus { status: s, retry_after: delay, url: u } && s == status
            && u@ == url@ && (match retry_after {
            Some(value) => exists|now: (i64, u32)|
                now.0 >= 0 && now.1 < 1_000_000_000 && #[trigger] is_retry_delay(delay, value@, now),
            None => delay is None,
        }),
{
    let delay: Option<Delay> = match retry_after {
        Some(value) => parse_retry_after(value),
        None => None,
    };
    DownloadError::HttpStatus { status, retry_after: delay, url: url.to_owned() }
}

/// An offset that may be missing, as text.
pub open spec fn offset_text(offset: Option<u64>) -> Seq<char> {
    match offset {
        Some(n) => "Some("@ + decimal(n as nat) + ")"@,
        None => "None"@,
    }
}

/// The error for a partial answer that does not continue the part file.
pub fn misplaced(start: Option<u64>, resumed: u64, url: &str) -> (r: DownloadError)
    ensures
        r matches DownloadError::Other { message } && message@ == "206 response resumed at "@
            + offset_text(start) + " instead of requested offset "@ + decimal(resumed as nat)
            + " for "@ + url@ + "; discarding partial file"@,
{
    let mut text: String = "206 response resumed at ".to_owned();
    match start {
        Some(n) => {
            text.append("Some(");
            push_decimal(&mut text, n);
            text.append(")");
            assert(text@ =~= "206 response resumed at "@ + offset_text(start));
        },
        None => text.append("None"),
    }
    text.append(" instead of requested offset ");
    push_decimal(&mut text, resumed);
    text.append(" for ");
    text.append(url);
    text.append("; discarding partial file");
    DownloadError::Other { message: text }
}

// ---------------------------------------------------------------------------
// Answers
// ---------------------------------------------------------------------------

/// What an answer means for the part file.
#[derive(Debug, Clone, Copy, PartialEq, Eq, Structural)]
pub enum Step {
    /// Delete the part file and ask for the whole file.
    Restart,
    /// Give up: the server refused the request.
    Refuse,
    /// Delete the part file and give up: the answer does not continue it.
    Discard,
    /// Take in the part file and append the body to it.
    Append,
    /// Delete the part file and write the body to a new one.
    Create,
}

/// The step after an answer, of which `resumed` bytes were skipped by request.  `first` tells
/// the first request from the one after a restart.
pub open spec fn step_after(
    status: u16,
    content_range: Option<Seq<char>>,
    resumed: u64,
    first: bool,
) -> Step {
    let start = match content_range {
        Some(value) => range_start(value),
        None => None,
    };
    if first && status == 416 {
        Step::Restart
    } else if !is_success(status) {
        Step::Refuse
    } else if status == 206 && resumed > 0 {
        if start == Some(resumed) {
            Step::Append
        } else {
            Step::Discard
        }
    } else {
        Step::Create
    }
}

/// Decides on an answer.
pub fn judge_answer(status: u16, content_range: Option<&str>, resumed: u64, first: bool) -> (r: Step)
    ensures
        r == step_after(
            status,
            match content_range {
                Some(value) => Some(value@),
                None => None,
            },
            resumed,
            first,
        ),
{
    if first && status == 416 {
        return Step::Restart;
    }
    if !status_is_success(status) {
        return Step::Refuse;
    }
    if status == 206 && resumed > 0 {
        let start: Option<u64> = match content_range {
            Some(value) => content_range_start(value),
            None => None,
        };
        match start {
            Some(n) => if n == resumed {
                Step::Append
            } else {
                Step::Discard
            },
            None => Step::Discard,
        }
    } else {
        Step::Create
    }
}

// ---------------------------------------------------------------------------
// The body
// ---------------------------------------------------------------------------

/// Bytes in hexadecimal notation, two digits each.
pub open spec fn hex(bytes: Seq<u8>) -> Seq<char>
    decreases bytes.len(),
{
    if bytes.len() == 0 {
        Seq::empty()
    } else {
        hex(bytes.drop_last()) + seq![
            hex_digit(bytes.last() as int / 16),
            hex_digit(bytes.last() as int % 16),
        ]
    }
}

/// Appends one hexadecimal digit.
fn push_hex_digit(out: &mut String, n: u8)
    requires
        n < 16,
    ensures
        final(out)@ == old(out)@.push(hex_digit(n as int)),
{
    if n < 10 {
        out.push((48 + n) as char);
    } else {
        out.push((87 + n) as char);
    }
}

/// Bytes in hexadecimal notation.
pub fn hex_text(bytes: &Vec<u8>) -> (r: String)
    ensures
        r@ == hex(bytes@),
{
    let mut out: String = String::new();
    let mut i: usize = 0;
    while i < bytes.len()
        invariant
            i <= bytes@.len(),
            out@ == hex(bytes@.take(i as int)),
        decreases bytes.len() - i,
    {
        let b: u8 = bytes[i];
        push_hex_digit(&mut out, b / 16);
        push_hex_digit(&mut out, b % 16);
        i += 1;
        proof {
            let longer = bytes@.take(i as int);
            assert(longer.drop_last() =~= bytes@.take(i - 1));
            assert(out@ =~= hex(longer));
        }
    }
    assert(bytes@.take(i as int) =~= bytes@);
    out
}

/// The body of a file on its way to the part file.
pub struct Transfer {
    checksum: Checksum,
}

impl Transfer {
    /// The bytes of the part file that were taken in.
    pub closed spec fn contents(&self) -> Seq<u8> {
        checksum_input(self.checksum)
    }

    /// A transfer into an empty part file.
    pub fn new() -> (r: Self)
        ensures
            r.contents() == Seq::<u8>::empty(),
    {
        Transfer { checksum: checksum_new() }
    }

    /// Takes in the next bytes of the part file: those that it already holds, or those that are
    /// appended to it.
    pub fn take(&mut self, bytes: &[u8])
        ensures
            final(self).contents() == old(self).contents() + bytes@,
    {
        checksum_update(&mut self.checksum, bytes);
    }

    /// The SHA-256 checksum of the whole file in hexadecimal notation.
    pub fn finish(self) -> (r: String)
        ensures
            r@ == hex(sha256(self.contents())),
            r@.len() == 64,
    {
        let digest: Vec<u8> = checksum_digest(self.checksum);
        proof {
            lemma_hex_len(digest@);
        }
        hex_text(&digest)
    }
}

/// Each byte takes two digits.
proof fn lemma_hex_len(bytes: Seq<u8>)
    ensures
        hex(bytes).len() == 2 * bytes.len(),
    decreases bytes.len(),
{
    if bytes.len() > 0 {
        lemma_hex_len(bytes.drop_last());
    }
}

/// The bytes that remain after a chunk.
pub open spec fn left_after(remaining: u64, chunk: nat) -> u64 {
    if chunk >= remaining {
        0
    } else {
        (remaining - chunk) as u64
    }
}

/// The bytes that remain after a chunk of `len` bytes.
pub fn remaining_after(remaining: u64, len: u64) -> (r: u64)
    ensures
        r == left_after(remaining, len as nat),
{
    if len >= remaining {
        0
    } else {
        remaining - len
    }
}

/// The message about the bytes that remain.
pub fn remaining_text(remaining: u64) -> (r: String)
    ensures
        r@ == byte_size(remaining) + " remaining"@,
        remaining < 1000 ==> r@ == decimal(remaining as nat) + " B remaining"@,
{
    let mut text: String = byte_size_text(remaining);
    text.append(" remaining");
    proof {
        reveal_strlit(" B");
        reveal_strlit(" remaining");
        reveal_strlit(" B remaining");
        assert(" B"@ + " remaining"@ =~= " B remaining"@);
        assert(decimal(remaining as nat) + " B"@ + " remaining"@ =~= decimal(remaining as nat)
            + " B remaining"@);
    }
    text
}

/// The modification time for the local copy, in seconds since the Unix epoch: the listed time,
/// if there is one that can be read.
///
/// For a time that was listed from a number of seconds it is the start of that minute.
pub fn modification_time(last_modified: Option<&str>) -> (r: Option<i64>)
    ensures
        match last_modified {
            Some(text) => r == minute_seconds(text@) && (forall|seconds: i64|
                0 <= seconds < 253402300800 && #[trigger] minute_text(seconds) == Some(text@) ==> r
                    == Some((seconds - seconds % 60) as i64)),
            None => r is None,
        },
{
    match last_modified {
        Some(text) => parse_minute(text),
        None => None,
    }
}

// ---------------------------------------------------------------------------
// Laws
// ---------------------------------------------------------------------------

/// The part file lies beside the destination, under a name of its own.
pub proof fn law_part_file_lies_beside_the_destination(dest: Seq<char>)
    requires
        file_name_of(dest) is Some,
    ensures
        file_name_of(part_path(dest)) == Some(file_name_of(dest)->0 + ".part"@),
        parent_of(part_path(dest)) == parent_of(dest),
        part_path(dest) != dest,
{
    reveal_strlit(".part");
    let name = file_name_of(dest)->0;
    let part = name + ".part"@;
    assert(part.len() == name.len() + 5);
    lemma_file_name(dest);
    assert forall|i: int| 0 <= i < part.len() implies #[trigger] part[i] != '/' by {
        if i >= name.len() {
            assert(part[i] == ".part"@[i - name.len()]);
        } else {
            assert(part[i] == name[i]);
        }
    }
    law_siblings_share_their_parent(dest, part);
}

/// An offset is read exactly from a content range: the unit, two positions in order and the
/// length of the whole, with nothing more or less around them.  It is the first position.
pub proof fn law_content_ranges_are_read(value: Seq<char>, offset: u64)
    ensures
        range_start(value) == Some(offset) <==> exists|
            first: Seq<char>,
            last: Seq<char>,
            total: Seq<char>,
        | #[trigger]
            is_content_range(trimmed(value), first, last, total) && digits_value(first) == offset,
{
    let v = trimmed(value);
    reveal_strlit("bytes ");
    if exists|first: Seq<char>, last: Seq<char>, total: Seq<char>| #[trigger]
        is_content_range(v, first, last, total) && digits_value(first) == offset {
        let (first, last, total) = choose|first: Seq<char>, last: Seq<char>, total: Seq<char>| #[trigger]
            is_content_range(v, first, last, total) && digits_value(first) == offset;
        let rest = v.skip("bytes "@.len() as int);
        let dash = first.len() as int;
        let slash = dash + 1 + last.len();
        assert(rest =~= first + seq!['-'] + last + seq!['/'] + total);
        assert(v.take("bytes "@.len() as int) =~= "bytes "@);
        assert(rest.take(dash) =~= first);
        assert(rest.subrange(dash + 1, slash) =~= last);
        assert(rest.skip(slash + 1) =~= total);
        assert(rest[dash] == '-' && rest[slash] == '/');
        assert forall|k: int| 0 <= k < slash implies rest[k] != '/' by {
            if k < dash {
                assert(rest[k] == first[k]);
            } else if k > dash {
                assert(rest[k] == last[k - dash - 1]);
            }
        }
        assert forall|k: int| 0 <= k < dash implies rest[k] != '-' by {
            assert(rest[k] == first[k]);
        }
        lemma_find_char(rest, '-', 0);
        lemma_find_char(rest, '/', 0);
        assert(find_char(rest, '-', 0) == Some(dash));
        assert(find_char(rest, '/', 0) == Some(slash));
    }
}

/// A part file is appended to only if the server continues it exactly where it ends: the answer
/// is a partial one and starts at the offset that was asked for.
pub proof fn law_append_only_at_the_end(
    status: u16,
    content_range: Option<Seq<char>>,
    resumed: u64,
    first: bool,
)
    ensures
        step_after(status, content_range, resumed, first) == Step::Append <==> (status == 206
            && resumed > 0 && content_range is Some && range_start(content_range->0) == Some(
            resumed,
        )),
{
}

/// A body is written only for a successful answer: appended or created only with a status from
/// 200 to 299.  Every other status is refused, but for a first 416, which restarts the download.
/// A partial answer to a resumed request is appended or discarded, and every other success
/// creates the file anew.
pub proof fn law_only_success_is_written(
    status: u16,
    content_range: Option<Seq<char>>,
    resumed: u64,
    first: bool,
)
    ensures
        ({
            let step = step_after(status, content_range, resumed, first);
            &&& step == Step::Append || step == Step::Create ==> 200 <= status <= 299
            &&& step == Step::Restart <==> first && status == 416
            &&& step == Step::Refuse <==> (status < 200 || status > 299) && !(first && status == 416)
            &&& step == Step::Append || step == Step::Discard <==> status == 206 && resumed > 0
            &&& step == Step::Create <==> 200 <= status <= 299 && (status != 206 || resumed == 0)
        }),
{
}

/// A resumed transfer goes on at the byte that was asked for: with the content range that begins
/// there the part file is appended to, and with one that begins elsewhere it is discarded.
pub proof fn law_resumed_transfers_go_on_where_they_stopped(
    resumed: u64,
    start: nat,
    last: nat,
    total: nat,
    first: bool,
)
    requires
        resumed > 0,
        start <= last,
    ensures
        ({
            let range = "bytes "@ + decimal(start) + seq!['-'] + decimal(last) + seq!['/'] + decimal(
                total,
            );
            step_after(206, Some(range), resumed, first) == (if start == resumed {
                Step::Append
            } else {
                Step::Discard
            })
        }),
        step_after(206, None, resumed, first) == Step::Discard,
{
    law_numbers_read_back(start);
    law_numbers_read_back(last);
    law_numbers_read_back(total);
    lemma_content_range(decimal(start), decimal(last), decimal(total));
}

/// What is read from a content range, given its parts.
proof fn lemma_content_range(first: Seq<char>, last: Seq<char>, total: Seq<char>)
    requires
        is_number(first),
        is_number(last),
        is_number(total) || total == seq!['*'],
    ensures
        range_start("bytes "@ + first + seq!['-'] + last + seq!['/'] + total) == (if digits_value(
            first,
        ) <= digits_value(last) && digits_value(first) <= u64::MAX {
            Some(digits_value(first) as u64)
        } else {
            None
        }),
{
    let v = "bytes "@ + first + seq!['-'] + last + seq!['/'] + total;
    reveal_strlit("bytes ");
    assert(v[0] == 'b');
    assert(v.last() == total[total.len() - 1]);
    assert(!is_space(v.last())) by {
        if is_number(total) {
            assert(is_digit(total[total.len() - 1]));
        }
    }
    let none = Seq::<char>::empty();
    law_trimming_takes_outer_space(none, v, none);
    assert(none + v + none =~= v);
    let rest = v.skip(6);
    assert(v.take(6) =~= "bytes "@);
    assert(rest =~= first + seq!['-'] + last + seq!['/'] + total);
    let dash = first.len() as int;
    let slash = dash + 1 + last.len();
    lemma_find_char(rest, '-', 0);
    lemma_find_char(rest, '/', 0);
    assert(rest[dash] == '-');
    assert(rest[slash] == '/');
    assert forall|k: int| 0 <= k < dash implies is_digit(#[trigger] rest[k]) by {
        assert(rest[k] == first[k]);
    }
    assert forall|k: int| dash < k < slash implies is_digit(#[trigger] rest[k]) by {
        assert(rest[k] == last[k - dash - 1]);
    }
    assert(find_char(rest, '-', 0) == Some(dash)) by {
        let found = find_char(rest, '-', 0)->0;
        assert(found < dash ==> is_digit(rest[found]));
    }
    assert(find_char(rest, '/', 0) == Some(slash)) by {
        let found = find_char(rest, '/', 0)->0;
        assert(found < dash ==> is_digit(rest[found]));
        assert(dash < found < slash ==> is_digit(rest[found]));
    }
    assert(rest.take(dash) =~= first);
    assert(rest.subrange(dash + 1, slash) =~= last);
    assert(rest.skip(slash + 1) =~= total);
}

/// What is asked for names the byte where the part file ends, and nothing is asked for without
/// one.
pub proof fn law_requests_begin_where_the_part_file_ends(resumed: u64)
    ensures
        resumed == 0 ==> range_of(resumed) is None,
        resumed > 0 ==> range_of(resumed) == Some("bytes="@ + decimal(resumed as nat) + "-"@),
        forall|other: u64| other != resumed ==> #[trigger] range_of(other) != range_of(resumed),
{
    assert forall|other: u64| other != resumed implies #[trigger] range_of(other) != range_of(
        resumed,
    ) by {
        if other > 0 && resumed > 0 && range_of(other) == range_of(resumed) {
            reveal_strlit("bytes=");
            reveal_strlit("-");
            let a = range_of(other)->0;
            let b = range_of(resumed)->0;
            assert(a.subrange(6, a.len() - 1) =~= decimal(other as nat));
            assert(b.subrange(6, b.len() - 1) =~= decimal(resumed as nat));
            law_numbers_read_back(other as nat);
            law_numbers_read_back(resumed as nat);
        }
    }
}

/// A number of seconds in an answer is how long to wait, with or without white space around it.
pub proof fn law_seconds_are_waited(
    lead: Seq<char>,
    trail: Seq<char>,
    secs: u64,
    now: (i64, u32),
)
    requires
        forall|i: int| 0 <= i < lead.len() ==> is_space(#[trigger] lead[i]),
        forall|i: int| 0 <= i < trail.len() ==> is_space(#[trigger] trail[i]),
    ensures
        retry_delay(lead + decimal(secs as nat) + trail, now) == Some(Delay { secs, nanos: 0 }),
{
    law_numbers_read_back(secs as nat);
    let digits = decimal(secs as nat);
    assert('0' <= digits[0] <= '9' && '0' <= digits[digits.len() - 1] <= '9');
    law_trimming_takes_outer_space(lead, digits, trail);
}

/// A checksum shows every byte as two digits to the base sixteen, the higher one first: the bytes
/// can be read off it.
pub proof fn law_checksums_show_every_byte(bytes: Seq<u8>, i: int)
    requires
        0 <= i < bytes.len(),
    ensures
        hex(bytes).len() == 2 * bytes.len(),
        digit_shown(hex(bytes)[2 * i]) * 16 + digit_shown(hex(bytes)[2 * i + 1]) == bytes[i],
        0 <= digit_shown(hex(bytes)[2 * i]) < 16,
        0 <= digit_shown(hex(bytes)[2 * i + 1]) < 16,
    decreases bytes.len(),
{
    let shorter = bytes.drop_last();
    lemma_hex_len(bytes);
    lemma_hex_len(shorter);
    if i < shorter.len() {
        law_checksums_show_every_byte(shorter, i);
        assert(hex(bytes)[2 * i] == hex(shorter)[2 * i]);
        assert(hex(bytes)[2 * i + 1] == hex(shorter)[2 * i + 1]);
    }
}

/// The value of a digit to the base sixteen, in lower case.
pub open spec fn digit_shown(c: char) -> int {
    if '0' <= c <= '9' {
        c as int - '0' as int
    } else if 'a' <= c <= 'f' {
        c as int - 'a' as int + 10
    } else {
        -1
    }
}

/// What has arrived and what is still awaited add up to what was awaited before, until nothing
/// is.
pub proof fn law_awaited_bytes_count_down(remaining: u64, chunk: nat)
    ensures
        chunk <= remaining ==> left_after(remaining, chunk) + chunk == remaining,
        chunk > remaining ==> left_after(remaining, chunk) == 0,
{
}

/// A download is restarted at most once: the answer to the second request never asks for it.
pub proof fn law_restarts_once(status: u16, content_range: Option<Seq<char>>)
    ensures
        step_after(status, content_range, 0, false) != Step::Restart,
        step_after(status, content_range, 0, false) != Step::Append,
        step_after(status, content_range, 0, false) != Step::Discard,
{
}

/// A body that arrives in pieces is taken in as the bytes that the part file held, followed by
/// the pieces in their order.
pub open spec fn after_pieces(held: Seq<u8>, pieces: Seq<Seq<u8>>) -> Seq<u8>
    decreases pieces.len(),
{
    if pieces.len() == 0 {
        held
    } else {
        after_pieces(held, pieces.drop_last()) + pieces.last()
    }
}

/// The checksum does not depend on how the file was cut: taking in the part file and then the
/// pieces of the rest gives the contents, and so the checksum, of the whole file.
pub proof fn law_resumed_contents(held: Seq<u8>, pieces: Seq<Seq<u8>>)
    ensures
        after_pieces(held, pieces) == held + pieces.flatten(),
        after_pieces(Seq::<u8>::empty(), seq![held] + pieces) == after_pieces(held, pieces),
{
    lemma_pieces_flatten(held, pieces);
    lemma_pieces_flatten(Seq::<u8>::empty(), seq![held] + pieces);
    vstd::seq_lib::lemma_flatten_concat(seq![held], pieces);
    seq![held].lemma_flatten_one_element();
    assert((seq![held] + pieces).flatten() =~= held + pieces.flatten());
    assert(Seq::<u8>::empty() + (held + pieces.flatten()) =~= held + pieces.flatten());
}

/// Pieces are taken in as if they were one.
proof fn lemma_pieces_flatten(held: Seq<u8>, pieces: Seq<Seq<u8>>)
    ensures
        after_pieces(held, pieces) == held + pieces.flatten(),
    decreases pieces.len(),
{
    if pieces.len() > 0 {
        lemma_pieces_flatten(held, pieces.drop_last());
        pieces.lemma_flatten_and_flatten_alt_are_equivalent();
        pieces.drop_last().lemma_flatten_and_flatten_alt_are_equivalent();
        assert(pieces.flatten() =~= pieces.drop_last().flatten() + pieces.last());
        assert(held + pieces.flatten() =~= held + pieces.drop_last().flatten() + pieces.last());
    } else {
        assert(held + pieces.flatten() =~= held);
    }
}

/// Waiting lasts exactly until the moment that was given; there is no wait for one that has
/// passed.
pub proof fn law_waits_last_until_the_moment(
    wait: Option<Delay>,
    target: (i64, u32),
    now: (i64, u32),
)
    requires
        is_ordinary(target),
        is_ordinary(now),
        is_wait(wait, target, now),
    ensures
        wait is Some <==> target.0 * 1_000_000_000 + target.1 > now.0 * 1_000_000_000 + now.1,
        wait matches Some(delay) ==> now.0 * 1_000_000_000 + now.1 + delay.secs * 1_000_000_000
            + delay.nanos == target.0 * 1_000_000_000 + target.1 && delay.nanos < 1_000_000_000,
{
}

/// A date in an answer is waited for.
pub proof fn law_dates_are_waited_for(wait: Option<Delay>, value: Seq<char>, now: (i64, u32))
    requires
        is_retry_delay(wait, value, now),
        parsed_u64(trimmed(value)) is None,
    ensures
        rfc2822_time(trimmed(value)) is None ==> wait is None,
        rfc2822_time(trimmed(value)) matches Some(target) ==> is_ordinary(target) ==> is_ordinary(
            now,
        ) ==> is_wait(wait, target, now),
{
}

/// A part file is not continued with a content range whose positions are out of order, and is
/// with one whose whole length is not told.
pub proof fn law_content_ranges_are_in_order(resumed: u64, last: nat, first: bool)
    requires
        resumed > 0,
    ensures
        ({
            let range = "bytes "@ + decimal(resumed as nat) + seq!['-'] + decimal(last) + seq!['/']
                + seq!['*'];
            step_after(206, Some(range), resumed, first) == (if last >= resumed {
                Step::Append
            } else {
                Step::Discard
            })
        }),
{
    law_numbers_read_back(resumed as nat);
    law_numbers_read_back(last);
    lemma_content_range(decimal(resumed as nat), decimal(last), seq!['*']);
}

} // verus!
