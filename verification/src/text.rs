//! Character-level text operations, stated over `Seq<char>`.
use vstd::prelude::*;

verus! {

/// Appends one character to the end of a `String`, as `String::push` documents.
pub assume_specification[ String::push ](s: &mut String, c: char)
    ensures
        final(s)@ == old(s)@.push(c),
;

// ---------------------------------------------------------------------------
// Characters
// ---------------------------------------------------------------------------

/// The characters with the Unicode property `White_Space`.
pub open spec fn is_space(c: char) -> bool {
    ||| '\u{9}' <= c <= '\u{d}'
    ||| c == '\u{20}'
    ||| c == '\u{85}'
    ||| c == '\u{a0}'
    ||| c == '\u{1680}'
    ||| '\u{2000}' <= c <= '\u{200a}'
    ||| c == '\u{2028}'
    ||| c == '\u{2029}'
    ||| c == '\u{202f}'
    ||| c == '\u{205f}'
    ||| c == '\u{3000}'
}

/// Whether a character is white space.
pub fn is_whitespace(c: char) -> (r: bool)
    ensures
        r == is_space(c),
{
    ('\u{9}' <= c && c <= '\u{d}') || c == '\u{20}' || c == '\u{85}' || c == '\u{a0}' || c
        == '\u{1680}' || ('\u{2000}' <= c && c <= '\u{200a}') || c == '\u{2028}' || c == '\u{2029}'
        || c == '\u{202f}' || c == '\u{205f}' || c == '\u{3000}'
}

/// The lower-case form of an ASCII letter; any other character is itself.
pub open spec fn lower(c: char) -> char {
    if 'A' <= c <= 'Z' {
        ((c as u8 + 32) as u8) as char
    } else {
        c
    }
}

/// Lower-cases one character, ASCII letters only.
pub fn lower_char(c: char) -> (r: char)
    ensures
        r == lower(c),
{
    if 'A' <= c && c <= 'Z' {
        (c as u8 + 32) as char
    } else {
        c
    }
}

/// A text with its ASCII letters in lower case.
pub open spec fn lowered(s: Seq<char>) -> Seq<char> {
    s.map_values(|c: char| lower(c))
}

/// Whether two texts are equal up to the case of ASCII letters.
pub open spec fn same_ignoring_case(a: Seq<char>, b: Seq<char>) -> bool {
    lowered(a) == lowered(b)
}

// ---------------------------------------------------------------------------
// Conversions
// ---------------------------------------------------------------------------

/// The characters of a string slice.
pub fn chars_of(s: &str) -> (r: Vec<char>)
    ensures
        r@ == s@,
{
    let mut out: Vec<char> = Vec::new();
    for c in it: s.chars()
        invariant
            it.seq() == s@,
            out@ == it.seq().take(it.index() as int),
    {
        out.push(c);
    }
    out
}

/// The text made of `chars[from..to]`.
pub fn slice_text(chars: &Vec<char>, from: usize, to: usize) -> (r: String)
    requires
        from <= to <= chars@.len(),
    ensures
        r@ == chars@.subrange(from as int, to as int),
{
    let mut out: String = String::new();
    let mut i: usize = from;
    while i < to
        invariant
            from <= i <= to <= chars@.len(),
            out@ == chars@.subrange(from as int, i as int),
        decreases to - i,
    {
        out.push(chars[i]);
        i += 1;
        assert(chars@.subrange(from as int, i as int) =~= chars@.subrange(
            from as int,
            i - 1,
        ).push(chars@[i - 1]));
    }
    out
}

/// The characters `chars[from..to]` as a vector of their own.
pub fn slice_chars(chars: &Vec<char>, from: usize, to: usize) -> (r: Vec<char>)
    requires
        from <= to <= chars@.len(),
    ensures
        r@ == chars@.subrange(from as int, to as int),
{
    let mut out: Vec<char> = Vec::new();
    let mut i: usize = from;
    while i < to
        invariant
            from <= i <= to <= chars@.len(),
            out@ == chars@.subrange(from as int, i as int),
        decreases to - i,
    {
        out.push(chars[i]);
        i += 1;
    }
    out
}

/// The text made of all the given characters.
pub fn text_of(chars: &Vec<char>) -> (r: String)
    ensures
        r@ == chars@,
{
    assert(chars@.subrange(0, chars@.len() as int) =~= chars@);
    slice_text(chars, 0, chars.len())
}

/// The text of an optional string.
pub open spec fn text_view(text: Option<String>) -> Option<Seq<char>> {
    match text {
        Some(t) => Some(t@),
        None => None,
    }
}

/// The texts of a sequence of strings.
pub open spec fn texts(strings: Seq<String>) -> Seq<Seq<char>> {
    strings.map_values(|s: String| s@)
}

/// Whether two texts are equal.
pub fn same_text(a: &str, b: &str) -> (r: bool)
    ensures
        r == (a@ == b@),
{
    a.to_owned() == b.to_owned()
}

/// Whether two texts are equal up to the case of ASCII letters.
pub fn eq_ignore_ascii_case(a: &str, b: &str) -> (r: bool)
    ensures
        r == same_ignoring_case(a@, b@),
{
    same_chars(&lower_chars(&chars_of(a)), &lower_chars(&chars_of(b)))
}

// ---------------------------------------------------------------------------
// Runs and trimming
// ---------------------------------------------------------------------------

/// The predicate "is the character `c`".
pub open spec fn is_char(c: char) -> spec_fn(char) -> bool {
    |x: char| x == c
}

/// The predicate "is white space".
pub open spec fn is_blank() -> spec_fn(char) -> bool {
    |x: char| is_space(x)
}

/// The end of the longest run of `p` characters that starts at `i`.
pub open spec fn run_end(s: Seq<char>, i: int, p: spec_fn(char) -> bool) -> int
    decreases s.len() - i,
{
    if 0 <= i < s.len() && p(s[i]) {
        run_end(s, i + 1, p)
    } else {
        i
    }
}

/// The start of the longest run of `p` characters that ends before `j`.
pub open spec fn run_start(s: Seq<char>, j: int, p: spec_fn(char) -> bool) -> int
    decreases j,
{
    if 0 < j <= s.len() && p(s[j - 1]) {
        run_start(s, j - 1, p)
    } else {
        j
    }
}

/// A run does not leave the text, covers only `p` characters, and is as long as possible.
pub proof fn lemma_run_end(s: Seq<char>, i: int, p: spec_fn(char) -> bool)
    requires
        0 <= i <= s.len(),
    ensures
        i <= run_end(s, i, p) <= s.len(),
        forall|k: int| i <= k < run_end(s, i, p) ==> p(s[k]),
        run_end(s, i, p) < s.len() ==> !p(s[run_end(s, i, p)]),
    decreases s.len() - i,
{
    if i < s.len() && p(s[i]) {
        lemma_run_end(s, i + 1, p);
    }
}

/// The mirror image of `lemma_run_end`.
pub proof fn lemma_run_start(s: Seq<char>, j: int, p: spec_fn(char) -> bool)
    requires
        0 <= j <= s.len(),
    ensures
        0 <= run_start(s, j, p) <= j,
        forall|k: int| run_start(s, j, p) <= k < j ==> p(s[k]),
        run_start(s, j, p) > 0 ==> !p(s[run_start(s, j, p) - 1]),
    decreases j,
{
    if 0 < j && p(s[j - 1]) {
        lemma_run_start(s, j - 1, p);
    }
}

/// A text without its leading `p` characters.
pub open spec fn drop_leading(s: Seq<char>, p: spec_fn(char) -> bool) -> Seq<char> {
    s.skip(run_end(s, 0, p))
}

/// A text without its trailing `p` characters.
pub open spec fn drop_trailing(s: Seq<char>, p: spec_fn(char) -> bool) -> Seq<char> {
    s.take(run_start(s, s.len() as int, p))
}

/// A text without the leading occurrences of `c`.
pub open spec fn trim_start_of(s: Seq<char>, c: char) -> Seq<char> {
    drop_leading(s, is_char(c))
}

/// A text without the trailing occurrences of `c`.
pub open spec fn trim_end_of(s: Seq<char>, c: char) -> Seq<char> {
    drop_trailing(s, is_char(c))
}

/// A text without leading and trailing white space.
pub open spec fn trimmed(s: Seq<char>) -> Seq<char> {
    drop_trailing(drop_leading(s, is_blank()), is_blank())
}

/// The end of the run of `c` that starts at `from`.
pub fn char_run_end(s: &Vec<char>, from: usize, c: char) -> (r: usize)
    requires
        from <= s@.len(),
    ensures
        r == run_end(s@, from as int, is_char(c)),
        from <= r <= s@.len(),
{
    let mut i: usize = from;
    while i < s.len() && s[i] == c
        invariant
            from <= i <= s@.len(),
            run_end(s@, from as int, is_char(c)) == run_end(s@, i as int, is_char(c)),
        decreases s.len() - i,
    {
        i += 1;
    }
    i
}

/// The start of the run of `c` that ends before `to`.
pub fn char_run_start(s: &Vec<char>, to: usize, c: char) -> (r: usize)
    requires
        to <= s@.len(),
    ensures
        r == run_start(s@, to as int, is_char(c)),
        r <= to,
{
    let mut j: usize = to;
    while j > 0 && s[j - 1] == c
        invariant
            j <= to <= s@.len(),
            run_start(s@, to as int, is_char(c)) == run_start(s@, j as int, is_char(c)),
        decreases j,
    {
        j -= 1;
    }
    j
}

/// The end of the run of white space that starts at `from`.
pub fn blank_run_end(s: &Vec<char>, from: usize) -> (r: usize)
    requires
        from <= s@.len(),
    ensures
        r == run_end(s@, from as int, is_blank()),
        from <= r <= s@.len(),
{
    let mut i: usize = from;
    while i < s.len() && is_whitespace(s[i])
        invariant
            from <= i <= s@.len(),
            run_end(s@, from as int, is_blank()) == run_end(s@, i as int, is_blank()),
        decreases s.len() - i,
    {
        i += 1;
    }
    i
}

/// `trim_start_matches(c)` on characters.
pub fn trim_start_chars(s: &Vec<char>, c: char) -> (r: Vec<char>)
    ensures
        r@ == trim_start_of(s@, c),
{
    let i: usize = char_run_end(s, 0, c);
    assert(s@.skip(i as int) =~= s@.subrange(i as int, s@.len() as int));
    slice_chars(s, i, s.len())
}

/// `trim_end_matches(c)` on characters.
pub fn trim_end_chars(s: &Vec<char>, c: char) -> (r: Vec<char>)
    ensures
        r@ == trim_end_of(s@, c),
{
    let j: usize = char_run_start(s, s.len(), c);
    assert(s@.take(j as int) =~= s@.subrange(0, j as int));
    slice_chars(s, 0, j)
}

/// The text without the leading occurrences of `c`.
pub fn trim_start_matches(s: &str, c: char) -> (r: String)
    ensures
        r@ == trim_start_of(s@, c),
{
    text_of(&trim_start_chars(&chars_of(s), c))
}

/// `trim` on characters.
pub fn trim_chars(s: &Vec<char>) -> (r: Vec<char>)
    ensures
        r@ == trimmed(s@),
{
    let i: usize = blank_run_end(s, 0);
    assert(s@.skip(i as int) =~= s@.subrange(i as int, s@.len() as int));
    let rest: Vec<char> = slice_chars(s, i, s.len());
    let mut j: usize = rest.len();
    while j > 0 && is_whitespace(rest[j - 1])
        invariant
            j <= rest@.len(),
            run_start(rest@, rest@.len() as int, is_blank()) == run_start(
                rest@,
                j as int,
                is_blank(),
            ),
        decreases j,
    {
        j -= 1;
    }
    assert(rest@.take(j as int) =~= rest@.subrange(0, j as int));
    slice_chars(&rest, 0, j)
}

// ---------------------------------------------------------------------------
// Prefixes and searching
// ---------------------------------------------------------------------------

/// Whether `s` begins with `prefix`.
pub open spec fn begins_with(s: Seq<char>, prefix: Seq<char>) -> bool {
    prefix.len() <= s.len() && s.take(prefix.len() as int) == prefix
}

/// Whether `needle` stands in `s` at position `k`.
pub open spec fn occurs_at(s: Seq<char>, needle: Seq<char>, k: int) -> bool {
    0 <= k && k + needle.len() <= s.len() && s.subrange(k, k + needle.len()) == needle
}

/// Whether `needle` stands in `s` somewhere.
pub open spec fn occurs_in(s: Seq<char>, needle: Seq<char>) -> bool {
    exists|k: int| occurs_at(s, needle, k)
}

/// The first position from `k` on at which `needle` stands in `s`.
pub open spec fn find_from(s: Seq<char>, needle: Seq<char>, k: int) -> Option<int>
    decreases s.len() + 1 - k,
{
    if k < 0 || k + needle.len() > s.len() {
        None
    } else if occurs_at(s, needle, k) {
        Some(k)
    } else {
        find_from(s, needle, k + 1)
    }
}

/// The first position of the character `c` from `k` on.
pub open spec fn find_char(s: Seq<char>, c: char, k: int) -> Option<int>
    decreases s.len() - k,
{
    if k < 0 || k >= s.len() {
        None
    } else if s[k] == c {
        Some(k)
    } else {
        find_char(s, c, k + 1)
    }
}

/// What `find_from` finds is the least position, and it finds one if there is one.
pub proof fn lemma_find_from(s: Seq<char>, needle: Seq<char>, k: int)
    requires
        0 <= k,
    ensures
        match find_from(s, needle, k) {
            Some(i) => k <= i && occurs_at(s, needle, i) && (forall|j: int|
                k <= j < i ==> !occurs_at(s, needle, j)),
            None => forall|j: int| k <= j ==> !occurs_at(s, needle, j),
        },
    decreases s.len() + 1 - k,
{
    if k + needle.len() <= s.len() && !occurs_at(s, needle, k) {
        lemma_find_from(s, needle, k + 1);
    }
}

/// What `find_char` finds is the least position, and it finds one if there is one.
pub proof fn lemma_find_char(s: Seq<char>, c: char, k: int)
    requires
        0 <= k,
    ensures
        match find_char(s, c, k) {
            Some(i) => k <= i < s.len() && s[i] == c && (forall|j: int| k <= j < i ==> s[j] != c),
            None => forall|j: int| k <= j < s.len() ==> s[j] != c,
        },
    decreases s.len() - k,
{
    if k < s.len() && s[k] != c {
        lemma_find_char(s, c, k + 1);
    }
}

/// Whether `chars` begins with `prefix`.
pub fn starts_with(chars: &Vec<char>, prefix: &Vec<char>) -> (r: bool)
    ensures
        r == begins_with(chars@, prefix@),
{
    if prefix.len() > chars.len() {
        return false;
    }
    let mut i: usize = 0;
    while i < prefix.len()
        invariant
            i <= prefix@.len() <= chars@.len(),
            forall|k: int| 0 <= k < i ==> chars@[k] == prefix@[k],
        decreases prefix.len() - i,
    {
        if chars[i] != prefix[i] {
            assert(chars@.take(prefix@.len() as int)[i as int] != prefix@[i as int]);
            return false;
        }
        i += 1;
    }
    assert(chars@.take(prefix@.len() as int) =~= prefix@);
    true
}

/// Whether two character vectors are equal.
pub fn same_chars(a: &Vec<char>, b: &Vec<char>) -> (r: bool)
    ensures
        r == (a@ == b@),
{
    assert(a@.len() == b@.len() ==> a@.take(b@.len() as int) =~= a@);
    a.len() == b.len() && starts_with(a, b)
}

/// The position of `c` at or after `from`.
pub fn position_of(chars: &Vec<char>, c: char, from: usize) -> (r: Option<usize>)
    requires
        from <= chars@.len(),
    ensures
        match r {
            Some(i) => from <= i < chars@.len() && find_char(chars@, c, from as int) == Some(
                i as int,
            ),
            None => find_char(chars@, c, from as int) is None,
        },
{
    let mut i: usize = from;
    while i < chars.len()
        invariant
            from <= i <= chars@.len(),
            find_char(chars@, c, from as int) == find_char(chars@, c, i as int),
        decreases chars.len() - i,
    {
        if chars[i] == c {
            return Some(i);
        }
        i += 1;
    }
    None
}

/// Whether `needle` stands in `chars` at `k`.
fn stands_at(chars: &Vec<char>, needle: &Vec<char>, k: usize) -> (r: bool)
    requires
        k + needle@.len() <= chars@.len(),
    ensures
        r == occurs_at(chars@, needle@, k as int),
{
    let mut i: usize = 0;
    let n: usize = chars.len();
    while i < needle.len()
        invariant
            n == chars@.len(),
            i <= needle@.len(),
            k + needle@.len() <= n,
            forall|j: int| 0 <= j < i ==> chars@[k + j] == needle@[j],
        decreases needle.len() - i,
    {
        if chars[k + i] != needle[i] {
            assert(chars@.subrange(k as int, k + needle@.len())[i as int] != needle@[i as int]);
            return false;
        }
        i += 1;
    }
    assert(chars@.subrange(k as int, k + needle@.len()) =~= needle@);
    true
}

/// The first position of `needle` in `chars` at or after `from`.
pub fn find_text(chars: &Vec<char>, needle: &Vec<char>, from: usize) -> (r: Option<usize>)
    requires
        from <= chars@.len(),
    ensures
        match r {
            Some(i) => from <= i && i + needle@.len() <= chars@.len() && find_from(
                chars@,
                needle@,
                from as int,
            ) == Some(i as int),
            None => find_from(chars@, needle@, from as int) is None,
        },
{
    let n: usize = needle.len();
    if n > chars.len() {
        return None;
    }
    let mut k: usize = from;
    while k <= chars.len() - n
        invariant
            n == needle@.len(),
            n <= chars@.len(),
            from <= k <= chars@.len() + 1,
            find_from(chars@, needle@, from as int) == find_from(chars@, needle@, k as int),
        decreases chars.len() + 1 - k,
    {
        if stands_at(chars, needle, k) {
            return Some(k);
        }
        if k == chars.len() {
            assert(find_from(chars@, needle@, k + 1) is None);
            return None;
        }
        k += 1;
    }
    None
}

/// Whether `needle` stands in `chars` somewhere.
pub fn contains_text(chars: &Vec<char>, needle: &Vec<char>) -> (r: bool)
    ensures
        r == occurs_in(chars@, needle@),
{
    proof {
        lemma_find_from(chars@, needle@, 0);
    }
    match find_text(chars, needle, 0) {
        Some(k) => {
            assert(occurs_at(chars@, needle@, k as int));
            true
        },
        None => false,
    }
}

/// The characters in lower case, ASCII letters only.
pub fn lower_chars(chars: &Vec<char>) -> (r: Vec<char>)
    ensures
        r@ == lowered(chars@),
{
    let mut out: Vec<char> = Vec::new();
    let mut i: usize = 0;
    while i < chars.len()
        invariant
            i <= chars@.len(),
            out@ == lowered(chars@.take(i as int)),
        decreases chars.len() - i,
    {
        out.push(lower_char(chars[i]));
        i += 1;
        assert(lowered(chars@.take(i as int)) =~= lowered(chars@.take(i - 1)).push(
            lower(chars@[i - 1]),
        ));
    }
    assert(chars@.take(i as int) =~= chars@);
    out
}

// ---------------------------------------------------------------------------
// Splitting
// ---------------------------------------------------------------------------

/// The pieces of a text between the occurrences of `c`; a text without `c` is one piece.
pub open spec fn split(s: Seq<char>, c: char) -> Seq<Seq<char>>
    decreases s.len(),
{
    match find_char(s, c, 0) {
        Some(i) => if 0 <= i < s.len() {
            seq![s.take(i)] + split(s.skip(i + 1), c)
        } else {
            seq![s]
        },
        None => seq![s],
    }
}

/// Searching a suffix is searching the whole text from the suffix's start.
pub proof fn lemma_find_char_skip(s: Seq<char>, c: char, start: int, k: int)
    requires
        0 <= start <= s.len(),
        0 <= k,
    ensures
        find_char(s.skip(start), c, k) == (match find_char(s, c, start + k) {
            Some(i) => Some(i - start),
            None => None::<int>,
        }),
    decreases s.len() - start - k,
{
    if k < s.len() - start && s[start + k] != c {
        lemma_find_char_skip(s, c, start, k + 1);
    }
}

/// The pieces of `chars` between the occurrences of `c`.
pub fn split_chars(chars: &Vec<char>, c: char) -> (r: Vec<Vec<char>>)
    ensures
        r@.len() == split(chars@, c).len(),
        forall|i: int| 0 <= i < r@.len() ==> (#[trigger] r@[i])@ == split(chars@, c)[i],
{
    let mut out: Vec<Vec<char>> = Vec::new();
    let mut start: usize = 0;
    let ghost whole: Seq<Seq<char>> = split(chars@, c);
    proof {
        assert(chars@.skip(0) =~= chars@);
    }
    loop
        invariant
            start <= chars@.len(),
            out@.len() <= whole.len(),
            whole == whole.take(out@.len() as int) + split(chars@.skip(start as int), c),
            whole == split(chars@, c),
            forall|i: int| 0 <= i < out@.len() ==> (#[trigger] out@[i])@ == whole[i],
        decreases chars.len() - start,
    {
        let ghost rest: Seq<char> = chars@.skip(start as int);
        proof {
            lemma_find_char_skip(chars@, c, start as int, 0);
        }
        match position_of(chars, c, start) {
            Some(i) => {
                let piece: Vec<char> = slice_chars(chars, start, i);
                proof {
                    assert(rest.take(i - start) =~= chars@.subrange(start as int, i as int));
                    assert(rest.skip(i - start + 1) =~= chars@.skip(i + 1));
                    assert(whole[out@.len() as int] == rest.take(i - start));
                    assert(whole =~= whole.take((out@.len() + 1) as int) + split(chars@.skip(i + 1), c));
                }
                out.push(piece);
                start = i + 1;
            },
            None => {
                let piece: Vec<char> = slice_chars(chars, start, chars.len());
                proof {
                    assert(rest =~= chars@.subrange(start as int, chars@.len() as int));
                    assert(split(rest, c) =~= seq![rest]);
                    assert(whole[out@.len() as int] == rest);
                }
                out.push(piece);
                return out;
            },
        }
    }
}

// ---------------------------------------------------------------------------
// Numbers
// ---------------------------------------------------------------------------

/// The character of a decimal digit.
pub open spec fn digit_char(d: int) -> char {
    ((48 + d) as u8) as char
}

/// The decimal notation of a number, without leading zeros.
pub open spec fn decimal(n: nat) -> Seq<char>
    decreases n,
{
    if n < 10 {
        seq![digit_char(n as int)]
    } else {
        decimal(n / 10).push(digit_char((n % 10) as int))
    }
}

/// Appends the decimal notation of `n` to `out`.
pub fn push_decimal(out: &mut String, n: u64)
    ensures
        final(out)@ == old(out)@ + decimal(n as nat),
    decreases n,
{
    if n >= 10 {
        push_decimal(out, n / 10);
        let d: u8 = (n % 10) as u8;
        out.push((48 + d) as char);
        proof {
            assert(out@ =~= old(out)@ + decimal(n as nat));
        }
    } else {
        let d: u8 = n as u8;
        out.push((48 + d) as char);
        proof {
            assert(out@ =~= old(out)@ + decimal(n as nat));
        }
    }
}

/// The decimal notation of a signed number: a minus sign before the magnitude of a negative one.
pub open spec fn signed_decimal(n: int) -> Seq<char> {
    if n < 0 {
        seq!['-'] + decimal((-n) as nat)
    } else {
        decimal(n as nat)
    }
}

/// The decimal notation of a signed number.
pub fn signed_decimal_text(n: i64) -> (r: String)
    ensures
        r@ == signed_decimal(n as int),
{
    let mut out: String = String::new();
    if n < 0 {
        out.push('-');
        let m: u64 = if n == i64::MIN {
            9223372036854775808u64
        } else {
            (-n) as u64
        };
        push_decimal(&mut out, m);
        assert(out@ =~= signed_decimal(n as int));
    } else {
        push_decimal(&mut out, n as u64);
        assert(out@ =~= signed_decimal(n as int));
    }
    out
}

/// Whether a character is an ASCII digit.
pub open spec fn is_digit(c: char) -> bool {
    '0' <= c <= '9'
}

/// The number that a sequence of ASCII digits denotes.
pub open spec fn digits_value(s: Seq<char>) -> nat
    decreases s.len(),
{
    if s.len() == 0 {
        0
    } else {
        digits_value(s.drop_last()) * 10 + (s.last() as u32 - '0' as u32) as nat
    }
}

/// Whether a text consists of ASCII digits.
pub open spec fn all_digits(s: Seq<char>) -> bool {
    forall|i: int| 0 <= i < s.len() ==> is_digit(#[trigger] s[i])
}

/// Whether a text is a number: digits, at least one.
pub open spec fn is_number(s: Seq<char>) -> bool {
    s.len() > 0 && all_digits(s)
}

/// An unsigned number in decimal notation: an optional plus sign, then digits only, at least
/// one, whose value fits in 64 bits.
pub open spec fn parsed_u64(s: Seq<char>) -> Option<u64> {
    let digits = if s.len() > 0 && s[0] == '+' {
        s.skip(1)
    } else {
        s
    };
    if digits.len() > 0 && all_digits(digits) && digits_value(digits) <= u64::MAX {
        Some(digits_value(digits) as u64)
    } else {
        None
    }
}

/// Longer digit sequences do not denote smaller numbers.
proof fn lemma_digits_grow(s: Seq<char>, i: int)
    requires
        0 <= i <= s.len(),
        all_digits(s),
    ensures
        digits_value(s.take(i)) <= digits_value(s),
    decreases s.len() - i,
{
    if i == s.len() {
        assert(s.take(i) =~= s);
    } else {
        assert(s.take(i + 1).drop_last() =~= s.take(i));
        lemma_digits_grow(s, i + 1);
    }
}

/// Reads an unsigned number in decimal notation.
pub fn parse_u64(chars: &Vec<char>) -> (r: Option<u64>)
    ensures
        r == parsed_u64(chars@),
{
    let start: usize = if chars.len() > 0 && chars[0] == '+' {
        1
    } else {
        0
    };
    let ghost digits: Seq<char> = chars@.skip(start as int);
    proof {
        assert(chars@.skip(0) =~= chars@);
    }
    if start == chars.len() {
        return None;
    }
    let mut value: u64 = 0;
    let mut i: usize = start;
    while i < chars.len()
        invariant
            start <= i <= chars@.len(),
            digits == chars@.skip(start as int),
            value == digits_value(digits.take(i - start)),
            forall|k: int| 0 <= k < i - start ==> is_digit(#[trigger] digits[k]),
            parsed_u64(chars@) == (if digits.len() > 0 && all_digits(digits) && digits_value(digits)
                <= u64::MAX {
                Some(digits_value(digits) as u64)
            } else {
                None
            }),
        decreases chars.len() - i,
    {
        let c: char = chars[i];
        assert(digits[i - start] == c);
        if !('0' <= c && c <= '9') {
            return None;
        }
        let d: u64 = c as u64 - '0' as u64;
        proof {
            let longer = digits.take(i - start + 1);
            assert(longer.drop_last() =~= digits.take(i - start));
            assert(longer.last() == c);
            assert(digits_value(longer) == value * 10 + d);
        }
        if value > (u64::MAX - d) / 10 {
            proof {
                if all_digits(digits) {
                    lemma_digits_grow(digits, i - start + 1);
                }
            }
            return None;
        }
        value = value * 10 + d;
        i += 1;
    }
    assert(digits.take(i - start) =~= digits);
    Some(value)
}

// ---------------------------------------------------------------------------
// Layout
// ---------------------------------------------------------------------------

/// A text followed by as many spaces as make it `width` characters long.
pub open spec fn padded(s: Seq<char>, width: nat) -> Seq<char> {
    if s.len() >= width {
        s
    } else {
        s + Seq::new((width - s.len()) as nat, |i: int| ' ')
    }
}

/// Appends `s` and then spaces up to a width of `width` characters.
pub fn push_padded(out: &mut String, s: &str, width: usize)
    ensures
        final(out)@ == old(out)@ + padded(s@, width as nat),
{
    let chars: Vec<char> = chars_of(s);
    out.append(s);
    let mut n: usize = chars.len();
    assert(out@ =~= old(out)@ + s@ + Seq::new(0, |i: int| ' '));
    while n < width
        invariant
            chars@ == s@,
            chars@.len() <= n,
            n > chars@.len() ==> n <= width,
            out@ == old(out)@ + s@ + Seq::new((n - chars@.len()) as nat, |i: int| ' '),
        decreases width - n,
    {
        out.push(' ');
        n += 1;
        assert(Seq::new((n - chars@.len()) as nat, |i: int| ' ') =~= Seq::new(
            (n - 1 - chars@.len()) as nat,
            |i: int| ' ',
        ).push(' '));
        assert(out@ =~= old(out)@ + s@ + Seq::new((n - chars@.len()) as nat, |i: int| ' '));
    }
    assert(out@ =~= old(out)@ + padded(s@, width as nat));
}

// ---------------------------------------------------------------------------
// Laws
// ---------------------------------------------------------------------------

/// A text is cut at every separator, wherever it stands: the pieces of two texts with a
/// separator between them are the pieces of the first and then those of the second.
pub proof fn law_texts_are_cut_at_every_separator(a: Seq<char>, b: Seq<char>, c: char)
    ensures
        split(a + seq![c] + b, c) == split(a, c) + split(b, c),
    decreases a.len(),
{
    let whole = a + seq![c] + b;
    lemma_find_char(a, c, 0);
    lemma_find_char(whole, c, 0);
    match find_char(a, c, 0) {
        Some(i) => {
            let rest = a.skip(i + 1);
            assert(whole[i] == c);
            assert forall|j: int| 0 <= j < i implies whole[j] != c by {
                assert(whole[j] == a[j]);
            }
            assert(find_char(whole, c, 0) == Some(i));
            assert(whole.take(i) =~= a.take(i));
            assert(whole.skip(i + 1) =~= rest + seq![c] + b);
            law_texts_are_cut_at_every_separator(rest, b, c);
            assert(split(whole, c) =~= split(a, c) + split(b, c));
        },
        None => {
            let n = a.len() as int;
            assert(whole[n] == c);
            assert forall|j: int| 0 <= j < n implies whole[j] != c by {
                assert(whole[j] == a[j]);
            }
            assert(find_char(whole, c, 0) == Some(n));
            assert(whole.take(n) =~= a);
            assert(whole.skip(n + 1) =~= b);
        },
    }
}

/// A text is cut nowhere else: without a separator it is one piece.
pub proof fn law_texts_without_separator_stay_whole(s: Seq<char>, c: char)
    requires
        forall|i: int| 0 <= i < s.len() ==> #[trigger] s[i] != c,
    ensures
        split(s, c) == seq![s],
{
    lemma_find_char(s, c, 0);
}

/// A run of `p` characters, of any length, goes as far as the first other character.
pub proof fn lemma_run_ends_at(s: Seq<char>, i: int, p: spec_fn(char) -> bool, j: int)
    requires
        0 <= i <= j <= s.len(),
        forall|k: int| i <= k < j ==> p(#[trigger] s[k]),
        j < s.len() ==> !p(s[j]),
    ensures
        run_end(s, i, p) == j,
    decreases j - i,
{
    if i < j {
        assert(p(s[i]));
        lemma_run_ends_at(s, i + 1, p, j);
    }
}

/// The mirror image of `lemma_run_ends_at`.
pub proof fn lemma_run_starts_at(s: Seq<char>, j: int, p: spec_fn(char) -> bool, i: int)
    requires
        0 <= i <= j <= s.len(),
        forall|k: int| i <= k < j ==> p(#[trigger] s[k]),
        i > 0 ==> !p(s[i - 1]),
    ensures
        run_start(s, j, p) == i,
    decreases j - i,
{
    if i < j {
        assert(p(s[j - 1]));
        lemma_run_starts_at(s, j - 1, p, i);
    }
}

/// Trimming takes all of one character off an end of a text and nothing else.
pub proof fn law_trimming_takes_one_character(run: Seq<char>, s: Seq<char>, c: char)
    requires
        forall|i: int| 0 <= i < run.len() ==> #[trigger] run[i] == c,
    ensures
        s.len() == 0 || s[0] != c ==> trim_start_of(run + s, c) == s,
        s.len() == 0 || s.last() != c ==> trim_end_of(s + run, c) == s,
{
    if s.len() == 0 || s[0] != c {
        let whole = run + s;
        lemma_run_ends_at(whole, 0, is_char(c), run.len() as int);
        assert(whole.skip(run.len() as int) =~= s);
    }
    if s.len() == 0 || s.last() != c {
        let whole = s + run;
        lemma_run_starts_at(whole, whole.len() as int, is_char(c), s.len() as int);
        assert(whole.take(s.len() as int) =~= s);
    }
}

/// Trimming takes white space off both ends of a text and leaves all that lies between.
pub proof fn law_trimming_takes_outer_space(lead: Seq<char>, s: Seq<char>, trail: Seq<char>)
    requires
        forall|i: int| 0 <= i < lead.len() ==> is_space(#[trigger] lead[i]),
        forall|i: int| 0 <= i < trail.len() ==> is_space(#[trigger] trail[i]),
        s.len() > 0 ==> !is_space(s[0]) && !is_space(s.last()),
    ensures
        trimmed(lead + s + trail) == s,
{
    let whole = lead + s + trail;
    let p = is_blank();
    if s.len() > 0 {
        lemma_run_ends_at(whole, 0, p, lead.len() as int);
        let rest = whole.skip(lead.len() as int);
        assert(rest =~= s + trail);
        lemma_run_starts_at(rest, rest.len() as int, p, s.len() as int);
        assert(rest.take(s.len() as int) =~= s);
    } else {
        assert forall|k: int| 0 <= k < whole.len() implies p(#[trigger] whole[k]) by {
            if k < lead.len() {
                assert(whole[k] == lead[k]);
            } else {
                assert(whole[k] == trail[k - lead.len()]);
            }
        }
        lemma_run_ends_at(whole, 0, p, whole.len() as int);
        assert(whole.skip(whole.len() as int) =~= s);
        lemma_run_starts_at(s, 0, p, 0);
        assert(s.take(0) =~= s);
    }
}

/// Among ASCII characters white space is the space and the five controls from the tab to the
/// carriage return.
pub proof fn law_ascii_white_space(c: char)
    requires
        c <= '\u{7f}',
    ensures
        is_space(c) <==> c == ' ' || c == '\t' || c == '\n' || c == '\u{b}' || c == '\u{c}' || c
            == '\r',
{
}

/// Lower case differs from a text only in ASCII capitals, by 32 each.
pub proof fn law_lower_case_changes_capitals_only(s: Seq<char>, i: int)
    requires
        0 <= i < s.len(),
    ensures
        lowered(s).len() == s.len(),
        'A' <= s[i] <= 'Z' ==> lowered(s)[i] as int == s[i] as int + 32,
        !('A' <= s[i] <= 'Z') ==> lowered(s)[i] == s[i],
{
}

/// A number reads back from its decimal notation, also with a plus sign before it.  The notation
/// consists of digits, the last of them the remainder by ten, and has no zeros in front.
pub proof fn law_numbers_read_back(n: nat)
    ensures
        digits_value(decimal(n)) == n,
        is_number(decimal(n)),
        decimal(n).last() as int == '0' as int + n % 10,
        forall|i: int| 0 <= i < decimal(n).len() ==> '0' <= #[trigger] decimal(n)[i] <= '9',
        n > 0 ==> decimal(n)[0] != '0',
        n <= u64::MAX ==> parsed_u64(decimal(n)) == Some(n as u64),
        n <= u64::MAX ==> parsed_u64(seq!['+'] + decimal(n)) == Some(n as u64),
        n > u64::MAX ==> parsed_u64(decimal(n)) is None,
    decreases n,
{
    if n < 10 {
        assert(decimal(n).drop_last() =~= Seq::<char>::empty());
        assert(digits_value(decimal(n).drop_last()) == 0);
    } else {
        law_numbers_read_back(n / 10);
        assert(decimal(n).drop_last() =~= decimal(n / 10));
    }
    assert((seq!['+'] + decimal(n)).skip(1) =~= decimal(n));
}

/// A text with anything but digits in it, or without any, is no number.
pub proof fn law_only_digits_are_numbers(s: Seq<char>, i: int)
    requires
        0 <= i < s.len(),
        !('0' <= s[i] <= '9'),
        i > 0 || s[i] != '+',
    ensures
        parsed_u64(s) is None,
        parsed_u64(Seq::<char>::empty()) is None,
        parsed_u64(seq!['+']) is None,
{
    if s[0] == '+' {
        assert(s.skip(1)[i - 1] == s[i]);
    }
    assert(seq!['+'].skip(1) =~= Seq::<char>::empty());
}

/// Padding only adds spaces behind a text, as many as bring it to the width.
pub proof fn law_padding_adds_spaces_behind(s: Seq<char>, width: nat)
    ensures
        padded(s, width).len() == (if s.len() < width {
            width
        } else {
            s.len()
        }),
        padded(s, width).take(s.len() as int) == s,
        forall|i: int| s.len() <= i < padded(s, width).len() ==> #[trigger] padded(s, width)[i] == ' ',
{
    assert(padded(s, width).take(s.len() as int) =~= s);
}

/// A negative number is written as its amount with a minus sign before it.
pub proof fn law_negative_numbers_have_a_sign(n: int)
    ensures
        n >= 0 ==> signed_decimal(n) == decimal(n as nat),
        n < 0 ==> signed_decimal(n) == seq!['-'] + decimal((-n) as nat),
{
}

} // verus!
