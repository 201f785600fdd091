//! Character-level helpers: conversions, scanning and comma-separated fields.

use vstd::prelude::*;

verus! {

/// The characters of `s`, in order.
pub fn chars_of(s: &str) -> (out: Vec<char>)
    ensures
        out@ == s@,
{
    let mut out: Vec<char> = Vec::new();
    let mut it = s.chars();
    for c in iter: it
        invariant
            out@ == iter.seq().take(iter.index() as int),
    {
        out.push(c);
    }
    out
}

/// Builds a string from characters by `String::from_iter`, which keeps every
/// character in its place.
#[verifier::external_body]
pub(crate) fn string_of(chars: &Vec<char>) -> (s: String)
    ensures
        s@ == chars@,
{
    chars.iter().collect()
}

/// Whether two character vectors hold the same text.
pub fn same_chars(a: &Vec<char>, b: &Vec<char>) -> (same: bool)
    ensures
        same == (a@ == b@),
{
    if a.len() != b.len() {
        return false;
    }
    let mut i: usize = 0;
    while i < a.len()
        invariant
            i <= a.len(),
            a.len() == b.len(),
            forall|j: int| 0 <= j < i ==> a@[j] == b@[j],
        decreases a.len() - i,
    {
        if a[i] != b[i] {
            return false;
        }
        i += 1;
    }
    assert(a@ =~= b@);
    true
}

/// Whether `chars` holds the text `word`.
pub fn is_text(chars: &Vec<char>, word: &str) -> (same: bool)
    ensures
        same == (chars@ == word@),
{
    let other = chars_of(word);
    same_chars(chars, &other)
}

/// The first position at or after `i` where `s` holds `c`; the length of `s`
/// (or `i`, if that is larger) when there is none.
pub open spec fn scan(s: Seq<char>, c: char, i: int) -> int
    decreases s.len() - i,
{
    if i < 0 || i >= s.len() || s[i] == c {
        i
    } else {
        scan(s, c, i + 1)
    }
}

/// `scan` stops inside the text or at its end, and never moves backwards.
pub proof fn lemma_scan_bounds(s: Seq<char>, c: char, i: int)
    requires
        0 <= i <= s.len(),
    ensures
        i <= scan(s, c, i) <= s.len(),
        scan(s, c, i) < s.len() ==> s[scan(s, c, i)] == c,
        forall|j: int| i <= j < scan(s, c, i) ==> s[j] != c,
    decreases s.len() - i,
{
    if i < s.len() && s[i] != c {
        lemma_scan_bounds(s, c, i + 1);
    }
}

/// Executable `scan`.
pub(crate) fn find_from(chars: &Vec<char>, c: char, from: usize) -> (at: usize)
    requires
        from <= chars.len(),
    ensures
        at == scan(chars@, c, from as int),
        from <= at <= chars.len(),
{
    let mut at: usize = from;
    while at < chars.len() && chars[at] != c
        invariant
            from <= at <= chars.len(),
            scan(chars@, c, from as int) == scan(chars@, c, at as int),
        decreases chars.len() - at,
    {
        at += 1;
    }
    at
}

/// Where comma-separated field `n` of `s` begins. A field that does not
/// exist begins beyond the end of `s`.
pub open spec fn field_start(s: Seq<char>, n: nat) -> int
    decreases n,
{
    if n == 0 {
        0
    } else {
        scan(s, ',', field_start(s, (n - 1) as nat)) + 1
    }
}

/// Whether `s` has a comma-separated field `n` (counted from zero).
pub open spec fn has_field(s: Seq<char>, n: nat) -> bool {
    field_start(s, n) <= s.len()
}

/// Comma-separated field `n` of `s`: the text between the `n`-th comma and
/// the next one.
pub open spec fn field(s: Seq<char>, n: nat) -> Seq<char> {
    s.subrange(field_start(s, n), scan(s, ',', field_start(s, n)))
}

/// Fields begin one after another, at least one character apart.
pub proof fn lemma_field_start_grows(s: Seq<char>, n: nat, m: nat)
    requires
        n <= m,
    ensures
        field_start(s, n) + (m - n) <= field_start(s, m),
        0 <= field_start(s, n),
    decreases m,
{
    if n == 0 && m == 0 {
    } else if n == m {
        lemma_field_start_grows(s, (n - 1) as nat, (n - 1) as nat);
        let p = field_start(s, (n - 1) as nat);
        if p <= s.len() {
            lemma_scan_bounds(s, ',', p);
        }
    } else {
        lemma_field_start_grows(s, n, (m - 1) as nat);
        let p = field_start(s, (m - 1) as nat);
        if p <= s.len() {
            lemma_scan_bounds(s, ',', p);
        }
    }
}

/// A copy of `chars[from..to]`.
pub(crate) fn slice_of(chars: &Vec<char>, from: usize, to: usize) -> (out: Vec<char>)
    requires
        from <= to <= chars.len(),
    ensures
        out@ == chars@.subrange(from as int, to as int),
{
    let mut out: Vec<char> = Vec::new();
    let mut i: usize = from;
    while i < to
        invariant
            from <= i <= to <= chars.len(),
            out@ == chars@.subrange(from as int, i as int),
        decreases to - i,
    {
        out.push(chars[i]);
        i += 1;
    }
    out
}

/// The bounds of comma-separated field `n`, if the text has that field.
pub fn field_span(chars: &Vec<char>, n: usize) -> (span: Option<(usize, usize)>)
    ensures
        span is Some <==> has_field(chars@, n as nat),
        span matches Some((a, b)) ==> a == field_start(chars@, n as nat) && b == scan(
            chars@,
            ',',
            a as int,
        ) && a <= b <= chars.len(),
{
    let mut start: usize = 0;
    let mut k: usize = 0;
    while k < n
        invariant
            k <= n,
            start <= chars.len(),
            start == field_start(chars@, k as nat),
        decreases n - k,
    {
        let end = find_from(chars, ',', start);
        if end == chars.len() {
            proof {
                lemma_field_start_grows(chars@, (k + 1) as nat, n as nat);
            }
            return None;
        }
        start = end + 1;
        k += 1;
    }
    let end = find_from(chars, ',', start);
    Some((start, end))
}

/// A copy of comma-separated field `n`, if the text has that field.
pub fn field_of(chars: &Vec<char>, n: usize) -> (out: Option<Vec<char>>)
    ensures
        out is Some <==> has_field(chars@, n as nat),
        out matches Some(f) ==> f@ == field(chars@, n as nat),
{
    match field_span(chars, n) {
        Some((a, b)) => Some(slice_of(chars, a, b)),
        None => None,
    }
}

/// Whether `c` is a blank: a space, a tab, a line feed, a vertical tab, a
/// form feed or a carriage return.
pub open spec fn is_space(c: char) -> bool {
    c == ' ' || (9 <= c as int <= 13)
}

/// Executable `is_space`.
pub fn space(c: char) -> (b: bool)
    ensures
        b == is_space(c),
{
    let code: u32 = c as u32;
    assert(code as int == c as int);
    c == ' ' || (code >= 9 && code <= 13)
}

/// The first position at or after `i` where `s` holds no blank; the length
/// of `s` (or `i`, if that is larger) when only blanks follow.
pub open spec fn skip_spaces(s: Seq<char>, i: int) -> int
    decreases s.len() - i,
{
    if i < 0 || i >= s.len() || !is_space(s[i]) {
        i
    } else {
        skip_spaces(s, i + 1)
    }
}

/// Executable `skip_spaces`.
pub(crate) fn after_spaces(chars: &Vec<char>, from: usize) -> (at: usize)
    requires
        from <= chars.len(),
    ensures
        at == skip_spaces(chars@, from as int),
        from <= at <= chars.len(),
{
    let mut at: usize = from;
    while at < chars.len() && space(chars[at])
        invariant
            from <= at <= chars.len(),
            skip_spaces(chars@, from as int) == skip_spaces(chars@, at as int),
        decreases chars.len() - at,
    {
        at += 1;
    }
    at
}

/// `s` without the blanks at its end.
pub open spec fn trim_end(s: Seq<char>) -> Seq<char>
    decreases s.len(),
{
    if s.len() > 0 && is_space(s.last()) {
        trim_end(s.drop_last())
    } else {
        s
    }
}

/// `s` without the blanks at its start and at its end.
pub open spec fn trimmed(s: Seq<char>) -> Seq<char> {
    if skip_spaces(s, 0) >= s.len() {
        Seq::<char>::empty()
    } else {
        trim_end(s.skip(skip_spaces(s, 0)))
    }
}

/// A copy of the text without the blanks at its start and at its end.
pub fn trim(chars: &Vec<char>) -> (out: Vec<char>)
    ensures
        out@ == trimmed(chars@),
{
    let start = after_spaces(chars, 0);
    if start >= chars.len() {
        return Vec::new();
    }
    let mut end: usize = chars.len();
    assert(chars@.subrange(start as int, end as int) =~= chars@.skip(start as int));
    while end > start && space(chars[end - 1])
        invariant
            start <= end <= chars.len(),
            trim_end(chars@.skip(start as int)) == trim_end(
                chars@.subrange(start as int, end as int),
            ),
        decreases end,
    {
        assert(chars@.subrange(start as int, end as int).drop_last() =~= chars@.subrange(
            start as int,
            end - 1,
        ));
        end -= 1;
    }
    slice_of(chars, start, end)
}

/// Whether `needle` stands in `hay` at position `k`.
pub open spec fn occurs_at(hay: Seq<char>, needle: Seq<char>, k: int) -> bool {
    0 <= k && k + needle.len() <= hay.len() && hay.subrange(k, k + needle.len()) == needle
}

/// Whether `needle` stands somewhere in `hay`.
pub open spec fn contains_text(hay: Seq<char>, needle: Seq<char>) -> bool {
    exists|k: int| occurs_at(hay, needle, k)
}

/// Whether `needle` stands in `hay` at position `at`.
pub fn stands_at(hay: &Vec<char>, needle: &Vec<char>, at: usize) -> (b: bool)
    ensures
        b == occurs_at(hay@, needle@, at as int),
{
    if needle.len() > hay.len() || at > hay.len() - needle.len() {
        return false;
    }
    let ghost part = hay@.subrange(at as int, at + needle.len());
    let mut i: usize = 0;
    while i < needle.len()
        invariant
            i <= needle.len(),
            at + needle.len() <= hay.len(),
            part == hay@.subrange(at as int, at + needle.len()),
            forall|j: int| 0 <= j < i ==> part[j] == needle@[j],
        decreases needle.len() - i,
    {
        if hay[at + i] != needle[i] {
            assert(part[i as int] != needle@[i as int]);
            return false;
        }
        i += 1;
    }
    assert(part =~= needle@);
    true
}

/// Whether `needle` stands somewhere in `hay`.
pub fn find_text(hay: &Vec<char>, needle: &Vec<char>) -> (found: bool)
    ensures
        found == contains_text(hay@, needle@),
{
    if needle.len() > hay.len() {
        return false;
    }
    let last: usize = hay.len() - needle.len();
    let mut k: usize = 0;
    while k < last
        invariant
            k <= last,
            last == hay.len() - needle.len(),
            forall|j: int| 0 <= j < k ==> !occurs_at(hay@, needle@, j),
        decreases last - k,
    {
        if stands_at(hay, needle, k) {
            return true;
        }
        k += 1;
    }
    stands_at(hay, needle, last)
}

/// `c` with the capital letters A to Z made small; any other character
/// stays what it is.
pub open spec fn small(c: char) -> char {
    if 65 <= c as int <= 90 {
        (c as int + 32) as char
    } else {
        c
    }
}

/// `s` with the capital letters A to Z made small.
pub open spec fn small_text(s: Seq<char>) -> Seq<char> {
    Seq::new(s.len(), |i: int| small(s[i]))
}

fn small_of(c: char) -> (r: char)
    ensures
        r == small(c),
{
    let code: u32 = c as u32;
    assert(code as int == c as int);
    if code >= 65 && code <= 90 {
        (code as u8 + 32) as char
    } else {
        c
    }
}

/// A copy of the text with the capital letters A to Z made small.
pub fn to_small(chars: &Vec<char>) -> (out: Vec<char>)
    ensures
        out@ == small_text(chars@),
{
    let mut out: Vec<char> = Vec::new();
    let mut i: usize = 0;
    while i < chars.len()
        invariant
            i <= chars.len(),
            out@ == small_text(chars@.take(i as int)),
        decreases chars.len() - i,
    {
        out.push(small_of(chars[i]));
        assert(out@ =~= small_text(chars@.take(i + 1)));
        i += 1;
    }
    assert(chars@.take(i as int) =~= chars@);
    out
}

} // verus!
