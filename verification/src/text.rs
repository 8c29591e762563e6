//! Character-level helpers shared by the parsers of this crate.
//!
//! Text is handled as `Vec<char>` inside the parsers; the spec functions below
//! describe the usual string operations (`trim`, `find`, `split`, ...) over
//! `Seq<char>`, the view of `&str`, `String` and `Vec<char>`.
use vstd::prelude::*;

verus! {

// ───────────────────────── spec vocabulary ─────────────────────────

/// Unicode `White_Space`, the set that `char::is_whitespace` tests.
pub open spec fn is_ws(c: char) -> bool {
    ||| ('\u{9}' <= c && c <= '\u{d}')
    ||| c == ' '
    ||| c == '\u{85}'
    ||| c == '\u{a0}'
    ||| c == '\u{1680}'
    ||| ('\u{2000}' <= c && c <= '\u{200a}')
    ||| c == '\u{2028}'
    ||| c == '\u{2029}'
    ||| c == '\u{202f}'
    ||| c == '\u{205f}'
    ||| c == '\u{3000}'
}

/// ASCII whitespace as `u8::is_ascii_whitespace` defines it.
pub open spec fn is_ascii_ws(c: char) -> bool {
    c == ' ' || c == '\t' || c == '\n' || c == '\u{c}' || c == '\r'
}

pub open spec fn is_ascii_digit(c: char) -> bool {
    '0' <= c && c <= '9'
}

pub open spec fn is_ascii_alpha(c: char) -> bool {
    ('a' <= c && c <= 'z') || ('A' <= c && c <= 'Z')
}

pub open spec fn is_ascii_char(c: char) -> bool {
    (c as u32) < 128
}

/// The ASCII lowercase of `c` (other characters unchanged).
pub open spec fn ascii_lower(c: char) -> char {
    if 'A' <= c && c <= 'Z' {
        ((c as u32) + 32) as char
    } else {
        c
    }
}

/// `s` without its leading whitespace (`str::trim_start`).
pub open spec fn trim_start(s: Seq<char>) -> Seq<char>
    decreases s.len(),
{
    if s.len() > 0 && is_ws(s[0]) {
        trim_start(s.drop_first())
    } else {
        s
    }
}

/// `s` without its trailing whitespace (`str::trim_end`).
pub open spec fn trim_end(s: Seq<char>) -> Seq<char>
    decreases s.len(),
{
    if s.len() > 0 && is_ws(s.last()) {
        trim_end(s.drop_last())
    } else {
        s
    }
}

/// `s` without leading and trailing whitespace (`str::trim`).
pub open spec fn trim(s: Seq<char>) -> Seq<char> {
    trim_end(trim_start(s))
}

/// `s` without any leading `c` (`str::trim_start_matches` with a char).
pub open spec fn trim_start_matches(s: Seq<char>, c: char) -> Seq<char>
    decreases s.len(),
{
    if s.len() > 0 && s[0] == c {
        trim_start_matches(s.drop_first(), c)
    } else {
        s
    }
}

/// `s` without any trailing `c` (`str::trim_end_matches` with a char).
pub open spec fn trim_end_matches(s: Seq<char>, c: char) -> Seq<char>
    decreases s.len(),
{
    if s.len() > 0 && s.last() == c {
        trim_end_matches(s.drop_last(), c)
    } else {
        s
    }
}

/// `str::trim_matches` with a char pattern.
pub open spec fn trim_matches(s: Seq<char>, c: char) -> Seq<char> {
    trim_end_matches(trim_start_matches(s, c), c)
}

/// Index of the first character of `s` that satisfies `p`.
pub open spec fn find_first(s: Seq<char>, p: spec_fn(char) -> bool) -> Option<int>
    decreases s.len(),
{
    if s.len() == 0 {
        None
    } else if p(s[0]) {
        Some(0)
    } else {
        match find_first(s.drop_first(), p) {
            Some(i) => Some(i + 1),
            None => None,
        }
    }
}

/// Index of the first `c` in `s` (`str::find` with a char).
pub open spec fn find_char(s: Seq<char>, c: char) -> Option<int> {
    find_first(s, eq_pred(c))
}

pub open spec fn eq_pred(c: char) -> spec_fn(char) -> bool {
    |x: char| x == c
}

/// The pieces of `s` between occurrences of `c` (`str::split` with a char).
pub open spec fn split(s: Seq<char>, c: char) -> Seq<Seq<char>>
    decreases s.len(),
{
    match find_char(s, c) {
        None => seq![s],
        Some(i) => {
            if 0 <= i < s.len() {
                seq![s.take(i)] + split(s.skip(i + 1), c)
            } else {
                seq![s]
            }
        },
    }
}

/// The views of a sequence of character vectors.
pub open spec fn views(s: Seq<Vec<char>>) -> Seq<Seq<char>> {
    s.map_values(|x: Vec<char>| x@)
}

/// Whether `s` starts with `p`.
pub open spec fn starts_with(s: Seq<char>, p: Seq<char>) -> bool {
    p.len() <= s.len() && s.take(p.len() as int) == p
}

/// Whether `s` ends with `p`.
pub open spec fn ends_with(s: Seq<char>, p: Seq<char>) -> bool {
    p.len() <= s.len() && s.skip(s.len() - p.len()) == p
}

/// Whether `s` holds `p` as a contiguous piece.
pub open spec fn contains_seq(s: Seq<char>, p: Seq<char>) -> bool {
    exists|i: int| 0 <= i <= s.len() - p.len() && #[trigger] s.subrange(i, i + p.len()) == p
}

/// The lowercase mapping of a string (`str::to_lowercase`).
pub uninterp spec fn lowercase_of(s: Seq<char>) -> Seq<char>;

/// Whether a character is alphabetic or numeric (`char::is_alphanumeric`).
pub uninterp spec fn alphanumeric(c: char) -> bool;

/// All characters of `s` are ASCII.
pub open spec fn all_ascii(s: Seq<char>) -> bool {
    forall|i: int| 0 <= i < s.len() ==> is_ascii_char(#[trigger] s[i])
}

/// The value of a run of decimal digits.
pub open spec fn digits_value(s: Seq<char>) -> int
    decreases s.len(),
{
    if s.len() == 0 {
        0
    } else {
        digits_value(s.drop_last()) * 10 + (s.last() as int - '0' as int)
    }
}

pub open spec fn all_digits(s: Seq<char>) -> bool {
    forall|i: int| 0 <= i < s.len() ==> is_ascii_digit(#[trigger] s[i])
}

/// The integer that Rust's `FromStr` for a signed integer type reads from
/// `s`, before the range check: an optional `+` or `-`, then one or more
/// decimal digits, nothing else.
pub open spec fn signed_value(s: Seq<char>) -> Option<int> {
    if s.len() > 0 && (s[0] == '+' || s[0] == '-') {
        let d = s.drop_first();
        if d.len() > 0 && all_digits(d) {
            if s[0] == '-' { Some(-digits_value(d)) } else { Some(digits_value(d)) }
        } else {
            None
        }
    } else if s.len() > 0 && all_digits(s) {
        Some(digits_value(s))
    } else {
        None
    }
}

/// The same for an unsigned type: an optional `+`, then decimal digits.
pub open spec fn unsigned_value(s: Seq<char>) -> Option<int> {
    if s.len() > 0 && s[0] == '+' {
        let d = s.drop_first();
        if d.len() > 0 && all_digits(d) { Some(digits_value(d)) } else { None }
    } else if s.len() > 0 && all_digits(s) {
        Some(digits_value(s))
    } else {
        None
    }
}

/// `s.parse::<i32>()`.
pub open spec fn parse_i32_spec(s: Seq<char>) -> Option<i32> {
    match signed_value(s) {
        Some(v) => if i32::MIN <= v <= i32::MAX { Some(v as i32) } else { None },
        None => None,
    }
}

/// `s.parse::<u8>()`.
pub open spec fn parse_u8_spec(s: Seq<char>) -> Option<u8> {
    match unsigned_value(s) {
        Some(v) => if 0 <= v <= 255 { Some(v as u8) } else { None },
        None => None,
    }
}

/// `s.parse::<u32>()`.
pub open spec fn parse_u32_spec(s: Seq<char>) -> Option<u32> {
    match unsigned_value(s) {
        Some(v) => if 0 <= v <= u32::MAX { Some(v as u32) } else { None },
        None => None,
    }
}

// ───────────────────────── lemmas ─────────────────────────

pub proof fn lemma_trim_start_suffix(s: Seq<char>)
    ensures
        trim_start(s).len() <= s.len(),
        trim_start(s) == s.skip(s.len() - trim_start(s).len()),
        trim_start(s).len() > 0 ==> !is_ws(trim_start(s)[0]),
    decreases s.len(),
{
    if s.len() > 0 && is_ws(s[0]) {
        lemma_trim_start_suffix(s.drop_first());
        assert(s.drop_first().skip(s.drop_first().len() - trim_start(s).len())
            =~= s.skip(s.len() - trim_start(s).len()));
    } else {
        assert(s.skip(0) =~= s);
    }
}

pub proof fn lemma_trim_end_prefix(s: Seq<char>)
    ensures
        trim_end(s).len() <= s.len(),
        trim_end(s) == s.take(trim_end(s).len() as int),
        trim_end(s).len() > 0 ==> !is_ws(trim_end(s).last()),
    decreases s.len(),
{
    if s.len() > 0 && is_ws(s.last()) {
        lemma_trim_end_prefix(s.drop_last());
        assert(s.drop_last().take(trim_end(s).len() as int) =~= s.take(trim_end(s).len() as int));
    } else {
        assert(s.take(s.len() as int) =~= s);
    }
}

pub proof fn lemma_trim_len(s: Seq<char>)
    ensures
        trim(s).len() <= s.len(),
        trim(s).len() > 0 ==> !is_ws(trim(s)[0]) && !is_ws(trim(s).last()),
{
    lemma_trim_start_suffix(s);
    lemma_trim_end_prefix(trim_start(s));
}

/// A character occurs at most as often as the string is long.
pub proof fn lemma_count_char_le(s: Seq<char>, c: char)
    ensures
        0 <= count_char(s, c) <= s.len(),
    decreases s.len(),
{
    if s.len() > 0 {
        lemma_count_char_le(s.drop_last(), c);
    }
}

pub proof fn lemma_rfind_char_bounds(s: Seq<char>, c: char)
    ensures
        rfind_char(s, c) matches Some(i) ==> 0 <= i < s.len() && s[i] == c,
    decreases s.len(),
{
    if s.len() > 0 && s.last() != c {
        lemma_rfind_char_bounds(s.drop_last(), c);
    }
}

pub proof fn lemma_rfind_char_some(s: Seq<char>, c: char, k: int)
    requires
        0 <= k < s.len(),
        s[k] == c,
    ensures
        rfind_char(s, c) is Some,
    decreases s.len(),
{
    if s.last() != c {
        lemma_rfind_char_some(s.drop_last(), c, k);
    }
}

pub proof fn lemma_rfind_seq_bounds(s: Seq<char>, p: Seq<char>)
    ensures
        rfind_seq(s, p) matches Some(i) ==> 0 <= i && i + p.len() <= s.len(),
    decreases s.len(),
{
    if s.len() >= p.len() && s.skip(s.len() - p.len()) != p && s.len() > 0 {
        lemma_rfind_seq_bounds(s.drop_last(), p);
    }
}

/// A piece that occurs somewhere also has a last occurrence.
pub proof fn lemma_rfind_seq_some(s: Seq<char>, p: Seq<char>)
    requires
        find_seq(s, p) is Some,
    ensures
        rfind_seq(s, p) is Some,
    decreases s.len(),
{
    lemma_find_seq(s, p);
    let i = find_seq(s, p).unwrap();
    if s.len() >= p.len() && s.skip(s.len() - p.len()) != p && s.len() > 0 {
        if i + p.len() == s.len() {
            assert(s.subrange(i, i + p.len()) =~= s.skip(s.len() - p.len()));
        }
        assert(i + p.len() < s.len());
        assert(s.drop_last().subrange(i, i + p.len()) =~= s.subrange(i, i + p.len()));
        lemma_find_seq_occurs(s.drop_last(), p, i);
        lemma_rfind_seq_some(s.drop_last(), p);
    }
}

/// Where `p` occurs, `find_seq` finds an occurrence.
pub proof fn lemma_find_seq_occurs(s: Seq<char>, p: Seq<char>, i: int)
    requires
        0 <= i,
        i + p.len() <= s.len(),
        s.subrange(i, i + p.len()) == p,
    ensures
        find_seq(s, p) is Some,
    decreases i,
{
    if s.take(p.len() as int) != p {
        if i == 0 {
            assert(s.take(p.len() as int) =~= s.subrange(0, p.len() as int));
        } else {
            assert(s.drop_first().subrange(i - 1, i - 1 + p.len()) =~= s.subrange(i, i + p.len()));
            lemma_find_seq_occurs(s.drop_first(), p, i - 1);
        }
    }
}

/// A character that occurs is found.
pub proof fn lemma_find_char_some(s: Seq<char>, c: char, k: int)
    requires
        0 <= k < s.len(),
        s[k] == c,
    ensures
        find_char(s, c) is Some,
    decreases k,
{
    if s[0] != c {
        assert(s.drop_first()[k - 1] == c);
        lemma_find_char_some(s.drop_first(), c, k - 1);
    }
}

/// A split has at least one piece.
pub proof fn lemma_split_nonempty(s: Seq<char>, c: char)
    ensures
        split(s, c).len() >= 1,
{
}

/// Trimming twice is trimming once.
pub proof fn lemma_trim_idempotent(s: Seq<char>)
    ensures
        trim(trim(s)) == trim(s),
{
    lemma_trim_len(s);
    let t = trim(s);
    assert(trim_start(t) == t);
    assert(trim_end(t) == t);
}

pub proof fn lemma_find_first_bounds(s: Seq<char>, p: spec_fn(char) -> bool)
    ensures
        match find_first(s, p) {
            Some(i) => 0 <= i < s.len() && p(s[i]) && (forall|j: int| 0 <= j < i ==> !p(#[trigger] s[j])),
            None => forall|j: int| 0 <= j < s.len() ==> !p(#[trigger] s[j]),
        },
    decreases s.len(),
{
    if s.len() > 0 && !p(s[0]) {
        lemma_find_first_bounds(s.drop_first(), p);
        match find_first(s.drop_first(), p) {
            Some(i) => {
                assert forall|j: int| 0 <= j < i + 1 implies !p(#[trigger] s[j]) by {
                    if j > 0 {
                        assert(s[j] == s.drop_first()[j - 1]);
                    }
                }
            },
            None => {
                assert forall|j: int| 0 <= j < s.len() implies !p(#[trigger] s[j]) by {
                    if j > 0 {
                        assert(s[j] == s.drop_first()[j - 1]);
                    }
                }
            },
        }
    }
}

/// `find_first` is determined by the characters it scans.
pub proof fn lemma_find_first_from(s: Seq<char>, p: spec_fn(char) -> bool, i: int)
    requires
        0 <= i <= s.len(),
        forall|j: int| 0 <= j < i ==> !p(#[trigger] s[j]),
    ensures
        find_first(s, p) == match find_first(s.skip(i), p) {
            Some(k) => Some(k + i),
            None => None::<int>,
        },
    decreases i,
{
    if i > 0 {
        assert(!p(s[0]));
        assert forall|j: int| 0 <= j < i - 1 implies !p(#[trigger] s.drop_first()[j]) by {
            assert(s.drop_first()[j] == s[j + 1]);
        }
        lemma_find_first_from(s.drop_first(), p, i - 1);
        assert(s.drop_first().skip(i - 1) =~= s.skip(i));
    } else {
        assert(s.skip(0) =~= s);
    }
}

pub proof fn lemma_trim_start_matches_suffix(s: Seq<char>, c: char)
    ensures
        trim_start_matches(s, c).len() <= s.len(),
        trim_start_matches(s, c) == s.skip(s.len() - trim_start_matches(s, c).len()),
    decreases s.len(),
{
    if s.len() > 0 && s[0] == c {
        lemma_trim_start_matches_suffix(s.drop_first(), c);
        assert(s.drop_first().skip(s.drop_first().len() - trim_start_matches(s, c).len())
            =~= s.skip(s.len() - trim_start_matches(s, c).len()));
    } else {
        assert(s.skip(0) =~= s);
    }
}

pub proof fn lemma_trim_end_matches_prefix(s: Seq<char>, c: char)
    ensures
        trim_end_matches(s, c).len() <= s.len(),
        trim_end_matches(s, c) == s.take(trim_end_matches(s, c).len() as int),
    decreases s.len(),
{
    if s.len() > 0 && s.last() == c {
        lemma_trim_end_matches_prefix(s.drop_last(), c);
        assert(s.drop_last().take(trim_end_matches(s, c).len() as int)
            =~= s.take(trim_end_matches(s, c).len() as int));
    } else {
        assert(s.take(s.len() as int) =~= s);
    }
}

// ───────────────────────── trusted items ─────────────────────────

/// Appends one character to a `String` (`String::push`); the contract claims
/// that the string's characters grow by exactly that character.
#[verifier::external_body]
fn push_char(s: &mut String, c: char)
    ensures
        final(s)@ == old(s)@.push(c),
{
    s.push(c);
}

/// The lowercase of a string (`str::to_lowercase`). The contract names the
/// result and claims that on ASCII text it is the ASCII lowercase, which the
/// Unicode lowercase mapping gives for those characters; the mapping of other
/// characters is left unstated.
#[verifier::external_body]
pub fn lowercase(v: &[char]) -> (r: Vec<char>)
    ensures
        r@ == lowercase_of(v@),
        all_ascii(v@) ==> r@ == v@.map_values(|c: char| ascii_lower(c)),
{
    let s: String = v.iter().collect();
    s.to_lowercase().chars().collect()
}

/// Whether a character is alphabetic or numeric (`char::is_alphanumeric`).
/// The contract names the result and claims what the definition gives for
/// ASCII: exactly the letters and digits are alphanumeric.
#[verifier::external_body]
pub fn is_alphanumeric(c: char) -> (b: bool)
    ensures
        b == alphanumeric(c),
        is_ascii_char(c) ==> (b <==> (is_ascii_alpha(c) || is_ascii_digit(c))),
{
    c.is_alphanumeric()
}

// ───────────────────────── executable helpers ─────────────────────────

/// The characters of `s`, in order.
pub fn chars_of(s: &str) -> (r: Vec<char>)
    ensures
        r@ == s@,
{
    let mut r: Vec<char> = Vec::new();
    for c in it: s.chars()
        invariant
            r@ == it.seq().take(it.index() as int),
    {
        r.push(c);
    }
    r
}

/// An owned copy of `s`.
pub fn owned(s: &str) -> (r: String)
    ensures
        r@ == s@,
{
    broadcast use vstd::string::to_string_from_display_ensures_for_str;

    s.to_string()
}

/// A `String` holding the characters of `v`.
pub fn string_of(v: &[char]) -> (r: String)
    ensures
        r@ == v@,
{
    let mut r = String::new();
    let mut i: usize = 0;
    while i < v.len()
        invariant
            i <= v.len(),
            r@ == v@.take(i as int),
        decreases v.len() - i,
    {
        push_char(&mut r, v[i]);
        i += 1;
        assert(v@.take(i as int) =~= v@.take(i - 1).push(v@[i - 1]));
    }
    assert(v@.take(v.len() as int) =~= v@);
    r
}

/// `char::is_whitespace`.
pub fn is_whitespace(c: char) -> (b: bool)
    ensures
        b == is_ws(c),
{
    ('\u{9}' <= c && c <= '\u{d}') || c == ' ' || c == '\u{85}' || c == '\u{a0}'
        || c == '\u{1680}' || ('\u{2000}' <= c && c <= '\u{200a}') || c == '\u{2028}'
        || c == '\u{2029}' || c == '\u{202f}' || c == '\u{205f}' || c == '\u{3000}'
}

/// `u8::is_ascii_whitespace`, read on a character.
pub fn is_ascii_whitespace(c: char) -> (b: bool)
    ensures
        b == is_ascii_ws(c),
{
    c == ' ' || c == '\t' || c == '\n' || c == '\u{c}' || c == '\r'
}

/// The characters `v[a..b]`.
pub fn slice_of(v: &[char], a: usize, b: usize) -> (r: Vec<char>)
    requires
        a <= b <= v@.len(),
    ensures
        r@ == v@.subrange(a as int, b as int),
{
    let mut r: Vec<char> = Vec::new();
    let mut i = a;
    while i < b
        invariant
            a <= i <= b <= v@.len(),
            r@ == v@.subrange(a as int, i as int),
        decreases b - i,
    {
        r.push(v[i]);
        i += 1;
        assert(v@.subrange(a as int, i as int) =~= v@.subrange(a as int, i - 1).push(v@[i - 1]));
    }
    r
}

/// The characters from `a` to the end.
pub fn suffix(v: &[char], a: usize) -> (r: Vec<char>)
    requires
        a <= v@.len(),
    ensures
        r@ == v@.skip(a as int),
{
    let r = slice_of(v, a, v.len());
    assert(v@.subrange(a as int, v@.len() as int) =~= v@.skip(a as int));
    r
}

/// `str::trim_start`.
pub fn trim_start_chars(v: &[char]) -> (r: Vec<char>)
    ensures
        r@ == trim_start(v@),
{
    let mut i: usize = 0;
    assert(v@.skip(0) =~= v@);
    while i < v.len() && is_whitespace(v[i])
        invariant
            i <= v.len(),
            trim_start(v@) == trim_start(v@.skip(i as int)),
        decreases v.len() - i,
    {
        assert(v@.skip(i as int).drop_first() =~= v@.skip(i + 1));
        i += 1;
    }
    suffix(v, i)
}

/// `str::trim_end`.
pub fn trim_end_chars(v: &[char]) -> (r: Vec<char>)
    ensures
        r@ == trim_end(v@),
{
    let mut j: usize = v.len();
    assert(v@.take(v@.len() as int) =~= v@);
    while j > 0 && is_whitespace(v[j - 1])
        invariant
            j <= v.len(),
            trim_end(v@) == trim_end(v@.take(j as int)),
        decreases j,
    {
        assert(v@.take(j as int).drop_last() =~= v@.take(j - 1));
        j -= 1;
    }
    assert(v@.subrange(0, j as int) =~= v@.take(j as int));
    slice_of(v, 0, j)
}

/// `str::trim`.
pub fn trim_chars(v: &[char]) -> (r: Vec<char>)
    ensures
        r@ == trim(v@),
{
    let t = trim_start_chars(v);
    trim_end_chars(&t)
}

/// `str::trim_start_matches` with a char pattern.
pub fn trim_start_matches_chars(v: &[char], c: char) -> (r: Vec<char>)
    ensures
        r@ == trim_start_matches(v@, c),
{
    let mut i: usize = 0;
    assert(v@.skip(0) =~= v@);
    while i < v.len() && v[i] == c
        invariant
            i <= v.len(),
            trim_start_matches(v@, c) == trim_start_matches(v@.skip(i as int), c),
        decreases v.len() - i,
    {
        assert(v@.skip(i as int).drop_first() =~= v@.skip(i + 1));
        i += 1;
    }
    suffix(v, i)
}

/// `str::trim_matches` with a char pattern.
pub fn trim_matches_chars(v: &[char], c: char) -> (r: Vec<char>)
    ensures
        r@ == trim_matches(v@, c),
{
    let t = trim_start_matches_chars(v, c);
    let mut j: usize = t.len();
    assert(t@.take(t@.len() as int) =~= t@);
    while j > 0 && t[j - 1] == c
        invariant
            j <= t.len(),
            trim_end_matches(t@, c) == trim_end_matches(t@.take(j as int), c),
        decreases j,
    {
        assert(t@.take(j as int).drop_last() =~= t@.take(j - 1));
        j -= 1;
    }
    assert(t@.subrange(0, j as int) =~= t@.take(j as int));
    slice_of(&t, 0, j)
}

/// Index of the first `c` in `v` (`str::find` with a char).
pub fn find_char_in(v: &[char], c: char) -> (r: Option<usize>)
    ensures
        match r {
            Some(i) => find_char(v@, c) == Some(i as int),
            None => find_char(v@, c) is None,
        },
{
    let mut i: usize = 0;
    while i < v.len()
        invariant
            i <= v.len(),
            forall|j: int| 0 <= j < i ==> v@[j] != c,
        decreases v.len() - i,
    {
        if v[i] == c {
            proof {
                lemma_find_first_from(v@, eq_pred(c), i as int);
                assert(find_first(v@.skip(i as int), eq_pred(c)) == Some(0int));
            }
            return Some(i);
        }
        i += 1;
    }
    proof {
        lemma_find_first_from(v@, eq_pred(c), i as int);
        assert(find_first(v@.skip(i as int), eq_pred(c)) is None);
    }
    None
}

/// Whether `v` and the literal `lit` hold the same characters.
pub fn eq_lit(v: &[char], lit: &str) -> (b: bool)
    ensures
        b == (v@ == lit@),
{
    let n = lit.unicode_len();
    if n != v.len() {
        return false;
    }
    let mut i: usize = 0;
    while i < n
        invariant
            n == v@.len() == lit@.len(),
            i <= n,
            forall|j: int| 0 <= j < i ==> v@[j] == lit@[j],
        decreases n - i,
    {
        if v[i] != lit.get_char(i) {
            return false;
        }
        i += 1;
    }
    assert(v@ =~= lit@);
    true
}

/// Whether two character sequences are equal.
pub fn eq_chars(a: &[char], b: &[char]) -> (r: bool)
    ensures
        r == (a@ == b@),
{
    if a.len() != b.len() {
        return false;
    }
    let mut i: usize = 0;
    while i < a.len()
        invariant
            a@.len() == b@.len(),
            i <= a.len(),
            forall|j: int| 0 <= j < i ==> a@[j] == b@[j],
        decreases a.len() - i,
    {
        if a[i] != b[i] {
            return false;
        }
        i += 1;
    }
    assert(a@ =~= b@);
    true
}

/// Whether two strings are equal.
pub fn eq_str(a: &str, b: &str) -> (r: bool)
    ensures
        r == (a@ == b@),
{
    let va = chars_of(a);
    let vb = chars_of(b);
    eq_chars(&va, &vb)
}

/// Whether `v` starts with the literal `lit`.
pub fn starts_with_lit(v: &[char], lit: &str) -> (b: bool)
    ensures
        b == starts_with(v@, lit@),
{
    let n = lit.unicode_len();
    if n > v.len() {
        return false;
    }
    let mut i: usize = 0;
    while i < n
        invariant
            n == lit@.len(),
            n <= v@.len(),
            i <= n,
            forall|j: int| 0 <= j < i ==> v@[j] == lit@[j],
        decreases n - i,
    {
        if v[i] != lit.get_char(i) {
            assert(v@.take(n as int)[i as int] != lit@[i as int]);
            return false;
        }
        i += 1;
    }
    assert(v@.take(n as int) =~= lit@);
    true
}

/// `str::split` with a char pattern.
pub fn split_chars(v: &[char], c: char) -> (r: Vec<Vec<char>>)
    ensures
        views(r@) == split(v@, c),
    decreases v@.len(),
{
    match find_char_in(v, c) {
        None => {
            let mut r: Vec<Vec<char>> = Vec::new();
            r.push(slice_of(v, 0, v.len()));
            assert(v@.subrange(0, v@.len() as int) =~= v@);
            assert(views(r@) =~= seq![v@]);
            r
        },
        Some(i) => {
            proof {
                assert(find_first(v@, eq_pred(c)) == Some(i as int));
                lemma_find_first_bounds(v@, eq_pred(c));
                assert(i < v@.len());
                assert(i < v.len());
            }
            let head = slice_of(v, 0, i);
            let rest = suffix(v, i + 1);
            let tail = split_chars(&rest, c);
            let mut r: Vec<Vec<char>> = Vec::new();
            r.push(head);
            let mut k: usize = 0;
            while k < tail.len()
                invariant
                    k <= tail@.len(),
                    r@.len() == k + 1,
                    r@[0]@ == v@.subrange(0, i as int),
                    forall|m: int| 0 <= m < k ==> #[trigger] r@[m + 1]@ == tail@[m]@,
                decreases tail.len() - k,
            {
                let piece = slice_of(&tail[k], 0, tail[k].len());
                assert(tail@[k as int]@.subrange(0, tail@[k as int]@.len() as int) =~= tail@[k as int]@);
                r.push(piece);
                k += 1;
            }
            assert(v@.subrange(0, i as int) =~= v@.take(i as int));
            assert(views(r@) =~= seq![v@.take(i as int)] + views(tail@)) by {
                assert forall|m: int| 0 < m < r@.len() implies #[trigger] views(r@)[m]
                    == views(tail@)[m - 1] by {
                    assert(r@[(m - 1) + 1]@ == tail@[m - 1]@);
                }
            }
            r
        },
    }
}

/// `s.parse::<i32>()` on a character sequence.
pub fn parse_i32(v: &[char]) -> (r: Option<i32>)
    ensures
        r == parse_i32_spec(v@),
{
    let n = v.len();
    if n == 0 {
        return None;
    }
    let neg = v[0] == '-';
    let start: usize = if v[0] == '+' || v[0] == '-' { 1 } else { 0 };
    if start == n {
        proof { assert(v@.drop_first().len() == 0); }
        return None;
    }
    let ghost d = v@.skip(start as int);
    let mut acc: i64 = 0;
    let mut i = start;
    while i < n
        invariant
            start <= i <= n == v@.len(),
            start <= 1,
            start == 1 ==> (v@[0] == '+' || v@[0] == '-'),
            start == 0 ==> !(v@[0] == '+' || v@[0] == '-'),
            neg == (v@[0] == '-'),
            d == v@.skip(start as int),
            all_digits(v@.subrange(start as int, i as int)),
            acc == digits_value(v@.subrange(start as int, i as int)),
            0 <= acc <= 2147483648,
        decreases n - i,
    {
        let c = v[i];
        if !('0' <= c && c <= '9') {
            proof {
                assert(d[i - start] == c);
                assert(!all_digits(d));
                if start == 1 {
                    assert(d =~= v@.drop_first());
                } else {
                    assert(d =~= v@);
                }
            }
            return None;
        }
        let ghost prev = v@.subrange(start as int, i as int);
        let dv = (c as u32 - '0' as u32) as i64;
        let next = acc * 10 + dv;
        proof {
            assert(v@.subrange(start as int, i + 1).drop_last() =~= prev);
        }
        if next > 2147483648 {
            proof {
                assert(d.take(i + 1 - start) =~= v@.subrange(start as int, i + 1));
                lemma_digits_grow(v@.subrange(start as int, i + 1), d);
                if start == 1 {
                    assert(d =~= v@.drop_first());
                } else {
                    assert(d =~= v@);
                }
            }
            return None;
        }
        acc = next;
        i += 1;
    }
    proof {
        assert(v@.subrange(start as int, n as int) =~= d);
        if start == 1 {
            assert(d =~= v@.drop_first());
        } else {
            assert(d =~= v@);
        }
    }
    if neg {
        Some((0 - acc) as i32)
    } else if acc <= 2147483647 {
        Some(acc as i32)
    } else {
        None
    }
}

/// `s.parse::<u8>()` on a character sequence.
pub fn parse_u8(v: &[char]) -> (r: Option<u8>)
    ensures
        r == parse_u8_spec(v@),
{
    let n = v.len();
    if n == 0 {
        return None;
    }
    let start: usize = if v[0] == '+' { 1 } else { 0 };
    if start == n {
        proof { assert(v@.drop_first().len() == 0); }
        return None;
    }
    let ghost d = v@.skip(start as int);
    let mut acc: u32 = 0;
    let mut i = start;
    while i < n
        invariant
            start <= i <= n == v@.len(),
            start <= 1,
            start == 1 ==> v@[0] == '+',
            start == 0 ==> v@[0] != '+',
            d == v@.skip(start as int),
            all_digits(v@.subrange(start as int, i as int)),
            acc == digits_value(v@.subrange(start as int, i as int)),
            acc <= 255,
        decreases n - i,
    {
        let c = v[i];
        if !('0' <= c && c <= '9') {
            proof {
                assert(d[i - start] == c);
                assert(!all_digits(d));
                if start == 1 {
                    assert(d =~= v@.drop_first());
                } else {
                    assert(d =~= v@);
                }
            }
            return None;
        }
        let ghost prev = v@.subrange(start as int, i as int);
        let dv = c as u32 - '0' as u32;
        let next = acc * 10 + dv;
        proof {
            assert(v@.subrange(start as int, i + 1).drop_last() =~= prev);
        }
        if next > 255 {
            proof {
                assert(d.take(i + 1 - start) =~= v@.subrange(start as int, i + 1));
                lemma_digits_grow(v@.subrange(start as int, i + 1), d);
                if start == 1 {
                    assert(d =~= v@.drop_first());
                } else {
                    assert(d =~= v@);
                }
            }
            return None;
        }
        acc = next;
        i += 1;
    }
    proof {
        assert(v@.subrange(start as int, n as int) =~= d);
        if start == 1 {
            assert(d =~= v@.drop_first());
        } else {
            assert(d =~= v@);
        }
    }
    Some(acc as u8)
}

/// `s.parse::<u32>()` on a character sequence.
pub fn parse_u32(v: &[char]) -> (r: Option<u32>)
    ensures
        r == parse_u32_spec(v@),
{
    let n = v.len();
    if n == 0 {
        return None;
    }
    let start: usize = if v[0] == '+' { 1 } else { 0 };
    if start == n {
        proof { assert(v@.drop_first().len() == 0); }
        return None;
    }
    let ghost d = v@.skip(start as int);
    let mut acc: u64 = 0;
    let mut i = start;
    while i < n
        invariant
            start <= i <= n == v@.len(),
            start <= 1,
            start == 1 ==> v@[0] == '+',
            start == 0 ==> v@[0] != '+',
            d == v@.skip(start as int),
            all_digits(v@.subrange(start as int, i as int)),
            acc == digits_value(v@.subrange(start as int, i as int)),
            acc <= u32::MAX,
        decreases n - i,
    {
        let c = v[i];
        if !('0' <= c && c <= '9') {
            proof {
                assert(d[i - start] == c);
                assert(!all_digits(d));
                if start == 1 {
                    assert(d =~= v@.drop_first());
                } else {
                    assert(d =~= v@);
                }
            }
            return None;
        }
        let ghost prev = v@.subrange(start as int, i as int);
        let dv = c as u64 - '0' as u64;
        let next = acc * 10 + dv;
        proof {
            assert(v@.subrange(start as int, i + 1).drop_last() =~= prev);
        }
        if next > u32::MAX as u64 {
            proof {
                assert(d.take(i + 1 - start) =~= v@.subrange(start as int, i + 1));
                lemma_digits_grow(v@.subrange(start as int, i + 1), d);
                if start == 1 {
                    assert(d =~= v@.drop_first());
                } else {
                    assert(d =~= v@);
                }
            }
            return None;
        }
        acc = next;
        i += 1;
    }
    proof {
        assert(v@.subrange(start as int, n as int) =~= d);
        if start == 1 {
            assert(d =~= v@.drop_first());
        } else {
            assert(d =~= v@);
        }
    }
    Some(acc as u32)
}

/// A run of digits is worth at least as much as any of its prefixes.
pub proof fn lemma_digits_grow(p: Seq<char>, d: Seq<char>)
    requires
        p.len() <= d.len(),
        d.take(p.len() as int) == p,
        all_digits(p),
    ensures
        all_digits(d) ==> digits_value(d) >= digits_value(p),
    decreases d.len(),
{
    if d.len() > p.len() {
        assert(d.drop_last().take(p.len() as int) =~= d.take(p.len() as int));
        lemma_digits_grow(p, d.drop_last());
        if all_digits(d) {
            assert(all_digits(d.drop_last()));
            lemma_digits_nonneg(d.drop_last());
            assert(is_ascii_digit(d.last()));
        }
    } else {
        assert(d =~= p);
    }
}

pub proof fn lemma_digits_nonneg(d: Seq<char>)
    requires
        all_digits(d),
    ensures
        digits_value(d) >= 0,
    decreases d.len(),
{
    if d.len() > 0 {
        assert(all_digits(d.drop_last()));
        lemma_digits_nonneg(d.drop_last());
        assert(is_ascii_digit(d.last()));
    }
}

} // verus!

verus! {

/// The decimal digit for `d < 10`.
pub open spec fn digit_char(d: nat) -> char {
    if d < 10 { ((d + 48) as u8) as char } else { '0' }
}

/// The decimal text of `n`, without leading zeros.
pub open spec fn decimal(n: nat) -> Seq<char>
    decreases n,
{
    if n < 10 {
        seq![digit_char(n)]
    } else {
        decimal(n / 10).push(digit_char(n % 10))
    }
}

fn decimal_digit(d: u64) -> (c: char)
    requires
        d < 10,
    ensures
        c == digit_char(d as nat),
{
    ((d as u8) + 48u8) as char
}

fn decimal_chars(n: u64) -> (r: Vec<char>)
    ensures
        r@ == decimal(n as nat),
    decreases n,
{
    if n < 10 {
        let mut v: Vec<char> = Vec::new();
        v.push(decimal_digit(n));
        v
    } else {
        let mut v = decimal_chars(n / 10);
        v.push(decimal_digit(n % 10));
        v
    }
}

/// The decimal text of `n`.
pub fn u64_to_decimal(n: u64) -> (r: String)
    ensures
        r@ == decimal(n as nat),
{
    let v = decimal_chars(n);
    string_of(&v)
}

/// The characters of `a` followed by those of `b`.
pub fn concat(a: &String, b: &String) -> (r: String)
    ensures
        r@ == a@ + b@,
{
    let mut va = chars_of(a.as_str());
    let mut vb = chars_of(b.as_str());
    va.append(&mut vb);
    string_of(&va)
}

} // verus!

verus! {

/// `16` to the power `n`.
pub open spec fn pow16(n: nat) -> int
    decreases n,
{
    if n == 0 { 1 } else { 16 * pow16((n - 1) as nat) }
}

/// Powers of 16 grow with the exponent; the sixth is `0x100_0000`.
pub proof fn lemma_pow16_le(a: nat, b: nat)
    requires
        a <= b,
    ensures
        1 <= pow16(a) <= pow16(b),
        pow16(6) == 0x100_0000,
        pow16(1) == 16,
    decreases b,
{
    reveal_with_fuel(pow16, 7);
    if a < b {
        lemma_pow16_le(a, (b - 1) as nat);
    } else if b > 0 {
        lemma_pow16_le((a - 1) as nat, (b - 1) as nat);
    }
}

} // verus!

verus! {

/// `s` with each occurrence of the non-empty `p` replaced by `r`, scanning
/// from the left without overlaps (`str::replace`).
pub open spec fn replace_all(s: Seq<char>, p: Seq<char>, r: Seq<char>) -> Seq<char>
    decreases s.len(),
{
    if p.len() == 0 || s.len() < p.len() {
        s
    } else if s.take(p.len() as int) == p {
        r + replace_all(s.skip(p.len() as int), p, r)
    } else {
        seq![s[0]] + replace_all(s.skip(1), p, r)
    }
}

/// Whether `p` occurs in `v` at position `i`.
fn occurs_at(v: &[char], i: usize, p: &[char]) -> (b: bool)
    requires
        i + p@.len() <= v@.len(),
    ensures
        b == (v@.skip(i as int).take(p@.len() as int) == p@),
{
    let n = v.len();
    let mut k: usize = 0;
    while k < p.len()
        invariant
            n == v@.len(),
            i + p@.len() <= v@.len(),
            k <= p@.len(),
            forall|j: int| 0 <= j < k ==> v@[i + j] == p@[j],
        decreases p.len() - k,
    {
        assert(i + k < n);
        if v[i + k] != p[k] {
            assert(v@.skip(i as int).take(p@.len() as int)[k as int] != p@[k as int]);
            return false;
        }
        k += 1;
    }
    assert(v@.skip(i as int).take(p@.len() as int) =~= p@);
    true
}

/// `s` with each occurrence of `p` replaced by `r` (`str::replace`).
pub fn replace_chars(s: &[char], p: &[char], r: &[char]) -> (out: Vec<char>)
    requires
        p@.len() > 0,
    ensures
        out@ == replace_all(s@, p@, r@),
{
    let n = s.len();
    let m = p.len();
    let mut out: Vec<char> = Vec::new();
    let mut i: usize = 0;
    assert(s@.skip(0) =~= s@);
    while i < n
        invariant
            i <= n == s@.len(),
            m == p@.len() > 0,
            replace_all(s@, p@, r@) == out@ + replace_all(s@.skip(i as int), p@, r@),
        decreases n - i,
    {
        let ghost rest = s@.skip(i as int);
        if n - i >= m && occurs_at(s, i, p) {
            let mut rv = slice_of(r, 0, r.len());
            assert(rv@ =~= r@);
            let ghost before = out@;
            out.append(&mut rv);
            proof {
                assert(rest.skip(m as int) =~= s@.skip(i + m));
                assert(before + (r@ + replace_all(s@.skip(i + m), p@, r@)) =~= out@
                    + replace_all(s@.skip(i + m), p@, r@));
            }
            i = i + m;
        } else if n - i < m {
            proof {
                assert(replace_all(rest, p@, r@) == rest);
                assert(out@ + rest =~= out@ + rest);
            }
            let mut tail = slice_of(s, i, n);
            assert(tail@ =~= rest);
            out.append(&mut tail);
            i = n;
            proof {
                assert(s@.skip(n as int) =~= Seq::<char>::empty());
                assert(out@ + Seq::<char>::empty() =~= out@);
            }
        } else {
            let ghost before = out@;
            out.push(s[i]);
            proof {
                assert(rest.skip(1) =~= s@.skip(i + 1));
                assert(rest[0] == s@[i as int]);
                assert(before + (seq![s@[i as int]] + replace_all(s@.skip(i + 1), p@, r@)) =~= out@
                    + replace_all(s@.skip(i + 1), p@, r@));
            }
            i += 1;
        }
    }
    proof {
        assert(s@.skip(n as int) =~= Seq::<char>::empty());
        assert(out@ + Seq::<char>::empty() =~= out@);
    }
    out
}

} // verus!

verus! {

// ───────────────────────── byte offsets ─────────────────────────

/// The number of bytes that `c` takes in UTF-8.
pub open spec fn utf8_width(c: char) -> int {
    if (c as u32) < 0x80 {
        1
    } else if (c as u32) < 0x800 {
        2
    } else if (c as u32) < 0x10000 {
        3
    } else {
        4
    }
}

/// The number of bytes that `s` takes in UTF-8 (what `str::len` counts).
pub open spec fn utf8_len(s: Seq<char>) -> int
    decreases s.len(),
{
    if s.len() == 0 {
        0
    } else {
        utf8_len(s.drop_last()) + utf8_width(s.last())
    }
}

/// The character index, from `k` on, that lies `rem` bytes after
/// character `k`, if a character starts there (or the text ends there).
pub open spec fn char_at_byte_from(s: Seq<char>, k: int, rem: int) -> Option<int>
    decreases s.len() - k,
{
    if rem == 0 {
        Some(k)
    } else if k < 0 || k >= s.len() || rem < utf8_width(s[k]) {
        None
    } else {
        char_at_byte_from(s, k + 1, rem - utf8_width(s[k]))
    }
}

/// The character index at byte offset `x` of `s`, when `x` falls on a
/// character boundary.
pub open spec fn char_at_byte(s: Seq<char>, x: int) -> Option<int> {
    char_at_byte_from(s, 0, x)
}

/// `&s[a..b]` with byte offsets: `None` where Rust panics (an offset off a
/// character boundary, or `a > b`).
pub open spec fn byte_slice(s: Seq<char>, a: int, b: int) -> Option<Seq<char>> {
    match (char_at_byte(s, a), char_at_byte(s, b)) {
        (Some(i), Some(j)) => if i <= j {
            Some(s.subrange(i, j))
        } else {
            None
        },
        _ => None,
    }
}

/// `&s[a..]` with a byte offset: `None` off a character boundary.
pub open spec fn byte_suffix(s: Seq<char>, a: int) -> Option<Seq<char>> {
    match char_at_byte(s, a) {
        Some(i) => Some(s.skip(i)),
        None => None,
    }
}

pub proof fn lemma_char_at_byte_from(s: Seq<char>, k: int, rem: int)
    requires
        0 <= k <= s.len(),
    ensures
        char_at_byte_from(s, k, rem) matches Some(i) ==> k <= i <= s.len(),
    decreases s.len() - k,
{
    if rem != 0 && k < s.len() && rem >= utf8_width(s[k]) {
        lemma_char_at_byte_from(s, k + 1, rem - utf8_width(s[k]));
    }
}

/// Slices by byte offset are no longer than the text.
pub proof fn lemma_byte_slices(s: Seq<char>, a: int, b: int)
    ensures
        byte_slice(s, a, b) matches Some(r) ==> r.len() <= s.len(),
        byte_suffix(s, a) matches Some(r) ==> r.len() <= s.len(),
{
    lemma_char_at_byte_from(s, 0, a);
    lemma_char_at_byte_from(s, 0, b);
}

fn width_of(c: char) -> (w: usize)
    ensures
        w == utf8_width(c),
{
    let u = c as u32;
    if u < 0x80 {
        1
    } else if u < 0x800 {
        2
    } else if u < 0x10000 {
        3
    } else {
        4
    }
}

/// The character index at byte offset `x`, when it is a boundary.
pub fn char_at_byte_exec(s: &[char], x: usize) -> (r: Option<usize>)
    ensures
        match r {
            Some(i) => char_at_byte(s@, x as int) == Some(i as int),
            None => char_at_byte(s@, x as int) is None,
        },
{
    let n = s.len();
    let mut k: usize = 0;
    let mut rem: usize = x;
    while rem != 0 && k < n && rem >= width_of(s[k])
        invariant
            k <= n == s@.len(),
            char_at_byte(s@, x as int) == char_at_byte_from(s@, k as int, rem as int),
        decreases n - k,
    {
        rem = rem - width_of(s[k]);
        k += 1;
    }
    if rem == 0 {
        Some(k)
    } else {
        None
    }
}

// ───────────────────────── substrings ─────────────────────────

/// The first position at which `p` occurs in `s` (`str::find` with a
/// string pattern).
pub open spec fn find_seq(s: Seq<char>, p: Seq<char>) -> Option<int>
    decreases s.len(),
{
    if s.len() < p.len() {
        None
    } else if s.take(p.len() as int) == p {
        Some(0)
    } else if s.len() == 0 {
        None
    } else {
        match find_seq(s.drop_first(), p) {
            Some(i) => Some(i + 1),
            None => None,
        }
    }
}

pub proof fn lemma_find_seq(s: Seq<char>, p: Seq<char>)
    ensures
        find_seq(s, p) matches Some(i) ==> 0 <= i && i + p.len() <= s.len() && s.subrange(
            i,
            i + p.len(),
        ) == p,
    decreases s.len(),
{
    if s.len() >= p.len() && s.take(p.len() as int) != p && s.len() > 0 {
        lemma_find_seq(s.drop_first(), p);
        match find_seq(s.drop_first(), p) {
            Some(i) => {
                assert(s.subrange(i + 1, i + 1 + p.len()) =~= s.drop_first().subrange(i, i + p.len()));
            },
            None => {},
        }
    } else if s.len() >= p.len() && s.take(p.len() as int) == p {
        assert(s.subrange(0, p.len() as int) =~= s.take(p.len() as int));
    }
}

/// The first position of `p` in `v`.
pub fn find_seq_in(v: &[char], p: &[char]) -> (r: Option<usize>)
    ensures
        match r {
            Some(i) => find_seq(v@, p@) == Some(i as int),
            None => find_seq(v@, p@) is None,
        },
{
    let n = v.len();
    let m = p.len();
    let mut i: usize = 0;
    assert(v@.skip(0) =~= v@);
    while i < n && n - i >= m
        invariant
            i <= n == v@.len(),
            m == p@.len(),
            find_seq(v@, p@) == match find_seq(v@.skip(i as int), p@) {
                Some(k) => Some(k + i),
                None => None::<int>,
            },
        decreases n - i,
    {
        let ghost rest = v@.skip(i as int);
        if occurs_at(v, i, p) {
            assert(rest.take(m as int) == p@);
            return Some(i);
        }
        proof {
            assert(rest.drop_first() =~= v@.skip(i + 1));
        }
        i += 1;
    }
    proof {
        let rest = v@.skip(i as int);
        if i < n {
            assert(rest.len() < p@.len());
        } else if m > 0 {
            assert(rest.len() == 0);
        } else {
            assert(rest.take(0) =~= p@);
        }
    }
    if i >= n && m == 0 {
        assert(v@.skip(i as int).take(0) =~= p@);
        return Some(i);
    }
    None
}

} // verus!

verus! {

// ───────────────────────── prefixes, suffixes, lines ─────────────────────────

/// `str::strip_prefix`.
pub open spec fn strip_prefix(s: Seq<char>, p: Seq<char>) -> Option<Seq<char>> {
    if starts_with(s, p) {
        Some(s.skip(p.len() as int))
    } else {
        None
    }
}

/// `str::strip_suffix`.
pub open spec fn strip_suffix(s: Seq<char>, p: Seq<char>) -> Option<Seq<char>> {
    if ends_with(s, p) {
        Some(s.take(s.len() - p.len()))
    } else {
        None
    }
}

/// Index of the last `c` in `s` (`str::rfind` with a char).
pub open spec fn rfind_char(s: Seq<char>, c: char) -> Option<int>
    decreases s.len(),
{
    if s.len() == 0 {
        None
    } else if s.last() == c {
        Some(s.len() - 1)
    } else {
        rfind_char(s.drop_last(), c)
    }
}

/// Start of the last occurrence of `p` in `s` (`str::rfind` with a string).
pub open spec fn rfind_seq(s: Seq<char>, p: Seq<char>) -> Option<int>
    decreases s.len(),
{
    if s.len() < p.len() {
        None
    } else if s.skip(s.len() - p.len()) == p {
        Some(s.len() - p.len())
    } else if s.len() == 0 {
        None
    } else {
        rfind_seq(s.drop_last(), p)
    }
}

/// `s` without every trailing copy of the non-empty `p`
/// (`str::trim_end_matches` with a string).
pub open spec fn trim_end_matches_seq(s: Seq<char>, p: Seq<char>) -> Seq<char>
    decreases s.len(),
{
    if p.len() > 0 && ends_with(s, p) {
        trim_end_matches_seq(s.take(s.len() - p.len()), p)
    } else {
        s
    }
}

/// The number of leading whitespace characters
/// (`s.chars().take_while(|c| c.is_whitespace()).count()`).
pub open spec fn leading_ws(s: Seq<char>) -> int {
    s.len() - trim_start(s).len()
}

/// The number of times `c` occurs in `s`.
pub open spec fn count_char(s: Seq<char>, c: char) -> int
    decreases s.len(),
{
    if s.len() == 0 {
        0
    } else {
        count_char(s.drop_last(), c) + if s.last() == c { 1int } else { 0int }
    }
}

/// A line without the `'\r'` that ended it.
pub open spec fn strip_cr(t: Seq<char>) -> Seq<char> {
    if t.len() > 0 && t.last() == '\r' {
        t.drop_last()
    } else {
        t
    }
}

/// The lines of `s` (`str::lines`): split at `'\n'`, each line without a
/// `'\r'` before its `'\n'`, and no empty line after a final `'\n'`.
pub open spec fn lines_of(s: Seq<char>) -> Seq<Seq<char>>
    decreases s.len(),
{
    if s.len() == 0 {
        seq![]
    } else {
        match find_char(s, '\n') {
            None => seq![s],
            Some(i) => {
                if 0 <= i < s.len() {
                    seq![strip_cr(s.take(i))] + lines_of(s.skip(i + 1))
                } else {
                    seq![s]
                }
            },
        }
    }
}

/// The parts joined with `sep` between them (`[..].join(sep)`).
pub open spec fn join(parts: Seq<Seq<char>>, sep: Seq<char>) -> Seq<char>
    decreases parts.len(),
{
    if parts.len() == 0 {
        seq![]
    } else if parts.len() == 1 {
        parts[0]
    } else {
        join(parts.drop_last(), sep) + sep + parts.last()
    }
}

/// The views of a sequence of strings.
pub open spec fn strs(v: Seq<String>) -> Seq<Seq<char>> {
    v.map_values(|s: String| s@)
}

// ───────────────────────── executable counterparts ─────────────────────────

/// Appends the characters of the literal `lit` to `o`.
pub fn push_lit(o: &mut Vec<char>, lit: &str)
    ensures
        final(o)@ == old(o)@ + lit@,
{
    let mut v = chars_of(lit);
    o.append(&mut v);
}

/// Appends the characters of `v` to `o`.
pub fn push_all(o: &mut Vec<char>, v: &[char])
    ensures
        final(o)@ == old(o)@ + v@,
{
    let mut w = slice_of(v, 0, v.len());
    assert(w@ =~= v@);
    o.append(&mut w);
}

/// `str::strip_prefix` with a literal.
pub fn strip_prefix_lit(v: &[char], lit: &str) -> (r: Option<Vec<char>>)
    ensures
        match r {
            Some(x) => strip_prefix(v@, lit@) == Some(x@),
            None => strip_prefix(v@, lit@) is None,
        },
{
    if starts_with_lit(v, lit) {
        Some(suffix(v, lit.unicode_len()))
    } else {
        None
    }
}

/// Whether `v` ends with the literal `lit`.
pub fn ends_with_lit(v: &[char], lit: &str) -> (b: bool)
    ensures
        b == ends_with(v@, lit@),
{
    let n = lit.unicode_len();
    if n > v.len() {
        return false;
    }
    let t = suffix(v, v.len() - n);
    eq_lit(&t, lit)
}

/// `str::strip_suffix` with a literal.
pub fn strip_suffix_lit(v: &[char], lit: &str) -> (r: Option<Vec<char>>)
    ensures
        match r {
            Some(x) => strip_suffix(v@, lit@) == Some(x@),
            None => strip_suffix(v@, lit@) is None,
        },
{
    if ends_with_lit(v, lit) {
        let n = lit.unicode_len();
        let r = slice_of(v, 0, v.len() - n);
        assert(r@ =~= v@.take(v@.len() - lit@.len()));
        Some(r)
    } else {
        None
    }
}

/// `str::trim_end_matches` with a char pattern.
pub fn trim_end_matches_chars(v: &[char], c: char) -> (r: Vec<char>)
    ensures
        r@ == trim_end_matches(v@, c),
{
    let mut j: usize = v.len();
    assert(v@.take(v@.len() as int) =~= v@);
    while j > 0 && v[j - 1] == c
        invariant
            j <= v.len(),
            trim_end_matches(v@, c) == trim_end_matches(v@.take(j as int), c),
        decreases j,
    {
        assert(v@.take(j as int).drop_last() =~= v@.take(j - 1));
        j -= 1;
    }
    assert(v@.subrange(0, j as int) =~= v@.take(j as int));
    slice_of(v, 0, j)
}

/// `str::trim_end_matches` with a non-empty literal.
pub fn trim_end_matches_lit(v: &[char], lit: &str) -> (r: Vec<char>)
    requires
        lit@.len() > 0,
    ensures
        r@ == trim_end_matches_seq(v@, lit@),
{
    let n = lit.unicode_len();
    let mut j: usize = v.len();
    assert(v@.take(v@.len() as int) =~= v@);
    loop
        invariant
            j <= v.len(),
            n == lit@.len() > 0,
            trim_end_matches_seq(v@, lit@) == trim_end_matches_seq(v@.take(j as int), lit@),
        decreases j,
    {
        let t = slice_of(v, 0, j);
        assert(t@ =~= v@.take(j as int));
        if !ends_with_lit(&t, lit) {
            return t;
        }
        assert(v@.take(j as int).take(j - n) =~= v@.take(j - n));
        j -= n;
    }
}

/// Index of the last `c` in `v`.
pub fn rfind_char_in(v: &[char], c: char) -> (r: Option<usize>)
    ensures
        match r {
            Some(i) => rfind_char(v@, c) == Some(i as int),
            None => rfind_char(v@, c) is None,
        },
{
    let mut j: usize = v.len();
    assert(v@.take(v@.len() as int) =~= v@);
    while j > 0
        invariant
            j <= v.len(),
            rfind_char(v@, c) == rfind_char(v@.take(j as int), c),
        decreases j,
    {
        if v[j - 1] == c {
            return Some(j - 1);
        }
        assert(v@.take(j as int).drop_last() =~= v@.take(j - 1));
        j -= 1;
    }
    None
}

/// Start of the last occurrence of the literal `lit` in `v`.
pub fn rfind_lit(v: &[char], lit: &str) -> (r: Option<usize>)
    ensures
        match r {
            Some(i) => rfind_seq(v@, lit@) == Some(i as int),
            None => rfind_seq(v@, lit@) is None,
        },
{
    let n = lit.unicode_len();
    let mut j: usize = v.len();
    assert(v@.take(v@.len() as int) =~= v@);
    loop
        invariant
            j <= v.len(),
            n == lit@.len(),
            rfind_seq(v@, lit@) == rfind_seq(v@.take(j as int), lit@),
        decreases j,
    {
        if j < n {
            return None;
        }
        let t = slice_of(v, j - n, j);
        assert(t@ =~= v@.take(j as int).skip(j - n));
        if eq_lit(&t, lit) {
            return Some(j - n);
        }
        if j == 0 {
            return None;
        }
        assert(v@.take(j as int).drop_last() =~= v@.take(j - 1));
        j -= 1;
    }
}

/// The first position of the literal `lit` in `v`.
pub fn find_lit(v: &[char], lit: &str) -> (r: Option<usize>)
    ensures
        match r {
            Some(i) => find_seq(v@, lit@) == Some(i as int),
            None => find_seq(v@, lit@) is None,
        },
{
    let p = chars_of(lit);
    find_seq_in(v, &p)
}

/// Whether `v` holds the literal `lit` (`str::contains`).
pub fn has_lit(v: &[char], lit: &str) -> (b: bool)
    ensures
        b == find_seq(v@, lit@) is Some,
{
    find_lit(v, lit).is_some()
}

/// Whether `v` holds the character `c` (`str::contains` with a char).
pub fn has_char(v: &[char], c: char) -> (b: bool)
    ensures
        b == find_char(v@, c) is Some,
{
    find_char_in(v, c).is_some()
}

/// The number of leading whitespace characters of `v`.
pub fn leading_ws_count(v: &[char]) -> (r: usize)
    ensures
        r == leading_ws(v@),
{
    let mut i: usize = 0;
    assert(v@.skip(0) =~= v@);
    while i < v.len() && is_whitespace(v[i])
        invariant
            i <= v.len(),
            trim_start(v@) == trim_start(v@.skip(i as int)),
        decreases v.len() - i,
    {
        assert(v@.skip(i as int).drop_first() =~= v@.skip(i + 1));
        i += 1;
    }
    i
}

/// The number of times `c` occurs in `v`.
pub fn count_char_in(v: &[char], c: char) -> (r: usize)
    ensures
        r == count_char(v@, c),
{
    let mut i: usize = 0;
    let mut n: usize = 0;
    while i < v.len()
        invariant
            i <= v.len(),
            n == count_char(v@.take(i as int), c),
            n <= i,
        decreases v.len() - i,
    {
        assert(v@.take(i + 1).drop_last() =~= v@.take(i as int));
        if v[i] == c {
            n += 1;
        }
        i += 1;
    }
    assert(v@.take(v@.len() as int) =~= v@);
    n
}

/// The lines of `v` (`str::lines`).
pub fn lines_chars(v: &[char]) -> (r: Vec<Vec<char>>)
    ensures
        views(r@) == lines_of(v@),
    decreases v@.len(),
{
    let mut r: Vec<Vec<char>> = Vec::new();
    if v.len() == 0 {
        assert(views(r@) =~= Seq::<Seq<char>>::empty());
        return r;
    }
    match find_char_in(v, '\n') {
        None => {
            let whole = slice_of(v, 0, v.len());
            assert(whole@ =~= v@);
            r.push(whole);
            assert(views(r@) =~= seq![v@]);
            r
        },
        Some(i) => {
            proof {
                lemma_find_first_bounds(v@, eq_pred('\n'));
            }
            let mut first = slice_of(v, 0, i);
            if first.len() > 0 && first[first.len() - 1] == '\r' {
                first.pop();
            }
            assert(first@ == strip_cr(v@.take(i as int)));
            let rest = suffix(v, i + 1);
            let tail = lines_chars(&rest);
            r.push(first);
            let mut tail = tail;
            let ghost r0 = r@;
            r.append(&mut tail);
            assert(views(r@) =~= seq![strip_cr(v@.take(i as int))] + lines_of(v@.skip(i + 1)));
            r
        },
    }
}

/// The parts joined with `sep` (`[..].join(sep)`).
pub fn join_chars(parts: &[Vec<char>], sep: &str) -> (r: Vec<char>)
    ensures
        r@ == join(views(parts@), sep@),
{
    let mut o: Vec<char> = Vec::new();
    let mut i: usize = 0;
    while i < parts.len()
        invariant
            i <= parts.len(),
            o@ == join(views(parts@).take(i as int), sep@),
        decreases parts.len() - i,
    {
        assert(views(parts@).take(i + 1).drop_last() =~= views(parts@).take(i as int));
        if i > 0 {
            push_lit(&mut o, sep);
        }
        push_all(&mut o, &parts[i]);
        proof {
            if i == 0 {
                assert(o@ =~= views(parts@).take(1)[0]);
            }
        }
        i += 1;
    }
    assert(views(parts@).take(parts@.len() as int) =~= views(parts@));
    o
}

/// Whether the list `v` holds the string `x`.
pub fn has_string(v: &[String], x: &[char]) -> (b: bool)
    ensures
        b == strs(v@).contains(x@),
{
    let mut i: usize = 0;
    while i < v.len()
        invariant
            i <= v.len(),
            forall|j: int| 0 <= j < i ==> v@[j]@ != x@,
        decreases v.len() - i,
    {
        let c = chars_of(v[i].as_str());
        if eq_chars(&c, x) {
            assert(strs(v@)[i as int] == x@);
            return true;
        }
        i += 1;
    }
    proof {
        if strs(v@).contains(x@) {
            let j = choose|j: int| 0 <= j < strs(v@).len() && strs(v@)[j] == x@;
            assert(v@[j]@ == x@);
        }
    }
    false
}

} // verus!

verus! {

/// The first `k` vectors of `v`.
pub fn text_vecs_take(v: &[Vec<char>], k: usize) -> (r: Vec<Vec<char>>)
    requires
        k <= v@.len(),
    ensures
        views(r@) == views(v@).take(k as int),
        r@.len() == k,
{
    let mut r: Vec<Vec<char>> = Vec::new();
    let mut i: usize = 0;
    while i < k
        invariant
            i <= k <= v@.len(),
            views(r@) == views(v@).take(i as int),
        decreases k - i,
    {
        let c = slice_of(&v[i], 0, v[i].len());
        assert(c@ =~= v@[i as int]@);
        let ghost r0 = views(r@);
        r.push(c);
        assert(views(r@) =~= r0.push(c@));
        assert(views(v@).take(i + 1) =~= views(v@).take(i as int).push(v@[i as int]@));
        i += 1;
    }
    assert(views(r@).len() == r@.len());
    r
}

} // verus!
