//! A small HTML reader: comments out, the body's text split into tags and
//! text, and the tags assembled into an element tree.
use vstd::prelude::*;

use crate::text::{
    byte_slice, byte_suffix, chars_of, eq_chars, eq_lit, find_char, find_char_in, find_seq,
    find_seq_in, is_ascii_whitespace, is_ascii_ws, lemma_find_first_bounds, lemma_find_seq,
    lemma_trim_len, lowercase, lowercase_of, eq_pred, owned, slice_of, string_of, suffix, trim,
    trim_chars, utf8_len, utf8_width,
};
use vstd::string::StringSliceAdditionalSpecFns;

verus! {

// ═══════════════════════ attribute maps ═══════════════════════

/// A map from strings to strings (attributes by name, or selectors to
/// variable names), each key once; setting a key again replaces its
/// value.
#[derive(Debug)]
pub struct StrMap {
    entries: Vec<(String, String)>,
}

/// The map that a list of entries stands for.
pub open spec fn attr_map_of(es: Seq<(Seq<char>, Seq<char>)>) -> Map<Seq<char>, Seq<char>>
    decreases es.len(),
{
    if es.len() == 0 {
        Map::empty()
    } else {
        attr_map_of(es.drop_last()).insert(es.last().0, es.last().1)
    }
}

pub open spec fn attr_keys_unique(es: Seq<(Seq<char>, Seq<char>)>) -> bool {
    forall|i: int, j: int|
        0 <= i < es.len() && 0 <= j < es.len() && i != j ==> #[trigger] es[i].0 != #[trigger] es[j].0
}

pub open spec fn attr_entries_view(s: Seq<(String, String)>) -> Seq<(Seq<char>, Seq<char>)> {
    s.map_values(|e: (String, String)| (e.0@, e.1@))
}

proof fn lemma_attr_map_of(es: Seq<(Seq<char>, Seq<char>)>)
    requires
        attr_keys_unique(es),
    ensures
        attr_map_of(es).dom().finite(),
        attr_map_of(es).dom().len() == es.len(),
        forall|i: int| 0 <= i < es.len() ==> #[trigger] attr_map_of(es).contains_key(es[i].0)
            && attr_map_of(es)[es[i].0] == es[i].1,
        forall|k: Seq<char>| #[trigger]
            attr_map_of(es).contains_key(k) ==> exists|i: int| 0 <= i < es.len() && es[i].0 == k,
    decreases es.len(),
{
    if es.len() > 0 {
        let pre = es.drop_last();
        assert(attr_keys_unique(pre));
        lemma_attr_map_of(pre);
        if attr_map_of(pre).contains_key(es.last().0) {
            let i = choose|i: int| 0 <= i < pre.len() && pre[i].0 == es.last().0;
            assert(es[i].0 == es[es.len() - 1].0);
        }
        assert forall|i: int| 0 <= i < es.len() implies #[trigger] attr_map_of(es).contains_key(
            es[i].0,
        ) && attr_map_of(es)[es[i].0] == es[i].1 by {
            if i < es.len() - 1 {
                assert(pre[i] == es[i]);
                assert(es[i].0 != es.last().0);
            }
        }
        assert forall|k: Seq<char>| #[trigger] attr_map_of(es).contains_key(k) implies exists|i: int|
            0 <= i < es.len() && es[i].0 == k by {
            if k != es.last().0 {
                let i = choose|i: int| 0 <= i < pre.len() && pre[i].0 == k;
                assert(es[i].0 == k);
            } else {
                assert(es[es.len() - 1].0 == k);
            }
        }
    }
}

impl View for StrMap {
    type V = Map<Seq<char>, Seq<char>>;

    closed spec fn view(&self) -> Map<Seq<char>, Seq<char>> {
        attr_map_of(attr_entries_view(self.entries@))
    }
}

impl StrMap {
    /// The map's invariant: each name once.
    #[verifier::type_invariant]
    spec fn wf(self) -> bool {
        attr_keys_unique(attr_entries_view(self.entries@))
    }

    /// An empty map.
    pub fn new() -> (r: Self)
        ensures
            r@ == Map::<Seq<char>, Seq<char>>::empty(),
    {
        let e: Vec<(String, String)> = Vec::new();
        assert(attr_entries_view(e@) =~= Seq::<(Seq<char>, Seq<char>)>::empty());
        Self { entries: e }
    }

    fn position(&self, key: &str) -> (r: Option<usize>)
        ensures
            r matches Some(i) ==> i < self.entries@.len() && self.entries@[i as int].0@ == key@,
            r is None ==> !self@.contains_key(key@),
    {
        proof {
            use_type_invariant(self);
        }
        let ghost es = attr_entries_view(self.entries@);
        proof {
            lemma_attr_map_of(es);
        }
        let mut i: usize = 0;
        while i < self.entries.len()
            invariant
                i <= self.entries@.len(),
                forall|j: int| 0 <= j < i ==> self.entries@[j].0@ != key@,
            decreases self.entries.len() - i,
        {
            if crate::text::eq_str(self.entries[i].0.as_str(), key) {
                return Some(i);
            }
            i += 1;
        }
        proof {
            if self@.contains_key(key@) {
                let j = choose|j: int| 0 <= j < es.len() && es[j].0 == key@;
                assert(self.entries@[j].0@ == key@);
            }
        }
        None
    }

    /// The number of names.
    pub fn len(&self) -> (r: usize)
        ensures
            r == self@.dom().len(),
    {
        proof {
            use_type_invariant(self);
            lemma_attr_map_of(attr_entries_view(self.entries@));
        }
        self.entries.len()
    }

    /// Whether `key` is set.
    pub fn contains_key(&self, key: &str) -> (r: bool)
        ensures
            r == self@.contains_key(key@),
    {
        proof {
            use_type_invariant(self);
        }
        let ghost es = attr_entries_view(self.entries@);
        match self.position(key) {
            Some(i) => {
                proof {
                    lemma_attr_map_of(es);
                    assert(es.len() == self.entries@.len());
                    assert(attr_map_of(es).contains_key(es[i as int].0));
                }
                true
            },
            None => false,
        }
    }

    /// The value of `key`, if set.
    pub fn get(&self, key: &str) -> (r: Option<&String>)
        ensures
            r matches Some(v) ==> self@.contains_key(key@) && v@ == self@[key@],
            r is None ==> !self@.contains_key(key@),
    {
        proof {
            use_type_invariant(self);
        }
        let ghost es = attr_entries_view(self.entries@);
        match self.position(key) {
            Some(i) => {
                proof {
                    assert(es.len() == self.entries@.len());
                    assert(es[i as int].0 == key@);
                    assert(es[i as int].1 == self.entries@[i as int].1@);
                    lemma_attr_map_of(es);
                    assert(attr_map_of(es).contains_key(es[i as int].0));
                    assert(attr_map_of(es)[es[i as int].0] == es[i as int].1);
                }
                Some(&self.entries[i].1)
            },
            None => None,
        }
    }

    /// Sets `key` to `value`.
    pub fn insert(&mut self, key: &str, value: &str)
        ensures
            final(self)@ == old(self)@.insert(key@, value@),
    {
        proof {
            use_type_invariant(&*self);
        }
        let ghost es = attr_entries_view(self.entries@);
        proof {
            lemma_attr_map_of(es);
        }
        let pos = self.position(key);
        let mut entries: Vec<(String, String)> = Vec::new();
        std::mem::swap(&mut entries, &mut self.entries);
        assert(attr_entries_view(entries@) == es);
        match pos {
            Some(p) => {
                entries.set(p, (owned(key), owned(value)));
                proof {
                    let ne = attr_entries_view(entries@);
                    assert(ne =~= es.update(p as int, (key@, value@)));
                    assert(es[p as int].0 == key@);
                    assert forall|a: int| 0 <= a < ne.len() implies #[trigger] ne[a].0 == es[a].0 by {
                        if a == p {
                            assert(ne[a].0 == key@);
                        }
                    }
                    assert(attr_keys_unique(ne));
                    lemma_attr_map_of(ne);
                    assert(attr_map_of(ne) =~= attr_map_of(es).insert(key@, value@)) by {
                        assert forall|k: Seq<char>| #[trigger] attr_map_of(ne).contains_key(k)
                            <==> attr_map_of(es).insert(key@, value@).contains_key(k) by {
                            if attr_map_of(es).contains_key(k) {
                                let j = choose|j: int| 0 <= j < es.len() && es[j].0 == k;
                                assert(ne[j].0 == k);
                            }
                            if attr_map_of(ne).contains_key(k) {
                                let j = choose|j: int| 0 <= j < ne.len() && ne[j].0 == k;
                                assert(es[j].0 == k);
                            }
                            if k == key@ {
                                assert(ne[p as int].0 == k);
                            }
                        }
                        assert forall|k: Seq<char>| #[trigger] attr_map_of(ne).contains_key(k)
                            implies attr_map_of(ne)[k] == attr_map_of(es).insert(key@, value@)[k] by {
                            let j = choose|j: int| 0 <= j < ne.len() && ne[j].0 == k;
                            if j != p {
                                assert(ne[j] == es[j]);
                            }
                        }
                    }
                }
            },
            None => {
                entries.push((owned(key), owned(value)));
                proof {
                    let ne = attr_entries_view(entries@);
                    assert(ne =~= es.push((key@, value@)));
                    assert forall|a: int, b: int|
                        0 <= a < ne.len() && 0 <= b < ne.len() && a != b implies #[trigger] ne[a].0
                        != #[trigger] ne[b].0 by {
                        if a < es.len() && b < es.len() {
                        } else if a < es.len() {
                            assert(attr_map_of(es).contains_key(es[a].0));
                        } else {
                            assert(attr_map_of(es).contains_key(es[b].0));
                        }
                    }
                    assert(ne.drop_last() =~= es);
                }
            },
        }
        self.entries = entries;
    }

    /// An equal map.
    pub fn duplicate(&self) -> (r: Self)
        ensures
            r@ == self@,
    {
        proof {
            use_type_invariant(self);
        }
        let mut entries: Vec<(String, String)> = Vec::new();
        let mut i: usize = 0;
        while i < self.entries.len()
            invariant
                i <= self.entries@.len(),
                attr_entries_view(entries@) == attr_entries_view(self.entries@).take(i as int),
            decreases self.entries.len() - i,
        {
            let e = (owned(self.entries[i].0.as_str()), owned(self.entries[i].1.as_str()));
            let ghost before = entries@;
            entries.push(e);
            proof {
                assert(attr_entries_view(entries@) =~= attr_entries_view(before).push((e.0@, e.1@)));
                assert(attr_entries_view(self.entries@).take(i + 1) =~= attr_entries_view(
                    self.entries@,
                ).take(i as int).push((e.0@, e.1@)));
            }
            i += 1;
        }
        assert(attr_entries_view(self.entries@).take(self.entries@.len() as int) =~= attr_entries_view(
            self.entries@,
        ));
        Self { entries }
    }
}

// ═══════════════════════ elements ═══════════════════════

/// An element: its tag (lowercased), attributes, text, and children.
#[derive(Debug)]
pub struct HtmlElement {
    pub tag: String,
    pub attributes: StrMap,
    pub text_content: String,
    pub children: Vec<HtmlElement>,
}

impl HtmlElement {
    /// An element with the lowercased tag `tag` and nothing else.
    pub fn new(tag: &str) -> (r: Self)
        ensures
            r.tag@ == lowercase_of(tag@),
            r.attributes@ == Map::<Seq<char>, Seq<char>>::empty(),
            r.text_content@ == Seq::<char>::empty(),
            r.children@.len() == 0,
    {
        let low = lowercase(&chars_of(tag));
        Self {
            tag: string_of(&low),
            attributes: StrMap::new(),
            text_content: String::new(),
            children: Vec::new(),
        }
    }
}

// ═══════════════════════ comments and body ═══════════════════════

/// The first position of the bytes `p` in `t`.
pub open spec fn find_bytes(t: Seq<u8>, p: Seq<u8>) -> Option<int>
    decreases t.len(),
{
    if t.len() < p.len() {
        None
    } else if t.take(p.len() as int) == p {
        Some(0)
    } else if t.len() == 0 {
        None
    } else {
        match find_bytes(t.drop_first(), p) {
            Some(k) => Some(k + 1),
            None => None,
        }
    }
}

pub proof fn lemma_find_bytes(t: Seq<u8>, p: Seq<u8>)
    ensures
        find_bytes(t, p) matches Some(k) ==> 0 <= k && k + p.len() <= t.len(),
    decreases t.len(),
{
    if t.len() >= p.len() && t.take(p.len() as int) != p && t.len() > 0 {
        lemma_find_bytes(t.drop_first(), p);
    }
}

/// The bytes of `b` with each closed `<!-- .. -->` comment taken out.
pub open spec fn strip_html_bytes(b: Seq<u8>) -> Seq<u8>
    decreases b.len(),
{
    if b.len() == 0 {
        seq![]
    } else if b.len() >= 4 && b[0] == 0x3c && b[1] == 0x21 && b[2] == 0x2d && b[3] == 0x2d
        && find_bytes(b.skip(4), seq![0x2du8, 0x2du8, 0x3eu8]) is Some {
        proof {
            lemma_find_bytes(b.skip(4), seq![0x2du8, 0x2du8, 0x3eu8]);
        }
        strip_html_bytes(b.skip(4).skip(find_bytes(b.skip(4), seq![0x2du8, 0x2du8, 0x3eu8])->0 + 3))
    } else {
        seq![b[0]] + strip_html_bytes(b.skip(1))
    }
}

/// Bytes read one by one as characters.
pub open spec fn latin1(b: Seq<u8>) -> Seq<char> {
    b.map_values(|x: u8| x as char)
}

/// Whether the three bytes `-->` stand at `j`.
fn close_at_bytes(b: &[u8], j: usize) -> (r: bool)
    requires
        j + 3 <= b@.len(),
    ensures
        r == (b@.skip(j as int).take(3) == seq![0x2du8, 0x2du8, 0x3eu8]),
{
    let r = b[j] == 0x2d && b[j + 1] == 0x2d && b[j + 2] == 0x3e;
    proof {
        let w = b@.skip(j as int).take(3);
        if r {
            assert(w =~= seq![0x2du8, 0x2du8, 0x3eu8]);
        } else {
            if w == seq![0x2du8, 0x2du8, 0x3eu8] {
                assert(w[0] == b@[j as int]);
                assert(w[1] == b@[j + 1]);
                assert(w[2] == b@[j + 2]);
            }
        }
    }
    r
}

/// Takes the closed comments out of HTML text; the remaining bytes become
/// one character each.
fn strip_comments(s: &str) -> (r: String)
    ensures
        r@ == latin1(strip_html_bytes(s.spec_bytes())),
{
    let bytes = s.as_bytes();
    let n = bytes.len();
    let ghost b = bytes@;
    let ghost pat = seq![0x2du8, 0x2du8, 0x3eu8];
    let mut out: Vec<char> = Vec::new();
    let mut i: usize = 0;
    assert(b.skip(0) =~= b);
    assert(latin1(Seq::<u8>::empty()) =~= Seq::<char>::empty());
    while i < n
        invariant
            i <= n == b.len(),
            b == bytes@,
            b == s.spec_bytes(),
            pat == seq![0x2du8, 0x2du8, 0x3eu8],
            latin1(strip_html_bytes(b)) == out@ + latin1(strip_html_bytes(b.skip(i as int))),
        decreases n - i,
    {
        let ghost rest = b.skip(i as int);
        if n - i >= 4 && bytes[i] == 0x3c && bytes[i + 1] == 0x21 && bytes[i + 2] == 0x2d && bytes[i
            + 3] == 0x2d {
            let mut j: usize = i + 4;
            let mut found = false;
            proof {
                assert(rest.skip(4) =~= b.skip(j as int));
            }
            while n - j >= 3
                invariant_except_break
                    !found,
                invariant
                    i + 4 <= j <= n,
                    n == b.len(),
                    b == bytes@,
                    pat == seq![0x2du8, 0x2du8, 0x3eu8],
                    find_bytes(b.skip(i + 4), pat) == match find_bytes(b.skip(j as int), pat) {
                        Some(k) => Some(k + (j - i - 4)),
                        None => None,
                    },
                ensures
                    found ==> j + 3 <= n && b.skip(j as int).take(3) == pat,
                    !found ==> j + 3 > n,
                    i + 4 <= j <= n,
                    find_bytes(b.skip(i + 4), pat) == match find_bytes(b.skip(j as int), pat) {
                        Some(k) => Some(k + (j - i - 4)),
                        None => None,
                    },
                decreases n - j,
            {
                proof {
                    assert(b.skip(j as int).drop_first() =~= b.skip(j + 1));
                }
                if close_at_bytes(bytes, j) {
                    found = true;
                    break;
                }
                j += 1;
            }
            if found {
                proof {
                    assert(find_bytes(b.skip(j as int), pat) == Some(0int));
                    assert(rest.skip(4) =~= b.skip(i + 4));
                    assert(rest.skip(4).skip(j - i - 4 + 3) =~= b.skip(j + 3));
                }
                i = j + 3;
                continue;
            } else {
                proof {
                    assert(find_bytes(b.skip(j as int), pat) is None);
                    assert(rest.skip(4) =~= b.skip(i + 4));
                }
            }
        }
        proof {
            assert(rest.skip(1) =~= b.skip(i + 1));
            assert(rest[0] == b[i as int]);
            assert(latin1(seq![b[i as int]] + strip_html_bytes(b.skip(i + 1))) =~= seq![
                b[i as int] as char,
            ] + latin1(strip_html_bytes(b.skip(i + 1))));
        }
        let ghost before = out@;
        out.push(bytes[i] as char);
        proof {
            assert(before + (seq![b[i as int] as char] + latin1(strip_html_bytes(b.skip(i + 1)))) =~= out@
                + latin1(strip_html_bytes(b.skip(i + 1))));
        }
        i += 1;
    }
    proof {
        assert(b.skip(n as int) =~= Seq::<u8>::empty());
        assert(out@ + latin1(Seq::<u8>::empty()) =~= out@);
    }
    string_of(&out)
}

/// The part of `h` inside `<body ..>` and `</body>`, found by searching its
/// lowercase; the whole text when there is no `<body`. Positions found in
/// the lowercase are used as byte offsets into `h`: `None` where such an
/// offset is off a character boundary of `h` (which panics).
pub open spec fn body_spec(h: Seq<char>) -> Option<Seq<char>> {
    let lower = lowercase_of(h);
    match find_seq(lower, "<body"@) {
        None => Some(h),
        Some(si) => {
            let start_b = utf8_len(lower.take(si));
            match byte_suffix(h, start_b) {
                None => None,
                Some(hs) => {
                    let after_tag = match find_char(hs, '>') {
                        Some(k) => start_b + utf8_len(hs.take(k)) + 1,
                        None => 0,
                    };
                    match byte_suffix(lower, after_tag) {
                        None => None,
                        Some(ls) => match find_seq(ls, "</body>"@) {
                            Some(e) => byte_slice(h, after_tag, after_tag + utf8_len(ls.take(e))),
                            None => byte_suffix(h, after_tag),
                        },
                    }
                },
            }
        },
    }
}

fn width_u128(c: char) -> (w: u128)
    ensures
        w == utf8_width(c),
{
    let u = c as u32;
    if u < 0x80 {
        1
    } else if u < 0x800 {
        2
    } else if u < 0x10000 {
        3
    } else {
        4
    }
}

/// The UTF-8 length of `v`.
fn utf8_len_u128(v: &[char]) -> (r: u128)
    ensures
        r == utf8_len(v@),
{
    let mut acc: u128 = 0;
    let mut i: usize = 0;
    while i < v.len()
        invariant
            i <= v@.len(),
            acc == utf8_len(v@.take(i as int)),
            acc <= 4 * i,
        decreases v.len() - i,
    {
        proof {
            assert(v@.take(i + 1).drop_last() =~= v@.take(i as int));
        }
        acc = acc + width_u128(v[i]);
        i += 1;
    }
    assert(v@.take(v@.len() as int) =~= v@);
    acc
}

/// The character index at byte offset `x`, when it is a boundary.
fn char_at_byte_u128(s: &[char], x: u128) -> (r: Option<usize>)
    ensures
        match r {
            Some(i) => crate::text::char_at_byte(s@, x as int) == Some(i as int),
            None => crate::text::char_at_byte(s@, x as int) is None,
        },
{
    let n = s.len();
    let mut k: usize = 0;
    let mut rem: u128 = x;
    while rem != 0 && k < n && rem >= width_u128(s[k])
        invariant
            k <= n == s@.len(),
            crate::text::char_at_byte(s@, x as int) == crate::text::char_at_byte_from(
                s@,
                k as int,
                rem as int,
            ),
        decreases n - k,
    {
        rem = rem - width_u128(s[k]);
        k += 1;
    }
    if rem == 0 {
        Some(k)
    } else {
        None
    }
}

/// `&s[a..]` with a byte offset, or `None` where that panics.
fn byte_suffix_opt(s: &[char], a: u128) -> (r: Option<Vec<char>>)
    ensures
        match r {
            Some(v) => byte_suffix(s@, a as int) == Some(v@),
            None => byte_suffix(s@, a as int) is None,
        },
{
    proof {
        crate::text::lemma_char_at_byte_from(s@, 0, a as int);
    }
    match char_at_byte_u128(s, a) {
        Some(i) => Some(suffix(s, i)),
        None => None,
    }
}

/// `&s[a..b]` with byte offsets, or `None` where that panics.
fn byte_slice_opt(s: &[char], a: u128, b: u128) -> (r: Option<Vec<char>>)
    ensures
        match r {
            Some(v) => byte_slice(s@, a as int, b as int) == Some(v@),
            None => byte_slice(s@, a as int, b as int) is None,
        },
{
    proof {
        crate::text::lemma_char_at_byte_from(s@, 0, a as int);
        crate::text::lemma_char_at_byte_from(s@, 0, b as int);
    }
    match (char_at_byte_u128(s, a), char_at_byte_u128(s, b)) {
        (Some(i), Some(j)) => if i <= j {
            Some(slice_of(s, i, j))
        } else {
            None
        },
        _ => None,
    }
}

/// The body of `h` (see [`body_spec`]), or `None` where finding it panics.
fn extract_body(h: &[char]) -> (r: Option<Vec<char>>)
    ensures
        match r {
            Some(v) => body_spec(h@) == Some(v@),
            None => body_spec(h@) is None,
        },
{
    let lower = lowercase(h);
    let open_tag = chars_of("<body");
    let close_tag = chars_of("</body>");
    match find_seq_in(&lower, &open_tag) {
        None => Some(slice_of(h, 0, h.len())),
        Some(si) => {
            proof {
                lemma_find_seq(lower@, open_tag@);
                assert(h@.subrange(0, h@.len() as int) =~= h@);
            }
            let start_b = utf8_len_u128(&slice_of(&lower, 0, si));
            assert(lower@.subrange(0, si as int) =~= lower@.take(si as int));
            match byte_suffix_opt(h, start_b) {
                None => None,
                Some(hs) => {
                    let after_tag: u128 = match find_char_in(&hs, '>') {
                        Some(k) => {
                            proof {
                                lemma_find_first_bounds(hs@, eq_pred('>'));
                                assert(hs@.subrange(0, k as int) =~= hs@.take(k as int));
                                crate::text::lemma_char_at_byte_from(h@, 0, start_b as int);
                            }
                            let w = utf8_len_u128(&slice_of(&hs, 0, k));
                            proof {
                                lemma_utf8_len_le(hs@.take(k as int));
                                lemma_utf8_len_le(lower@.take(si as int));
                                lemma_utf8_len_le(lower@);
                                lemma_utf8_len_prefix_le(lower@, si as int);
                            }
                            start_b + w + 1
                        },
                        None => 0,
                    };
                    match byte_suffix_opt(&lower, after_tag) {
                        None => None,
                        Some(ls) => match find_seq_in(&ls, &close_tag) {
                            Some(e) => {
                                proof {
                                    lemma_find_seq(ls@, close_tag@);
                                    assert(ls@.subrange(0, e as int) =~= ls@.take(e as int));
                                    lemma_utf8_len_le(ls@.take(e as int));
                                }
                                let eb = utf8_len_u128(&slice_of(&ls, 0, e));
                                byte_slice_opt(h, after_tag, after_tag + eb)
                            },
                            None => byte_suffix_opt(h, after_tag),
                        },
                    }
                },
            }
        },
    }
}

proof fn lemma_utf8_len_le(s: Seq<char>)
    ensures
        0 <= utf8_len(s) <= 4 * s.len(),
    decreases s.len(),
{
    if s.len() > 0 {
        lemma_utf8_len_le(s.drop_last());
    }
}

proof fn lemma_utf8_len_prefix_le(s: Seq<char>, i: int)
    requires
        0 <= i <= s.len(),
    ensures
        utf8_len(s.take(i)) <= utf8_len(s),
    decreases s.len() - i,
{
    if i < s.len() {
        lemma_utf8_len_prefix_le(s, i + 1);
        assert(s.take(i + 1).drop_last() =~= s.take(i));
    } else {
        assert(s.take(i) =~= s);
    }
}

// ═══════════════════════ attributes ═══════════════════════

/// The first position from `i` whose character fails `p`, or the end.
pub open spec fn scan_while(c: Seq<char>, i: int, p: spec_fn(char) -> bool) -> int
    decreases c.len() - i,
{
    if 0 <= i < c.len() && p(c[i]) {
        scan_while(c, i + 1, p)
    } else {
        i
    }
}

pub proof fn lemma_scan_while(c: Seq<char>, i: int, p: spec_fn(char) -> bool)
    requires
        0 <= i,
    ensures
        i <= scan_while(c, i, p),
        i <= c.len() ==> scan_while(c, i, p) <= c.len(),
        scan_while(c, i, p) < c.len() ==> !p(c[scan_while(c, i, p)]),
    decreases c.len() - i,
{
    if 0 <= i < c.len() && p(c[i]) {
        lemma_scan_while(c, i + 1, p);
    }
}

pub open spec fn ws_pred() -> spec_fn(char) -> bool {
    |x: char| is_ascii_ws(x)
}

/// Characters of an attribute name.
pub open spec fn name_char(x: char) -> bool {
    crate::text::is_ascii_alpha(x) || crate::text::is_ascii_digit(x) || x == '-' || x == '_' || x == ':'
}

pub open spec fn name_pred() -> spec_fn(char) -> bool {
    |x: char| name_char(x)
}

pub open spec fn not_pred(q: char) -> spec_fn(char) -> bool {
    |x: char| x != q
}

pub open spec fn unquoted_pred() -> spec_fn(char) -> bool {
    |x: char| !is_ascii_ws(x) && x != '>'
}

/// The attributes of a tag's inside from position `i` on, added to `m`:
/// names of letters, digits, `-`, `_` and `:`; values after `=`, quoted
/// with `"` or `'` or running to white space or `>`; a name without `=`
/// gets the empty value; a later value for a name replaces an earlier one.
pub open spec fn attrs_from(c: Seq<char>, i: int, m: Map<Seq<char>, Seq<char>>) -> Map<
    Seq<char>,
    Seq<char>,
>
    decreases c.len() - i,
{
    if !(0 <= i < c.len()) {
        m
    } else {
        let st = scan_while(c, i, ws_pred());
        proof {
            lemma_scan_while(c, i, ws_pred());
            lemma_scan_while(c, st, name_pred());
        }
        if st >= c.len() {
            m
        } else {
            let ne = scan_while(c, st, name_pred());
            if ne == st {
                attrs_from(c, st + 1, m)
            } else {
                let name = c.subrange(st, ne);
                let j = scan_while(c, ne, ws_pred());
                proof {
                    lemma_scan_while(c, ne, ws_pred());
                    lemma_scan_while(c, j + 1, ws_pred());
                }
                if !(j < c.len() && c[j] == '=') {
                    attrs_from(c, j, m.insert(name, seq![]))
                } else {
                    let k = scan_while(c, j + 1, ws_pred());
                    if k < c.len() && (c[k] == '"' || c[k] == '\'') {
                        let ve = scan_while(c, k + 1, not_pred(c[k]));
                        proof {
                            lemma_scan_while(c, k + 1, not_pred(c[k]));
                        }
                        attrs_from(
                            c,
                            if ve < c.len() { ve + 1 } else { ve },
                            m.insert(name, c.subrange(k + 1, ve)),
                        )
                    } else {
                        let ve = scan_while(c, k, unquoted_pred());
                        proof {
                            lemma_scan_while(c, k, unquoted_pred());
                        }
                        attrs_from(c, ve, m.insert(name, c.subrange(k, ve)))
                    }
                }
            }
        }
    }
}

fn scan_ws(c: &[char], i: usize) -> (r: usize)
    requires
        i <= c@.len(),
    ensures
        r == scan_while(c@, i as int, ws_pred()),
        i <= r <= c@.len(),
{
    let mut j = i;
    while j < c.len() && is_ascii_whitespace(c[j])
        invariant
            i <= j <= c@.len(),
            scan_while(c@, i as int, ws_pred()) == scan_while(c@, j as int, ws_pred()),
        decreases c.len() - j,
    {
        j += 1;
    }
    j
}

fn is_name_char(x: char) -> (r: bool)
    ensures
        r == name_char(x),
{
    ('a' <= x && x <= 'z') || ('A' <= x && x <= 'Z') || ('0' <= x && x <= '9') || x == '-' || x == '_'
        || x == ':'
}

/// Reads the attributes of a tag's inside.
fn parse_attributes(c: &[char]) -> (r: StrMap)
    ensures
        r@ == attrs_from(c@, 0, Map::empty()),
{
    let n = c.len();
    let mut attrs = StrMap::new();
    let mut i: usize = 0;
    while i < n
        invariant
            i <= n == c@.len(),
            attrs_from(c@, 0, Map::empty()) == attrs_from(c@, i as int, attrs@),
        decreases n - i,
    {
        let ghost i0 = i as int;
        let ghost m0 = attrs@;
        let st = scan_ws(c, i);
        if st >= n {
            i = n;
            assert(attrs_from(c@, n as int, attrs@) == attrs@);
            continue;
        }
        let mut ne = st;
        while ne < n && is_name_char(c[ne])
            invariant
                st <= ne <= n == c@.len(),
                scan_while(c@, st as int, name_pred()) == scan_while(c@, ne as int, name_pred()),
            decreases n - ne,
        {
            ne += 1;
        }
        if ne == st {
            i = st + 1;
            continue;
        }
        let name = string_of(&slice_of(c, st, ne));
        let j = scan_ws(c, ne);
        if !(j < n && c[j] == '=') {
            attrs.insert(name.as_str(), "");
            proof {
                reveal_strlit("");
                assert(""@ =~= Seq::<char>::empty());
            }
            i = j;
            continue;
        }
        let k = scan_ws(c, j + 1);
        if k < n && (c[k] == '"' || c[k] == '\'') {
            let q = c[k];
            let mut ve = k + 1;
            while ve < n && c[ve] != q
                invariant
                    k + 1 <= ve <= n == c@.len(),
                    q == c@[k as int],
                    scan_while(c@, k + 1, not_pred(q)) == scan_while(c@, ve as int, not_pred(q)),
                decreases n - ve,
            {
                ve += 1;
            }
            let value = string_of(&slice_of(c, k + 1, ve));
            attrs.insert(name.as_str(), value.as_str());
            i = if ve < n { ve + 1 } else { ve };
        } else {
            let mut ve = k;
            while ve < n && !is_ascii_whitespace(c[ve]) && c[ve] != '>'
                invariant
                    k <= ve <= n == c@.len(),
                    scan_while(c@, k as int, unquoted_pred()) == scan_while(c@, ve as int, unquoted_pred()),
                decreases n - ve,
            {
                ve += 1;
            }
            let value = string_of(&slice_of(c, k, ve));
            attrs.insert(name.as_str(), value.as_str());
            i = ve;
        }
    }
    proof {
        assert(attrs_from(c@, i as int, attrs@) == attrs@);
    }
    attrs
}

// ═══════════════════════ tokens ═══════════════════════

/// A piece of HTML text: an opening tag, a closing tag, or text.
#[derive(Debug)]
pub enum Token {
    OpenTag { name: String, attrs: StrMap, self_closing: bool },
    CloseTag { name: String },
    Text(String),
}

/// The model of a token.
pub enum TokenV {
    Open { name: Seq<char>, attrs: Map<Seq<char>, Seq<char>>, self_closing: bool },
    Close { name: Seq<char> },
    Text(Seq<char>),
}

pub open spec fn view_token(t: Token) -> TokenV {
    match t {
        Token::OpenTag { name, attrs, self_closing } => TokenV::Open {
            name: name@,
            attrs: attrs@,
            self_closing,
        },
        Token::CloseTag { name } => TokenV::Close { name: name@ },
        Token::Text(s) => TokenV::Text(s@),
    }
}

pub open spec fn view_tokens(s: Seq<Token>) -> Seq<TokenV> {
    s.map_values(|t: Token| view_token(t))
}

/// How a tag's inside ended: at `>`, at `/>`, or at the end of the text.
pub enum TagEnd {
    Gt,
    SlashGt,
    Eof,
}

/// Where a tag's inside ends from `k`: quoted text is skipped whole.
pub open spec fn tag_end(c: Seq<char>, k: int) -> (int, TagEnd)
    decreases c.len() - k,
{
    if k < 0 || k >= c.len() {
        (c.len() as int, TagEnd::Eof)
    } else if c[k] == '>' {
        (k + 1, TagEnd::Gt)
    } else if c[k] == '/' && k + 1 < c.len() && c[k + 1] == '>' {
        (k + 2, TagEnd::SlashGt)
    } else if c[k] == '"' || c[k] == '\'' {
        let q = scan_while(c, k + 1, not_pred(c[k]));
        proof {
            lemma_scan_while(c, k + 1, not_pred(c[k]));
        }
        tag_end(c, if q < c.len() { q + 1 } else { q })
    } else {
        tag_end(c, k + 1)
    }
}

pub proof fn lemma_tag_end(c: Seq<char>, k: int)
    requires
        0 <= k <= c.len(),
    ensures
        k <= tag_end(c, k).0 <= c.len(),
        tag_end(c, k).1 is Gt ==> tag_end(c, k).0 >= k + 1 && c[tag_end(c, k).0 - 1] == '>',
        tag_end(c, k).1 is SlashGt ==> tag_end(c, k).0 >= k + 2,
        tag_end(c, k).1 is Eof ==> tag_end(c, k).0 == c.len(),
    decreases c.len() - k,
{
    if k < c.len() && c[k] != '>' && !(c[k] == '/' && k + 1 < c.len() && c[k + 1] == '>') {
        if c[k] == '"' || c[k] == '\'' {
            lemma_scan_while(c, k + 1, not_pred(c[k]));
            let q = scan_while(c, k + 1, not_pred(c[k]));
            lemma_tag_end(c, if q < c.len() { q + 1 } else { q });
        } else {
            lemma_tag_end(c, k + 1);
        }
    }
}

/// Tags that never have contents.
pub open spec fn is_void(name: Seq<char>) -> bool {
    name == "br"@ || name == "hr"@ || name == "img"@ || name == "input"@ || name == "meta"@ || name
        == "link"@ || name == "area"@ || name == "base"@ || name == "col"@ || name == "embed"@
        || name == "source"@ || name == "track"@ || name == "wbr"@
}

/// The inside of an opening tag after its name: up to the `>` or `/>`;
/// for a tag the text leaves open, up to its last byte, which cuts the
/// last character in two (a panic, `None`) unless it is ASCII.
pub open spec fn tag_inside(c: Seq<char>, ne: int) -> Option<Seq<char>> {
    let (j, kind) = tag_end(c, ne);
    if !(j > ne) {
        Some(seq![])
    } else {
        match kind {
            TagEnd::Gt => if j - 1 > ne { Some(c.subrange(ne, j - 1)) } else { Some(seq![]) },
            TagEnd::SlashGt => if j - 2 > ne { Some(c.subrange(ne, j - 2)) } else { Some(seq![]) },
            TagEnd::Eof => if !crate::text::is_ascii_char(c.last()) {
                None
            } else if c.len() - 1 > ne {
                Some(c.subrange(ne, c.len() - 1))
            } else {
                Some(seq![])
            },
        }
    }
}

pub open spec fn tag_name_pred() -> spec_fn(char) -> bool {
    |x: char| !is_ascii_ws(x) && x != '>'
}

pub open spec fn open_name_pred() -> spec_fn(char) -> bool {
    |x: char| !is_ascii_ws(x) && x != '>' && x != '/'
}

/// The tokens of body text from position `i`: `</name ..>`, `<! .. >`
/// (skipped), `<name attributes>` or `<name attributes/>`, and trimmed
/// runs of text between tags (blank ones dropped). Names are lowercased.
/// `None` where reading panics.
pub open spec fn tokens_from(c: Seq<char>, i: int) -> Option<Seq<TokenV>>
    decreases c.len() - i,
{
    if !(0 <= i < c.len()) {
        Some(seq![])
    } else if c[i] == '<' {
        let i1 = i + 1;
        if i1 < c.len() && c[i1] == '/' {
            let ne = scan_while(c, i1 + 1, tag_name_pred());
            let gt = scan_while(c, ne, not_pred('>'));
            proof {
                lemma_scan_while(c, i1 + 1, tag_name_pred());
                lemma_scan_while(c, ne, not_pred('>'));
            }
            crate::style::selector::prepend(
                seq![TokenV::Close { name: lowercase_of(c.subrange(i1 + 1, ne)) }],
                tokens_from(c, if gt < c.len() { gt + 1 } else { gt }),
            )
        } else if i1 < c.len() && c[i1] == '!' {
            let gt = scan_while(c, i1, not_pred('>'));
            proof {
                lemma_scan_while(c, i1, not_pred('>'));
            }
            tokens_from(c, if gt < c.len() { gt + 1 } else { gt })
        } else {
            let ne = scan_while(c, i1, open_name_pred());
            proof {
                lemma_scan_while(c, i1, open_name_pred());
                lemma_tag_end(c, ne);
            }
            let name = lowercase_of(c.subrange(i1, ne));
            let (j, kind) = tag_end(c, ne);
            match tag_inside(c, ne) {
                None => None,
                Some(inside) => crate::style::selector::prepend(
                    seq![
                        TokenV::Open {
                            name,
                            attrs: attrs_from(inside, 0, Map::empty()),
                            self_closing: is_void(name) || kind is SlashGt,
                        },
                    ],
                    tokens_from(c, j),
                ),
            }
        }
    } else {
        let te = scan_while(c, i, not_pred('<'));
        proof {
            lemma_scan_while(c, i, not_pred('<'));
        }
        let text = trim(c.subrange(i, te));
        crate::style::selector::prepend(
            if text.len() > 0 { seq![TokenV::Text(text)] } else { seq![] },
            tokens_from(c, te),
        )
    }
}

fn scan_not(c: &[char], i: usize, q: char) -> (r: usize)
    requires
        i <= c@.len(),
    ensures
        r == scan_while(c@, i as int, not_pred(q)),
        i <= r <= c@.len(),
        i < c@.len() && c@[i as int] != q ==> r > i,
{
    let mut j = i;
    while j < c.len() && c[j] != q
        invariant
            i <= j <= c@.len(),
            scan_while(c@, i as int, not_pred(q)) == scan_while(c@, j as int, not_pred(q)),
        decreases c.len() - j,
    {
        j += 1;
    }
    j
}

fn is_void_exec(name: &[char]) -> (r: bool)
    ensures
        r == is_void(name@),
{
    eq_lit(name, "br") || eq_lit(name, "hr") || eq_lit(name, "img") || eq_lit(name, "input") || eq_lit(
        name,
        "meta",
    ) || eq_lit(name, "link") || eq_lit(name, "area") || eq_lit(name, "base") || eq_lit(name, "col")
        || eq_lit(name, "embed") || eq_lit(name, "source") || eq_lit(name, "track") || eq_lit(
        name,
        "wbr",
    )
}

/// Where a tag's inside ends from `k`, and how.
fn tag_end_exec(c: &[char], k: usize) -> (r: (usize, u8))
    requires
        k <= c@.len(),
    ensures
        r.0 == tag_end(c@, k as int).0,
        (r.1 == 0) == (tag_end(c@, k as int).1 is Gt),
        (r.1 == 1) == (tag_end(c@, k as int).1 is SlashGt),
        (r.1 == 2) == (tag_end(c@, k as int).1 is Eof),
{
    let n = c.len();
    let mut j = k;
    while j < n
        invariant
            k <= j <= n == c@.len(),
            tag_end(c@, k as int) == tag_end(c@, j as int),
        decreases n - j,
    {
        if c[j] == '>' {
            return (j + 1, 0);
        }
        if c[j] == '/' && j + 1 < n && c[j + 1] == '>' {
            return (j + 2, 1);
        }
        if c[j] == '"' || c[j] == '\'' {
            let q = scan_not(c, j + 1, c[j]);
            j = if q < n { q + 1 } else { q };
            continue;
        }
        j += 1;
    }
    (n, 2)
}

/// Splits body text into tokens.
fn tokenize(c: &[char]) -> (r: Vec<Token>)
    requires
        tokens_from(c@, 0) is Some,
    ensures
        Some(view_tokens(r@)) == tokens_from(c@, 0),
{
    let n = c.len();
    let mut tokens: Vec<Token> = Vec::new();
    let mut i: usize = 0;
    proof {
        assert(view_tokens(tokens@) =~= Seq::<TokenV>::empty());
        assert(tokens_from(c@, 0)->0 =~= view_tokens(tokens@) + tokens_from(c@, 0)->0);
    }
    while i < n
        invariant
            i <= n == c@.len(),
            tokens_from(c@, 0) is Some,
            tokens_from(c@, i as int) is Some,
            tokens_from(c@, 0)->0 == view_tokens(tokens@) + tokens_from(c@, i as int)->0,
        decreases n - i,
    {
        let ghost i0 = i as int;
        let ghost before = tokens@;
        if c[i] == '<' {
            let i1 = i + 1;
            if i1 < n && c[i1] == '/' {
                let mut ne = i1 + 1;
                while ne < n && !is_ascii_whitespace(c[ne]) && c[ne] != '>'
                    invariant
                        i1 + 1 <= ne <= n == c@.len(),
                        scan_while(c@, i1 + 1, tag_name_pred()) == scan_while(c@, ne as int, tag_name_pred()),
                    decreases n - ne,
                {
                    ne += 1;
                }
                let name = string_of(&lowercase(&slice_of(c, i1 + 1, ne)));
                let gt = scan_not(c, ne, '>');
                let t = Token::CloseTag { name };
                tokens.push(t);
                i = if gt < n { gt + 1 } else { gt };
            } else if i1 < n && c[i1] == '!' {
                let gt = scan_not(c, i1, '>');
                i = if gt < n { gt + 1 } else { gt };
            } else {
                let mut ne = i1;
                while ne < n && !is_ascii_whitespace(c[ne]) && c[ne] != '>' && c[ne] != '/'
                    invariant
                        i1 <= ne <= n == c@.len(),
                        scan_while(c@, i1 as int, open_name_pred()) == scan_while(c@, ne as int, open_name_pred()),
                    decreases n - ne,
                {
                    ne += 1;
                }
                let low = lowercase(&slice_of(c, i1, ne));
                let void = is_void_exec(&low);
                let (j, kind) = tag_end_exec(c, ne);
                proof {
                    lemma_tag_end(c@, ne as int);
                }
                let inside: Vec<char> = if !(j > ne) {
                    Vec::new()
                } else if kind == 0 {
                    if j - 1 > ne { slice_of(c, ne, j - 1) } else { Vec::new() }
                } else if kind == 1 {
                    if j - 2 > ne { slice_of(c, ne, j - 2) } else { Vec::new() }
                } else {
                    if (c[n - 1] as u32) >= 128 {
                        proof {
                            assert(tokens_from(c@, i0) is None);
                        }
                        assert(false);
                        Vec::new()
                    } else if n - 1 > ne {
                        slice_of(c, ne, n - 1)
                    } else {
                        Vec::new()
                    }
                };
                proof {
                    assert(tag_inside(c@, ne as int) == Some(inside@));
                }
                let attrs = parse_attributes(&inside);
                let t = Token::OpenTag { name: string_of(&low), attrs, self_closing: void || kind == 1 };
                tokens.push(t);
                i = j;
            }
        } else {
            let te = scan_not(c, i, '<');
            let text = trim_chars(&slice_of(c, i, te));
            if text.len() > 0 {
                tokens.push(Token::Text(string_of(&text)));
            }
            i = te;
        }
        proof {
            let rest = tokens_from(c@, i as int);
            assert(tokens_from(c@, i0) == crate::style::selector::prepend(view_tokens(tokens@).skip(before.len() as int), rest)) by {
                assert(view_tokens(tokens@) =~= view_tokens(before) + view_tokens(tokens@).skip(before.len() as int));
                assert(view_tokens(tokens@).skip(before.len() as int) =~= view_tokens(tokens@.skip(before.len() as int)));
            }
            assert(view_tokens(tokens@) + rest->0 =~= view_tokens(before) + (view_tokens(tokens@).skip(before.len() as int) + rest->0));
            assert(view_tokens(tokens@) =~= view_tokens(before) + view_tokens(tokens@).skip(before.len() as int));
        }
    }
    proof {
        assert(view_tokens(tokens@) + Seq::<TokenV>::empty() =~= view_tokens(tokens@));
    }
    tokens
}

// ═══════════════════════ the element tree ═══════════════════════

/// The model of an element.
pub struct ElemV {
    pub tag: Seq<char>,
    pub attrs: Map<Seq<char>, Seq<char>>,
    pub text: Seq<char>,
    pub children: Seq<ElemV>,
}

pub open spec fn view_elem(e: HtmlElement) -> ElemV
    decreases e, 1int,
{
    ElemV {
        tag: e.tag@,
        attrs: e.attributes@,
        text: e.text_content@,
        children: view_elems(e.children@),
    }
}

pub open spec fn view_elems(s: Seq<HtmlElement>) -> Seq<ElemV>
    decreases s, 0int,
{
    if s.len() == 0 {
        seq![]
    } else {
        view_elems(s.drop_last()).push(view_elem(s.last()))
    }
}

proof fn lemma_view_elems_push(s: Seq<HtmlElement>, e: HtmlElement)
    ensures
        view_elems(s.push(e)) == view_elems(s).push(view_elem(e)),
{
    assert(s.push(e).drop_last() =~= s);
}

proof fn lemma_view_elems_len(s: Seq<HtmlElement>)
    ensures
        view_elems(s).len() == s.len(),
    decreases s.len(),
{
    if s.len() > 0 {
        lemma_view_elems_len(s.drop_last());
    }
}

proof fn lemma_view_elems_pop(s: Seq<HtmlElement>)
    requires
        s.len() > 0,
    ensures
        view_elems(s.drop_last()) == view_elems(s).drop_last(),
        view_elem(s.last()) == view_elems(s).last(),
{
    lemma_view_elems_len(s);
    assert(view_elems(s) == view_elems(s.drop_last()).push(view_elem(s.last())));
    assert(view_elems(s).drop_last() =~= view_elems(s.drop_last()));
}

/// Tags whose contents are skipped.
pub open spec fn is_ignored(name: Seq<char>) -> bool {
    name == "script"@ || name == "style"@ || name == "link"@ || name == "meta"@ || name == "title"@
        || name == "head"@ || name == "!doctype"@
}

/// Where skipping an ignored element `name` ends: `depth` counts opening
/// tags of other elements with contents, and the closing tags of `name`
/// bring it down.
pub open spec fn skip_ignored(ts: Seq<TokenV>, i: int, name: Seq<char>, depth: int) -> int
    decreases ts.len() - i,
{
    if !(0 <= i < ts.len() && depth > 0) {
        i
    } else {
        let d2 = match ts[i] {
            TokenV::Open { name: n2, self_closing: sc2, .. } => if !is_ignored(n2) && !sc2 {
                depth + 1
            } else {
                depth
            },
            TokenV::Close { name: n2 } => if n2 == name {
                depth - 1
            } else {
                depth
            },
            _ => depth,
        };
        skip_ignored(ts, i + 1, name, d2)
    }
}

pub proof fn lemma_skip_ignored(ts: Seq<TokenV>, i: int, name: Seq<char>, depth: int)
    requires
        0 <= i <= ts.len(),
    ensures
        i <= skip_ignored(ts, i, name, depth) <= ts.len(),
    decreases ts.len() - i,
{
    if 0 <= i < ts.len() && depth > 0 {
        let d2 = match ts[i] {
            TokenV::Open { name: n2, self_closing: sc2, .. } => if !is_ignored(n2) && !sc2 {
                depth + 1
            } else {
                depth
            },
            TokenV::Close { name: n2 } => if n2 == name {
                depth - 1
            } else {
                depth
            },
            _ => depth,
        };
        lemma_skip_ignored(ts, i + 1, name, d2);
    }
}

/// `el` added as the last child of the innermost open element, or as a
/// root when none is open.
pub open spec fn attach(stack: Seq<ElemV>, roots: Seq<ElemV>, el: ElemV) -> (Seq<ElemV>, Seq<ElemV>) {
    if stack.len() > 0 {
        (
            stack.update(
                stack.len() - 1,
                ElemV { children: stack.last().children.push(el), ..stack.last() },
            ),
            roots,
        )
    } else {
        (stack, roots.push(el))
    }
}

/// The elements of `els` attached one after another.
pub open spec fn attach_all(stack: Seq<ElemV>, roots: Seq<ElemV>, els: Seq<ElemV>) -> (
    Seq<ElemV>,
    Seq<ElemV>,
)
    decreases els.len(),
{
    if els.len() == 0 {
        (stack, roots)
    } else {
        let (s1, r1) = attach_all(stack, roots, els.drop_last());
        attach(s1, r1, els.last())
    }
}

/// The position of the innermost open element with tag `name`.
pub open spec fn rpos(stack: Seq<ElemV>, name: Seq<char>) -> Option<int>
    decreases stack.len(),
{
    if stack.len() == 0 {
        None
    } else if stack.last().tag == name {
        Some(stack.len() - 1)
    } else {
        rpos(stack.drop_last(), name)
    }
}

pub proof fn lemma_rpos(stack: Seq<ElemV>, name: Seq<char>)
    ensures
        rpos(stack, name) matches Some(k) ==> 0 <= k < stack.len() && stack[k].tag == name,
    decreases stack.len(),
{
    if stack.len() > 0 && stack.last().tag != name {
        lemma_rpos(stack.drop_last(), name);
    }
}

/// The text of the innermost open element with `t` added, a space between.
pub open spec fn add_text(stack: Seq<ElemV>, t: Seq<char>) -> Seq<ElemV> {
    if stack.len() > 0 {
        stack.update(
            stack.len() - 1,
            ElemV {
                text: if stack.last().text.len() > 0 {
                    stack.last().text + seq![' '] + t
                } else {
                    t
                },
                ..stack.last()
            },
        )
    } else {
        stack
    }
}

/// The element tree that tokens from `i` on build, with open elements
/// `stack` and finished top-level elements `roots`: an opening tag opens an
/// element (or, self-closing, becomes a child of the innermost open one,
/// or a root at top level); a closing tag closes the innermost open
/// element with its name, which becomes a child of the element open around
/// it (or a root), and the elements opened inside it follow it there; text
/// goes to the innermost open element; ignored elements are skipped with
/// their contents. Elements still open at the end become roots, in the
/// order they were opened.
pub open spec fn collect_from(ts: Seq<TokenV>, i: int, stack: Seq<ElemV>, roots: Seq<ElemV>) -> Seq<ElemV>
    decreases ts.len() - i,
{
    if !(0 <= i < ts.len()) {
        roots + stack
    } else {
        match ts[i] {
            TokenV::Open { name, attrs, self_closing } => {
                if is_ignored(name) {
                    if self_closing {
                        collect_from(ts, i + 1, stack, roots)
                    } else {
                        proof {
                            lemma_skip_ignored(ts, i + 1, name, 1);
                        }
                        collect_from(ts, skip_ignored(ts, i + 1, name, 1), stack, roots)
                    }
                } else {
                    let el = ElemV { tag: lowercase_of(name), attrs, text: seq![], children: seq![] };
                    if self_closing {
                        let (s2, r2) = attach(stack, roots, el);
                        collect_from(ts, i + 1, s2, r2)
                    } else {
                        collect_from(ts, i + 1, stack.push(el), roots)
                    }
                }
            },
            TokenV::Close { name } => match rpos(stack, name) {
                Some(k) => {
                    let (s2, r2) = attach_all(stack.take(k), roots, stack.skip(k));
                    collect_from(ts, i + 1, s2, r2)
                },
                None => collect_from(ts, i + 1, stack, roots),
            },
            TokenV::Text(t) => collect_from(ts, i + 1, add_text(stack, t), roots),
        }
    }
}

fn is_ignored_exec(name: &str) -> (r: bool)
    ensures
        r == is_ignored(name@),
{
    let v = chars_of(name);
    eq_lit(&v, "script") || eq_lit(&v, "style") || eq_lit(&v, "link") || eq_lit(&v, "meta")
        || eq_lit(&v, "title") || eq_lit(&v, "head") || eq_lit(&v, "!doctype")
}

/// Adds `el` as the last child of the innermost open element, or as a root.
fn attach_exec(stack: &mut Vec<HtmlElement>, roots: &mut Vec<HtmlElement>, el: HtmlElement)
    ensures
        (view_elems(final(stack)@), view_elems(final(roots)@)) == attach(
            view_elems(old(stack)@),
            view_elems(old(roots)@),
            view_elem(el),
        ),
{
    proof {
        lemma_view_elems_len(stack@);
    }
    if stack.len() > 0 {
        let ghost s0 = stack@;
        let mut parent = stack.pop().unwrap();
        let ghost p0 = parent;
        let ghost c0 = parent.children@;
        parent.children.push(el);
        proof {
            lemma_view_elems_pop(s0);
            lemma_view_elems_push(c0, el);
            assert(view_elem(parent) == ElemV {
                children: view_elem(p0).children.push(view_elem(el)),
                ..view_elem(p0)
            });
        }
        stack.push(parent);
        proof {
            lemma_view_elems_push(s0.drop_last(), parent);
            assert(view_elems(stack@) =~= view_elems(s0).update(
                view_elems(s0).len() - 1,
                ElemV { children: view_elems(s0).last().children.push(view_elem(el)), ..view_elems(s0).last() },
            ));
        }
    } else {
        let ghost r0 = roots@;
        roots.push(el);
        proof {
            lemma_view_elems_push(r0, el);
        }
    }
}

/// Builds the element tree from tokens.
fn collect_elements(tokens: &Vec<Token>) -> (r: Vec<HtmlElement>)
    ensures
        view_elems(r@) == collect_from(view_tokens(tokens@), 0, seq![], seq![]),
{
    let ghost ts = view_tokens(tokens@);
    let n = tokens.len();
    let mut roots: Vec<HtmlElement> = Vec::new();
    let mut stack: Vec<HtmlElement> = Vec::new();
    let mut i: usize = 0;
    proof {
        assert(view_elems(roots@) =~= Seq::<ElemV>::empty());
        assert(view_elems(stack@) =~= Seq::<ElemV>::empty());
    }
    while i < n
        invariant
            i <= n == tokens@.len(),
            ts == view_tokens(tokens@),
            ts.len() == n,
            collect_from(ts, 0, seq![], seq![]) == collect_from(ts, i as int, view_elems(stack@), view_elems(roots@)),
        decreases n - i,
    {
        proof {
            assert(ts[i as int] == view_token(tokens@[i as int]));
        }
        match &tokens[i] {
            Token::OpenTag { name, attrs, self_closing } => {
                if is_ignored_exec(name.as_str()) {
                    if *self_closing {
                        i += 1;
                        continue;
                    }
                    let mut depth: usize = 1;
                    let mut j = i + 1;
                    proof {
                        lemma_skip_ignored(ts, i + 1, name@, 1);
                    }
                    while j < n && depth > 0
                        invariant
                            i + 1 <= j <= n == tokens@.len(),
                            ts == view_tokens(tokens@),
                            ts.len() == n,
                            depth <= j,
                            skip_ignored(ts, i + 1, name@, 1) == skip_ignored(ts, j as int, name@, depth as int),
                        decreases n - j,
                    {
                        proof {
                            assert(ts[j as int] == view_token(tokens@[j as int]));
                        }
                        match &tokens[j] {
                            Token::OpenTag { name: n2, self_closing: sc2, .. } => {
                                if !is_ignored_exec(n2.as_str()) && !*sc2 {
                                    depth = depth + 1;
                                }
                            },
                            Token::CloseTag { name: n2 } => {
                                if crate::text::eq_str(n2.as_str(), name.as_str()) {
                                    depth = depth - 1;
                                }
                            },
                            _ => {},
                        }
                        j += 1;
                    }
                    i = j;
                    continue;
                }
                let mut el = HtmlElement::new(name.as_str());
                el.attributes = attrs.duplicate();
                if *self_closing {
                    attach_exec(&mut stack, &mut roots, el);
                } else {
                    let ghost s0 = stack@;
                    stack.push(el);
                    proof {
                        lemma_view_elems_push(s0, el);
                    }
                }
                i += 1;
            },
            Token::CloseTag { name } => {
                // the innermost open element named `name`
                let mut k = stack.len();
                let ghost vs = view_elems(stack@);
                proof {
                    lemma_view_elems_len(stack@);
                    lemma_rpos(vs, name@);
                    assert(vs.take(k as int) =~= vs);
                }
                while k > 0 && !crate::text::eq_str(stack[k - 1].tag.as_str(), name.as_str())
                    invariant
                        k <= stack@.len(),
                        vs == view_elems(stack@),
                        vs.len() == stack@.len(),
                        rpos(vs, name@) == rpos(vs.take(k as int), name@),
                    decreases k,
                {
                    proof {
                        lemma_view_elems_index(stack@, (k - 1) as int);
                        assert(vs.take(k as int).drop_last() =~= vs.take(k - 1));
                    }
                    k -= 1;
                }
                if k > 0 {
                    let pos = k - 1;
                    proof {
                        lemma_view_elems_index(stack@, pos as int);
                        assert(vs.take(k as int).last() == vs[pos as int]);
                        assert(rpos(vs, name@) == Some(pos as int));
                    }
                    let ghost s0 = stack@;
                    let ghost r0 = roots@;
                    let mut completed = stack.split_off(pos);
                    proof {
                        lemma_view_elems_take(s0, pos as int);
                        lemma_view_elems_skip(s0, pos as int);
                        assert(stack@ =~= s0.take(pos as int));
                        assert(completed@ =~= s0.skip(pos as int));
                    }
                    let ghost comp = completed@;
                    assert(comp.len() == completed.len());
                    let mut m: usize = 0;
                    proof {
                        assert(comp.take(0) =~= Seq::<HtmlElement>::empty());
                        assert(view_elems(Seq::<HtmlElement>::empty()) =~= Seq::<ElemV>::empty());
                    }
                    let mut rest: Vec<HtmlElement> = Vec::new();
                    std::mem::swap(&mut rest, &mut completed);
                    let mut rev: Vec<HtmlElement> = Vec::new();
                    // take the completed elements out in order
                    while rest.len() > 0
                        invariant
                            rest@.len() + rev@.len() == comp.len(),
                            forall|q: int| 0 <= q < rev@.len() ==> rev@[q] == comp[comp.len() - 1 - q],
                            forall|q: int| 0 <= q < rest@.len() ==> rest@[q] == comp[q],
                        decreases rest@.len(),
                    {
                        let e = rest.pop().unwrap();
                        rev.push(e);
                    }
                    while rev.len() > 0
                        invariant
                            rev@.len() + m == comp.len(),
                            m <= comp.len(),
                            comp.len() <= usize::MAX,
                            forall|q: int| 0 <= q < rev@.len() ==> rev@[q] == comp[comp.len() - 1 - q],
                            (view_elems(stack@), view_elems(roots@)) == attach_all(
                                view_elems(s0.take(pos as int)),
                                view_elems(r0),
                                view_elems(comp.take(m as int)),
                            ),
                        decreases rev@.len(),
                    {
                        let e = rev.pop().unwrap();
                        proof {
                            assert(e == comp[m as int]);
                            lemma_view_elems_take_push(comp, m as int);
                            let vt = view_elems(comp.take(m + 1));
                            assert(vt.drop_last() =~= view_elems(comp.take(m as int)));
                            assert(vt.last() == view_elem(e));
                        }
                        attach_exec(&mut stack, &mut roots, e);
                        m += 1;
                    }
                    proof {
                        assert(comp.take(m as int) =~= comp);
                    }
                } else {
                    proof {
                        assert(vs.take(0) =~= Seq::<ElemV>::empty());
                    }
                }
                i += 1;
            },
            Token::Text(t) => {
                if stack.len() > 0 {
                    let ghost s0 = stack@;
                    let mut top = stack.pop().unwrap();
                    let ghost p0 = top;
                    let sep = if top.text_content.as_str().unicode_len() > 0 {
                        let space: Vec<char> = vec![' '];
                        string_of(&space)
                    } else {
                        String::new()
                    };
                    let joined = crate::text::concat(&top.text_content, &sep);
                    top.text_content = crate::text::concat(&joined, t);
                    proof {
                        lemma_view_elems_pop(s0);
                        lemma_view_elems_len(s0);
                    }
                    stack.push(top);
                    proof {
                        lemma_view_elems_push(s0.drop_last(), top);
                        if p0.text_content@.len() > 0 {
                            assert(top.text_content@ =~= p0.text_content@ + seq![' '] + t@);
                        } else {
                            assert(top.text_content@ =~= t@);
                        }
                        assert(view_elems(stack@) =~= add_text(view_elems(s0), t@));
                    }
                } else {
                    proof {
                        lemma_view_elems_len(stack@);
                    }
                }
                i += 1;
            },
        }
    }
    let ghost r0 = roots@;
    let ghost s0 = stack@;
    roots.append(&mut stack);
    proof {
        assert(roots@ =~= r0 + s0);
        lemma_view_elems_concat(r0, s0);
    }
    roots
}

proof fn lemma_view_elems_concat(a: Seq<HtmlElement>, b: Seq<HtmlElement>)
    ensures
        view_elems(a + b) == view_elems(a) + view_elems(b),
    decreases b.len(),
{
    if b.len() == 0 {
        assert(a + b =~= a);
        assert(view_elems(a) + view_elems(b) =~= view_elems(a));
    } else {
        lemma_view_elems_concat(a, b.drop_last());
        assert((a + b).drop_last() =~= a + b.drop_last());
        assert(view_elems(a) + view_elems(b) =~= (view_elems(a) + view_elems(b.drop_last())).push(
            view_elem(b.last()),
        ));
    }
}

proof fn lemma_view_elems_index(s: Seq<HtmlElement>, i: int)
    requires
        0 <= i < s.len(),
    ensures
        view_elems(s)[i] == view_elem(s[i]),
        view_elems(s).len() == s.len(),
    decreases s.len(),
{
    lemma_view_elems_len(s);
    if i < s.len() - 1 {
        lemma_view_elems_index(s.drop_last(), i);
    }
}

proof fn lemma_view_elems_take(s: Seq<HtmlElement>, k: int)
    requires
        0 <= k <= s.len(),
    ensures
        view_elems(s.take(k)) == view_elems(s).take(k),
    decreases s.len() - k,
{
    lemma_view_elems_len(s);
    lemma_view_elems_len(s.take(k));
    assert forall|j: int| 0 <= j < k implies view_elems(s.take(k))[j] == view_elems(s).take(k)[j] by {
        lemma_view_elems_index(s.take(k), j);
        lemma_view_elems_index(s, j);
    }
    assert(view_elems(s.take(k)) =~= view_elems(s).take(k));
}

proof fn lemma_view_elems_skip(s: Seq<HtmlElement>, k: int)
    requires
        0 <= k <= s.len(),
    ensures
        view_elems(s.skip(k)) == view_elems(s).skip(k),
{
    lemma_view_elems_len(s);
    lemma_view_elems_len(s.skip(k));
    assert forall|j: int| 0 <= j < s.len() - k implies view_elems(s.skip(k))[j] == view_elems(s).skip(k)[j] by {
        lemma_view_elems_index(s.skip(k), j);
        lemma_view_elems_index(s, j + k);
    }
    assert(view_elems(s.skip(k)) =~= view_elems(s).skip(k));
}

proof fn lemma_view_elems_take_push(s: Seq<HtmlElement>, m: int)
    requires
        0 <= m < s.len(),
    ensures
        view_elems(s.take(m + 1)) == view_elems(s.take(m)).push(view_elem(s[m])),
{
    assert(s.take(m + 1) =~= s.take(m).push(s[m]));
    lemma_view_elems_push(s.take(m), s[m]);
}

// ═══════════════════════ the whole reader ═══════════════════════

/// Whether an element is kept at the top level: all but `html`, `body`
/// and `head`.
pub open spec fn kept_top(e: ElemV) -> bool {
    e.tag != "html"@ && e.tag != "body"@ && e.tag != "head"@
}

/// The elements that HTML text gives: comments out, the body found, its
/// tokens assembled into a tree, and the top-level `html`, `body` and
/// `head` elements dropped. `None` where reading panics.
pub open spec fn html_spec(bytes: Seq<u8>) -> Option<Seq<ElemV>> {
    match body_spec(latin1(strip_html_bytes(bytes))) {
        None => None,
        Some(b) => match tokens_from(b, 0) {
            None => None,
            Some(ts) => Some(collect_from(ts, 0, seq![], seq![]).filter(|e: ElemV| kept_top(e))),
        },
    }
}

/// Whether an element's tag is `html`, `body` or `head`.
fn is_wrapper_tag(e: &HtmlElement) -> (r: bool)
    ensures
        r == !kept_top(view_elem(*e)),
{
    let t = chars_of(e.tag.as_str());
    eq_lit(&t, "html") || eq_lit(&t, "body") || eq_lit(&t, "head")
}

/// Reads HTML text into its elements, or `None` where reading panics.
fn read_html(html: &str) -> (r: Option<Vec<HtmlElement>>)
    ensures
        match r {
            Some(v) => html_spec(html.spec_bytes()) == Some(view_elems(v@)),
            None => html_spec(html.spec_bytes()) is None,
        },
{
    let cleaned = strip_comments(html);
    let c = chars_of(cleaned.as_str());
    let body = match extract_body(&c) {
        Some(b) => b,
        None => return None,
    };
    if !tokens_ok(&body) {
        return None;
    }
    let tokens = tokenize(&body);
    let elements = collect_elements(&tokens);
    let ghost all = view_elems(elements@);
    let ghost keep = |e: ElemV| kept_top(e);
    let mut rest: Vec<HtmlElement> = Vec::new();
    let mut taken = elements;
    let mut rev: Vec<HtmlElement> = Vec::new();
    let ghost es = taken@;
    proof {
        lemma_view_elems_len(es);
    }
    while taken.len() > 0
        invariant
            taken@.len() + rev@.len() == es.len(),
            forall|q: int| 0 <= q < rev@.len() ==> rev@[q] == es[es.len() - 1 - q],
            forall|q: int| 0 <= q < taken@.len() ==> taken@[q] == es[q],
        decreases taken@.len(),
    {
        let e = taken.pop().unwrap();
        rev.push(e);
    }
    let mut m: usize = 0;
    assert(es.len() == rev.len());
    proof {
        assert(view_elems(rest@) =~= Seq::<ElemV>::empty());
        assert(view_elems(es.take(0)) =~= Seq::<ElemV>::empty());
        assert(Seq::<ElemV>::empty().filter(keep) =~= Seq::<ElemV>::empty());
    }
    while rev.len() > 0
        invariant
            rev@.len() + m == es.len(),
            es.len() <= usize::MAX,
            all == view_elems(es),
            keep == (|e: ElemV| kept_top(e)),
            forall|q: int| 0 <= q < rev@.len() ==> rev@[q] == es[es.len() - 1 - q],
            view_elems(rest@) == view_elems(es.take(m as int)).filter(keep),
        decreases rev@.len(),
    {
        let e = rev.pop().unwrap();
        proof {
            assert(e == es[m as int]);
            lemma_view_elems_take_push(es, m as int);
            let vt = view_elems(es.take(m + 1));
            assert(vt.drop_last() =~= view_elems(es.take(m as int)));
            reveal(Seq::filter);
        }
        if !is_wrapper_tag(&e) {
            let ghost r0 = rest@;
            rest.push(e);
            proof {
                lemma_view_elems_push(r0, e);
            }
        }
        m += 1;
    }
    proof {
        assert(es.take(m as int) =~= es);
    }
    Some(rest)
}

/// Whether the body text's tokens can be read.
fn tokens_ok(c: &[char]) -> (r: bool)
    ensures
        r == tokens_from(c@, 0) is Some,
{
    let n = c.len();
    let mut i: usize = 0;
    while i < n
        invariant
            i <= n == c@.len(),
            (tokens_from(c@, 0) is Some) == (tokens_from(c@, i as int) is Some),
        decreases n - i,
    {
        let ghost i0 = i as int;
        if c[i] == '<' {
            let i1 = i + 1;
            if i1 < n && c[i1] == '/' {
                let mut ne = i1 + 1;
                while ne < n && !is_ascii_whitespace(c[ne]) && c[ne] != '>'
                    invariant
                        i1 + 1 <= ne <= n == c@.len(),
                        scan_while(c@, i1 + 1, tag_name_pred()) == scan_while(c@, ne as int, tag_name_pred()),
                    decreases n - ne,
                {
                    ne += 1;
                }
                let gt = scan_not(c, ne, '>');
                i = if gt < n { gt + 1 } else { gt };
            } else if i1 < n && c[i1] == '!' {
                let gt = scan_not(c, i1, '>');
                i = if gt < n { gt + 1 } else { gt };
            } else {
                let mut ne = i1;
                while ne < n && !is_ascii_whitespace(c[ne]) && c[ne] != '>' && c[ne] != '/'
                    invariant
                        i1 <= ne <= n == c@.len(),
                        scan_while(c@, i1 as int, open_name_pred()) == scan_while(c@, ne as int, open_name_pred()),
                    decreases n - ne,
                {
                    ne += 1;
                }
                let (j, kind) = tag_end_exec(c, ne);
                proof {
                    lemma_tag_end(c@, ne as int);
                }
                if j > ne && kind == 2 && (c[n - 1] as u32) >= 128 {
                    assert(tokens_from(c@, i0) is None);
                    return false;
                }
                i = j;
            }
        } else {
            let te = scan_not(c, i, '<');
            i = te;
        }
    }
    true
}

/// Reads HTML text into the elements of its body, where reading does not
/// panic.
pub fn parse_html(html: &str) -> (r: Vec<HtmlElement>)
    requires
        html_spec(html.spec_bytes()) is Some,
    ensures
        html_spec(html.spec_bytes()) == Some(view_elems(r@)),
{
    match read_html(html) {
        Some(v) => v,
        None => Vec::new(),
    }
}

/// [`parse_html`] where reading does not panic; `None` exactly where it
/// would.
pub fn try_parse_html(html: &str) -> (r: Option<Vec<HtmlElement>>)
    ensures
        match r {
            Some(v) => html_spec(html.spec_bytes()) == Some(view_elems(v@)),
            None => html_spec(html.spec_bytes()) is None,
        },
{
    let ok = match read_html(html) {
        Some(_) => true,
        None => false,
    };
    if ok {
        Some(parse_html(html))
    } else {
        None
    }
}

} // verus!
