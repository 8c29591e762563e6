//! An index of rules by the best key of their rightmost segment, to find
//! the rules that may match an element.
use vstd::prelude::*;
use std::collections::HashSet;

use super::css_rule::CssRule;
use super::selector_match::{view_complex, BasicSelector, BasicSelectorV, ComplexV, SegmentV, view_basic, view_parts, view_segment, view_segments, lemma_view_segments_len, lemma_view_parts_len};
use crate::text::{chars_of, eq_str, lowercase, lowercase_of, owned, string_of};

verus! {

broadcast use vstd::std_specs::hash::group_hash_axioms;

// ═══════════════════════ a map from names to rule positions ═══════════════════════

/// A map from names to lists of rule positions, each name once.
#[derive(Debug, Default)]
pub struct RuleMap {
    entries: Vec<(String, Vec<usize>)>,
}

/// The map that a list of entries stands for (later entries win, though
/// a well-formed list names each key once).
pub open spec fn map_of(es: Seq<(Seq<char>, Seq<usize>)>) -> Map<Seq<char>, Seq<usize>>
    decreases es.len(),
{
    if es.len() == 0 {
        Map::empty()
    } else {
        map_of(es.drop_last()).insert(es.last().0, es.last().1)
    }
}

pub open spec fn keys_unique(es: Seq<(Seq<char>, Seq<usize>)>) -> bool {
    forall|i: int, j: int|
        0 <= i < es.len() && 0 <= j < es.len() && i != j ==> #[trigger] es[i].0 != #[trigger] es[j].0
}

proof fn lemma_map_of(es: Seq<(Seq<char>, Seq<usize>)>)
    requires
        keys_unique(es),
    ensures
        map_of(es).dom().finite(),
        map_of(es).dom().len() == es.len(),
        forall|i: int| 0 <= i < es.len() ==> #[trigger] map_of(es).contains_key(es[i].0) && map_of(
            es,
        )[es[i].0] == es[i].1,
        forall|k: Seq<char>| #[trigger]
            map_of(es).contains_key(k) ==> exists|i: int| 0 <= i < es.len() && es[i].0 == k,
    decreases es.len(),
{
    if es.len() > 0 {
        let pre = es.drop_last();
        assert(keys_unique(pre));
        lemma_map_of(pre);
        if map_of(pre).contains_key(es.last().0) {
            let i = choose|i: int| 0 <= i < pre.len() && pre[i].0 == es.last().0;
            assert(es[i].0 == es[es.len() - 1].0);
        }
        assert forall|i: int| 0 <= i < es.len() implies #[trigger] map_of(es).contains_key(es[i].0)
            && map_of(es)[es[i].0] == es[i].1 by {
            if i < es.len() - 1 {
                assert(pre[i] == es[i]);
                assert(es[i].0 != es.last().0);
            }
        }
        assert forall|k: Seq<char>| #[trigger] map_of(es).contains_key(k) implies exists|i: int|
            0 <= i < es.len() && es[i].0 == k by {
            if k != es.last().0 {
                let i = choose|i: int| 0 <= i < pre.len() && pre[i].0 == k;
                assert(es[i].0 == k);
            } else {
                assert(es[es.len() - 1].0 == k);
            }
        }
    }
}

pub open spec fn map_entries_view(s: Seq<(String, Vec<usize>)>) -> Seq<(Seq<char>, Seq<usize>)> {
    s.map_values(|e: (String, Vec<usize>)| (e.0@, e.1@))
}

impl View for RuleMap {
    type V = Map<Seq<char>, Seq<usize>>;

    closed spec fn view(&self) -> Map<Seq<char>, Seq<usize>> {
        map_of(map_entries_view(self.entries@))
    }
}

impl RuleMap {
    /// The map's invariant: each name once.
    pub closed spec fn wf(self) -> bool {
        keys_unique(map_entries_view(self.entries@))
    }

    /// An empty map.
    pub fn new() -> (r: Self)
        ensures
            r.wf(),
            r@ == Map::<Seq<char>, Seq<usize>>::empty(),
    {
        let r = Self { entries: Vec::new() };
        assert(map_entries_view(r.entries@) =~= Seq::<(Seq<char>, Seq<usize>)>::empty());
        r
    }

    /// The number of names.
    pub fn len(&self) -> (r: usize)
        requires
            self.wf(),
        ensures
            self@.dom().finite(),
            r == self@.dom().len(),
    {
        proof {
            lemma_map_of(map_entries_view(self.entries@));
        }
        self.entries.len()
    }

    /// Whether the map has no names.
    pub fn is_empty(&self) -> (r: bool)
        requires
            self.wf(),
        ensures
            r == (self@.dom().len() == 0),
    {
        self.len() == 0
    }

    fn position(&self, key: &str) -> (r: Option<usize>)
        requires
            self.wf(),
        ensures
            r matches Some(i) ==> i < self.entries@.len() && self.entries@[i as int].0@ == key@,
            r is None ==> !self@.contains_key(key@),
    {
        proof {
            lemma_map_of(map_entries_view(self.entries@));
        }
        let mut i: usize = 0;
        while i < self.entries.len()
            invariant
                i <= self.entries@.len(),
                forall|j: int| 0 <= j < i ==> self.entries@[j].0@ != key@,
            decreases self.entries.len() - i,
        {
            if eq_str(self.entries[i].0.as_str(), key) {
                return Some(i);
            }
            i += 1;
        }
        proof {
            if self@.contains_key(key@) {
                let j = choose|j: int|
                    0 <= j < map_entries_view(self.entries@).len() && map_entries_view(
                        self.entries@,
                    )[j].0 == key@;
                assert(self.entries@[j].0@ == key@);
            }
        }
        None
    }

    /// Whether `key` is in the map.
    pub fn contains_key(&self, key: &str) -> (r: bool)
        requires
            self.wf(),
        ensures
            r == self@.contains_key(key@),
    {
        proof {
            lemma_map_of(map_entries_view(self.entries@));
        }
        match self.position(key) {
            Some(i) => {
                assert(map_entries_view(self.entries@)[i as int].0 == key@);
                true
            },
            None => false,
        }
    }

    /// The positions listed under `key`.
    pub fn get(&self, key: &str) -> (r: Option<&Vec<usize>>)
        requires
            self.wf(),
        ensures
            r matches Some(v) ==> self@.contains_key(key@) && v@ == self@[key@],
            r is None ==> !self@.contains_key(key@),
    {
        proof {
            lemma_map_of(map_entries_view(self.entries@));
        }
        match self.position(key) {
            Some(i) => {
                assert(map_entries_view(self.entries@)[i as int].0 == key@);
                assert(map_entries_view(self.entries@)[i as int].1 == self.entries@[i as int].1@);
                proof {
                    let es = map_entries_view(self.entries@);
                    assert(es.len() == self.entries@.len());
                    lemma_map_of(es);
                    assert(map_of(es).contains_key(es[i as int].0));
                    assert(map_of(es).contains_key(es[i as int].0) && map_of(es)[es[i as int].0]
                        == es[i as int].1);
                    assert(self@ == map_of(es));
                }
                Some(&self.entries[i].1)
            },
            None => None,
        }
    }

    /// Adds position `i` at the end of the list under `key`.
    fn add(&mut self, key: &String, i: usize)
        requires
            old(self).wf(),
        ensures
            final(self).wf(),
            final(self)@ == old(self)@.insert(
                key@,
                if old(self)@.contains_key(key@) {
                    old(self)@[key@]
                } else {
                    Seq::<usize>::empty()
                }.push(i),
            ),
    {
        let ghost es = map_entries_view(self.entries@);
        proof {
            lemma_map_of(es);
        }
        match self.position(key.as_str()) {
            Some(p) => {
                let ghost old_entries = self.entries@;
                let mut list: Vec<usize> = Vec::new();
                std::mem::swap(&mut list, &mut self.entries[p].1);
                assert(list@ == old_entries[p as int].1@);
                assert(es[p as int].0 == key@);
                list.push(i);
                let ghost mid = self.entries@;
                self.entries.set(p, (owned(key.as_str()), list));
                proof {
                    let ne = map_entries_view(self.entries@);
                    assert(ne =~= es.update(p as int, (key@, es[p as int].1.push(i))));
                    assert(keys_unique(ne));
                    lemma_map_of(ne);
                    assert(map_of(ne) =~= map_of(es).insert(key@, es[p as int].1.push(i))) by {
                        assert forall|k: Seq<char>| #[trigger] map_of(ne).contains_key(k)
                            <==> map_of(es).insert(key@, es[p as int].1.push(i)).contains_key(k) by {
                            if map_of(es).contains_key(k) {
                                let j = choose|j: int| 0 <= j < es.len() && es[j].0 == k;
                                assert(ne[j].0 == k);
                            }
                            if map_of(ne).contains_key(k) {
                                let j = choose|j: int| 0 <= j < ne.len() && ne[j].0 == k;
                                assert(es[j].0 == k);
                            }
                        }
                        assert forall|k: Seq<char>| #[trigger] map_of(ne).contains_key(k) implies map_of(
                            ne,
                        )[k] == map_of(es).insert(key@, es[p as int].1.push(i))[k] by {
                            let j = choose|j: int| 0 <= j < ne.len() && ne[j].0 == k;
                            if j != p {
                                assert(ne[j] == es[j]);
                            }
                        }
                    }
                }
            },
            None => {
                let mut list: Vec<usize> = Vec::new();
                list.push(i);
                self.entries.push((owned(key.as_str()), list));
                proof {
                    let ne = map_entries_view(self.entries@);
                    assert(ne =~= es.push((key@, seq![i])));
                    assert forall|a: int, b: int|
                        0 <= a < ne.len() && 0 <= b < ne.len() && a != b implies #[trigger] ne[a].0
                        != #[trigger] ne[b].0 by {
                        if a < es.len() && b < es.len() {
                        } else if a < es.len() {
                            assert(map_of(es).contains_key(es[a].0));
                        } else {
                            assert(map_of(es).contains_key(es[b].0));
                        }
                    }
                    assert(ne.drop_last() =~= es);
                    assert(Seq::<usize>::empty().push(i) =~= seq![i]);
                }
            },
        }
    }
}

// ═══════════════════════ the rule index ═══════════════════════

/// The key a rule is filed under: the first id of its rightmost segment,
/// else its first class, else its first attribute name, else its first tag;
/// a rule with none of these, or without segments, is universal.
pub enum RuleKey {
    Id(Seq<char>),
    Class(Seq<char>),
    Attr(Seq<char>),
    Tag(Seq<char>),
    Universal,
}

/// The four kinds of named keys.
pub enum KeyKind {
    Id,
    Class,
    Attr,
    Tag,
}

/// The name of the first simple selector in `parts` of kind `kind`.
pub open spec fn first_named(parts: Seq<BasicSelectorV>, kind: KeyKind) -> Option<Seq<char>>
    decreases parts.len(),
{
    if parts.len() == 0 {
        None
    } else {
        match (kind, parts[0]) {
            (KeyKind::Id, BasicSelectorV::Id(n)) => Some(n),
            (KeyKind::Class, BasicSelectorV::Class(n)) => Some(n),
            (KeyKind::Attr, BasicSelectorV::Attribute { name, .. }) => Some(name),
            (KeyKind::Tag, BasicSelectorV::Tag(n)) => Some(n),
            _ => first_named(parts.drop_first(), kind),
        }
    }
}

/// The key of a selector.
pub open spec fn rule_key(c: ComplexV) -> RuleKey {
    if c.segments.len() == 0 {
        RuleKey::Universal
    } else {
        let parts = c.segments.last().parts;
        match first_named(parts, KeyKind::Id) {
            Some(n) => RuleKey::Id(n),
            None => match first_named(parts, KeyKind::Class) {
                Some(n) => RuleKey::Class(n),
                None => match first_named(parts, KeyKind::Attr) {
                    Some(n) => RuleKey::Attr(n),
                    None => match first_named(parts, KeyKind::Tag) {
                        Some(n) => RuleKey::Tag(n),
                        None => RuleKey::Universal,
                    },
                },
            },
        }
    }
}

/// The name under which a key of kind `kind` files its rule.
pub open spec fn key_name(k: RuleKey, kind: KeyKind) -> Option<Seq<char>> {
    match (k, kind) {
        (RuleKey::Id(n), KeyKind::Id) => Some(n),
        (RuleKey::Class(n), KeyKind::Class) => Some(n),
        (RuleKey::Attr(n), KeyKind::Attr) => Some(n),
        (RuleKey::Tag(n), KeyKind::Tag) => Some(n),
        _ => None,
    }
}

/// The list under `n` in `m`, empty when `n` is absent.
pub open spec fn lookup(m: Map<Seq<char>, Seq<usize>>, n: Seq<char>) -> Seq<usize> {
    if m.contains_key(n) { m[n] } else { Seq::empty() }
}

/// For the keys of the rules in order: each name of kind `kind` with the
/// positions of the rules filed under it, in increasing order.
pub open spec fn key_map(keys: Seq<RuleKey>, kind: KeyKind) -> Map<Seq<char>, Seq<usize>>
    decreases keys.len(),
{
    if keys.len() == 0 {
        Map::empty()
    } else {
        let m = key_map(keys.drop_last(), kind);
        match key_name(keys.last(), kind) {
            Some(n) => m.insert(n, lookup(m, n).push((keys.len() - 1) as usize)),
            None => m,
        }
    }
}

/// The positions of the universal rules, in increasing order.
pub open spec fn universal_list(keys: Seq<RuleKey>) -> Seq<usize>
    decreases keys.len(),
{
    if keys.len() == 0 {
        seq![]
    } else {
        let u = universal_list(keys.drop_last());
        if keys.last() is Universal {
            u.push((keys.len() - 1) as usize)
        } else {
            u
        }
    }
}

/// The keys of a list of rules.
pub open spec fn rule_keys(rules: Seq<CssRule>) -> Seq<RuleKey> {
    rules.map_values(|r: CssRule| rule_key(view_complex(r.selector)))
}

/// Rules filed by the best key of their rightmost segment, by position.
#[derive(Debug, Default)]
pub struct RuleIndex {
    pub id: RuleMap,
    pub class: RuleMap,
    pub tag: RuleMap,
    pub attr: RuleMap,
    pub universal: Vec<usize>,
}

impl RuleIndex {
    /// Whether the index is the one of rules with keys `keys`.
    pub open spec fn indexes(self, keys: Seq<RuleKey>) -> bool {
        &&& self.id.wf() && self.class.wf() && self.tag.wf() && self.attr.wf()
        &&& self.id@ == key_map(keys, KeyKind::Id)
        &&& self.class@ == key_map(keys, KeyKind::Class)
        &&& self.attr@ == key_map(keys, KeyKind::Attr)
        &&& self.tag@ == key_map(keys, KeyKind::Tag)
        &&& self.universal@ == universal_list(keys)
    }
}

/// The first name of kind `kind` among `parts`.
fn first_named_exec<'a>(parts: &'a Vec<BasicSelector>, kind: &KeyKindExec) -> (r: Option<&'a String>)
    ensures
        r matches Some(n) ==> first_named(view_parts(parts@), kind.spec()) == Some(n@),
        r is None ==> first_named(view_parts(parts@), kind.spec()) is None,
{
    let ghost vp = view_parts(parts@);
    proof {
        lemma_view_parts_len(parts@);
        lemma_view_parts_index(parts@);
        assert(vp.skip(0) =~= vp);
    }
    let mut i: usize = 0;
    while i < parts.len()
        invariant
            i <= parts@.len(),
            vp == view_parts(parts@),
            vp.len() == parts@.len(),
            forall|j: int| 0 <= j < parts@.len() ==> vp[j] == view_basic(#[trigger] parts@[j]),
            first_named(vp, kind.spec()) == first_named(vp.skip(i as int), kind.spec()),
        decreases parts.len() - i,
    {
        proof {
            assert(vp.skip(i as int)[0] == vp[i as int]);
            assert(vp.skip(i as int).drop_first() =~= vp.skip(i + 1));
        }
        match (kind, &parts[i]) {
            (KeyKindExec::Id, BasicSelector::Id(n)) => return Some(n),
            (KeyKindExec::Class, BasicSelector::Class(n)) => return Some(n),
            (KeyKindExec::Attr, BasicSelector::Attribute { name, .. }) => return Some(name),
            (KeyKindExec::Tag, BasicSelector::Tag(n)) => return Some(n),
            _ => {},
        }
        i += 1;
    }
    None
}

proof fn lemma_view_parts_index(s: Seq<BasicSelector>)
    ensures
        forall|j: int| 0 <= j < s.len() ==> view_parts(s)[j] == view_basic(#[trigger] s[j]),
    decreases s.len(),
{
    lemma_view_parts_len(s);
    if s.len() > 0 {
        lemma_view_parts_index(s.drop_last());
        lemma_view_parts_len(s.drop_last());
        assert forall|j: int| 0 <= j < s.len() implies view_parts(s)[j] == view_basic(#[trigger] s[j]) by {
            if j < s.len() - 1 {
                assert(s.drop_last()[j] == s[j]);
            }
        }
    }
}

/// The kinds of keys, in executable code.
enum KeyKindExec {
    Id,
    Class,
    Attr,
    Tag,
}

impl KeyKindExec {
    spec fn spec(&self) -> KeyKind {
        match self {
            KeyKindExec::Id => KeyKind::Id,
            KeyKindExec::Class => KeyKind::Class,
            KeyKindExec::Attr => KeyKind::Attr,
            KeyKindExec::Tag => KeyKind::Tag,
        }
    }
}

proof fn lemma_key_map_step(keys: Seq<RuleKey>, k: RuleKey, kind: KeyKind)
    ensures
        key_map(keys.push(k), kind) == match key_name(k, kind) {
            Some(n) => key_map(keys, kind).insert(
                n,
                lookup(key_map(keys, kind), n).push(keys.len() as usize),
            ),
            None => key_map(keys, kind),
        },
        universal_list(keys.push(k)) == if k is Universal {
            universal_list(keys).push(keys.len() as usize)
        } else {
            universal_list(keys)
        },
{
    assert(keys.push(k).drop_last() =~= keys);
}

impl RuleIndex {
    /// Files each rule by the key of its selector: position `i` goes to the
    /// list under its key's name in the map of that key's kind, or to the
    /// universal list; every list keeps positions in increasing order.
    pub fn build(rules: &[CssRule]) -> (r: Self)
        ensures
            r.indexes(rule_keys(rules@)),
    {
        let mut id = RuleMap::new();
        let mut class = RuleMap::new();
        let mut tag = RuleMap::new();
        let mut attr = RuleMap::new();
        let mut universal: Vec<usize> = Vec::new();
        let ghost keys = rule_keys(rules@);
        let mut i: usize = 0;
        while i < rules.len()
            invariant
                i <= rules@.len(),
                keys == rule_keys(rules@),
                (RuleIndex { id, class, tag, attr, universal }).indexes(keys.take(i as int)),
            decreases rules.len() - i,
        {
            let ghost pre = keys.take(i as int);
            let ghost k = keys[i as int];
            proof {
                assert(keys.take(i + 1) =~= pre.push(k));
                lemma_key_map_step(pre, k, KeyKind::Id);
                lemma_key_map_step(pre, k, KeyKind::Class);
                lemma_key_map_step(pre, k, KeyKind::Attr);
                lemma_key_map_step(pre, k, KeyKind::Tag);
                lemma_view_segments_len(rules@[i as int].selector.segments@);
            }
            let rule = &rules[i];
            match rule.selector.last_segment() {
                None => {
                    universal.push(i);
                },
                Some(last) => {
                    proof {
                        let segs = rules@[i as int].selector.segments@;
                        assert(view_segments(segs) == view_segments(segs.drop_last()).push(
                            view_segment(segs.last()),
                        ));
                    }
                    match first_named_exec(&last.parts, &KeyKindExec::Id) {
                        Some(n) => id.add(n, i),
                        None => match first_named_exec(&last.parts, &KeyKindExec::Class) {
                            Some(n) => class.add(n, i),
                            None => match first_named_exec(&last.parts, &KeyKindExec::Attr) {
                                Some(n) => attr.add(n, i),
                                None => match first_named_exec(&last.parts, &KeyKindExec::Tag) {
                                    Some(n) => tag.add(n, i),
                                    None => universal.push(i),
                                },
                            },
                        },
                    }
                },
            }
            i += 1;
        }
        assert(keys.take(rules@.len() as int) =~= keys);
        RuleIndex { id, class, tag, attr, universal }
    }
}

// ═══════════════════════ candidates ═══════════════════════

/// `acc` with each position of `xs` appended unless already present.
pub open spec fn add_new(acc: Seq<usize>, xs: Seq<usize>) -> Seq<usize>
    decreases xs.len(),
{
    if xs.len() == 0 {
        acc
    } else {
        let a = add_new(acc, xs.drop_last());
        if a.contains(xs.last()) {
            a
        } else {
            a.push(xs.last())
        }
    }
}

/// The lists under each of `names` in `m`, one after another.
pub open spec fn lookups(m: Map<Seq<char>, Seq<usize>>, names: Seq<Seq<char>>) -> Seq<usize>
    decreases names.len(),
{
    if names.len() == 0 {
        seq![]
    } else {
        lookups(m, names.drop_last()) + lookup(m, names.last())
    }
}

/// The candidate positions, before duplicates go: the rules under the
/// lowercased tag, under each class, under the id, under each attribute
/// name, then the universal ones.
pub open spec fn candidate_lists(
    idx: RuleIndex,
    tag_name: Option<Seq<char>>,
    classes: Seq<Seq<char>>,
    element_id: Option<Seq<char>>,
    attr_names: Seq<Seq<char>>,
) -> Seq<usize> {
    (match tag_name {
        Some(t) => lookup(idx.tag@, lowercase_of(t)),
        None => seq![],
    }) + lookups(idx.class@, classes) + (match element_id {
        Some(e) => lookup(idx.id@, e),
        None => seq![],
    }) + lookups(idx.attr@, attr_names) + idx.universal@
}

/// Appends the new positions of `list` to `out`, recording them in `seen`.
fn add_list(list: &Vec<usize>, seen: &mut HashSet<usize>, out: &mut Vec<usize>)
    requires
        old(seen)@ == old(out)@.to_set(),
    ensures
        final(out)@ == add_new(old(out)@, list@),
        final(seen)@ == final(out)@.to_set(),
{
    let ghost base = out@;
    let mut i: usize = 0;
    while i < list.len()
        invariant
            i <= list@.len(),
            out@ == add_new(base, list@.take(i as int)),
            seen@ == out@.to_set(),
        decreases list.len() - i,
    {
        proof {
            assert(list@.take(i + 1).drop_last() =~= list@.take(i as int));
        }
        let x = list[i];
        let fresh = seen.insert(x);
        if fresh {
            let ghost before = out@;
            out.push(x);
            proof {
                assert(!before.to_set().contains(x));
                assert(!before.contains(x));
                assert(out@.to_set() =~= before.to_set().insert(x)) by {
                    assert forall|y: usize| out@.to_set().contains(y) <==> before.to_set().insert(x).contains(y) by {
                        if out@.contains(y) {
                            let j = choose|j: int| 0 <= j < out@.len() && out@[j] == y;
                            if j < before.len() {
                                assert(before[j] == y);
                            }
                        }
                        if before.contains(y) {
                            let j = choose|j: int| 0 <= j < before.len() && before[j] == y;
                            assert(out@[j] == y);
                        }
                        if y == x {
                            assert(out@[before.len() as int] == x);
                        }
                    }
                }
            }
        } else {
            proof {
                assert(out@.to_set().contains(x));
                assert(out@.contains(x));
            }
        }
        i += 1;
    }
    assert(list@.take(list@.len() as int) =~= list@);
}

proof fn lemma_add_new_concat(acc: Seq<usize>, a: Seq<usize>, b: Seq<usize>)
    ensures
        add_new(add_new(acc, a), b) == add_new(acc, a + b),
    decreases b.len(),
{
    if b.len() == 0 {
        assert(a + b =~= a);
    } else {
        lemma_add_new_concat(acc, a, b.drop_last());
        assert((a + b).drop_last() =~= a + b.drop_last());
    }
}

impl RuleIndex {
    /// The positions of the rules that may match an element, each once, in
    /// the order first found: by lowercased tag, by each class, by id, by
    /// each attribute name, then the universal rules.
    pub fn find_candidates(
        &self,
        tag_name: Option<&str>,
        class_list: &[String],
        element_id: Option<&str>,
        attrs: &[(String, String)],
    ) -> (r: Vec<usize>)
        requires
            self.id.wf() && self.class.wf() && self.tag.wf() && self.attr.wf(),
        ensures
            r@ == add_new(
                seq![],
                candidate_lists(
                    *self,
                    match tag_name {
                        Some(t) => Some(t@),
                        None => None,
                    },
                    class_list@.map_values(|c: String| c@),
                    match element_id {
                        Some(e) => Some(e@),
                        None => None,
                    },
                    attrs@.map_values(|a: (String, String)| a.0@),
                ),
            ),
    {
        let mut seen: HashSet<usize> = HashSet::new();
        let mut candidates: Vec<usize> = Vec::new();
        let ghost classes = class_list@.map_values(|c: String| c@);
        let ghost names = attrs@.map_values(|a: (String, String)| a.0@);
        let ghost tl = match tag_name {
            Some(t) => lookup(self.tag@, lowercase_of(t@)),
            None => seq![],
        };
        proof {
            assert(seen@ =~= candidates@.to_set());
        }
        // tag
        match tag_name {
            Some(t) => {
                let low = string_of(&lowercase(&chars_of(t)));
                match self.tag.get(low.as_str()) {
                    Some(list) => add_list(list, &mut seen, &mut candidates),
                    None => {},
                }
            },
            None => {},
        }
        assert(candidates@ == add_new(seq![], tl));
        // classes
        let mut k: usize = 0;
        while k < class_list.len()
            invariant
                k <= class_list@.len(),
                classes == class_list@.map_values(|c: String| c@),
                self.class.wf(),
                candidates@ == add_new(seq![], tl + lookups(self.class@, classes.take(k as int))),
                seen@ == candidates@.to_set(),
            decreases class_list.len() - k,
        {
            proof {
                assert(classes.take(k + 1).drop_last() =~= classes.take(k as int));
            }
            match self.class.get(class_list[k].as_str()) {
                Some(list) => {
                    add_list(list, &mut seen, &mut candidates);
                },
                None => {},
            }
            proof {
                let pre = lookups(self.class@, classes.take(k as int));
                let l = lookup(self.class@, classes[k as int]);
                lemma_add_new_concat(seq![], tl + pre, l);
                assert(tl + pre + l =~= tl + lookups(self.class@, classes.take(k + 1)));
                if !self.class@.contains_key(classes[k as int]) {
                    assert(add_new(candidates@, Seq::<usize>::empty()) == candidates@);
                }
            }
            k += 1;
        }
        assert(classes.take(class_list@.len() as int) =~= classes);
        let ghost el = match element_id {
            Some(e) => lookup(self.id@, e@),
            None => seq![],
        };
        // id
        match element_id {
            Some(e) => match self.id.get(e) {
                Some(list) => add_list(list, &mut seen, &mut candidates),
                None => {},
            },
            None => {},
        }
        proof {
            lemma_add_new_concat(seq![], tl + lookups(self.class@, classes), el);
            if el.len() == 0 {
                assert(el =~= Seq::<usize>::empty());
            }
        }
        let ghost before_attrs = tl + lookups(self.class@, classes) + el;
        // attributes
        let mut a: usize = 0;
        while a < attrs.len()
            invariant
                a <= attrs@.len(),
                names == attrs@.map_values(|x: (String, String)| x.0@),
                self.attr.wf(),
                candidates@ == add_new(seq![], before_attrs + lookups(self.attr@, names.take(a as int))),
                seen@ == candidates@.to_set(),
            decreases attrs.len() - a,
        {
            proof {
                assert(names.take(a + 1).drop_last() =~= names.take(a as int));
            }
            match self.attr.get(attrs[a].0.as_str()) {
                Some(list) => {
                    add_list(list, &mut seen, &mut candidates);
                },
                None => {},
            }
            proof {
                let pre = lookups(self.attr@, names.take(a as int));
                let l = lookup(self.attr@, names[a as int]);
                lemma_add_new_concat(seq![], before_attrs + pre, l);
                assert(before_attrs + pre + l =~= before_attrs + lookups(self.attr@, names.take(a + 1)));
            }
            a += 1;
        }
        assert(names.take(attrs@.len() as int) =~= names);
        // universal
        add_list(&self.universal, &mut seen, &mut candidates);
        proof {
            lemma_add_new_concat(seq![], before_attrs + lookups(self.attr@, names), self.universal@);
        }
        candidates
    }
}

} // verus!
