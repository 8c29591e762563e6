//! The order in which matched rules are cascaded: by specificity, then by
//! sheet, then by position in the sheet; rules equal in all three keep the
//! order they were found in.
use vstd::prelude::*;

verus! {

/// A matched rule's order key: its specificity, its sheet, its position in
/// the sheet, and its place in the list of matched rules.
pub open spec fn key_le(
    a: (u32, u32, u32, usize, usize, usize),
    b: (u32, u32, u32, usize, usize, usize),
) -> bool {
    a.0 < b.0 || (a.0 == b.0 && (a.1 < b.1 || (a.1 == b.1 && (a.2 < b.2 || (a.2 == b.2 && (a.3
        < b.3 || (a.3 == b.3 && a.4 <= b.4)))))))
}

/// Where `x` goes in `t` from position `p` on: just after the run of keys
/// not above it.
pub open spec fn ins_pos(t: Seq<(u32, u32, u32, usize, usize, usize)>, x: (u32, u32, u32, usize, usize, usize), p: int) -> int
    decreases t.len() - p,
{
    if p < 0 {
        0
    } else if p >= t.len() {
        t.len() as int
    } else if key_le(t[p], x) {
        ins_pos(t, x, p + 1)
    } else {
        p
    }
}

/// The keys in order: each inserted after the keys not above it, so that
/// equal keys keep their order.
pub open spec fn isort(s: Seq<(u32, u32, u32, usize, usize, usize)>) -> Seq<(u32, u32, u32, usize, usize, usize)>
    decreases s.len(),
{
    if s.len() == 0 {
        s
    } else {
        let t = isort(s.drop_last());
        t.insert(ins_pos(t, s.last(), 0), s.last())
    }
}

/// Whether the keys are in order.
pub open spec fn keys_sorted(s: Seq<(u32, u32, u32, usize, usize, usize)>) -> bool {
    forall|i: int, j: int| 0 <= i < j < s.len() ==> key_le(#[trigger] s[i], #[trigger] s[j])
}

pub proof fn lemma_key_order(
    a: (u32, u32, u32, usize, usize, usize),
    b: (u32, u32, u32, usize, usize, usize),
    c: (u32, u32, u32, usize, usize, usize),
)
    ensures
        key_le(a, b) || key_le(b, a),
        key_le(a, b) && key_le(b, c) ==> key_le(a, c),
{
}

pub proof fn lemma_ins_pos(t: Seq<(u32, u32, u32, usize, usize, usize)>, x: (u32, u32, u32, usize, usize, usize), p: int)
    requires
        0 <= p <= t.len(),
        keys_sorted(t),
    ensures
        p <= ins_pos(t, x, p) <= t.len(),
        forall|i: int| p <= i < ins_pos(t, x, p) ==> key_le(#[trigger] t[i], x),
        forall|i: int| ins_pos(t, x, p) <= i < t.len() ==> !key_le(#[trigger] t[i], x),
    decreases t.len() - p,
{
    if p < t.len() {
        if key_le(t[p], x) {
            lemma_ins_pos(t, x, p + 1);
        } else {
            assert forall|i: int| p <= i < t.len() implies !key_le(#[trigger] t[i], x) by {
                if key_le(t[i], x) {
                    lemma_key_order(t[p], t[i], x);
                }
            }
        }
    }
}

/// Putting keys in order keeps them all and puts them in order.
pub proof fn lemma_isort(s: Seq<(u32, u32, u32, usize, usize, usize)>)
    ensures
        isort(s).len() == s.len(),
        isort(s).to_multiset() == s.to_multiset(),
        keys_sorted(isort(s)),
    decreases s.len(),
{
    broadcast use vstd::seq_lib::to_multiset_build, vstd::seq_lib::to_multiset_insert;

    if s.len() > 0 {
        let t = isort(s.drop_last());
        lemma_isort(s.drop_last());
        let x = s.last();
        lemma_ins_pos(t, x, 0);
        let p = ins_pos(t, x, 0);
        let u = t.insert(p, x);
        assert(s.drop_last().push(x) =~= s);
        assert forall|i: int, j: int| 0 <= i < j < u.len() implies key_le(#[trigger] u[i], #[trigger] u[j]) by {
            if j < p {
                assert(u[i] == t[i] && u[j] == t[j]);
            } else if j == p {
                assert(u[i] == t[i]);
            } else if i < p {
                assert(u[i] == t[i] && u[j] == t[j - 1]);
                lemma_key_order(t[i], x, t[j - 1]);
                assert(!key_le(t[j - 1], x));
                lemma_key_order(x, t[j - 1], x);
            } else if i == p {
                assert(u[j] == t[j - 1]);
                assert(!key_le(t[j - 1], x));
                lemma_key_order(x, t[j - 1], x);
            } else {
                assert(u[i] == t[i - 1] && u[j] == t[j - 1]);
            }
        }
    }
}

/// Keys put in order, each inserted after the keys not above it.
pub fn sort_keys(keys: &Vec<(u32, u32, u32, usize, usize, usize)>) -> (r: Vec<(u32, u32, u32, usize, usize, usize)>)
    ensures
        r@ == isort(keys@),
{
    let mut out: Vec<(u32, u32, u32, usize, usize, usize)> = Vec::new();
    let mut i: usize = 0;
    assert(keys@.take(0) =~= Seq::<(u32, u32, u32, usize, usize, usize)>::empty());
    while i < keys.len()
        invariant
            i <= keys@.len(),
            out@ == isort(keys@.take(i as int)),
        decreases keys@.len() - i,
    {
        let x = keys[i];
        let mut p: usize = 0;
        while p < out.len() && key_leq(&out[p], &x)
            invariant
                p <= out@.len(),
                ins_pos(out@, x, 0) == ins_pos(out@, x, p as int),
            decreases out@.len() - p,
        {
            p += 1;
        }
        assert(keys@.take(i + 1).drop_last() =~= keys@.take(i as int));
        assert(keys@.take(i + 1).last() == x);
        out.insert(p, x);
        i += 1;
    }
    assert(keys@.take(keys@.len() as int) =~= keys@);
    out
}

/// `key_le` on two keys.
fn key_leq(a: &(u32, u32, u32, usize, usize, usize), b: &(u32, u32, u32, usize, usize, usize)) -> (r: bool)
    ensures
        r == key_le(*a, *b),
{
    a.0 < b.0 || (a.0 == b.0 && (a.1 < b.1 || (a.1 == b.1 && (a.2 < b.2 || (a.2 == b.2 && (a.3
        < b.3 || (a.3 == b.3 && a.4 <= b.4)))))))
}

} // verus!
