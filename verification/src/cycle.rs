//! Cycles as sequences of points, compared up to rotation.
//!
//! A cycle is stored from an arbitrary one of its points onwards. Two stored
//! cycles stand for the same cycle when one is the other read from a different
//! starting point; reading backwards is not allowed.

use vstd::prelude::*;
use vstd::arithmetic::div_mod::{lemma_small_mod, lemma_mod_sub_multiples_vanish};
use crate::point::Point;

verus! {

/// `i` is the first position of `p` in `s`.
pub open spec fn is_first_index(s: Seq<Point>, p: Point, i: int) -> bool {
    &&& 0 <= i < s.len()
    &&& s[i] == p
    &&& forall|j: int| 0 <= j < i ==> s[j] != p
}

/// The first position of `p` in `s`, for a `p` that occurs in `s`.
pub open spec fn first_index(s: Seq<Point>, p: Point) -> int {
    choose|i: int| is_first_index(s, p, i)
}

/// `a` is `b` read cyclically from position `offset` onwards.
pub open spec fn rotation_at(a: Seq<Point>, b: Seq<Point>, offset: int) -> bool {
    &&& a.len() == b.len()
    &&& forall|i: int| 0 <= i < a.len() ==> #[trigger] a[i] == b[(i + offset) % (b.len() as int)]
}

/// `s` rotated to the left by `k` places.
pub open spec fn rotate(s: Seq<Point>, k: int) -> Seq<Point> {
    s.subrange(k, s.len() as int) + s.subrange(0, k)
}

/// Equality of `a` and `b` up to rotation, decided at the first occurrence in
/// `b` of the first point of `a`.
///
/// Sequences of different lengths are never equal, and neither are two empty
/// sequences. Where no point occurs twice this is exactly "`a` is a rotation
/// of `b`" (see [`lemma_cyclic_eq_of_rotation`] and
/// [`lemma_cyclic_eq_is_rotation`]).
pub open spec fn cyclic_eq_spec(a: Seq<Point>, b: Seq<Point>) -> bool {
    &&& a.len() == b.len()
    &&& a.len() > 0
    &&& b.contains(a[0])
    &&& rotation_at(a, b, first_index(b, a[0]))
}

proof fn lemma_first_index_exists(s: Seq<Point>, p: Point, i: int)
    requires
        0 <= i < s.len(),
        s[i] == p,
    ensures
        exists|j: int| is_first_index(s, p, j),
    decreases i,
{
    if exists|j: int| 0 <= j < i && s[j] == p {
        let j = choose|j: int| 0 <= j < i && s[j] == p;
        lemma_first_index_exists(s, p, j);
    } else {
        assert(is_first_index(s, p, i));
    }
}

/// A point that occurs in a sequence has a first position there.
pub proof fn lemma_first_index(s: Seq<Point>, p: Point)
    requires
        s.contains(p),
    ensures
        is_first_index(s, p, first_index(s, p)),
{
    let i = choose|i: int| 0 <= i < s.len() && s[i] == p;
    lemma_first_index_exists(s, p, i);
}

/// The first position is unique.
pub proof fn lemma_first_index_unique(s: Seq<Point>, p: Point, i: int)
    requires
        is_first_index(s, p, i),
    ensures
        first_index(s, p) == i,
{
}

/// Adding two positions of a sequence of length `n` and reducing modulo `n`
/// subtracts `n` at most once.
pub proof fn lemma_wrapped_sum(i: int, offset: int, n: int)
    requires
        0 <= i < n,
        0 <= offset < n,
    ensures
        (i + offset) % n == (if i + offset < n { i + offset } else { i + offset - n }),
{
    if i + offset < n {
        lemma_small_mod((i + offset) as nat, n as nat);
    } else {
        lemma_mod_sub_multiples_vanish(i + offset, n);
        lemma_small_mod((i + offset - n) as nat, n as nat);
    }
}

/// The first position of `p` in `s`, if it occurs there.
pub fn position(s: &Vec<Point>, p: &Point) -> (r: Option<usize>)
    ensures
        match r {
            Some(i) => is_first_index(s@, *p, i as int),
            None => !s@.contains(*p),
        },
{
    let mut i: usize = 0;
    while i < s.len()
        invariant
            i <= s.len(),
            forall|j: int| 0 <= j < i ==> s@[j] != *p,
        decreases s.len() - i,
    {
        if s[i] == *p {
            return Some(i);
        }
        i += 1;
    }
    None
}

/// Whether `a` and `b` are the same cycle up to rotation.
pub fn cyclic_eq(a: &Vec<Point>, b: &Vec<Point>) -> (r: bool)
    ensures
        r == cyclic_eq_spec(a@, b@),
{
    let n: usize = a.len();
    if n != b.len() || n == 0 {
        return false;
    }
    match position(b, &a[0]) {
        None => false,
        Some(offset) => {
            let mut i: usize = 0;
            while i < n
                invariant
                    i <= n,
                    n == a.len(),
                    n == b.len(),
                    offset < n,
                    first_index(b@, a@[0]) == offset,
                    forall|j: int| 0 <= j < i ==> #[trigger] a@[j] == b@[(j + offset) % (n as int)],
                decreases n - i,
            {
                let at: usize = if i < n - offset {
                    i + offset
                } else {
                    i - (n - offset)
                };
                proof {
                    lemma_wrapped_sum(i as int, offset as int, n as int);
                }
                if !(a[i] == b[at]) {
                    return false;
                }
                i += 1;
            }
            true
        },
    }
}

/// Where `a` equals `b` up to rotation, every point of `a` occurs in `b`.
pub proof fn lemma_cyclic_eq_same_points(a: Seq<Point>, b: Seq<Point>)
    requires
        cyclic_eq_spec(a, b),
    ensures
        forall|i: int| 0 <= i < a.len() ==> b.contains(#[trigger] a[i]),
{
}

/// Equality up to rotation holds only of rotations: `a` is then `b` rotated to
/// the first place where the first point of `a` occurs.
pub proof fn lemma_cyclic_eq_is_rotation(a: Seq<Point>, b: Seq<Point>)
    requires
        cyclic_eq_spec(a, b),
    ensures
        0 <= first_index(b, a[0]) < b.len(),
        a == rotate(b, first_index(b, a[0])),
{
    let offset = first_index(b, a[0]);
    lemma_first_index(b, a[0]);
    assert forall|i: int| 0 <= i < a.len() implies a[i] == rotate(b, offset)[i] by {
        lemma_wrapped_sum(i, offset, b.len() as int);
    }
}

/// Rotation invariance: a sequence without repeated points equals each of its
/// rotations, in both directions.
pub proof fn lemma_cyclic_eq_of_rotation(s: Seq<Point>, k: int)
    requires
        s.no_duplicates(),
        0 <= k < s.len(),
    ensures
        cyclic_eq_spec(rotate(s, k), s),
        cyclic_eq_spec(s, rotate(s, k)),
{
    let n = s.len() as int;
    let r = rotate(s, k);
    assert forall|i: int| 0 <= i < n implies #[trigger] r[i] == s[(i + k) % n] by {
        lemma_wrapped_sum(i, k, n);
    }
    // `r` read against `s`: the first point of `r` is `s[k]`, found at `k` only.
    assert(is_first_index(s, r[0], k));
    // `s` read against `r`: `s[0]` sits in `r` where the rotation put it.
    let back = if k == 0 { 0 } else { n - k };
    assert(is_first_index(r, s[0], back));
    assert forall|i: int| 0 <= i < n implies #[trigger] s[i] == r[(i + back) % n] by {
        lemma_wrapped_sum(i, back, n);
    }
}

/// A non-empty sequence equals itself up to rotation.
pub proof fn lemma_cyclic_eq_reflexive(s: Seq<Point>)
    requires
        s.len() > 0,
    ensures
        cyclic_eq_spec(s, s),
{
    assert(is_first_index(s, s[0], 0));
    assert forall|i: int| 0 <= i < s.len() implies #[trigger] s[i] == s[(i + 0) % (s.len() as int)] by {
        lemma_wrapped_sum(i, 0, s.len() as int);
    }
}

/// A cycle of three distinct points equals its two other rotations and does
/// not equal its mirror image.
pub proof fn lemma_three_cycle(a: Point, b: Point, c: Point)
    requires
        a != b,
        b != c,
        a != c,
    ensures
        cyclic_eq_spec(seq![a, b, c], seq![b, c, a]),
        cyclic_eq_spec(seq![a, b, c], seq![c, a, b]),
        !cyclic_eq_spec(seq![a, b, c], seq![a, c, b]),
{
    let s = seq![a, b, c];
    assert(s.no_duplicates());
    lemma_cyclic_eq_of_rotation(s, 1);
    assert(rotate(s, 1) =~= seq![b, c, a]);
    lemma_cyclic_eq_of_rotation(s, 2);
    assert(rotate(s, 2) =~= seq![c, a, b]);
}

} // verus!
