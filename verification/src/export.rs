//! The classification of a lattice as text.

use vstd::prelude::*;
use crate::point::Point;
use crate::basins::Basins;
use crate::registry::Attractors;

verus! {

/// The byte of a tab.
pub const TAB: u8 = 9;

/// The byte of a line feed.
pub const NEWLINE: u8 = 10;

/// The byte of the digit `0`.
pub const ZERO: u8 = 48;

/// `n` in decimal digits, without leading zeros.
pub open spec fn decimal(n: nat) -> Seq<u8>
    decreases n,
{
    if n < 10 {
        seq![(ZERO + n) as u8]
    } else {
        decimal(n / 10).push((ZERO + n % 10) as u8)
    }
}

/// `count` tabs.
pub open spec fn tabs(count: nat) -> Seq<u8> {
    Seq::new(count, |i: int| TAB)
}

/// The cells of row `r` for the columns from `r` up to but not including
/// `to`: for each point the index of its first basin in decimal, followed by
/// a tab.
pub open spec fn cells(b: Basins, r: nat, to: nat) -> Seq<u8>
    decreases to,
{
    if to <= r {
        Seq::<u8>::empty()
    } else {
        cells(b, r, (to - 1) as nat) + decimal(
            b.lookup(Point(r as u32, (to - 1) as u32)).unwrap() as nat,
        ).push(TAB)
    }
}

/// Row `r` of the matrix of a lattice of side `size`: `r` tabs, then the
/// cells of the columns from `r` on, separated by tabs, then a line feed.
pub open spec fn row(b: Basins, size: nat, r: nat) -> Seq<u8> {
    (tabs(r) + cells(b, r, size).drop_last()).push(NEWLINE)
}

/// The first `rows` rows of the matrix of a lattice of side `size`.
pub open spec fn matrix(b: Basins, size: nat, rows: nat) -> Seq<u8>
    decreases rows,
{
    if rows == 0 {
        Seq::<u8>::empty()
    } else {
        matrix(b, size, (rows - 1) as nat) + row(b, size, (rows - 1) as nat)
    }
}

/// Every point `(r, c)` with `r <= c < size` is a member of some basin.
pub open spec fn covers(b: Basins, size: nat) -> bool {
    forall|r: u32, c: u32| r <= c < size ==> #[trigger] b.classified(Point(r, c))
}

/// Appends `n` in decimal digits to `out`.
pub fn push_decimal(out: &mut Vec<u8>, n: usize)
    ensures
        final(out)@ == old(out)@ + decimal(n as nat),
    decreases n,
{
    if n >= 10 {
        push_decimal(out, n / 10);
    }
    let digit: u8 = ZERO + (n % 10) as u8;
    out.push(digit);
}

/// The matrix of the lattice of side `size` as text, or `None` where some
/// point of the lattice is a member of no basin.
///
/// Row `r` starts with `r` tabs and gives, for each column `c` from `r` on,
/// the index of the first basin of the point `(r, c)` in decimal; the cells
/// are separated by tabs and the row ends with a line feed.
pub fn render_matrix(registry: &Attractors, size: u32) -> (text: Option<Vec<u8>>)
    ensures
        match text {
            Some(bytes) => covers(registry@, size as nat) && bytes@ == matrix(
                registry@,
                size as nat,
                size as nat,
            ),
            None => !covers(registry@, size as nat),
        },
{
    let mut out: Vec<u8> = Vec::new();
    let mut idx1: u32 = 0;
    while idx1 < size
        invariant
            idx1 <= size,
            out@ == matrix(registry@, size as nat, idx1 as nat),
            forall|r: u32, c: u32|
                r < idx1 && r <= c < size ==> #[trigger] registry@.classified(Point(r, c)),
        decreases size - idx1,
    {
        let ghost done = out@;
        let mut lead: u32 = 0;
        while lead < idx1
            invariant
                lead <= idx1,
                out@ == done + tabs(lead as nat),
            decreases idx1 - lead,
        {
            out.push(TAB);
            lead += 1;
        }
        let mut idx2: u32 = idx1;
        while idx2 < size
            invariant
                idx1 <= idx2 <= size,
                idx1 < size,
                out@ == done + tabs(idx1 as nat) + cells(registry@, idx1 as nat, idx2 as nat),
                forall|c: u32| idx1 <= c < idx2 ==> #[trigger] registry@.classified(Point(idx1, c)),
            decreases size - idx2,
        {
            match registry.find(&Point(idx1, idx2)) {
                None => {
                    return None;
                },
                Some(idx) => {
                    push_decimal(&mut out, idx);
                    out.push(TAB);
                    proof {
                        assert(out@ =~= done + tabs(idx1 as nat) + cells(
                            registry@,
                            idx1 as nat,
                            (idx2 + 1) as nat,
                        ));
                    }
                },
            }
            idx2 += 1;
        }
        out.pop();
        out.push(NEWLINE);
        idx1 += 1;
    }
    Some(out)
}

} // verus!
