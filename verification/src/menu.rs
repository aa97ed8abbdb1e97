//! The cursor every list in the game is walked with.
use vstd::prelude::*;

verus! {

/// Where a cursor at `cursor` lands after `delta` rows in a list of `rows`: wrapping at
/// both ends, and zero for a list with no rows.
pub open spec fn stepped(cursor: int, rows: int, delta: int) -> int {
    if rows <= 0 {
        0
    } else {
        (cursor + delta) % rows
    }
}

/// Moves a cursor by `delta` rows, wrapping at both ends.
///
/// Wrapping rather than stopping because the list is short and the alternative is a
/// child pressing down at the bottom and concluding the menu is broken. An empty list
/// has no row to be on and stays at zero, which draws no cursor.
pub fn step(cursor: usize, rows: usize, delta: i32) -> (r: usize)
    ensures
        r == stepped(cursor as int, rows as int, delta as int),
        rows > 0 ==> r < rows,
{
    if rows == 0 {
        return 0;
    }
    let x: i128 = cursor as i128 + delta as i128;
    let rw = rows as i128;
    let moved: i128 = if x >= 0 {
        proof {
            vstd::arithmetic::div_mod::lemma_fundamental_div_mod(x as int, rw as int);
        }
        x % rw
    } else {
        let y: i128 = (-x) % rw;
        proof {
            let q = (-x) / (rw as int);
            vstd::arithmetic::div_mod::lemma_fundamental_div_mod(-x as int, rw as int);
            assert(-x == (rw as int) * q + y);
            assert(x == (-q) * (rw as int) + y - 2 * y) by (nonlinear_arith)
                requires
                    -x == (rw as int) * q + y,
            ;
            assert(x == (-q - 1) * (rw as int) + (rw - y)) by (nonlinear_arith)
                requires
                    -x == (rw as int) * q + y,
            ;
            if y == 0 {
                vstd::arithmetic::div_mod::lemma_fundamental_div_mod_converse(
                    x as int,
                    rw as int,
                    -q,
                    0,
                );
            } else {
                vstd::arithmetic::div_mod::lemma_fundamental_div_mod_converse(
                    x as int,
                    rw as int,
                    -q - 1,
                    rw - y,
                );
            }
        }
        if y == 0 {
            0
        } else {
            rw - y
        }
    };
    moved as usize
}

} // verus!
