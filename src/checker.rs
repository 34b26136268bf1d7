//! The checkerboard rule of the floor's procedural material.
//!
//! The floor is tiled in squares of two units; a hit point's tile is given by
//! its two horizontal coordinates halved and rounded down. Tiles alternate in
//! colour like the squares of a chessboard.
use vstd::prelude::*;

verus! {

/// Whether tile `(u, v)` takes the first of the two floor colours: the tiles
/// whose coordinates have an even sum.
pub open spec fn is_first_tile(u: int, v: int) -> bool {
    (u + v) % 2 == 0
}

/// Whether tile `(u, v)` takes the first of the two floor colours.
pub fn checker_tile_first(u: i32, v: i32) -> (r: bool)
    ensures
        r == is_first_tile(u as int, v as int),
{
    let s: i64 = u as i64 + v as i64;
    let m: i64 = if s < 0 { -s } else { s };
    proof {
        assert((s as int) % 2 == 0 <==> (m as int) % 2 == 0) by {
            if s < 0 {
                assert((s as int) == -(m as int));
                assert(((m as int) + (s as int)) % 2 == 0);
                vstd::arithmetic::div_mod::lemma_fundamental_div_mod(m as int, 2);
                vstd::arithmetic::div_mod::lemma_fundamental_div_mod(s as int, 2);
            }
        }
    }
    m % 2 == 0
}

} // verus!
