//! Integer rule of the checker texture.

use vstd::prelude::*;

verus! {

/// The lattice cell `(x, y, z)` belongs to the even colour of the checker board.
pub open spec fn is_even_cell(x: int, y: int, z: int) -> bool {
    (x + y + z) % 2 == 0
}

/// Picks the colour of the checker-board cell `(x, y, z)`: even when the sum of
/// its coordinates is even, odd otherwise.
pub fn checker_cell_is_even(x: i32, y: i32, z: i32) -> (even: bool)
    requires
        i32::MIN <= x + y <= i32::MAX,
        i32::MIN <= x + y + z <= i32::MAX,
    ensures
        even == is_even_cell(x as int, y as int, z as int),
{
    (x + y + z) % 2 == 0
}

/// Neighbouring cells of the checker board have opposite colours.
pub proof fn lemma_neighbours_differ(x: int, y: int, z: int)
    ensures
        is_even_cell(x + 1, y, z) == !is_even_cell(x, y, z),
        is_even_cell(x, y + 1, z) == !is_even_cell(x, y, z),
        is_even_cell(x, y, z + 1) == !is_even_cell(x, y, z),
{
    let s = x + y + z;
    assert((s + 1) % 2 == 0 <==> s % 2 != 0) by {
        vstd::arithmetic::div_mod::lemma_fundamental_div_mod(s, 2);
        vstd::arithmetic::div_mod::lemma_fundamental_div_mod(s + 1, 2);
    }
    assert(x + 1 + y + z == s + 1);
    assert(x + (y + 1) + z == s + 1);
    assert(x + y + (z + 1) == s + 1);
}

} // verus!
