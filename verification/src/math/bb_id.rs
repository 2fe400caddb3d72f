//! Addresses of the cells of a quad tree over a square region. An address is
//! a base-5 digit string read from the most significant digit: each digit
//! `1..=4` picks a quadrant one level deeper (1 is top-left), and the empty
//! string (zero) is the whole region.
use vstd::prelude::*;
use vstd::std_specs::ops::ShlSpec;
use crate::math::base5::{b5, b5_of, digits5, pow5, lemma_b5_of, lemma_digits5_bounds,
    lemma_digits5_u32, lemma_leading_digit, lemma_digits5_unique, lemma_pow5_pos};

verus! {

/// The address of the parent cell: the leading digit is dropped.
pub open spec fn spec_parent_id(id: nat) -> nat {
    id % pow5((digits5(id) - 1) as nat)
}

/// The address of the top-left child: a leading digit 1 is added.
pub open spec fn spec_tl_id(id: nat) -> nat {
    id + pow5(digits5(id))
}

/// Address of the parent of cell `id` (which must not be the root).
pub fn parent_id(id: u32) -> (r: u32)
    requires
        id != 0,
    ensures
        r == spec_parent_id(id as nat),
{
    let bit: u32 = b5::from(id).highest_bit().value();
    let len: usize = b5::from(id).length();
    proof {
        lemma_leading_digit(id as nat);
        lemma_digits5_u32(id);
        lemma_b5_of(bit);
        let p = pow5((len - 1) as nat);
        assert(bit as nat * p <= id);
    }
    let shifted: u32 = (b5::from(bit) << (len - 1)).value();
    proof {
        lemma_b5_of((bit as nat * pow5((len - 1) as nat)) as u32);
    }
    id - shifted
}

/// Address of the top-left child of cell `id`.
pub fn tl_id(id: u32) -> (r: u32)
    requires
        digits5(id as nat) < 14,
        id + pow5(digits5(id as nat)) <= u32::MAX,
    ensures
        r == spec_tl_id(id as nat),
{
    let len: usize = b5::from(id).length();
    proof {
        lemma_b5_of(1);
    }
    let shifted: u32 = (b5::from(1) << len).value();
    proof {
        lemma_b5_of(pow5(len as nat) as u32);
    }
    id + shifted
}

/// The parent of a cell's top-left child is the cell itself.
pub proof fn lemma_parent_of_tl(id: nat)
    ensures
        spec_parent_id(spec_tl_id(id)) == id,
{
    let l = digits5(id);
    let c = spec_tl_id(id);
    lemma_digits5_bounds(id);
    lemma_pow5_pos(l);
    assert(pow5(l + 1) == 5 * pow5(l));
    assert(c < pow5(l + 1));
    assert(pow5(l) <= c);
    lemma_digits5_unique(c, l + 1);
    assert((c - pow5(l)) as nat == id);
    assert(c % pow5(l) == id) by (nonlinear_arith)
        requires c == id + pow5(l), id < pow5(l), pow5(l) > 0;
}

} // verus!
