//! A `u16` read as a row of sixteen lights, light `i` being bit `i`.

use vstd::prelude::*;

verus! {

/// The number of lights that a pattern can hold.
pub const MAX_WIDTH: usize = 16;

/// Whether light `idx` is lit in `pattern`. No light beyond the sixteenth is ever lit.
pub open spec fn bit_is_set(pattern: u16, idx: int) -> bool {
    0 <= idx < 16 && (pattern >> (idx as u16)) & 1u16 == 1u16
}

/// `pattern` with light `idx` lit.
pub open spec fn with_bit(pattern: u16, idx: int) -> u16 {
    pattern | (1u16 << (idx as u16))
}

/// The pattern in which exactly the lights listed in `indices` are lit.
pub open spec fn mask_of(indices: Seq<usize>) -> u16
    decreases indices.len(),
{
    if indices.len() == 0 {
        0u16
    } else {
        with_bit(mask_of(indices.drop_last()), indices.last() as int)
    }
}

/// The lit lights of `pattern` among the first `upto`, in ascending order.
pub open spec fn lit_below(pattern: u16, upto: int) -> Seq<usize>
    decreases upto,
{
    if upto <= 0 {
        Seq::empty()
    } else if bit_is_set(pattern, upto - 1) {
        lit_below(pattern, upto - 1).push((upto - 1) as usize)
    } else {
        lit_below(pattern, upto - 1)
    }
}

/// Lighting one light changes that light and no other.
pub proof fn lemma_with_bit(pattern: u16, idx: int, j: int)
    requires
        0 <= idx < 16,
    ensures
        bit_is_set(with_bit(pattern, idx), j) <==> (j == idx || bit_is_set(pattern, j)),
{
    if 0 <= j < 16 {
        let i = idx as u16;
        let k = j as u16;
        assert((((pattern | (1u16 << i)) >> k) & 1u16 == 1u16) <==> (k == i || (pattern >> k) & 1u16
            == 1u16)) by (bit_vector)
            requires
                i < 16,
                k < 16,
        ;
    }
}

/// No light is lit in the zero pattern.
pub proof fn lemma_zero_has_no_bit(j: int)
    ensures
        !bit_is_set(0u16, j),
{
    if 0 <= j < 16 {
        let k = j as u16;
        assert((0u16 >> k) & 1u16 != 1u16) by (bit_vector);
    }
}

/// A light is lit in `mask_of(indices)` exactly when `indices` lists it.
pub proof fn lemma_mask_of(indices: Seq<usize>, j: int)
    requires
        forall|i: int| 0 <= i < indices.len() ==> indices[i] < 16,
    ensures
        bit_is_set(mask_of(indices), j) <==> (0 <= j < 16 && indices.contains(j as usize)),
    decreases indices.len(),
{
    if indices.len() == 0 {
        lemma_zero_has_no_bit(j);
    } else {
        let front = indices.drop_last();
        lemma_mask_of(front, j);
        lemma_with_bit(mask_of(front), indices.last() as int, j);
        if 0 <= j < 16 {
            if indices.contains(j as usize) {
                let at = choose|at: int| 0 <= at < indices.len() && indices[at] == j as usize;
                if at < front.len() {
                    assert(front[at] == j as usize);
                }
            }
            if front.contains(j as usize) {
                let at = choose|at: int| 0 <= at < front.len() && front[at] == j as usize;
                assert(indices[at] == j as usize);
            }
            if j == indices.last() as int {
                assert(indices[indices.len() - 1] == j as usize);
            }
        }
    }
}

/// Lights light `idx` of `pattern`.
pub fn set_bit(pattern: u16, idx: usize) -> (r: u16)
    requires
        idx < 16,
    ensures
        r == with_bit(pattern, idx as int),
{
    pattern | (1u16 << (idx as u16))
}

/// Tells whether light `idx` of `pattern` is lit; none beyond the sixteenth is.
pub fn get_bit(pattern: u16, idx: usize) -> (r: bool)
    ensures
        r == bit_is_set(pattern, idx as int),
{
    idx < 16 && (pattern >> (idx as u16)) & 1u16 == 1u16
}

/// Lists the lit lights of `pattern` in ascending order.
pub fn to_indices(pattern: u16) -> (r: Vec<usize>)
    ensures
        r@ == lit_below(pattern, 16),
{
    let mut out: Vec<usize> = Vec::new();
    let mut i: usize = 0;
    while i < 16
        invariant
            i <= 16,
            out@ == lit_below(pattern, i as int),
        decreases 16 - i,
    {
        if get_bit(pattern, i) {
            out.push(i);
        }
        i += 1;
    }
    out
}

/// `lit_below` lists a light exactly when it is lit and below the bound.
pub proof fn lemma_lit_below(pattern: u16, upto: int, j: int)
    requires
        0 <= j < 16,
    ensures
        lit_below(pattern, upto).contains(j as usize) <==> (j < upto && bit_is_set(pattern, j)),
    decreases upto,
{
    if upto > 0 {
        lemma_lit_below(pattern, upto - 1, j);
        let prev = lit_below(pattern, upto - 1);
        let cur = lit_below(pattern, upto);
        if cur.contains(j as usize) {
            let at = choose|at: int| 0 <= at < cur.len() && cur[at] == j as usize;
            if at < prev.len() {
                assert(prev[at] == j as usize);
            }
        }
        if prev.contains(j as usize) {
            let at = choose|at: int| 0 <= at < prev.len() && prev[at] == j as usize;
            assert(cur[at] == j as usize);
        }
        if j == upto - 1 && bit_is_set(pattern, j) {
            assert(cur[cur.len() - 1] == j as usize);
        }
    }
}

} // verus!
