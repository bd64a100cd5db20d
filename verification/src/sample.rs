//! Sample data to measure the coder with.

use vstd::prelude::*;

verus! {

/// The byte at place `i` of the sample data: `31 * i + 7`, as a byte holds
/// it.
pub open spec fn sample_byte(i: int) -> u8 {
    ((31 * i + 7) % 256) as u8
}

/// Makes `size` bytes of sample data.
pub fn make_test_data(size: usize) -> (v: Vec<u8>)
    ensures
        v@.len() == size,
        forall|i: int| 0 <= i < size ==> v@[i] == sample_byte(i),
{
    let mut v: Vec<u8> = Vec::with_capacity(size);
    let mut i: usize = 0;
    while i < size
        invariant
            i <= size,
            v@.len() == i,
            forall|j: int| 0 <= j < i ==> v@[j] == sample_byte(j),
        decreases size - i,
    {
        let low: usize = i % 256;
        let byte: usize = (low * 31 + 7) % 256;
        assert(byte == (31 * i + 7) % 256) by {
            let q: int = i as int / 256;
            assert(i == 256 * q + low);
            assert(31 * i + 7 == 256 * (31 * q) + (31 * low + 7));
            vstd::arithmetic::div_mod::lemma_mod_multiples_vanish(31 * q, 31 * low + 7, 256);
        }
        v.push(byte as u8);
        i = i + 1;
    }
    v
}

} // verus!
