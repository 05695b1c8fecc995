use vstd::prelude::*;
use vstd::arithmetic::power2::{pow2, is_pow2, lemma_pow2_pos};
use vstd::layout::{size_of, align_of};
use core::marker::PhantomData;

verus! {

/// `i` rounded up to a multiple of `align`.
pub open spec fn round_up(i: nat, align: nat) -> nat
    recommends
        align > 0,
{
    ((i + align - 1) as nat / align) * align
}

/// `2^k` fits in `usize` only for `k` below its number of bits.
proof fn lemma_pow2_fits_usize(k: nat)
    requires
        pow2(k) <= usize::MAX,
    ensures
        k < usize::BITS,
{
    vstd::layout::unsigned_int_max_values();
    if k >= usize::BITS {
        if k > usize::BITS {
            vstd::arithmetic::power2::lemma_pow2_strictly_increases(usize::BITS as nat, k);
        }
    }
}

/// The index `i` rounded up to the alignment `align`: `(i + align - 1)` with the bits of
/// `align - 1` cleared, which for a power of two is the next multiple of `align`.
pub fn align_to(i: usize, align: usize) -> (r: usize)
    requires
        align >= 1,
        i + align - 1 <= usize::MAX,
    ensures
        r == (i + (align - 1) as usize) as usize & !((align - 1) as usize),
        is_pow2(align as int) ==> r == round_up(i as nat, align as nat),
        is_pow2(align as int) ==> i <= r < i + align && r % align == 0,
{
    let mask = align - 1;
    let x = i + mask;
    let r = x & !mask;
    proof {
        if is_pow2(align as int) {
            vstd::arithmetic::power2::is_pow2_equiv(align as int);
            let k = choose|k: nat| vstd::arithmetic::power::pow(2, k) == align as int;
            assert(pow2(k) == align);
            lemma_pow2_fits_usize(k);
            vstd::bits::lemma_usize_low_bits_mask_is_mod(x, k);
            assert(vstd::bits::low_bits_mask(k) == mask);
            assert(x & !mask == x - (x & mask)) by (bit_vector);
            vstd::arithmetic::div_mod::lemma_fundamental_div_mod(x as int, align as int);
            vstd::arithmetic::div_mod::lemma_mod_pos_bound(x as int, align as int);
            vstd::arithmetic::mul::lemma_mul_is_commutative(align as int, (x / align) as int);
            vstd::arithmetic::div_mod::lemma_mod_multiples_basic((x / align) as int, align as int);
        }
    }
    r
}

/// Where a field of type `A` stands after a field of type `T`: `size` is the size of `T`
/// rounded up to the alignment of `A`'s position, `align` the alignment of the pair.
pub struct FieldLayout<T, A> {
    pub align: usize,
    pub size: usize,
    pub _0: PhantomData<(T, A)>,
}

impl<T, A> FieldLayout<T, A> {
    /// The layout for a position aligned to `adjacent_align`, which must be a power of two
    /// at least as large as the alignment of `A`.
    pub fn align_to(adjacent_align: usize) -> (r: FieldLayout<T, A>)
        requires
            is_pow2(adjacent_align as int),
            adjacent_align >= align_of::<A>(),
            size_of::<T>() + adjacent_align - 1 <= usize::MAX,
        ensures
            r.align == vstd::math::max(align_of::<T>() as int, adjacent_align as int),
            r.size == round_up(size_of::<T>(), adjacent_align as nat),
            r.size % adjacent_align == 0,
            size_of::<T>() <= r.size < size_of::<T>() + adjacent_align,
    {
        let t_align = core::mem::align_of::<T>();
        let t_size = core::mem::size_of::<T>();
        proof {
            vstd::arithmetic::power2::is_pow2_equiv(adjacent_align as int);
            let k = choose|k: nat| vstd::arithmetic::power::pow(2, k) == adjacent_align as int;
            lemma_pow2_pos(k);
        }
        let align = if t_align > adjacent_align {
            t_align
        } else {
            adjacent_align
        };
        FieldLayout { align, size: align_to(t_size, adjacent_align), _0: PhantomData }
    }
}

} // verus!
