//! Machine words as sets of small numbers.
use vstd::arithmetic::power2;
use vstd::prelude::*;

verus! {

/// Whether bit `i` of a word is set.
pub open spec fn has_bit(word: u64, i: int) -> bool {
    0 <= i < 64 && (word >> (i as u64)) & 1 == 1
}

/// The positions of the bits that are set in a word.
pub open spec fn bit_set(word: u64) -> Set<int> {
    Set::new(|i: int| has_bit(word, i))
}

/// Only the word zero has no bit.
pub proof fn lemma_no_bits(word: u64)
    ensures
        word == 0 <==> bit_set(word) == Set::<int>::empty(),
{
    broadcast use vstd::std_specs::bits::axiom_u64_trailing_zeros;

    if word == 0 {
        assert forall|i: int| !has_bit(0, i) by {
            if 0 <= i < 64 {
                let b = i as u64;
                assert((0u64 >> b) & 1 == 0) by (bit_vector);
            }
        }
        assert(bit_set(word) =~= Set::empty());
    } else {
        let zeros = vstd::std_specs::bits::u64_trailing_zeros(word);
        assert(has_bit(word, zeros as int));
        assert(bit_set(word).contains(zeros as int));
    }
}

/// Setting a bit adds its position.
pub proof fn lemma_set_bit(word: u64, i: u64)
    requires
        i < 64,
    ensures
        bit_set(word | (1u64 << i)) == bit_set(word).insert(i as int),
        word & (1u64 << i) == 0 <==> !has_bit(word, i as int),
{
    assert forall|j: int| has_bit(word | (1u64 << i), j) == (has_bit(word, j) || j == i) by {
        if 0 <= j < 64 {
            let k = j as u64;
            assert(((word | (1u64 << i)) >> k) & 1 == 1 <==> ((word >> k) & 1 == 1 || k == i))
                by (bit_vector)
                requires
                    i < 64,
                    k < 64,
            ;
        }
    }
    assert(word & (1u64 << i) == 0 <==> (word >> i) & 1 != 1) by (bit_vector)
        requires
            i < 64,
    ;
    let added = bit_set(word | (1u64 << i));
    assert forall|j: int| #[trigger]
        added.contains(j) <==> bit_set(word).insert(i as int).contains(j) by {
        assert(added.contains(j) == has_bit(word | (1u64 << i), j));
    }
    assert(added =~= bit_set(word).insert(i as int));
}

/// Clearing a bit removes its position.
pub proof fn lemma_clear_bit(word: u64, i: u64)
    requires
        i < 64,
    ensures
        bit_set(word & !(1u64 << i)) == bit_set(word).remove(i as int),
{
    assert forall|j: int| has_bit(word & !(1u64 << i), j) == (has_bit(word, j) && j != i) by {
        if 0 <= j < 64 {
            let k = j as u64;
            assert(((word & !(1u64 << i)) >> k) & 1 == 1 <==> ((word >> k) & 1 == 1 && k != i))
                by (bit_vector)
                requires
                    i < 64,
                    k < 64,
            ;
        }
    }
    assert(bit_set(word & !(1u64 << i)) =~= bit_set(word).remove(i as int));
}

/// The number of trailing zeros is the lowest position in a word.
pub proof fn lemma_lowest_bit(word: u64)
    requires
        word != 0,
    ensures
        vstd::std_specs::bits::u64_trailing_zeros(word) < 64,
        bit_set(word).contains(vstd::std_specs::bits::u64_trailing_zeros(word) as int),
        forall|i: int|
            bit_set(word).contains(i) ==> vstd::std_specs::bits::u64_trailing_zeros(word) <= i,
{
    broadcast use vstd::std_specs::bits::axiom_u64_trailing_zeros;

    let zeros = vstd::std_specs::bits::u64_trailing_zeros(word);
    assert forall|i: int| bit_set(word).contains(i) implies zeros <= i by {
        if i < zeros {
            let j = i as u64;
            assert((word >> j) & 1 == 0);
        }
    }
}

/// The four values of a pair of flags, bit by bit.
pub proof fn lemma_two_flags(flags: u8)
    requires
        flags <= 3,
    ensures
        flags & 1 != 0 <==> flags == 1 || flags == 3,
        flags & 2 != 0 <==> flags == 2 || flags == 3,
        flags | 1 == (if flags & 1 != 0 {
            flags as int
        } else {
            flags + 1
        }),
        flags | 2 == (if flags & 2 != 0 {
            flags as int
        } else {
            flags + 2
        }),
        flags & !1u8 == (if flags & 1 != 0 {
            flags - 1
        } else {
            flags as int
        }),
        flags & !2u8 == (if flags & 2 != 0 {
            flags - 2
        } else {
            flags as int
        }),
{
    assert(flags & 1 != 0 <==> flags == 1 || flags == 3) by (bit_vector)
        requires
            flags <= 3,
    ;
    assert(flags & 2 != 0 <==> flags == 2 || flags == 3) by (bit_vector)
        requires
            flags <= 3,
    ;
    assert(flags | 1 == (if flags & 1 != 0 {
        flags as int
    } else {
        flags + 1
    })) by (bit_vector)
        requires
            flags <= 3,
    ;
    assert(flags | 2 == (if flags & 2 != 0 {
        flags as int
    } else {
        flags + 2
    })) by (bit_vector)
        requires
            flags <= 3,
    ;
    assert(flags & !1u8 == (if flags & 1 != 0 {
        flags - 1
    } else {
        flags as int
    })) by (bit_vector)
        requires
            flags <= 3,
    ;
    assert(flags & !2u8 == (if flags & 2 != 0 {
        flags - 2
    } else {
        flags as int
    })) by (bit_vector)
        requires
            flags <= 3,
    ;
}

/// The exponent of a power of two.
pub proof fn lemma_exponent(n: int) -> (e: nat)
    requires
        power2::is_pow2(n),
    ensures
        n == power2::pow2(e),
        n > 0,
        n <= usize::MAX ==> e < usize::BITS,
{
    power2::is_pow2_equiv(n);
    let e = choose|e: nat| vstd::arithmetic::power::pow(2, e) == n;
    power2::lemma_pow2(e);
    power2::lemma_pow2_pos(e);
    lemma_word_is_power_of_two();
    if e > usize::BITS {
        power2::lemma_pow2_strictly_increases(usize::BITS as nat, e);
    }
    e
}

/// There are as many machine words as the word size is an exponent of two.
pub proof fn lemma_word_is_power_of_two()
    ensures
        power2::pow2(usize::BITS as nat) == usize::MAX + 1,
{
    power2::lemma2_to64();
}

/// Masking with a power of two less one gives the remainder of a division by it.
pub proof fn lemma_mask_is_remainder(n: usize, divisor: usize)
    requires
        power2::is_pow2(divisor as int),
    ensures
        n & ((divisor - 1) as usize) == n % divisor,
        n & !((divisor - 1) as usize) == n - n % divisor,
{
    let e = lemma_exponent(divisor as int);
    vstd::bits::lemma_usize_low_bits_mask_is_mod(n, e);
    let mask = (divisor - 1) as usize;
    assert(mask == vstd::bits::low_bits_mask(e) as usize);
    assert(n & !mask == n - (n & mask)) by (bit_vector);
}

} // verus!
