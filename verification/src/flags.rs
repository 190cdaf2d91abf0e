//! The bit vector that travels with the parser's input, together with the value
//! that it carries.

use crate::cursor::HasRecursiveInfo;
use vstd::prelude::*;

verus! {

/// Number of 64-bit words in the bit vector.
pub const RECURSIVE_FLAG_WORDS: usize = 1;

/// Number of rule ids that the bit vector has room for.
pub const RECURSIVE_FLAG_BITS: usize = 64 * RECURSIVE_FLAG_WORDS;

/// Whether bit `lower` of `word` is set.
pub open spec fn word_bit(word: u64, lower: u64) -> bool {
    (word >> lower) & 1 == 1
}

proof fn lemma_bit_after_set(word: u64, lower: u64, other: u64)
    by (bit_vector)
    requires
        lower < 64,
        other < 64,
    ensures
        (((word & !(1u64 << lower)) | (1u64 << lower)) >> other) & 1 == 1 <==> (other == lower || (word
            >> other) & 1 == 1),
{
}

proof fn lemma_bit_after_clear(word: u64, lower: u64, other: u64)
    by (bit_vector)
    requires
        lower < 64,
        other < 64,
    ensures
        ((word & !(1u64 << lower)) >> other) & 1 == 1 <==> (other != lower && (word >> other) & 1
            == 1),
{
}

proof fn lemma_no_bit_in_zero(other: u64)
    by (bit_vector)
    requires
        other < 64,
    ensures
        (0u64 >> other) & 1 != 1,
{
}

proof fn lemma_lowest_bit(a: u64, b: u64)
    by (bit_vector)
    requires
        ((a >> 0) & 1 == 1) <==> ((b >> 0) & 1 == 1),
    ensures
        (a << 63) == (b << 63),
{
}

proof fn lemma_next_bit(a: u64, b: u64, k: u64)
    by (bit_vector)
    requires
        0 < k < 64,
        (a << ((64 - k) as u64)) == (b << ((64 - k) as u64)),
        ((a >> k) & 1 == 1) <==> ((b >> k) & 1 == 1),
    ensures
        (a << ((63 - k) as u64)) == (b << ((63 - k) as u64)),
{
}

/// Two words that agree in their lowest `count` bits agree once all higher
/// bits are shifted out.
proof fn lemma_low_bits_equal(a: u64, b: u64, count: u64)
    requires
        1 <= count <= 64,
        forall|j: u64| j < count ==> word_bit(a, j) == word_bit(b, j),
    ensures
        (a << ((64 - count) as u64)) == (b << ((64 - count) as u64)),
    decreases count,
{
    if count == 1 {
        assert(word_bit(a, 0) == word_bit(b, 0));
        lemma_lowest_bit(a, b);
    } else {
        let k = (count - 1) as u64;
        lemma_low_bits_equal(a, b, k);
        assert(word_bit(a, k) == word_bit(b, k));
        lemma_next_bit(a, b, k);
        assert((63 - k) as u64 == (64 - count) as u64);
    }
}

/// Two words that agree in every bit are one word.
proof fn lemma_words_equal_by_bits(a: u64, b: u64)
    requires
        forall|j: u64| j < 64 ==> word_bit(a, j) == word_bit(b, j),
    ensures
        a == b,
{
    lemma_low_bits_equal(a, b, 64);
    assert((a << 0) == a && (b << 0) == b) by (bit_vector);
}

/// The payload of a guarded parse: one bit per rule id and a carried value.
#[derive(Clone, Copy, Debug, Eq, Hash, PartialEq)]
pub struct RecursiveInfo<T: Clone + Default> {
    flag: [u64; RECURSIVE_FLAG_WORDS],
    copy: T,
}

impl<T: Clone + Default> RecursiveInfo<T> {
    /// Whether the bit of `id` is set, for any `id`; no bit is set beyond the
    /// capacity.
    pub closed spec fn has_flag(&self, id: nat) -> bool {
        id < RECURSIVE_FLAG_BITS && word_bit(self.flag@[(id / 64) as int], (id % 64) as u64)
    }

    /// The ids whose bits are set.
    pub closed spec fn flags(&self) -> Set<nat> {
        Set::new(|id: nat| self.has_flag(id))
    }

    /// The carried value.
    pub closed spec fn carried(&self) -> T {
        self.copy
    }

    /// Flags and carried value are all there is to a value: two values with
    /// the same flags and the same carried value are equal.
    pub proof fn lemma_equal_by_parts(&self, other: &Self)
        requires
            self.flags() == other.flags(),
            self.carried() == other.carried(),
        ensures
            *self == *other,
    {
        assert forall|w: int| 0 <= w < RECURSIVE_FLAG_WORDS implies self.flag@[w]
            == other.flag@[w] by {
            assert forall|j: u64| j < 64 implies word_bit(self.flag@[w], j) == word_bit(
                other.flag@[w],
                j,
            ) by {
                let id = (w * 64 + j) as nat;
                assert(id / 64 == w && id % 64 == j);
                assert(self.flags().contains(id) == self.has_flag(id));
                assert(other.flags().contains(id) == other.has_flag(id));
                assert((id % 64) as u64 == j);
            }
            lemma_words_equal_by_bits(self.flag@[w], other.flag@[w]);
        }
        assert(self.flag =~= other.flag);
    }

    /// Every set bit belongs to an id below the capacity, and the set of them
    /// is finite.
    pub proof fn lemma_flags_bounded(&self)
        ensures
            self.flags().finite(),
            forall|id: nat| self.flags().contains(id) ==> id < RECURSIVE_FLAG_BITS,
    {
        let bound: Set<nat> = Set::new(|id: nat| id < RECURSIVE_FLAG_BITS);
        let range: Set<int> = vstd::set_lib::set_int_range(0, RECURSIVE_FLAG_BITS as int);
        vstd::set_lib::lemma_int_range(0, RECURSIVE_FLAG_BITS as int);
        let as_nat = range.map(|i: int| i as nat);
        range.lemma_map_finite(|i: int| i as nat);
        assert forall|id: nat| bound.contains(id) implies as_nat.contains(id) by {
            assert(range.contains(id as int));
        }
        assert(self.flags().subset_of(as_nat));
        vstd::set_lib::lemma_len_subset(self.flags(), as_nat);
    }

    /// No bit set, and the default carried value.
    pub fn new() -> (info: Self)
        ensures
            info.flags() == Set::<nat>::empty(),
            T::default.ensures((), info.carried()),
    {
        let info = RecursiveInfo { flag: [0; RECURSIVE_FLAG_WORDS], copy: T::default() };
        proof {
            assert forall|id: nat| !info.has_flag(id) by {
                if id < RECURSIVE_FLAG_BITS {
                    lemma_no_bit_in_zero((id % 64) as u64);
                }
            }
            assert(info.flags() =~= Set::<nat>::empty());
        }
        info
    }

    /// Tells whether the bit of `id` is set.
    pub fn check_flag(&self, id: usize) -> (set: bool)
        requires
            id < RECURSIVE_FLAG_BITS,
        ensures
            set == self.flags().contains(id as nat),
    {
        let upper: usize = id / 64;
        let lower: u64 = (id % 64) as u64;
        ((self.flag[upper] >> lower) & 1) == 1
    }

    /// Sets the bit of `id` and leaves every other bit and the carried value.
    pub fn set_flag(&mut self, id: usize)
        requires
            id < RECURSIVE_FLAG_BITS,
        ensures
            final(self).flags() == old(self).flags().insert(id as nat),
            final(self).carried() == old(self).carried(),
    {
        let upper: usize = id / 64;
        let lower: u64 = (id % 64) as u64;

        let val: u64 = 1u64 << lower;
        let mask: u64 = !(1u64 << lower);

        let word: u64 = self.flag[upper];
        self.flag[upper] = (word & mask) | val;
        proof {
            assert forall|other: nat| self.has_flag(other) == (other == id || old(self).has_flag(
                other,
            )) by {
                if other < RECURSIVE_FLAG_BITS && other / 64 == upper {
                    lemma_bit_after_set(word, lower, (other % 64) as u64);
                }
            }
            assert(self.flags() =~= old(self).flags().insert(id as nat));
        }
    }

    /// Clears the bit of `id` and leaves every other bit and the carried value.
    pub fn clear_flag(&mut self, id: usize)
        requires
            id < RECURSIVE_FLAG_BITS,
        ensures
            final(self).flags() == old(self).flags().remove(id as nat),
            final(self).carried() == old(self).carried(),
    {
        let upper: usize = id / 64;
        let lower: u64 = (id % 64) as u64;
        let mask: u64 = !(1u64 << lower);
        let word: u64 = self.flag[upper];
        self.flag[upper] = word & mask;
        proof {
            assert forall|other: nat| self.has_flag(other) == (other != id && old(self).has_flag(
                other,
            )) by {
                if other < RECURSIVE_FLAG_BITS && other / 64 == upper {
                    lemma_bit_after_clear(word, lower, (other % 64) as u64);
                }
            }
            assert(self.flags() =~= old(self).flags().remove(id as nat));
        }
    }

    /// Clears every bit and leaves the carried value.
    pub fn clear_flags(&mut self)
        ensures
            final(self).flags() == Set::<nat>::empty(),
            final(self).carried() == old(self).carried(),
    {
        let mut i: usize = 0;
        while i < RECURSIVE_FLAG_WORDS
            invariant
                i <= RECURSIVE_FLAG_WORDS,
                self.copy == old(self).copy,
                forall|w: int| 0 <= w < i ==> self.flag@[w] == 0u64,
            decreases RECURSIVE_FLAG_WORDS - i,
        {
            self.flag[i] = 0u64;
            i = i + 1;
        }
        proof {
            assert forall|id: nat| !self.has_flag(id) by {
                if id < RECURSIVE_FLAG_BITS {
                    lemma_no_bit_in_zero((id % 64) as u64);
                }
            }
            assert(self.flags() =~= Set::<nat>::empty());
        }
    }

    /// Hands out a clone of the carried value.
    pub fn get_copy(&self) -> (copy: T)
        ensures
            cloned(self.carried(), copy),
    {
        self.copy.clone()
    }

    /// Replaces the carried value and leaves the bits.
    pub fn set_copy(&mut self, copy: T)
        ensures
            final(self).carried() == copy,
            final(self).flags() == old(self).flags(),
    {
        self.copy = copy;
        proof {
            assert forall|id: nat| self.has_flag(id) == old(self).has_flag(id) by {}
            assert(self.flags() =~= old(self).flags());
        }
    }
}

impl<T: Clone + Default> HasRecursiveInfo<T> for RecursiveInfo<T> {
    /// The flags carry themselves: the same bits, and a clone of the carried
    /// value.
    fn get_recursive_info(&self) -> (info: RecursiveInfo<T>)
        ensures
            info.flags() == self.flags(),
            cloned(self.carried(), info.carried()),
    {
        let info = RecursiveInfo { flag: self.flag, copy: self.copy.clone() };
        proof {
            assert forall|id: nat| info.has_flag(id) == self.has_flag(id) by {}
            assert(info.flags() =~= self.flags());
        }
        info
    }

    /// `info` takes the place of the whole value.
    fn set_recursive_info(self, info: RecursiveInfo<T>) -> (replaced: Self)
        ensures
            replaced == info,
    {
        info
    }
}

/// For a cursor that is the flags themselves: a flag that was set in the flags
/// that were put in is set in the flags that are read next, so a rule that is
/// called again at that position finds its flag.
pub proof fn lemma_flag_put_in_is_read<T: Clone + Default>(
    cursor: RecursiveInfo<T>,
    info: RecursiveInfo<T>,
    replaced: RecursiveInfo<T>,
    read: RecursiveInfo<T>,
    id: nat,
)
    requires
        info.flags().contains(id),
        call_ensures(RecursiveInfo::<T>::set_recursive_info, (cursor, info), replaced),
        call_ensures(RecursiveInfo::<T>::get_recursive_info, (&replaced,), read),
    ensures
        read.flags().contains(id),
        read.flags() == info.flags(),
{
}

impl<T: Clone + Default> Default for RecursiveInfo<T> {
    fn default() -> (info: Self)
        ensures
            info.flags() == Set::<nat>::empty(),
            T::default.ensures((), info.carried()),
    {
        Self::new()
    }
}

} // verus!
