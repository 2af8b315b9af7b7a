//! A fixed-capacity vector of one-bit flags laid over a borrowed byte region.
//!
//! Bit `i` lives in byte `i / 8` at position `i % 8`, least significant bit
//! first. The mathematical model of a bitmap is a `Seq<bool>` whose length is
//! eight times the length of the byte region.

use vstd::prelude::*;

verus! {

/// Whether bit `k` (counted from the least significant bit) of `byte` is set.
pub open spec fn bit_of(byte: u8, k: u8) -> bool {
    byte & (1u8 << k) != 0
}

/// The flags that a byte region stores: eight per byte, lowest bit first.
pub open spec fn bits_of(bytes: Seq<u8>) -> Seq<bool> {
    Seq::new((8 * bytes.len()) as nat, |i: int| bit_of(bytes[i / 8], (i % 8) as u8))
}

/// A region of `len` bytes, each equal to `value`.
pub open spec fn filled(len: nat, value: u8) -> Seq<u8> {
    Seq::new(len, |i: int| value)
}

/// Reading a flag: indices outside the sequence read as `false`.
pub open spec fn flag_at(bits: Seq<bool>, index: int) -> bool {
    0 <= index < bits.len() && bits[index]
}

/// Writing a flag: indices outside the sequence leave it as it is.
pub open spec fn with_flag(bits: Seq<bool>, index: int, value: bool) -> Seq<bool> {
    if 0 <= index < bits.len() {
        bits.update(index, value)
    } else {
        bits
    }
}

/// The upper end of the range that a search from `start` to `end` covers in
/// a sequence of `len` flags.
pub open spec fn search_end(len: int, end: int) -> int {
    if end < len {
        end
    } else {
        len
    }
}

/// What a search for the first clear flag in `[start, min(end, len))` yields.
pub open spec fn first_clear(bits: Seq<bool>, start: int, end: int, found: Option<usize>) -> bool {
    match found {
        Some(i) => {
            &&& start <= i < search_end(bits.len() as int, end)
            &&& !bits[i as int]
            &&& forall|j: int| start <= j < i ==> bits[j]
        },
        None => forall|j: int| start <= j < search_end(bits.len() as int, end) ==> bits[j],
    }
}

proof fn lemma_bit_after_or(byte: u8, k: u8, j: u8)
    requires
        k < 8,
        j < 8,
    ensures
        bit_of(byte | (1u8 << k), j) == (j == k || bit_of(byte, j)),
{
    assert(((byte | (1u8 << k)) & (1u8 << j) != 0) == (j == k || (byte & (1u8 << j) != 0)))
        by (bit_vector)
        requires
            k < 8,
            j < 8,
    ;
}

proof fn lemma_bit_after_and_not(byte: u8, k: u8, j: u8)
    requires
        k < 8,
        j < 8,
    ensures
        bit_of(byte & !(1u8 << k), j) == (j != k && bit_of(byte, j)),
{
    assert(((byte & !(1u8 << k)) & (1u8 << j) != 0) == (j != k && (byte & (1u8 << j) != 0)))
        by (bit_vector)
        requires
            k < 8,
            j < 8,
    ;
}

/// Replacing byte `index / 8` by one that differs from it in bit `index % 8`
/// alone is the same as updating flag `index`.
proof fn lemma_update_byte(bytes: Seq<u8>, index: int, byte: u8, value: bool)
    requires
        0 <= index < 8 * bytes.len(),
        forall|j: u8|
            j < 8 ==> bit_of(byte, j) == (if j == index % 8 {
                value
            } else {
                bit_of(bytes[index / 8], j)
            }),
    ensures
        bits_of(bytes.update(index / 8, byte)) == bits_of(bytes).update(index, value),
{
    let after = bits_of(bytes.update(index / 8, byte));
    let expected = bits_of(bytes).update(index, value);
    assert forall|i: int| 0 <= i < after.len() implies after[i] == expected[i] by {
        let j = (i % 8) as u8;
        if i / 8 == index / 8 {
            assert(j < 8);
            if i != index {
                assert(i % 8 != index % 8);
            }
        }
    }
    assert(after =~= expected);
}

/// A bitmap that was just laid over a region of `len` bytes has eight flags
/// per byte, and every one of them reads as clear.
pub proof fn lemma_fresh_bitmap(len: nat)
    ensures
        bits_of(filled(len, 0x00)).len() == 8 * len,
        forall|i: int| !flag_at(bits_of(filled(len, 0x00)), i),
{
    assert forall|i: int| !flag_at(bits_of(filled(len, 0x00)), i) by {
        if 0 <= i < 8 * len {
            lemma_fill(len, i);
        }
    }
}

/// A flag that was written at a valid index reads back as written, and
/// writing the same value again changes nothing.
pub proof fn lemma_set_then_get(bits: Seq<bool>, index: int, value: bool)
    requires
        0 <= index < bits.len(),
    ensures
        flag_at(with_flag(bits, index, value), index) == value,
        with_flag(with_flag(bits, index, value), index, value) == with_flag(bits, index, value),
        with_flag(bits, index, value).len() == bits.len(),
        forall|other: int|
            other != index ==> flag_at(with_flag(bits, index, value), other) == flag_at(
                bits,
                other,
            ),
{
    assert(with_flag(with_flag(bits, index, value), index, value) =~= with_flag(
        bits,
        index,
        value,
    ));
}

/// At or beyond the end of the flags a read gives `false` and a write
/// changes nothing.
pub proof fn lemma_out_of_range(bits: Seq<bool>, index: int, value: bool)
    requires
        index >= bits.len(),
    ensures
        !flag_at(bits, index),
        with_flag(bits, index, value) == bits,
{
}

/// After every byte was overwritten with `0xff` every flag reads as set, and
/// after every byte was overwritten with `0x00` every flag reads as clear.
pub proof fn lemma_fill(len: nat, index: int)
    requires
        0 <= index < 8 * len,
    ensures
        flag_at(bits_of(filled(len, 0xff)), index),
        !flag_at(bits_of(filled(len, 0x00)), index),
{
    let k = (index % 8) as u8;
    assert(0xffu8 & (1u8 << k) != 0) by (bit_vector)
        requires
            k < 8,
    ;
    assert(0u8 & (1u8 << k) == 0) by (bit_vector);
}

/// What a search yields is the smallest clear index of its range; it yields
/// nothing exactly when every flag of the range is set, and so always for
/// the empty range from 0 to 0.
pub proof fn lemma_first_clear(bits: Seq<bool>, start: nat, end: nat, found: Option<usize>)
    requires
        first_clear(bits, start as int, end as int, found),
    ensures
        found matches Some(i) ==> forall|j: int|
            start <= j < search_end(bits.len() as int, end as int) && !bits[j] ==> i <= j,
        found is None <==> forall|j: int|
            start <= j < search_end(bits.len() as int, end as int) ==> bits[j],
        start == 0 && end == 0 ==> found is None,
{
}

/// A bitmap over a borrowed byte region. The region is never resized, and
/// the number of flags is always eight times its length in bytes.
pub struct Bitmap<'a> {
    data: &'a mut [u8],
    entry_count: usize,
}

impl<'a> View for Bitmap<'a> {
    type V = Seq<bool>;

    closed spec fn view(&self) -> Seq<bool> {
        bits_of(self.data@)
    }
}

impl<'a> Bitmap<'a> {
    #[verifier::type_invariant]
    spec fn well_formed(&self) -> bool {
        self.entry_count == 8 * self.data@.len()
    }

    /// Lays a bitmap over `region` and clears it: every flag of a fresh
    /// bitmap is clear, whatever the region held before.
    pub fn from_raw(region: &'a mut [u8]) -> (bitmap: Self)
        requires
            8 * old(region)@.len() <= usize::MAX,
        ensures
            bitmap@ == bits_of(filled(old(region)@.len(), 0x00)),
            bitmap@.len() == 8 * old(region)@.len(),
    {
        let size_bytes: usize = region.len();
        let mut i: usize = 0;
        while i < size_bytes
            invariant
                size_bytes == region@.len(),
                size_bytes == old(region)@.len(),
                i <= size_bytes,
                forall|j: int| 0 <= j < i ==> region@[j] == 0x00,
            decreases size_bytes - i,
        {
            region[i] = 0x00;
            i += 1;
        }
        assert(region@ =~= filled(size_bytes as nat, 0x00));
        Bitmap { data: region, entry_count: size_bytes * 8 }
    }

    /// The flag at `index`, or `false` where `index` is out of range.
    pub fn get(&self, index: usize) -> (value: bool)
        ensures
            value == flag_at(self@, index as int),
    {
        let byte_idx: usize = index / 8;
        let bit_idx: u8 = (index % 8) as u8;
        if byte_idx < self.data.len() {
            (self.data[byte_idx] & (1u8 << bit_idx)) != 0
        } else {
            false
        }
    }

    /// Sets or clears the flag at `index`; does nothing where `index` is out
    /// of range.
    pub fn set(&mut self, index: usize, value: bool)
        ensures
            final(self)@ == with_flag(old(self)@, index as int, value),
    {
        proof {
            use_type_invariant(&*self);
        }
        let byte_idx: usize = index / 8;
        let bit_idx: u8 = (index % 8) as u8;
        if byte_idx < self.data.len() {
            let byte: u8 = self.data[byte_idx];
            let mask: u8 = 1u8 << bit_idx;
            let updated: u8 = if value {
                byte | mask
            } else {
                byte & !mask
            };
            proof {
                assert forall|j: u8| j < 8 implies bit_of(updated, j) == (if j == index % 8 {
                    value
                } else {
                    bit_of(byte, j)
                }) by {
                    lemma_bit_after_or(byte, bit_idx, j);
                    lemma_bit_after_and_not(byte, bit_idx, j);
                }
                lemma_update_byte(self.data@, index as int, updated, value);
            }
            self.data[byte_idx] = updated;
        }
    }

    /// Overwrites every byte of the region with `value`.
    pub fn set_all(&mut self, value: u8)
        ensures
            final(self)@ == bits_of(filled((old(self)@.len() / 8) as nat, value)),
            final(self)@.len() == old(self)@.len(),
    {
        proof {
            use_type_invariant(&*self);
        }
        let n: usize = self.data.len();
        let mut i: usize = 0;
        while i < n
            invariant
                n == self.data@.len(),
                self.entry_count == 8 * n,
                i <= n,
                forall|j: int| 0 <= j < i ==> self.data@[j] == value,
            decreases n - i,
        {
            self.data[i] = value;
            i += 1;
        }
        assert(self.data@ =~= filled(n as nat, value));
    }

    /// The lowest index in `[start, min(end, bit_count()))` whose flag is
    /// clear, or `None` where every flag in that range is set.
    pub fn find_first_not_set(&self, start: usize, end: usize) -> (found: Option<usize>)
        ensures
            first_clear(self@, start as int, end as int, found),
    {
        proof {
            use_type_invariant(self);
        }
        let stop: usize = if end < self.entry_count {
            end
        } else {
            self.entry_count
        };
        let mut i: usize = start;
        while i < stop
            invariant
                start <= i,
                stop == search_end(self@.len() as int, end as int),
                forall|j: int| start <= j < i ==> self@[j],
            decreases stop - i,
        {
            if !self.get(i) {
                return Some(i);
            }
            i += 1;
        }
        None
    }

    /// The number of flags: eight times the size of the region in bytes.
    pub fn bit_count(&self) -> (count: usize)
        ensures
            count == self@.len(),
    {
        proof {
            use_type_invariant(self);
        }
        self.entry_count
    }
}

} // verus!
