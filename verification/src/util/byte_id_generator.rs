//! Byte identifiers: an index written as a fixed number of bytes, most
//! significant byte first.

use vstd::arithmetic::div_mod::lemma_mod_breakdown;
use vstd::arithmetic::power2::{lemma2_to64, lemma_pow2_adds, pow2};
use vstd::prelude::*;

verus! {

//================================================================================
// Model
//================================================================================

/// How many identifiers of `num_bytes` bytes there are: 256 to that power.
pub open spec fn id_count(num_bytes: nat) -> nat
    decreases num_bytes,
{
    if num_bytes == 0 {
        1
    } else {
        256 * id_count((num_bytes - 1) as nat)
    }
}

/// The fewest bytes in which `idx` can be written: its number of base-256 digits.
pub open spec fn min_bytes(idx: nat) -> nat
    decreases idx,
{
    if idx == 0 {
        0
    } else {
        1 + min_bytes(idx / 256)
    }
}

/// The `num_bytes` low-order base-256 digits of `idx`, most significant first.
pub open spec fn id_bytes(idx: nat, num_bytes: nat) -> Seq<u8>
    decreases num_bytes,
{
    if num_bytes == 0 {
        Seq::empty()
    } else {
        id_bytes(idx / 256, (num_bytes - 1) as nat).push((idx % 256) as u8)
    }
}

/// The number that `bytes` spell when read most significant byte first.
pub open spec fn id_value(bytes: Seq<u8>) -> nat
    decreases bytes.len(),
{
    if bytes.len() == 0 {
        0
    } else {
        256 * id_value(bytes.drop_last()) + bytes.last() as nat
    }
}

//================================================================================
// Laws
//================================================================================

/// `id_count(n)` is two to the power `8 * n`.
pub proof fn lemma_id_count_is_pow2(num_bytes: nat)
    ensures
        id_count(num_bytes) == pow2(8 * num_bytes),
    decreases num_bytes,
{
    lemma2_to64();
    if num_bytes > 0 {
        lemma_id_count_is_pow2((num_bytes - 1) as nat);
        lemma_pow2_adds(8, (8 * (num_bytes - 1)) as nat);
    }
}

/// Eight bytes hold every `u64`, and the counts for fewer bytes fit in a `u64`.
pub proof fn lemma_id_count_values()
    ensures
        id_count(0) == 1,
        id_count(1) == 0x100,
        id_count(2) == 0x1_0000,
        id_count(3) == 0x100_0000,
        id_count(4) == 0x1_0000_0000,
        id_count(5) == 0x100_0000_0000,
        id_count(6) == 0x1_0000_0000_0000,
        id_count(7) == 0x100_0000_0000_0000,
        id_count(8) == 0x1_0000_0000_0000_0000,
{
    reveal_with_fuel(id_count, 9);
}

/// More bytes never give fewer identifiers.
pub proof fn lemma_id_count_increases(a: nat, b: nat)
    requires
        a <= b,
    ensures
        0 < id_count(a) <= id_count(b),
    decreases b,
{
    if b == 0 {
    } else if a == b {
        lemma_id_count_increases(0, (b - 1) as nat);
    } else {
        lemma_id_count_increases(a, (b - 1) as nat);
    }
}

/// `min_bytes(idx)` bytes are enough for `idx`, and one byte fewer is not.
pub proof fn lemma_min_bytes_is_least(idx: nat)
    ensures
        idx < id_count(min_bytes(idx)),
        min_bytes(idx) > 0 ==> id_count((min_bytes(idx) - 1) as nat) <= idx,
    decreases idx,
{
    if idx > 0 {
        lemma_min_bytes_is_least(idx / 256);
    }
}

/// An index that fits in `num_bytes` bytes needs no more than that many.
pub proof fn lemma_min_bytes_bound(idx: nat, num_bytes: nat)
    requires
        idx < id_count(num_bytes),
    ensures
        min_bytes(idx) <= num_bytes,
    decreases idx,
{
    if idx > 0 {
        lemma_min_bytes_bound(idx / 256, (num_bytes - 1) as nat);
    }
}

/// The width that the two bounds of `lemma_min_bytes_is_least` allow is unique.
pub proof fn lemma_min_bytes_unique(idx: nat, num_bytes: nat)
    requires
        idx < id_count(num_bytes),
        num_bytes > 0 ==> id_count((num_bytes - 1) as nat) <= idx,
    ensures
        num_bytes == min_bytes(idx),
{
    lemma_min_bytes_bound(idx, num_bytes);
    lemma_min_bytes_is_least(idx);
    if min_bytes(idx) < num_bytes {
        lemma_id_count_increases(min_bytes(idx), (num_bytes - 1) as nat);
    }
}

/// An identifier has as many bytes as were asked for.
pub proof fn lemma_id_bytes_len(idx: nat, num_bytes: nat)
    ensures
        id_bytes(idx, num_bytes).len() == num_bytes,
    decreases num_bytes,
{
    if num_bytes > 0 {
        lemma_id_bytes_len(idx / 256, (num_bytes - 1) as nat);
    }
}

/// Reading an identifier back gives the index it was made from, as long as
/// the index fits in the identifier's width.
pub proof fn lemma_id_round_trip(idx: nat, num_bytes: nat)
    requires
        idx < id_count(num_bytes),
    ensures
        id_value(id_bytes(idx, num_bytes)) == idx,
    decreases num_bytes,
{
    if num_bytes > 0 {
        let high = id_bytes(idx / 256, (num_bytes - 1) as nat);
        lemma_id_round_trip(idx / 256, (num_bytes - 1) as nat);
        assert(id_bytes(idx, num_bytes).drop_last() == high);
    }
}

/// Reading back the identifier of any index gives the index cut down to the
/// identifier's width: what does not fit is lost from the top.
pub proof fn lemma_id_truncates(idx: nat, num_bytes: nat)
    ensures
        id_value(id_bytes(idx, num_bytes)) == idx % id_count(num_bytes),
    decreases num_bytes,
{
    if num_bytes > 0 {
        let rest = (num_bytes - 1) as nat;
        let high = id_bytes(idx / 256, rest);
        lemma_id_truncates(idx / 256, rest);
        assert(id_bytes(idx, num_bytes).drop_last() == high);
        lemma_id_count_increases(0, rest);
        lemma_mod_breakdown(idx as int, 256, id_count(rest) as int);
    }
}

/// Two indices that fit in `num_bytes` bytes and have the same identifier are
/// the same index.
pub proof fn lemma_id_bytes_injective(a: nat, b: nat, num_bytes: nat)
    requires
        a < id_count(num_bytes),
        b < id_count(num_bytes),
        id_bytes(a, num_bytes) == id_bytes(b, num_bytes),
    ensures
        a == b,
{
    lemma_id_round_trip(a, num_bytes);
    lemma_id_round_trip(b, num_bytes);
}

//================================================================================
// Stateless Functions
//================================================================================

/// The largest index that `byte_count` bytes can hold, or the largest `u64`
/// where every `u64` fits.
fn largest_index(byte_count: u32) -> (max: u64)
    ensures
        byte_count < 8 ==> max == id_count(byte_count as nat) - 1,
        byte_count >= 8 ==> max == u64::MAX,
{
    proof {
        lemma_id_count_values();
    }
    let mut max: u64 = 0;
    let mut i: u32 = 0;
    while i < byte_count && i < 8
        invariant
            i <= 8,
            i <= byte_count,
            max == id_count(i as nat) - 1,
            id_count(8) == 0x1_0000_0000_0000_0000,
        decreases 8 - i,
    {
        proof {
            lemma_id_count_increases((i + 1) as nat, 8);
        }
        max = max * 256 + 255;
        i = i + 1;
    }
    max
}

/// Get the byte identifier of `idx`, written in `byte_count` bytes.
///
/// Fails when `idx` is larger than `byte_count` bytes can hold.
pub fn get_id(idx: u64, byte_count: u32) -> (id: Result<Vec<u8>, &'static str>)
    ensures
        id is Ok <==> idx < id_count(byte_count as nat),
        id matches Ok(bytes) ==> bytes@ == id_bytes(idx as nat, byte_count as nat),
{
    proof {
        lemma_id_count_values();
        if byte_count >= 8 {
            lemma_id_count_increases(8, byte_count as nat);
        }
    }
    if idx > largest_index(byte_count) {
        Err("Tried to get a byte id larger than allowed bytes would allow")
    } else {
        Ok(get_id_unchecked(idx, byte_count))
    }
}

/// Get the byte identifier of `idx`, written in `byte_count` bytes, without
/// checking that `idx` fits.
///
/// An index that does not fit loses its high bytes: the result is then the
/// identifier of `idx % id_count(byte_count)` (see [`lemma_id_truncates`]).
pub fn get_id_unchecked(idx: u64, byte_count: u32) -> (id: Vec<u8>)
    ensures
        id@ == id_bytes(idx as nat, byte_count as nat),
{
    let n: usize = byte_count as usize;
    let mut id: Vec<u8> = vec![0u8; n];
    let mut rest: u64 = idx;
    let mut i: usize = n;
    while i > 0
        invariant
            i <= n,
            id@.len() == n,
            id_bytes(idx as nat, n as nat) == id_bytes(rest as nat, i as nat) + id@.subrange(
                i as int,
                n as int,
            ),
        decreases i,
    {
        let ghost before = id@;
        i = i - 1;
        id.set(i, (rest % 256) as u8);
        proof {
            assert(id@.subrange(i as int, n as int) == seq![(rest % 256) as u8] + before.subrange(
                i + 1,
                n as int,
            ));
        }
        rest = rest / 256;
    }
    assert(id@.subrange(0, n as int) == id@);
    id
}

//================================================================================
// Stateful Generator
//================================================================================

/// Generates the byte identifiers of the indices from zero up to a maximum,
/// all written in the fewest bytes that can hold the maximum.
///
/// For example the indices of `[A, C, T, G]` become `[0x0]`, `[0x1]`, `[0x2]`
/// and `[0x3]`, and `0x345678` becomes `[0x34, 0x56, 0x78]`.
pub struct ByteIdGenerator {
    /// The maximum index that will be required
    max: u64,
    /// The number of bytes used for the encoding
    num_bytes: u32,
}

impl ByteIdGenerator {
    /// The width is the least one that holds the maximum.
    #[verifier::type_invariant]
    spec fn well_formed(&self) -> bool {
        self.num_bytes == min_bytes(self.max as nat)
    }

    /// The maximum index, as contracts see it.
    pub closed spec fn spec_max(&self) -> u64 {
        self.max
    }

    /// The number of bytes of each identifier, as contracts see it.
    pub closed spec fn spec_num_bytes(&self) -> u32 {
        self.num_bytes
    }

    /// Create a generator for the indices from 0 to `max_idx` inclusive. Its
    /// identifiers have the fewest bytes that can hold `max_idx`: none for a
    /// maximum of zero, at most eight.
    pub fn from_max(max_idx: u64) -> (generator: ByteIdGenerator)
        ensures
            generator.spec_max() == max_idx,
            generator.spec_num_bytes() == min_bytes(max_idx as nat),
            generator.spec_num_bytes() <= 8,
            max_idx < id_count(generator.spec_num_bytes() as nat),
            generator.spec_num_bytes() > 0 ==> id_count((generator.spec_num_bytes() - 1) as nat)
                <= max_idx,
    {
        proof {
            lemma_id_count_values();
            lemma_min_bytes_bound(max_idx as nat, 8);
            lemma_min_bytes_is_least(max_idx as nat);
        }
        let mut num_bytes: u32 = 0;
        let mut rest: u64 = max_idx;
        while rest > 0
            invariant
                num_bytes + min_bytes(rest as nat) == min_bytes(max_idx as nat),
                min_bytes(max_idx as nat) <= 8,
            decreases rest,
        {
            rest = rest / 256;
            num_bytes = num_bytes + 1;
        }
        ByteIdGenerator { max: max_idx, num_bytes }
    }

    /// Create a generator whose identifiers have `num_bytes` bytes, for the
    /// indices from 0 up to the largest that `num_bytes` bytes can hold.
    ///
    /// More than eight bytes would hold indices that no `u64` can name.
    pub fn from_byte_count(num_bytes: u32) -> (generator: ByteIdGenerator)
        requires
            num_bytes <= 8,
        ensures
            generator.spec_num_bytes() == num_bytes,
            generator.spec_max() == id_count(num_bytes as nat) - 1,
    {
        let max = largest_index(num_bytes);
        proof {
            lemma_id_count_values();
            lemma_id_count_increases(0, num_bytes as nat);
            if num_bytes > 0 {
                lemma_id_count_increases((num_bytes - 1) as nat, (num_bytes - 1) as nat);
            }
            lemma_min_bytes_unique(max as nat, num_bytes as nat);
        }
        ByteIdGenerator { max, num_bytes }
    }

    /// Get the maximum index this generator will generate an id for
    #[verifier::when_used_as_spec(spec_max)]
    pub fn max(&self) -> (max: u64)
        ensures
            max == self.spec_max(),
    {
        self.max
    }

    /// Get the number of bytes this generator will encode with
    #[verifier::when_used_as_spec(spec_num_bytes)]
    pub fn num_bytes(&self) -> (num_bytes: u32)
        ensures
            num_bytes == self.spec_num_bytes(),
            num_bytes == min_bytes(self.spec_max() as nat),
            num_bytes <= 8,
    {
        proof {
            use_type_invariant(self);
            lemma_id_count_values();
            lemma_min_bytes_bound(self.max as nat, 8);
        }
        self.num_bytes
    }

    /// Get the byte identifier of `idx` in this generator's width.
    ///
    /// Fails when `idx` is larger than the generator's maximum.
    pub fn get_id(&self, idx: u64) -> (id: Result<Vec<u8>, &'static str>)
        ensures
            id is Ok <==> idx <= self.spec_max(),
            id matches Ok(bytes) ==> bytes@ == id_bytes(idx as nat, self.spec_num_bytes() as nat),
    {
        if idx > self.max {
            Err("Tried to get a byte id larger than max generator size")
        } else {
            Ok(get_id_unchecked(idx, self.num_bytes))
        }
    }

    /// Get the byte identifier of `idx` in this generator's width, without
    /// checking `idx` against the maximum.
    ///
    /// An index that does not fit in the width loses its high bytes (see
    /// [`lemma_id_truncates`]).
    pub fn get_id_unchecked(&self, idx: u64) -> (id: Vec<u8>)
        ensures
            id@ == id_bytes(idx as nat, self.spec_num_bytes() as nat),
    {
        get_id_unchecked(idx, self.num_bytes)
    }

    /// Every identifier of this generator, in counting order: that of 0
    /// first, that of the maximum last.
    pub open spec fn ids(&self) -> Seq<Seq<u8>> {
        Seq::new(
            (self.spec_max() + 1) as nat,
            |idx: int| id_bytes(idx as nat, self.spec_num_bytes() as nat),
        )
    }

    /// Start a fresh walk over the identifiers of this generator.
    pub fn iter(&self) -> (iter: ByteIdIter<'_>)
        ensures
            iter.remaining() == self.ids(),
            iter.generator() == self,
    {
        ByteIdIter { index: 0, finished: false, generator: self }
    }
}

//================================================================================
// Iteration
//================================================================================

/// `num_traits::ToPrimitive::to_usize` on a `u64`: the same number as a
/// `usize` where a `usize` can hold it, nothing where it cannot.
#[verifier::external_body]
fn to_usize(value: u64) -> (converted: Option<usize>)
    ensures
        converted == (if value <= usize::MAX {
            Some(value as usize)
        } else {
            None
        }),
{
    num_traits::ToPrimitive::to_usize(&value)
}

/// A walk over the identifiers of a [`ByteIdGenerator`], from that of 0 to
/// that of the generator's maximum.
pub struct ByteIdIter<'a> {
    /// The index whose identifier comes next, unless the walk is over.
    index: u64,
    /// Whether the identifier of the maximum has been handed out.
    finished: bool,
    generator: &'a ByteIdGenerator,
}

impl<'a> ByteIdIter<'a> {
    /// The next index never passes the generator's maximum.
    #[verifier::type_invariant]
    spec fn well_formed(&self) -> bool {
        !self.finished ==> self.index <= self.generator.spec_max()
    }

    /// The generator whose identifiers this walk hands out.
    pub closed spec fn generator(&self) -> &ByteIdGenerator {
        self.generator
    }

    /// The identifiers that are still to come, in the order they will come.
    pub closed spec fn remaining(&self) -> Seq<Seq<u8>> {
        if self.finished {
            Seq::empty()
        } else {
            self.generator.ids().skip(self.index as int)
        }
    }

    /// Hand out the next identifier, or nothing once the identifier of the
    /// generator's maximum has been handed out.
    pub fn next(&mut self) -> (id: Option<Vec<u8>>)
        ensures
            final(self).generator() == old(self).generator(),
            match id {
                Some(bytes) => old(self).remaining().len() > 0 && bytes@ == old(
                    self,
                ).remaining().first() && final(self).remaining() == old(
                    self,
                ).remaining().drop_first(),
                None => old(self).remaining().len() == 0 && final(self).remaining() == old(
                    self,
                ).remaining(),
            },
    {
        proof {
            use_type_invariant(&*self);
        }
        if self.finished {
            return None;
        }
        let id = self.generator.get_id_unchecked(self.index);
        let ghost before = self.remaining();
        if self.index == self.generator.max() {
            self.finished = true;
        } else {
            self.index = self.index + 1;
        }
        proof {
            assert(self.remaining() == before.drop_first());
        }
        Some(id)
    }

    /// Bounds on the number of identifiers that come after the next one: the
    /// exact number twice where a `usize` can hold it, otherwise the largest
    /// `usize` and no upper bound. Both are zero once the walk is over.
    pub fn size_hint(&self) -> (hint: (usize, Option<usize>))
        ensures
            hint == size_hint_of(self.remaining().len()),
    {
        proof {
            use_type_invariant(self);
        }
        if self.finished {
            return (0, Some(0));
        }
        match to_usize(self.generator.max() - self.index) {
            Some(size) => (size, Some(size)),
            None => (usize::MAX, None),
        }
    }
}

/// What [`ByteIdIter::size_hint`] reports when `remaining` identifiers are
/// still to come.
pub open spec fn size_hint_of(remaining: nat) -> (usize, Option<usize>) {
    if remaining == 0 {
        (0, Some(0))
    } else if remaining - 1 <= usize::MAX {
        ((remaining - 1) as usize, Some((remaining - 1) as usize))
    } else {
        (usize::MAX, None)
    }
}

} // verus!

