//! Text as characters over its UTF-8 bytes: where each character starts,
//! and whether two pieces of text are the same.

use vstd::prelude::*;
use vstd::string::StringSliceAdditionalSpecFns;
use vstd::utf8::{
    encode_scalar, encode_utf8, encode_utf8_decode_utf8, encode_utf8_first_scalar,
    encode_utf8_valid_utf8, is_char_boundary, length_of_first_scalar, pop_first_scalar,
};

verus! {

//================================================================================
// Model
//================================================================================

/// The characters of each string of `strs`.
pub open spec fn str_views(strs: Seq<&str>) -> Seq<Seq<char>> {
    strs.map_values(|s: &str| s@)
}

/// The byte at which character `k` of `chars` starts in the UTF-8 form of
/// `chars`; for `k == chars.len()`, the length of that form.
pub open spec fn byte_offset(chars: Seq<char>, k: int) -> int {
    encode_utf8(chars.take(k)).len() as int
}

//================================================================================
// Laws
//================================================================================

/// The UTF-8 form of a text is the forms of its parts, one after the other.
pub proof fn lemma_encode_concat(a: Seq<char>, b: Seq<char>)
    ensures
        encode_utf8(a + b) == encode_utf8(a) + encode_utf8(b),
    decreases a.len(),
{
    if a.len() == 0 {
        assert(a + b == b);
    } else {
        lemma_encode_concat(a.drop_first(), b);
        assert((a + b).drop_first() == a.drop_first() + b);
    }
}

/// Texts with the same UTF-8 form are the same text.
pub proof fn lemma_encode_injective(a: Seq<char>, b: Seq<char>)
    requires
        encode_utf8(a) == encode_utf8(b),
    ensures
        a == b,
{
    encode_utf8_decode_utf8(a);
    encode_utf8_decode_utf8(b);
}

/// Character `k` starts where the characters before it end, and takes
/// between one and four bytes.
pub proof fn lemma_byte_offset_step(chars: Seq<char>, k: int)
    requires
        0 <= k < chars.len(),
    ensures
        byte_offset(chars, 0) == 0,
        byte_offset(chars, k + 1) == byte_offset(chars, k) + encode_scalar(chars[k] as u32).len(),
        1 <= encode_scalar(chars[k] as u32).len() <= 4,
{
    let one = seq![chars[k]];
    assert(chars.take(k + 1) == chars.take(k) + one);
    lemma_encode_concat(chars.take(k), one);
    assert(one.drop_first() == Seq::<char>::empty());
    assert(encode_utf8(one) == encode_scalar(chars[k] as u32)) by {
        reveal_with_fuel(encode_utf8, 2);
    }
}

/// Offsets grow with the character index, and the last one is the length of
/// the whole UTF-8 form.
pub proof fn lemma_byte_offset_increases(chars: Seq<char>, j: int, k: int)
    requires
        0 <= j <= k <= chars.len(),
    ensures
        byte_offset(chars, j) + (k - j) <= byte_offset(chars, k) <= encode_utf8(chars).len(),
        byte_offset(chars, chars.len() as int) == encode_utf8(chars).len(),
    decreases chars.len() - j,
{
    assert(chars.take(chars.len() as int) == chars);
    if j < k {
        lemma_byte_offset_step(chars, j);
        lemma_byte_offset_increases(chars, j + 1, k);
    } else if k < chars.len() {
        lemma_byte_offset_step(chars, k);
        lemma_byte_offset_increases(chars, k + 1, chars.len() as int);
    }
}

/// Cutting the UTF-8 form at the offset of character `k` leaves the form of
/// the first `k` characters before the cut and that of the others after it.
pub proof fn lemma_split_at_byte_offset(chars: Seq<char>, k: int)
    requires
        0 <= k <= chars.len(),
    ensures
        encode_utf8(chars).subrange(0, byte_offset(chars, k)) == encode_utf8(chars.take(k)),
        encode_utf8(chars).subrange(byte_offset(chars, k), encode_utf8(chars).len() as int)
            == encode_utf8(chars.skip(k)),
{
    assert(chars == chars.take(k) + chars.skip(k));
    lemma_encode_concat(chars.take(k), chars.skip(k));
    let whole = encode_utf8(chars.take(k)) + encode_utf8(chars.skip(k));
    assert(whole.subrange(0, byte_offset(chars, k)) == encode_utf8(chars.take(k)));
    assert(whole.subrange(byte_offset(chars, k), whole.len() as int) == encode_utf8(
        chars.skip(k),
    ));
}

/// The character boundaries of a UTF-8 form are the offsets of its
/// characters and its end: each offset is a boundary, and no byte strictly
/// inside a character is one.
pub proof fn lemma_boundaries_are_offsets(chars: Seq<char>, k: int)
    requires
        0 <= k <= chars.len(),
    ensures
        is_char_boundary(encode_utf8(chars), byte_offset(chars, k)),
        k < chars.len() ==> forall|i: int|
            byte_offset(chars, k) < i < byte_offset(chars, k + 1) ==> !is_char_boundary(
                encode_utf8(chars),
                i,
            ),
    decreases k,
{
    let bytes = encode_utf8(chars);
    encode_utf8_valid_utf8(chars);
    lemma_byte_offset_increases(chars, 0, k);
    if chars.len() > 0 {
        let tail = chars.drop_first();
        let first = length_of_first_scalar(bytes);
        encode_utf8_first_scalar(chars);
        assert(pop_first_scalar(bytes) == encode_utf8(tail));
        lemma_byte_offset_step(chars, 0);
        assert(chars.take(0) == Seq::<char>::empty());
        assert(byte_offset(chars, 1) == first);
        if k == 0 {
            assert forall|i: int| 0 < i < first implies !is_char_boundary(bytes, i) by {
                reveal_with_fuel(is_char_boundary, 2);
                encode_utf8_valid_utf8(tail);
            }
        } else {
            lemma_boundaries_are_offsets(tail, k - 1);
            lemma_offset_of_tail(chars, k);
            lemma_byte_offset_increases(chars, 1, k);
            if k < chars.len() {
                lemma_offset_of_tail(chars, k + 1);
                assert forall|i: int|
                    byte_offset(chars, k) < i < byte_offset(chars, k + 1) implies !is_char_boundary(
                    bytes,
                    i,
                ) by {
                    lemma_byte_offset_increases(chars, k + 1, chars.len() as int);
                    assert(!is_char_boundary(encode_utf8(tail), i - first));
                }
            }
        }
    }
}

/// The offsets of a text are those of the text without its first character,
/// moved up by the length of that character.
proof fn lemma_offset_of_tail(chars: Seq<char>, k: int)
    requires
        1 <= k <= chars.len(),
    ensures
        byte_offset(chars, k) == encode_scalar(chars[0] as u32).len() + byte_offset(
            chars.drop_first(),
            k - 1,
        ),
{
    assert(chars.take(k).drop_first() == chars.drop_first().take(k - 1));
}

//================================================================================
// Functions
//================================================================================

/// Whether `a` and `b` are the same text.
pub fn str_eq(a: &str, b: &str) -> (same: bool)
    ensures
        same == (a@ == b@),
{
    let left = a.as_bytes();
    let right = b.as_bytes();
    if left.len() != right.len() {
        return false;
    }
    let mut i: usize = 0;
    while i < left.len()
        invariant
            i <= left.len(),
            left.len() == right.len(),
            left@ == a.spec_bytes(),
            right@ == b.spec_bytes(),
            forall|j: int| 0 <= j < i ==> left@[j] == right@[j],
        decreases left.len() - i,
    {
        if left[i] != right[i] {
            return false;
        }
        i = i + 1;
    }
    proof {
        assert(left@ == right@);
        lemma_encode_injective(a@, b@);
    }
    true
}

/// The first place of `symbol` in `symbols`, or nothing where it is not
/// among them.
pub fn position(symbols: &[&str], symbol: &str) -> (place: Option<usize>)
    ensures
        match place {
            Some(i) => i < symbols@.len() && symbols@[i as int]@ == symbol@ && forall|j: int|
                0 <= j < i ==> symbols@[j]@ != symbol@,
            None => !str_views(symbols@).contains(symbol@),
        },
{
    let mut i: usize = 0;
    while i < symbols.len()
        invariant
            i <= symbols@.len(),
            forall|j: int| 0 <= j < i ==> symbols@[j]@ != symbol@,
        decreases symbols@.len() - i,
    {
        if str_eq(symbols[i], symbol) {
            return Some(i);
        }
        i = i + 1;
    }
    proof {
        let views = str_views(symbols@);
        assert forall|j: int| 0 <= j < views.len() implies views[j] != symbol@ by {
            assert(views[j] == symbols@[j]@);
        }
    }
    None
}

/// The last place of `symbol` among the first `limit` of `symbols`, or
/// nothing where it is not among them.
pub fn last_position(symbols: &[&str], limit: usize, symbol: &str) -> (place: Option<usize>)
    ensures
        match place {
            Some(i) => i < symbols@.len() && i < limit && symbols@[i as int]@ == symbol@
                && forall|j: int|
                i < j < symbols@.len() && j < limit ==> symbols@[j]@ != symbol@,
            None => forall|j: int|
                0 <= j < symbols@.len() && j < limit ==> symbols@[j]@ != symbol@,
        },
{
    let mut i: usize = if limit < symbols.len() {
        limit
    } else {
        symbols.len()
    };
    while i > 0
        invariant
            i <= symbols@.len(),
            i <= limit,
            forall|j: int| i <= j < symbols@.len() && j < limit ==> symbols@[j]@ != symbol@,
        decreases i,
    {
        i = i - 1;
        if str_eq(symbols[i], symbol) {
            return Some(i);
        }
    }
    None
}

/// The byte at which the first `count` characters of `text` end, or nothing
/// where `text` has fewer than `count` characters.
pub fn chars_end(text: &str, count: usize) -> (end: Option<usize>)
    ensures
        match end {
            Some(end) => count <= text@.len() && end == byte_offset(text@, count as int),
            None => text@.len() < count,
        },
{
    let len = text.as_bytes().len();
    let mut end: usize = 0;
    let mut seen: usize = 0;
    proof {
        assert(text@.take(0) == Seq::<char>::empty());
        lemma_byte_offset_increases(text@, 0, 0);
    }
    while seen < count
        invariant
            seen <= count,
            seen <= text@.len(),
            end == byte_offset(text@, seen as int),
            len == encode_utf8(text@).len(),
        decreases count - seen,
    {
        proof {
            lemma_byte_offset_increases(text@, seen as int, text@.len() as int);
        }
        if end == len {
            return None;
        }
        let ghost next = byte_offset(text@, seen + 1);
        proof {
            lemma_byte_offset_step(text@, seen as int);
            lemma_byte_offset_increases(text@, seen + 1, text@.len() as int);
            lemma_boundaries_are_offsets(text@, seen as int);
            lemma_boundaries_are_offsets(text@, seen + 1);
        }
        end = end + 1;
        while !text.is_char_boundary(end)
            invariant
                byte_offset(text@, seen as int) < end <= next <= len,
                is_char_boundary(encode_utf8(text@), next),
                forall|i: int|
                    byte_offset(text@, seen as int) < i < next ==> !is_char_boundary(
                        encode_utf8(text@),
                        i,
                    ),
            decreases next - end,
        {
            end = end + 1;
        }
        seen = seen + 1;
    }
    Some(end)
}

} // verus!
