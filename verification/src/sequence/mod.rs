//! Contains types that relate to storing a sequence.
//! A sequence is constructed using an
//! [`Alphabet`](crate::alphabet::Alphabet) of symbols.

pub use crate::alphabet::{Alphabet, Complement};

use crate::alphabet::encoding::index_encoder::{
    lemma_codes_are_in_table, lemma_index_table, mapping_of, may_map, AsciiIndexEncoder,
    ConstructionError,
};
use crate::alphabet::encoding::{
    all_encoded, holds_codes, is_encoding, joined, lemma_holds_more_codes, lemma_holds_no_codes,
    lemma_joined_single_bytes, may_encode, may_encode_all, may_report_size, outcome,
    AlphabetEncoder,
    EncodingError, EncodingResult, ErrorKind, ErrorKindView,
};
use crate::util::text::{
    chars_end, lemma_boundaries_are_offsets, lemma_encode_injective, lemma_split_at_byte_offset,
    str_views,
};
use std::marker::PhantomData;
use std::mem::swap;
use vstd::arithmetic::div_mod::lemma_fundamental_div_mod_converse_div;
use vstd::pervasive::unreached;
use vstd::prelude::*;
use vstd::slice::slice_subrange;
use vstd::string::{StrSliceExecFns, StringExecFns};

verus! {

//================================================================================
// Utility Functions
//================================================================================

/// The pieces of `chunk_size` characters that `text` is made of, in order
/// and from its first character on. Characters at the end that do not fill a
/// piece belong to none, and there are no pieces of no characters.
pub open spec fn chunks_of(text: Seq<char>, chunk_size: int) -> Seq<Seq<char>> {
    if chunk_size <= 0 {
        Seq::empty()
    } else {
        Seq::new(
            (text.len() as int / chunk_size) as nat,
            |k: int| text.subrange(k * chunk_size, (k + 1) * chunk_size),
        )
    }
}

/// Takes a string and splits it into chunks of `chunk_size` characters.
/// All chunks will be exactly `chunk_size` characters, any excess in the
/// string will not be included. Works with utf-8 strings: a chunk is cut
/// where a character starts, however many bytes the characters take.
///
/// There are no chunks of no characters.
pub fn string_chunks(src: &str, chunk_size: usize) -> (chunks: Vec<&str>)
    ensures
        str_views(chunks@) == chunks_of(src@, chunk_size as int),
{
    let mut chunks: Vec<&str> = Vec::new();
    if chunk_size == 0 {
        assert(str_views(chunks@) == Seq::<Seq<char>>::empty());
        return chunks;
    }
    let mut rest: &str = src;
    let ghost size = chunk_size as int;
    let ghost mut taken: int = 0;
    proof {
        assert(0 * size == 0) by (nonlinear_arith);
    }
    loop
        invariant_except_break
            rest@ == src@.skip(taken),
        invariant
            size == chunk_size > 0,
            0 <= taken <= src@.len(),
            taken == chunks@.len() * size,
            forall|k: int|
                0 <= k < chunks@.len() ==> (#[trigger] chunks@[k])@ == src@.subrange(
                    k * size,
                    (k + 1) * size,
                ),
        ensures
            src@.len() - taken < size,
        decreases src@.len() - taken,
    {
        match chars_end(rest, chunk_size) {
            None => {
                break ;
            },
            Some(end) => {
                proof {
                    lemma_boundaries_are_offsets(rest@, size);
                }
                let (chunk, tail) = rest.split_at(end);
                proof {
                    lemma_split_at_byte_offset(rest@, size);
                    lemma_encode_injective(chunk@, rest@.take(size));
                    lemma_encode_injective(tail@, rest@.skip(size));
                    assert(rest@.take(size) == src@.subrange(taken, taken + size));
                    assert(rest@.skip(size) == src@.skip(taken + size));
                    assert((chunks@.len() + 1) * size == chunks@.len() * size + size)
                        by (nonlinear_arith);
                    taken = taken + size;
                }
                chunks.push(chunk);
                rest = tail;
            },
        }
    }
    proof {
        lemma_fundamental_div_mod_converse_div(
            src@.len() as int,
            size,
            chunks@.len() as int,
            src@.len() - taken,
        );
        assert(str_views(chunks@) == chunks_of(src@, size));
    }
    chunks
}

//================================================================================
// Model
//================================================================================

/// Whether appending `text` with `encoder` to a buffer that holds `before`
/// may end in `pushed` and leave `after` in the buffer, where the alphabet
/// reports `symbol_size` characters per symbol.
///
/// A strict append refuses, with [`ErrorKind::InvalidLength`], a text whose
/// characters do not fill whole symbols. Otherwise the symbols that `text` is
/// made of are encoded and their codes appended, or, where a symbol cannot be
/// encoded, the error of that is handed on. Whatever fails leaves the buffer
/// as it was.
pub open spec fn appended<A: Alphabet, E: AlphabetEncoder<A>>(
    encoder: &E,
    before: Seq<u8>,
    text: Seq<char>,
    symbol_size: usize,
    strict: bool,
    pushed: EncodingResult<()>,
    after: Seq<u8>,
) -> bool {
    if strict && text.len() % (symbol_size as nat) != 0 {
        after == before && (pushed matches Err(error) && error.kind()@
            == ErrorKindView::InvalidLength)
    } else {
        exists|encoded: EncodingResult<Vec<u8>>|
            #[trigger] may_encode_all(encoder, chunks_of(text, symbol_size as int), encoded)
                && match encoded {
                Ok(bytes) => pushed is Ok && after == before + bytes@,
                Err(error) => pushed == Err::<(), EncodingError>(error) && after == before,
            }
    }
}

/// Whether appending `text` with `encoder` to a buffer that holds `before`
/// may end in `pushed` and leave `after` in the buffer, for a symbol size
/// that the alphabet of the encoder may report.
pub open spec fn may_push<A: Alphabet, E: AlphabetEncoder<A>>(
    encoder: &E,
    before: Seq<u8>,
    text: Seq<char>,
    strict: bool,
    pushed: EncodingResult<()>,
    after: Seq<u8>,
) -> bool {
    exists|symbol_size: usize|
        #[trigger] may_report_size(encoder, symbol_size) && appended(
            encoder,
            before,
            text,
            symbol_size,
            strict,
            pushed,
            after,
        )
}

/// Whether appending `text` with [`Sequence::push`] to a buffer that holds
/// `before` may succeed and leave `after` in the buffer.
pub open spec fn may_push_all<A: Alphabet, E: AlphabetEncoder<A>>(
    encoder: &E,
    before: Seq<u8>,
    text: Seq<char>,
    after: Seq<u8>,
) -> bool {
    exists|pushed: EncodingResult<()>|
        pushed is Ok && #[trigger] may_push(encoder, before, text, true, pushed, after)
}

/// Whether pushing `items` one after the other may end in `extended`, where
/// `buffers` holds what the buffer holds before the first push and after
/// each push that succeeds: either every item is pushed, or the pushes stop
/// at the first that fails, with its error.
pub open spec fn extension<A: Alphabet, E: AlphabetEncoder<A>>(
    encoder: &E,
    buffers: Seq<Seq<u8>>,
    items: Seq<Seq<char>>,
    extended: EncodingResult<()>,
) -> bool {
    &&& 1 <= buffers.len() <= items.len() + 1
    &&& forall|i: int|
        0 <= i < buffers.len() - 1 ==> may_push_all(
            encoder,
            buffers[i],
            #[trigger] items[i],
            buffers[i + 1],
        )
    &&& match extended {
        Ok(()) => buffers.len() == items.len() + 1,
        Err(error) => buffers.len() <= items.len() && may_push(
            encoder,
            buffers.last(),
            items[buffers.len() - 1],
            true,
            Err(error),
            buffers.last(),
        ),
    }
}

/// Whether `symbols` are what the first bytes of `bytes`, fifty at most,
/// stand for in `table`.
pub open spec fn displayed(
    table: Map<Seq<char>, u8>,
    bytes: Seq<u8>,
    symbols: Seq<Seq<char>>,
) -> bool {
    &&& symbols.len() == (if bytes.len() < 50 {
        bytes.len()
    } else {
        50
    })
    &&& forall|i: int|
        0 <= i < symbols.len() ==> table.contains_pair(#[trigger] symbols[i], bytes[i])
}

//================================================================================
// Sequence
//================================================================================

/// A Sequence contains a string constructed from the symbols of the
/// specified [`Alphabet`]. Typically this will represent a DNA, RNA or
/// protein sequence.
///
/// By default the Sequence uses an [`AsciiIndexEncoder`] for the alphabet
/// (this should work in the vast majority of cases).
pub struct Sequence<'a, A, E = AsciiIndexEncoder<'a, A>> where
    A: Alphabet,
    E: AlphabetEncoder<A>,
 {
    encoder: E,
    /// Determines whether the sequence is circular or not
    circular: bool,
    string: Vec<u8>,
    phantom: PhantomData<&'a A>,
}

impl<'a, A, E> View for Sequence<'a, A, E> where A: Alphabet, E: AlphabetEncoder<A> {
    type V = Seq<u8>;

    /// The codes that the sequence stores, in the order in which they were
    /// appended.
    closed spec fn view(&self) -> Seq<u8> {
        self.string@
    }
}

impl<'a, A, E> Sequence<'a, A, E> where A: Alphabet, E: AlphabetEncoder<A> {
    /// The encoder of this sequence, as contracts see it.
    pub closed spec fn spec_encoder(&self) -> &E {
        &self.encoder
    }

    /// Whether the sequence is marked as circular, as contracts see it.
    pub closed spec fn spec_is_circular(&self) -> bool {
        self.circular
    }

    /// The stored bytes are whole codes of the encoder, one after the other:
    /// no part of a code is ever stored without the rest.
    #[verifier::type_invariant]
    spec fn well_formed(&self) -> bool {
        holds_codes(&self.encoder, self.string@)
    }

    /// Constructs a new sequence using a custom encoder.
    /// The initial Sequence will be empty.
    pub fn from_encoder(encoder: E) -> (sequence: Self)
        ensures
            *sequence.spec_encoder() == encoder,
            sequence@ == Seq::<u8>::empty(),
            !sequence.is_circular(),
    {
        proof {
            lemma_holds_no_codes::<A, E>(&encoder);
        }
        Sequence { encoder, string: Vec::new(), circular: false, phantom: PhantomData }
    }

    /// Convenience function to set the sequence to be circular during
    /// creation.
    pub fn circular(self, circ: bool) -> (sequence: Self)
        ensures
            sequence.is_circular() == circ,
            sequence.spec_encoder() == self.spec_encoder(),
            sequence@ == self@,
    {
        let mut sequence = self;
        proof {
            use_type_invariant(&sequence);
        }
        sequence.circular = circ;
        sequence
    }

    /// Whether the sequence is circular.
    #[verifier::when_used_as_spec(spec_is_circular)]
    pub fn is_circular(&self) -> (circular: bool)
        ensures
            circular == self.spec_is_circular(),
    {
        self.circular
    }

    /// Get a reference to the alphabet that the encoder associated with this
    /// Sequence uses.
    pub fn alphabet(&self) -> (alphabet: &A)
        ensures
            call_ensures(E::alphabet, (self.spec_encoder(),), alphabet),
    {
        self.encoder.alphabet()
    }

    /// The stored codes.
    pub fn as_bytes(&self) -> (bytes: &[u8])
        ensures
            bytes@ == self@,
            holds_codes(self.spec_encoder(), bytes@),
    {
        proof {
            use_type_invariant(self);
        }
        self.string.as_slice()
    }

    /// Encodes the symbols that `seq` is made of, `symbol_size` characters
    /// each, and appends their codes.
    fn append_symbols(&mut self, seq: &str, symbol_size: usize) -> (pushed: EncodingResult<()>)
        ensures
            final(self).spec_encoder() == old(self).spec_encoder(),
            final(self).is_circular() == old(self).is_circular(),
            appended(
                old(self).spec_encoder(),
                old(self)@,
                seq@,
                symbol_size,
                false,
                pushed,
                final(self)@,
            ),
    {
        let split = string_chunks(seq, symbol_size);
        let encoded = self.encoder.encode_all(split.as_slice());
        proof {
            assert(may_encode_all(
                &self.encoder,
                chunks_of(seq@, symbol_size as int),
                encoded,
            ));
        }
        match encoded {
            Ok(mut bytes) => {
                proof {
                    let encode = |symbol: &str, code: EncodingResult<Vec<u8>>|
                        call_ensures(E::encode, (&self.encoder, symbol), code);
                    assert(all_encoded(encode, split@, encoded));
                    let codes = choose|codes: Seq<Vec<u8>>|
                        #[trigger] joined(codes) == bytes@ && codes.len() == split@.len()
                            && forall|i: int|
                            0 <= i < split@.len() ==> #[trigger] encode(split@[i], Ok(codes[i]));
                    let pieces = str_views(split@);
                    assert forall|i: int| 0 <= i < pieces.len() implies may_encode(
                        &self.encoder,
                        #[trigger] pieces[i],
                        Ok(codes[i]),
                    ) by {
                        assert(encode(split@[i], Ok(codes[i])));
                    }
                    assert(is_encoding(&self.encoder, pieces, bytes@));
                    use_type_invariant(&*self);
                    lemma_holds_more_codes::<A, E>(&self.encoder, self@, pieces, bytes@);
                }
                // The buffer is taken out, filled and put back: what the
                // sequence holds in between, nothing, is made of whole codes too.
                let mut string: Vec<u8> = Vec::new();
                proof {
                    lemma_holds_no_codes::<A, E>(&self.encoder);
                }
                swap(&mut self.string, &mut string);
                string.append(&mut bytes);
                self.string = string;
                Ok(())
            },
            Err(error) => Err(error),
        }
    }

    /// Push a string to the sequence.
    ///
    /// Uses [`Alphabet::symbol_size`] in order to determine how to separate
    /// the input into the constituent symbols. The first symbol is assumed
    /// to begin with the first character of the input.
    ///
    /// Fails with [`ErrorKind::InvalidLength`] where the characters of `seq`
    /// do not fill whole symbols, and with the error of the encoder where a
    /// symbol cannot be encoded. A failed push appends nothing.
    pub fn push(&mut self, seq: &str) -> (pushed: EncodingResult<()>)
        ensures
            final(self).spec_encoder() == old(self).spec_encoder(),
            final(self).is_circular() == old(self).is_circular(),
            may_push(old(self).spec_encoder(), old(self)@, seq@, true, pushed, final(self)@),
    {
        let symbol_size = self.alphabet().symbol_size();
        proof {
            assert(may_report_size(&self.encoder, symbol_size));
        }
        // If the number of characters in the string doesn't match the size of the symbols
        if seq.unicode_len() % symbol_size != 0 {
            let description =
                "Tried to push a sequence whose number of characters is not a multiple of the alphabet's symbol size";
            return Err(EncodingError::new(ErrorKind::InvalidLength, description.to_owned()));
        }
        self.append_symbols(seq, symbol_size)
    }

    /// Push a string to the sequence without checking if its length is
    /// valid.
    ///
    /// This does the same thing as [`push`](Sequence::push) except it
    /// doesn't check that the number of characters is a multiple of the
    /// alphabet's symbol size: any extra characters on the end are ignored.
    pub fn push_unchecked(&mut self, seq: &str) -> (pushed: EncodingResult<()>)
        ensures
            final(self).spec_encoder() == old(self).spec_encoder(),
            final(self).is_circular() == old(self).is_circular(),
            may_push(old(self).spec_encoder(), old(self)@, seq@, false, pushed, final(self)@),
    {
        let symbol_size = self.alphabet().symbol_size();
        proof {
            assert(may_report_size(&self.encoder, symbol_size));
        }
        self.append_symbols(seq, symbol_size)
    }

    /// Clears the stored codes thus emptying the Sequence. The encoder and
    /// its alphabet stay as they are.
    pub fn clear(&mut self)
        ensures
            final(self)@ == Seq::<u8>::empty(),
            final(self).spec_encoder() == old(self).spec_encoder(),
            final(self).is_circular() == old(self).is_circular(),
    {
        proof {
            lemma_holds_no_codes::<A, E>(&self.encoder);
        }
        let mut string: Vec<u8> = Vec::new();
        swap(&mut self.string, &mut string);
        string.clear();
        self.string = string;
    }
}

//================================================================================
// Extend
//================================================================================

impl<'a, A, E> Sequence<'a, A, E> where A: Alphabet, E: AlphabetEncoder<A> {
    /// Extends a sequence with strings, each pushed as [`push`](Sequence::push)
    /// does it.
    ///
    /// Stops at the first string that cannot be pushed and returns the error
    /// of that push. What was pushed before stays.
    pub fn extend(&mut self, iter: &[&str]) -> (extended: EncodingResult<()>)
        ensures
            final(self).spec_encoder() == old(self).spec_encoder(),
            final(self).is_circular() == old(self).is_circular(),
            exists|buffers: Seq<Seq<u8>>|
                #[trigger] extension(
                    old(self).spec_encoder(),
                    buffers,
                    str_views(iter@),
                    extended,
                ) && buffers.first() == old(self)@ && buffers.last() == final(self)@,
    {
        let ghost items = str_views(iter@);
        let ghost mut buffers: Seq<Seq<u8>> = seq![self@];
        let mut i: usize = 0;
        while i < iter.len()
            invariant
                i <= iter@.len(),
                items == str_views(iter@),
                self.spec_encoder() == old(self).spec_encoder(),
                self.is_circular() == old(self).is_circular(),
                buffers.len() == i + 1,
                buffers.first() == old(self)@,
                buffers.last() == self@,
                forall|j: int|
                    0 <= j < i ==> may_push_all(
                        self.spec_encoder(),
                        buffers[j],
                        #[trigger] items[j],
                        buffers[j + 1],
                    ),
            decreases iter@.len() - i,
        {
            let ghost before = self@;
            let pushed = self.push(iter[i]);
            proof {
                assert(items[i as int] == iter@[i as int]@);
            }
            match pushed {
                Ok(()) => {
                    proof {
                        let pushed: EncodingResult<()> = Ok(());
                        assert(may_push(
                            self.spec_encoder(),
                            before,
                            items[i as int],
                            true,
                            pushed,
                            self@,
                        ));
                        buffers = buffers.push(self@);
                    }
                },
                Err(error) => {
                    proof {
                        lemma_failed_push_appends_nothing::<A, E>(
                            self.spec_encoder(),
                            before,
                            items[i as int],
                            true,
                            error,
                            self@,
                        );
                        assert(extension(self.spec_encoder(), buffers, items, Err(error)));
                    }
                    return Err(error);
                },
            }
            i = i + 1;
        }
        proof {
            assert(extension(self.spec_encoder(), buffers, items, Ok(())));
        }
        Ok(())
    }
}

/// A push that fails leaves the buffer as it was.
pub proof fn lemma_failed_push_appends_nothing<A: Alphabet, E: AlphabetEncoder<A>>(
    encoder: &E,
    before: Seq<u8>,
    text: Seq<char>,
    strict: bool,
    error: EncodingError,
    after: Seq<u8>,
)
    requires
        may_push(encoder, before, text, strict, Err(error), after),
    ensures
        after == before,
{
}

//================================================================================
// Construct using alphabet with AsciiIndexEncoder
//================================================================================

impl<'a, A: Alphabet> Sequence<'a, A, AsciiIndexEncoder<'a, A>> {
    /// Construct a new Sequence from some alphabet using the default
    /// [`AsciiIndexEncoder`]. The initial Sequence will be empty.
    ///
    /// Fails where no [`AsciiIndexEncoder`] can be made for the alphabet.
    pub fn new(alphabet: &'a A) -> (sequence: Result<Self, ConstructionError>)
        ensures
            match sequence {
                Ok(sequence) => sequence@ == Seq::<u8>::empty() && !sequence.is_circular()
                    && sequence.spec_encoder().spec_alphabet() == alphabet && may_map(
                    alphabet,
                    Ok(sequence.spec_encoder().table()),
                ),
                Err(error) => may_map(alphabet, Err(error)),
            },
    {
        match AsciiIndexEncoder::new(alphabet) {
            Ok(encoder) => Ok(Sequence::from_encoder(encoder)),
            Err(error) => Err(error),
        }
    }

    //================================================================================
    // Display
    //================================================================================
    /// The text that shows this sequence: `Sequence: ` followed by the
    /// symbols that the first 50 stored codes stand for, or by those of all
    /// the codes where there are fewer.
    ///
    /// The stored bytes are whole codes of the encoder, so each of them can
    /// be decoded.
    pub fn to_string(&self) -> (text: String)
        ensures
            exists|symbols: Seq<Seq<char>>|
                #[trigger] displayed(self.spec_encoder().table(), self@, symbols) && text@
                    == "Sequence: "@ + symbols.flatten(),
    {
        proof {
            use_type_invariant(self);
        }
        // Decode min(string.len(), 50) characters to their respective symbols
        let num_chars: usize = if self.string.len() < 50 {
            self.string.len()
        } else {
            50
        };
        let shown = slice_subrange(self.string.as_slice(), 0, num_chars);
        let seq_vec = match self.encoder.decode_all(shown) {
            Ok(seq_vec) => seq_vec,
            Err(_) => {
                proof {
                    lemma_codes_are_in_table(&self.encoder, self@);
                    let missing = choose|i: int|
                        0 <= i < shown@.len() && !self.encoder.table().contains_value(
                            #[trigger] shown@[i],
                        );
                    assert(shown@[missing] == self@[missing]);
                }
                unreached()
            },
        };
        let ghost symbols = str_views(seq_vec@);
        let mut text = "Sequence: ".to_owned();
        let mut i: usize = 0;
        while i < seq_vec.len()
            invariant
                i <= seq_vec@.len(),
                symbols == str_views(seq_vec@),
                text@ == "Sequence: "@ + symbols.take(i as int).flatten(),
            decreases seq_vec@.len() - i,
        {
            proof {
                symbols.take(i as int).lemma_flatten_push(symbols[i as int]);
                assert(symbols.take(i + 1) == symbols.take(i as int).push(symbols[i as int]));
            }
            text.append(seq_vec[i]);
            i = i + 1;
        }
        proof {
            assert(symbols.take(seq_vec@.len() as int) == symbols);
            assert forall|i: int| 0 <= i < symbols.len() implies self.encoder.table().contains_pair(
                #[trigger] symbols[i],
                self@[i],
            ) by {
                assert(symbols[i] == seq_vec@[i]@);
                assert(shown@[i] == self@[i]);
            }
            assert(displayed(self.spec_encoder().table(), self@, symbols));
            assert(text@ == "Sequence: "@ + symbols.flatten());
        }
        text
    }
}

//================================================================================
// Laws
//================================================================================

/// The place of each of `pieces` in `symbols`, as a byte.
pub open spec fn places_of(symbols: Seq<Seq<char>>, pieces: Seq<Seq<char>>) -> Seq<u8> {
    Seq::new(pieces.len(), |k: int| symbols.index_of(pieces[k]) as u8)
}

/// What a push does to a sequence with the default encoder, where the
/// mapping of the encoder was made from `symbols` and the alphabet reports
/// `symbol_size` characters per symbol and nothing else.
///
/// A strict push of a text whose characters do not fill whole symbols fails
/// with [`ErrorKind::InvalidLength`]. Any other push appends the place of
/// each symbol that the text is made of, where `symbols` holds them all, and
/// fails where it does not. A push that fails appends nothing.
pub proof fn lemma_push_appends_places<'a, A: Alphabet>(
    encoder: &AsciiIndexEncoder<'a, A>,
    symbols: Seq<Seq<char>>,
    max_size: usize,
    symbol_size: usize,
    before: Seq<u8>,
    text: Seq<char>,
    strict: bool,
    pushed: EncodingResult<()>,
    after: Seq<u8>,
)
    requires
        mapping_of(symbols, max_size) == Ok::<Map<Seq<char>, u8>, ConstructionError>(
            encoder.table(),
        ),
        forall|size: usize| #[trigger] may_report_size(encoder, size) ==> size == symbol_size,
        may_push(encoder, before, text, strict, pushed, after),
    ensures
        ({
            let pieces = chunks_of(text, symbol_size as int);
            if strict && text.len() % (symbol_size as nat) != 0 {
                after == before && (pushed matches Err(error) && error.kind()@
                    == ErrorKindView::InvalidLength)
            } else if forall|k: int|
                0 <= k < pieces.len() ==> symbols.contains(#[trigger] pieces[k]) {
                pushed is Ok && after == before + places_of(symbols, pieces)
            } else {
                pushed is Err && after == before
            }
        }),
{
    let pieces = chunks_of(text, symbol_size as int);
    let size = choose|size: usize| #[trigger]
        may_report_size(encoder, size) && appended(
            encoder,
            before,
            text,
            size,
            strict,
            pushed,
            after,
        );
    assert(size == symbol_size);
    lemma_index_table(symbols, max_size);
    if !(strict && text.len() % (symbol_size as nat) != 0) {
        let encoded = choose|encoded: EncodingResult<Vec<u8>>| #[trigger]
            may_encode_all(encoder, pieces, encoded) && match encoded {
                Ok(bytes) => pushed is Ok && after == before + bytes@,
                Err(error) => pushed == Err::<(), EncodingError>(error) && after == before,
            };
        let list = choose|list: &[&str]| #[trigger]
            call_ensures(AsciiIndexEncoder::<'a, A>::encode_all, (encoder, list), encoded)
                && str_views(list@) == pieces;
        let encode = |symbol: &str, code: EncodingResult<Vec<u8>>|
            call_ensures(AsciiIndexEncoder::<'a, A>::encode, (encoder, symbol), code);
        assert(all_encoded(encode, list@, encoded));
        assert forall|k: int| 0 <= k < pieces.len() implies #[trigger] pieces[k] == list@[k]@ by {
            assert(str_views(list@)[k] == list@[k]@);
        }
        match encoded {
            Ok(bytes) => {
                let codes = choose|codes: Seq<Vec<u8>>| #[trigger]
                    joined(codes) == bytes@ && codes.len() == list@.len() && forall|i: int|
                        0 <= i < list@.len() ==> #[trigger] encode(list@[i], Ok(codes[i]));
                assert forall|k: int| 0 <= k < codes.len() implies symbols.contains(pieces[k]) && (
                #[trigger] codes[k])@ == seq![symbols.index_of(pieces[k]) as u8] by {
                    let code: EncodingResult<Vec<u8>> = Ok(codes[k]);
                    assert(encode(list@[k], code));
                    assert(outcome(code) is Ok);
                    assert(pieces[k] == list@[k]@);
                    assert(encoder.table().contains_key(pieces[k]));
                }
                assert forall|k: int| 0 <= k < pieces.len() implies symbols.contains(
                    #[trigger] pieces[k],
                ) by {
                    assert(codes[k]@.len() == 1);
                }
                lemma_joined_single_bytes(codes);
                assert forall|k: int| 0 <= k < pieces.len() implies bytes@[k] == places_of(
                    symbols,
                    pieces,
                )[k] by {
                    assert(codes[k]@[0] == symbols.index_of(pieces[k]) as u8);
                }
                assert(bytes@ == places_of(symbols, pieces));
            },
            Err(error) => {
                let i = choose|i: int|
                    0 <= i < list@.len() && #[trigger] encode(list@[i], Err(error));
                let failed: EncodingResult<Vec<u8>> = Err(error);
                assert(outcome(failed) is Err);
                assert(!encoder.table().contains_key(list@[i]@));
                assert(!symbols.contains(pieces[i]));
            },
        }
    }
}

} // verus!
