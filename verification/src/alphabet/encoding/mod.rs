//! An encoding takes the symbols of an alphabet and transforms them in some
//! meaningful way in order to increase efficiency and reduce memory usage.
//!
//! What an encoder does with a symbol is up to the encoder, so the contracts
//! of this module speak of what a call of [`AlphabetEncoder::encode`] or
//! [`AlphabetEncoder::decode_all`] may return: whatever the contract of that
//! method allows for the encoder at hand.

use crate::alphabet::{may_size, Alphabet};
use crate::util::text::str_views;
use vstd::prelude::*;
use vstd::slice::slice_to_vec;

pub mod index_encoder;

verus! {

/// The type of Results returned from methods that encode or decode an
/// alphabet's symbols.
pub type EncodingResult<T> = Result<T, EncodingError>;

//================================================================================
// Errors
//================================================================================

/// Represents the kind of error that occurred while encoding or decoding an
/// alphabet symbol.
#[derive(Debug, Clone, PartialEq, Eq)]
pub enum ErrorKind {
    /// The symbol passed to [`encode`](AlphabetEncoder::encode) was not in
    /// the alphabet.
    InvalidSymbol(String),
    /// The bytes passed to [`decode`](AlphabetEncoder::decode) were invalid.
    InvalidBytes(Vec<u8>),
    /// The symbols could not be split because the number of characters was
    /// not a multiple of the
    /// [`symbol_size`](crate::alphabet::Alphabet::symbol_size).
    InvalidLength,
    /// The encoder has no way to map the symbol or bytes, potentially
    /// because the alphabet has changed since the encoder read it.
    NoMapping,
    /// Some other error occurred (check the description)
    Other,
}

/// An [`ErrorKind`] with its text and bytes as plain values.
pub enum ErrorKindView {
    InvalidSymbol(Seq<char>),
    InvalidBytes(Seq<u8>),
    InvalidLength,
    NoMapping,
    Other,
}

impl View for ErrorKind {
    type V = ErrorKindView;

    open spec fn view(&self) -> ErrorKindView {
        match self {
            ErrorKind::InvalidSymbol(symbol) => ErrorKindView::InvalidSymbol(symbol@),
            ErrorKind::InvalidBytes(bytes) => ErrorKindView::InvalidBytes(bytes@),
            ErrorKind::InvalidLength => ErrorKindView::InvalidLength,
            ErrorKind::NoMapping => ErrorKindView::NoMapping,
            ErrorKind::Other => ErrorKindView::Other,
        }
    }
}

/// The type of error returned whenever something goes wrong while trying to
/// encode or decode with an [`AlphabetEncoder`]
#[derive(Debug, Clone)]
pub struct EncodingError {
    kind: ErrorKind,
    description: String,
}

impl EncodingError {
    /// The kind of this error, as contracts see it.
    pub closed spec fn spec_kind(&self) -> &ErrorKind {
        &self.kind
    }

    /// The characters of the description of this error.
    pub closed spec fn description_text(&self) -> Seq<char> {
        self.description@
    }

    /// Construct a new EncodingError from the given ErrorKind and description
    pub fn new(kind: ErrorKind, description: String) -> (error: EncodingError)
        ensures
            *error.spec_kind() == kind,
            error.description_text() == description@,
    {
        EncodingError { kind, description }
    }

    /// Get the associated ErrorKind for this error
    #[verifier::when_used_as_spec(spec_kind)]
    pub fn kind(&self) -> (kind: &ErrorKind)
        ensures
            kind == self.spec_kind(),
    {
        &self.kind
    }

    /// Get the associated description for this error
    pub fn description(&self) -> (description: &str)
        ensures
            description@ == self.description_text(),
    {
        self.description.as_str()
    }
}

/// How a call ended, with what it returned or the kind of its error as plain
/// values.
pub open spec fn outcome<T: View>(result: EncodingResult<T>) -> Result<T::V, ErrorKindView> {
    match result {
        Ok(value) => Ok(value@),
        Err(error) => Err(error.kind()@),
    }
}

//================================================================================
// Model
//================================================================================

/// The bytes of `codes`, one code after the other.
pub open spec fn joined(codes: Seq<Vec<u8>>) -> Seq<u8> {
    codes.map_values(|code: Vec<u8>| code@).flatten()
}

/// Whether encoding `symbol` may succeed, where `encode(symbol, result)`
/// says that encoding `symbol` may return `result`.
pub open spec fn can_encode(
    encode: spec_fn(&str, EncodingResult<Vec<u8>>) -> bool,
    symbol: &str,
) -> bool {
    exists|code: Vec<u8>| #[trigger] encode(symbol, Ok(code))
}

/// Whether encoding each of `symbols` in turn may end in `encoded`, where
/// `encode(symbol, result)` says that encoding `symbol` may return `result`:
/// in the codes of all the symbols, joined, or in the error of the first
/// symbol that has none.
pub open spec fn all_encoded(
    encode: spec_fn(&str, EncodingResult<Vec<u8>>) -> bool,
    symbols: Seq<&str>,
    encoded: EncodingResult<Vec<u8>>,
) -> bool {
    match encoded {
        Ok(bytes) => exists|codes: Seq<Vec<u8>>|
            #[trigger] joined(codes) == bytes@ && codes.len() == symbols.len() && forall|i: int|
                0 <= i < symbols.len() ==> #[trigger] encode(symbols[i], Ok(codes[i])),
        Err(error) => exists|i: int|
            0 <= i < symbols.len() && #[trigger] encode(symbols[i], Err(error)) && forall|j: int|
                0 <= j < i ==> #[trigger] can_encode(encode, symbols[j]),
    }
}

/// Whether decoding `bytes` as one symbol may end in `decoded`, where
/// `decode_all(result)` says that decoding `bytes` as many symbols may
/// return `result`: in the one symbol that `bytes` hold, in the error of
/// decoding them, or in [`ErrorKind::InvalidBytes`] with `bytes` where they
/// hold another number of symbols than one.
pub open spec fn single_decoded(
    decode_all: spec_fn(EncodingResult<Vec<&str>>) -> bool,
    bytes: Seq<u8>,
    decoded: EncodingResult<&str>,
) -> bool {
    exists|all: EncodingResult<Vec<&str>>|
        #[trigger] decode_all(all) && match all {
            Ok(symbols) => if symbols@.len() == 1 {
                decoded == Ok::<&str, EncodingError>(symbols@[0])
            } else {
                decoded matches Err(error) && error.kind()@ == ErrorKindView::InvalidBytes(bytes)
            },
            Err(error) => decoded == Err::<&str, EncodingError>(error),
        }
}

/// Whether [`AlphabetEncoder::encode`] may return `result` when `encoder` is
/// given a symbol that reads `symbol`.
pub open spec fn may_encode<A: Alphabet, E: AlphabetEncoder<A>>(
    encoder: &E,
    symbol: Seq<char>,
    result: EncodingResult<Vec<u8>>,
) -> bool {
    exists|s: &str| #[trigger] call_ensures(E::encode, (encoder, s), result) && s@ == symbol
}

/// Whether [`AlphabetEncoder::encode_all`] may return `result` when
/// `encoder` is given symbols that read `symbols`.
pub open spec fn may_encode_all<A: Alphabet, E: AlphabetEncoder<A>>(
    encoder: &E,
    symbols: Seq<Seq<char>>,
    result: EncodingResult<Vec<u8>>,
) -> bool {
    exists|list: &[&str]|
        #[trigger] call_ensures(E::encode_all, (encoder, list), result) && str_views(list@)
            == symbols
}

/// Whether `bytes` may be what `encoder` makes of `symbols`: the codes that
/// [`AlphabetEncoder::encode`] may return for them, joined.
pub open spec fn is_encoding<A: Alphabet, E: AlphabetEncoder<A>>(
    encoder: &E,
    symbols: Seq<Seq<char>>,
    bytes: Seq<u8>,
) -> bool {
    exists|codes: Seq<Vec<u8>>|
        #[trigger] joined(codes) == bytes && codes.len() == symbols.len() && forall|i: int|
            0 <= i < symbols.len() ==> may_encode(encoder, #[trigger] symbols[i], Ok(codes[i]))
}

/// Whether `bytes` hold nothing but whole codes of `encoder`: whether they
/// may be what `encoder` makes of some symbols.
pub open spec fn holds_codes<A: Alphabet, E: AlphabetEncoder<A>>(
    encoder: &E,
    bytes: Seq<u8>,
) -> bool {
    exists|symbols: Seq<Seq<char>>| is_encoding(encoder, symbols, bytes)
}

/// Whether the alphabet that [`AlphabetEncoder::alphabet`] may return for
/// `encoder` may report `symbol_size` as its
/// [`symbol_size`](Alphabet::symbol_size).
pub open spec fn may_report_size<A: Alphabet, E: AlphabetEncoder<A>>(
    encoder: &E,
    symbol_size: usize,
) -> bool {
    exists|alphabet: &A|
        #[trigger] call_ensures(E::alphabet, (encoder,), alphabet) && may_size(
            alphabet,
            symbol_size,
        )
}

/// Codes joined after other codes are the bytes of the ones followed by the
/// bytes of the others.
pub proof fn lemma_joined_concat(first: Seq<Vec<u8>>, second: Seq<Vec<u8>>)
    ensures
        joined(first + second) == joined(first) + joined(second),
{
    let view = |code: Vec<u8>| code@;
    assert((first + second).map_values(view) == first.map_values(view) + second.map_values(view));
    vstd::seq_lib::lemma_flatten_concat(first.map_values(view), second.map_values(view));
}

/// Bytes that hold whole codes, followed by what the encoder makes of more
/// symbols, hold whole codes.
pub proof fn lemma_holds_more_codes<A: Alphabet, E: AlphabetEncoder<A>>(
    encoder: &E,
    bytes: Seq<u8>,
    symbols: Seq<Seq<char>>,
    more: Seq<u8>,
)
    requires
        holds_codes(encoder, bytes),
        is_encoding(encoder, symbols, more),
    ensures
        holds_codes(encoder, bytes + more),
{
    let held = choose|held: Seq<Seq<char>>| is_encoding(encoder, held, bytes);
    let first = choose|codes: Seq<Vec<u8>>|
        #[trigger] joined(codes) == bytes && codes.len() == held.len() && forall|i: int|
            0 <= i < held.len() ==> may_encode(encoder, #[trigger] held[i], Ok(codes[i]));
    let second = choose|codes: Seq<Vec<u8>>|
        #[trigger] joined(codes) == more && codes.len() == symbols.len() && forall|i: int|
            0 <= i < symbols.len() ==> may_encode(encoder, #[trigger] symbols[i], Ok(codes[i]));
    lemma_joined_concat(first, second);
    let all = held + symbols;
    let codes = first + second;
    assert forall|i: int| 0 <= i < all.len() implies may_encode(
        encoder,
        #[trigger] all[i],
        Ok(codes[i]),
    ) by {
        if i >= held.len() {
            assert(all[i] == symbols[i - held.len()]);
        }
    }
    assert(is_encoding(encoder, all, bytes + more));
}

/// Codes of one byte each, joined, are those bytes in the order of the
/// codes.
pub proof fn lemma_joined_single_bytes(codes: Seq<Vec<u8>>)
    requires
        forall|i: int| 0 <= i < codes.len() ==> (#[trigger] codes[i])@.len() == 1,
    ensures
        joined(codes).len() == codes.len(),
        forall|i: int| 0 <= i < codes.len() ==> joined(codes)[i] == (#[trigger] codes[i])@[0],
    decreases codes.len(),
{
    let view = |code: Vec<u8>| code@;
    if codes.len() == 0 {
        assert(codes.map_values(view) == Seq::<Seq<u8>>::empty());
    } else {
        let front = codes.drop_last();
        let last = seq![codes.last()];
        lemma_joined_single_bytes(front);
        assert(codes == front + last);
        lemma_joined_concat(front, last);
        last.map_values(view).lemma_flatten_one_element();
        assert(joined(last) == codes.last()@);
    }
}

/// No bytes hold whole codes: those of no symbols.
pub proof fn lemma_holds_no_codes<A: Alphabet, E: AlphabetEncoder<A>>(encoder: &E)
    ensures
        holds_codes(encoder, Seq::<u8>::empty()),
{
    let none = Seq::<Vec<u8>>::empty();
    assert(none.map_values(|code: Vec<u8>| code@) == Seq::<Seq<u8>>::empty());
    assert(joined(none) == Seq::<u8>::empty());
    assert(is_encoding(encoder, Seq::<Seq<char>>::empty(), Seq::<u8>::empty()));
}

//================================================================================
// Encoders
//================================================================================

/// Represents a type that can map the symbols in an alphabet to and from
/// bytes.
pub trait AlphabetEncoder<A: Alphabet> {
    /// Takes in a symbol from the [`Alphabet`] `A` and turns it into a
    /// vector of bytes
    fn encode(&self, symbol: &str) -> EncodingResult<Vec<u8>>;

    /// The opposite of [`encode_all`](AlphabetEncoder::encode_all). This
    /// takes in some bytes that can be decoded into a collection of alphabet
    /// symbols.
    ///
    /// Because there is no requirement that each symbol maps to the same
    /// number of bytes, this method has no default.
    fn decode_all(&self, symbols: &[u8]) -> EncodingResult<Vec<&str>>;

    /// Return a reference to the underlying [`Alphabet`]
    fn alphabet(&self) -> &A;

    /// How many bytes you expect an encoded symbol to take on average.
    /// Does not have to be exact and is purely for extra efficiency in
    /// memory allocation.
    ///
    /// Defaults to 1 byte per encoded symbol.
    #[inline]
    fn size_hint(&self) -> (hint: usize)
        default_ensures
            hint == 1,
    {
        1
    }

    /// Decodes a single symbol. Reverses [`encode`](AlphabetEncoder::encode).
    ///
    /// Fails with [`ErrorKind::InvalidBytes`] where `symbol` holds more or
    /// fewer symbols than one.
    fn decode(&self, symbol: &[u8]) -> (decoded: EncodingResult<&str>)
        ensures
            single_decoded(
                |all: EncodingResult<Vec<&str>>|
                    call_ensures(Self::decode_all, (self, symbol), all),
                symbol@,
                decoded,
            ),
    {
        let ghost decode_all = |all: EncodingResult<Vec<&str>>|
            call_ensures(Self::decode_all, (self, symbol), all);
        let all = self.decode_all(symbol);
        proof {
            assert(decode_all(all));
        }
        match all {
            Ok(decoded) => {
                if decoded.len() == 1 {
                    Ok(decoded[0])
                } else {
                    let kind = ErrorKind::InvalidBytes(slice_to_vec(symbol));
                    let description =
                        "Call to decode tried to decode multiple symbols. Use decode_all() instead.";
                    Err(EncodingError::new(kind, description.to_owned()))
                }
            },
            Err(error) => Err(error),
        }
    }

    /// Takes a list of symbols and encodes them all using
    /// [`encode`](AlphabetEncoder::encode), one after the other.
    /// Returns the codes, joined, on success, and the error of the first
    /// symbol that could not be encoded otherwise.
    fn encode_all(&self, symbols: &[&str]) -> (encoded: EncodingResult<Vec<u8>>)
        ensures
            all_encoded(
                |symbol: &str, code: EncodingResult<Vec<u8>>|
                    call_ensures(Self::encode, (self, symbol), code),
                symbols@,
                encoded,
            ),
    {
        let ghost encode = |symbol: &str, code: EncodingResult<Vec<u8>>|
            call_ensures(Self::encode, (self, symbol), code);
        // Use size_hint to estimate how much space will be needed to store the result
        let mut encoded: Vec<u8> = Vec::new();
        if let Some(expected) = symbols.len().checked_mul(self.size_hint()) {
            let _ = encoded.try_reserve(expected);
        }
        let ghost mut codes: Seq<Vec<u8>> = Seq::empty();
        let mut i: usize = 0;
        while i < symbols.len()
            invariant
                i <= symbols@.len(),
                codes.len() == i,
                joined(codes) == encoded@,
                encode == |symbol: &str, code: EncodingResult<Vec<u8>>|
                    call_ensures(Self::encode, (self, symbol), code),
                forall|j: int| 0 <= j < i ==> #[trigger] encode(symbols@[j], Ok(codes[j])),
            decreases symbols@.len() - i,
        {
            match self.encode(symbols[i]) {
                Ok(mut code) => {
                    proof {
                        assert(encode(symbols@[i as int], Ok(code)));
                        let views = codes.map_values(|code: Vec<u8>| code@);
                        views.lemma_flatten_push(code@);
                        assert(codes.push(code).map_values(|code: Vec<u8>| code@) == views.push(
                            code@,
                        ));
                        codes = codes.push(code);
                    }
                    encoded.append(&mut code);
                },
                Err(error) => {
                    proof {
                        assert(encode(symbols@[i as int], Err(error)));
                        assert forall|j: int| 0 <= j < i implies #[trigger] can_encode(
                            encode,
                            symbols@[j],
                        ) by {
                            assert(encode(symbols@[j], Ok(codes[j])));
                        }
                    }
                    return Err(error);
                },
            }
            i = i + 1;
        }
        Ok(encoded)
    }
}

} // verus!
