//! Simple encoders that use the index of the symbol in the list returned
//! from [`Alphabet::symbols`](crate::alphabet::Alphabet::symbols) to encode
//! the symbol.

use crate::alphabet::encoding::{
    holds_codes, is_encoding, joined, lemma_joined_single_bytes, may_encode, outcome,
    AlphabetEncoder, EncodingError, EncodingResult, ErrorKind, ErrorKindView,
};
use crate::alphabet::{may_contain, may_declare, may_list, Alphabet};
use crate::util::byte_id_generator::{
    id_bytes, id_count, id_value, lemma_id_bytes_len, lemma_id_count_increases,
    lemma_id_count_values, lemma_id_round_trip, lemma_min_bytes_is_least, min_bytes,
    ByteIdGenerator,
};
use crate::util::text::{position, str_views};
use bimap::{BiHashMap, Overwritten};
use vstd::prelude::*;
use vstd::slice::slice_subrange;
use vstd::string::StringExecFns;

verus! {

//================================================================================
// Model
//================================================================================

/// The table that gives each of `symbols` its place in the list as its code.
pub open spec fn index_table(symbols: Seq<Seq<char>>) -> Map<Seq<char>, u8> {
    Map::new(
        |symbol: Seq<char>| symbols.contains(symbol),
        |symbol: Seq<char>| symbols.index_of(symbol) as u8,
    )
}

/// Why no encoder could be made for an alphabet.
#[derive(Debug, Clone, Copy, PartialEq, Eq)]
pub enum ConstructionError {
    /// The alphabet has more symbols than the encoder has codes for: for an
    /// [`AsciiIndexEncoder`] it has, or declares that it may come to have,
    /// more than 256, and for an [`IndexEncoder`] it has more than it
    /// declares.
    TooManySymbols,
    /// The alphabet lists a symbol twice.
    DuplicateSymbol,
}

/// The table of a one-byte encoder for an alphabet that lists `symbols` and
/// declares at most `max_size` symbols, or why there is none.
pub open spec fn mapping_of(symbols: Seq<Seq<char>>, max_size: usize) -> Result<
    Map<Seq<char>, u8>,
    ConstructionError,
> {
    if max_size > 256 || symbols.len() > 256 {
        Err(ConstructionError::TooManySymbols)
    } else if !symbols.no_duplicates() {
        Err(ConstructionError::DuplicateSymbol)
    } else {
        Ok(index_table(symbols))
    }
}

/// `table` once `symbol` and `code` are paired in it: a pair of the one or
/// the other that `table` held before is gone.
pub open spec fn paired(table: Map<Seq<char>, u8>, symbol: Seq<char>, code: u8) -> Map<
    Seq<char>,
    u8,
> {
    Map::new(
        |s: Seq<char>| s == symbol || (table.contains_key(s) && table[s] != code),
        |s: Seq<char>|
            if s == symbol {
                code
            } else {
                table[s]
            },
    )
}

/// The kind of the error for a symbol that a table does not hold:
/// [`ErrorKind::NoMapping`] where the alphabet holds it, so that the table
/// is out of date, and [`ErrorKind::InvalidSymbol`] where it does not.
pub open spec fn miss_kind(symbol: Seq<char>, in_alphabet: bool) -> ErrorKindView {
    if in_alphabet {
        ErrorKindView::NoMapping
    } else {
        ErrorKindView::InvalidSymbol(symbol)
    }
}

/// Whether building a table from what `alphabet` hands out when asked may
/// end in `table`: whether `table` is the [`mapping_of`] a list that
/// [`Alphabet::symbols`] may return and a maximum that
/// [`Alphabet::max_alphabet_size`] may return.
pub open spec fn may_map<A: Alphabet>(
    alphabet: &A,
    table: Result<Map<Seq<char>, u8>, ConstructionError>,
) -> bool {
    exists|symbols: Seq<Seq<char>>, max_size: usize|
        #[trigger] may_list(alphabet, symbols) && #[trigger] may_declare(alphabet, max_size)
            && mapping_of(symbols, max_size) == table
}

//================================================================================
// Table
//================================================================================

/// `bimap::BiHashMap`, a map that can be read in both directions: nothing
/// is known of what is inside one but what [`pairs`] names.
#[verifier::external_type_specification]
#[verifier::external_body]
#[verifier::reject_recursive_types(L)]
#[verifier::reject_recursive_types(R)]
#[verifier::reject_recursive_types(LS)]
#[verifier::reject_recursive_types(RS)]
pub struct ExBiHashMap<L, R, LS, RS>(bimap::BiHashMap<L, R, LS, RS>);

/// The pairs that a bimap of symbols and codes holds, as a map from each
/// symbol to its code.
pub uninterp spec fn pairs(mapping: BiHashMap<&str, u8>) -> Map<Seq<char>, u8>;

/// `BiHashMap::with_capacity`: a bimap that holds no pair. The capacity is
/// kept small, so that room for it can be had.
#[verifier::external_body]
fn table_with_capacity<'a>(capacity: usize) -> (mapping: BiHashMap<&'a str, u8>)
    requires
        capacity <= 256,
    ensures
        pairs(mapping) == (Map::<Seq<char>, u8>::empty()),
{
    BiHashMap::with_capacity(capacity)
}

/// `BiHashMap::insert`: pairs `symbol` with `code`, after it has removed the
/// pair that held `symbol` and the pair that held `code`, if there were
/// such. Reports whether it removed one.
#[verifier::external_body]
fn table_insert<'a>(mapping: &mut BiHashMap<&'a str, u8>, symbol: &'a str, code: u8) -> (overwrote:
    bool)
    ensures
        overwrote == (pairs(*old(mapping)).contains_key(symbol@) || pairs(
            *old(mapping),
        ).contains_value(code)),
        pairs(*final(mapping)) == paired(pairs(*old(mapping)), symbol@, code),
{
    match mapping.insert(symbol, code) {
        Overwritten::Neither => false,
        Overwritten::Left(..) => true,
        Overwritten::Right(..) => true,
        Overwritten::Pair(..) => true,
        Overwritten::Both(..) => true,
    }
}

/// `BiHashMap::get_by_left`: the code that `symbol` is paired with, if it is
/// paired.
#[verifier::external_body]
fn table_get_by_left(mapping: &BiHashMap<&str, u8>, symbol: &str) -> (code: Option<u8>)
    ensures
        code == (if pairs(*mapping).contains_key(symbol@) {
            Some(pairs(*mapping)[symbol@])
        } else {
            None
        }),
{
    mapping.get_by_left(symbol).copied()
}

/// `BiHashMap::get_by_right`: a symbol that `code` is paired with, if it is
/// paired.
#[verifier::external_body]
fn table_get_by_right<'a>(mapping: &BiHashMap<&'a str, u8>, code: u8) -> (symbol: Option<&'a str>)
    ensures
        match symbol {
            Some(symbol) => pairs(*mapping).contains_pair(symbol@, code),
            None => !pairs(*mapping).contains_value(code),
        },
{
    mapping.get_by_right(&code).copied()
}

/// Builds the table that pairs each of `symbols` with its place in the
/// list, for an alphabet that declares at most `max_size` symbols.
fn construct_mapping<'a>(symbols: &'a [&'a str], max_size: usize) -> (mapping: Result<
    BiHashMap<&'a str, u8>,
    ConstructionError,
>)
    ensures
        match mapping {
            Ok(mapping) => mapping_of(str_views(symbols@), max_size) == Ok::<
                Map<Seq<char>, u8>,
                ConstructionError,
            >(pairs(mapping)),
            Err(error) => mapping_of(str_views(symbols@), max_size) == Err::<
                Map<Seq<char>, u8>,
                ConstructionError,
            >(error),
        },
{
    let num_symbols = symbols.len();
    if max_size > 256 || num_symbols > 256 {
        return Err(ConstructionError::TooManySymbols);
    }
    let ghost views = str_views(symbols@);
    let mut mapping = table_with_capacity(num_symbols);
    let mut index: usize = 0;
    proof {
        assert(index_table(views.take(0)) == Map::<Seq<char>, u8>::empty());
    }
    while index < num_symbols
        invariant
            index <= num_symbols <= 256,
            max_size <= 256,
            num_symbols == symbols@.len(),
            views == str_views(symbols@),
            views.take(index as int).no_duplicates(),
            pairs(mapping) == index_table(views.take(index as int)),
        decreases num_symbols - index,
    {
        let ghost seen = views.take(index as int);
        let ghost symbol = views[index as int];
        let overwrote = table_insert(&mut mapping, symbols[index], index as u8);
        proof {
            assert forall|s: Seq<char>| seen.contains(s) implies 0 <= seen.index_of(s) < index
                && seen[seen.index_of(s)] == s by {}
            assert(!index_table(seen).contains_value(index as u8));
        }
        if overwrote {
            proof {
                assert(seen.contains(symbol));
                let earlier = seen.index_of(symbol);
                assert(views[earlier] == seen[earlier]);
                assert(views[earlier] == views[index as int] && earlier != index);
            }
            return Err(ConstructionError::DuplicateSymbol);
        }
        proof {
            let next = views.take(index + 1);
            assert(next == seen.push(symbol));
            assert(!seen.contains(symbol));
            assert(next.no_duplicates());
            assert forall|s: Seq<char>| next.contains(s) implies 0 <= next.index_of(s) <= index
                && next[next.index_of(s)] == s by {}
            assert(next[index as int] == symbol);
            assert(pairs(mapping) =~= index_table(next)) by {
                assert forall|s: Seq<char>| seen.contains(s) implies next.contains(s) by {
                    assert(next[seen.index_of(s)] == s);
                }
                assert forall|s: Seq<char>| next.contains(s) && s != symbol implies seen.contains(
                    s,
                ) && seen.index_of(s) == next.index_of(s) by {
                    assert(seen[next.index_of(s)] == s);
                }
            }
        }
        index = index + 1;
    }
    proof {
        assert(views.take(num_symbols as int) == views);
    }
    Ok(mapping)
}

//================================================================================
// Encoder
//================================================================================

/// An index encoder takes each symbol of an alphabet and encodes it as its
/// index in the slice returned from [`Alphabet::symbols`]. It always uses one
/// byte and can thus only map 256 different symbols.
///
/// This is the default encoder and should work fine in most cases. It makes
/// use of [`Alphabet::max_alphabet_size`] to determine if it can be safely
/// used.
///
/// The encoder reads the symbols of its alphabet when it is made. If the
/// symbols of the alphabet change after that, the encoder goes on with what
/// it read until [`recalculate_mapping`](AsciiIndexEncoder::recalculate_mapping)
/// is called.
pub struct AsciiIndexEncoder<'a, A: Alphabet> {
    alphabet: &'a A,
    mapping: BiHashMap<&'a str, u8>,
}

impl<'a, A: Alphabet> AsciiIndexEncoder<'a, A> {
    /// The alphabet of this encoder, as contracts see it.
    pub closed spec fn spec_alphabet(&self) -> &'a A {
        self.alphabet
    }

    /// The code of each symbol that this encoder read from its alphabet.
    pub closed spec fn table(&self) -> Map<Seq<char>, u8> {
        pairs(self.mapping)
    }

    /// Construct a new [`AsciiIndexEncoder`] from a given alphabet.
    ///
    /// Fails where the alphabet has or declares more than 256 symbols, and
    /// where it lists a symbol twice.
    pub fn new(alphabet: &'a A) -> (encoder: Result<AsciiIndexEncoder<'a, A>, ConstructionError>)
        ensures
            match encoder {
                Ok(encoder) => encoder.spec_alphabet() == alphabet && may_map(
                    alphabet,
                    Ok(encoder.table()),
                ),
                Err(error) => may_map(alphabet, Err(error)),
            },
    {
        let max_size = alphabet.max_alphabet_size();
        let symbols = alphabet.symbols();
        proof {
            assert(may_list(alphabet, str_views(symbols@)));
            assert(may_declare(alphabet, max_size));
        }
        match construct_mapping(symbols, max_size) {
            Ok(mapping) => Ok(AsciiIndexEncoder { alphabet, mapping }),
            Err(error) => Err(error),
        }
    }

    /// Recalculates the mapping. Must be called if the alphabet is ever
    /// altered such that a symbol changes or the number of symbols changes.
    ///
    /// Fails as [`new`](AsciiIndexEncoder::new) does, and then leaves the
    /// mapping as it was.
    pub fn recalculate_mapping(&mut self) -> (recalculated: Result<(), ConstructionError>)
        ensures
            final(self).spec_alphabet() == old(self).spec_alphabet(),
            match recalculated {
                Ok(()) => may_map(old(self).spec_alphabet(), Ok(final(self).table())),
                Err(error) => may_map(old(self).spec_alphabet(), Err(error)) && final(self).table()
                    == old(self).table(),
            },
    {
        let max_size = self.alphabet.max_alphabet_size();
        let symbols = self.alphabet.symbols();
        proof {
            assert(may_list(self.alphabet, str_views(symbols@)));
            assert(may_declare(self.alphabet, max_size));
        }
        match construct_mapping(symbols, max_size) {
            Ok(mapping) => {
                self.mapping = mapping;
                Ok(())
            },
            Err(error) => Err(error),
        }
    }
}

impl<'a, A: Alphabet> AlphabetEncoder<A> for AsciiIndexEncoder<'a, A> {
    /// The code of `symbol` is the one byte that the mapping pairs it with.
    ///
    /// Fails for a symbol that the mapping does not hold: with
    /// [`ErrorKind::InvalidSymbol`] where the alphabet says that it does not
    /// contain the symbol, and with [`ErrorKind::NoMapping`] where it says
    /// that it does, so that the mapping is out of date.
    fn encode(&self, symbol: &str) -> (encoded: EncodingResult<Vec<u8>>)
        ensures
            self.table().contains_key(symbol@) ==> outcome(encoded) == Ok::<
                Seq<u8>,
                ErrorKindView,
            >(seq![self.table()[symbol@]]),
            !self.table().contains_key(symbol@) ==> exists|in_alphabet: bool|
                #[trigger] may_contain(self.spec_alphabet(), symbol@, in_alphabet) && outcome(
                    encoded,
                ) == Err::<Seq<u8>, ErrorKindView>(miss_kind(symbol@, in_alphabet)),
    {
        match table_get_by_left(&self.mapping, symbol) {
            Some(code) => {
                let encoded = vec![code];
                assert(encoded@ == seq![code]);
                Ok(encoded)
            },
            None => {
                let error = missing(self.alphabet, symbol);
                proof {
                    let in_alphabet = choose|in_alphabet: bool| #[trigger]
                        may_contain(self.alphabet, symbol@, in_alphabet) && error.kind()@
                            == miss_kind(symbol@, in_alphabet);
                    assert(may_contain(self.spec_alphabet(), symbol@, in_alphabet));
                }
                Err(error)
            },
        }
    }

    /// Each byte is decoded to the symbol that the mapping pairs it with.
    ///
    /// Fails with [`ErrorKind::NoMapping`] where the mapping pairs a byte of
    /// `symbols` with no symbol.
    fn decode_all(&self, symbols: &[u8]) -> (decoded: EncodingResult<Vec<&str>>)
        ensures
            match decoded {
                Ok(decoded) => decoded@.len() == symbols@.len() && forall|i: int|
                    0 <= i < symbols@.len() ==> self.table().contains_pair(
                        #[trigger] decoded@[i]@,
                        symbols@[i],
                    ),
                Err(error) => error.kind()@ == ErrorKindView::NoMapping && exists|i: int|
                    0 <= i < symbols@.len() && !self.table().contains_value(#[trigger] symbols@[i]),
            },
    {
        let mut decoded: Vec<&str> = Vec::new();
        let _ = decoded.try_reserve(symbols.len() / self.size_hint());
        let mut i: usize = 0;
        while i < symbols.len()
            invariant
                i <= symbols@.len(),
                decoded@.len() == i,
                forall|j: int|
                    0 <= j < i ==> self.table().contains_pair(#[trigger] decoded@[j]@, symbols@[j]),
            decreases symbols@.len() - i,
        {
            match table_get_by_right(&self.mapping, symbols[i]) {
                Some(symbol) => decoded.push(symbol),
                None => {
                    return Err(unmapped());
                },
            }
            i = i + 1;
        }
        Ok(decoded)
    }

    fn alphabet(&self) -> (alphabet: &A)
        ensures
            alphabet == self.spec_alphabet(),
    {
        self.alphabet
    }
}

//================================================================================
// Encoder of any width
//================================================================================

/// Whether an encoder of any width can be made for an alphabet that lists
/// `symbols` and declares at most `max_size` symbols, or why it cannot.
pub open spec fn listing_of(symbols: Seq<Seq<char>>, max_size: usize) -> Result<
    (),
    ConstructionError,
> {
    if symbols.len() > max_size {
        Err(ConstructionError::TooManySymbols)
    } else if !symbols.no_duplicates() {
        Err(ConstructionError::DuplicateSymbol)
    } else {
        Ok(())
    }
}

/// The `k`-th code of `width` bytes in `bytes`.
pub open spec fn code_at(bytes: Seq<u8>, width: nat, k: int) -> Seq<u8> {
    bytes.subrange(k * width, (k + 1) * width)
}

/// The symbols that `bytes` stand for where each symbol of `symbols` has the
/// identifier of its place, in `width` bytes, as its code. There are none
/// where `bytes` are not made of whole codes of symbols.
pub open spec fn index_decoded(symbols: Seq<Seq<char>>, width: nat, bytes: Seq<u8>) -> Option<
    Seq<Seq<char>>,
> {
    if width == 0 {
        if bytes.len() == 0 {
            Some(Seq::empty())
        } else {
            None
        }
    } else if bytes.len() % width != 0 {
        None
    } else if forall|k: int|
        0 <= k < bytes.len() / width ==> id_value(#[trigger] code_at(bytes, width, k))
            < symbols.len() {
        Some(
            Seq::new(
                bytes.len() / width,
                |k: int| symbols[id_value(code_at(bytes, width, k)) as int],
            ),
        )
    } else {
        None
    }
}

/// Whether the symbols of `list` are all different.
fn all_different(list: &[&str]) -> (different: bool)
    ensures
        different == str_views(list@).no_duplicates(),
{
    let ghost views = str_views(list@);
    let mut i: usize = 0;
    while i < list.len()
        invariant
            i <= list@.len(),
            views == str_views(list@),
            views.take(i as int).no_duplicates(),
        decreases list@.len() - i,
    {
        match position(list, list[i]) {
            Some(first) => {
                if first != i {
                    assert(views[first as int] == views[i as int]);
                    return false;
                }
            },
            None => {
                assert(views[i as int] == list@[i as int]@);
            },
        }
        proof {
            assert forall|j: int| 0 <= j < i implies views[j] != views[i as int] by {
                assert(views[j] == list@[j]@);
            }
        }
        i = i + 1;
    }
    proof {
        assert(views.take(list@.len() as int) == views);
    }
    true
}

/// The number that `code` spells when read most significant byte first.
fn read_id(code: &[u8]) -> (value: u64)
    requires
        code@.len() <= 8,
    ensures
        value == id_value(code@),
{
    let mut value: u64 = 0;
    let mut i: usize = 0;
    proof {
        lemma_id_count_values();
    }
    while i < code.len()
        invariant
            i <= code@.len() <= 8,
            value == id_value(code@.take(i as int)),
            value < id_count(i as nat),
            id_count(8) == 0x1_0000_0000_0000_0000,
        decreases code@.len() - i,
    {
        proof {
            assert(code@.take(i + 1).drop_last() == code@.take(i as int));
            lemma_id_count_increases((i + 1) as nat, 8);
        }
        value = value * 256 + code[i] as u64;
        i = i + 1;
    }
    proof {
        assert(code@.take(code@.len() as int) == code@);
    }
    value
}

/// An index encoder for alphabets of any size: it encodes each symbol of an
/// alphabet as the byte identifier of its index in the slice returned from
/// [`Alphabet::symbols`]. Every code has the same number of bytes, the fewest
/// that can hold the number that [`Alphabet::max_alphabet_size`] declares.
///
/// The encoder reads the symbols of its alphabet when it is made, and goes
/// on with what it read until
/// [`recalculate_mapping`](IndexEncoder::recalculate_mapping) is called.
///
/// To encode a symbol the encoder looks through the symbols one by one,
/// which takes longer the more symbols there are: an alphabet of up to 256
/// symbols is better served by an [`AsciiIndexEncoder`].
pub struct IndexEncoder<'a, A: Alphabet> {
    alphabet: &'a A,
    generator: ByteIdGenerator,
    listed: &'a [&'a str],
}

impl<'a, A: Alphabet> IndexEncoder<'a, A> {
    /// No symbol is listed twice, and the generator has an identifier for
    /// the index of each.
    #[verifier::type_invariant]
    spec fn well_formed(&self) -> bool {
        &&& str_views(self.listed@).no_duplicates()
        &&& self.listed@.len() <= self.generator.max()
    }

    /// The alphabet of this encoder, as contracts see it.
    pub closed spec fn spec_alphabet(&self) -> &'a A {
        self.alphabet
    }

    /// The symbols that this encoder read from its alphabet, in their order.
    pub closed spec fn symbols(&self) -> Seq<Seq<char>> {
        str_views(self.listed@)
    }

    /// The number of bytes of each code.
    pub closed spec fn width(&self) -> nat {
        self.generator.num_bytes() as nat
    }

    /// Reads the list and the declared maximum of `alphabet` and makes the
    /// generator for them.
    fn read(alphabet: &'a A) -> (read: Result<(ByteIdGenerator, &'a [&'a str]), ConstructionError>)
        ensures
            match read {
                Ok((generator, listed)) => may_list_for(
                    alphabet,
                    Ok((str_views(listed@), generator.num_bytes() as nat)),
                ) && str_views(listed@).no_duplicates() && listed@.len() <= generator.max(),
                Err(error) => may_list_for(alphabet, Err(error)),
            },
    {
        let max_size = alphabet.max_alphabet_size();
        let listed = alphabet.symbols();
        proof {
            assert(may_list(alphabet, str_views(listed@)));
            assert(may_declare(alphabet, max_size));
        }
        if listed.len() > max_size {
            return Err(ConstructionError::TooManySymbols);
        }
        if !all_different(listed) {
            return Err(ConstructionError::DuplicateSymbol);
        }
        Ok((ByteIdGenerator::from_max(max_size as u64), listed))
    }

    /// Construct a new [`IndexEncoder`] from a given alphabet.
    ///
    /// Fails where the alphabet has more symbols than it declares, and where
    /// it lists a symbol twice.
    pub fn new(alphabet: &'a A) -> (encoder: Result<IndexEncoder<'a, A>, ConstructionError>)
        ensures
            match encoder {
                Ok(encoder) => encoder.spec_alphabet() == alphabet && may_list_for(
                    alphabet,
                    Ok((encoder.symbols(), encoder.width())),
                ),
                Err(error) => may_list_for(alphabet, Err(error)),
            },
    {
        match Self::read(alphabet) {
            Ok((generator, listed)) => Ok(IndexEncoder { alphabet, generator, listed }),
            Err(error) => Err(error),
        }
    }

    /// Recalculates the mapping. Must be called if the alphabet is ever
    /// altered such that a symbol changes or the number of symbols changes.
    ///
    /// Fails as [`new`](IndexEncoder::new) does, and then leaves the mapping
    /// as it was.
    pub fn recalculate_mapping(&mut self) -> (recalculated: Result<(), ConstructionError>)
        ensures
            final(self).spec_alphabet() == old(self).spec_alphabet(),
            match recalculated {
                Ok(()) => may_list_for(
                    old(self).spec_alphabet(),
                    Ok((final(self).symbols(), final(self).width())),
                ),
                Err(error) => may_list_for(old(self).spec_alphabet(), Err(error))
                    && final(self).symbols() == old(self).symbols()
                    && final(self).width() == old(self).width(),
            },
    {
        let alphabet = self.alphabet;
        match Self::read(alphabet) {
            Ok((generator, listed)) => {
                *self = IndexEncoder { alphabet, generator, listed };
                Ok(())
            },
            Err(error) => Err(error),
        }
    }
}

/// Whether reading `alphabet` for an encoder of any width may end in `read`:
/// in a list of symbols that [`Alphabet::symbols`] may return, with the
/// width of the codes for the maximum that [`Alphabet::max_alphabet_size`]
/// may return, or in the reason why [`listing_of`] refuses the two.
pub open spec fn may_list_for<A: Alphabet>(
    alphabet: &A,
    read: Result<(Seq<Seq<char>>, nat), ConstructionError>,
) -> bool {
    exists|symbols: Seq<Seq<char>>, max_size: usize|
        #[trigger] may_list(alphabet, symbols) && #[trigger] may_declare(alphabet, max_size)
            && match read {
            Ok((listed, width)) => listing_of(symbols, max_size) is Ok && listed == symbols
                && width == min_bytes(max_size as nat),
            Err(error) => listing_of(symbols, max_size) == Err::<(), ConstructionError>(error),
        }
}

/// The error for a symbol that a mapping does not hold: the alphabet is
/// asked whether it contains the symbol, to tell a symbol that is none from
/// a mapping that is out of date.
fn missing<A: Alphabet>(alphabet: &A, symbol: &str) -> (error: EncodingError)
    ensures
        exists|in_alphabet: bool|
            #[trigger] may_contain(alphabet, symbol@, in_alphabet) && error.kind()@ == miss_kind(
                symbol@,
                in_alphabet,
            ),
{
    let mut description = "The index encoder failed to encode symbol. ".to_owned();
    // If the symbol is not in the alphabet:
    let in_alphabet = alphabet.contains(symbol);
    proof {
        assert(may_contain(alphabet, symbol@, in_alphabet));
    }
    let kind = if !in_alphabet {
        description.append(
            "The input to encode() was a symbol which does not exist in the alphabet: ",
        );
        description.append(symbol);
        ErrorKind::InvalidSymbol(symbol.to_owned())
    } else {
        // Symbol is in the Alphabet but wasn't when the mapping was constructed
        description.append("Did you alter the alphabet and forget to call recalculate_mapping()?");
        ErrorKind::NoMapping
    };
    EncodingError::new(kind, description)
}

/// The error for bytes that are the code of no symbol.
fn unmapped() -> (error: EncodingError)
    ensures
        error.kind()@ == ErrorKindView::NoMapping,
{
    let description =
        "The index encoder failed to decode symbol. Did you alter the size of the alphabet and forget to call recalculate_mapping()?";
    EncodingError::new(ErrorKind::NoMapping, description.to_owned())
}

impl<'a, A: Alphabet> AlphabetEncoder<A> for IndexEncoder<'a, A> {
    /// The code of `symbol` is the byte identifier of its place in the list
    /// of symbols.
    ///
    /// Fails for a symbol that the list does not hold: with
    /// [`ErrorKind::InvalidSymbol`] where the alphabet says that it does not
    /// contain the symbol, and with [`ErrorKind::NoMapping`] where it says
    /// that it does, so that the list is out of date.
    fn encode(&self, symbol: &str) -> (encoded: EncodingResult<Vec<u8>>)
        ensures
            self.symbols().contains(symbol@) ==> outcome(encoded) == Ok::<Seq<u8>, ErrorKindView>(
                id_bytes(self.symbols().index_of(symbol@) as nat, self.width()),
            ),
            !self.symbols().contains(symbol@) ==> exists|in_alphabet: bool|
                #[trigger] may_contain(self.spec_alphabet(), symbol@, in_alphabet) && outcome(
                    encoded,
                ) == Err::<Seq<u8>, ErrorKindView>(miss_kind(symbol@, in_alphabet)),
    {
        proof {
            use_type_invariant(self);
        }
        match position(self.listed, symbol) {
            Some(index) => {
                proof {
                    let views = str_views(self.listed@);
                    assert(views[index as int] == symbol@);
                    assert(views.index_of(symbol@) == index);
                }
                Ok(self.generator.get_id_unchecked(index as u64))
            },
            None => {
                let error = missing(self.alphabet, symbol);
                proof {
                    let in_alphabet = choose|in_alphabet: bool| #[trigger]
                        may_contain(self.alphabet, symbol@, in_alphabet) && error.kind()@
                            == miss_kind(symbol@, in_alphabet);
                    assert(may_contain(self.spec_alphabet(), symbol@, in_alphabet));
                }
                Err(error)
            },
        }
    }

    /// Each code is decoded to the symbol whose place it identifies.
    ///
    /// Fails with [`ErrorKind::NoMapping`] where `symbols` are not made of
    /// whole codes of symbols.
    fn decode_all(&self, symbols: &[u8]) -> (decoded: EncodingResult<Vec<&str>>)
        ensures
            match index_decoded(self.symbols(), self.width(), symbols@) {
                Some(list) => decoded matches Ok(decoded) && str_views(decoded@) == list,
                None => decoded matches Err(error) && error.kind()@ == ErrorKindView::NoMapping,
            },
    {
        proof {
            use_type_invariant(self);
        }
        let width = self.generator.num_bytes() as usize;
        let mut decoded: Vec<&str> = Vec::new();
        if width == 0 {
            return if symbols.len() == 0 {
                assert(str_views(decoded@) == Seq::<Seq<char>>::empty());
                Ok(decoded)
            } else {
                Err(unmapped())
            };
        }
        if symbols.len() % width != 0 {
            return Err(unmapped());
        }
        let count = symbols.len() / width;
        let _ = decoded.try_reserve(count);
        let ghost listed = str_views(self.listed@);
        let mut k: usize = 0;
        let mut start: usize = 0;
        proof {
            assert(0 * width == 0) by (nonlinear_arith);
            assert(count * width == symbols@.len()) by (nonlinear_arith)
                requires
                    count == symbols@.len() / (width as nat),
                    symbols@.len() % (width as nat) == 0,
                    width > 0,
            ;
        }
        while k < count
            invariant
                0 < width <= 8,
                width == self.width(),
                listed == str_views(self.listed@),
                listed == self.symbols(),
                k <= count,
                count == symbols@.len() / (width as nat),
                count * width == symbols@.len() <= usize::MAX,
                start == k * width,
                decoded@.len() == k,
                forall|j: int|
                    0 <= j < k ==> id_value(#[trigger] code_at(symbols@, width as nat, j))
                        < listed.len() && decoded@[j]@ == listed[id_value(
                        code_at(symbols@, width as nat, j),
                    ) as int],
            decreases count - k,
        {
            proof {
                assert((k + 1) * width == k * width + width) by (nonlinear_arith);
                assert((k + 1) * width <= count * width) by (nonlinear_arith)
                    requires
                        k + 1 <= count,
                        width > 0,
                ;
                assert(start + width <= symbols@.len());
            }
            let code = slice_subrange(symbols, start, start + width);
            assert(code@ == code_at(symbols@, width as nat, k as int));
            let index = read_id(code);
            if index >= self.listed.len() as u64 {
                return Err(unmapped());
            }
            decoded.push(self.listed[index as usize]);
            k = k + 1;
            start = start + width;
        }
        proof {
            assert(str_views(decoded@) == index_decoded(listed, width as nat, symbols@).unwrap());
        }
        Ok(decoded)
    }

    fn alphabet(&self) -> (alphabet: &A)
        ensures
            alphabet == self.spec_alphabet(),
    {
        self.alphabet
    }

    /// Every code has as many bytes as the identifiers of the generator.
    fn size_hint(&self) -> (hint: usize)
        ensures
            hint == self.width(),
    {
        self.generator.num_bytes() as usize
    }
}

//================================================================================
// Laws
//================================================================================

/// Bytes that hold whole codes of a one-byte encoder hold nothing but codes
/// of its table, so each of them can be decoded.
pub proof fn lemma_codes_are_in_table<'a, A: Alphabet>(
    encoder: &AsciiIndexEncoder<'a, A>,
    bytes: Seq<u8>,
)
    requires
        holds_codes(encoder, bytes),
    ensures
        forall|i: int| 0 <= i < bytes.len() ==> encoder.table().contains_value(#[trigger] bytes[i]),
{
    let symbols = choose|symbols: Seq<Seq<char>>| is_encoding(encoder, symbols, bytes);
    let codes = choose|codes: Seq<Vec<u8>>|
        #[trigger] joined(codes) == bytes && codes.len() == symbols.len() && forall|i: int|
            0 <= i < symbols.len() ==> may_encode(encoder, #[trigger] symbols[i], Ok(codes[i]));
    assert forall|i: int| 0 <= i < codes.len() implies (#[trigger] codes[i])@.len() == 1
        && encoder.table().contains_value(codes[i]@[0]) by {
        let encoded: EncodingResult<Vec<u8>> = Ok(codes[i]);
        assert(may_encode(encoder, symbols[i], encoded));
        let symbol = choose|s: &str| #[trigger]
            call_ensures(AsciiIndexEncoder::<'a, A>::encode, (encoder, s), encoded) && s@
                == symbols[i];
        assert(outcome(encoded) is Ok);
        assert(encoder.table().contains_key(symbol@));
        assert(codes[i]@ == seq![encoder.table()[symbol@]]);
    }
    lemma_joined_single_bytes(codes);
    assert forall|i: int| 0 <= i < bytes.len() implies encoder.table().contains_value(
        #[trigger] bytes[i],
    ) by {
        assert(bytes[i] == codes[i]@[0]);
    }
}

/// A table built from a list pairs each symbol with its place and each place
/// with its symbol, and holds nothing else.
pub proof fn lemma_index_table(symbols: Seq<Seq<char>>, max_size: usize)
    requires
        mapping_of(symbols, max_size) is Ok,
    ensures
        symbols.no_duplicates(),
        symbols.len() <= 256,
        forall|symbol: Seq<char>, code: u8|
            #[trigger] index_table(symbols).contains_pair(symbol, code) <==> code < symbols.len()
                && symbols[code as int] == symbol,
        forall|symbol: Seq<char>|
            #[trigger] index_table(symbols).contains_key(symbol) <==> symbols.contains(symbol),
{
    let table = index_table(symbols);
    assert forall|symbol: Seq<char>, code: u8| #[trigger]
        table.contains_pair(symbol, code) <==> code < symbols.len() && symbols[code as int]
            == symbol by {
        if code < symbols.len() && symbols[code as int] == symbol {
            assert(symbols.contains(symbol));
        }
    }
}

/// Decoding the code of a symbol gives the symbol back: for every symbol of
/// the list that the mapping of the encoder was made from, after it was
/// constructed and after every recalculation, `encode` succeeds with the
/// place of the symbol as its only byte, and `decode` of that code succeeds
/// with the symbol.
pub proof fn lemma_decode_reverses_encode<'a, A: Alphabet>(
    encoder: &AsciiIndexEncoder<'a, A>,
    symbols: Seq<Seq<char>>,
    max_size: usize,
    symbol: &str,
    encoded: EncodingResult<Vec<u8>>,
    code: &[u8],
    decoded: EncodingResult<&str>,
)
    requires
        mapping_of(symbols, max_size) == Ok::<Map<Seq<char>, u8>, ConstructionError>(
            encoder.table(),
        ),
        symbols.contains(symbol@),
        call_ensures(AsciiIndexEncoder::<'a, A>::encode, (encoder, symbol), encoded),
        encoded matches Ok(bytes) ==> code@ == bytes@,
        call_ensures(AsciiIndexEncoder::<'a, A>::decode, (encoder, code), decoded),
    ensures
        encoded matches Ok(bytes) && bytes@ == seq![symbols.index_of(symbol@) as u8],
        decoded matches Ok(back) && back@ == symbol@,
{
    lemma_index_table(symbols, max_size);
    let place = symbols.index_of(symbol@);
    assert(encoder.table().contains_pair(symbol@, place as u8));
    assert(outcome(encoded) is Ok);
    let all = choose|all: EncodingResult<Vec<&str>>|
        call_ensures(AsciiIndexEncoder::<'a, A>::decode_all, (encoder, code), all) && match all {
            Ok(symbols) => if symbols@.len() == 1 {
                decoded == Ok::<&str, EncodingError>(symbols@[0])
            } else {
                decoded matches Err(error) && error.kind()@ == ErrorKindView::InvalidBytes(code@)
            },
            Err(error) => decoded == Err::<&str, EncodingError>(error),
        };
    assert(code@[0] == place as u8);
    match all {
        Ok(list) => {
            assert(encoder.table().contains_pair(list@[0]@, code@[0]));
        },
        Err(error) => {
            assert(encoder.table().contains_value(code@[0]));
        },
    }
}

/// `encode` on a symbol absent from the alphabet returns
/// [`ErrorKind::InvalidSymbol`] with the symbol: where no list that the
/// alphabet may hand out holds the symbol, and the mapping of the encoder
/// was made from such a list, no other result is possible.
pub proof fn lemma_absent_symbol_is_invalid<'a, A: Alphabet>(
    encoder: &AsciiIndexEncoder<'a, A>,
    symbol: &str,
    encoded: EncodingResult<Vec<u8>>,
)
    requires
        may_map(encoder.spec_alphabet(), Ok(encoder.table())),
        forall|symbols: Seq<Seq<char>>| #[trigger]
            may_list(encoder.spec_alphabet(), symbols) ==> !symbols.contains(symbol@),
        call_ensures(AsciiIndexEncoder::<'a, A>::encode, (encoder, symbol), encoded),
    ensures
        outcome(encoded) == Err::<Seq<u8>, ErrorKindView>(ErrorKindView::InvalidSymbol(symbol@)),
{
    let alphabet = encoder.spec_alphabet();
    let (symbols, max_size) = choose|symbols: Seq<Seq<char>>, max_size: usize| #[trigger]
        may_list(alphabet, symbols) && #[trigger] may_declare(alphabet, max_size) && mapping_of(
            symbols,
            max_size,
        ) == Ok::<Map<Seq<char>, u8>, ConstructionError>(encoder.table());
    lemma_index_table(symbols, max_size);
    assert(!encoder.table().contains_key(symbol@));
    lemma_answers_are_listed(alphabet, symbol);
}

/// What an alphabet answers when asked whether it contains a symbol is what
/// holds of a list that it may hand out.
pub proof fn lemma_answers_are_listed<A: Alphabet>(alphabet: &A, symbol: &str)
    ensures
        forall|found: bool| #[trigger]
            may_contain(alphabet, symbol@, found) ==> exists|symbols: Seq<Seq<char>>| #[trigger]
                may_list(alphabet, symbols) && found == symbols.contains(symbol@),
{
    assert forall|found: bool| #[trigger] may_contain(alphabet, symbol@, found) implies exists|
        symbols: Seq<Seq<char>>,
    | #[trigger]
        may_list(alphabet, symbols) && found == symbols.contains(symbol@) by {
        let s = choose|s: &str| #[trigger]
            call_ensures(A::contains, (alphabet, s), found) && s@ == symbol@;
        let list = choose|list: &[&str]| #[trigger]
            call_ensures(A::symbols, (alphabet,), list) && found == str_views(list@).contains(s@);
        assert(may_list(alphabet, str_views(list@)));
    }
}

/// `encode` on a symbol that the mapping does not hold, but that every list
/// that the alphabet may hand out holds, returns [`ErrorKind::NoMapping`]:
/// the mapping is out of date.
pub proof fn lemma_unmapped_symbol_has_no_mapping<'a, A: Alphabet>(
    encoder: &AsciiIndexEncoder<'a, A>,
    symbol: &str,
    encoded: EncodingResult<Vec<u8>>,
)
    requires
        !encoder.table().contains_key(symbol@),
        forall|symbols: Seq<Seq<char>>| #[trigger]
            may_list(encoder.spec_alphabet(), symbols) ==> symbols.contains(symbol@),
        call_ensures(AsciiIndexEncoder::<'a, A>::encode, (encoder, symbol), encoded),
    ensures
        outcome(encoded) == Err::<Seq<u8>, ErrorKindView>(ErrorKindView::NoMapping),
{
    lemma_answers_are_listed(encoder.spec_alphabet(), symbol);
}

/// Where each symbol of a list has the identifier of its place as its code,
/// in the width that an encoder of any width takes for the list, the code
/// of a symbol stands for that symbol and no other.
pub proof fn lemma_index_code_stands_for_symbol(
    symbols: Seq<Seq<char>>,
    max_size: usize,
    place: int,
)
    requires
        listing_of(symbols, max_size) is Ok,
        0 <= place < symbols.len(),
    ensures
        index_decoded(
            symbols,
            min_bytes(max_size as nat),
            id_bytes(place as nat, min_bytes(max_size as nat)),
        ) == Some(seq![symbols[place]]),
{
    let width = min_bytes(max_size as nat);
    let code = id_bytes(place as nat, width);
    lemma_min_bytes_is_least(max_size as nat);
    lemma_id_bytes_len(place as nat, width);
    lemma_id_round_trip(place as nat, width);
    assert(width > 0);
    assert(code.len() % width == 0 && code.len() / width == 1) by (nonlinear_arith)
        requires
            code.len() == width,
            width > 0,
    ;
    assert(code_at(code, width, 0) == code);
    assert forall|k: int| 0 <= k < code.len() / width implies id_value(
        #[trigger] code_at(code, width, k),
    ) < symbols.len() by {
        assert(k == 0);
    }
    assert(index_decoded(symbols, width, code).unwrap() == seq![symbols[place]]);
}

/// Decoding the code of a symbol gives the symbol back, for an encoder of
/// any width: for every symbol of the list that the encoder read, after it
/// was constructed and after every recalculation, `encode` succeeds and
/// `decode` of the code succeeds with the symbol.
pub proof fn lemma_index_decode_reverses_encode<'a, A: Alphabet>(
    encoder: &IndexEncoder<'a, A>,
    max_size: usize,
    symbol: &str,
    encoded: EncodingResult<Vec<u8>>,
    code: &[u8],
    decoded: EncodingResult<&str>,
)
    requires
        listing_of(encoder.symbols(), max_size) is Ok,
        encoder.width() == min_bytes(max_size as nat),
        encoder.symbols().contains(symbol@),
        call_ensures(IndexEncoder::<'a, A>::encode, (encoder, symbol), encoded),
        encoded matches Ok(bytes) ==> code@ == bytes@,
        call_ensures(IndexEncoder::<'a, A>::decode, (encoder, code), decoded),
    ensures
        encoded matches Ok(bytes) && bytes@ == id_bytes(
            encoder.symbols().index_of(symbol@) as nat,
            encoder.width(),
        ),
        decoded matches Ok(back) && back@ == symbol@,
{
    let symbols = encoder.symbols();
    let place = symbols.index_of(symbol@);
    lemma_index_code_stands_for_symbol(symbols, max_size, place);
    assert(outcome(encoded) is Ok);
    let all = choose|all: EncodingResult<Vec<&str>>|
        call_ensures(IndexEncoder::<'a, A>::decode_all, (encoder, code), all) && match all {
            Ok(symbols) => if symbols@.len() == 1 {
                decoded == Ok::<&str, EncodingError>(symbols@[0])
            } else {
                decoded matches Err(error) && error.kind()@ == ErrorKindView::InvalidBytes(code@)
            },
            Err(error) => decoded == Err::<&str, EncodingError>(error),
        };
    match all {
        Ok(list) => {
            assert(str_views(list@) == seq![symbols[place]]);
            assert(str_views(list@)[0] == list@[0]@);
        },
        Err(error) => {},
    }
}

/// `encode` on a symbol absent from the alphabet returns
/// [`ErrorKind::InvalidSymbol`] with the symbol, for an encoder of any
/// width: where no list that the alphabet may hand out holds the symbol, and
/// the encoder read such a list, no other result is possible.
pub proof fn lemma_index_absent_symbol_is_invalid<'a, A: Alphabet>(
    encoder: &IndexEncoder<'a, A>,
    symbol: &str,
    encoded: EncodingResult<Vec<u8>>,
)
    requires
        may_list_for(encoder.spec_alphabet(), Ok((encoder.symbols(), encoder.width()))),
        forall|symbols: Seq<Seq<char>>| #[trigger]
            may_list(encoder.spec_alphabet(), symbols) ==> !symbols.contains(symbol@),
        call_ensures(IndexEncoder::<'a, A>::encode, (encoder, symbol), encoded),
    ensures
        outcome(encoded) == Err::<Seq<u8>, ErrorKindView>(ErrorKindView::InvalidSymbol(symbol@)),
{
    lemma_answers_are_listed(encoder.spec_alphabet(), symbol);
}

} // verus!
