//! An alphabet is a set of symbols that can be used to construct a sequence.
//! This module provides the traits that alphabets implement, and the
//! submodules hold common alphabets and the encoders of their symbols.
//!
//! The symbols of an alphabet may change while the alphabet is in use, so
//! contracts never speak of "the" symbols of an alphabet. They speak of what
//! a call of [`Alphabet::symbols`] may return, which is whatever the contract
//! of that method allows for the alphabet at hand.

pub use self::dna::{AmbiguousDnaAlphabet, UnambiguousDnaAlphabet};

use crate::util::text::{last_position, position, str_views};
use vstd::pervasive::unreached;
use vstd::prelude::*;

pub mod dna;
pub mod encoding;

verus! {

//================================================================================
// Model
//================================================================================

/// Whether [`Alphabet::symbols`] may return, for `alphabet`, a list that
/// reads `symbols`.
pub open spec fn may_list<A: Alphabet>(alphabet: &A, symbols: Seq<Seq<char>>) -> bool {
    exists|list: &[&str]|
        #[trigger] call_ensures(A::symbols, (alphabet,), list) && str_views(list@) == symbols
}

/// Whether [`Alphabet::symbol_size`] may return `size` for `alphabet`.
pub open spec fn may_size<A: Alphabet>(alphabet: &A, size: usize) -> bool {
    call_ensures(A::symbol_size, (alphabet,), size)
}

/// Whether [`Alphabet::max_alphabet_size`] may return `max` for `alphabet`.
pub open spec fn may_declare<A: Alphabet>(alphabet: &A, max: usize) -> bool {
    call_ensures(A::max_alphabet_size, (alphabet,), max)
}

/// Whether [`Alphabet::contains`] may answer `found` when `alphabet` is
/// asked for `symbol`.
pub open spec fn may_contain<A: Alphabet>(alphabet: &A, symbol: Seq<char>, found: bool) -> bool {
    exists|s: &str| #[trigger] call_ensures(A::contains, (alphabet, s), found) && s@ == symbol
}

/// Whether `place` is where the complement of `symbol` stands: the last
/// place within both lists at which `symbols` holds `symbol`.
pub open spec fn complement_place(
    symbols: Seq<Seq<char>>,
    complements: Seq<Seq<char>>,
    symbol: Seq<char>,
    place: int,
) -> bool {
    &&& 0 <= place < symbols.len()
    &&& place < complements.len()
    &&& symbols[place] == symbol
    &&& forall|later: int|
        place < later < symbols.len() && later < complements.len() ==> symbols[later] != symbol
}

/// Whether `complement` is the complement of `symbol` under the two lists.
pub open spec fn is_complement(
    symbols: Seq<Seq<char>>,
    complements: Seq<Seq<char>>,
    symbol: Seq<char>,
    complement: Seq<char>,
) -> bool {
    exists|place: int|
        #[trigger] complement_place(symbols, complements, symbol, place) && complement
            == complements[place]
}

/// Whether `symbol` has a complement under the two lists.
pub open spec fn has_complement(
    symbols: Seq<Seq<char>>,
    complements: Seq<Seq<char>>,
    symbol: Seq<char>,
) -> bool {
    exists|place: int| complement_place(symbols, complements, symbol, place)
}

/// Whether `output` holds, place by place, the complements of `input`.
pub open spec fn complemented(
    symbols: Seq<Seq<char>>,
    complements: Seq<Seq<char>>,
    input: Seq<Seq<char>>,
    output: Seq<Seq<char>>,
) -> bool {
    &&& output.len() == input.len()
    &&& forall|i: int|
        0 <= i < input.len() ==> #[trigger] is_complement(
            symbols,
            complements,
            input[i],
            output[i],
        )
}

//================================================================================
// Traits
//================================================================================

/// The alphabet trait is implemented for any type that can be used to
/// construct a sequence.
pub trait Alphabet {
    /// Returns slice containing each valid symbol in the alphabet
    ///
    /// Each symbol should occur once in the returned slice. Symbols are
    /// considered to be case sensitive.
    fn symbols(&self) -> &[&str];

    /// The number of characters of each symbol in
    /// [`symbols`](Alphabet::symbols), which is greater than 0.
    ///
    /// The default symbol size is 1.
    fn symbol_size(&self) -> (size: usize)
        ensures
            size >= 1,
        default_ensures
            size == 1,
    {
        1
    }

    /// Returns the maximum number of symbols that the alphabet will ever
    /// contain over its entire lifetime.
    ///
    /// The default is 256, which lets every symbol be encoded in a single
    /// byte.
    fn max_alphabet_size(&self) -> (max: usize)
        default_ensures
            max == 256,
    {
        256
    }

    /// Returns true if the alphabet contains the symbol `s` else false:
    /// whether `s` is in the list that [`symbols`](Alphabet::symbols) hands
    /// out when asked.
    fn contains(&self, s: &str) -> (found: bool)
        ensures
            exists|list: &[&str]|
                #[trigger] call_ensures(Self::symbols, (self,), list) && found == str_views(
                    list@,
                ).contains(s@),
    {
        let symbols = self.symbols();
        let place = position(symbols, s);
        proof {
            if let Some(i) = place {
                assert(str_views(symbols@)[i as int] == s@);
            }
        }
        place.is_some()
    }

    /// Checks to see if the alphabet can construct a sequence of symbols:
    /// whether it says of each symbol of `word`, asked in turn, that it
    /// contains it.
    fn is_word(&self, word: &[&str]) -> (all: bool)
        ensures
            all ==> forall|i: int|
                0 <= i < word@.len() ==> call_ensures(
                    Self::contains,
                    (self, #[trigger] word@[i]),
                    true,
                ),
            !all ==> exists|i: int|
                0 <= i < word@.len() && call_ensures(
                    Self::contains,
                    (self, #[trigger] word@[i]),
                    false,
                ),
    {
        let mut i: usize = 0;
        while i < word.len()
            invariant
                i <= word@.len(),
                forall|j: int|
                    0 <= j < i ==> call_ensures(Self::contains, (self, #[trigger] word@[j]), true),
            decreases word@.len() - i,
        {
            if !self.contains(word[i]) {
                return false;
            }
            i = i + 1;
        }
        true
    }
}

/// The complement trait is implemented for any [`Alphabet`] that has a
/// mapping from one symbol to another.
pub trait Complement: Alphabet {
    /// Returns a slice of strings where the string at position i is the
    /// complement of the symbol from [`Alphabet::symbols`] at position i.
    /// The mapping does not need to be one to one.
    ///
    /// The slice should be as long as the one that [`Alphabet::symbols`]
    /// returns and hold only symbols of the alphabet.
    fn complement_mapping(&self) -> &[&str];

    /// Gives, for each symbol of `input`, its complement as defined by
    /// [`complement_mapping`](Complement::complement_mapping).
    ///
    /// Every symbol of `input` must have a complement, whatever lists the
    /// alphabet hands out.
    fn complement(&self, input: &[&str]) -> (output: Vec<&str>)
        requires
            forall|symbols: &[&str], complements: &[&str], i: int|
                #![trigger
                    call_ensures(Self::symbols, (self,), symbols),
                    call_ensures(Self::complement_mapping, (self,), complements),
                    input@[i]
                ]
                call_ensures(Self::symbols, (self,), symbols) && call_ensures(
                    Self::complement_mapping,
                    (self,),
                    complements,
                ) && 0 <= i < input@.len() ==> has_complement(
                    str_views(symbols@),
                    str_views(complements@),
                    input@[i]@,
                ),
        ensures
            exists|symbols: &[&str], complements: &[&str]|
                #[trigger] call_ensures(Self::symbols, (self,), symbols) && #[trigger] call_ensures(
                    Self::complement_mapping,
                    (self,),
                    complements,
                ) && complemented(
                    str_views(symbols@),
                    str_views(complements@),
                    str_views(input@),
                    str_views(output@),
                ),
    {
        let symbols = self.symbols();
        let complements = self.complement_mapping();
        let mut output: Vec<&str> = Vec::with_capacity(input.len());
        let mut i: usize = 0;
        while i < input.len()
            invariant
                i <= input@.len(),
                output@.len() == i,
                forall|j: int|
                    0 <= j < input@.len() ==> has_complement(
                        str_views(symbols@),
                        str_views(complements@),
                        #[trigger] input@[j]@,
                    ),
                forall|j: int|
                    0 <= j < i ==> is_complement(
                        str_views(symbols@),
                        str_views(complements@),
                        input@[j]@,
                        #[trigger] output@[j]@,
                    ),
            decreases input@.len() - i,
        {
            let place = last_position(symbols, complements.len(), input[i]);
            let complement: &str = match place {
                Some(place) => complements[place],
                None => {
                    proof {
                        let missing = choose|p: int|
                            complement_place(
                                str_views(symbols@),
                                str_views(complements@),
                                input@[i as int]@,
                                p,
                            );
                        assert(str_views(symbols@)[missing] == symbols@[missing]@);
                    }
                    unreached()
                },
            };
            proof {
                let p = place.unwrap() as int;
                assert(complement_place(
                    str_views(symbols@),
                    str_views(complements@),
                    input@[i as int]@,
                    p,
                ));
            }
            output.push(complement);
            i = i + 1;
        }
        proof {
            assert(complemented(
                str_views(symbols@),
                str_views(complements@),
                str_views(input@),
                str_views(output@),
            ));
        }
        output
    }
}

} // verus!
