//! Defines multiple DNA alphabets for varying common situations

use crate::alphabet::{Alphabet, Complement};
use crate::util::text::str_views;
use vstd::prelude::*;

verus! {

/// An alphabet that contains the symbols ACTG
///
/// | Symbol | Meaning  | Complement |
/// |--------|----------|------------|
/// | A      | Adenine  | T          |
/// | C      | Cytosine | G          |
/// | T      | Thymine  | A          |
/// | G      | Guanine  | C          |
pub struct UnambiguousDnaAlphabet;

impl UnambiguousDnaAlphabet {
    /// The symbols, in the order in which they are listed.
    pub open spec fn symbol_list() -> Seq<Seq<char>> {
        seq!["A"@, "C"@, "T"@, "G"@]
    }

    /// The complement of each symbol, in the order of the symbols.
    pub open spec fn complement_list() -> Seq<Seq<char>> {
        seq!["T"@, "G"@, "A"@, "C"@]
    }
}

impl Alphabet for UnambiguousDnaAlphabet {
    #[inline]
    fn symbols(&self) -> (symbols: &[&str])
        ensures
            str_views(symbols@) == Self::symbol_list(),
    {
        let symbols: &[&str] = &["A", "C", "T", "G"];
        assert(str_views(symbols@) == Self::symbol_list());
        symbols
    }
}

impl Complement for UnambiguousDnaAlphabet {
    #[inline]
    fn complement_mapping(&self) -> (complements: &[&str])
        ensures
            str_views(complements@) == Self::complement_list(),
    {
        let complements: &[&str] = &["T", "G", "A", "C"];
        assert(str_views(complements@) == Self::complement_list());
        complements
    }
}

/// An alphabet that contains the symbols AGCTYRWSKMDVHBN
///
/// | Symbol | Meaning             | Complement |
/// |--------|---------------------|------------|
/// | A      | Adenine             | T          |
/// | G      | Guanine             | C          |
/// | C      | Cytosine            | G          |
/// | T      | Thymine             | A          |
/// | Y      | Pyrimidine (C or T) | R          |
/// | R      | Purine (A or G)     | Y          |
/// | W      | weak (A or T)       | W          |
/// | S      | strong (G or C)     | S          |
/// | K      | keto (T or G)       | M          |
/// | M      | amino (C or A)      | K          |
/// | D      | A, G, T (not C)     | H          |
/// | V      | A, C, G (not T)     | B          |
/// | H      | A, C, T (not G)     | D          |
/// | B      | C, G, T (not A)     | V          |
/// | N      | Any base            | N          |
pub struct AmbiguousDnaAlphabet;

impl AmbiguousDnaAlphabet {
    /// The symbols, in the order in which they are listed.
    pub open spec fn symbol_list() -> Seq<Seq<char>> {
        seq![
            "A"@,
            "G"@,
            "C"@,
            "T"@,
            "Y"@,
            "R"@,
            "W"@,
            "S"@,
            "K"@,
            "M"@,
            "D"@,
            "V"@,
            "H"@,
            "B"@,
            "N"@,
        ]
    }

    /// The complement of each symbol, in the order of the symbols.
    pub open spec fn complement_list() -> Seq<Seq<char>> {
        seq![
            "T"@,
            "C"@,
            "G"@,
            "A"@,
            "R"@,
            "Y"@,
            "W"@,
            "S"@,
            "M"@,
            "K"@,
            "H"@,
            "B"@,
            "D"@,
            "V"@,
            "N"@,
        ]
    }
}

impl Alphabet for AmbiguousDnaAlphabet {
    #[inline]
    fn symbols(&self) -> (symbols: &[&str])
        ensures
            str_views(symbols@) == Self::symbol_list(),
    {
        let symbols: &[&str] = &[
            "A",
            "G",
            "C",
            "T",
            "Y",
            "R",
            "W",
            "S",
            "K",
            "M",
            "D",
            "V",
            "H",
            "B",
            "N",
        ];
        assert(str_views(symbols@) == Self::symbol_list());
        symbols
    }
}

impl Complement for AmbiguousDnaAlphabet {
    #[inline]
    fn complement_mapping(&self) -> (complements: &[&str])
        ensures
            str_views(complements@) == Self::complement_list(),
    {
        let complements: &[&str] = &[
            "T",
            "C",
            "G",
            "A",
            "R",
            "Y",
            "W",
            "S",
            "M",
            "K",
            "H",
            "B",
            "D",
            "V",
            "N",
        ];
        assert(str_views(complements@) == Self::complement_list());
        complements
    }
}

} // verus!
