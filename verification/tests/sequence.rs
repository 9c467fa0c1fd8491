use biors::alphabet::encoding::index_encoder::ConstructionError;
use biors::alphabet::encoding::{AlphabetEncoder, EncodingResult, ErrorKind};
use biors::alphabet::{Alphabet, UnambiguousDnaAlphabet};
use biors::sequence::{string_chunks, Sequence};

struct TestAlphabet;

impl TestAlphabet {
    const SYMBOLS: [&'static str; 4] = ["AA", "TT", "GG", "CC"];
}

impl Alphabet for TestAlphabet {
    fn symbols(&self) -> &[&str] {
        &TestAlphabet::SYMBOLS
    }

    fn symbol_size(&self) -> usize {
        2
    }
}

struct TestEncoder<'a, A: Alphabet> {
    alphabet: &'a A,
}

impl<'a, A: Alphabet> TestEncoder<'a, A> {
    fn new(alphabet: &'a A) -> Self {
        TestEncoder { alphabet }
    }
}

impl<'a, A: Alphabet> AlphabetEncoder<A> for TestEncoder<'a, A> {
    fn encode(&self, _symbol: &str) -> EncodingResult<Vec<u8>> {
        panic!("this encoder encodes nothing")
    }

    fn decode_all(&self, _symbols: &[u8]) -> EncodingResult<Vec<&str>> {
        panic!("this encoder decodes nothing")
    }

    fn alphabet(&self) -> &A {
        self.alphabet
    }
}

/// An encoder that writes each symbol as the bytes of its text and a zero
struct TextEncoder<'a, A: Alphabet> {
    alphabet: &'a A,
}

impl<'a, A: Alphabet> AlphabetEncoder<A> for TextEncoder<'a, A> {
    fn encode(&self, symbol: &str) -> EncodingResult<Vec<u8>> {
        let mut code = symbol.as_bytes().to_vec();
        code.push(0);
        Ok(code)
    }

    fn decode_all(&self, _symbols: &[u8]) -> EncodingResult<Vec<&str>> {
        panic!("this encoder decodes nothing")
    }

    fn alphabet(&self) -> &A {
        self.alphabet
    }

    fn size_hint(&self) -> usize {
        usize::MAX
    }
}

/// An alphabet of symbols of three characters, some of them of several bytes
struct WideAlphabet;

impl Alphabet for WideAlphabet {
    fn symbols(&self) -> &[&str] {
        &["ɑɑB", "ɓɔɔ", "AAA", "€𝄞x"]
    }

    fn symbol_size(&self) -> usize {
        3
    }
}

/// Test that the from_encoder method works throw in a sneaky circular to test as well
#[test]
fn from_encoder() {
    let a = TestAlphabet;
    let e = TestEncoder::new(&a);

    let s = Sequence::from_encoder(e).circular(true);
    let _a2 = s.alphabet();
}

/// Tests the string_chunks function for perfectly sized input
#[test]
fn string_chunks_proper_size() {
    let str1 = "ABCDEF";
    let str3 = "AAABBBCCCDDDEEEFFF";
    let str_unicode = "ɑɑBɓɔɔAA";

    let exp1 = vec!["A", "B", "C", "D", "E", "F"];
    let exp3 = vec!["AAA", "BBB", "CCC", "DDD", "EEE", "FFF"];
    let exp_unicode = vec!["ɑɑ", "Bɓ", "ɔɔ", "AA"];

    let res1: Vec<_> = string_chunks(str1, 1).into_iter().collect();
    let res3: Vec<_> = string_chunks(str3, 3).into_iter().collect();
    let res_unicode: Vec<_> = string_chunks(str_unicode, 2).into_iter().collect();

    assert_eq!(res1, exp1);
    assert_eq!(res3, exp3);
    assert_eq!(res_unicode, exp_unicode);
}

/// Tests that the string_chunks function when there are extra characters at the end of input
#[test]
fn string_chunks_wrong_size() {
    let str1 = "AABBC";
    let str2 = "ɑɑBɓɔ";

    let exp1 = vec!["AA", "BB"];
    let exp2 = vec!["ɑɑ", "Bɓ"];

    let res1: Vec<_> = string_chunks(str1, 2).into_iter().collect();
    let res2: Vec<_> = string_chunks(str2, 2).into_iter().collect();

    assert_eq!(res1, exp1);
    assert_eq!(res2, exp2);
}

/// Asserts that the push method on sequence works for exact expected input
#[test]
fn push_string() {
    let a = TestAlphabet;
    let mut s = Sequence::new(&a).unwrap();

    s.push("AATTCCGGCCAA").unwrap();
    let encoding = vec![0, 1, 3, 2, 3, 0];

    assert_eq!(s.as_bytes(), encoding)
}

/// Asserts that hte push method on sequence works for input with extra characters at the end
#[test]
fn push_string_extra_characters() {
    let a = TestAlphabet;
    let mut s = Sequence::new(&a).unwrap();

    match s.push("AATTCCG") {
        Ok(_) => panic!("push allowed badly sized string"),
        Err(err) => {
            assert_eq!(err.kind(), &ErrorKind::InvalidLength);
        }
    };

    s.clear();
    s.push_unchecked("AATTCCG").unwrap();
    let encoding = vec![0, 1, 3];

    assert_eq!(s.as_bytes(), encoding);
}

/// Assert AsciiIndexEncoded sequences display correctly
#[test]
fn display() {
    let a = TestAlphabet;
    let mut s = Sequence::new(&a).unwrap();

    let seq: Vec<&str> = ["AA"].iter().cycle().take(60).map(|s| *s).collect();

    s.extend(&seq).unwrap();

    let display_res = s.to_string();
    let bytes: Vec<u8> = "A".bytes().cycle().take(100).collect();
    let exp_string = std::str::from_utf8(bytes.as_slice()).unwrap();
    let expected = format!("Sequence: {}", exp_string);

    assert_eq!(display_res, expected);
}

/// Chunks are cut where characters start, whatever their number of bytes
#[test]
fn string_chunks_of_wide_characters() {
    // one, two, three and four bytes
    let text = "a€𝄞ɑb𝄞𝄞€x";
    assert_eq!(string_chunks(text, 1), vec!["a", "€", "𝄞", "ɑ", "b", "𝄞", "𝄞", "€", "x"]);
    assert_eq!(string_chunks(text, 2), vec!["a€", "𝄞ɑ", "b𝄞", "𝄞€"]);
    assert_eq!(string_chunks(text, 4), vec!["a€𝄞ɑ", "b𝄞𝄞€"]);
    assert_eq!(string_chunks(text, 9), vec![text]);
    assert_eq!(string_chunks(text, 10), Vec::<&str>::new());
    assert_eq!(string_chunks("", 1), Vec::<&str>::new());
    assert_eq!(string_chunks("", 3), Vec::<&str>::new());
    assert_eq!(string_chunks("abc", usize::MAX), Vec::<&str>::new());
    assert_eq!(string_chunks("abc", 0), Vec::<&str>::new());
}

/// A new sequence is empty and not circular
#[test]
fn new_sequence_is_empty() {
    let a = UnambiguousDnaAlphabet;
    let s = Sequence::new(&a).unwrap();
    assert!(s.as_bytes().is_empty());
    assert!(!s.is_circular());
    assert_eq!(s.to_string(), "Sequence: ");
    assert_eq!(s.alphabet().symbols(), ["A", "C", "T", "G"]);

    let s = Sequence::new(&a).unwrap().circular(true);
    assert!(s.is_circular());
    let s = s.circular(false);
    assert!(!s.is_circular());
}

/// Pushes append in order
#[test]
fn push_appends() {
    let a = UnambiguousDnaAlphabet;
    let mut s = Sequence::new(&a).unwrap();

    s.push("ATTCGGC").unwrap();
    assert_eq!(s.as_bytes(), [0, 2, 2, 1, 3, 3, 1]);
    s.push("").unwrap();
    assert_eq!(s.as_bytes(), [0, 2, 2, 1, 3, 3, 1]);
    s.push("GA").unwrap();
    assert_eq!(s.as_bytes(), [0, 2, 2, 1, 3, 3, 1, 3, 0]);
    s.push_unchecked("C").unwrap();
    assert_eq!(s.as_bytes(), [0, 2, 2, 1, 3, 3, 1, 3, 0, 1]);
    assert_eq!(s.to_string(), "Sequence: ATTCGGCGAC");
}

/// A push that fails appends nothing
#[test]
fn failed_push_appends_nothing() {
    let a = TestAlphabet;
    let mut s = Sequence::new(&a).unwrap();
    s.push("AATT").unwrap();

    match s.push("GGC") {
        Ok(_) => panic!("push allowed badly sized string"),
        Err(err) => assert_eq!(err.kind(), &ErrorKind::InvalidLength),
    }
    assert_eq!(s.as_bytes(), [0, 1]);

    match s.push("GGXXCC") {
        Ok(_) => panic!("push allowed a symbol that is not in the alphabet"),
        Err(err) => assert_eq!(err.kind(), &ErrorKind::InvalidSymbol("XX".to_owned())),
    }
    assert_eq!(s.as_bytes(), [0, 1]);

    match s.push_unchecked("GGXXC") {
        Ok(_) => panic!("push allowed a symbol that is not in the alphabet"),
        Err(err) => assert_eq!(err.kind(), &ErrorKind::InvalidSymbol("XX".to_owned())),
    }
    assert_eq!(s.as_bytes(), [0, 1]);

    s.push_unchecked("G").unwrap();
    assert_eq!(s.as_bytes(), [0, 1]);
}

/// Symbols are counted in characters, not in bytes
#[test]
fn push_wide_symbols() {
    let a = WideAlphabet;
    let mut s = Sequence::new(&a).unwrap();

    s.push("AAA€𝄞xɑɑBɓɔɔ").unwrap();
    assert_eq!(s.as_bytes(), [2, 3, 0, 1]);
    // seven bytes, two characters
    match s.push("€𝄞") {
        Ok(_) => panic!("push allowed badly sized string"),
        Err(err) => assert_eq!(err.kind(), &ErrorKind::InvalidLength),
    }
    s.push_unchecked("ɓɔɔ€𝄞").unwrap();
    assert_eq!(s.as_bytes(), [2, 3, 0, 1, 1]);
    assert_eq!(s.to_string(), "Sequence: AAA€𝄞xɑɑBɓɔɔɓɔɔ");
}

/// Clearing empties the sequence and leaves the rest
#[test]
fn clear_empties() {
    let a = TestAlphabet;
    let mut s = Sequence::new(&a).unwrap().circular(true);
    s.push("AATT").unwrap();
    s.clear();
    assert!(s.as_bytes().is_empty());
    assert!(s.is_circular());
    s.push("CC").unwrap();
    assert_eq!(s.as_bytes(), [3]);
}

/// Extending stops at the first string that cannot be pushed and keeps what was pushed
#[test]
fn extend_stops_at_first_error() {
    let a = TestAlphabet;
    let mut s = Sequence::new(&a).unwrap();

    match s.extend(&["AATT", "GGC", "CC"]) {
        Ok(_) => panic!("extend allowed badly sized string"),
        Err(err) => assert_eq!(err.kind(), &ErrorKind::InvalidLength),
    }
    assert_eq!(s.as_bytes(), [0, 1]);

    match s.extend(&["CC", "AAZZ", "GG"]) {
        Ok(_) => panic!("extend allowed a symbol that is not in the alphabet"),
        Err(err) => assert_eq!(err.kind(), &ErrorKind::InvalidSymbol("ZZ".to_owned())),
    }
    assert_eq!(s.as_bytes(), [0, 1, 3]);

    s.extend(&[]).unwrap();
    s.extend(&["GG", "", "AACC"]).unwrap();
    assert_eq!(s.as_bytes(), [0, 1, 3, 2, 0, 3]);
}

/// Only the first fifty symbols are shown
#[test]
fn display_is_cut_at_fifty() {
    let a = UnambiguousDnaAlphabet;
    let mut s = Sequence::new(&a).unwrap();
    let text = "ACGT".repeat(12);
    s.push(&text).unwrap();
    assert_eq!(s.to_string(), format!("Sequence: {}", text));
    s.push("AC").unwrap();
    assert_eq!(s.to_string(), format!("Sequence: {}AC", text));
    s.push("GTTT").unwrap();
    assert_eq!(s.to_string(), format!("Sequence: {}AC", text));
    assert_eq!(s.as_bytes().len(), 54);
}

/// A sequence stores what its encoder makes of the symbols, whatever that is
#[test]
fn push_with_a_custom_encoder() {
    let a = TestAlphabet;
    let mut s = Sequence::from_encoder(TextEncoder { alphabet: &a });
    s.push("AAxy").unwrap();
    assert_eq!(s.as_bytes(), [b'A', b'A', 0, b'x', b'y', 0]);
    match s.push("AAx") {
        Ok(_) => panic!("push allowed badly sized string"),
        Err(err) => assert_eq!(err.kind(), &ErrorKind::InvalidLength),
    }
    s.push_unchecked("zzz").unwrap();
    assert_eq!(s.as_bytes(), [b'A', b'A', 0, b'x', b'y', 0, b'z', b'z', 0]);
}

/// No sequence can be made for an alphabet that has no one byte encoder
#[test]
fn new_sequence_fails_with_the_encoder() {
    struct Repeating;
    impl Alphabet for Repeating {
        fn symbols(&self) -> &[&str] {
            &["A", "A"]
        }
    }
    struct Growing;
    impl Alphabet for Growing {
        fn symbols(&self) -> &[&str] {
            &["A"]
        }
        fn max_alphabet_size(&self) -> usize {
            1000
        }
    }
    assert_eq!(
        Sequence::new(&Repeating).err().map(|e| e),
        Some(ConstructionError::DuplicateSymbol)
    );
    assert_eq!(
        Sequence::new(&Growing).err().map(|e| e),
        Some(ConstructionError::TooManySymbols)
    );
}
