use biors::alphabet::encoding::index_encoder::{ConstructionError, IndexEncoder};
use biors::alphabet::encoding::{AlphabetEncoder, ErrorKind};
use biors::alphabet::{Alphabet, UnambiguousDnaAlphabet};
use biors::sequence::Sequence;
use std::cell::Cell;

/// An alphabet with the symbols and the maximum that it is given
struct ListedAlphabet {
    symbols: Vec<&'static str>,
    max: usize,
}

impl Alphabet for ListedAlphabet {
    fn symbols(&self) -> &[&str] {
        &self.symbols
    }

    fn max_alphabet_size(&self) -> usize {
        self.max
    }
}

/// Distinct symbols, as many as asked for
fn numbered_symbols(count: usize) -> Vec<&'static str> {
    let mut symbols: Vec<&'static str> = Vec::new();
    for i in 0..count {
        let symbol: &'static str = Box::leak(format!("s{}", i).into_boxed_str());
        symbols.push(symbol);
    }
    symbols
}

/// An alphabet that lists more symbols once it was changed
struct ChangingAlphabet {
    changed: Cell<bool>,
}

impl Alphabet for ChangingAlphabet {
    fn symbols(&self) -> &[&str] {
        if self.changed.get() {
            &["EE", "BB", "CC", "DD"]
        } else {
            &["AA", "BB", "CC"]
        }
    }

    fn symbol_size(&self) -> usize {
        2
    }

    fn max_alphabet_size(&self) -> usize {
        70000
    }
}

/// The codes have the fewest bytes that hold the declared maximum
#[test]
fn any_width_code_width() {
    for (max, width) in [(3usize, 1usize), (255, 1), (256, 2), (65535, 2), (65536, 3), (1 << 24, 4)] {
        let a = ListedAlphabet {
            symbols: vec!["x", "y", "z"],
            max,
        };
        let encoder = IndexEncoder::new(&a).unwrap();
        assert_eq!(encoder.size_hint(), width);
        assert_eq!(encoder.encode("z").unwrap().len(), width);
    }
    let a = UnambiguousDnaAlphabet;
    let encoder = IndexEncoder::new(&a).unwrap();
    assert_eq!(encoder.size_hint(), 2);
    assert_eq!(encoder.encode("G").unwrap(), vec![0, 3]);
}

/// Each symbol is encoded as the identifier of its place
#[test]
fn any_width_encode() {
    let a = ListedAlphabet {
        symbols: numbered_symbols(600),
        max: 1000,
    };
    let encoder = IndexEncoder::new(&a).unwrap();

    assert_eq!(encoder.encode("s0").unwrap(), vec![0, 0]);
    assert_eq!(encoder.encode("s255").unwrap(), vec![0, 255]);
    assert_eq!(encoder.encode("s256").unwrap(), vec![1, 0]);
    assert_eq!(encoder.encode("s599").unwrap(), vec![2, 87]);
    assert_eq!(
        encoder.encode_all(&["s1", "s258", "s0"]).unwrap(),
        vec![0, 1, 1, 2, 0, 0]
    );
    assert_eq!(encoder.alphabet().symbols().len(), 600);
}

/// Decoding the code of a symbol gives the symbol back
#[test]
fn any_width_decode_reverses_encode() {
    let a = ListedAlphabet {
        symbols: numbered_symbols(600),
        max: 70000,
    };
    let encoder = IndexEncoder::new(&a).unwrap();
    for symbol in a.symbols() {
        let code = encoder.encode(symbol).unwrap();
        assert_eq!(code.len(), 3);
        assert_eq!(encoder.decode(&code).unwrap(), *symbol);
    }
    assert_eq!(
        encoder.decode_all(&[0, 0, 5, 0, 2, 0, 0, 0, 0]).unwrap(),
        vec!["s5", "s512", "s0"]
    );
    assert!(encoder.decode_all(&[]).unwrap().is_empty());
}

/// Bytes that are not whole codes of symbols have no mapping
#[test]
fn any_width_decode_errors() {
    let a = ListedAlphabet {
        symbols: numbered_symbols(600),
        max: 1000,
    };
    let encoder = IndexEncoder::new(&a).unwrap();

    // the place after the last symbol
    match encoder.decode_all(&[0, 1, 2, 88]) {
        Ok(_) => panic!("bytes that are no code were decoded"),
        Err(err) => assert_eq!(*err.kind(), ErrorKind::NoMapping),
    }
    assert_eq!(encoder.decode_all(&[0, 1, 2, 87]).unwrap(), vec!["s1", "s599"]);
    // half a code
    match encoder.decode_all(&[0, 1, 2]) {
        Ok(_) => panic!("half a code was decoded"),
        Err(err) => assert_eq!(*err.kind(), ErrorKind::NoMapping),
    }
    match encoder.decode(&[0]) {
        Ok(_) => panic!("half a code was decoded"),
        Err(err) => assert_eq!(*err.kind(), ErrorKind::NoMapping),
    }
    match encoder.decode(&[0, 1, 0, 2]) {
        Ok(_) => panic!("decode() worked with two codes"),
        Err(err) => assert_eq!(*err.kind(), ErrorKind::InvalidBytes(vec![0, 1, 0, 2])),
    }
    match encoder.decode(&[]) {
        Ok(_) => panic!("decode() worked with no code"),
        Err(err) => assert_eq!(*err.kind(), ErrorKind::InvalidBytes(vec![])),
    }
}

/// A symbol that is not listed is invalid, or has no mapping where the list is out of date
#[test]
fn any_width_encode_errors() {
    let a = ChangingAlphabet {
        changed: Cell::new(false),
    };
    let mut encoder = IndexEncoder::new(&a).unwrap();

    match encoder.encode("EE") {
        Ok(_) => panic!("a symbol that is not in the alphabet was encoded"),
        Err(err) => assert_eq!(*err.kind(), ErrorKind::InvalidSymbol("EE".to_owned())),
    }
    a.changed.set(true);
    match encoder.encode("EE") {
        Ok(_) => panic!("a symbol that the mapping does not hold was encoded"),
        Err(err) => assert_eq!(*err.kind(), ErrorKind::NoMapping),
    }
    assert_eq!(encoder.encode("AA").unwrap(), vec![0, 0, 0]);
    encoder.recalculate_mapping().unwrap();
    assert_eq!(encoder.encode("EE").unwrap(), vec![0, 0, 0]);
    assert_eq!(encoder.encode("DD").unwrap(), vec![0, 0, 3]);
    match encoder.encode("AA") {
        Ok(_) => panic!("a symbol that is not in the alphabet was encoded"),
        Err(err) => assert_eq!(*err.kind(), ErrorKind::InvalidSymbol("AA".to_owned())),
    }
    assert_eq!(encoder.decode(&[0, 0, 0]).unwrap(), "EE");
}

/// No encoder for an alphabet with more symbols than it declares or with a symbol listed twice
#[test]
fn any_width_construction_errors() {
    let a = ListedAlphabet {
        symbols: vec!["x", "y", "z"],
        max: 2,
    };
    assert_eq!(
        IndexEncoder::new(&a).err(),
        Some(ConstructionError::TooManySymbols)
    );
    let a = ListedAlphabet {
        symbols: vec!["x", "y", "z", "y"],
        max: 10,
    };
    assert_eq!(
        IndexEncoder::new(&a).err(),
        Some(ConstructionError::DuplicateSymbol)
    );
    let a = ListedAlphabet {
        symbols: vec!["x", "y", "x"],
        max: 2,
    };
    assert_eq!(
        IndexEncoder::new(&a).err(),
        Some(ConstructionError::TooManySymbols)
    );
    let a = ListedAlphabet {
        symbols: vec![],
        max: 0,
    };
    let encoder = IndexEncoder::new(&a).unwrap();
    assert_eq!(encoder.size_hint(), 0);
    assert!(encoder.decode_all(&[]).unwrap().is_empty());
    match encoder.decode_all(&[0]) {
        Ok(_) => panic!("bytes were decoded by an encoder without symbols"),
        Err(err) => assert_eq!(*err.kind(), ErrorKind::NoMapping),
    }
    match encoder.encode("x") {
        Ok(_) => panic!("a symbol was encoded by an encoder without symbols"),
        Err(err) => assert_eq!(*err.kind(), ErrorKind::InvalidSymbol("x".to_owned())),
    }
}

/// A sequence stores codes of several bytes one after the other
#[test]
fn any_width_sequence() {
    let a = ChangingAlphabet {
        changed: Cell::new(false),
    };
    let mut s = Sequence::from_encoder(IndexEncoder::new(&a).unwrap());
    s.push("CCAABB").unwrap();
    assert_eq!(s.as_bytes(), [0, 0, 2, 0, 0, 0, 0, 0, 1]);
    match s.push("CCA") {
        Ok(_) => panic!("push allowed badly sized string"),
        Err(err) => assert_eq!(err.kind(), &ErrorKind::InvalidLength),
    }
    match s.push("CCXX") {
        Ok(_) => panic!("push allowed a symbol that is not in the alphabet"),
        Err(err) => assert_eq!(err.kind(), &ErrorKind::InvalidSymbol("XX".to_owned())),
    }
    assert_eq!(s.as_bytes().len(), 9);
}
