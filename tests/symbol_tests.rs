use fsst::symbol::{symbol_to_text, symbols_to_text, text_to_symbols, Symbol};

fn sym(bytes: &[u8]) -> Symbol {
    let mut s = Symbol::new();
    for &b in bytes {
        s.add_char(b);
    }
    s
}

#[test]
fn new_symbol_is_empty() {
    let s = Symbol::new();
    assert_eq!(s.value, 0);
    assert_eq!(s.len, 0);
}

#[test]
fn with_keeps_fields() {
    let s = Symbol::with(0x6261, 16);
    assert_eq!(s.value, 0x6261);
    assert_eq!(s.len, 16);
}

#[test]
fn add_char_packs_first_byte_lowest() {
    let s = sym(b"ab");
    assert_eq!(s.value, 0x6261);
    assert_eq!(s.len, 16);
}

#[test]
fn starts_with_compares_prefix() {
    let abc = sym(b"abc");
    assert!(abc.starts_with(&sym(b"ab")));
    assert!(abc.starts_with(&sym(b"abc")));
    assert!(!abc.starts_with(&sym(b"ac")));
    assert!(abc.starts_with(&Symbol::new()));
    let full = sym(b"abcdefgh");
    assert!(full.starts_with(&sym(b"abcdefgh")));
    assert!(!full.starts_with(&sym(b"abcdefgx")));
}

#[test]
fn extend_concatenates() {
    let s = sym(b"ab").extend(&sym(b"cd"));
    assert_eq!(s.value, 0x6463_6261);
    assert_eq!(s.len, 32);
    let t = sym(b"abcdefgh").extend(&Symbol::new());
    assert_eq!(t, sym(b"abcdefgh"));
}

#[test]
fn first_bytes_mask_the_head() {
    let s = Symbol::with(0x0807_0605_0403_0201, 64);
    assert_eq!(s.first3byte(), 0x03_0201);
    assert_eq!(s.first2byte(), 0x0201);
    assert_eq!(s.first1byte(), 0x01);
}

#[test]
fn text_to_symbols_cuts_eight_byte_pieces() {
    let v = text_to_symbols(b"abcdefghij");
    assert_eq!(v.len(), 2);
    assert_eq!(v[0], sym(b"abcdefgh"));
    assert_eq!(v[1].value, 0x6a69);
    assert_eq!(v[1].len, 16);
    assert!(text_to_symbols(b"").is_empty());
    assert_eq!(text_to_symbols(b"abcdefgh").len(), 1);
}

#[test]
fn symbols_to_text_joins_pieces() {
    let text = b"the quick brown fox".to_vec();
    assert_eq!(symbols_to_text(&text_to_symbols(&text)), text);
    assert_eq!(symbols_to_text(&[]), Vec::<u8>::new());
}

#[test]
fn symbol_to_text_gives_bytes() {
    assert_eq!(symbol_to_text(&sym(b"xyz")), b"xyz".to_vec());
    assert_eq!(symbol_to_text(&Symbol::new()), Vec::<u8>::new());
}
