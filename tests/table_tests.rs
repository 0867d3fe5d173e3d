use fsst::table::{DecodeError, SymbolTable};

fn round_trip(st: &SymbolTable, input: &[u8]) -> Vec<u8> {
    let mut enc = Vec::new();
    st.encode(input, &mut enc);
    let mut dec = Vec::new();
    assert_eq!(st.decode(&enc, &mut dec), Ok(()));
    dec
}

#[test]
fn empty_input() {
    let st = SymbolTable::build(&[]);
    let mut enc = Vec::new();
    st.encode(b"", &mut enc);
    assert!(enc.is_empty());
    let mut dec = Vec::new();
    assert_eq!(st.decode(b"", &mut dec), Ok(()));
    assert!(dec.is_empty());
}

#[test]
fn single_byte_is_escaped() {
    let st = SymbolTable::build(&[b"a"]);
    let mut enc = Vec::new();
    st.encode(b"a", &mut enc);
    assert_eq!(enc, vec![255, b'a']);
    let mut dec = Vec::new();
    assert_eq!(st.decode(&enc, &mut dec), Ok(()));
    assert_eq!(dec, b"a".to_vec());
}

#[test]
fn trained_string_round_trips() {
    let input: &[u8] = b"tumcwitumvldb";
    let st = SymbolTable::build(&[input]);
    assert_eq!(round_trip(&st, input), input.to_vec());
}

#[test]
fn escape_byte_values_are_escaped() {
    let input: &[u8] = &[255, 255, 255];
    let st = SymbolTable::build(&[input]);
    let mut enc = Vec::new();
    st.encode(input, &mut enc);
    assert_eq!(enc, vec![255, 255, 255, 255, 255, 255]);
    assert_eq!(round_trip(&st, input), input.to_vec());
}

#[test]
fn repeated_line_is_learned() {
    let lines: Vec<&[u8]> = vec![b"abc"; 200];
    let st = SymbolTable::build(&lines);
    let mut found = false;
    for code in 256..256 + st.n_symbols() {
        if st.symbol(code).value == 0x63_6261 && st.symbol(code).len == 24 {
            found = true;
        }
    }
    assert!(found);
    let mut enc = Vec::new();
    st.encode(b"abc", &mut enc);
    assert_eq!(enc.len(), 1);
    let mut total = 0;
    for line in &lines {
        let mut e = Vec::new();
        st.encode(line, &mut e);
        total += e.len();
    }
    assert_eq!(total, 200);
}

#[test]
fn alphabet_codes_one_byte_each() {
    let letters: Vec<u8> = (b'a'..=b'z').collect();
    let mut lines: Vec<&[u8]> = Vec::new();
    for _ in 0..20 {
        for i in 0..letters.len() {
            lines.push(&letters[i..i + 1]);
        }
    }
    let st = SymbolTable::build(&lines);
    let mut enc = Vec::new();
    st.encode(&letters, &mut enc);
    assert_eq!(enc.len(), letters.len());
    assert_eq!(round_trip(&st, &letters), letters);
}

#[test]
fn table_size_is_bounded() {
    let text: Vec<u8> = (0..40000u32).map(|i| (i * 7 % 251) as u8).collect();
    let lines: Vec<&[u8]> = text.chunks(37).collect();
    let st = SymbolTable::build(&lines);
    assert!(st.n_symbols() <= 254);
    for line in &lines {
        assert_eq!(round_trip(&st, line), line.to_vec());
    }
}

#[test]
fn zero_bytes_at_the_tail_round_trip() {
    let lines: Vec<&[u8]> = vec![b"a\0\0a\0\0"; 300];
    let st = SymbolTable::build(&lines);
    for input in [&b"a"[..], b"a\0", b"a\0\0", b"\0", b"a\0\0a\0\0a", b"xa"] {
        assert_eq!(round_trip(&st, input), input.to_vec());
    }
}

#[test]
fn decode_reports_truncated_escape() {
    let st = SymbolTable::build(&[]);
    let mut dec = vec![1, 2];
    assert_eq!(st.decode(&[255, b'a', 255], &mut dec), Err(DecodeError::TruncatedEscape));
    assert_eq!(dec, vec![1, 2]);
}

#[test]
fn decode_reports_unknown_code() {
    let st = SymbolTable::build(&[]);
    let mut dec = Vec::new();
    assert_eq!(st.decode(&[7], &mut dec), Err(DecodeError::UnknownCode));
    assert!(dec.is_empty());
}

#[test]
fn encode_and_decode_append() {
    let st = SymbolTable::build(&[b"hello world"]);
    let mut enc = vec![9];
    st.encode(b"hi", &mut enc);
    assert_eq!(enc, vec![9, 255, b'h', 255, b'i']);
    let mut dec = vec![b'>'];
    assert_eq!(st.decode(&enc[1..], &mut dec), Ok(()));
    assert_eq!(dec, b">hi".to_vec());
}

#[test]
fn build_is_deterministic() {
    let mut lines: Vec<&[u8]> = Vec::new();
    for _ in 0..50 {
        lines.push(b"alpha beta");
        lines.push(b"beta gamma");
        lines.push(b"gamma alpha");
    }
    let a = SymbolTable::build(&lines);
    let b = SymbolTable::build(&lines);
    assert_eq!(a.n_symbols(), b.n_symbols());
    for code in 0..256 + a.n_symbols() {
        assert_eq!(a.symbol(code), b.symbol(code));
    }
    for line in &lines {
        let mut ea = Vec::new();
        let mut eb = Vec::new();
        a.encode(line, &mut ea);
        b.encode(line, &mut eb);
        assert_eq!(ea, eb);
        assert_eq!(round_trip(&a, line), line.to_vec());
    }
}

#[test]
fn frequent_bytes_win_the_slots() {
    let bytes: Vec<u8> = (0..=255u8).collect();
    let mut lines: Vec<&[u8]> = Vec::new();
    for b in 0..254usize {
        for _ in 0..50 {
            lines.push(&bytes[b..b + 1]);
        }
    }
    for _ in 0..6 {
        lines.push(&bytes[254..255]);
        lines.push(&bytes[255..256]);
    }
    let st = SymbolTable::build(&lines);
    assert_eq!(st.n_symbols(), 254);
    let mut enc = Vec::new();
    st.encode(&[7], &mut enc);
    assert_eq!(enc.len(), 1);
    let mut rare = Vec::new();
    st.encode(&[254, 255], &mut rare);
    assert_eq!(rare, vec![255, 254, 255, 255]);
    assert_eq!(round_trip(&st, &bytes), bytes);
}

#[test]
fn escapes_are_followed_by_their_literal() {
    let mut lines: Vec<&[u8]> = Vec::new();
    for _ in 0..100 {
        lines.push(b"key=value;");
    }
    let st = SymbolTable::build(&lines);
    let input: &[u8] = b"key=\xffvalue;\x00\xff";
    let mut enc = Vec::new();
    st.encode(input, &mut enc);
    let mut literals = Vec::new();
    let mut i = 0;
    while i < enc.len() {
        if enc[i] == 255 {
            assert!(i + 1 < enc.len());
            literals.push(enc[i + 1]);
            i += 2;
        } else {
            i += 1;
        }
    }
    assert!(literals.contains(&0xff));
    assert!(literals.contains(&0x00));
    assert!(enc.len() < 2 * input.len());
    assert_eq!(round_trip(&st, input), input.to_vec());
}
