use base_x::alphabet::{Alphabet, AlphabetSource, ByteAlphabet, InvalidAlphabet, ScalarAlphabet};
use base_x::decoder::decode_with;
use base_x::encoder::encode_with;
use base_x::{decode, encode, DecodeError};

const BASE58: &str = "123456789ABCDEFGHJKLMNPQRSTUVWXYZabcdefghijkmnopqrstuvwxyz";
const HEX: &str = "0123456789abcdef";

#[test]
fn is_unicode_sound() {
    // binary, kinda...
    let alphabet = "😐😀";

    let encoded = encode(alphabet, &[0xff, 0x00, 0xff, 0x00]);
    let decoded = decode(alphabet, &encoded).unwrap();

    assert_eq!(
        encoded,
        "😀😀😀😀😀😀😀😀😐😐😐😐😐😐😐😐😀😀😀😀😀😀😀😀😐😐😐😐😐😐😐😐"
    );
    assert_eq!(decoded, &[0xff, 0x00, 0xff, 0x00]);
}

#[test]
fn binary_text_decodes_to_its_bit_pattern() {
    let text = "11111111000000001111111100000000";
    let decoded = decode("01", text).unwrap();
    assert_eq!(decoded, vec![0xff, 0x00, 0xff, 0x00]);
    assert_eq!(encode("01", &decoded), text);
}

#[test]
fn binary_text_over_a_byte_alphabet() {
    let text = "11111111000000001111111100000000";
    let decoded = decode("01".as_bytes(), text).unwrap();
    assert_eq!(decoded, vec![0xff, 0x00, 0xff, 0x00]);
    assert_eq!(encode("01".as_bytes(), &decoded), text);
}

#[test]
fn leading_zero_bytes_become_zero_symbols() {
    assert_eq!(encode("01", &[0x00, 0x00, 0xff]), "0011111111");
    assert_eq!(encode(HEX, &[0x00, 0x00, 0xff]), "00ff");
    assert_eq!(encode(BASE58, &[0x00, 0x00, 0xff]), "115Q");
    assert_eq!(encode("ab", &[0x00, 0x00, 0xff]), "aabbbbbbbb");
}

#[test]
fn leading_zero_symbols_become_zero_bytes() {
    assert_eq!(decode("01", "0011111111"), Ok(vec![0x00, 0x00, 0xff]));
    assert_eq!(decode(HEX, "00ff"), Ok(vec![0x00, 0x00, 0xff]));
    assert_eq!(decode(BASE58, "115Q"), Ok(vec![0x00, 0x00, 0xff]));
}

#[test]
fn the_zero_symbol_is_the_first_symbol_whatever_it_looks_like() {
    // Here '1' is the zero symbol and '0' stands for the digit one.
    assert_eq!(encode("10", &[0x00, 0x05]), "1010");
    assert_eq!(decode("10", "1010"), Ok(vec![0x00, 0x05]));
    assert_eq!(decode("10", "1111"), Ok(vec![0x00, 0x00, 0x00, 0x00]));
}

#[test]
fn empty_input_gives_empty_output() {
    assert_eq!(encode("01", &[]), "");
    assert_eq!(encode(BASE58, &[]), "");
    assert_eq!(encode(HEX.as_bytes(), &[]), "");
    assert_eq!(decode("01", ""), Ok(vec![]));
    assert_eq!(decode(BASE58, ""), Ok(vec![]));
    assert_eq!(decode(HEX.as_bytes(), ""), Ok(vec![]));
}

#[test]
fn all_zero_input_is_one_zero_symbol_per_byte() {
    assert_eq!(encode(BASE58, &[0x00]), "1");
    assert_eq!(encode(BASE58, &[0x00, 0x00, 0x00]), "111");
    assert_eq!(decode(BASE58, "111"), Ok(vec![0x00, 0x00, 0x00]));
}

#[test]
fn base58_known_values() {
    assert_eq!(encode(BASE58, b"Hello World!"), "2NEpo7TZRRrLZSi2U");
    assert_eq!(decode(BASE58, "2NEpo7TZRRrLZSi2U"), Ok(b"Hello World!".to_vec()));
    assert_eq!(encode(BASE58, &[0x00, 0x00, 0x28, 0x7f, 0xb4, 0xcd]), "11233QC4");
    assert_eq!(decode(BASE58, "11233QC4"), Ok(vec![0x00, 0x00, 0x28, 0x7f, 0xb4, 0xcd]));
    assert_eq!(
        encode(BASE58, &[0x04, 0x30, 0x5e, 0x2b, 0x24, 0x73, 0xf0, 0x58]),
        "he11owor1d"
    );
}

#[test]
fn hex_known_values() {
    assert_eq!(encode(HEX, &[0xde, 0xad, 0xbe, 0xef]), "deadbeef");
    assert_eq!(encode(HEX, &[0x0f]), "f");
    assert_eq!(encode(HEX, &[0x00, 0x0f]), "0f");
    assert_eq!(decode(HEX, "deadbeef"), Ok(vec![0xde, 0xad, 0xbe, 0xef]));
    assert_eq!(decode(HEX, "f"), Ok(vec![0x0f]));
    assert_eq!(decode(HEX, "123"), Ok(vec![0x01, 0x23]));
}

#[test]
fn decimal_known_values() {
    assert_eq!(encode("0123456789", &[0x01, 0x00]), "256");
    assert_eq!(encode("0123456789", &[0xff, 0xff, 0xff, 0xff]), "4294967295");
    assert_eq!(decode("0123456789", "65536"), Ok(vec![0x01, 0x00, 0x00]));
    assert_eq!(decode("0123456789", "0255"), Ok(vec![0x00, 0xff]));
}

#[test]
fn decoding_undoes_encoding() {
    let inputs: Vec<Vec<u8>> = vec![
        vec![],
        vec![0],
        vec![0, 0],
        vec![1],
        vec![255],
        vec![0, 1, 0],
        vec![0, 0, 255, 0, 0],
        vec![1, 2, 3, 4, 5, 6, 7, 8, 9, 10, 11, 12, 13, 14, 15, 16],
        (0..=255).collect(),
        (0..=255).rev().collect(),
    ];
    let alphabets = ["01", "ab", "012", "0123456789", HEX, BASE58, "😐😀", "zyx€ß"];
    for alphabet in alphabets {
        for input in &inputs {
            let text = encode(alphabet, input);
            assert_eq!(decode(alphabet, &text), Ok(input.clone()));
        }
    }
}

#[test]
fn decoding_undoes_encoding_over_byte_alphabets() {
    let every_byte: Vec<u8> = (0..=255).collect();
    let alphabets: Vec<&[u8]> = vec![b"01", b"0123456789abcdef", BASE58.as_bytes(), &every_byte];
    let inputs: Vec<Vec<u8>> = vec![vec![], vec![0, 0, 7], vec![200, 100, 0], (0..64).collect()];
    for alphabet in alphabets {
        for input in &inputs {
            let text = encode(alphabet, input);
            assert_eq!(decode(alphabet, &text), Ok(input.clone()));
        }
    }
}

#[test]
fn encoding_undoes_decoding_of_encoded_text() {
    let alphabets = ["01", HEX, BASE58, "😐😀"];
    for alphabet in alphabets {
        for input in [vec![], vec![0u8, 0, 9], vec![77u8; 20]] {
            let text = encode(alphabet, &input);
            let bytes = decode(alphabet, &text).unwrap();
            assert_eq!(encode(alphabet, &bytes), text);
        }
    }
}

#[test]
fn byte_and_scalar_alphabets_agree_on_ascii() {
    for input in [vec![], vec![0u8, 0, 1], vec![9u8, 8, 7, 6, 5]] {
        assert_eq!(encode(BASE58, &input), encode(BASE58.as_bytes(), &input));
        let text = encode(BASE58, &input);
        assert_eq!(decode(BASE58, &text), decode(BASE58.as_bytes(), &text));
    }
}

#[test]
fn unknown_symbol_fails() {
    assert_eq!(decode("01", "0102"), Err(DecodeError));
    assert_eq!(decode("01", "2"), Err(DecodeError));
    assert_eq!(decode("01", "00x"), Err(DecodeError));
    assert_eq!(decode(BASE58, "0"), Err(DecodeError));
    assert_eq!(decode(BASE58, "2NEpo7TZRRrLZSi2U "), Err(DecodeError));
    assert_eq!(decode(BASE58.as_bytes(), "I"), Err(DecodeError));
    assert_eq!(decode(BASE58.as_bytes(), "é"), Err(DecodeError));
    assert_eq!(decode("😐😀", "😀😑"), Err(DecodeError));
}

#[test]
fn an_alphabet_needs_two_symbols() {
    assert_eq!(Alphabet::from_text("").err(), Some(InvalidAlphabet));
    assert_eq!(Alphabet::from_text("a").err(), Some(InvalidAlphabet));
    assert_eq!(Alphabet::from_text("😀").err(), Some(InvalidAlphabet));
    assert_eq!(Alphabet::from_bytes(b"").err(), Some(InvalidAlphabet));
    assert_eq!(Alphabet::from_bytes(b"0").err(), Some(InvalidAlphabet));
    assert!(Alphabet::from_text("ab").is_ok());
    assert!(Alphabet::from_bytes(b"ab").is_ok());
}

#[test]
fn an_alphabet_has_no_symbol_twice() {
    assert_eq!(Alphabet::from_text("aa").err(), Some(InvalidAlphabet));
    assert_eq!(Alphabet::from_text("abca").err(), Some(InvalidAlphabet));
    assert_eq!(Alphabet::from_text("😐😀😐").err(), Some(InvalidAlphabet));
    assert_eq!(Alphabet::from_bytes(b"00").err(), Some(InvalidAlphabet));
    assert_eq!(Alphabet::from_bytes(b"0120").err(), Some(InvalidAlphabet));
    assert!(ByteAlphabet::new(b"0120").is_err());
    assert!(ScalarAlphabet::new(&['x', 'y', 'x']).is_err());
    assert!("abcb".to_alphabet().is_err());
    assert!(b"abcb".as_slice().to_alphabet().is_err());
}

#[test]
fn a_byte_alphabet_longer_than_all_bytes_is_invalid() {
    let mut symbols: Vec<u8> = (0..=255).collect();
    assert!(Alphabet::from_bytes(&symbols).is_ok());
    symbols.push(7);
    assert_eq!(Alphabet::from_bytes(&symbols).err(), Some(InvalidAlphabet));
}

#[test]
fn alphabet_lookups() {
    let alphabet = Alphabet::from_text("xyz😀").unwrap();
    assert_eq!(alphabet.size(), 4);
    assert_eq!(alphabet.symbol_at(0), 'x');
    assert_eq!(alphabet.symbol_at(3), '😀');
    assert_eq!(alphabet.digit_of('x'), Some(0));
    assert_eq!(alphabet.digit_of('z'), Some(2));
    assert_eq!(alphabet.digit_of('😀'), Some(3));
    assert_eq!(alphabet.digit_of('a'), None);

    let alphabet = Alphabet::from_bytes(b"xyz").unwrap();
    assert_eq!(alphabet.size(), 3);
    assert_eq!(alphabet.symbol_at(0), 'x');
    assert_eq!(alphabet.symbol_at(2), 'z');
    assert_eq!(alphabet.digit_of('y'), Some(1));
    assert_eq!(alphabet.digit_of('a'), None);
    assert_eq!(alphabet.digit_of('😀'), None);
}

#[test]
fn byte_symbols_are_written_as_the_scalar_of_the_same_number() {
    let alphabet = ByteAlphabet::new(&[0xe9, 0x41]).unwrap();
    assert_eq!(alphabet.size(), 2);
    assert_eq!(alphabet.symbol_at(0), 'é');
    assert_eq!(alphabet.symbol_at(1), 'A');
    assert_eq!(alphabet.digit_of('é'), Some(0));
    assert_eq!(alphabet.digit_of('A'), Some(1));
    assert_eq!(alphabet.digit_of('e'), None);
    let symbols: &[u8] = &[0xe9, 0x41];
    assert_eq!(encode(symbols, &[0x00, 0x05]), "éAéA");
    assert_eq!(decode(symbols, "éAéA"), Ok(vec![0x00, 0x05]));
}

#[test]
fn a_built_alphabet_serves_many_calls() {
    let alphabet = Alphabet::from_text(BASE58).unwrap();
    assert_eq!(encode_with(&alphabet, b"Hello World!"), "2NEpo7TZRRrLZSi2U");
    assert_eq!(decode_with(&alphabet, "2NEpo7TZRRrLZSi2U"), Ok(b"Hello World!".to_vec()));
    assert_eq!(decode_with(&alphabet, "0"), Err(DecodeError));
    assert_eq!(encode_with(&alphabet, &[]), "");
}

#[test]
fn decode_error_texts() {
    assert_eq!(DecodeError.description(), "Can not decode the provided data");
    assert_eq!(DecodeError.message(), "Failed to decode the given data");
    assert_eq!(format!("{:?}", DecodeError), "DecodeError");
}

#[test]
fn works() {
    let alphabets = [
        ("base2", "01"),
        ("base16", "0123456789abcdef"),
        ("base58", BASE58),
    ];
    let valid = [
        ("base2", "000f", false),
        ("base2", "11111111000000001111111100000000", true),
        ("base2", "0", true),
        ("base2", "00", true),
        ("base2", "1", true),
        ("base2", "0001", true),
        ("base16", "0000000f", true),
        ("base16", "ff00ff00", true),
        ("base16", "1", true),
        ("base58", "2g", true),
        ("base58", "a3gV", true),
        ("base58", "aPEr", true),
        ("base58", "1111111111", true),
        ("base58", "FPBt6CHo3fovdL", true),
        ("base58", "NKioeUVktgzXLJ1B3t", true),
        ("base58", "2NEpo7TZRRrLZSi2U", true),
    ];
    for (alphabet_name, input, is_valid) in valid {
        let alphabet = alphabets
            .iter()
            .find(|(name, _)| *name == alphabet_name)
            .unwrap()
            .1;
        if !is_valid {
            assert_eq!(decode(alphabet, input), Err(DecodeError));
            assert_eq!(decode(alphabet.as_bytes(), input), Err(DecodeError));
            continue;
        }

        // Alphabet works as unicode
        let decoded = decode(alphabet, input).unwrap();
        let encoded = encode(alphabet, &decoded);
        assert_eq!(encoded, input);

        // Alphabet works as ASCII
        let decoded = decode(alphabet.as_bytes(), input).unwrap();
        let encoded = encode(alphabet.as_bytes(), &decoded);
        assert_eq!(encoded, input);
    }
}

#[test]
fn long_input_round_trips() {
    // The first byte is 1, so the input itself has no leading zero byte.
    let input: Vec<u8> = (0..2000u32).map(|i| (i * 7 + i / 13 + 1) as u8).collect();
    assert_eq!(input[0], 1);
    for alphabet in ["01", BASE58, "😐😀€"] {
        let text = encode(alphabet, &input);
        assert_eq!(decode(alphabet, &text), Ok(input.clone()));
    }
    let mut padded = vec![0u8; 300];
    padded.extend_from_slice(&input);
    let text = encode(BASE58, &padded);
    assert!(text.starts_with(&"1".repeat(300)));
    assert_ne!(text.chars().nth(300), Some('1'));
    assert_eq!(decode(BASE58, &text), Ok(padded));
}
