use carsync::hex::{hex_decoding_would_panic, hex_to_bytes, HexError};

fn reference(hex: &str) -> Result<Vec<u8>, HexError> {
    if hex.len() % 2 != 0 {
        return Err(HexError::InvalidLength);
    }
    let mut out = Vec::new();
    for i in (0..hex.len()).step_by(2) {
        match u8::from_str_radix(&hex[i..i + 2], 16) {
            Ok(b) => out.push(b),
            Err(_) => return Err(HexError::InvalidDigit),
        }
    }
    Ok(out)
}

#[test]
fn hex_to_bytes_decodes_pairs() {
    assert_eq!(hex_to_bytes("00ff10Ab"), Ok(vec![0x00, 0xff, 0x10, 0xab]));
    assert_eq!(hex_to_bytes(""), Ok(vec![]));
}

#[test]
fn hex_to_bytes_rejects_odd_length() {
    assert_eq!(hex_to_bytes("abc"), Err(HexError::InvalidLength));
    assert_eq!(hex_to_bytes("a\u{e9}"), Err(HexError::InvalidLength));
}

#[test]
fn hex_to_bytes_rejects_invalid_digits() {
    assert_eq!(hex_to_bytes("zz"), Err(HexError::InvalidDigit));
    assert_eq!(hex_to_bytes("-1"), Err(HexError::InvalidDigit));
    assert_eq!(hex_to_bytes("++"), Err(HexError::InvalidDigit));
    assert_eq!(hex_to_bytes("\u{e9}"), Err(HexError::InvalidDigit));
    assert_eq!(hex_to_bytes("zz\u{20ac}a"), Err(HexError::InvalidDigit));
}

#[test]
fn hex_to_bytes_accepts_a_plus_sign_like_from_str_radix() {
    assert_eq!(hex_to_bytes("+f0a"), Ok(vec![0x0f, 0x0a]));
    assert_eq!(hex_to_bytes("+f0a"), reference("+f0a"));
}

#[test]
fn hex_to_bytes_agrees_with_from_str_radix() {
    let alphabet = ['0', '7', '9', 'a', 'f', 'g', 'A', 'F', '+', '-', ' ', 'z'];
    for a in alphabet {
        for b in alphabet {
            for c in alphabet {
                for d in alphabet {
                    let s: String = [a, b, c, d].iter().collect();
                    assert_eq!(hex_to_bytes(&s), reference(&s), "{:?}", s);
                    let t: String = [a, b].iter().collect();
                    assert_eq!(hex_to_bytes(&t), reference(&t), "{:?}", t);
                }
            }
        }
    }
}

#[test]
fn hex_decoding_would_panic_exactly_when_slicing_cuts_a_character() {
    let cases = ["a\u{e9}b", "\u{20ac}x", "\u{e9}", "zz\u{20ac}a", "00\u{e9}", "0\u{e9}0", "abcd", "+\u{e9}9"];
    for s in cases {
        let cuts = s.len() % 2 == 0 && {
            let mut cut = false;
            for i in (0..s.len()).step_by(2) {
                if !s.is_char_boundary(i) || !s.is_char_boundary(i + 2) {
                    cut = true;
                    break;
                }
                if u8::from_str_radix(&s[i..i + 2], 16).is_err() {
                    break;
                }
            }
            cut
        };
        assert_eq!(hex_decoding_would_panic(s), cuts, "{:?}", s);
        if !cuts {
            assert_eq!(hex_to_bytes(s), reference(s), "{:?}", s);
        }
    }
}
