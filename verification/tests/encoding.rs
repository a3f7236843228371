use rust_apps::base64::{base64_encode, base64_encode_bytes};
use rust_apps::icecast::url_encode;
use rust_apps::text::{chars_of, decimal_string, string_from_chars};

#[test]
fn base64_of_standard_vectors() {
    assert_eq!(base64_encode(""), "");
    assert_eq!(base64_encode("f"), "Zg==");
    assert_eq!(base64_encode("fo"), "Zm8=");
    assert_eq!(base64_encode("foo"), "Zm9v");
    assert_eq!(base64_encode("foob"), "Zm9vYg==");
    assert_eq!(base64_encode("fooba"), "Zm9vYmE=");
    assert_eq!(base64_encode("foobar"), "Zm9vYmFy");
}

#[test]
fn base64_of_credentials() {
    assert_eq!(base64_encode("source:hackme"), "c291cmNlOmhhY2ttZQ==");
    assert_eq!(base64_encode("source:pässwörd"), "c291cmNlOnDDpHNzd8O2cmQ=");
}

#[test]
fn base64_of_raw_bytes_and_length() {
    assert_eq!(base64_encode_bytes(&[0xff, 0xfe, 0xfd, 0x00]), "//79AA==");
    for n in 0..20usize {
        let bytes = vec![7u8; n];
        assert_eq!(base64_encode_bytes(&bytes).len(), 4 * ((n + 2) / 3));
    }
}

#[test]
fn url_encoding_keeps_unreserved_bytes() {
    assert_eq!(url_encode("Hello-World_.09"), "Hello-World_.09");
    assert_eq!(url_encode("Hello World"), "Hello%20World");
    assert_eq!(url_encode("A b/Ά"), "A%20b%2F%CE%86");
    assert_eq!(url_encode("a/b&c"), "a%2Fb%26c");
    assert_eq!(url_encode("Ελ"), "%CE%95%CE%BB");
    assert_eq!(url_encode(""), "");
}

#[test]
fn decimal_formatting() {
    assert_eq!(decimal_string(0), "0");
    assert_eq!(decimal_string(7), "7");
    assert_eq!(decimal_string(12345), "12345");
    assert_eq!(decimal_string(u64::MAX), u64::MAX.to_string());
}

#[test]
fn chars_round_trip() {
    let cs = chars_of("añb€");
    assert_eq!(cs, vec!['a', 'ñ', 'b', '€']);
    assert_eq!(string_from_chars(&cs), "añb€");
}

#[test]
fn different_inputs_encode_differently() {
    let inputs = ["", "a", "b", "ab", "abc", "abd", "abcd", "é", "e"];
    for x in inputs.iter() {
        for y in inputs.iter() {
            assert_eq!(x == y, base64_encode(x) == base64_encode(y));
        }
    }
}

#[test]
fn base64_round_trip_examples() {
    // The decoding that the round-trip law speaks of, on concrete text.
    let table = "ABCDEFGHIJKLMNOPQRSTUVWXYZabcdefghijklmnopqrstuvwxyz0123456789+/";
    let decode = |s: &str| -> Vec<u8> {
        let cs: Vec<char> = s.chars().collect();
        let mut out = vec![];
        for q in cs.chunks(4) {
            let x: Vec<u32> = q.iter().map(|c| table.find(*c).unwrap_or(0) as u32).collect();
            out.push((x[0] * 4 + x[1] / 16) as u8);
            if q[2] != '=' {
                out.push(((x[1] % 16) * 16 + x[2] / 4) as u8);
            }
            if q[3] != '=' {
                out.push(((x[2] % 4) * 64 + x[3]) as u8);
            }
        }
        out
    };
    for s in ["", "a", "ab", "abc", "source:pässwörd", "Ά/é"] {
        assert_eq!(decode(&base64_encode(s)), s.as_bytes().to_vec());
    }
}
