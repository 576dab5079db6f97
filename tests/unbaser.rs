use std::collections::HashMap;

use unpacker_rs::unbaser::Unbaser;

#[test]
fn test_base_2() {
    let unbaser = Unbaser::new(2).unwrap();
    assert_eq!(unbaser.unbase("1011").unwrap(), 11);
}

#[test]
fn test_base_10() {
    let unbaser = Unbaser::new(10).unwrap();
    assert_eq!(unbaser.unbase("123").unwrap(), 123);
}

#[test]
fn test_base_16() {
    let unbaser = Unbaser::new(16).unwrap();
    assert_eq!(unbaser.unbase("1f").unwrap(), 31);
}

#[test]
fn test_base_36() {
    let unbaser = Unbaser::new(36).unwrap();
    assert_eq!(unbaser.unbase("z").unwrap(), 35);
}

#[test]
fn test_base_62() {
    let unbaser = Unbaser::new(62).unwrap();
    assert_eq!(unbaser.unbase("Az").unwrap(), 2267);
    assert_eq!(unbaser.unbase("10").unwrap(), 62);
    assert_eq!(unbaser.unbase("Z").unwrap(), 61);
}

#[test]
fn test_base_95() {
    let unbaser = Unbaser::new(95).unwrap();
    assert_eq!(unbaser.unbase("A!").unwrap(), {
        let dict: HashMap<char, usize> = " !\"#$%&'()*+,-./0123456789:;<=>?@ABCDEFGHIJKLMNOPQRSTUVWXYZ[\\]^_`abcdefghijklmnopqrstuvwxyz{|}~"
            .chars()
            .enumerate()
            .map(|(i, c)| (c, i))
            .collect();
        dict[&'A'] * 95 + dict[&'!']
    });
}

#[test]
fn test_invalid_base() {
    let err = Unbaser::new(70).unwrap_err();
    assert_eq!(err, "Unsupported base encoding.");
}

#[test]
fn test_invalid_character() {
    let unbaser = Unbaser::new(62).unwrap();
    let err = unbaser.unbase("@").unwrap_err();
    assert_eq!(err, "Invalid character in input string.");
}

#[test]
fn test_invalid_format() {
    let unbaser = Unbaser::new(10).unwrap();
    let err = unbaser.unbase("12a").unwrap_err();
    assert_eq!(err, "Invalid number format");
}

#[test]
fn digit_alphabets_decode_to_positions() {
    let alphabet = "0123456789abcdefghijklmnopqrstuvwxyz";
    for radix in 2..=36usize {
        let unbaser = Unbaser::new(radix).unwrap();
        for (i, c) in alphabet.chars().take(radix).enumerate() {
            assert_eq!(unbaser.unbase(&c.to_string()).unwrap(), i);
        }
    }
}

#[test]
fn native_bases_accept_upper_case_and_refuse_signs() {
    let unbaser = Unbaser::new(16).unwrap();
    assert_eq!(unbaser.unbase("FF").unwrap(), 255);
    assert_eq!(unbaser.unbase("+10").unwrap_err(), "Invalid number format");
    assert_eq!(unbaser.unbase("-1").unwrap_err(), "Invalid number format");
    assert_eq!(unbaser.unbase("").unwrap_err(), "Invalid number format");
    assert_eq!(unbaser.unbase("+").unwrap_err(), "Invalid number format");
    assert_eq!(unbaser.unbase("g").unwrap_err(), "Invalid number format");
}

#[test]
fn encode_then_decode_round_trips() {
    let alnum: Vec<char> = "0123456789abcdefghijklmnopqrstuvwxyzABCDEFGHIJKLMNOPQRSTUVWXYZ".chars().collect();
    let printable: Vec<char> = (32u8..=126).map(|b| b as char).collect();
    let mut radices: Vec<usize> = (2..=62).collect();
    radices.push(95);
    for radix in radices {
        let alphabet = if radix == 95 { &printable } else { &alnum };
        let unbaser = Unbaser::new(radix).unwrap();
        for n in (0..10000usize).step_by(37) {
            let mut digits = Vec::new();
            let mut m = n;
            loop {
                digits.push(alphabet[m % radix]);
                m /= radix;
                if m == 0 {
                    break;
                }
            }
            let text: String = digits.iter().rev().collect();
            assert_eq!(unbaser.unbase(&text).unwrap(), n);
        }
    }
}

#[test]
fn dictionary_bases_are_case_sensitive_and_bounded() {
    let unbaser = Unbaser::new(40).unwrap();
    assert_eq!(unbaser.unbase("D").unwrap(), 39);
    assert_eq!(unbaser.unbase("E").unwrap_err(), "Invalid character in input string.");
    assert_eq!(unbaser.unbase("").unwrap(), 0);
    let wide = Unbaser::new(62).unwrap();
    assert_eq!(wide.unbase("ZZZZZZZZZZZZZZZZZZZZZZZZ").unwrap_err(), "Invalid number format");
}

#[test]
fn unsupported_bases_are_refused() {
    for base in [0usize, 1, 63, 94, 96] {
        assert_eq!(Unbaser::new(base).unwrap_err(), "Unsupported base encoding.");
    }
    assert!(Unbaser::new(95).is_ok());
}
