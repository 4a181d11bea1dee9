use rspack_sources::error::Error;
use rspack_sources::vlq::{decode, encode};

fn decoded(s: &str) -> Result<Vec<i64>, Error> {
    let mut rv = Vec::new();
    decode(s.as_bytes(), &mut rv).map(|_| rv)
}

fn encoded(pairs: &[(u32, u32)]) -> String {
    let mut out = Vec::new();
    for &(a, b) in pairs {
        encode(&mut out, a, b);
    }
    String::from_utf8(out).unwrap()
}

#[test]
fn vlq_decodes_four_zeros() {
    assert_eq!(decoded("AAAA").unwrap(), vec![0, 0, 0, 0]);
}

#[test]
fn vlq_decodes_five_values() {
    assert_eq!(decoded("GAAIA").unwrap(), vec![3, 0, 0, 4, 0]);
}

#[test]
fn vlq_decodes_negative_and_long_values() {
    assert_eq!(decoded("D").unwrap(), vec![-1]);
    assert_eq!(decoded("hB").unwrap(), vec![-16]);
    assert_eq!(decoded("w+B").unwrap(), vec![1000]);
}

#[test]
fn vlq_decode_appends_to_what_is_there() {
    let mut rv = vec![7];
    decode(b"C", &mut rv).unwrap();
    assert_eq!(rv, vec![7, 1]);
}

#[test]
fn vlq_decode_of_nothing_is_an_error() {
    assert!(matches!(decoded(""), Err(Error::VlqNoValues)));
}

#[test]
fn vlq_decode_of_an_unfinished_number_is_an_error() {
    assert!(matches!(decoded("g"), Err(Error::VlqLeftover)));
    assert!(matches!(decoded("AAg"), Err(Error::VlqLeftover)));
}

#[test]
fn vlq_decode_of_a_too_long_number_is_an_error() {
    assert!(matches!(decoded("gggggggggggggg"), Err(Error::VlqOverflow)));
}

#[test]
fn vlq_encodes_differences() {
    assert_eq!(encoded(&[(5, 2)]), "G");
    assert_eq!(encoded(&[(0, 16)]), "hB");
    assert_eq!(encoded(&[(1000, 0)]), "w+B");
    assert_eq!(encoded(&[(0, 0), (3, 0), (0, 1)]), "AGD");
}

#[test]
fn vlq_decode_reads_back_what_encode_writes() {
    let pairs = [(0u32, 0u32), (17, 3), (2, 40), (123456, 7), (0, 4000000000)];
    let text = encoded(&pairs);
    let expected: Vec<i64> = pairs.iter().map(|&(a, b)| a as i64 - b as i64).collect();
    assert_eq!(decoded(&text).unwrap(), expected);
}
