use metrics::codec::{
    decode_key, decode_sample, decode_sample_count, encode_key, encode_sample,
    encode_sample_count, DecodeError,
};
use metrics::Sample;

fn sample(time: u64, value: f64) -> Sample {
    Sample { time, value: value.to_bits() }
}

#[test]
fn sample_count_is_big_endian() {
    assert_eq!(encode_sample_count(0x0102), [0x01, 0x02]);
    assert_eq!(encode_sample_count(0), [0, 0]);
    assert_eq!(encode_sample_count(u16::MAX), [0xff, 0xff]);
    assert_eq!(decode_sample_count([0x01, 0x02]), 0x0102);
    assert_eq!(decode_sample_count([0xff, 0xff]), u16::MAX);
}

#[test]
fn sample_count_round_trips() {
    for count in [0u16, 1, 255, 256, 1024, 65535] {
        assert_eq!(decode_sample_count(encode_sample_count(count)), count);
    }
}

#[test]
fn sample_layout_is_time_then_value() {
    let bytes = encode_sample(sample(0x0102030405060708, 1.0));
    assert_eq!(
        bytes,
        [0x01, 0x02, 0x03, 0x04, 0x05, 0x06, 0x07, 0x08, 0x3f, 0xf0, 0, 0, 0, 0, 0, 0]
    );
    let mut expected = Vec::new();
    expected.extend_from_slice(&0x0102030405060708u64.to_be_bytes());
    expected.extend_from_slice(&1.0f64.to_be_bytes());
    assert_eq!(bytes.to_vec(), expected);
}

#[test]
fn sample_round_trips() {
    for time in [0u64, 1, 255, 256, 1 << 32, u64::MAX] {
        for value in [0.0f64, -0.0, 1.5, -273.15, f64::MIN_POSITIVE, f64::MAX] {
            let s = sample(time, value);
            let back = decode_sample(encode_sample(s));
            assert_eq!(back, s);
            assert_eq!(f64::from_bits(back.value).to_bits(), value.to_bits());
        }
    }
}

#[test]
fn sample_round_trips_nan_and_infinity_bit_for_bit() {
    let odd_nan = f64::from_bits(0x7ff8_0000_dead_beef);
    for value in [f64::NAN, odd_nan, f64::INFINITY, f64::NEG_INFINITY] {
        let s = sample(7, value);
        let back = decode_sample(encode_sample(s));
        assert_eq!(back.time, 7);
        assert_eq!(back.value, value.to_bits());
    }
}

#[test]
fn key_is_length_prefixed() {
    let mut out = vec![0xaa];
    encode_key(&mut out, &String::from("cpu"));
    assert_eq!(out, vec![0xaa, 0, 3, b'c', b'p', b'u']);
}

#[test]
fn key_length_counts_bytes_not_chars() {
    let mut out = Vec::new();
    encode_key(&mut out, &String::from("é"));
    assert_eq!(out, vec![0, 2, 0xc3, 0xa9]);
}

#[test]
fn key_round_trips() {
    for key in ["", "a", "mem.used", "température", "🦀"] {
        let key = String::from(key);
        let mut out = Vec::new();
        encode_key(&mut out, &key);
        let used = out.len();
        out.extend_from_slice(&[1, 2, 3]);
        assert_eq!(decode_key(&out), Ok((key, used)));
    }
}

#[test]
fn longest_key_round_trips() {
    let key = "k".repeat(65535);
    let mut out = Vec::new();
    encode_key(&mut out, &key);
    assert_eq!(out.len(), 65537);
    assert_eq!(&out[..2], &[0xff, 0xff]);
    assert_eq!(decode_key(&out), Ok((key, 65537)));
}

#[test]
fn key_without_length_is_truncated() {
    assert_eq!(decode_key(&[]), Err(DecodeError::Truncated));
    assert_eq!(decode_key(&[0]), Err(DecodeError::Truncated));
}

#[test]
fn key_shorter_than_announced_is_truncated() {
    assert_eq!(decode_key(&[0, 3, b'c', b'p']), Err(DecodeError::Truncated));
}

#[test]
fn key_that_is_not_utf8_is_malformed() {
    assert_eq!(decode_key(&[0, 2, 0xff, 0xfe]), Err(DecodeError::MalformedFrame));
    assert_eq!(decode_key(&[0, 1, 0xc3]), Err(DecodeError::MalformedFrame));
}

#[test]
fn decoded_key_is_the_text_of_its_bytes() {
    let (key, used) = decode_key(&[0, 2, b'o', b'k', 9, 9]).unwrap();
    assert_eq!(key, "ok");
    assert_eq!(used, 4);
}
