use straycrab::pitchbend::{
    cents_to_pitch_string, pitch_string_to_cents, to_int12, to_int12_stream, to_uint6,
    PitchbendError,
};

const SAMPLE: &str = "B7CPCVCVCTCQCNCICDB+B5B0BvBrBnBlBk#14#BjBF/++Y8k615d4p4f4l4y5G5f596e7B7l8H8n9D9Z9q9092919y9t9n9f9Y9Q9I9C898584858/9L9b9v+G+f+4/Q/m/5AIATAY#2#AWAUARAOALAHAFACABAA";

#[test]
fn test_pitch_string_to_cents() {
    let res = pitch_string_to_cents(SAMPLE).unwrap();
    println!("{:?}", res);
    assert_eq!(res.len(), 94);
    assert_eq!(&res[..4], &[123, 143, 149, 149]);
    assert_eq!(&res[16..31], &[100; 15]);
    assert_eq!(&res[res.len() - 4..], &[2, 1, 0, 0]);
}

#[test]
fn length_counts_pairs_runs_and_trailing_zero() {
    // payloads of 34, 100 and 20 characters, run lengths 14 and 2
    let res = pitch_string_to_cents(SAMPLE).unwrap();
    assert_eq!(res.len(), 17 + 50 + 10 + 14 + 2 + 1);
}

#[test]
fn short_strings_decode_to_zero() {
    assert_eq!(pitch_string_to_cents("").unwrap(), vec![0]);
    assert_eq!(pitch_string_to_cents("B").unwrap(), vec![0]);
    assert_eq!(pitch_string_to_cents("0").unwrap(), vec![0]);
}

#[test]
fn run_length_repeats_last_value() {
    assert_eq!(pitch_string_to_cents("ABAC#3#AD").unwrap(), vec![1, 2, 2, 2, 2, 3, 0]);
}

#[test]
fn trailing_run_length_applies() {
    assert_eq!(pitch_string_to_cents("AB#2").unwrap(), vec![1, 1, 1, 0]);
}

#[test]
fn malformed_run_length_is_an_error() {
    assert_eq!(pitch_string_to_cents("AB#x#CD"), Err(PitchbendError::InvalidRunLength));
    assert_eq!(pitch_string_to_cents("AB#-1#CD"), Err(PitchbendError::InvalidRunLength));
    assert_eq!(pitch_string_to_cents("AB##CD"), Err(PitchbendError::InvalidRunLength));
}

#[test]
fn run_length_without_value_is_an_error() {
    assert_eq!(pitch_string_to_cents("#3#AB"), Err(PitchbendError::NothingToRepeat));
}

#[test]
fn sextets_of_alphabet() {
    assert_eq!(to_uint6("A"), 0);
    assert_eq!(to_uint6("Z"), 25);
    assert_eq!(to_uint6("a"), 26);
    assert_eq!(to_uint6("z"), 51);
    assert_eq!(to_uint6("0"), 52);
    assert_eq!(to_uint6("9"), 61);
    assert_eq!(to_uint6("+"), 62);
    assert_eq!(to_uint6("/"), 63);
    assert_eq!(to_uint6("#"), 0);
}

#[test]
fn pairs_are_sign_extended() {
    assert_eq!(to_int12(('A', 'A')), 0);
    assert_eq!(to_int12(('A', 'B')), 1);
    assert_eq!(to_int12(('f', '/')), 2047);
    assert_eq!(to_int12(('g', 'A')), -2048);
    assert_eq!(to_int12(('/', '/')), -1);
}

#[test]
fn odd_payload_pads_low_bits() {
    assert_eq!(to_int12_stream("ABg"), vec![1, -2048]);
    assert_eq!(to_int12_stream(""), Vec::<i16>::new());
}

#[test]
fn encode_then_decode_round_trips() {
    let v: Vec<i16> = vec![0, 1, -1, 100, -100, 2047, -2048, 5, 0];
    let s = cents_to_pitch_string(&v);
    assert_eq!(s, "AAAB//Bk+cf/gAAF");
    assert_eq!(pitch_string_to_cents(&s).unwrap(), v);
    assert_eq!(cents_to_pitch_string(&vec![0]), "");
    assert_eq!(pitch_string_to_cents(&cents_to_pitch_string(&vec![0])).unwrap(), vec![0]);
}
