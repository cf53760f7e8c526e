use straycrab::parser::{parse_args, ArgumentError};

fn args(list: &[&str]) -> Vec<String> {
    list.iter().map(|s| s.to_string()).collect()
}

#[test]
fn parser_test_parse_args() {
    let args = vec![
        "resampler".to_string(),
        "input.wav".to_string(),
        "output.wav".to_string(),
        "100".to_string(),
        "100".to_string(),
        "G 0.0 0".to_string(),
        "0.0".to_string(),
        "0".to_string(),
        "0.0".to_string(),
        "0.0".to_string(),
        "0.0".to_string(),
        "0.0".to_string(),
        "0.0".to_string(),
    ];

    // twelve arguments after the program name: one short
    let resampler = parse_args(&args);
    assert!(matches!(resampler, Err(ArgumentError::TooFewArguments)));
}

#[test]
fn full_argument_list_is_read() {
    let a = args(&[
        "resampler", "input.wav", "output.wav", "F4", "60", "g 120|G", "24", "4000", "56.5",
        "-73", "100", "50", "120", "AB#2#AC",
    ]);
    let ins = parse_args(&a).unwrap();
    assert_eq!(ins.input, "input.wav");
    assert_eq!(ins.output, "output.wav");
    assert_eq!(ins.pitch, 65);
    assert_eq!(ins.velocity, 60_000);
    assert_eq!(ins.flags.gender, Some(120));
    assert!(ins.flags.force_features);
    assert_eq!(ins.offset, 24_000);
    assert_eq!(ins.length, 4000);
    assert_eq!(ins.consonant, 56_500);
    assert_eq!(ins.cutoff, -73_000);
    assert_eq!(ins.volume, 100_000);
    assert_eq!(ins.modulation, 50_000);
    assert_eq!(ins.tempo, 120_000);
    assert_eq!(ins.pitchbend, vec![1, 1, 1, 2, 0]);
}

#[test]
fn decimals_keep_three_places() {
    let a = args(&[
        "r", "i.wav", "o.wav", "A4", "100", "", ".5", "500", "0.0005", "+1.25", "0", "-0.001",
        "!120", "",
    ]);
    assert_eq!(parse_args(&a).err(), Some(ArgumentError::InvalidArgument(12)));
    let a = args(&[
        "r", "i.wav", "o.wav", "A4", "100", "", ".5", "500", "0.0005", "+1.25", "0", "-0.001",
        "120.", "",
    ]);
    let ins = parse_args(&a).unwrap();
    assert_eq!(ins.offset, 500);
    assert_eq!(ins.consonant, 0);
    assert_eq!(ins.cutoff, 1250);
    assert_eq!(ins.modulation, -1);
    assert_eq!(ins.tempo, 120_000);
    assert_eq!(ins.pitchbend, vec![0]);
}

#[test]
fn first_malformed_argument_is_reported() {
    let good = [
        "r", "i.wav", "o.wav", "A4", "100", "", "0", "500", "0", "0", "100", "0", "120", "",
    ];
    for (k, bad) in [(3, "H4"), (4, "abc"), (4, "101"), (5, "t x"), (6, "1e3"), (7, "-5"), (13, "#1#AB")] {
        let mut a = args(&good);
        a[k] = bad.to_string();
        assert_eq!(parse_args(&a).err(), Some(ArgumentError::InvalidArgument(k)));
    }
    let mut a = args(&good);
    a[3] = "X".to_string();
    a[9] = "y".to_string();
    assert_eq!(parse_args(&a).err(), Some(ArgumentError::InvalidArgument(3)));
}

#[test]
fn extra_arguments_are_ignored() {
    let a = args(&[
        "r", "i.wav", "o.wav", "A4", "100", "", "0", "500", "0", "0", "100", "0", "120", "", "x",
    ]);
    assert!(parse_args(&a).is_ok());
}
