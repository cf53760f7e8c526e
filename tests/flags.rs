use straycrab::flags::ResamplerFlags;

#[test]
fn empty_flag_string_sets_nothing() {
    let f = ResamplerFlags::parse("");
    assert_eq!(f, ResamplerFlags::default());
    assert_eq!(f, ResamplerFlags::none());
}

#[test]
fn every_code_sets_its_field() {
    let f = ResamplerFlags::parse(
        "fe 100|fl 50|fo -20|fv 80|fp 90|ve 3|vo 4|g 120|t 12|A 5|B 6|P 7|p 8|S 9|G",
    );
    assert_eq!(f.fry_end, Some(100));
    assert_eq!(f.fry_length, Some(50));
    assert_eq!(f.fry_offset, Some(-20));
    assert_eq!(f.fry_volume, Some(80));
    assert_eq!(f.fry_pitch, Some(90));
    assert_eq!(f.voicing_transition, Some(3));
    assert_eq!(f.voicing_offset, Some(4));
    assert_eq!(f.gender, Some(120));
    assert_eq!(f.pitch_offset, Some(12));
    assert_eq!(f.tremolo, Some(5));
    assert_eq!(f.breathiness, Some(6));
    assert_eq!(f.peak_compression, Some(7));
    assert_eq!(f.peak_normalization, Some(8));
    assert_eq!(f.sibilance, Some(9));
    assert!(f.force_features);
}

#[test]
fn fry_length_and_pitch_are_clamped() {
    let f = ResamplerFlags::parse("fl 0|fp -5");
    assert_eq!(f.fry_length, Some(1));
    assert_eq!(f.fry_pitch, Some(0));
}

#[test]
fn flag_without_value_reads_zero() {
    let f = ResamplerFlags::parse("t|g");
    assert_eq!(f.pitch_offset, Some(0));
    assert_eq!(f.gender, Some(0));
}

#[test]
fn unknown_codes_are_ignored() {
    let f = ResamplerFlags::parse("zz 5|Q|t 2");
    assert_eq!(f, ResamplerFlags { pitch_offset: Some(2), ..ResamplerFlags::default() });
}

#[test]
fn later_entries_override() {
    assert_eq!(ResamplerFlags::parse("t 1|t 3").pitch_offset, Some(3));
}

#[test]
fn malformed_values_are_rejected() {
    assert_eq!(ResamplerFlags::try_parse("G 0.0 0"), None);
    assert_eq!(ResamplerFlags::try_parse("t x"), None);
    assert_eq!(ResamplerFlags::try_parse("t  1"), None);
    assert_eq!(ResamplerFlags::try_parse("t 99999999999"), None);
    assert_eq!(ResamplerFlags::try_parse("t +4").unwrap().pitch_offset, Some(4));
}
