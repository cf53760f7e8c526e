use straycrab::render::{choose_feature_source, pitch_cents, writes_output, FeatureSource};

#[test]
fn nul_output_is_not_written() {
    assert!(!writes_output("nul"));
    assert!(writes_output("out.wav"));
    assert!(writes_output("nul.wav"));
    assert!(writes_output("NUL "));
}

#[test]
fn cached_features_need_flag_and_sidecar() {
    assert_eq!(choose_feature_source(true, true), FeatureSource::Cached);
    assert_eq!(choose_feature_source(true, false), FeatureSource::Analyze);
    assert_eq!(choose_feature_source(false, true), FeatureSource::Analyze);
    assert_eq!(choose_feature_source(false, false), FeatureSource::Analyze);
}

#[test]
fn pitch_targets_add_bend_to_note() {
    assert_eq!(pitch_cents(&vec![0, 100, -50], 69), vec![6900, 7000, 6850]);
    assert_eq!(pitch_cents(&vec![100; 12], 69), vec![7000; 12]);
}
