use straycrab::notes::{get_fft_size, get_notes, note_to_midi, DEFAULT_FS};

#[test]
fn note_table_has_twelve_names() {
    let notes = get_notes();
    assert_eq!(notes.len(), 12);
    assert_eq!(notes[0], ("C".to_string(), 0));
    assert_eq!(notes[1], ("C#".to_string(), 1));
    assert_eq!(notes[9], ("A".to_string(), 9));
    assert_eq!(notes[11], ("B".to_string(), 11));
}

#[test]
fn fixed_sizes() {
    assert_eq!(get_fft_size(), 2048);
    assert_eq!(DEFAULT_FS, 44100);
}

#[test]
fn note_names_to_midi() {
    assert_eq!(note_to_midi("F4"), Some(65));
    assert_eq!(note_to_midi("A4"), Some(69));
    assert_eq!(note_to_midi("A5"), Some(81));
    assert_eq!(note_to_midi("C#5"), Some(73));
    assert_eq!(note_to_midi("c4"), Some(60));
    assert_eq!(note_to_midi("C0"), Some(12));
    assert_eq!(note_to_midi("B10"), Some(143));
}

#[test]
fn non_notes_are_rejected() {
    assert_eq!(note_to_midi(""), None);
    assert_eq!(note_to_midi("A"), None);
    assert_eq!(note_to_midi("H4"), None);
    assert_eq!(note_to_midi("E#4"), None);
    assert_eq!(note_to_midi("B#4"), None);
    assert_eq!(note_to_midi("100"), None);
    assert_eq!(note_to_midi("A4x"), None);
    assert_eq!(note_to_midi("A999999999999"), None);
}
