//! Note names, MIDI numbers and the fixed sizes of the vocoder.
use vstd::prelude::*;
use crate::text::{chars_of, parse_unsigned, unsigned_value};

verus! {

/// Sample rate of the rendered output, in Hz.
pub const DEFAULT_FS: i32 = 44100;

/// FFT size that the spectral envelopes are laid out for.
pub fn get_fft_size() -> (r: i32)
    ensures
        r == 2048,
{
    2048
}

/// The twelve note names of an octave, from C up.
pub open spec fn note_names() -> Seq<Seq<char>> {
    seq![
        seq!['C'],
        seq!['C', '#'],
        seq!['D'],
        seq!['D', '#'],
        seq!['E'],
        seq!['F'],
        seq!['F', '#'],
        seq!['G'],
        seq!['G', '#'],
        seq!['A'],
        seq!['A', '#'],
        seq!['B'],
    ]
}

/// Each note name with its place in the octave: `C` 0, `C#` 1, ..., `B` 11.
pub fn get_notes() -> (r: Vec<(String, i32)>)
    ensures
        r@.len() == 12,
        forall|i: int| 0 <= i < 12 ==> (#[trigger] r@[i]).0@ == note_names()[i] && r@[i].1 == i,
{
    proof {
        reveal_strlit("C");
        reveal_strlit("C#");
        reveal_strlit("D");
        reveal_strlit("D#");
        reveal_strlit("E");
        reveal_strlit("F");
        reveal_strlit("F#");
        reveal_strlit("G");
        reveal_strlit("G#");
        reveal_strlit("A");
        reveal_strlit("A#");
        reveal_strlit("B");
    }
    let r = vec![
        (String::from_str("C"), 0),
        (String::from_str("C#"), 1),
        (String::from_str("D"), 2),
        (String::from_str("D#"), 3),
        (String::from_str("E"), 4),
        (String::from_str("F"), 5),
        (String::from_str("F#"), 6),
        (String::from_str("G"), 7),
        (String::from_str("G#"), 8),
        (String::from_str("A"), 9),
        (String::from_str("A#"), 10),
        (String::from_str("B"), 11),
    ];
    assert(r@[0].0@ =~= note_names()[0]);
    assert(r@[1].0@ =~= note_names()[1]);
    assert(r@[2].0@ =~= note_names()[2]);
    assert(r@[3].0@ =~= note_names()[3]);
    assert(r@[4].0@ =~= note_names()[4]);
    assert(r@[5].0@ =~= note_names()[5]);
    assert(r@[6].0@ =~= note_names()[6]);
    assert(r@[7].0@ =~= note_names()[7]);
    assert(r@[8].0@ =~= note_names()[8]);
    assert(r@[9].0@ =~= note_names()[9]);
    assert(r@[10].0@ =~= note_names()[10]);
    assert(r@[11].0@ =~= note_names()[11]);
    r
}

/// Place in the octave of a natural note letter, either case.
pub open spec fn letter_index(c: char) -> Option<int> {
    if c == 'C' || c == 'c' {
        Some(0)
    } else if c == 'D' || c == 'd' {
        Some(2)
    } else if c == 'E' || c == 'e' {
        Some(4)
    } else if c == 'F' || c == 'f' {
        Some(5)
    } else if c == 'G' || c == 'g' {
        Some(7)
    } else if c == 'A' || c == 'a' {
        Some(9)
    } else if c == 'B' || c == 'b' {
        Some(11)
    } else {
        None
    }
}

/// Place in the octave of a letter, sharpened or not. `E#` and `B#` are not
/// note names.
pub open spec fn semitone_of(letter: char, sharp: bool) -> Option<int> {
    match letter_index(letter) {
        Some(n) => if !sharp {
            Some(n)
        } else if n == 4 || n == 11 {
            None
        } else {
            Some(n + 1)
        },
        None => None,
    }
}

/// The MIDI number of a note name `[A-Ga-g]#?[0-9]+`: `12 * (octave + 1)`
/// plus the place in the octave.
pub open spec fn note_midi(s: Seq<char>) -> Option<int> {
    let sharp = s.len() >= 2 && s[1] == '#';
    let k: int = if sharp { 2 } else { 1 };
    if s.len() == 0 {
        None
    } else {
        match (semitone_of(s[0], sharp), unsigned_value(s.skip(k))) {
            (Some(n), Some(o)) => Some(12 * (o + 1) + n),
            _ => None,
        }
    }
}

fn letter_index_of(c: char) -> (r: Option<i32>)
    ensures
        r == (match letter_index(c) {
            Some(n) => Some(n as i32),
            None => None::<i32>,
        }),
{
    if c == 'C' || c == 'c' {
        Some(0)
    } else if c == 'D' || c == 'd' {
        Some(2)
    } else if c == 'E' || c == 'e' {
        Some(4)
    } else if c == 'F' || c == 'f' {
        Some(5)
    } else if c == 'G' || c == 'g' {
        Some(7)
    } else if c == 'A' || c == 'a' {
        Some(9)
    } else if c == 'B' || c == 'b' {
        Some(11)
    } else {
        None
    }
}

/// The MIDI number of a note name such as `F4` or `C#5`; `None` when `note`
/// is not a note name or its number does not fit an `i32`.
pub fn note_to_midi(note: &str) -> (r: Option<i32>)
    ensures
        r == (match note_midi(note@) {
            Some(m) => if m <= i32::MAX {
                Some(m as i32)
            } else {
                None::<i32>
            },
            None => None::<i32>,
        }),
{
    let s = chars_of(note);
    let n = s.len();
    if n == 0 {
        return None;
    }
    let sharp = n >= 2 && s[1] == '#';
    let k: usize = if sharp { 2 } else { 1 };
    let base = match letter_index_of(s[0]) {
        Some(b) => b,
        None => return None,
    };
    if sharp && (base == 4 || base == 11) {
        return None;
    }
    let semitone: i32 = if sharp { base + 1 } else { base };
    proof {
        assert(s@.subrange(k as int, n as int) =~= note@.skip(k as int));
    }
    let octave = match parse_unsigned(&s, k, n, 0x1_0000_0000) {
        Some(o) => o,
        None => return None,
    };
    let m: u64 = 12 * (octave + 1) + semitone as u64;
    if m > i32::MAX as u64 {
        return None;
    }
    Some(m as i32)
}

} // verus!
