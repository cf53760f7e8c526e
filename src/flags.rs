//! The flag string: entries separated by `|`, each a code optionally followed
//! by a space and a signed integer.
use vstd::prelude::*;
use crate::text::{
    chars_of, find_in, lemma_split_nonempty, lemma_split_step, parse_signed, signed_value,
    split_on,
};

verus! {

/// The expressive flags of one render. Each field is absent or holds the
/// flag's integer value; times are in milliseconds.
#[derive(Debug, Clone, Copy, PartialEq, Eq, Default)]
pub struct ResamplerFlags {
    /// `fe`: onset of vocal fry relative to the end of the consonant, ms.
    pub fry_end: Option<i32>,
    /// `fl`: length of the fry transition, ms, at least 1.
    pub fry_length: Option<i32>,
    /// `fo`: shift of the fry bump, ms.
    pub fry_offset: Option<i32>,
    /// `fv`: fry volume, 0 to 100.
    pub fry_volume: Option<i32>,
    /// `fp`: fry pitch, Hz, at least 0.
    pub fry_pitch: Option<i32>,
    /// `ve`
    pub voicing_transition: Option<i32>,
    /// `vo`
    pub voicing_offset: Option<i32>,
    /// `g`: the value `v`; the formant warp factor is `(v / 120)^2`.
    pub gender: Option<i32>,
    /// `t`: semitones added to the note.
    pub pitch_offset: Option<i32>,
    /// `A`
    pub tremolo: Option<i32>,
    /// `B`
    pub breathiness: Option<i32>,
    /// `P`
    pub peak_compression: Option<i32>,
    /// `p`
    pub peak_normalization: Option<i32>,
    /// `S`
    pub sibilance: Option<i32>,
    /// `G`: reuse the cached features when they exist.
    pub force_features: bool,
}

/// No flag set.
pub open spec fn no_flags() -> ResamplerFlags {
    ResamplerFlags {
        fry_end: None,
        fry_length: None,
        fry_offset: None,
        fry_volume: None,
        fry_pitch: None,
        voicing_transition: None,
        voicing_offset: None,
        gender: None,
        pitch_offset: None,
        tremolo: None,
        breathiness: None,
        peak_compression: None,
        peak_normalization: None,
        sibilance: None,
        force_features: false,
    }
}

/// The effect of one entry with code `code` and value `v`; an unknown code
/// changes nothing.
pub open spec fn apply_flag(f: ResamplerFlags, code: Seq<char>, v: i32) -> ResamplerFlags {
    if code == seq!['f', 'e'] {
        ResamplerFlags { fry_end: Some(v), ..f }
    } else if code == seq!['f', 'l'] {
        ResamplerFlags { fry_length: Some(if v < 1 { 1 } else { v }), ..f }
    } else if code == seq!['f', 'o'] {
        ResamplerFlags { fry_offset: Some(v), ..f }
    } else if code == seq!['f', 'v'] {
        ResamplerFlags { fry_volume: Some(v), ..f }
    } else if code == seq!['f', 'p'] {
        ResamplerFlags { fry_pitch: Some(if v < 0 { 0 } else { v }), ..f }
    } else if code == seq!['v', 'e'] {
        ResamplerFlags { voicing_transition: Some(v), ..f }
    } else if code == seq!['v', 'o'] {
        ResamplerFlags { voicing_offset: Some(v), ..f }
    } else if code == seq!['g'] {
        ResamplerFlags { gender: Some(v), ..f }
    } else if code == seq!['B'] {
        ResamplerFlags { breathiness: Some(v), ..f }
    } else if code == seq!['P'] {
        ResamplerFlags { peak_compression: Some(v), ..f }
    } else if code == seq!['p'] {
        ResamplerFlags { peak_normalization: Some(v), ..f }
    } else if code == seq!['A'] {
        ResamplerFlags { tremolo: Some(v), ..f }
    } else if code == seq!['t'] {
        ResamplerFlags { pitch_offset: Some(v), ..f }
    } else if code == seq!['S'] {
        ResamplerFlags { sibilance: Some(v), ..f }
    } else if code == seq!['G'] {
        ResamplerFlags { force_features: true, ..f }
    } else {
        f
    }
}

/// The code of an entry: what stands before its first space.
pub open spec fn entry_code(e: Seq<char>) -> Seq<char> {
    split_on(e, ' ')[0]
}

/// The value of an entry: the integer after its first space, 0 when it has
/// no space, `None` when that text is not an `i32`.
pub open spec fn entry_value(e: Seq<char>) -> Option<i32> {
    let parts = split_on(e, ' ');
    if parts.len() < 2 {
        Some(0)
    } else {
        match signed_value(parts[1]) {
            Some(v) => if i32::MIN <= v <= i32::MAX {
                Some(v as i32)
            } else {
                None
            },
            None => None,
        }
    }
}

/// Applies the entries in order, later ones overriding earlier ones; `None`
/// when some entry's value is not an integer.
pub open spec fn apply_entries(entries: Seq<Seq<char>>, acc: ResamplerFlags) -> Option<ResamplerFlags>
    decreases entries.len(),
{
    if entries.len() == 0 {
        Some(acc)
    } else {
        match entry_value(entries[0]) {
            Some(v) => apply_entries(entries.drop_first(), apply_flag(acc, entry_code(entries[0]), v)),
            None => None,
        }
    }
}

/// The flags that a flag string sets, or `None` when it is malformed.
pub open spec fn flags_of(s: Seq<char>) -> Option<ResamplerFlags> {
    apply_entries(split_on(s, '|'), no_flags())
}

fn is_code(s: &Vec<char>, lo: usize, hi: usize, code: &str) -> (r: bool)
    requires
        lo <= hi <= s@.len(),
        1 <= code@.len() <= 2,
    ensures
        r == (s@.subrange(lo as int, hi as int) == code@),
{
    let c = chars_of(code);
    if hi - lo != c.len() {
        return false;
    }
    let r = s[lo] == c[0] && (c.len() == 1 || s[lo + 1] == c[1]);
    proof {
        if r {
            assert(s@.subrange(lo as int, hi as int) =~= code@);
        } else if s[lo as int] != c[0] {
            assert(s@.subrange(lo as int, hi as int)[0] != code@[0]);
        } else {
            assert(s@.subrange(lo as int, hi as int)[1] != code@[1]);
        }
    }
    r
}

impl ResamplerFlags {
    /// Applies one entry whose code is `s[lo..hi]`.
    fn apply(&mut self, s: &Vec<char>, lo: usize, hi: usize, v: i32)
        requires
            lo <= hi <= s@.len(),
        ensures
            *final(self) == apply_flag(*old(self), s@.subrange(lo as int, hi as int), v),
    {
        proof {
            reveal_strlit("fe");
            reveal_strlit("fl");
            reveal_strlit("fo");
            reveal_strlit("fv");
            reveal_strlit("fp");
            reveal_strlit("ve");
            reveal_strlit("vo");
            reveal_strlit("g");
            reveal_strlit("B");
            reveal_strlit("P");
            reveal_strlit("p");
            reveal_strlit("A");
            reveal_strlit("t");
            reveal_strlit("S");
            reveal_strlit("G");
        }
        let ghost code = s@.subrange(lo as int, hi as int);
        assert("fe"@ =~= seq!['f', 'e']);
        assert("fl"@ =~= seq!['f', 'l']);
        assert("fo"@ =~= seq!['f', 'o']);
        assert("fv"@ =~= seq!['f', 'v']);
        assert("fp"@ =~= seq!['f', 'p']);
        assert("ve"@ =~= seq!['v', 'e']);
        assert("vo"@ =~= seq!['v', 'o']);
        assert("g"@ =~= seq!['g']);
        assert("B"@ =~= seq!['B']);
        assert("P"@ =~= seq!['P']);
        assert("p"@ =~= seq!['p']);
        assert("A"@ =~= seq!['A']);
        assert("t"@ =~= seq!['t']);
        assert("S"@ =~= seq!['S']);
        assert("G"@ =~= seq!['G']);
        if is_code(s, lo, hi, "fe") {
            self.fry_end = Some(v);
        } else if is_code(s, lo, hi, "fl") {
            self.fry_length = Some(if v < 1 { 1 } else { v });
        } else if is_code(s, lo, hi, "fo") {
            self.fry_offset = Some(v);
        } else if is_code(s, lo, hi, "fv") {
            self.fry_volume = Some(v);
        } else if is_code(s, lo, hi, "fp") {
            self.fry_pitch = Some(if v < 0 { 0 } else { v });
        } else if is_code(s, lo, hi, "ve") {
            self.voicing_transition = Some(v);
        } else if is_code(s, lo, hi, "vo") {
            self.voicing_offset = Some(v);
        } else if is_code(s, lo, hi, "g") {
            self.gender = Some(v);
        } else if is_code(s, lo, hi, "B") {
            self.breathiness = Some(v);
        } else if is_code(s, lo, hi, "P") {
            self.peak_compression = Some(v);
        } else if is_code(s, lo, hi, "p") {
            self.peak_normalization = Some(v);
        } else if is_code(s, lo, hi, "A") {
            self.tremolo = Some(v);
        } else if is_code(s, lo, hi, "t") {
            self.pitch_offset = Some(v);
        } else if is_code(s, lo, hi, "S") {
            self.sibilance = Some(v);
        } else if is_code(s, lo, hi, "G") {
            self.force_features = true;
        }
    }

    /// No flag set.
    pub fn none() -> (r: ResamplerFlags)
        ensures
            r == no_flags(),
    {
        ResamplerFlags {
            fry_end: None,
            fry_length: None,
            fry_offset: None,
            fry_volume: None,
            fry_pitch: None,
            voicing_transition: None,
            voicing_offset: None,
            gender: None,
            pitch_offset: None,
            tremolo: None,
            breathiness: None,
            peak_compression: None,
            peak_normalization: None,
            sibilance: None,
            force_features: false,
        }
    }

    /// Parses a flag string; `None` when an entry's value is not an `i32`.
    #[verifier::rlimit(60)]
    pub fn try_parse(flags: &str) -> (r: Option<ResamplerFlags>)
        ensures
            r == flags_of(flags@),
    {
        let s = chars_of(flags);
        let n = s.len();
        let ghost whole = flags_of(flags@);
        proof {
            assert(s@.subrange(0, n as int) =~= flags@);
        }
        let mut res = ResamplerFlags::none();
        let mut pos: usize = 0;
        loop
            invariant_except_break
                pos <= n,
                apply_entries(split_on(s@.subrange(pos as int, n as int), '|'), res) == whole,
            invariant
                n == s@.len(),
                s@ == flags@,
                whole == flags_of(flags@),
            ensures
                whole == Some(res),
            decreases n - pos,
        {
            let k = find_in(&s, pos, n, '|');
            proof {
                lemma_split_step(s@, '|', pos as int, k as int);
            }
            let ghost entries = split_on(s@.subrange(pos as int, n as int), '|');
            // the entry is s[pos..k]; its code ends at the first space
            let sp = find_in(&s, pos, k, ' ');
            let ghost ek = s@.subrange(pos as int, k as int);
            proof {
                assert(ek.subrange(0, ek.len() as int) =~= ek);
                lemma_split_step(ek, ' ', 0, (sp - pos) as int);
                assert(ek.subrange(0, (sp - pos) as int) =~= s@.subrange(pos as int, sp as int));
                assert(entries[0] == ek);
            }
            let v: i32 = if sp == k {
                0
            } else {
                let sp2 = find_in(&s, sp + 1, k, ' ');
                proof {
                    assert(ek.subrange(sp - pos + 1, ek.len() as int) =~= s@.subrange(sp + 1, k as int));
                    lemma_split_step(ek, ' ', sp - pos + 1, (sp2 - pos) as int);
                    assert(ek.subrange(sp - pos + 1, (sp2 - pos) as int) =~= s@.subrange(sp + 1, sp2 as int));
                }
                match parse_signed(&s, sp + 1, sp2, i32::MIN as i64, i32::MAX as i64) {
                    Some(x) => x as i32,
                    None => {
                        return None;
                    },
                }
            };
            res.apply(&s, pos, sp, v);
            if k == n {
                proof {
                    assert(entries.drop_first() =~= Seq::<Seq<char>>::empty());
                }
                break;
            }
            proof {
                assert(entries.drop_first() =~= split_on(s@.subrange(k + 1, n as int), '|'));
            }
            pos = k + 1;
        }
        Some(res)
    }

    /// Parses a well-formed flag string.
    pub fn parse(flags: &str) -> (r: ResamplerFlags)
        requires
            flags_of(flags@) is Some,
        ensures
            Some(r) == flags_of(flags@),
    {
        match ResamplerFlags::try_parse(flags) {
            Some(f) => f,
            None => ResamplerFlags::none(),
        }
    }
}

} // verus!
