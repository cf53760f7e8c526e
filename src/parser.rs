//! The thirteen positional arguments of a render.
use vstd::prelude::*;
use crate::flags::{flags_of, ResamplerFlags};
use crate::notes::{note_midi, note_to_midi};
use crate::pitchbend::{pitch_string_to_cents, pitchbend_of, PitchbendError};
use crate::text::{chars_of, decimal_milli, parse_decimal, parse_unsigned, unsigned_value};

verus! {

/// One render, as the command line asks for it. Decimal arguments are held
/// in thousandths of their unit: `offset`, `consonant` and `cutoff` in
/// microseconds, `velocity`, `volume` and `modulation` in thousandths of a
/// percent (so the modulation factor is `modulation / 100000`), `tempo` in
/// thousandths of a beat per minute.
pub struct ResamplerInstruction {
    pub input: String,
    pub output: String,
    /// MIDI number of the note.
    pub pitch: i32,
    pub velocity: i64,
    pub flags: ResamplerFlags,
    pub offset: i64,
    /// Requested length, ms.
    pub length: usize,
    pub consonant: i64,
    pub cutoff: i64,
    pub volume: i64,
    pub modulation: i64,
    pub tempo: i64,
    /// Cents, one value per 1/96 beat.
    pub pitchbend: Vec<i16>,
}

/// Why the arguments do not describe a render.
#[derive(Debug, Clone, Copy, PartialEq, Eq)]
pub enum ArgumentError {
    /// Fewer than thirteen arguments after the program name.
    TooFewArguments,
    /// The argument at this position (the program name is 0) is malformed.
    InvalidArgument(usize),
}

/// Whether `a` is well formed as the argument at position `k`.
pub open spec fn arg_ok(a: Seq<char>, k: int) -> bool {
    if k == 3 {
        note_midi(a) is Some && note_midi(a)->0 <= i32::MAX
    } else if k == 4 {
        decimal_milli(a) is Some && 0 <= decimal_milli(a)->0 <= 100000
    } else if k == 5 {
        flags_of(a) is Some
    } else if k == 7 {
        unsigned_value(a) is Some && unsigned_value(a)->0 <= usize::MAX
    } else if k == 13 {
        pitchbend_of(a) is Ok
    } else {
        decimal_milli(a) is Some
    }
}

/// Whether the arguments from position 3 up to `k` are well formed.
pub open spec fn args_ok_below(args: Seq<String>, k: int) -> bool {
    forall|j: int| 3 <= j < k ==> arg_ok(#[trigger] args[j]@, j)
}

/// What a well-formed argument list asks for.
pub open spec fn instruction_matches(ins: ResamplerInstruction, args: Seq<String>) -> bool {
    &&& ins.input@ == args[1]@
    &&& ins.output@ == args[2]@
    &&& ins.pitch == note_midi(args[3]@)->0
    &&& ins.velocity == decimal_milli(args[4]@)->0
    &&& Some(ins.flags) == flags_of(args[5]@)
    &&& ins.offset == decimal_milli(args[6]@)->0
    &&& ins.length == unsigned_value(args[7]@)->0
    &&& ins.consonant == decimal_milli(args[8]@)->0
    &&& ins.cutoff == decimal_milli(args[9]@)->0
    &&& ins.volume == decimal_milli(args[10]@)->0
    &&& ins.modulation == decimal_milli(args[11]@)->0
    &&& ins.tempo == decimal_milli(args[12]@)->0
    &&& pitchbend_of(args[13]@) == Ok::<Seq<i16>, PitchbendError>(ins.pitchbend@)
}

proof fn lemma_ok_step(args: Seq<String>, k: int)
    requires
        args_ok_below(args, k),
        arg_ok(args[k]@, k),
    ensures
        args_ok_below(args, k + 1),
{
    assert forall|j: int| 3 <= j < k + 1 implies arg_ok(#[trigger] args[j]@, j) by {
        if j < k {
            assert(arg_ok(args[j]@, j));
        }
    }
}

fn decimal_arg(args: &Vec<String>, k: usize) -> (r: Option<i64>)
    requires
        k < args@.len(),
    ensures
        r == (match decimal_milli(args@[k as int]@) {
            Some(v) => Some(v as i64),
            None => None::<i64>,
        }),
        r is Some ==> crate::timing::decimal_bounded(r->0),
        r is Some ==> r->0 == decimal_milli(args@[k as int]@)->0,
{
    let s = chars_of(args[k].as_str());
    proof {
        assert(s@.subrange(0, s@.len() as int) =~= s@);
    }
    parse_decimal(&s, 0, s.len())
}

/// Reads the arguments of a render; `args[0]` is the program name and
/// arguments after the thirteenth are ignored. The first malformed argument
/// is the one reported.
#[verifier::rlimit(40)]
pub fn parse_args(args: &Vec<String>) -> (r: Result<ResamplerInstruction, ArgumentError>)
    ensures
        match r {
            Ok(ins) => args@.len() >= 14 && args_ok_below(args@, 14) && instruction_matches(ins, args@),
            Err(ArgumentError::TooFewArguments) => args@.len() < 14,
            Err(ArgumentError::InvalidArgument(k)) => args@.len() >= 14 && 3 <= k <= 13
                && args_ok_below(args@, k as int) && !arg_ok(args@[k as int]@, k as int),
        },
{
    if args.len() < 14 {
        return Err(ArgumentError::TooFewArguments);
    }
    assert(args_ok_below(args@, 3));
    let pitch = match note_to_midi(args[3].as_str()) {
        Some(p) => p,
        None => return Err(ArgumentError::InvalidArgument(3)),
    };
    proof {
        lemma_ok_step(args@, 3);
    }
    let velocity = match decimal_arg(args, 4) {
        Some(v) => if 0 <= v && v <= 100000 {
            v
        } else {
            return Err(ArgumentError::InvalidArgument(4));
        },
        None => return Err(ArgumentError::InvalidArgument(4)),
    };
    proof {
        lemma_ok_step(args@, 4);
    }
    let flags = match ResamplerFlags::try_parse(args[5].as_str()) {
        Some(f) => f,
        None => return Err(ArgumentError::InvalidArgument(5)),
    };
    proof {
        lemma_ok_step(args@, 5);
    }
    let offset = match decimal_arg(args, 6) {
        Some(v) => v,
        None => return Err(ArgumentError::InvalidArgument(6)),
    };
    proof {
        lemma_ok_step(args@, 6);
    }
    let ls = chars_of(args[7].as_str());
    proof {
        assert(ls@.subrange(0, ls@.len() as int) =~= ls@);
    }
    let length = match parse_unsigned(&ls, 0, ls.len(), usize::MAX as u64) {
        Some(v) => v as usize,
        None => return Err(ArgumentError::InvalidArgument(7)),
    };
    proof {
        lemma_ok_step(args@, 7);
    }
    let consonant = match decimal_arg(args, 8) {
        Some(v) => v,
        None => return Err(ArgumentError::InvalidArgument(8)),
    };
    proof {
        lemma_ok_step(args@, 8);
    }
    let cutoff = match decimal_arg(args, 9) {
        Some(v) => v,
        None => return Err(ArgumentError::InvalidArgument(9)),
    };
    proof {
        lemma_ok_step(args@, 9);
    }
    let volume = match decimal_arg(args, 10) {
        Some(v) => v,
        None => return Err(ArgumentError::InvalidArgument(10)),
    };
    proof {
        lemma_ok_step(args@, 10);
    }
    let modulation = match decimal_arg(args, 11) {
        Some(v) => v,
        None => return Err(ArgumentError::InvalidArgument(11)),
    };
    proof {
        lemma_ok_step(args@, 11);
    }
    let tempo = match decimal_arg(args, 12) {
        Some(v) => v,
        None => return Err(ArgumentError::InvalidArgument(12)),
    };
    proof {
        lemma_ok_step(args@, 12);
    }
    let pitchbend = match pitch_string_to_cents(args[13].as_str()) {
        Ok(p) => p,
        Err(_) => return Err(ArgumentError::InvalidArgument(13)),
    };
    proof {
        lemma_ok_step(args@, 13);
    }
    Ok(
        ResamplerInstruction {
            input: args[1].clone(),
            output: args[2].clone(),
            pitch,
            velocity,
            flags,
            offset,
            length,
            consonant,
            cutoff,
            volume,
            modulation,
            tempo,
            pitchbend,
        },
    )
}

} // verus!
