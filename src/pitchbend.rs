//! The pitchbend codec: a string of base64-style character pairs, each pair a
//! signed 12-bit offset in cents, with `#n#` run lengths that repeat the last
//! value `n` more times.
use vstd::prelude::*;
use vstd::utf8::encode_scalar;
use crate::text::{
    chars_of, find_char, find_in, lemma_find_char_at, lemma_split_nonempty, lemma_split_step,
    parse_unsigned, split_on, unsigned_value,
};

verus! {

/// Why a pitchbend string could not be decoded.
#[derive(Debug, Clone, Copy, PartialEq, Eq)]
pub enum PitchbendError {
    /// A run-length token is not a decimal count that fits `usize`.
    InvalidRunLength,
    /// A run-length token comes before any value it could repeat.
    NothingToRepeat,
}

/// The six bits that one byte of the payload alphabet stands for:
/// `A..Z` are 0..25, `a..z` 26..51, `0..9` 52..61, `+` 62 and `/` 63. Other
/// bytes follow the same ranges (`{` reads as 52, `:` as 62) and the rest are 0.
pub open spec fn sextet(x: u8) -> u8 {
    if x >= 97 {
        (x - 71) as u8
    } else if x >= 65 {
        (x - 65) as u8
    } else if x >= 48 {
        (x + 4) as u8
    } else if x == 43 {
        62
    } else if x == 47 {
        63
    } else {
        0
    }
}

/// The first byte of the UTF-8 encoding of `c`.
pub open spec fn lead_byte(c: char) -> u8 {
    encode_scalar(c as u32)[0]
}

/// Two six-bit groups joined high-then-low into twelve bits, with bit 11 read
/// as the sign.
pub open spec fn int12_of(hi: u8, lo: u8) -> i16 {
    let u = ((hi as i16) << 6u16) | (lo as i16);
    if (u >> 11u16) & 1 == 1 {
        (u - 4096) as i16
    } else {
        u
    }
}

/// The value that the character pair `(c0, c1)` encodes.
pub open spec fn pair_value(c0: char, c1: char) -> i16 {
    int12_of(sextet(lead_byte(c0)), sextet(lead_byte(c1)))
}

/// The values of one payload token, two characters each; a lone last
/// character counts as its pair with `A`, i.e. with six zero low bits.
pub open spec fn decode_payload(p: Seq<char>) -> Seq<i16> {
    Seq::new(
        ((p.len() + 1) / 2) as nat,
        |k: int|
            if 2 * k + 1 < p.len() {
                pair_value(p[2 * k], p[2 * k + 1])
            } else {
                pair_value(p[2 * k], 'A')
            },
    )
}

/// Decodes the tokens that follow `acc`: payload, run length, payload, ...
pub open spec fn decode_tokens(tokens: Seq<Seq<char>>, acc: Seq<i16>) -> Result<Seq<i16>, PitchbendError>
    decreases tokens.len(),
{
    if tokens.len() == 0 {
        Ok(acc)
    } else {
        let out = acc + decode_payload(tokens[0]);
        if tokens.len() == 1 {
            Ok(out)
        } else {
            match unsigned_value(tokens[1]) {
                None => Err(PitchbendError::InvalidRunLength),
                Some(n) => if n > usize::MAX {
                    Err(PitchbendError::InvalidRunLength)
                } else if out.len() == 0 {
                    Err(PitchbendError::NothingToRepeat)
                } else {
                    decode_tokens(tokens.skip(2), out + Seq::new(n, |j: int| out.last()))
                },
            }
        }
    }
}

/// The cents that a pitchbend string stands for, ending with a 0; a string of
/// fewer than two characters stands for `[0]`.
pub open spec fn pitchbend_of(s: Seq<char>) -> Result<Seq<i16>, PitchbendError> {
    if s.len() < 2 {
        Ok(seq![0i16])
    } else {
        match decode_tokens(split_on(s, '#'), seq![]) {
            Ok(v) => Ok(v.push(0i16)),
            Err(e) => Err(e),
        }
    }
}

fn sextet_of(x: u8) -> (r: u8)
    ensures
        r == sextet(x),
{
    if x >= 97 {
        x - 71
    } else if x >= 65 {
        x - 65
    } else if x >= 48 {
        x + 4
    } else if x == 43 {
        62
    } else if x == 47 {
        63
    } else {
        0
    }
}

fn lead_byte_of(c: char) -> (r: u8)
    ensures
        r == lead_byte(c),
{
    let u = c as u32;
    if u <= 0x7F {
        (u & 0x7F) as u8
    } else if u <= 0x7FF {
        0xC0u8 | ((u >> 6u32) & 0x1Fu32) as u8
    } else if u <= 0xFFFF {
        0xE0u8 | ((u >> 12u32) & 0x0Fu32) as u8
    } else {
        0xF0u8 | ((u >> 18u32) & 0x7u32) as u8
    }
}

/// The six bits that the first character of `data` stands for, read from
/// its first byte.
pub fn to_uint6(data: &str) -> (r: u8)
    requires
        data@.len() > 0,
    ensures
        r == sextet(lead_byte(data@[0])),
{
    let b = data.as_bytes();
    proof {
        assert(b@ == encode_scalar(data@[0] as u32) + vstd::utf8::encode_utf8(data@.drop_first()));
    }
    sextet_of(b[0])
}

/// The signed 12-bit value that a character pair encodes.
pub fn to_int12(data: (char, char)) -> (r: i16)
    ensures
        r == pair_value(data.0, data.1),
{
    let hi = sextet_of(lead_byte_of(data.0));
    let lo = sextet_of(lead_byte_of(data.1));
    let u: i16 = ((hi as i16) << 6u16) | (lo as i16);
    if (u >> 11u16) & 1 == 1 {
        assert(u - 4096 >= i16::MIN) by (bit_vector)
            requires
                u == ((hi as i16) << 6u16) | (lo as i16),
        ;
        u - 4096
    } else {
        u
    }
}

/// Appends the values of the payload `s[lo..hi]` to `res`.
fn push_payload(s: &Vec<char>, lo: usize, hi: usize, res: &mut Vec<i16>)
    requires
        lo <= hi <= s@.len(),
    ensures
        final(res)@ == old(res)@ + decode_payload(s@.subrange(lo as int, hi as int)),
{
    let ghost sub = s@.subrange(lo as int, hi as int);
    let ghost dec = decode_payload(sub);
    let ghost start = res@;
    let mut i: usize = lo;
    while i < hi
        invariant
            lo <= i <= hi <= s@.len(),
            sub == s@.subrange(lo as int, hi as int),
            dec == decode_payload(sub),
            (i - lo) % 2 == 0 || i == hi,
            res@ == start + dec.take((i - lo + 1) / 2),
        decreases hi - i,
    {
        let c0 = s[i];
        let c1 = if i + 1 < hi { s[i + 1] } else { 'A' };
        let v = to_int12((c0, c1));
        proof {
            let k = (i - lo) / 2;
            assert(sub[2 * k] == c0);
            assert(i + 1 < hi ==> sub[2 * k + 1] == c1);
            assert(dec[k] == v);
            assert(dec.take(k) + seq![v] =~= dec.take(k + 1));
        }
        res.push(v);
        i = if i + 1 < hi { i + 2 } else { hi };
    }
    proof {
        assert(dec.take((hi - lo + 1) / 2) =~= dec);
    }
}

/// The values of one payload token, two characters each.
pub fn to_int12_stream(data: &str) -> (r: Vec<i16>)
    ensures
        r@ == decode_payload(data@),
{
    let s = chars_of(data);
    let mut r: Vec<i16> = Vec::new();
    push_payload(&s, 0, s.len(), &mut r);
    proof {
        assert(s@.subrange(0, s@.len() as int) =~= data@);
        assert(seq![] + decode_payload(data@) =~= decode_payload(data@));
    }
    r
}

/// Decodes a pitchbend string into cents, one value per 1/96 beat, with a
/// trailing 0.
pub fn pitch_string_to_cents(s: &str) -> (r: Result<Vec<i16>, PitchbendError>)
    ensures
        match r {
            Ok(v) => pitchbend_of(s@) == Ok::<Seq<i16>, PitchbendError>(v@),
            Err(e) => pitchbend_of(s@) == Err::<Seq<i16>, PitchbendError>(e),
        },
{
    let chars = chars_of(s);
    let n = chars.len();
    if n < 2 {
        let r = vec![0i16];
        assert(r@ =~= seq![0i16]);
        return Ok(r);
    }
    let ghost whole = decode_tokens(split_on(s@, '#'), seq![]);
    proof {
        assert(chars@.subrange(0, n as int) =~= s@);
    }
    let mut res: Vec<i16> = Vec::new();
    let mut pos: usize = 0;
    loop
        invariant_except_break
            pos <= n,
            decode_tokens(split_on(chars@.subrange(pos as int, n as int), '#'), res@) == whole,
        invariant
            2 <= n == chars@.len(),
            chars@ == s@,
            whole == decode_tokens(split_on(s@, '#'), seq![]),
        ensures
            whole == Ok::<Seq<i16>, PitchbendError>(res@),
        decreases n - pos,
    {
        let k = find_in(&chars, pos, n, '#');
        proof {
            lemma_split_step(chars@, '#', pos as int, k as int);
        }
        let ghost tokens = split_on(chars@.subrange(pos as int, n as int), '#');
        let ghost before = res@;
        push_payload(&chars, pos, k, &mut res);
        if k == n {
            break;
        }
        let k2 = find_in(&chars, k + 1, n, '#');
        proof {
            lemma_split_step(chars@, '#', k + 1, k2 as int);
            assert(tokens[1] == chars@.subrange(k + 1, k2 as int));
            lemma_split_nonempty(chars@.subrange(k + 1, n as int), '#');
            assert(tokens.len() >= 2);
            assert(decode_tokens(tokens, before) == match unsigned_value(tokens[1]) {
                None => Err(PitchbendError::InvalidRunLength),
                Some(c) => if c > usize::MAX {
                    Err(PitchbendError::InvalidRunLength)
                } else if res@.len() == 0 {
                    Err(PitchbendError::NothingToRepeat)
                } else {
                    decode_tokens(tokens.skip(2), res@ + Seq::new(c, |j: int| res@.last()))
                },
            });
        }
        let count = match parse_unsigned(&chars, k + 1, k2, usize::MAX as u64) {
            Some(c) => c as usize,
            None => {
                return Err(PitchbendError::InvalidRunLength);
            },
        };
        if res.len() == 0 {
            return Err(PitchbendError::NothingToRepeat);
        }
        let last = res[res.len() - 1];
        let ghost out = res@;
        for j in 0..count
            invariant
                res@ == out + Seq::new(j as nat, |i: int| last),
        {
            res.push(last);
            proof {
                assert(out + Seq::new((j + 1) as nat, |i: int| last) =~= res@);
            }
        }
        proof {
            assert(out + Seq::new(count as nat, |i: int| out.last()) =~= res@);
            if k2 == n {
                assert(tokens.skip(2) =~= Seq::<Seq<char>>::empty());
                assert(decode_tokens(tokens.skip(2), res@) == Ok::<Seq<i16>, PitchbendError>(res@));
            } else {
                assert(tokens.skip(2) =~= split_on(chars@.subrange(k2 + 1, n as int), '#'));
            }
        }
        if k2 == n {
            break;
        }
        pos = k2 + 1;
    }
    res.push(0);
    Ok(res)
}

/// Total, over the payload tokens (even positions), of `ceil(len / 2)`.
pub open spec fn payload_pairs(tokens: Seq<Seq<char>>) -> nat
    decreases tokens.len(),
{
    if tokens.len() == 0 {
        0
    } else if tokens.len() == 1 {
        ((tokens[0].len() + 1) / 2) as nat
    } else {
        ((tokens[0].len() + 1) / 2) as nat + payload_pairs(tokens.skip(2))
    }
}

/// Total of the counts in the run-length tokens (odd positions).
pub open spec fn run_total(tokens: Seq<Seq<char>>) -> nat
    decreases tokens.len(),
{
    if tokens.len() < 2 {
        0
    } else {
        match unsigned_value(tokens[1]) {
            Some(n) => n + run_total(tokens.skip(2)),
            None => run_total(tokens.skip(2)),
        }
    }
}

proof fn lemma_decode_tokens_len(tokens: Seq<Seq<char>>, acc: Seq<i16>)
    requires
        decode_tokens(tokens, acc) is Ok,
    ensures
        decode_tokens(tokens, acc)->Ok_0.len() == acc.len() + payload_pairs(tokens) + run_total(
            tokens,
        ),
    decreases tokens.len(),
{
    if tokens.len() >= 2 {
        let out = acc + decode_payload(tokens[0]);
        let n = unsigned_value(tokens[1])->Some_0;
        lemma_decode_tokens_len(tokens.skip(2), out + Seq::new(n, |j: int| out.last()));
    }
}

/// A decoded pitchbend string holds `ceil(len / 2)` values for each payload
/// token, the count of each run-length token, and the trailing 0. A string of
/// one character is the exception: it decodes to `[0]` alone.
pub proof fn lemma_pitchbend_length(s: Seq<char>)
    requires
        s.len() != 1,
        pitchbend_of(s) is Ok,
    ensures
        pitchbend_of(s)->Ok_0.len() == payload_pairs(split_on(s, '#')) + run_total(
            split_on(s, '#'),
        ) + 1,
{
    if s.len() == 0 {
        assert(find_char(s, '#') == 0);
        assert(split_on(s, '#') == seq![s]);
        assert(payload_pairs(seq![s]) == 0);
        assert(run_total(seq![s]) == 0);
    } else {
        lemma_decode_tokens_len(split_on(s, '#'), seq![]);
    }
}

/// The payload character for six bits `k`: `A..Z`, `a..z`, `0..9`, `+`, `/`.
pub open spec fn alphabet(k: u8) -> char {
    if k < 26 {
        (k + 65) as u8 as char
    } else if k < 52 {
        (k + 71) as u8 as char
    } else if k < 62 {
        (k - 4) as u8 as char
    } else if k == 62 {
        '+'
    } else {
        '/'
    }
}

/// The twelve bits of `x` in two's complement.
pub open spec fn code_of(x: i16) -> int {
    if x < 0 {
        x + 4096
    } else {
        x as int
    }
}

pub open spec fn in_int12(x: i16) -> bool {
    -2048 <= x < 2048
}

/// The two payload characters for `x`, high six bits first.
pub open spec fn encode_value(x: i16) -> Seq<char> {
    seq![alphabet((code_of(x) / 64) as u8), alphabet((code_of(x) % 64) as u8)]
}

pub open spec fn encode_values(v: Seq<i16>) -> Seq<char>
    decreases v.len(),
{
    if v.len() == 0 {
        seq![]
    } else {
        encode_values(v.drop_last()) + encode_value(v.last())
    }
}

/// What a decoded sequence is written as: each value but the trailing 0 as
/// one character pair, with no run lengths.
pub open spec fn pitch_string_of(v: Seq<i16>) -> Seq<char> {
    encode_values(v.drop_last())
}

/// A sequence that the encoder takes: the decoder's shape, ending in 0, with
/// every value in signed 12-bit range.
pub open spec fn encodable(v: Seq<i16>) -> bool {
    &&& v.len() > 0
    &&& v.last() == 0
    &&& forall|i: int| 0 <= i < v.len() ==> in_int12(#[trigger] v[i])
}

proof fn lemma_alphabet(k: u8)
    requires
        k < 64,
    ensures
        (alphabet(k) as u32) < 0x80,
        lead_byte(alphabet(k)) == alphabet(k) as u32 as u8,
        sextet(lead_byte(alphabet(k))) == k,
        alphabet(k) != '#',
{
    let u = alphabet(k) as u32;
    assert(u < 0x80);
    assert((u & 0x7F) == u) by (bit_vector)
        requires
            u < 0x80,
    ;
}

proof fn lemma_pair_of_encoded(x: i16)
    requires
        in_int12(x),
    ensures
        pair_value(encode_value(x)[0], encode_value(x)[1]) == x,
{
    let c = code_of(x);
    let h = (c / 64) as u8;
    let l = (c % 64) as u8;
    lemma_alphabet(h);
    lemma_alphabet(l);
    let u: i16 = ((h as i16) << 6u16) | (l as i16);
    assert(u == (h as i16) * 64 + (l as i16) && ((u >> 11u16) & 1 == 1 <==> u >= 2048)) by (bit_vector)
        requires
            h < 64,
            l < 64,
            u == ((h as i16) << 6u16) | (l as i16),
    ;
}

proof fn lemma_encode_values_shape(v: Seq<i16>)
    requires
        forall|i: int| 0 <= i < v.len() ==> in_int12(#[trigger] v[i]),
    ensures
        encode_values(v).len() == 2 * v.len(),
        forall|k: int|
            0 <= k < v.len() ==> encode_values(v)[2 * k] == encode_value(v[k])[0]
                && encode_values(v)[2 * k + 1] == encode_value(v[k])[1],
        forall|j: int| 0 <= j < encode_values(v).len() ==> encode_values(v)[j] != '#',
    decreases v.len(),
{
    if v.len() > 0 {
        let w = v.drop_last();
        assert forall|i: int| 0 <= i < w.len() implies in_int12(#[trigger] w[i]) by {
            assert(w[i] == v[i]);
        }
        lemma_encode_values_shape(w);
        assert(in_int12(v[v.len() - 1]));
        let c = code_of(v.last());
        lemma_alphabet((c / 64) as u8);
        lemma_alphabet((c % 64) as u8);
        assert forall|k: int| 0 <= k < v.len() implies encode_values(v)[2 * k] == encode_value(
            v[k],
        )[0] && encode_values(v)[2 * k + 1] == encode_value(v[k])[1] by {
            if k < w.len() {
                assert(v[k] == w[k]);
            }
        }
    }
}

/// Decoding what the encoder writes gives back the sequence it was given.
pub proof fn lemma_pitchbend_round_trip(v: Seq<i16>)
    requires
        encodable(v),
    ensures
        pitchbend_of(pitch_string_of(v)) == Ok::<Seq<i16>, PitchbendError>(v),
{
    let w = v.drop_last();
    let s = pitch_string_of(v);
    assert forall|i: int| 0 <= i < w.len() implies in_int12(#[trigger] w[i]) by {
        assert(w[i] == v[i]);
    }
    lemma_encode_values_shape(w);
    if s.len() >= 2 {
        lemma_find_char_at(s, '#', s.len() as int);
        assert(split_on(s, '#') == seq![s]);
        assert(decode_tokens(seq![s], seq![]) == Ok::<Seq<i16>, PitchbendError>(
            seq![] + decode_payload(s),
        ));
        assert forall|k: int| 0 <= k < w.len() implies decode_payload(s)[k] == w[k] by {
            assert(in_int12(v[k]));
            lemma_pair_of_encoded(w[k]);
        }
        assert(decode_payload(s) =~= w);
        assert(seq![] + decode_payload(s) =~= w);
        assert(w.push(0i16) =~= v);
    } else {
        assert(v =~= seq![0i16]);
    }
}

/// Relies on `String::push`: it appends `ch` to the end of the string.
pub assume_specification[ String::push ](s: &mut String, ch: char)
    ensures
        final(s)@ == old(s)@.push(ch),
;

fn alphabet_char(k: u8) -> (r: char)
    requires
        k < 64,
    ensures
        r == alphabet(k),
{
    if k < 26 {
        (k + 65) as char
    } else if k < 52 {
        (k + 71) as char
    } else if k < 62 {
        (k - 4) as char
    } else if k == 62 {
        '+'
    } else {
        '/'
    }
}

/// Writes a decoded sequence back as a pitchbend string: each value but the
/// trailing 0 as one character pair.
pub fn cents_to_pitch_string(v: &Vec<i16>) -> (r: String)
    requires
        encodable(v@),
    ensures
        r@ == pitch_string_of(v@),
{
    let mut r = String::new();
    let ghost w = v@.drop_last();
    let m = v.len() - 1;
    for i in 0..m
        invariant
            m == v@.len() - 1,
            w == v@.drop_last(),
            encodable(v@),
            r@ == encode_values(w.take(i as int)),
    {
        let x = v[i];
        assert(in_int12(v@[i as int]));
        let c: i16 = if x < 0 { x + 4096 } else { x };
        let hi = alphabet_char((c / 64) as u8);
        let lo = alphabet_char((c % 64) as u8);
        r.push(hi);
        r.push(lo);
        proof {
            let t = w.take(i + 1);
            assert(t.drop_last() =~= w.take(i as int));
            assert(t.last() == x);
            assert(encode_value(x) =~= seq![hi, lo]);
        }
    }
    proof {
        assert(w.take(m as int) =~= w);
    }
    r
}

} // verus!
