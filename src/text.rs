//! Character-level helpers shared by the parsers: digits, decimal numbers and
//! splitting on a separator.
use vstd::prelude::*;

verus! {

pub open spec fn is_digit(c: char) -> bool {
    '0' <= c && c <= '9'
}

pub open spec fn digit_value(c: char) -> int {
    c as int - '0' as int
}

pub open spec fn all_digits(s: Seq<char>) -> bool {
    forall|i: int| 0 <= i < s.len() ==> is_digit(#[trigger] s[i])
}

/// The number that a string of decimal digits denotes.
pub open spec fn digits_value(s: Seq<char>) -> nat
    decreases s.len(),
{
    if s.len() == 0 {
        0
    } else {
        (digits_value(s.drop_last()) * 10 + digit_value(s.last())) as nat
    }
}

/// The value of an unsigned decimal literal: one or more digits.
pub open spec fn unsigned_value(s: Seq<char>) -> Option<nat> {
    if s.len() > 0 && all_digits(s) {
        Some(digits_value(s))
    } else {
        None
    }
}

/// The value of a signed decimal literal: an optional `+` or `-`, then one or
/// more digits.
pub open spec fn signed_value(s: Seq<char>) -> Option<int> {
    if s.len() > 0 && s[0] == '-' {
        match unsigned_value(s.drop_first()) {
            Some(v) => Some(-v),
            None => None,
        }
    } else if s.len() > 0 && s[0] == '+' {
        match unsigned_value(s.drop_first()) {
            Some(v) => Some(v as int),
            None => None,
        }
    } else {
        match unsigned_value(s) {
            Some(v) => Some(v as int),
            None => None,
        }
    }
}

/// Index of the first `c` in `s`, or `s.len()` when there is none.
pub open spec fn find_char(s: Seq<char>, c: char) -> nat
    decreases s.len(),
{
    if s.len() == 0 {
        0
    } else if s[0] == c {
        0
    } else {
        1 + find_char(s.drop_first(), c)
    }
}

/// The pieces of `s` between the occurrences of `sep`, as `str::split` gives
/// them: `n` separators give `n + 1` pieces, some of them possibly empty.
pub open spec fn split_on(s: Seq<char>, sep: char) -> Seq<Seq<char>>
    decreases s.len(),
{
    let k = find_char(s, sep);
    if k >= s.len() {
        seq![s]
    } else {
        seq![s.take(k as int)] + split_on(s.skip(k + 1 as int), sep)
    }
}

pub proof fn lemma_find_char_bound(s: Seq<char>, c: char)
    ensures
        find_char(s, c) <= s.len(),
        find_char(s, c) < s.len() ==> s[find_char(s, c) as int] == c,
        forall|j: int| 0 <= j < find_char(s, c) ==> s[j] != c,
    decreases s.len(),
{
    if s.len() > 0 && s[0] != c {
        lemma_find_char_bound(s.drop_first(), c);
        assert forall|j: int| 0 <= j < find_char(s, c) implies s[j] != c by {
            if j > 0 {
                assert(s[j] == s.drop_first()[j - 1]);
            }
        }
    }
}

pub proof fn lemma_find_char_at(s: Seq<char>, c: char, k: int)
    requires
        0 <= k <= s.len(),
        k < s.len() ==> s[k] == c,
        forall|j: int| 0 <= j < k ==> s[j] != c,
    ensures
        find_char(s, c) == k,
    decreases k,
{
    if k > 0 {
        assert(s[0] != c);
        assert forall|j: int| 0 <= j < k - 1 implies s.drop_first()[j] != c by {
            assert(s.drop_first()[j] == s[j + 1]);
        }
        lemma_find_char_at(s.drop_first(), c, k - 1);
    }
}

/// A prefix of a digit string never denotes more than the whole string.
pub proof fn lemma_digits_prefix(s: Seq<char>, k: int)
    requires
        0 <= k <= s.len(),
        all_digits(s),
    ensures
        digits_value(s.take(k)) <= digits_value(s),
    decreases s.len(),
{
    if k < s.len() {
        let d = s.drop_last();
        assert(all_digits(d)) by {
            assert forall|i: int| 0 <= i < d.len() implies is_digit(#[trigger] d[i]) by {
                assert(d[i] == s[i]);
            }
        }
        assert(is_digit(s[s.len() - 1]));
        assert(d.take(k) =~= s.take(k));
        lemma_digits_prefix(d, k);
    } else {
        assert(s.take(k) =~= s);
    }
}

/// The characters of `s`, in order.
pub fn chars_of(s: &str) -> (r: Vec<char>)
    ensures
        r@ == s@,
{
    let mut r: Vec<char> = Vec::new();
    for c in it: s.chars()
        invariant
            it.seq() == s@,
            r@ == it.seq().take(it.index() as int),
    {
        r.push(c);
    }
    r
}

/// Index of the first `c` in `s[lo..hi]`, or `hi` when there is none.
pub fn find_in(s: &Vec<char>, lo: usize, hi: usize, c: char) -> (r: usize)
    requires
        lo <= hi <= s@.len(),
    ensures
        r == lo + find_char(s@.subrange(lo as int, hi as int), c),
{
    let ghost sub = s@.subrange(lo as int, hi as int);
    let mut i: usize = lo;
    while i < hi
        invariant
            lo <= i <= hi <= s@.len(),
            sub == s@.subrange(lo as int, hi as int),
            forall|j: int| lo <= j < i ==> s@[j] != c,
        decreases hi - i,
    {
        if s[i] == c {
            proof {
                assert forall|j: int| 0 <= j < i - lo implies sub[j] != c by {
                    assert(sub[j] == s@[lo + j]);
                }
                lemma_find_char_at(sub, c, i - lo);
            }
            return i;
        }
        i = i + 1;
    }
    proof {
        assert forall|j: int| 0 <= j < hi - lo implies sub[j] != c by {
            assert(sub[j] == s@[lo + j]);
        }
        lemma_find_char_at(sub, c, hi - lo);
    }
    hi
}

/// Reads `s[lo..hi]` as one or more decimal digits; `None` when it is not
/// such a string or denotes more than `bound`.
pub fn parse_unsigned(s: &Vec<char>, lo: usize, hi: usize, bound: u64) -> (r: Option<u64>)
    requires
        lo <= hi <= s@.len(),
    ensures
        r == (match unsigned_value(s@.subrange(lo as int, hi as int)) {
            Some(v) => if v <= bound {
                Some(v as u64)
            } else {
                None::<u64>
            },
            None => None::<u64>,
        }),
{
    let ghost sub = s@.subrange(lo as int, hi as int);
    if lo == hi {
        return None;
    }
    let mut acc: u64 = 0;
    let mut i: usize = lo;
    while i < hi
        invariant
            lo <= i <= hi <= s@.len(),
            sub == s@.subrange(lo as int, hi as int),
            all_digits(s@.subrange(lo as int, i as int)),
            acc == digits_value(s@.subrange(lo as int, i as int)),
            acc <= bound,
        decreases hi - i,
    {
        let c = s[i];
        if !('0' <= c && c <= '9') {
            proof {
                assert(sub[i - lo] == c);
            }
            return None;
        }
        let d = (c as u32 - '0' as u32) as u64;
        let next: u128 = acc as u128 * 10 + d as u128;
        let ghost pre = s@.subrange(lo as int, i + 1);
        proof {
            assert(pre.drop_last() =~= s@.subrange(lo as int, i as int));
            assert(pre.last() == c);
        }
        if next > bound as u128 {
            proof {
                if all_digits(sub) {
                    assert(sub.take(i + 1 - lo) =~= pre);
                    lemma_digits_prefix(sub, i + 1 - lo);
                }
            }
            return None;
        }
        acc = next as u64;
        i = i + 1;
        proof {
            assert forall|j: int| 0 <= j < pre.len() implies is_digit(#[trigger] pre[j]) by {
                if j < pre.len() - 1 {
                    assert(pre[j] == s@.subrange(lo as int, i - 1)[j]);
                }
            }
        }
    }
    proof {
        assert(s@.subrange(lo as int, i as int) =~= sub);
    }
    Some(acc)
}

pub proof fn lemma_split_nonempty(s: Seq<char>, sep: char)
    ensures
        split_on(s, sep).len() >= 1,
{
    if find_char(s, sep) < s.len() {
        assert(split_on(s, sep) == seq![s.take(find_char(s, sep) as int)] + split_on(
            s.skip(find_char(s, sep) + 1 as int),
            sep,
        ));
    }
}

/// One step of `split_on`: the piece that starts at `pos` ends at `k`, the
/// first separator at or after `pos`, or at the end.
pub proof fn lemma_split_step(s: Seq<char>, sep: char, pos: int, k: int)
    requires
        0 <= pos <= s.len(),
        k == pos + find_char(s.subrange(pos, s.len() as int), sep),
    ensures
        pos <= k <= s.len(),
        k == s.len() ==> split_on(s.subrange(pos, s.len() as int), sep) == seq![s.subrange(pos, k)],
        k < s.len() ==> s[k] == sep && split_on(s.subrange(pos, s.len() as int), sep) == seq![
            s.subrange(pos, k),
        ] + split_on(s.subrange(k + 1, s.len() as int), sep),
{
    let t = s.subrange(pos, s.len() as int);
    lemma_find_char_bound(t, sep);
    assert(t.take(k - pos) =~= s.subrange(pos, k));
    if k < s.len() {
        assert(t.skip(k - pos + 1) =~= s.subrange(k + 1, s.len() as int));
        assert(t[k - pos] == s[k]);
    } else {
        assert(t =~= s.subrange(pos, k));
    }
}

/// Reads `s[lo..hi]` as an optionally signed decimal integer; `None` when it
/// is not one or lies outside `[min, max]`.
pub fn parse_signed(s: &Vec<char>, lo: usize, hi: usize, min: i64, max: i64) -> (r: Option<i64>)
    requires
        lo <= hi <= s@.len(),
        min <= 0 <= max,
    ensures
        r == (match signed_value(s@.subrange(lo as int, hi as int)) {
            Some(v) => if min <= v <= max {
                Some(v as i64)
            } else {
                None::<i64>
            },
            None => None::<i64>,
        }),
{
    let ghost sub = s@.subrange(lo as int, hi as int);
    if lo < hi && (s[lo] == '-' || s[lo] == '+') {
        let neg = s[lo] == '-';
        proof {
            assert(sub.drop_first() =~= s@.subrange(lo + 1, hi as int));
        }
        let bound: u64 = if neg { (0 - (min as i128)) as u64 } else { max as u64 };
        match parse_unsigned(s, lo + 1, hi, bound) {
            Some(m) => if neg {
                Some((0 - (m as i128)) as i64)
            } else {
                Some(m as i64)
            },
            None => None,
        }
    } else {
        match parse_unsigned(s, lo, hi, max as u64) {
            Some(m) => Some(m as i64),
            None => None,
        }
    }
}

/// Largest whole part that a decimal may have.
pub const MAX_WHOLE: u64 = 1_000_000_000_000;

/// Thousandths that the digits after a decimal point stand for; digits after
/// the third are dropped.
pub open spec fn milli_of(f: Seq<char>) -> nat {
    if f.len() == 0 {
        0
    } else if f.len() == 1 {
        digits_value(f) * 100
    } else if f.len() == 2 {
        digits_value(f) * 10
    } else {
        digits_value(f.take(3))
    }
}

/// The value, in thousandths, of a decimal `[+-]digits[.digits]` with at
/// least one digit and a whole part of at most `MAX_WHOLE`. Digits past the
/// third after the point are dropped.
pub open spec fn decimal_milli(s: Seq<char>) -> Option<int> {
    let signed = s.len() > 0 && (s[0] == '-' || s[0] == '+');
    let body = if signed { s.drop_first() } else { s };
    let k = find_char(body, '.');
    let whole = body.take(k as int);
    let frac = if k < body.len() { body.skip(k + 1 as int) } else { Seq::<char>::empty() };
    if all_digits(whole) && all_digits(frac) && whole.len() + frac.len() > 0 && digits_value(whole)
        <= MAX_WHOLE {
        let m = digits_value(whole) * 1000 + milli_of(frac);
        Some(if s.len() > 0 && s[0] == '-' { -m } else { m as int })
    } else {
        None
    }
}

/// Whether every character of `s[lo..hi]` is a digit.
fn all_digits_in(s: &Vec<char>, lo: usize, hi: usize) -> (r: bool)
    requires
        lo <= hi <= s@.len(),
    ensures
        r == all_digits(s@.subrange(lo as int, hi as int)),
{
    let mut i: usize = lo;
    while i < hi
        invariant
            lo <= i <= hi <= s@.len(),
            forall|j: int| lo <= j < i ==> is_digit(s@[j]),
        decreases hi - i,
    {
        if !('0' <= s[i] && s[i] <= '9') {
            assert(!is_digit(s@.subrange(lo as int, hi as int)[i - lo]));
            return false;
        }
        i = i + 1;
    }
    assert forall|j: int| 0 <= j < hi - lo implies is_digit(
        #[trigger] s@.subrange(lo as int, hi as int)[j],
    ) by {
        assert(s@.subrange(lo as int, hi as int)[j] == s@[lo + j]);
    }
    true
}

/// A digit string of at most three digits denotes less than `10^len`.
proof fn lemma_digits_below(s: Seq<char>)
    requires
        s.len() <= 3,
        all_digits(s),
    ensures
        digits_value(s) < (if s.len() == 0 {
            1int
        } else if s.len() == 1 {
            10int
        } else if s.len() == 2 {
            100int
        } else {
            1000int
        }),
    decreases s.len(),
{
    if s.len() > 0 {
        let d = s.drop_last();
        assert(all_digits(d)) by {
            assert forall|i: int| 0 <= i < d.len() implies is_digit(#[trigger] d[i]) by {
                assert(d[i] == s[i]);
            }
        }
        assert(is_digit(s[s.len() - 1]));
        lemma_digits_below(d);
    }
}

/// Reads the digits after a decimal point, `s[lo..hi]`, as thousandths.
fn parse_fraction(s: &Vec<char>, lo: usize, hi: usize) -> (r: Option<u64>)
    requires
        lo <= hi <= s@.len(),
    ensures
        r == (if all_digits(s@.subrange(lo as int, hi as int)) {
            Some(milli_of(s@.subrange(lo as int, hi as int)) as u64)
        } else {
            None::<u64>
        }),
        all_digits(s@.subrange(lo as int, hi as int)) ==> milli_of(s@.subrange(lo as int, hi as int)) <= 999,
{
    let ghost f = s@.subrange(lo as int, hi as int);
    if !all_digits_in(s, lo, hi) {
        return None;
    }
    let t: usize = if hi - lo < 3 { hi - lo } else { 3 };
    if t == 0 {
        assert(f.len() == 0);
        return Some(0);
    }
    proof {
        assert(f.take(t as int) =~= s@.subrange(lo as int, lo + t));
        assert(all_digits(f.take(t as int)));
        lemma_digits_below(f.take(t as int));
        if t < 3 {
            assert(f.take(t as int) =~= f);
        }
    }
    let part = match parse_unsigned(s, lo, lo + t, 999) {
        Some(p) => p,
        None => 0,
    };
    if t == 1 {
        Some(part * 100)
    } else if t == 2 {
        Some(part * 10)
    } else {
        Some(part)
    }
}

/// Reads `s[lo..hi]` as a decimal in thousandths (see `decimal_milli`).
pub fn parse_decimal(s: &Vec<char>, lo: usize, hi: usize) -> (r: Option<i64>)
    requires
        lo <= hi <= s@.len(),
    ensures
        r == (match decimal_milli(s@.subrange(lo as int, hi as int)) {
            Some(v) => Some(v as i64),
            None => None::<i64>,
        }),
        r is Some ==> -1000 * MAX_WHOLE - 999 <= r->0 <= 1000 * MAX_WHOLE + 999,
        decimal_milli(s@.subrange(lo as int, hi as int)) is Some ==> -1000 * MAX_WHOLE - 999
            <= decimal_milli(s@.subrange(lo as int, hi as int))->0 <= 1000 * MAX_WHOLE + 999,
{
    let ghost sub = s@.subrange(lo as int, hi as int);
    let signed = lo < hi && (s[lo] == '-' || s[lo] == '+');
    let neg = lo < hi && s[lo] == '-';
    let b: usize = if signed { lo + 1 } else { lo };
    let ghost body = if signed { sub.drop_first() } else { sub };
    assert(body =~= s@.subrange(b as int, hi as int));
    let k = find_in(s, b, hi, '.');
    proof {
        lemma_find_char_bound(body, '.');
        assert(body.take(k - b) =~= s@.subrange(b as int, k as int));
        if k < hi {
            assert(body.skip(k - b + 1) =~= s@.subrange(k + 1, hi as int));
        }
    }
    let fs: usize = if k < hi { k + 1 } else { hi };
    proof {
        if k >= hi {
            assert(s@.subrange(fs as int, hi as int) =~= Seq::<char>::empty());
        }
        if k == b {
            assert(s@.subrange(b as int, k as int) =~= Seq::<char>::empty());
        }
    }
    if k - b + (hi - fs) == 0 {
        return None;
    }
    let whole: u64 = if k == b {
        0
    } else {
        match parse_unsigned(s, b, k, MAX_WHOLE) {
            Some(w) => w,
            None => {
                return None;
            },
        }
    };
    let frac = match parse_fraction(s, fs, hi) {
        Some(f) => f,
        None => {
            return None;
        },
    };
    let m: u64 = whole * 1000 + frac;
    proof {
        let wseq = body.take(find_char(body, '.') as int);
        let fseq = if k < hi { body.skip(k - b + 1) } else { Seq::<char>::empty() };
        assert(wseq =~= s@.subrange(b as int, k as int));
        assert(fseq =~= s@.subrange(fs as int, hi as int));
        assert(all_digits(wseq));
        assert(digits_value(wseq) == whole);
        assert(lo < hi ==> sub[0] == s@[lo as int]);
        assert(milli_of(fseq) == frac);
    }
    if neg {
        Some(0 - m as i64)
    } else {
        Some(m as i64)
    }
}

} // verus!
