use vstd::prelude::*;
use crate::filter::{split_words, views, words};

verus! {

/// The largest whole part that a descriptor value keeps.
pub const WHOLE_CAP: u64 = 1_000_000_000_000;

/// A decimal digit.
pub open spec fn is_digit(c: char) -> bool {
    '0' <= c <= '9'
}

/// A character of a descriptor's leading number.
pub open spec fn is_num_char(c: char) -> bool {
    is_digit(c) || c == '.'
}

/// The value of a decimal digit.
pub open spec fn digit_val(c: char) -> int {
    c as int - '0' as int
}

/// The length of the leading run of digits and dots.
pub open spec fn lead_len(s: Seq<char>, i: int) -> int
    decreases s.len() - i,
{
    if i < 0 || i >= s.len() || !is_num_char(s[i]) {
        if i < 0 { 0 } else { i }
    } else {
        lead_len(s, i + 1)
    }
}

/// The leading run of digits and dots of a descriptor (`1.5x` gives `1.5`).
pub open spec fn lead(s: Seq<char>) -> Seq<char> {
    s.subrange(0, lead_len(s, 0))
}

/// How many dots the text holds.
pub open spec fn dots(s: Seq<char>) -> nat
    decreases s.len(),
{
    if s.len() == 0 {
        0
    } else {
        dots(s.drop_last()) + if s.last() == '.' { 1nat } else { 0nat }
    }
}

/// What reading a descriptor's leading number has gathered so far.
pub struct Reading {
    pub whole: int,
    pub frac: int,
    pub frac_digits: int,
    pub digits: int,
    pub dots: int,
}

/// Reads the first `i` characters of a run of digits and dots: the whole part stops
/// at the cap, and the fraction keeps its first six digits.
pub open spec fn read(l: Seq<char>, i: int) -> Reading
    decreases i,
{
    if i <= 0 || i > l.len() {
        Reading { whole: 0, frac: 0, frac_digits: 0, digits: 0, dots: 0 }
    } else {
        let r = read(l, i - 1);
        let c = l[i - 1];
        if c == '.' {
            Reading { dots: r.dots + 1, ..r }
        } else if r.dots == 0 {
            let w = r.whole * 10 + digit_val(c);
            Reading { whole: if w > WHOLE_CAP { WHOLE_CAP as int } else { w }, digits: r.digits + 1, ..r }
        } else if r.frac_digits < 6 {
            Reading { frac: r.frac * 10 + digit_val(c), frac_digits: r.frac_digits + 1, digits: r.digits + 1, ..r }
        } else {
            Reading { digits: r.digits + 1, ..r }
        }
    }
}

/// The value of a descriptor in millionths: its leading run of digits and dots read
/// as a decimal number, which needs a digit and at most one dot; the whole part is
/// capped and the fraction cut after six digits. `None` where there is no such number.
pub open spec fn descriptor_value(s: Seq<char>) -> Option<int> {
    let l = lead(s);
    let r = read(l, l.len() as int);
    if r.dots > 1 || r.digits == 0 {
        None
    } else {
        Some(r.whole * 1_000_000 + r.frac * pow10(6 - r.frac_digits))
    }
}

/// Ten to the power `e`.
pub open spec fn pow10(e: int) -> int
    decreases e,
{
    if e <= 0 { 1 } else { 10 * pow10(e - 1) }
}

/// `a` ranks at least as high as `b`; no value ranks lowest.
pub open spec fn value_ge(a: Option<int>, b: Option<int>) -> bool {
    match (a, b) {
        (_, None) => true,
        (None, Some(_)) => false,
        (Some(x), Some(y)) => x >= y,
    }
}

/// The number of (address, descriptor) pairs of a srcset list.
pub open spec fn pair_count(ws: Seq<Seq<char>>) -> int {
    (ws.len() as int + 1) / 2
}

/// The descriptor value of pair `k`.
pub open spec fn pair_value(ws: Seq<Seq<char>>, k: int) -> Option<int> {
    if 2 * k + 1 < ws.len() {
        descriptor_value(ws[2 * k + 1])
    } else {
        None
    }
}

/// Pair `k` has the largest value, and every pair before it a smaller one.
pub open spec fn is_best_pair(ws: Seq<Seq<char>>, k: int) -> bool {
    &&& 0 <= k < pair_count(ws)
    &&& forall|q: int| 0 <= q < pair_count(ws) ==> value_ge(pair_value(ws, k), #[trigger] pair_value(ws, q))
    &&& forall|q: int| 0 <= q < k ==> !value_ge(#[trigger] pair_value(ws, q), pair_value(ws, k))
}

/// The image that a srcset list names with the largest descriptor: the address of
/// the first pair whose value no other pair's exceeds. `None` for an empty list.
pub open spec fn best_source(v: Seq<char>) -> Option<Seq<char>> {
    let ws = words(v);
    if exists|k: int| is_best_pair(ws, k) {
        Some(ws[2 * choose|k: int| is_best_pair(ws, k)])
    } else {
        None
    }
}

proof fn lemma_best_unique(ws: Seq<Seq<char>>, a: int, b: int)
    requires
        is_best_pair(ws, a),
        is_best_pair(ws, b),
    ensures
        a == b,
{
    if a < b {
        assert(value_ge(pair_value(ws, a), pair_value(ws, b)));
    } else if b < a {
        assert(value_ge(pair_value(ws, b), pair_value(ws, a)));
    }
}

/// The leading number of a descriptor, in millionths.
pub fn descriptor_micros(tok: &Vec<char>) -> (r: Option<u64>)
    ensures
        match r {
            Some(x) => descriptor_value(tok@) == Some(x as int),
            None => descriptor_value(tok@) is None,
        },
{
    let n = tok.len();
    let mut l: usize = 0;
    while l < n && (('0' <= tok[l] && tok[l] <= '9') || tok[l] == '.')
        invariant
            l <= n,
            n == tok@.len(),
            lead_len(tok@, 0) == lead_len(tok@, l as int),
            forall|q: int| 0 <= q < l ==> is_num_char(#[trigger] tok@[q]),
        decreases n - l,
    {
        l = l + 1;
    }
    let ghost ld = tok@.subrange(0, l as int);
    assert(lead(tok@) == ld);
    let mut whole: u64 = 0;
    let mut frac: u64 = 0;
    let mut frac_digits: u64 = 0;
    let mut digits: u64 = 0;
    let mut dots: u64 = 0;
    let mut i: usize = 0;
    while i < l
        invariant
            i <= l <= n,
            n == tok@.len(),
            ld == tok@.subrange(0, l as int),
            forall|q: int| 0 <= q < l ==> is_num_char(#[trigger] tok@[q]),
            read(ld, i as int) == (Reading {
                whole: whole as int,
                frac: frac as int,
                frac_digits: frac_digits as int,
                digits: digits as int,
                dots: dots as int,
            }),
            whole <= WHOLE_CAP,
            frac_digits <= 6,
            frac < pow10(frac_digits as int),
            digits <= i,
            dots <= i,
        decreases l - i,
    {
        let c = tok[i];
        assert(ld[i as int] == c);
        if c == '.' {
            dots = dots + 1;
        } else {
            let dv = (c as u32 - '0' as u32) as u64;
            if dots == 0 {
                let w = whole * 10 + dv;
                whole = if w > WHOLE_CAP { WHOLE_CAP } else { w };
            } else if frac_digits < 6 {
                proof {
                    assert(pow10(frac_digits + 1) == 10 * pow10(frac_digits as int));
                    lemma_pow10_six();
                    lemma_pow10_mono(frac_digits as int, 5);
                }
                frac = frac * 10 + dv;
                frac_digits = frac_digits + 1;
            }
            digits = digits + 1;
        }
        i = i + 1;
    }
    if dots > 1 || digits == 0 {
        return None;
    }
    let mut scaled: u64 = frac;
    let mut e: u64 = frac_digits;
    assert(pow10(0) == 1);
    assert(frac * pow10(0) == frac);
    while e < 6
        invariant
            frac_digits <= e <= 6,
            scaled as int == frac * pow10(e - frac_digits),
            scaled < pow10(e as int),
        decreases 6 - e,
    {
        proof {
            assert(pow10(e + 1 - frac_digits) == 10 * pow10(e - frac_digits));
            assert(pow10(e + 1) == 10 * pow10(e as int));
            lemma_pow10_mono(e as int + 1, 6);
            lemma_pow10_six();
            assert(scaled * 10 == frac * pow10(e + 1 - frac_digits)) by (nonlinear_arith)
                requires
                    scaled as int == frac * pow10(e - frac_digits),
                    pow10(e + 1 - frac_digits) == 10 * pow10(e - frac_digits);
        }
        scaled = scaled * 10;
        e = e + 1;
    }
    proof {
        lemma_pow10_six();
    }
    Some(whole * 1_000_000 + scaled)
}

proof fn lemma_pow10_six()
    ensures
        pow10(6) == 1_000_000,
{
    reveal_with_fuel(pow10, 7);
}

proof fn lemma_pow10_mono(a: int, b: int)
    requires
        0 <= a <= b,
    ensures
        1 <= pow10(a) <= pow10(b),
    decreases b,
{
    if a < b {
        lemma_pow10_mono(a, b - 1);
    }
    if b > 0 {
        lemma_pow10_mono(0, b - 1);
    }
}

/// A machine value as a mathematical one.
pub open spec fn widen(o: Option<u64>) -> Option<int> {
    match o {
        Some(x) => Some(x as int),
        None => None,
    }
}

/// Whether `a` ranks at least as high as `b`.
fn ranks_ge(a: Option<u64>, b: Option<u64>) -> (r: bool)
    ensures
        r == value_ge(widen(a), widen(b)),
{
    match (a, b) {
        (_, None) => true,
        (None, Some(_)) => false,
        (Some(x), Some(y)) => x >= y,
    }
}

/// The image of a srcset list with the largest descriptor value; see `best_source`.
pub fn image_from_srcset(attr_val: &str) -> (r: Option<String>)
    ensures
        match r {
            Some(u) => best_source(attr_val@) == Some(u@),
            None => best_source(attr_val@) is None,
        },
{
    let parts = split_words(attr_val);
    let ghost ws = words(attr_val@);
    let count = parts.len() / 2 + parts.len() % 2;
    assert(count == pair_count(ws));
    if count == 0 {
        assert forall|k: int| !is_best_pair(ws, k) by {}
        return None;
    }
    let mut best: usize = 0;
    let mut best_v: Option<u64> = if 1 < parts.len() { descriptor_micros(&parts[1]) } else { None };
    let mut k: usize = 1;
    while k < count
        invariant
            count == pair_count(ws),
            views(parts@) == ws,
            parts@.len() == ws.len(),
            1 <= k <= count,
            best < k,
            widen(best_v) == pair_value(ws, best as int),
            forall|q: int| 0 <= q < k ==> value_ge(pair_value(ws, best as int), #[trigger] pair_value(ws, q)),
            forall|q: int| 0 <= q < best ==> !value_ge(#[trigger] pair_value(ws, q), pair_value(ws, best as int)),
        decreases count - k,
    {
        assert(2 * k < parts@.len());
        assert(parts@[2 * k as int]@ == ws[2 * k as int]);
        let v = if parts.len() - 2 * k > 1 {
            assert(parts@[2 * k + 1]@ == ws[2 * k + 1]);
            descriptor_micros(&parts[2 * k + 1])
        } else {
            None
        };
        if !ranks_ge(best_v, v) {
            best = k;
            best_v = v;
        }
        k = k + 1;
    }
    proof {
        assert(is_best_pair(ws, best as int));
        if exists|j: int| is_best_pair(ws, j) {
            lemma_best_unique(ws, best as int, choose|j: int| is_best_pair(ws, j));
        }
        assert(parts@[2 * best as int]@ == ws[2 * best as int]);
    }
    Some(crate::text::string_of(&parts[2 * best]))
}

} // verus!
