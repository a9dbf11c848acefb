//! Focus costs: exact decimal numbers such as `5`, `3.7` or `0.25`.
//!
//! A cost is kept as a sign, a mantissa and a count of fractional digits, in
//! canonical form (no trailing fractional zero, no negative zero), so that two
//! costs are equal exactly when they denote the same number.
use vstd::prelude::*;
use crate::text::{
    all_digits, digits_value, find_char, find_char_in, int_text, is_digit, lemma_digits_value_prefix,
    lemma_find_char, nat_text, digit_value, push_all, push_int_text, push_nat_text, slice_chars, split_sign,
};

verus! {

/// A decimal number `(-1)^negative * mantissa / 10^scale`.
#[derive(Clone, Copy, Debug, PartialEq, Eq)]
pub struct Cost {
    negative: bool,
    mantissa: u64,
    scale: u32,
}

/// The abstract value of a cost: sign, mantissa and number of fractional digits.
pub type CostView = (bool, nat, nat);

pub open spec fn pow10(n: nat) -> nat
    decreases n,
{
    if n == 0 {
        1
    } else {
        10 * pow10((n - 1) as nat)
    }
}

/// The canonical form: at most 18 fractional digits, none of them a trailing
/// zero, and zero is never negative.
pub open spec fn canonical(v: CostView) -> bool {
    &&& v.2 <= 18
    &&& v.1 <= u64::MAX
    &&& (v.2 == 0 || v.1 % 10 != 0)
    &&& (v.1 == 0 ==> !v.0)
}

/// The mantissa with its sign.
pub open spec fn signed_mantissa(v: CostView) -> int {
    if v.0 {
        -(v.1 as int)
    } else {
        v.1 as int
    }
}

/// The cost is below `num / den` (for `den > 0`).
pub open spec fn below(v: CostView, num: int, den: int) -> bool {
    signed_mantissa(v) * den < num * pow10(v.2)
}

/// The cost is above `num / den` (for `den > 0`).
pub open spec fn above(v: CostView, num: int, den: int) -> bool {
    signed_mantissa(v) * den > num * pow10(v.2)
}

/// `(negative, mantissa, scale)` with trailing fractional zeros removed and the
/// sign of zero dropped.
pub open spec fn normalize(negative: bool, mantissa: nat, scale: nat) -> CostView
    decreases scale,
{
    if scale > 0 && mantissa % 10 == 0 {
        normalize(negative, mantissa / 10, (scale - 1) as nat)
    } else {
        (negative && mantissa != 0, mantissa, scale)
    }
}

/// `s` without trailing `0` characters.
pub open spec fn strip_zeros_end(s: Seq<char>) -> Seq<char>
    decreases s.len(),
{
    if s.len() > 0 && s.last() == '0' {
        strip_zeros_end(s.drop_last())
    } else {
        s
    }
}

/// The integer and fractional digit strings of an unsigned decimal literal.
pub open spec fn split_point(body: Seq<char>) -> (Seq<char>, Seq<char>) {
    match find_char(body, '.') {
        Some(d) => (body.take(d), body.skip(d + 1)),
        None => (body, Seq::empty()),
    }
}

/// Reading a cost: an optional sign, then digits with at most one `.`, and at
/// least one digit. A number with more than 18 fractional digits (trailing
/// zeros aside) is rounded to 18, half up; a number whose mantissa goes beyond
/// `u64` is not read.
pub open spec fn parse_cost(s: Seq<char>) -> Option<CostView> {
    let (neg, body) = split_sign(s);
    let (ip, fp) = split_point(body);
    let f = strip_zeros_end(fp);
    if ip.len() + fp.len() > 0 && all_digits(ip) && all_digits(fp) {
        if f.len() <= 18 {
            let m = digits_value(ip + f);
            if m <= u64::MAX {
                Some((neg && m != 0, m as nat, f.len()))
            } else {
                None
            }
        } else {
            let m = rounded_mantissa(ip, f);
            if m <= u64::MAX {
                Some(normalize(neg, m as nat, 18))
            } else {
                None
            }
        }
    } else {
        None
    }
}

/// The mantissa of `ip.f` rounded half up to 18 fractional digits (for `f`
/// longer than 18).
pub open spec fn rounded_mantissa(ip: Seq<char>, f: Seq<char>) -> int {
    digits_value(ip + f.take(18)) + if digit_value(f[18]) >= 5 {
        1int
    } else {
        0int
    }
}

/// Normalizing keeps at most the fractional digits it was given and does not
/// grow the mantissa.
pub proof fn lemma_normalize_bounds(negative: bool, mantissa: nat, scale: nat)
    ensures
        normalize(negative, mantissa, scale).2 <= scale,
        normalize(negative, mantissa, scale).1 <= mantissa,
    decreases scale,
{
    if scale > 0 && mantissa % 10 == 0 {
        lemma_normalize_bounds(negative, mantissa / 10, (scale - 1) as nat);
    }
}

/// `t` preceded by as many `0` as it takes to make it `w` characters long.
pub open spec fn pad_zeros(t: Seq<char>, w: nat) -> Seq<char> {
    if t.len() < w {
        Seq::new((w - t.len()) as nat, |i: int| '0') + t
    } else {
        t
    }
}

/// The sign prefix of a cost's text.
pub open spec fn sign_text(v: CostView) -> Seq<char> {
    if v.0 {
        seq!['-']
    } else {
        Seq::empty()
    }
}

/// The fractional notation `[-]int.frac` of a cost with `scale > 0`.
pub open spec fn fraction_text(v: CostView) -> Seq<char> {
    sign_text(v) + nat_text(v.1 / pow10(v.2)) + seq!['.'] + pad_zeros(
        nat_text(v.1 % pow10(v.2)),
        v.2,
    )
}

/// `v` clamped into the range of `i32`.
pub open spec fn clamp_i32(v: int) -> int {
    if v < i32::MIN {
        i32::MIN as int
    } else if v > i32::MAX {
        i32::MAX as int
    } else {
        v
    }
}

/// How a cost is written in a focus file: a whole cost as an `i32` (clamped
/// into its range), any other in decimal notation.
pub open spec fn cost_file_text(v: CostView) -> Seq<char> {
    if v.2 == 0 {
        int_text(clamp_i32(signed_mantissa(v)))
    } else {
        fraction_text(v)
    }
}

/// How a cost is shown in a message: its decimal notation.
pub open spec fn cost_display_text(v: CostView) -> Seq<char> {
    if v.2 == 0 {
        int_text(signed_mantissa(v))
    } else {
        fraction_text(v)
    }
}

impl View for Cost {
    type V = CostView;

    closed spec fn view(&self) -> CostView {
        (self.negative, self.mantissa as nat, self.scale as nat)
    }
}

pub fn pow10_u64(n: u32) -> (p: u64)
    requires
        n <= 19,
    ensures
        p == pow10(n as nat),
{
    let mut p: u64 = 1;
    let mut i: u32 = 0;
    while i < n
        invariant
            i <= n <= 19,
            p == pow10(i as nat),
            p <= 10000000000000000000u64,
        decreases n - i,
    {
        proof {
            lemma_pow10_bound(i as nat);
        }
        assert(pow10((i + 1) as nat) == 10 * pow10(i as nat));
        p = p * 10;
        i = i + 1;
        proof {
            lemma_pow10_bound(i as nat);
        }
    }
    p
}

pub proof fn lemma_pow10_mono(n: nat, k: nat)
    requires
        n <= k,
    ensures
        1 <= pow10(n) <= pow10(k),
    decreases k,
{
    if n < k {
        lemma_pow10_mono(n, (k - 1) as nat);
    } else if n > 0 {
        lemma_pow10_mono((n - 1) as nat, (n - 1) as nat);
    }
}

pub proof fn lemma_pow10_bound(n: nat)
    ensures
        pow10(n) >= 1,
        n <= 19 ==> pow10(n) <= 10000000000000000000,
        n <= 18 ==> pow10(n) <= 1000000000000000000,
{
    lemma_pow10_mono(n, n);
    reveal_with_fuel(pow10, 20);
    assert(pow10(18) == 1000000000000000000);
    assert(pow10(19) == 10000000000000000000);
    if n <= 18 {
        lemma_pow10_mono(n, 18);
    }
    if n <= 19 {
        lemma_pow10_mono(n, 19);
    }
}

impl Cost {
    #[verifier::type_invariant]
    closed spec fn is_canonical(self) -> bool {
        canonical(self@)
    }

    /// The cost `(-1)^negative * mantissa / 10^scale`, or `None` when its
    /// canonical form has more than 18 fractional digits.
    pub fn new(negative: bool, mantissa: u64, scale: u32) -> (r: Option<Cost>)
        ensures
            r matches Some(c) ==> c@ == normalize(negative, mantissa as nat, scale as nat),
            r is None <==> normalize(negative, mantissa as nat, scale as nat).2 > 18,
    {
        let mut m = mantissa;
        let mut s = scale;
        while s > 0 && m % 10 == 0
            invariant
                normalize(negative, m as nat, s as nat) == normalize(
                    negative,
                    mantissa as nat,
                    scale as nat,
                ),
            decreases s,
        {
            m = m / 10;
            s = s - 1;
        }
        if s > 18 {
            return None;
        }
        let c = Cost { negative: negative && m != 0, mantissa: m, scale: s };
        Some(c)
    }

    /// The whole number `v`.
    pub fn whole(v: i64) -> (c: Cost)
        ensures
            c@ == normalize(v < 0, if v < 0 { -(v as int) } else { v as int } as nat, 0),
            signed_mantissa(c@) == v,
    {
        let m: u64 = if v == i64::MIN {
            9223372036854775808u64
        } else if v < 0 {
            (-v) as u64
        } else {
            v as u64
        };
        Cost { negative: v < 0, mantissa: m, scale: 0 }
    }

    /// Whether the cost is below `num / den`.
    pub fn is_below(&self, num: i64, den: i64) -> (b: bool)
        requires
            0 < den <= 1000,
            -1000 <= num <= 1000,
        ensures
            b == below(self@, num as int, den as int),
    {
        proof {
            use_type_invariant(self);
            lemma_pow10_bound(self.scale as nat);
        }
        let p = pow10_u64(self.scale) as i128;
        let m = if self.negative {
            -(self.mantissa as i128)
        } else {
            self.mantissa as i128
        };
        assert(m * den as i128 == signed_mantissa(self@) * den) by (nonlinear_arith)
            requires
                m == signed_mantissa(self@),
        ;
        assert(-18446744073709551615 * 1000 <= m * den <= 18446744073709551615 * 1000) by (nonlinear_arith)
            requires
                -18446744073709551615 <= m <= 18446744073709551615,
                0 < den <= 1000,
        ;
        assert(-1000 * 1000000000000000000 <= num * p <= 1000 * 1000000000000000000) by (nonlinear_arith)
            requires
                1 <= p <= 1000000000000000000,
                -1000 <= num <= 1000,
        ;
        (m * den as i128) < (num as i128) * p
    }

    /// Whether the cost is above `num / den`.
    pub fn is_above(&self, num: i64, den: i64) -> (b: bool)
        requires
            0 < den <= 1000,
            -1000 <= num <= 1000,
        ensures
            b == above(self@, num as int, den as int),
    {
        proof {
            use_type_invariant(self);
            lemma_pow10_bound(self.scale as nat);
        }
        let p = pow10_u64(self.scale) as i128;
        let m = if self.negative {
            -(self.mantissa as i128)
        } else {
            self.mantissa as i128
        };
        assert(-18446744073709551615 * 1000 <= m * den <= 18446744073709551615 * 1000) by (nonlinear_arith)
            requires
                -18446744073709551615 <= m <= 18446744073709551615,
                0 < den <= 1000,
        ;
        assert(-1000 * 1000000000000000000 <= num * p <= 1000 * 1000000000000000000) by (nonlinear_arith)
            requires
                1 <= p <= 1000000000000000000,
                -1000 <= num <= 1000,
        ;
        (m * den as i128) > (num as i128) * p
    }

    /// Appends the decimal notation `[-]int.frac` of a cost with a fraction.
    fn push_fraction_text(&self, out: &mut Vec<char>)
        requires
            self@.2 > 0,
        ensures
            final(out)@ == old(out)@ + fraction_text(self@),
    {
        proof {
            use_type_invariant(self);
            lemma_pow10_bound(self.scale as nat);
        }
        let p = pow10_u64(self.scale);
        let ip = self.mantissa / p;
        let fp = self.mantissa % p;
        let ghost start = out@;
        if self.negative {
            out.push('-');
        }
        assert(out@ == start + sign_text(self@));
        push_nat_text(out, ip as u128);
        out.push('.');
        let mut digits: Vec<char> = Vec::new();
        push_nat_text(&mut digits, fp as u128);
        assert(digits@ == nat_text(fp as nat));
        let ghost before_pad = out@;
        let scale = self.scale as usize;
        if digits.len() < scale {
            let zeros = scale - digits.len();
            let mut k: usize = 0;
            while k < zeros
                invariant
                    k <= zeros,
                    out@ == before_pad + Seq::new(k as nat, |i: int| '0'),
                decreases zeros - k,
            {
                out.push('0');
                assert(Seq::new((k + 1) as nat, |i: int| '0') =~= Seq::new(k as nat, |i: int| '0').push('0'));
                k = k + 1;
            }
        }
        push_all(out, &digits);
        assert(out@ =~= start + fraction_text(self@));
    }

    /// Appends the cost as a focus file writes it.
    pub fn push_file_text(&self, out: &mut Vec<char>)
        ensures
            final(out)@ == old(out)@ + cost_file_text(self@),
    {
        proof {
            use_type_invariant(self);
        }
        if self.scale == 0 {
            let v: i64 = if self.mantissa > 2147483648 {
                if self.negative {
                    -2147483648
                } else {
                    2147483647
                }
            } else if self.negative {
                -(self.mantissa as i64)
            } else if self.mantissa > 2147483647 {
                2147483647
            } else {
                self.mantissa as i64
            };
            assert(v == clamp_i32(signed_mantissa(self@)));
            push_int_text(out, v);
        } else {
            self.push_fraction_text(out);
        }
    }

    /// Appends the cost in decimal notation.
    pub fn push_display_text(&self, out: &mut Vec<char>)
        ensures
            final(out)@ == old(out)@ + cost_display_text(self@),
    {
        proof {
            use_type_invariant(self);
        }
        if self.scale == 0 {
            let v: i128 = if self.negative {
                -(self.mantissa as i128)
            } else {
                self.mantissa as i128
            };
            if v < 0 {
                out.push('-');
                let ghost mid = out@;
                push_nat_text(out, self.mantissa as u128);
                assert(out@ =~= old(out)@ + cost_display_text(self@));
            } else {
                push_nat_text(out, self.mantissa as u128);
            }
        } else {
            self.push_fraction_text(out);
        }
    }

    /// Two costs denote the same number.
    pub fn same(&self, other: &Cost) -> (b: bool)
        ensures
            b == (self@ == other@),
    {
        self.negative == other.negative && self.mantissa == other.mantissa && self.scale
            == other.scale
    }
}

/// Whether every character of `s` is a decimal digit.
pub fn all_digits_in(s: &[char]) -> (b: bool)
    ensures
        b == all_digits(s@),
{
    let mut i: usize = 0;
    while i < s.len()
        invariant
            i <= s@.len(),
            forall|j: int| 0 <= j < i ==> is_digit(s@[j]),
        decreases s@.len() - i,
    {
        if !('0' <= s[i] && s[i] <= '9') {
            assert(!is_digit(s@[i as int]));
            return false;
        }
        i = i + 1;
    }
    true
}

/// The number that the digits `s` spell, when it fits in `u64`.
pub fn digits_to_u64(s: &[char]) -> (r: Option<u64>)
    requires
        all_digits(s@),
    ensures
        r matches Some(v) ==> v == digits_value(s@),
        r is None <==> digits_value(s@) > u64::MAX,
{
    let n = s.len();
    let mut v: u128 = 0;
    let mut i: usize = 0;
    while i < n
        invariant
            i <= n == s@.len(),
            all_digits(s@),
            v == digits_value(s@.take(i as int)),
            v <= u64::MAX,
        decreases n - i,
    {
        assert(is_digit(s@[i as int]));
        let dv: u128 = (s[i] as u32 - '0' as u32) as u128;
        assert(s@.take(i + 1).drop_last() == s@.take(i as int));
        let nv = v * 10 + dv;
        if nv > 18446744073709551615 {
            proof {
                lemma_digits_value_prefix(s@, i + 1);
            }
            return None;
        }
        v = nv;
        i = i + 1;
    }
    assert(s@.take(n as int) == s@);
    Some(v as u64)
}

pub proof fn lemma_strip_zeros_end(s: Seq<char>)
    ensures
        strip_zeros_end(s).len() <= s.len(),
        strip_zeros_end(s) == s.take(strip_zeros_end(s).len() as int),
        strip_zeros_end(s).len() == 0 || strip_zeros_end(s).last() != '0',
        forall|j: int| strip_zeros_end(s).len() <= j < s.len() ==> s[j] == '0',
    decreases s.len(),
{
    if s.len() > 0 && s.last() == '0' {
        lemma_strip_zeros_end(s.drop_last());
        assert(s.drop_last().take(strip_zeros_end(s).len() as int) == s.take(
            strip_zeros_end(s).len() as int,
        ));
        assert forall|j: int| strip_zeros_end(s).len() <= j < s.len() implies s[j] == '0' by {
            if j < s.len() - 1 {
                assert(s[j] == s.drop_last()[j]);
            }
        }
    } else {
        assert(s.take(s.len() as int) == s);
    }
}

pub proof fn lemma_digits_value_last(s: Seq<char>)
    requires
        all_digits(s),
        s.len() > 0,
    ensures
        digits_value(s) % 10 == digit_value(s.last()),
{
    let d = digit_value(s.last());
    assert(is_digit(s[s.len() - 1]));
    let p = digits_value(s.drop_last());
    assert((p * 10 + d) % 10 == d) by (nonlinear_arith)
        requires
            0 <= d < 10,
    ;
}

/// The integer and fractional digits of an unsigned decimal literal.
fn split_point_chars(body: Vec<char>) -> (r: (Vec<char>, Vec<char>))
    ensures
        split_point(body@) == (r.0@, r.1@),
{
    let dot = find_char_in(&body, '.');
    proof {
        lemma_find_char(body@, '.');
    }
    match dot {
        Some(d) => {
            assert(find_char(body@, '.') == Some(d as int));
            assert(d < body@.len());
            let ip = slice_chars(&body, 0, d);
            let fp = slice_chars(&body, d + 1, body.len());
            assert(body@.take(d as int) == body@.subrange(0, d as int));
            assert(body@.skip(d + 1) == body@.subrange(d + 1, body@.len() as int));
            (ip, fp)
        },
        None => {
            let fp: Vec<char> = Vec::new();
            assert(fp@ =~= Seq::<char>::empty());
            (body, fp)
        },
    }
}

/// The length of `fp` without its trailing zeros.
fn strip_zeros_len(fp: &[char]) -> (k: usize)
    ensures
        k <= fp@.len(),
        strip_zeros_end(fp@) == fp@.take(k as int),
{
    let mut k: usize = fp.len();
    assert(fp@.take(fp@.len() as int) == fp@);
    while k > 0 && fp[k - 1] == '0'
        invariant
            k <= fp@.len(),
            strip_zeros_end(fp@) == strip_zeros_end(fp@.take(k as int)),
        decreases k,
    {
        assert(fp@.take(k as int).drop_last() == fp@.take(k - 1));
        k = k - 1;
    }
    k
}

/// The cost `ip.fp` rounded to 18 fractional digits, where `fp` has `k > 18`
/// digits up to its trailing zeros.
fn parse_rounded(neg: bool, ip: Vec<char>, fp: &Vec<char>, k: usize) -> (r: Option<Cost>)
    requires
        all_digits(ip@),
        all_digits(fp@),
        18 < k <= fp@.len(),
        strip_zeros_end(fp@) == fp@.take(k as int),
    ensures
        r matches Some(c) ==> rounded_mantissa(ip@, strip_zeros_end(fp@)) <= u64::MAX && c@
            == normalize(neg, rounded_mantissa(ip@, strip_zeros_end(fp@)) as nat, 18),
        r is None ==> rounded_mantissa(ip@, strip_zeros_end(fp@)) > u64::MAX,
{
    let ghost f = strip_zeros_end(fp@);
    let mut digits = ip;
    let ghost ipv = digits@;
    let fpart = slice_chars(fp, 0, 18);
    assert(fpart@ == f.take(18));
    push_all(&mut digits, &fpart);
    assert(digits@ == ipv + f.take(18));
    assert(all_digits(digits@)) by {
        assert forall|j: int| 0 <= j < digits@.len() implies is_digit(digits@[j]) by {
            if j < ipv.len() {
                assert(is_digit(ipv[j]));
            } else {
                assert(digits@[j] == fp@[j - ipv.len()]);
                assert(is_digit(fp@[j - ipv.len()]));
            }
        }
    }
    assert(f[18] == fp@[18]);
    assert(is_digit(fp@[18]));
    let up = fp[18] >= '5';
    assert(up == (digit_value(f[18]) >= 5));
    match digits_to_u64(&digits) {
        None => None,
        Some(m0) => {
            let m = if up {
                if m0 == u64::MAX {
                    return None;
                }
                m0 + 1
            } else {
                m0
            };
            proof {
                lemma_normalize_bounds(neg, m as nat, 18);
            }
            Cost::new(neg, m, 18)
        },
    }
}

/// Reads a cost from its text.
pub fn parse_cost_chars(s: &[char]) -> (r: Option<Cost>)
    ensures
        r matches Some(c) ==> parse_cost(s@) == Some(c@),
        r is None ==> parse_cost(s@) is None,
{
    let n = s.len();
    let neg = n > 0 && s[0] == '-';
    let start: usize = if n > 0 && (s[0] == '-' || s[0] == '+') {
        1
    } else {
        0
    };
    let body = slice_chars(s, start, n);
    assert(split_sign(s@) == (neg, body@)) by {
        if start == 1 {
            assert(s@.drop_first() == body@);
        } else {
            assert(s@.subrange(0, n as int) == s@);
        }
    }
    let (ip, fp) = split_point_chars(body);
    if ip.len() == 0 && fp.len() == 0 {
        return None;
    }
    if !all_digits_in(&ip) || !all_digits_in(&fp) {
        return None;
    }
    let k = strip_zeros_len(&fp);
    if k > 18 {
        proof {
            lemma_strip_zeros_end(fp@);
        }
        return parse_rounded(neg, ip, &fp, k);
    }
    let mut digits = ip;
    let ghost ipv = digits@;
    let fpart = slice_chars(&fp, 0, k);
    push_all(&mut digits, &fpart);
    assert(fpart@ == strip_zeros_end(fp@));
    assert(digits@ == ipv + strip_zeros_end(fp@));
    assert(all_digits(digits@)) by {
        assert forall|j: int| 0 <= j < digits@.len() implies is_digit(digits@[j]) by {
            if j < ipv.len() {
                assert(is_digit(ipv[j]));
            } else {
                assert(digits@[j] == fp@[j - ipv.len()]);
                assert(is_digit(fp@[j - ipv.len()]));
            }
        }
    }
    match digits_to_u64(&digits) {
        None => None,
        Some(m) => {
            proof {
                lemma_strip_zeros_end(fp@);
                if k > 0 {
                    lemma_digits_value_last(digits@);
                    assert(digits@.last() == fpart@.last());
                    assert(is_digit(digits@.last()));
                }
            }
            let c = Cost { negative: neg && m != 0, mantissa: m, scale: k as u32 };
            Some(c)
        },
    }
}

} // verus!
