//! Decimal numbers for the NEON codec.
//!
//! NEON's number grammar is purely decimal — an optional sign, digits,
//! an optional fraction and an optional `K`/`M`/`B`/`T` magnitude
//! suffix — so the codec represents a number exactly as a signed
//! decimal: `(-1)^neg * mant / 10^scale`.  The representation is kept
//! normalized (no trailing zero in the fraction, a canonical zero), and
//! the mantissa is bounded so that all arithmetic stays inside `u128`.
//! Decimal literals whose digit value reaches [`MANT_LIMIT`] or whose
//! normalized fraction is longer than [`SCALE_LIMIT`] digits are out of
//! range and read as zero, the same fate as malformed literals.

use vstd::prelude::*;

verus! {

/// Mantissas are kept below `10^36`.
pub const MANT_LIMIT: u128 = 1_000_000_000_000_000_000_000_000_000_000_000_000;

/// Normalized fractions are at most 30 digits long.
pub const SCALE_LIMIT: u32 = 30;

/// A NEON number: `(-1)^neg * mant / 10^scale`.
#[derive(Debug, Clone, Copy, PartialEq, Eq, Structural)]
pub struct Number {
    pub neg: bool,
    pub mant: u128,
    pub scale: u32,
}

impl Number {
    /// Normal form: bounded, no trailing zero in the fraction, and a
    /// single representation of zero.
    pub open spec fn wf(self) -> bool {
        &&& self.mant < MANT_LIMIT
        &&& self.scale <= SCALE_LIMIT
        &&& (self.scale > 0 ==> self.mant % 10 != 0)
        &&& (self.mant == 0 ==> !self.neg && self.scale == 0)
    }

    /// Whether the value is an integer.
    pub open spec fn spec_is_int(self) -> bool {
        self.scale == 0
    }

    /// The canonical zero.
    pub open spec fn spec_zero() -> Number {
        Number { neg: false, mant: 0, scale: 0 }
    }

    /// The normal form of the integer `i`.
    pub open spec fn spec_from_int(i: int) -> Number {
        if i < 0 {
            Number { neg: true, mant: (-i) as u128, scale: 0 }
        } else {
            Number { neg: false, mant: i as u128, scale: 0 }
        }
    }

    /// The number zero.
    pub fn zero() -> (r: Number)
        ensures
            r == Number::spec_zero(),
            r.wf(),
    {
        Number { neg: false, mant: 0, scale: 0 }
    }

    /// The number with integer value `i`.
    pub fn from_i64(i: i64) -> (r: Number)
        ensures
            r == Number::spec_from_int(i as int),
            r.wf(),
    {
        if i < 0 {
            Number { neg: true, mant: (-(i as i128)) as u128, scale: 0 }
        } else {
            Number { neg: false, mant: i as u128, scale: 0 }
        }
    }

    /// Whether the value is an integer.
    pub fn is_int(&self) -> (r: bool)
        ensures
            r == self.spec_is_int(),
    {
        self.scale == 0
    }
}

/// `10^k`.
pub open spec fn spec_pow10(k: nat) -> nat
    decreases k,
{
    if k == 0 {
        1
    } else {
        10 * spec_pow10((k - 1) as nat)
    }
}

pub proof fn lemma_pow10_pos(a: nat)
    ensures
        spec_pow10(a) >= 1,
    decreases a,
{
    if a > 0 {
        lemma_pow10_pos((a - 1) as nat);
    }
}

pub proof fn lemma_pow10_mono(a: nat, b: nat)
    requires
        a <= b,
    ensures
        spec_pow10(a) <= spec_pow10(b),
        spec_pow10(a) >= 1,
    decreases b,
{
    lemma_pow10_pos(a);
    if a < b {
        lemma_pow10_mono(a, (b - 1) as nat);
    }
}

/// `10^36` is `MANT_LIMIT`, and `10^38` still fits in `u128`.
proof fn lemma_pow10_limits()
    ensures
        spec_pow10(36) == MANT_LIMIT,
        spec_pow10(38) < u128::MAX,
{
    reveal_with_fuel(spec_pow10, 40);
}

/// `10^k` computed in `u128`.
pub fn pow10_u128(k: u32) -> (r: u128)
    requires
        k <= 38,
    ensures
        r == spec_pow10(k as nat),
{
    proof {
        lemma_pow10_limits();
    }
    let mut r: u128 = 1;
    let mut i: u32 = 0;
    while i < k
        invariant
            i <= k <= 38,
            r == spec_pow10(i as nat),
            spec_pow10(38) < u128::MAX,
        decreases k - i,
    {
        proof {
            lemma_pow10_mono((i + 1) as nat, 38);
        }
        r = r * 10;
        i = i + 1;
    }
    r
}

/// The character for the decimal digit `d`.
pub open spec fn spec_digit_char(d: nat) -> char {
    if d == 0 { '0' }
    else if d == 1 { '1' }
    else if d == 2 { '2' }
    else if d == 3 { '3' }
    else if d == 4 { '4' }
    else if d == 5 { '5' }
    else if d == 6 { '6' }
    else if d == 7 { '7' }
    else if d == 8 { '8' }
    else { '9' }
}

/// Whether `c` is an ASCII decimal digit.
pub open spec fn spec_is_digit(c: char) -> bool {
    '0' <= c <= '9'
}

/// The value of the ASCII digit `c`.
pub open spec fn spec_digit_val(c: char) -> nat {
    (c as nat - '0' as nat) as nat
}

/// The decimal digit string of `n`, most significant digit first.
pub open spec fn spec_digits(n: nat) -> Seq<char>
    decreases n,
{
    if n < 10 {
        seq![spec_digit_char(n)]
    } else {
        spec_digits(n / 10).push(spec_digit_char(n % 10))
    }
}

/// The character for the decimal digit `d`.
pub fn digit_char(d: u128) -> (r: char)
    requires
        d < 10,
    ensures
        r == spec_digit_char(d as nat),
{
    match d {
        0 => '0',
        1 => '1',
        2 => '2',
        3 => '3',
        4 => '4',
        5 => '5',
        6 => '6',
        7 => '7',
        8 => '8',
        _ => '9',
    }
}

/// The value of a digit string, most significant digit first.
pub open spec fn spec_digits_val(s: Seq<char>) -> nat
    decreases s.len(),
{
    if s.len() == 0 {
        0
    } else {
        10 * spec_digits_val(s.drop_last()) + spec_digit_val(s.last())
    }
}

/// Splitting a digit string splits its value.
pub proof fn lemma_val_concat(a: Seq<char>, b: Seq<char>)
    ensures
        spec_digits_val(a + b) == spec_digits_val(a) * spec_pow10(b.len()) + spec_digits_val(b),
    decreases b.len(),
{
    if b.len() == 0 {
        assert(a + b =~= a);
        assert(spec_digits_val(b) == 0);
        assert(spec_pow10(0) == 1);
        assert(spec_digits_val(a) * 1 == spec_digits_val(a));
    } else {
        lemma_val_concat(a, b.drop_last());
        assert((a + b).drop_last() =~= a + b.drop_last());
        assert((a + b).last() == b.last());
        lemma_pow10_pos((b.len() - 1) as nat);
        let va = spec_digits_val(a);
        let p1 = spec_pow10((b.len() - 1) as nat);
        assert(spec_pow10(b.len()) == 10 * p1);
        assert(spec_digits_val(a + b) == 10 * (va * p1 + spec_digits_val(b.drop_last()))
            + spec_digit_val(b.last()));
        assert(10 * (va * p1) == va * (10 * p1)) by (nonlinear_arith);
        assert(spec_digits_val(b) == 10 * spec_digits_val(b.drop_last()) + spec_digit_val(b.last()));
        assert(spec_digits_val(a + b) == va * spec_pow10(b.len()) + spec_digits_val(b));
    }
}

/// A string of `k` digits has value below `10^k`.
pub proof fn lemma_val_upper(s: Seq<char>)
    requires
        forall|i: int| 0 <= i < s.len() ==> spec_is_digit(s[i]),
    ensures
        spec_digits_val(s) < spec_pow10(s.len()),
    decreases s.len(),
{
    if s.len() == 0 {
    } else {
        lemma_val_upper(s.drop_last());
        assert(spec_digit_val(s.last()) <= 9);
    }
}

/// Reading more digits multiplies the value read so far by a power of
/// ten, so a long-enough prefix forces the whole string out of range.
pub proof fn lemma_val_prefix(s: Seq<char>, i: int)
    requires
        0 <= i <= s.len(),
    ensures
        spec_digits_val(s) >= spec_digits_val(s.subrange(0, i)) * spec_pow10((s.len() - i) as nat),
{
    assert(s =~= s.subrange(0, i) + s.subrange(i, s.len() as int));
    lemma_val_concat(s.subrange(0, i), s.subrange(i, s.len() as int));
}

/// A digit string of `n` has at most `k` digits when `n < 10^k`.
pub proof fn lemma_digits_len(n: nat, k: nat)
    requires
        n < spec_pow10(k),
        k >= 1,
    ensures
        spec_digits(n).len() <= k,
    decreases k,
{
    if n < 10 {
    } else {
        if k == 1 {
            assert(spec_pow10(1) == 10) by {
                reveal_with_fuel(spec_pow10, 2);
            }
        } else {
            assert(spec_pow10(k) == 10 * spec_pow10((k - 1) as nat));
            lemma_digits_len(n / 10, (k - 1) as nat);
        }
    }
}

/// Every character of a digit string is a digit, and its value is the
/// number it was formatted from.
pub proof fn lemma_digits_chars(n: nat)
    ensures
        forall|i: int| 0 <= i < spec_digits(n).len() ==> spec_is_digit(#[trigger] spec_digits(n)[i]),
        spec_digits_val(spec_digits(n)) == n,
        spec_digits(n).len() >= 1,
    decreases n,
{
    if n < 10 {
        let s = spec_digits(n);
        assert(s.len() == 1);
        assert(s.drop_last() =~= Seq::<char>::empty());
        assert(s.last() == spec_digit_char(n));
        assert(spec_digit_val(spec_digit_char(n)) == n);
        assert(spec_digits_val(s) == 10 * spec_digits_val(s.drop_last()) + spec_digit_val(s.last()));
        assert(spec_digits_val(Seq::<char>::empty()) == 0);
    } else {
        lemma_digits_chars(n / 10);
        let s = spec_digits(n);
        assert(s.drop_last() =~= spec_digits(n / 10));
        assert(s.last() == spec_digit_char(n % 10));
        assert(spec_digit_val(spec_digit_char(n % 10)) == n % 10);
        assert(spec_digits_val(s) == 10 * spec_digits_val(s.drop_last()) + spec_digit_val(s.last()));
    }
}

/// ASCII horizontal or vertical whitespace.
pub open spec fn spec_is_ascii_ws(c: char) -> bool {
    c == ' ' || c == '\t' || c == '\n' || c == '\r'
}

/// `s` without its leading ASCII whitespace.
pub open spec fn spec_trim_start(s: Seq<char>) -> Seq<char>
    decreases s.len(),
{
    if s.len() > 0 && spec_is_ascii_ws(s[0]) {
        spec_trim_start(s.drop_first())
    } else {
        s
    }
}

/// `s` without its trailing ASCII whitespace.
pub open spec fn spec_trim_end(s: Seq<char>) -> Seq<char>
    decreases s.len(),
{
    if s.len() > 0 && spec_is_ascii_ws(s.last()) {
        spec_trim_end(s.drop_last())
    } else {
        s
    }
}

/// `s` without leading and trailing ASCII whitespace.
pub open spec fn spec_trim(s: Seq<char>) -> Seq<char> {
    spec_trim_end(spec_trim_start(s))
}

/// The first position at or after `i` that does not hold a digit.
pub open spec fn spec_digits_end(s: Seq<char>, i: nat) -> nat
    decreases s.len() - i,
{
    if i >= s.len() || !spec_is_digit(s[i as int]) {
        i
    } else {
        spec_digits_end(s, i + 1)
    }
}

pub proof fn lemma_digits_end(s: Seq<char>, i: nat)
    requires
        i <= s.len(),
    ensures
        i <= spec_digits_end(s, i) <= s.len(),
        forall|j: int| i <= j < spec_digits_end(s, i) ==> spec_is_digit(s[j]),
        spec_digits_end(s, i) < s.len() ==> !spec_is_digit(s[spec_digits_end(s, i) as int]),
    decreases s.len() - i,
{
    if i >= s.len() || !spec_is_digit(s[i as int]) {
    } else {
        lemma_digits_end(s, i + 1);
    }
}

/// The outcome of reading a signed decimal literal: sign, raw mantissa
/// and fraction length, or invalidity.
pub struct DecParse {
    pub valid: bool,
    pub neg: bool,
    pub mant: nat,
    pub scale: nat,
}

/// Reads `-? (digits | digits '.' digits* | '.' digits+)`; any other
/// shape is invalid.  `mant` is the value of all digits run together
/// and `scale` the number of fraction digits.
pub open spec fn spec_parse_dec(s: Seq<char>) -> DecParse {
    let neg = s.len() > 0 && s[0] == '-';
    let b = if neg {
        s.drop_first()
    } else {
        s
    };
    let ie = spec_digits_end(b, 0);
    if ie == b.len() {
        DecParse { valid: ie > 0, neg, mant: spec_digits_val(b), scale: 0 }
    } else if b[ie as int] == '.' {
        let fe = spec_digits_end(b, ie + 1);
        let ints = b.subrange(0, ie as int);
        let fracs = b.subrange(ie as int + 1, fe as int);
        DecParse {
            valid: fe == b.len() && (ie > 0 || fe > ie + 1),
            neg,
            mant: spec_digits_val(ints) * spec_pow10(fracs.len()) + spec_digits_val(fracs),
            scale: fracs.len(),
        }
    } else {
        DecParse { valid: false, neg, mant: 0, scale: 0 }
    }
}

/// Strips trailing zeros of the fraction.
pub open spec fn spec_norm(m: nat, sc: nat) -> (nat, nat)
    decreases sc,
{
    if sc > 0 && m % 10 == 0 {
        spec_norm(m / 10, (sc - 1) as nat)
    } else {
        (m, sc)
    }
}

pub proof fn lemma_norm(m: nat, sc: nat)
    ensures
        spec_norm(m, sc).0 <= m,
        spec_norm(m, sc).1 <= sc,
        spec_norm(m, sc).1 > 0 ==> spec_norm(m, sc).0 % 10 != 0,
        m > 0 ==> spec_norm(m, sc).0 > 0,
    decreases sc,
{
    if sc > 0 && m % 10 == 0 {
        lemma_norm(m / 10, (sc - 1) as nat);
    }
}

/// The normal-form number of sign `neg` and raw decimal `m / 10^sc`;
/// zero when the mantissa or the normalized fraction is out of range.
pub open spec fn spec_make_number(neg: bool, m: nat, sc: nat) -> Number {
    if m == 0 || m >= MANT_LIMIT {
        Number::spec_zero()
    } else {
        let n = spec_norm(m, sc);
        if n.1 > SCALE_LIMIT {
            Number::spec_zero()
        } else {
            Number { neg, mant: n.0 as u128, scale: n.1 as u32 }
        }
    }
}

pub proof fn lemma_make_number_wf(neg: bool, m: nat, sc: nat)
    ensures
        spec_make_number(neg, m, sc).wf(),
{
    lemma_norm(m, sc);
}

/// The power of ten that a magnitude suffix stands for.
pub open spec fn spec_suffix_exp(c: char) -> nat {
    if c == 'T' {
        12
    } else if c == 'B' {
        9
    } else if c == 'M' {
        6
    } else if c == 'K' {
        3
    } else {
        0
    }
}

/// Reads a decimal literal with an optional `K`/`M`/`B`/`T` suffix,
/// after trimming ASCII whitespace; anything unreadable is zero.
pub open spec fn spec_expand_number(s: Seq<char>) -> Number {
    let t = spec_trim(s);
    if t.len() == 0 {
        Number::spec_zero()
    } else if spec_suffix_exp(t.last()) > 0 {
        let p = spec_parse_dec(t.drop_last());
        if p.valid {
            spec_make_number(p.neg, p.mant * spec_pow10(spec_suffix_exp(t.last())), p.scale)
        } else {
            Number::spec_zero()
        }
    } else {
        let p = spec_parse_dec(t);
        if p.valid {
            spec_make_number(p.neg, p.mant, p.scale)
        } else {
            Number::spec_zero()
        }
    }
}

/// `10^a * 10^b == 10^(a+b)`.
pub proof fn lemma_pow10_add(a: nat, b: nat)
    ensures
        spec_pow10(a) * spec_pow10(b) == spec_pow10(a + b),
    decreases a,
{
    if a == 0 {
        assert(spec_pow10(0) == 1);
        assert(spec_pow10(a) * spec_pow10(b) == spec_pow10(b));
    } else {
        lemma_pow10_add((a - 1) as nat, b);
        let x = spec_pow10((a - 1) as nat);
        let y = spec_pow10(b);
        assert((10 * x) * y == 10 * (x * y)) by (nonlinear_arith);
        assert(spec_pow10(a) == 10 * x);
        assert(spec_pow10(a + b) == 10 * spec_pow10((a + b - 1) as nat));
        assert(spec_pow10((a + b - 1) as nat) == x * y);
    }
}

/// A minus sign, or nothing.
pub open spec fn spec_sign(neg: bool) -> Seq<char> {
    if neg {
        seq!['-']
    } else {
        Seq::empty()
    }
}

/// The fraction digits of `n`, padded with leading zeros to `scale`
/// characters.
pub open spec fn spec_frac_seq(n: Number) -> Seq<char> {
    let fp = (n.mant as nat) % spec_pow10(n.scale as nat);
    Seq::new((n.scale - spec_digits(fp).len()) as nat, |i: int| '0') + spec_digits(fp)
}

/// The uncompressed decimal rendering of `n` after the sign: integer
/// digits, and the fraction after a dot when there is one.
pub open spec fn spec_plain_body(n: Number) -> Seq<char> {
    if n.scale == 0 {
        spec_digits(n.mant as nat)
    } else {
        spec_digits((n.mant as nat) / spec_pow10(n.scale as nat)) + seq!['.'] + spec_frac_seq(n)
    }
}

/// The uncompressed decimal rendering of `n`.
pub open spec fn spec_plain_number(n: Number) -> Seq<char> {
    spec_sign(n.neg) + spec_plain_body(n)
}

/// `|n|` scaled down by `10^k` and tagged with a magnitude suffix: the
/// whole quotient when it is exact, else the quotient rounded half-up
/// to tenths.
pub open spec fn spec_suffixed_body(n: Number, k: nat, suffix: char) -> Seq<char> {
    let m = n.mant as nat;
    let p = spec_pow10(k + n.scale as nat);
    if m % p == 0 {
        spec_digits(m / p) + seq![suffix]
    } else {
        let r = (10 * m + p / 2) / p;
        spec_digits(r / 10) + seq!['.'] + seq![spec_digit_char(r % 10)] + seq![suffix]
    }
}

/// As [`spec_suffixed_body`], with the sign in front.
pub open spec fn spec_suffixed(n: Number, k: nat, suffix: char) -> Seq<char> {
    spec_sign(n.neg) + spec_suffixed_body(n, k, suffix)
}

/// The NEON text of the number `n`.  With compression on, magnitudes
/// from a thousand upward use `K`/`M`/`B`/`T`, and values below one
/// drop the leading zero; otherwise the plain decimal is used.
pub open spec fn spec_compress_number(n: Number, enabled: bool) -> Seq<char> {
    if !enabled {
        spec_plain_number(n)
    } else {
        let m = n.mant as nat;
        let sc = n.scale as nat;
        if m >= spec_pow10(12 + sc) {
            spec_suffixed(n, 12, 'T')
        } else if m >= spec_pow10(9 + sc) {
            spec_suffixed(n, 9, 'B')
        } else if m >= spec_pow10(6 + sc) {
            spec_suffixed(n, 6, 'M')
        } else if m >= spec_pow10(3 + sc) {
            spec_suffixed(n, 3, 'K')
        } else if sc > 0 && m < spec_pow10(sc) {
            spec_sign(n.neg) + seq!['.'] + spec_frac_seq(n)
        } else {
            spec_plain_number(n)
        }
    }
}

/// The decimal digit characters of `n`, most significant first.
pub fn format_u128(n: u128) -> (r: Vec<char>)
    ensures
        r@ == spec_digits(n as nat),
    decreases n,
{
    if n < 10 {
        let mut v: Vec<char> = Vec::new();
        v.push(digit_char(n));
        v
    } else {
        let mut v = format_u128(n / 10);
        v.push(digit_char(n % 10));
        v
    }
}

/// Whether `c` is ASCII whitespace.
pub fn is_ascii_ws(c: char) -> (r: bool)
    ensures
        r == spec_is_ascii_ws(c),
{
    c == ' ' || c == '\t' || c == '\n' || c == '\r'
}

/// Whether `c` is an ASCII decimal digit.
pub fn is_digit_char(c: char) -> (r: bool)
    ensures
        r == spec_is_digit(c),
{
    let u = c as u32;
    48 <= u && u <= 57
}

/// The value of the ASCII digit `c`.
fn digit_val(c: char) -> (r: u128)
    requires
        spec_is_digit(c),
    ensures
        r == spec_digit_val(c),
        r < 10,
{
    (c as u32 - 48) as u128
}

/// The power of ten that a magnitude suffix stands for.
pub fn suffix_exp(c: char) -> (r: u32)
    ensures
        r == spec_suffix_exp(c),
{
    if c == 'T' {
        12
    } else if c == 'B' {
        9
    } else if c == 'M' {
        6
    } else if c == 'K' {
        3
    } else {
        0
    }
}

/// The end of the digit run that starts at `start`, scanning no
/// further than `to`; positions are relative to `base`.
pub fn scan_digits(cs: &Vec<char>, base: usize, start: usize, to: usize) -> (r: usize)
    requires
        base <= start <= to <= cs@.len(),
    ensures
        start <= r <= to,
        r - base == spec_digits_end(cs@.subrange(base as int, to as int), (start - base) as nat),
{
    let ghost b = cs@.subrange(base as int, to as int);
    let mut i: usize = start;
    while i < to && is_digit_char(cs[i])
        invariant
            base <= start <= i <= to <= cs@.len(),
            b == cs@.subrange(base as int, to as int),
            spec_digits_end(b, (start - base) as nat) == spec_digits_end(b, (i - base) as nat),
        decreases to - i,
    {
        proof {
            assert(b[i - base] == cs@[i as int]);
        }
        i = i + 1;
    }
    proof {
        if i < to {
            assert(b[i - base] == cs@[i as int]);
        }
        assert(spec_digits_end(b, (i - base) as nat) == i - base);
    }
    i
}

/// The value of the digit span `[from, to)`, or `None` when it
/// reaches [`MANT_LIMIT`].
fn digits_span_val(cs: &Vec<char>, from: usize, to: usize) -> (r: Option<u128>)
    requires
        from <= to <= cs@.len(),
        forall|j: int| from <= j < to ==> spec_is_digit(cs@[j]),
    ensures
        ({
            let v = spec_digits_val(cs@.subrange(from as int, to as int));
            match r {
                Some(m) => m == v && m < MANT_LIMIT,
                None => v >= MANT_LIMIT,
            }
        }),
{
    let ghost s = cs@.subrange(from as int, to as int);
    proof {
        lemma_pow10_limits();
    }
    let p35 = pow10_u128(35);
    let mut m: u128 = 0;
    let mut i: usize = from;
    while i < to
        invariant
            from <= i <= to <= cs@.len(),
            forall|j: int| from <= j < to ==> spec_is_digit(cs@[j]),
            s == cs@.subrange(from as int, to as int),
            m == spec_digits_val(cs@.subrange(from as int, i as int)),
            m < MANT_LIMIT,
            p35 == spec_pow10(35),
            10 * spec_pow10(35) == MANT_LIMIT,
        decreases to - i,
    {
        let ghost pre = cs@.subrange(from as int, i as int);
        if m >= p35 {
            proof {
                lemma_val_prefix(s, i - from);
                assert(pre =~= s.subrange(0, i - from));
                let d = (s.len() - (i - from)) as nat;
                let vp = spec_digits_val(pre);
                lemma_pow10_mono(1, d);
                assert(spec_pow10(1) == 10) by {
                    reveal_with_fuel(spec_pow10, 2);
                }
                assert(vp * spec_pow10(d) >= vp * 10) by (nonlinear_arith)
                    requires
                        spec_pow10(d) >= 10,
                        vp >= 0,
                ;
                assert(vp * 10 >= spec_pow10(35) * 10) by (nonlinear_arith)
                    requires
                        vp >= spec_pow10(35),
                ;
                assert(spec_digits_val(s) >= vp * spec_pow10(d));
                assert(spec_pow10(35) * 10 == MANT_LIMIT);
                assert(spec_digits_val(s) >= MANT_LIMIT);
            }
            return None;
        }
        let d = digit_val(cs[i]);
        proof {
            let nxt = cs@.subrange(from as int, i as int + 1);
            assert(nxt.drop_last() =~= pre);
            assert(nxt.last() == cs@[i as int]);
        }
        m = m * 10 + d;
        i = i + 1;
    }
    proof {
        assert(cs@.subrange(from as int, to as int) =~= s);
    }
    Some(m)
}

/// The outcome of scanning a signed decimal literal.
pub struct DecScan {
    pub valid: bool,
    pub neg: bool,
    pub mant: Option<u128>,
    pub scale: usize,
}

/// Scans the span `[from, to)` as a signed decimal literal; the
/// mantissa is `None` when it reaches [`MANT_LIMIT`].
#[verifier::rlimit(80)]
fn parse_dec_span(cs: &Vec<char>, from: usize, to: usize) -> (r: DecScan)
    requires
        from <= to <= cs@.len(),
    ensures
        ({
            let p = spec_parse_dec(cs@.subrange(from as int, to as int));
            &&& r.valid == p.valid
            &&& r.neg == p.neg
            &&& r.scale == p.scale
            &&& match r.mant {
                Some(m) => m == p.mant && m < MANT_LIMIT,
                None => p.mant >= MANT_LIMIT,
            }
        }),
{
    let ghost sp = cs@.subrange(from as int, to as int);
    let neg = from < to && cs[from] == '-';
    proof {
        if from < to {
            assert(sp[0] == cs@[from as int]);
        }
    }
    let base = if neg {
        from + 1
    } else {
        from
    };
    let ghost b = cs@.subrange(base as int, to as int);
    proof {
        if neg {
            assert(b =~= sp.drop_first());
        } else {
            assert(b =~= sp);
        }
    }
    let ie = scan_digits(cs, base, base, to);
    proof {
        lemma_digits_end(b, 0);
    }
    if ie == to {
        proof {
            assert(cs@.subrange(base as int, to as int) =~= b);
            assert forall|j: int| base <= j < to implies spec_is_digit(cs@[j]) by {
                assert(cs@[j] == b[j - base]);
            }
        }
        let mant = digits_span_val(cs, base, to);
        DecScan { valid: ie > base, neg, mant, scale: 0 }
    } else if cs[ie] == '.' {
        proof {
            assert(b[ie - base] == cs@[ie as int]);
        }
        let fe = scan_digits(cs, base, ie + 1, to);
        proof {
            lemma_digits_end(b, (ie + 1 - base) as nat);
        }
        let valid = fe == to && (ie > base || fe > ie + 1);
        let ghost ints = b.subrange(0, (ie - base) as int);
        let ghost fracs = b.subrange((ie - base) as int + 1, (fe - base) as int);
        proof {
            assert(ints =~= cs@.subrange(base as int, ie as int));
            assert(fracs =~= cs@.subrange(ie as int + 1, fe as int));
            assert forall|j: int| base <= j < ie implies spec_is_digit(cs@[j]) by {
                assert(cs@[j] == b[j - base]);
            }
            assert forall|j: int| ie + 1 <= j < fe implies spec_is_digit(cs@[j]) by {
                assert(cs@[j] == b[j - base]);
            }
        }
        let mi = digits_span_val(cs, base, ie);
        let mf = digits_span_val(cs, ie + 1, fe);
        let flen = fe - ie - 1;
        let ghost vi = spec_digits_val(ints);
        let ghost vf = spec_digits_val(fracs);
        let ghost pm = vi * spec_pow10(fracs.len()) + vf;
        proof {
            lemma_pow10_pos(fracs.len());
            lemma_pow10_limits();
            assert(fracs.len() == flen);
            assert forall|j: int| 0 <= j < fracs.len() implies spec_is_digit(fracs[j]) by {
                assert(fracs[j] == b[(ie - base) as int + 1 + j]);
            }
        }
        let mant: Option<u128> = match (mi, mf) {
            (Some(a), Some(f)) => {
                if a == 0 {
                    proof {
                        assert(vi * spec_pow10(fracs.len()) == 0) by (nonlinear_arith)
                            requires
                                vi == 0,
                        ;
                    }
                    Some(f)
                } else if flen > 35 {
                    proof {
                        lemma_pow10_mono(36, flen as nat);
                        vstd::arithmetic::mul::lemma_mul_inequality(
                            1,
                            vi as int,
                            spec_pow10(flen as nat) as int,
                        );
                        assert(pm >= MANT_LIMIT);
                    }
                    None
                } else {
                    let t36 = pow10_u128(36 - flen as u32);
                    if a >= t36 {
                        proof {
                            lemma_pow10_add((36 - flen) as nat, flen as nat);
                            vstd::arithmetic::mul::lemma_mul_inequality(
                                spec_pow10((36 - flen) as nat) as int,
                                vi as int,
                                spec_pow10(flen as nat) as int,
                            );
                            assert(pm >= MANT_LIMIT);
                        }
                        None
                    } else {
                        proof {
                            lemma_pow10_add((36 - flen) as nat, flen as nat);
                            vstd::arithmetic::mul::lemma_mul_inequality(
                                vi as int + 1,
                                spec_pow10((36 - flen) as nat) as int,
                                spec_pow10(flen as nat) as int,
                            );
                            lemma_val_upper(fracs);
                            assert((vi + 1) * spec_pow10(flen as nat) == vi * spec_pow10(
                                flen as nat,
                            ) + spec_pow10(flen as nat)) by (nonlinear_arith);
                        }
                        Some(a * pow10_u128(flen as u32) + f)
                    }
                }
            },
            (None, _) => {
                proof {
                    assert(vi >= MANT_LIMIT);
                    assert(vi * spec_pow10(fracs.len()) >= vi) by (nonlinear_arith)
                        requires
                            spec_pow10(fracs.len()) >= 1,
                    ;
                    assert(pm >= MANT_LIMIT);
                }
                None
            },
            (_, None) => {
                proof {
                    assert(pm >= MANT_LIMIT);
                }
                None
            },
        };
        DecScan { valid, neg, mant, scale: flen }
    } else {
        proof {
            assert(b[ie - base] == cs@[ie as int]);
        }
        DecScan { valid: false, neg, mant: Some(0), scale: 0 }
    }
}

/// The normal-form number of sign `neg` and raw decimal `m / 10^sc`.
fn make_number(neg: bool, m: u128, sc: usize) -> (r: Number)
    requires
        m < MANT_LIMIT,
    ensures
        r == spec_make_number(neg, m as nat, sc as nat),
        r.wf(),
{
    proof {
        lemma_make_number_wf(neg, m as nat, sc as nat);
    }
    if m == 0 {
        Number::zero()
    } else {
        let mut mm = m;
        let mut ss = sc;
        while ss > 0 && mm % 10 == 0
            invariant
                mm <= m < MANT_LIMIT,
                mm > 0,
                spec_norm(m as nat, sc as nat) == spec_norm(mm as nat, ss as nat),
            decreases ss,
        {
            mm = mm / 10;
            ss = ss - 1;
        }
        if ss > SCALE_LIMIT as usize {
            Number::zero()
        } else {
            Number { neg, mant: mm, scale: ss as u32 }
        }
    }
}

/// Reads the characters of `cs` as a decimal literal with an optional
/// `K`/`M`/`B`/`T` suffix; anything unreadable or out of range is zero.
pub fn expand_chars(cs: &Vec<char>) -> (r: Number)
    ensures
        r == spec_expand_number(cs@),
        r.wf(),
{
    let len = cs.len();
    proof {
        assert(cs@.subrange(0, len as int) =~= cs@);
    }
    let mut lo: usize = 0;
    while lo < len && is_ascii_ws(cs[lo])
        invariant
            lo <= len == cs@.len(),
            spec_trim_start(cs@) == spec_trim_start(cs@.subrange(lo as int, len as int)),
        decreases len - lo,
    {
        proof {
            let s = cs@.subrange(lo as int, len as int);
            assert(s[0] == cs@[lo as int]);
            assert(s.drop_first() =~= cs@.subrange(lo as int + 1, len as int));
        }
        lo = lo + 1;
    }
    proof {
        let s = cs@.subrange(lo as int, len as int);
        if lo < len {
            assert(s[0] == cs@[lo as int]);
        }
        assert(spec_trim_start(s) == s);
    }
    let mut hi: usize = len;
    while hi > lo && is_ascii_ws(cs[hi - 1])
        invariant
            lo <= hi <= len == cs@.len(),
            spec_trim_start(cs@) == cs@.subrange(lo as int, len as int),
            spec_trim_end(cs@.subrange(lo as int, len as int)) == spec_trim_end(
                cs@.subrange(lo as int, hi as int),
            ),
        decreases hi,
    {
        proof {
            let s = cs@.subrange(lo as int, hi as int);
            assert(s.last() == cs@[hi - 1]);
            assert(s.drop_last() =~= cs@.subrange(lo as int, hi as int - 1));
        }
        hi = hi - 1;
    }
    let ghost t = cs@.subrange(lo as int, hi as int);
    proof {
        if hi > lo {
            assert(t.last() == cs@[hi - 1]);
        }
        assert(spec_trim_end(t) == t);
        assert(spec_trim(cs@) == t);
    }
    if lo == hi {
        return Number::zero();
    }
    let k = suffix_exp(cs[hi - 1]);
    proof {
        assert(t.last() == cs@[hi - 1]);
    }
    let body_end = if k > 0 {
        hi - 1
    } else {
        hi
    };
    proof {
        if k > 0 {
            assert(t.drop_last() =~= cs@.subrange(lo as int, hi as int - 1));
        }
    }
    let d = parse_dec_span(cs, lo, body_end);
    if !d.valid {
        return Number::zero();
    }
    proof {
        lemma_pow10_limits();
        lemma_pow10_pos(k as nat);
    }
    if k > 0 {
        match d.mant {
            None => {
                proof {
                    let p = spec_parse_dec(cs@.subrange(lo as int, body_end as int));
                    assert(p.mant * spec_pow10(k as nat) >= p.mant) by (nonlinear_arith)
                        requires
                            spec_pow10(k as nat) >= 1,
                    ;
                    assert(p.mant * spec_pow10(k as nat) >= MANT_LIMIT);
                }
                Number::zero()
            },
            Some(m) => {
                if m == 0 {
                    proof {
                        let p = spec_parse_dec(cs@.subrange(lo as int, body_end as int));
                        assert(p.mant * spec_pow10(k as nat) == 0) by (nonlinear_arith)
                            requires
                                p.mant == 0,
                        ;
                    }
                    Number::zero()
                } else {
                    let t36 = pow10_u128(36 - k);
                    if m >= t36 {
                        proof {
                            lemma_pow10_add((36 - k) as nat, k as nat);
                            vstd::arithmetic::mul::lemma_mul_inequality(
                                spec_pow10((36 - k) as nat) as int,
                                m as int,
                                spec_pow10(k as nat) as int,
                            );
                        }
                        Number::zero()
                    } else {
                        proof {
                            lemma_pow10_add((36 - k) as nat, k as nat);
                            vstd::arithmetic::mul::lemma_mul_inequality(
                                m as int + 1,
                                spec_pow10((36 - k) as nat) as int,
                                spec_pow10(k as nat) as int,
                            );
                            assert((m + 1) * spec_pow10(k as nat) == m * spec_pow10(k as nat)
                                + spec_pow10(k as nat)) by (nonlinear_arith);
                        }
                        let mm = m * pow10_u128(k);
                        make_number(d.neg, mm, d.scale)
                    }
                }
            },
        }
    } else {
        match d.mant {
            None => Number::zero(),
            Some(m) => make_number(d.neg, m, d.scale),
        }
    }
}

/// Reads `s` as a decimal literal with an optional `K`/`M`/`B`/`T`
/// suffix; anything unreadable or out of range is zero.
pub fn expand_number(s: &str) -> (r: Number)
    ensures
        r == spec_expand_number(s@),
        r.wf(),
{
    let cs = crate::text::str_chars(s);
    expand_chars(&cs)
}

/// Whether `m >= 10^e`, for mantissas in range.
fn ge_pow(m: u128, e: u32) -> (r: bool)
    requires
        m < MANT_LIMIT,
        e <= 42,
    ensures
        r == (m as nat >= spec_pow10(e as nat)),
{
    proof {
        lemma_pow10_limits();
    }
    if e > 36 {
        proof {
            lemma_pow10_mono(36, e as nat);
        }
        false
    } else {
        m >= pow10_u128(e)
    }
}

/// Appends the decimal digits of `v`.
fn push_digits(out: &mut Vec<char>, v: u128)
    ensures
        final(out)@ == old(out)@ + spec_digits(v as nat),
{
    let mut d = format_u128(v);
    out.append(&mut d);
}

/// Appends the fraction `fp`, padded with leading zeros to `scale`
/// digits.
fn push_frac(out: &mut Vec<char>, fp: u128, scale: u32)
    requires
        1 <= scale <= 38,
        fp < spec_pow10(scale as nat),
    ensures
        final(out)@ == old(out)@ + Seq::new(
            (scale - spec_digits(fp as nat).len()) as nat,
            |i: int| '0',
        ) + spec_digits(fp as nat),
{
    let d = format_u128(fp);
    proof {
        lemma_digits_len(fp as nat, scale as nat);
    }
    let z = scale as usize - d.len();
    let ghost mid = old(out)@;
    let mut j: usize = 0;
    while j < z
        invariant
            j <= z,
            out@ == mid + Seq::new(j as nat, |i: int| '0'),
        decreases z - j,
    {
        proof {
            assert(mid + Seq::new((j + 1) as nat, |i: int| '0') =~= (mid + Seq::new(
                j as nat,
                |i: int| '0',
            )).push('0'));
        }
        out.push('0');
        j = j + 1;
    }
    let mut dd = d;
    out.append(&mut dd);
    proof {
        assert(out@ =~= mid + Seq::new(z as nat, |i: int| '0') + spec_digits(fp as nat));
    }
}

/// Appends the uncompressed decimal rendering of `|n|`.
fn plain_body_into(out: &mut Vec<char>, n: &Number)
    requires
        n.wf(),
    ensures
        final(out)@ == old(out)@ + spec_plain_body(*n),
{
    let ghost mid = old(out)@;
    if n.scale == 0 {
        push_digits(out, n.mant);
    } else {
        let p = pow10_u128(n.scale);
        proof {
            lemma_pow10_pos(n.scale as nat);
        }
        push_digits(out, n.mant / p);
        out.push('.');
        push_frac(out, n.mant % p, n.scale);
        proof {
            assert(spec_frac_seq(*n) == Seq::new(
                (n.scale - spec_digits(((n.mant as nat) % spec_pow10(n.scale as nat))).len()) as nat,
                |i: int| '0',
            ) + spec_digits((n.mant as nat) % spec_pow10(n.scale as nat)));
            assert(out@ =~= mid + spec_plain_body(*n));
        }
    }
}

/// Appends `|n|` scaled down by `10^k` with its magnitude suffix.
fn suffixed_into(out: &mut Vec<char>, n: &Number, k: u32, suffix: char)
    requires
        n.wf(),
        k <= 12,
        (n.mant as nat) >= spec_pow10((k + n.scale) as nat),
    ensures
        final(out)@ == old(out)@ + spec_suffixed_body(*n, k as nat, suffix),
{
    let ghost mid = old(out)@;
    let e = k + n.scale;
    proof {
        lemma_pow10_limits();
        if e > 36 {
            lemma_pow10_mono(37, e as nat);
            assert(spec_pow10(36) == MANT_LIMIT);
            assert(false);
        }
    }
    let p = pow10_u128(e);
    proof {
        lemma_pow10_pos(e as nat);
    }
    if n.mant % p == 0 {
        push_digits(out, n.mant / p);
        out.push(suffix);
        proof {
            assert(out@ =~= mid + spec_suffixed_body(*n, k as nat, suffix));
        }
    } else {
        let r = (10 * n.mant + p / 2) / p;
        push_digits(out, r / 10);
        out.push('.');
        out.push(digit_char(r % 10));
        out.push(suffix);
        proof {
            assert(out@ =~= mid + spec_suffixed_body(*n, k as nat, suffix));
        }
    }
}

/// The NEON text of `n`.  With compression on, magnitudes from a
/// thousand upward use `K`/`M`/`B`/`T` (rounding half-up to tenths
/// when inexact, which loses precision), and values below one drop
/// the leading zero; otherwise the plain decimal is rendered.
pub fn compress_number(n: &Number, enabled: bool) -> (r: String)
    requires
        n.wf(),
    ensures
        r@ == spec_compress_number(*n, enabled),
{
    let mut out: Vec<char> = Vec::new();
    if n.neg {
        out.push('-');
    }
    proof {
        assert(out@ =~= spec_sign(n.neg));
    }
    if !enabled {
        plain_body_into(&mut out, n);
    } else {
        if ge_pow(n.mant, 12 + n.scale) {
            suffixed_into(&mut out, n, 12, 'T');
        } else if ge_pow(n.mant, 9 + n.scale) {
            suffixed_into(&mut out, n, 9, 'B');
        } else if ge_pow(n.mant, 6 + n.scale) {
            suffixed_into(&mut out, n, 6, 'M');
        } else if ge_pow(n.mant, 3 + n.scale) {
            suffixed_into(&mut out, n, 3, 'K');
        } else {
            let below_one = n.scale > 0 && n.mant < pow10_u128(n.scale);
            if below_one {
                let ghost mid = out@;
                out.push('.');
                let p = pow10_u128(n.scale);
                push_frac(&mut out, n.mant % p, n.scale);
                proof {
                    lemma_pow10_pos(n.scale as nat);
                    vstd::arithmetic::div_mod::lemma_small_mod(
                        n.mant as nat,
                        spec_pow10(n.scale as nat),
                    );
                    assert((n.mant as nat) % spec_pow10(n.scale as nat) == n.mant as nat);
                    assert(out@ =~= spec_sign(n.neg) + seq!['.'] + spec_frac_seq(*n));
                }
            } else {
                plain_body_into(&mut out, n);
            }
        }
    }
    proof {
        assert(out@ =~= spec_compress_number(*n, enabled));
    }
    crate::text::chars_string(&out)
}

} // verus!
