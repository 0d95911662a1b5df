//! Numbers of templates and data files.
//!
//! A number is held as an exact decimal: a sign, its significant digits and a
//! decimal exponent, so that `value = 0.d1 d2 ... dn * 10^exponent`. Literals are
//! read with the grammar of `f64::from_str` (`inf`, `infinity` and `nan` in any
//! case, or digits with an optional fraction and exponent), and rendered the way
//! the site generator prints numbers: integral values without a fraction, other
//! values in plain positional notation. Magnitudes beyond `10^309` read as
//! infinite, below `10^-323` as zero.
//!
//! Because the value is exact, it can differ from a binary `f64` reading of
//! the same literal: a literal that an `f64` cannot hold exactly (such as
//! `9007199254740993` or `0.30000000000000001`) prints as written rather than
//! rounded, and the bounds are decimal, so a
//! magnitude just above the largest `f64` stays finite and one just below the
//! smallest positive `f64` stays nonzero (and truthy).
use vstd::prelude::*;
use crate::text::is_digit;

verus! {

/// Saturation bound for exponents and digit counts.
pub const CAP: i64 = 1_000_000_000;

/// Largest decimal exponent of a finite number.
pub const MAX_EXP: i64 = 309;

/// Smallest decimal exponent of a nonzero number.
pub const MIN_EXP: i64 = -323;

#[derive(Debug)]
enum NumRepr {
    /// `0.digits * 10^exponent`; no leading or trailing zero digit; zero has no digits.
    Finite { negative: bool, digits: Vec<u8>, exponent: i64 },
    Infinite { negative: bool },
    NotANumber,
}

pub enum NumberM {
    Finite { negative: bool, digits: Seq<u8>, exponent: int },
    Infinite { negative: bool },
    NotANumber,
}

/// A number: an exact decimal, infinity, or not-a-number.
#[derive(Debug)]
pub struct Number {
    repr: NumRepr,
}

impl View for Number {
    type V = NumberM;

    closed spec fn view(&self) -> NumberM {
        self.repr@
    }
}

impl Number {
    #[verifier::type_invariant]
    spec fn inv(self) -> bool {
        number_wf(self@)
    }
}

impl Clone for Number {
    fn clone(&self) -> (r: Self)
        ensures
            r@ == self@,
    {
        proof {
            use_type_invariant(self);
        }
        Number { repr: self.repr.copy() }
    }
}

impl View for NumRepr {
    type V = NumberM;

    closed spec fn view(&self) -> NumberM {
        match self {
            NumRepr::Finite { negative, digits, exponent } => NumberM::Finite {
                negative: *negative,
                digits: digits@,
                exponent: *exponent as int,
            },
            NumRepr::Infinite { negative } => NumberM::Infinite { negative: *negative },
            NumRepr::NotANumber => NumberM::NotANumber,
        }
    }
}

impl NumRepr {
    fn copy(&self) -> (r: Self)
        ensures
            r@ == self@,
    {
        match self {
            NumRepr::Finite { negative, digits, exponent } => NumRepr::Finite {
                negative: *negative,
                digits: digits.clone(),
                exponent: *exponent,
            },
            NumRepr::Infinite { negative } => NumRepr::Infinite { negative: *negative },
            NumRepr::NotANumber => NumRepr::NotANumber,
        }
    }
}

pub open spec fn lower(c: char) -> char {
    if 'A' <= c <= 'Z' {
        ((c as u32) + 32) as char
    } else {
        c
    }
}

/// ASCII case-insensitive equality.
pub open spec fn same_ignoring_case(s: Seq<char>, t: Seq<char>) -> bool {
    s.len() == t.len() && forall|i: int| 0 <= i < s.len() ==> lower(#[trigger] s[i]) == lower(t[i])
}

/// Leading sign: whether it is `-`, and the rest.
pub open spec fn split_sign(s: Seq<char>) -> (bool, Seq<char>) {
    if s.len() > 0 && (s[0] == '+' || s[0] == '-') {
        (s[0] == '-', s.drop_first())
    } else {
        (false, s)
    }
}

/// Number of leading decimal digits.
pub open spec fn digit_run(s: Seq<char>) -> nat
    decreases s.len(),
{
    if s.len() > 0 && is_digit(s[0]) {
        1 + digit_run(s.drop_first())
    } else {
        0
    }
}

pub open spec fn digit_value(c: char) -> int {
    (c as u32) - ('0' as u32)
}

/// Decimal value of a digit string, saturated at `CAP`.
pub open spec fn sat_value(s: Seq<char>) -> int
    decreases s.len(),
{
    if s.len() == 0 {
        0
    } else {
        let v = sat_value(s.drop_last()) * 10 + digit_value(s.last());
        if v > CAP {
            CAP as int
        } else {
            v
        }
    }
}

pub open spec fn all_digits(s: Seq<char>) -> bool {
    forall|i: int| 0 <= i < s.len() ==> is_digit(#[trigger] s[i])
}

pub open spec fn digit_values(s: Seq<char>) -> Seq<u8> {
    s.map_values(|c: char| digit_value(c) as u8)
}

/// Number of leading zeros.
pub open spec fn leading_zeros(d: Seq<u8>) -> nat
    decreases d.len(),
{
    if d.len() > 0 && d[0] == 0 {
        1 + leading_zeros(d.drop_first())
    } else {
        0
    }
}

/// Number of trailing zeros.
pub open spec fn trailing_zeros(d: Seq<u8>) -> nat
    decreases d.len(),
{
    if d.len() > 0 && d.last() == 0 {
        1 + trailing_zeros(d.drop_last())
    } else {
        0
    }
}

pub open spec fn min_cap(n: int) -> int {
    if n > CAP {
        CAP as int
    } else {
        n
    }
}

/// The exponent part after the mantissa: `None` if it is malformed.
pub open spec fn exponent_part(r: Seq<char>) -> Option<int> {
    if r.len() == 0 {
        Some(0)
    } else if r[0] == 'e' || r[0] == 'E' {
        let (neg, ds) = split_sign(r.drop_first());
        if ds.len() > 0 && all_digits(ds) {
            Some(
                if neg {
                    -sat_value(ds)
                } else {
                    sat_value(ds)
                },
            )
        } else {
            None
        }
    } else {
        None
    }
}

/// Normal form of `0.all * 10^(point + exp)`, with range limits.
pub open spec fn normalize(negative: bool, all: Seq<u8>, point: nat, exp: int) -> NumberM {
    let lz = leading_zeros(all);
    if lz == all.len() {
        NumberM::Finite { negative, digits: Seq::empty(), exponent: 0 }
    } else {
        let e = min_cap(point as int) - min_cap(lz as int) + exp;
        let ds = all.subrange(lz as int, all.len() - trailing_zeros(all));
        if e > MAX_EXP {
            NumberM::Infinite { negative }
        } else if e < MIN_EXP {
            NumberM::Finite { negative, digits: Seq::empty(), exponent: 0 }
        } else {
            NumberM::Finite { negative, digits: ds, exponent: e }
        }
    }
}

pub open spec fn parse_decimal(negative: bool, r: Seq<char>) -> Option<NumberM> {
    let a = digit_run(r);
    let rest = r.skip(a as int);
    let has_point = rest.len() > 0 && rest[0] == '.';
    let b: nat = if has_point {
        digit_run(rest.drop_first())
    } else {
        0
    };
    let frac = if has_point {
        rest.subrange(1, 1 + b as int)
    } else {
        Seq::empty()
    };
    let rest2 = if has_point {
        rest.skip(1 + b as int)
    } else {
        rest
    };
    if a + b == 0 {
        None
    } else {
        match exponent_part(rest2) {
            None => None,
            Some(x) => Some(normalize(negative, digit_values(r.take(a as int) + frac), a, x)),
        }
    }
}

/// What `str::parse::<f64>` reads from `s`, as an exact decimal.
pub open spec fn parse_number(s: Seq<char>) -> Option<NumberM> {
    let (negative, r) = split_sign(s);
    if same_ignoring_case(r, seq!['i', 'n', 'f']) || same_ignoring_case(
        r,
        seq!['i', 'n', 'f', 'i', 'n', 'i', 't', 'y'],
    ) {
        Some(NumberM::Infinite { negative })
    } else if same_ignoring_case(r, seq!['n', 'a', 'n']) {
        Some(NumberM::NotANumber)
    } else {
        parse_decimal(negative, r)
    }
}

pub open spec fn digit_char(d: u8) -> char {
    ((d + 48) as u32) as char
}

pub open spec fn digit_chars(d: Seq<u8>) -> Seq<char> {
    d.map_values(|x: u8| digit_char(x))
}

pub open spec fn zeros(n: int) -> Seq<char> {
    Seq::new(n as nat, |i: int| '0')
}

/// How a number is printed.
pub open spec fn number_text(n: NumberM) -> Seq<char> {
    match n {
        NumberM::NotANumber => seq!['N', 'a', 'N'],
        NumberM::Infinite { negative } => if negative {
            seq!['-', 'i', 'n', 'f']
        } else {
            seq!['i', 'n', 'f']
        },
        NumberM::Finite { negative, digits, exponent } => {
            if digits.len() == 0 {
                seq!['0']
            } else if negative {
                seq!['-'] + body_text(digits, exponent)
            } else {
                body_text(digits, exponent)
            }
        },
    }
}

/// Positional text of `0.digits * 10^exponent`.
pub open spec fn body_text(digits: Seq<u8>, exponent: int) -> Seq<char> {
    if exponent >= digits.len() {
        digit_chars(digits) + zeros(exponent - digits.len())
    } else if exponent <= 0 {
        seq!['0', '.'] + zeros(-exponent) + digit_chars(digits)
    } else {
        digit_chars(digits.take(exponent)) + seq!['.'] + digit_chars(digits.skip(exponent))
    }
}

/// Whether a number counts as true: every number but zero.
pub open spec fn number_truthy(n: NumberM) -> bool {
    !(n matches NumberM::Finite { digits, .. } && digits.len() == 0)
}

fn lower_char(c: char) -> (r: char)
    ensures
        r == lower(c),
{
    if 'A' <= c && c <= 'Z' {
        let u = (c as u8) + 32;
        u as char
    } else {
        c
    }
}

fn same_ignoring_case_exec(s: &[char], t: &[char]) -> (b: bool)
    ensures
        b == same_ignoring_case(s@, t@),
{
    if s.len() != t.len() {
        return false;
    }
    let mut i: usize = 0;
    while i < s.len()
        invariant
            s@.len() == t@.len(),
            i <= s@.len(),
            forall|j: int| 0 <= j < i ==> lower(#[trigger] s@[j]) == lower(t@[j]),
        decreases s@.len() - i,
    {
        if lower_char(s[i]) != lower_char(t[i]) {
            return false;
        }
        i = i + 1;
    }
    true
}

proof fn lemma_digit_run_skip(s: Seq<char>, i: int)
    requires
        0 <= i <= s.len(),
        forall|j: int| 0 <= j < i ==> is_digit(#[trigger] s[j]),
    ensures
        digit_run(s) == i + digit_run(s.skip(i)),
    decreases i,
{
    if i > 0 {
        assert(s.drop_first().skip(i - 1) =~= s.skip(i));
        lemma_digit_run_skip(s.drop_first(), i - 1);
    } else {
        assert(s.skip(0) =~= s);
    }
}

/// `digit_run(s.skip(from))`, returned as the end index.
fn digit_run_from(s: &[char], from: usize) -> (end: usize)
    requires
        from <= s@.len(),
    ensures
        from <= end <= s@.len(),
        end - from == digit_run(s@.skip(from as int)),
        forall|j: int| from <= j < end ==> is_digit(#[trigger] s@[j]),
        end < s@.len() ==> !is_digit(s@[end as int]),
{
    let mut i = from;
    while i < s.len() && is_digit_char(s[i])
        invariant
            from <= i <= s@.len(),
            forall|j: int| from <= j < i ==> is_digit(#[trigger] s@[j]),
        decreases s@.len() - i,
    {
        i = i + 1;
    }
    proof {
        let t = s@.skip(from as int);
        assert forall|j: int| 0 <= j < i - from implies is_digit(#[trigger] t[j]) by {
            assert(t[j] == s@[from + j]);
        }
        lemma_digit_run_skip(t, i - from);
        assert(t.skip(i - from) =~= s@.skip(i as int));
        if i < s@.len() {
            assert(s@.skip(i as int)[0] == s@[i as int]);
        }
    }
    i
}

fn is_digit_char(c: char) -> (b: bool)
    ensures
        b == is_digit(c),
{
    '0' <= c && c <= '9'
}

proof fn lemma_sat_value_bounds(s: Seq<char>)
    requires
        all_digits(s),
    ensures
        0 <= sat_value(s) <= CAP,
    decreases s.len(),
{
    if s.len() > 0 {
        lemma_sat_value_bounds(s.drop_last());
        assert(is_digit(s[s.len() - 1]));
    }
}

fn sat_value_exec(s: &[char], lo: usize, hi: usize) -> (v: i64)
    requires
        lo <= hi <= s@.len(),
        all_digits(s@.subrange(lo as int, hi as int)),
    ensures
        v == sat_value(s@.subrange(lo as int, hi as int)),
        0 <= v <= CAP,
{
    let mut v: i64 = 0;
    let mut i = lo;
    while i < hi
        invariant
            lo <= i <= hi <= s@.len(),
            all_digits(s@.subrange(lo as int, hi as int)),
            v == sat_value(s@.subrange(lo as int, i as int)),
            0 <= v <= CAP,
        decreases hi - i,
    {
        let ghost t = s@.subrange(lo as int, (i + 1) as int);
        assert(t.drop_last() =~= s@.subrange(lo as int, i as int));
        assert(s@.subrange(lo as int, hi as int)[i - lo] == s@[i as int]);
        assert(is_digit(s@[i as int]));
        let d = (s[i] as u32 - '0' as u32) as i64;
        let w = v * 10 + d;
        v = if w > CAP {
            CAP
        } else {
            w
        };
        i = i + 1;
    }
    v
}

proof fn lemma_leading_zeros_skip(d: Seq<u8>, i: int)
    requires
        0 <= i <= d.len(),
        forall|j: int| 0 <= j < i ==> #[trigger] d[j] == 0,
    ensures
        leading_zeros(d) == i + leading_zeros(d.skip(i)),
    decreases i,
{
    if i > 0 {
        assert(d.drop_first().skip(i - 1) =~= d.skip(i));
        lemma_leading_zeros_skip(d.drop_first(), i - 1);
    } else {
        assert(d.skip(0) =~= d);
    }
}

proof fn lemma_trailing_zeros_take(d: Seq<u8>, k: int)
    requires
        0 <= k <= d.len(),
        forall|j: int| k <= j < d.len() ==> #[trigger] d[j] == 0,
    ensures
        trailing_zeros(d) == (d.len() - k) + trailing_zeros(d.take(k)),
    decreases d.len() - k,
{
    if k < d.len() {
        assert(d.drop_last().take(k) =~= d.take(k));
        lemma_trailing_zeros_take(d.drop_last(), k);
    } else {
        assert(d.take(k) =~= d);
    }
}

fn normalize_exec(negative: bool, all: &Vec<u8>, point: usize, exp: i64) -> (n: NumRepr)
    requires
        -CAP <= exp <= CAP,
        forall|q: int| 0 <= q < all@.len() ==> #[trigger] all@[q] < 10,
    ensures
        n@ == normalize(negative, all@, point as nat, exp as int),
        number_wf(n@),
{
    let mut lz: usize = 0;
    while lz < all.len() && all[lz] == 0
        invariant
            lz <= all@.len(),
            forall|j: int| 0 <= j < lz ==> #[trigger] all@[j] == 0,
        decreases all@.len() - lz,
    {
        lz = lz + 1;
    }
    proof {
        lemma_leading_zeros_skip(all@, lz as int);
        if lz < all@.len() {
            assert(all@.skip(lz as int)[0] == all@[lz as int]);
        }
    }
    if lz == all.len() {
        return NumRepr::Finite { negative, digits: Vec::new(), exponent: 0 };
    }
    let mut k: usize = all.len();
    while k > lz && all[k - 1] == 0
        invariant
            lz < all@.len(),
            lz <= k <= all@.len(),
            forall|j: int| k <= j < all@.len() ==> #[trigger] all@[j] == 0,
        decreases k,
    {
        k = k - 1;
    }
    proof {
        lemma_trailing_zeros_take(all@, k as int);
        assert(all@[lz as int] != 0);
        assert(k > lz);
        let t = all@.take(k as int);
        assert(t.last() == all@[k - 1]);
    }
    let p: i64 = if point > CAP as usize {
        CAP
    } else {
        point as i64
    };
    let z: i64 = if lz > CAP as usize {
        CAP
    } else {
        lz as i64
    };
    let e = p - z + exp;
    if e > MAX_EXP {
        NumRepr::Infinite { negative }
    } else if e < MIN_EXP {
        NumRepr::Finite { negative, digits: Vec::new(), exponent: 0 }
    } else {
        let mut ds: Vec<u8> = Vec::new();
        let mut i = lz;
        while i < k
            invariant
                lz <= i <= k <= all@.len(),
                ds@ == all@.subrange(lz as int, i as int),
            decreases k - i,
        {
            ds.push(all[i]);
            i = i + 1;
        }
        NumRepr::Finite { negative, digits: ds, exponent: e }
    }
}

/// The exponent part that starts at `after`.
fn exponent_part_exec(r: &[char], after: usize) -> (x: Option<i64>)
    requires
        after <= r@.len(),
    ensures
        match x {
            Some(v) => exponent_part(r@.skip(after as int)) == Some(v as int) && -CAP <= v <= CAP,
            None => exponent_part(r@.skip(after as int)) is None,
        },
{
    let ghost rest2 = r@.skip(after as int);
    if after >= r.len() {
        assert(rest2.len() == 0);
        return Some(0);
    }
    assert(rest2[0] == r@[after as int]);
    if r[after] != 'e' && r[after] != 'E' {
        return None;
    }
    let es = after + 1;
    let eneg = es < r.len() && r[es] == '-';
    let esign = es < r.len() && (r[es] == '+' || r[es] == '-');
    let ds: usize = if esign {
        es + 1
    } else {
        es
    };
    let ghost sp = split_sign(rest2.drop_first());
    proof {
        assert(rest2.drop_first() =~= r@.skip(es as int));
        if es < r@.len() {
            assert(r@.skip(es as int)[0] == r@[es as int]);
        }
        assert(sp.1 =~= r@.skip(ds as int));
        assert(sp.0 == eneg);
    }
    if ds >= r.len() {
        assert(sp.1.len() == 0);
        assert(rest2.len() > 0 && (rest2[0] == 'e' || rest2[0] == 'E'));
        assert(exponent_part(rest2) is None);
        return None;
    }
    let de = digit_run_from(r, ds);
    if de != r.len() {
        proof {
            assert(sp.1[de - ds] == r@[de as int]);
            assert(!all_digits(sp.1));
        }
        return None;
    }
    proof {
        assert forall|j: int| 0 <= j < sp.1.len() implies is_digit(#[trigger] sp.1[j]) by {
            assert(sp.1[j] == r@[ds + j]);
        }
        assert(sp.1 =~= r@.subrange(ds as int, r@.len() as int));
    }
    let v = sat_value_exec(r, ds, r.len());
    if eneg {
        Some(-v)
    } else {
        Some(v)
    }
}

/// Digit values of `r[lo..hi]`, appended to `all`.
fn push_digit_values(all: &mut Vec<u8>, r: &[char], lo: usize, hi: usize)
    requires
        lo <= hi <= r@.len(),
        forall|q: int| lo <= q < hi ==> is_digit(#[trigger] r@[q]),
        forall|q: int| 0 <= q < old(all)@.len() ==> #[trigger] old(all)@[q] < 10,
    ensures
        final(all)@ == old(all)@ + digit_values(r@.subrange(lo as int, hi as int)),
        forall|q: int| 0 <= q < final(all)@.len() ==> #[trigger] final(all)@[q] < 10,
{
    let mut j = lo;
    while j < hi
        invariant
            lo <= j <= hi <= r@.len(),
            forall|q: int| lo <= q < hi ==> is_digit(#[trigger] r@[q]),
            all@ == old(all)@ + digit_values(r@.subrange(lo as int, j as int)),
            forall|q: int| 0 <= q < all@.len() ==> #[trigger] all@[q] < 10,
        decreases hi - j,
    {
        assert(is_digit(r@[j as int]));
        let d = (r[j] as u32 - '0' as u32) as u8;
        all.push(d);
        j = j + 1;
        assert(all@ =~= old(all)@ + digit_values(r@.subrange(lo as int, j as int)));
    }
}

#[verifier::rlimit(50)]
fn parse_decimal_exec(negative: bool, r: &[char]) -> (n: Option<NumRepr>)
    ensures
        match n {
            Some(n) => parse_decimal(negative, r@) == Some(n@) && number_wf(n@),
            None => parse_decimal(negative, r@) is None,
        },
{
    let a_end = digit_run_from(r, 0);
    assert(r@.skip(0) =~= r@);
    let ghost rest = r@.skip(a_end as int);
    let has_point = a_end < r.len() && r[a_end] == '.';
    proof {
        if a_end < r@.len() {
            assert(rest[0] == r@[a_end as int]);
        }
    }
    let mut b_end = a_end;
    if has_point {
        b_end = digit_run_from(r, a_end + 1);
        assert(rest.drop_first() =~= r@.skip(a_end + 1));
    }
    let b: usize = if has_point {
        b_end - a_end - 1
    } else {
        0
    };
    if a_end + b == 0 {
        return None;
    }
    let after: usize = if has_point {
        b_end
    } else {
        a_end
    };
    proof {
        if has_point {
            assert(rest.skip(1 + b as int) =~= r@.skip(after as int));
            assert(rest.subrange(1, 1 + b as int) =~= r@.subrange(a_end + 1, b_end as int));
        }
    }
    let x = match exponent_part_exec(r, after) {
        Some(x) => x,
        None => return None,
    };
    let mut all: Vec<u8> = Vec::new();
    push_digit_values(&mut all, r, 0, a_end);
    assert(r@.subrange(0, a_end as int) =~= r@.take(a_end as int));
    if has_point {
        push_digit_values(&mut all, r, a_end + 1, b_end);
    }
    proof {
        let frac = if has_point {
            r@.subrange(a_end + 1, b_end as int)
        } else {
            Seq::<char>::empty()
        };
        assert(digit_values(r@.take(a_end as int) + frac) =~= digit_values(r@.take(a_end as int))
            + digit_values(frac));
        assert(all@ =~= digit_values(r@.take(a_end as int) + frac));
    }
    Some(normalize_exec(negative, &all, a_end, x))
}

/// Reads a number literal with the grammar of `f64::from_str`.
pub fn parse_number_exec(s: &[char]) -> (r: Option<Number>)
    ensures
        match r {
            Some(n) => parse_number(s@) == Some(n@),
            None => parse_number(s@) is None,
        },
{
    let has_sign = s.len() > 0 && (s[0] == '+' || s[0] == '-');
    let negative = has_sign && s[0] == '-';
    let start: usize = if has_sign {
        1
    } else {
        0
    };
    let r = crate::text::slice_of(s, start, s.len());
    proof {
        if has_sign {
            assert(r@ =~= s@.drop_first());
        } else {
            assert(r@ =~= s@);
        }
    }
    let inf: Vec<char> = vec!['i', 'n', 'f'];
    let infinity: Vec<char> = vec!['i', 'n', 'f', 'i', 'n', 'i', 't', 'y'];
    let nan: Vec<char> = vec!['n', 'a', 'n'];
    assert(inf@ =~= seq!['i', 'n', 'f']);
    assert(infinity@ =~= seq!['i', 'n', 'f', 'i', 'n', 'i', 't', 'y']);
    assert(nan@ =~= seq!['n', 'a', 'n']);
    if same_ignoring_case_exec(&r, &inf) || same_ignoring_case_exec(&r, &infinity) {
        return Some(Number { repr: NumRepr::Infinite { negative } });
    }
    if same_ignoring_case_exec(&r, &nan) {
        return Some(Number { repr: NumRepr::NotANumber });
    }
    match parse_decimal_exec(negative, &r) {
        Some(repr) => Some(Number { repr }),
        None => None,
    }
}

fn digit_to_char(d: u8) -> (c: char)
    requires
        d < 10,
    ensures
        c == digit_char(d),
{
    let u = d + 48;
    u as char
}

fn push_digit_chars(out: &mut Vec<char>, digits: &Vec<u8>, lo: usize, hi: usize)
    requires
        lo <= hi <= digits@.len(),
        forall|q: int| 0 <= q < digits@.len() ==> #[trigger] digits@[q] < 10,
    ensures
        final(out)@ == old(out)@ + digit_chars(digits@.subrange(lo as int, hi as int)),
{
    let mut i = lo;
    while i < hi
        invariant
            lo <= i <= hi <= digits@.len(),
            forall|q: int| 0 <= q < digits@.len() ==> #[trigger] digits@[q] < 10,
            out@ == old(out)@ + digit_chars(digits@.subrange(lo as int, i as int)),
        decreases hi - i,
    {
        out.push(digit_to_char(digits[i]));
        i = i + 1;
        assert(out@ =~= old(out)@ + digit_chars(digits@.subrange(lo as int, i as int)));
    }
}

fn push_zeros(out: &mut Vec<char>, n: usize)
    ensures
        final(out)@ == old(out)@ + zeros(n as int),
{
    let mut j: usize = 0;
    while j < n
        invariant
            j <= n,
            out@ == old(out)@ + zeros(j as int),
        decreases n - j,
    {
        out.push('0');
        j = j + 1;
        assert(out@ =~= old(out)@ + zeros(j as int));
    }
}

fn push_body_text(out: &mut Vec<char>, digits: &Vec<u8>, e: i64)
    requires
        forall|q: int| 0 <= q < digits@.len() ==> #[trigger] digits@[q] < 10,
        MIN_EXP <= e <= MAX_EXP,
    ensures
        final(out)@ == old(out)@ + body_text(digits@, e as int),
{
    let len = digits.len();
    assert(digits@.subrange(0, len as int) =~= digits@);
    if len <= 400 && e >= len as i64 {
        push_digit_chars(out, digits, 0, len);
        push_zeros(out, (e - len as i64) as usize);
        assert(out@ =~= old(out)@ + body_text(digits@, e as int));
    } else if e <= 0 {
        out.push('0');
        out.push('.');
        push_zeros(out, (0 - e) as usize);
        push_digit_chars(out, digits, 0, len);
        assert(out@ =~= old(out)@ + body_text(digits@, e as int));
    } else {
        let ep = e as usize;
        push_digit_chars(out, digits, 0, ep);
        out.push('.');
        push_digit_chars(out, digits, ep, len);
        assert(digits@.subrange(0, ep as int) =~= digits@.take(ep as int));
        assert(digits@.subrange(ep as int, len as int) =~= digits@.skip(ep as int));
        assert(out@ =~= old(out)@ + body_text(digits@, e as int));
    }
}

/// Whether the digits and exponent of a number are in normal range.
pub open spec fn number_wf(n: NumberM) -> bool {
    n matches NumberM::Finite { digits, exponent, .. } ==> {
        &&& forall|i: int| 0 <= i < digits.len() ==> #[trigger] digits[i] < 10
        &&& MIN_EXP <= exponent <= MAX_EXP
    }
}

/// Renders a number as text.
pub fn number_text_exec(num: &Number) -> (r: Vec<char>)
    ensures
        r@ == number_text(num@),
{
    proof {
        use_type_invariant(num);
    }
    let n = &num.repr;
    match n {
        NumRepr::NotANumber => {
            let r = vec!['N', 'a', 'N'];
            assert(r@ =~= number_text(n@));
            r
        },
        NumRepr::Infinite { negative } => {
            let r = if *negative {
                vec!['-', 'i', 'n', 'f']
            } else {
                vec!['i', 'n', 'f']
            };
            assert(r@ =~= number_text(n@));
            r
        },
        NumRepr::Finite { negative, digits, exponent } => {
            let mut out: Vec<char> = Vec::new();
            if digits.len() == 0 {
                out.push('0');
                assert(out@ =~= number_text(n@));
                return out;
            }
            if *negative {
                out.push('-');
            }
            assert(n@->digits == digits@);
            assert(forall|q: int| 0 <= q < digits@.len() ==> #[trigger] digits@[q] < 10) by {
                assert(forall|q: int| 0 <= q < n@->digits.len() ==> #[trigger] n@->digits[q] < 10);
            }
            push_body_text(&mut out, digits, *exponent);
            assert(out@ =~= number_text(n@));
            out
        },
    }
}

/// Whether a number counts as true.
pub fn number_truthy_exec(num: &Number) -> (b: bool)
    ensures
        b == number_truthy(num@),
{
    match &num.repr {
        NumRepr::Finite { digits, .. } => digits.len() != 0,
        _ => true,
    }
}

} // verus!
