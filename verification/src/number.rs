//! Decimal literals: an optional sign, an integer part, an optional fraction
//! and an optional exponent, as in `-2.5e1`.
//!
//! A literal is read greedily from a position in a byte string and kept as an
//! exact decimal: its digits are stored, not a rounded value.

use vstd::prelude::*;
use vstd::slice::slice_subrange;
use vstd::slice::slice_to_vec;

verus! {

/// `+`
pub const PLUS: u8 = 43;

/// `-`
pub const MINUS: u8 = 45;

/// `.`
pub const DOT: u8 = 46;

/// `0`
pub const ZERO: u8 = 48;

/// `9`
pub const NINE: u8 = 57;

/// `E`
pub const UPPER_E: u8 = 69;

/// `e`
pub const LOWER_E: u8 = 101;

/// An ASCII decimal digit.
pub open spec fn is_digit(b: u8) -> bool {
    ZERO <= b <= NINE
}

/// `+` or `-`.
pub open spec fn is_sign(b: u8) -> bool {
    b == PLUS || b == MINUS
}

/// `e` or `E`, which opens an exponent.
pub open spec fn is_exponent_mark(b: u8) -> bool {
    b == LOWER_E || b == UPPER_E
}

/// Every byte of `d` is a digit.
pub open spec fn all_digits(d: Seq<u8>) -> bool {
    forall|k: int| 0 <= k < d.len() ==> is_digit(#[trigger] d[k])
}

/// Some byte of `d` is one of the digits `1` to `9`.
pub open spec fn has_nonzero_digit(d: Seq<u8>) -> bool {
    exists|k: int| 0 <= k < d.len() && ZERO < #[trigger] d[k] <= NINE
}

/// The integer that the digits `d` write in base ten; `0` for no digits.
pub open spec fn digits_value(d: Seq<u8>) -> nat
    decreases d.len(),
{
    if d.len() == 0 {
        0
    } else {
        (digits_value(d.drop_last()) * 10 + (d.last() - ZERO)) as nat
    }
}

/// The position just past the longest run of digits that starts at `i`.
pub open spec fn digits_end(s: Seq<u8>, i: int) -> int
    decreases s.len() - i,
{
    if 0 <= i < s.len() && is_digit(s[i]) {
        digits_end(s, i + 1)
    } else {
        i
    }
}

/// The position just past a sign at `i`, or `i` where there is none.
pub open spec fn sign_end(s: Seq<u8>, i: int) -> int {
    if 0 <= i < s.len() && is_sign(s[i]) {
        i + 1
    } else {
        i
    }
}

/// The position just past a fraction at `i`: a dot and at least one digit.
/// It is `i` where no fraction starts there.
pub open spec fn fraction_end(s: Seq<u8>, i: int) -> int {
    if 0 <= i < s.len() && s[i] == DOT && digits_end(s, i + 1) > i + 1 {
        digits_end(s, i + 1)
    } else {
        i
    }
}

/// The position just past an exponent at `i`: `e` or `E`, an optional sign
/// and at least one digit. It is `i` where no exponent starts there.
pub open spec fn exponent_end(s: Seq<u8>, i: int) -> int {
    if 0 <= i < s.len() && is_exponent_mark(s[i]) && digits_end(s, sign_end(s, i + 1)) > sign_end(
        s,
        i + 1,
    ) {
        digits_end(s, sign_end(s, i + 1))
    } else {
        i
    }
}

/// A minus sign for a negative number, nothing for another.
pub open spec fn sign_text(negative: bool) -> Seq<u8> {
    if negative {
        seq![MINUS]
    } else {
        Seq::empty()
    }
}

/// No sign, `+` or `-`: what may stand before a run of digits.
pub open spec fn is_sign_text(sign: Seq<u8>) -> bool {
    sign.len() == 0 || (sign.len() == 1 && is_sign(sign[0]))
}

/// A literal, put together from its parts: the sign, the integer part, a dot
/// and the fraction unless the fraction is empty, and the exponent mark, the
/// exponent's sign and the exponent unless the exponent is empty.
pub open spec fn literal_text(
    sign: Seq<u8>,
    integer: Seq<u8>,
    fraction: Seq<u8>,
    mark: u8,
    exponent_sign: Seq<u8>,
    exponent: Seq<u8>,
) -> Seq<u8> {
    sign + integer + (if fraction.len() == 0 {
        Seq::empty()
    } else {
        seq![DOT] + fraction
    }) + (if exponent.len() == 0 {
        Seq::empty()
    } else {
        seq![mark] + exponent_sign + exponent
    })
}

/// The mathematical content of a literal.
///
/// It stands for `(-1)^negative * integer.fraction * 10^(+-exponent)`, all
/// digits in base ten and stored as ASCII bytes.
pub ghost struct Decimal {
    pub negative: bool,
    pub integer: Seq<u8>,
    pub fraction: Seq<u8>,
    pub exponent_negative: bool,
    pub exponent: Seq<u8>,
}

impl Decimal {
    /// The parts hold digits only, and there is an integer part.
    pub open spec fn wf(self) -> bool {
        &&& self.integer.len() > 0
        &&& all_digits(self.integer)
        &&& all_digits(self.fraction)
        &&& all_digits(self.exponent)
    }

    /// The number is below zero: it has a minus sign and a digit that is not
    /// `0`. The exponent plays no part, since a power of ten is positive.
    pub open spec fn is_negative(self) -> bool {
        self.negative && (has_nonzero_digit(self.integer) || has_nonzero_digit(self.fraction))
    }

    /// The digits of the integer part and of the fraction, read as one
    /// integer, with the number's sign. The number is this integer times ten
    /// to the power `scale`.
    pub open spec fn significand(self) -> int {
        if self.negative {
            -(digits_value(self.integer + self.fraction) as int)
        } else {
            digits_value(self.integer + self.fraction) as int
        }
    }

    /// The power of ten by which `significand` is to be multiplied: the
    /// exponent, less one for each digit of the fraction.
    pub open spec fn scale(self) -> int {
        if self.exponent_negative {
            -(digits_value(self.exponent) as int) - self.fraction.len()
        } else {
            digits_value(self.exponent) as int - self.fraction.len()
        }
    }

    /// The shortest literal that writes the number with these digits.
    pub open spec fn text(self) -> Seq<u8> {
        literal_text(
            sign_text(self.negative),
            self.integer,
            self.fraction,
            LOWER_E,
            sign_text(self.exponent_negative),
            self.exponent,
        )
    }

    /// The number `0`, written with one digit.
    pub open spec fn zero() -> Decimal {
        Decimal {
            negative: false,
            integer: seq![ZERO],
            fraction: Seq::empty(),
            exponent_negative: false,
            exponent: Seq::empty(),
        }
    }
}

/// The literal that starts at `i`, with the position just past it, or `None`
/// where no literal starts there. The longest literal is taken: a dot or an
/// exponent mark that no digit follows is left unread.
pub open spec fn number_at(s: Seq<u8>, i: int) -> Option<(Decimal, int)> {
    let a = sign_end(s, i);
    let b = digits_end(s, a);
    let c = fraction_end(s, b);
    let d = exponent_end(s, c);
    if b == a {
        None
    } else {
        Some(
            (
                Decimal {
                    negative: a > i && s[i] == MINUS,
                    integer: s.subrange(a, b),
                    fraction: if c > b {
                        s.subrange(b + 1, c)
                    } else {
                        Seq::empty()
                    },
                    exponent_negative: d > c && sign_end(s, c + 1) > c + 1 && s[c + 1] == MINUS,
                    exponent: if d > c {
                        s.subrange(sign_end(s, c + 1), d)
                    } else {
                        Seq::empty()
                    },
                },
                d,
            ),
        )
    }
}

/// A run of digits lies inside the string and holds digits only.
pub proof fn lemma_digits_run(s: Seq<u8>, i: int)
    requires
        0 <= i <= s.len(),
    ensures
        i <= digits_end(s, i) <= s.len(),
        all_digits(s.subrange(i, digits_end(s, i))),
        digits_end(s, i) < s.len() ==> !is_digit(s[digits_end(s, i)]),
    decreases s.len() - i,
{
    if i < s.len() && is_digit(s[i]) {
        lemma_digits_run(s, i + 1);
        let e = digits_end(s, i);
        assert forall|k: int| 0 <= k < e - i implies is_digit(#[trigger] s.subrange(i, e)[k]) by {
            if k > 0 {
                assert(s.subrange(i, e)[k] == s.subrange(i + 1, e)[k - 1]);
            }
        }
    }
}

/// Whatever `number_at` reads is well formed and ends inside the string,
/// past where it began.
pub proof fn lemma_number_at_wf(s: Seq<u8>, i: int)
    requires
        0 <= i <= s.len(),
    ensures
        match number_at(s, i) {
            Some((n, j)) => n.wf() && i < j <= s.len(),
            None => true,
        },
{
    let a = sign_end(s, i);
    lemma_digits_run(s, a);
    let b = digits_end(s, a);
    if b < s.len() {
        lemma_digits_run(s, b + 1);
    }
    let c = fraction_end(s, b);
    if c < s.len() {
        let e = sign_end(s, c + 1);
        lemma_digits_run(s, e);
    }
}

/// Digits write a number above zero exactly when one of them is not `0`.
pub proof fn lemma_digits_value_positive(d: Seq<u8>)
    requires
        all_digits(d),
    ensures
        digits_value(d) > 0 <==> has_nonzero_digit(d),
    decreases d.len(),
{
    if d.len() > 0 {
        let p = d.drop_last();
        let last = d.len() - 1;
        assert forall|k: int| 0 <= k < p.len() implies is_digit(#[trigger] p[k]) by {
            assert(p[k] == d[k]);
        }
        lemma_digits_value_positive(p);
        assert(is_digit(d[last]));
        if has_nonzero_digit(d) {
            let k = choose|k: int| 0 <= k < d.len() && ZERO < #[trigger] d[k] <= NINE;
            if k < last {
                assert(p[k] == d[k]);
            }
        }
        if has_nonzero_digit(p) {
            let k = choose|k: int| 0 <= k < p.len() && ZERO < #[trigger] p[k] <= NINE;
            assert(d[k] == p[k]);
        }
        if d[last] > ZERO {
            assert(ZERO < d[last] <= NINE);
        }
    }
}

/// A digit that is not `0` stands in `a + b` exactly when one stands in `a`
/// or in `b`.
pub proof fn lemma_nonzero_digit_split(a: Seq<u8>, b: Seq<u8>)
    ensures
        has_nonzero_digit(a + b) <==> has_nonzero_digit(a) || has_nonzero_digit(b),
{
    let s = a + b;
    if has_nonzero_digit(s) {
        let k = choose|k: int| 0 <= k < s.len() && ZERO < #[trigger] s[k] <= NINE;
        if k < a.len() {
            assert(a[k] == s[k]);
        } else {
            assert(b[k - a.len()] == s[k]);
        }
    }
    if has_nonzero_digit(a) {
        let k = choose|k: int| 0 <= k < a.len() && ZERO < #[trigger] a[k] <= NINE;
        assert(s[k] == a[k]);
    }
    if has_nonzero_digit(b) {
        let k = choose|k: int| 0 <= k < b.len() && ZERO < #[trigger] b[k] <= NINE;
        assert(s[a.len() + k] == b[k]);
    }
}

/// A well-formed number is negative exactly when its significand is below
/// zero, and so, a power of ten being positive, when its value is.
pub proof fn lemma_negative_is_below_zero(d: Decimal)
    requires
        d.wf(),
    ensures
        d.is_negative() <==> d.significand() < 0,
{
    let m = d.integer + d.fraction;
    assert forall|k: int| 0 <= k < m.len() implies is_digit(#[trigger] m[k]) by {
        if k < d.integer.len() {
            assert(m[k] == d.integer[k]);
        } else {
            assert(m[k] == d.fraction[k - d.integer.len()]);
        }
    }
    lemma_digits_value_positive(m);
    lemma_nonzero_digit_split(d.integer, d.fraction);
}

/// Digits from `i` up to `j`, and no digit at `j`: the run from `i` ends at
/// `j`.
pub proof fn lemma_digits_up_to(s: Seq<u8>, i: int, j: int)
    requires
        0 <= i <= j <= s.len(),
        forall|k: int| i <= k < j ==> is_digit(#[trigger] s[k]),
        j == s.len() || !is_digit(s[j]),
    ensures
        digits_end(s, i) == j,
    decreases j - i,
{
    if i < j {
        lemma_digits_up_to(s, i + 1, j);
    }
}

/// Every string put together as a literal is read as one, whole, and the
/// number read from it has the parts of which the string was made; it is
/// negative where the sign is `-`.
pub proof fn lemma_literal_is_read(
    sign: Seq<u8>,
    integer: Seq<u8>,
    fraction: Seq<u8>,
    mark: u8,
    exponent_sign: Seq<u8>,
    exponent: Seq<u8>,
)
    requires
        is_sign_text(sign),
        integer.len() > 0,
        all_digits(integer),
        all_digits(fraction),
        is_exponent_mark(mark),
        is_sign_text(exponent_sign),
        all_digits(exponent),
    ensures
        number_at(literal_text(sign, integer, fraction, mark, exponent_sign, exponent), 0) == Some(
            (
                Decimal {
                    negative: sign =~= seq![MINUS],
                    integer,
                    fraction,
                    exponent_negative: exponent.len() > 0 && exponent_sign =~= seq![MINUS],
                    exponent,
                },
                literal_text(sign, integer, fraction, mark, exponent_sign, exponent).len() as int,
            ),
        ),
{
    let t = literal_text(sign, integer, fraction, mark, exponent_sign, exponent);
    let fraction_part = if fraction.len() == 0 {
        Seq::<u8>::empty()
    } else {
        seq![DOT] + fraction
    };
    let exponent_part = if exponent.len() == 0 {
        Seq::<u8>::empty()
    } else {
        seq![mark] + exponent_sign + exponent
    };
    let p0 = sign.len() as int;
    let p1 = p0 + integer.len();
    let p2 = p1 + fraction_part.len();
    let p3 = p2 + exponent_part.len();
    assert(t.len() == p3);
    assert forall|k: int| p0 <= k < p1 implies t[k] == integer[k - p0] by {}
    assert(is_digit(integer[0]));
    assert(t[p0] == integer[0]);
    if p0 > 0 {
        assert(t[0] == sign[0]);
    }
    assert(sign_end(t, 0) == p0);
    if fraction.len() > 0 {
        assert(t[p1] == DOT);
        assert forall|k: int| p1 + 1 <= k < p2 implies t[k] == fraction[k - p1 - 1] by {}
    }
    if exponent.len() > 0 {
        let q = p2 + 1 + exponent_sign.len();
        assert(t[p2] == mark);
        assert forall|k: int| q <= k < p3 implies t[k] == exponent[k - q] by {}
        if exponent_sign.len() > 0 {
            assert(t[p2 + 1] == exponent_sign[0]);
        } else {
            assert(is_digit(exponent[0]));
            assert(t[p2 + 1] == exponent[0]);
        }
        assert(sign_end(t, p2 + 1) == q);
        assert forall|k: int| q <= k < p3 implies is_digit(#[trigger] t[k]) by {
            assert(is_digit(exponent[k - q]));
        }
        lemma_digits_up_to(t, q, p3);
    }
    assert forall|k: int| p0 <= k < p1 implies is_digit(#[trigger] t[k]) by {
        assert(is_digit(integer[k - p0]));
    }
    lemma_digits_up_to(t, p0, p1);
    if fraction.len() > 0 {
        assert forall|k: int| p1 + 1 <= k < p2 implies is_digit(#[trigger] t[k]) by {
            assert(is_digit(fraction[k - p1 - 1]));
        }
        lemma_digits_up_to(t, p1 + 1, p2);
    }
    assert(fraction_end(t, p1) == p2);
    assert(exponent_end(t, p2) == p3);
    let r = number_at(t, 0).unwrap().0;
    assert(r.integer =~= integer);
    assert(r.fraction =~= fraction);
    assert(r.exponent =~= exponent);
    if p0 > 0 {
        assert(sign =~= seq![sign[0]]);
    }
    if exponent.len() > 0 && exponent_sign.len() > 0 {
        assert(exponent_sign =~= seq![exponent_sign[0]]);
    }
}

/// A number's text is one literal, and reading it gives the number back.
pub proof fn lemma_text_is_read_back(d: Decimal)
    requires
        d.wf(),
        d.exponent.len() == 0 ==> !d.exponent_negative,
    ensures
        number_at(d.text(), 0) == Some((d, d.text().len() as int)),
{
    lemma_literal_is_read(
        sign_text(d.negative),
        d.integer,
        d.fraction,
        LOWER_E,
        sign_text(d.exponent_negative),
        d.exponent,
    );
    assert(sign_text(true)[0] == MINUS);
}

/// `t` writes the number `d` with the sign `sign`, the exponent mark `mark`
/// and the exponent's sign `exponent_sign`.
pub open spec fn writes(
    t: Seq<u8>,
    d: Decimal,
    sign: Seq<u8>,
    mark: u8,
    exponent_sign: Seq<u8>,
) -> bool {
    &&& d.wf()
    &&& is_sign_text(sign)
    &&& is_exponent_mark(mark)
    &&& is_sign_text(exponent_sign)
    &&& d.negative == (sign =~= seq![MINUS])
    &&& d.exponent_negative == (d.exponent.len() > 0 && exponent_sign =~= seq![MINUS])
    &&& t == literal_text(sign, d.integer, d.fraction, mark, exponent_sign, d.exponent)
}

/// `t` is a literal that writes the number `d`: an optional sign, the digits
/// of the integer part, a dot and the digits of the fraction if there is one,
/// and `e` or `E`, an optional sign and the digits of the exponent if there
/// is one.
pub open spec fn is_literal_of(t: Seq<u8>, d: Decimal) -> bool {
    exists|sign: Seq<u8>, mark: u8, exponent_sign: Seq<u8>|
        writes(t, d, sign, mark, exponent_sign)
}

/// A literal is read whole, and as the number that it writes.
pub proof fn lemma_literal_of_is_read(t: Seq<u8>, d: Decimal)
    requires
        is_literal_of(t, d),
    ensures
        number_at(t, 0) == Some((d, t.len() as int)),
{
    let (sign, mark, exponent_sign) = choose|sign: Seq<u8>, mark: u8, exponent_sign: Seq<u8>|
        writes(t, d, sign, mark, exponent_sign);
    lemma_literal_is_read(sign, d.integer, d.fraction, mark, exponent_sign, d.exponent);
}

/// What is read is a literal that writes the number read.
pub proof fn lemma_read_is_literal_of(s: Seq<u8>, i: int)
    requires
        0 <= i <= s.len(),
        number_at(s, i) is Some,
    ensures
        is_literal_of(
            s.subrange(i, number_at(s, i).unwrap().1),
            number_at(s, i).unwrap().0,
        ),
{
    lemma_number_at_wf(s, i);
    let d = number_at(s, i).unwrap().0;
    let j = number_at(s, i).unwrap().1;
    let a = sign_end(s, i);
    lemma_digits_run(s, a);
    let b = digits_end(s, a);
    if b < s.len() {
        lemma_digits_run(s, b + 1);
    }
    let c = fraction_end(s, b);
    if c < s.len() {
        lemma_digits_run(s, sign_end(s, c + 1));
    }
    let sign = s.subrange(i, a);
    let mark = if j > c {
        s[c]
    } else {
        LOWER_E
    };
    let exponent_sign = if j > c {
        s.subrange(c + 1, sign_end(s, c + 1))
    } else {
        Seq::<u8>::empty()
    };
    let t = s.subrange(i, j);
    let u = literal_text(sign, d.integer, d.fraction, mark, exponent_sign, d.exponent);
    assert(t.len() == u.len());
    assert forall|k: int| 0 <= k < t.len() implies t[k] == u[k] by {
        if i + k < a {
            assert(u[k] == sign[k]);
        } else if i + k < b {
            assert(u[k] == d.integer[k - (a - i)]);
        } else if i + k < c {
            if i + k > b {
                assert(u[k] == d.fraction[k - (b - i) - 1]);
            }
        } else if i + k > c {
            let e = sign_end(s, c + 1);
            if i + k < e {
                assert(u[k] == exponent_sign[k - (c - i) - 1]);
            } else {
                assert(u[k] == d.exponent[k - (e - i)]);
            }
        }
    }
    assert(t =~= u);
    if a > i {
        assert(sign[0] == s[i]);
    }
    if j > c && sign_end(s, c + 1) > c + 1 {
        assert(exponent_sign[0] == s[c + 1]);
    }
    assert(writes(t, d, sign, mark, exponent_sign));
}

/// A byte that cannot continue a literal: no digit, dot, exponent mark or
/// sign. Whitespace and the comma are such bytes.
pub open spec fn ends_literal(b: u8) -> bool {
    !is_digit(b) && b != DOT && !is_exponent_mark(b) && !is_sign(b)
}

/// What `r` is after `n` bytes were put before the string.
pub open spec fn shifted(r: Option<(Decimal, int)>, n: int) -> Option<(Decimal, int)> {
    match r {
        Some((d, j)) => Some((d, j + n)),
        None => None,
    }
}

/// A run of digits in `u` is the same run in `u + v`, unless it reaches the
/// end of `u` and `v` goes on with a digit.
pub proof fn lemma_digits_end_prefix(u: Seq<u8>, v: Seq<u8>, i: int)
    requires
        0 <= i <= u.len(),
        digits_end(u, i) < u.len() || v.len() == 0 || !is_digit(v[0]),
    ensures
        digits_end(u + v, i) == digits_end(u, i),
    decreases u.len() - i,
{
    if i < u.len() {
        assert((u + v)[i] == u[i]);
        if is_digit(u[i]) {
            lemma_digits_end_prefix(u, v, i + 1);
        }
    } else if v.len() > 0 {
        assert((u + v)[i] == v[0]);
    }
}

/// A run of digits in `v` is the same run, moved, in `u + v`.
pub proof fn lemma_digits_end_suffix(u: Seq<u8>, v: Seq<u8>, k: int)
    requires
        0 <= k <= v.len(),
    ensures
        digits_end(u + v, u.len() + k) == u.len() + digits_end(v, k),
    decreases v.len() - k,
{
    if k < v.len() {
        assert((u + v)[u.len() + k] == v[k]);
        if is_digit(v[k]) {
            lemma_digits_end_suffix(u, v, k + 1);
        }
    }
}

/// What is read at `i` in `u` is what is read there in `u + v`, where `v`
/// starts with a byte that cannot continue a literal. A sign is such a byte
/// too where the literal takes up the rest of `u`, for it then ends in a
/// digit.
pub proof fn lemma_number_at_prefix(u: Seq<u8>, v: Seq<u8>, i: int)
    requires
        0 <= i <= u.len(),
        v.len() == 0 || ends_literal(v[0]) || (is_sign(v[0]) && number_at(u, i) is Some
            && number_at(u, i).unwrap().1 == u.len()),
    ensures
        number_at(u + v, i) == number_at(u, i),
{
    let s = u + v;
    assert forall|k: int| 0 <= k < u.len() implies s[k] == u[k] by {}
    if v.len() > 0 {
        assert(s[u.len() as int] == v[0]);
    }
    let a = sign_end(u, i);
    lemma_digits_run(u, a);
    lemma_digits_end_prefix(u, v, a);
    let b = digits_end(u, a);
    if b < u.len() {
        lemma_digits_run(u, b + 1);
        lemma_digits_end_prefix(u, v, b + 1);
    }
    let c = fraction_end(u, b);
    assert(c == fraction_end(s, b));
    if c < u.len() {
        let e = sign_end(u, c + 1);
        assert(e == sign_end(s, c + 1));
        lemma_digits_run(u, e);
        lemma_digits_end_prefix(u, v, e);
    }
    let d = exponent_end(u, c);
    assert(d == exponent_end(s, c));
    if b > a {
        let n = number_at(u, i).unwrap().0;
        let m = number_at(s, i).unwrap().0;
        assert(m.integer =~= n.integer);
        assert(m.fraction =~= n.fraction);
        assert(m.exponent =~= n.exponent);
    }
}

/// What is read at `k` in `v` is what is read in `u + v`, `u.len()` further
/// on.
pub proof fn lemma_number_at_suffix(u: Seq<u8>, v: Seq<u8>, k: int)
    requires
        0 <= k <= v.len(),
    ensures
        number_at(u + v, u.len() + k) == shifted(number_at(v, k), u.len() as int),
{
    let s = u + v;
    let n = u.len() as int;
    assert forall|j: int| 0 <= j < v.len() implies s[n + j] == v[j] by {}
    let a = sign_end(v, k);
    assert(sign_end(s, n + k) == n + a);
    lemma_digits_run(v, a);
    lemma_digits_end_suffix(u, v, a);
    let b = digits_end(v, a);
    if b < v.len() {
        lemma_digits_run(v, b + 1);
        lemma_digits_end_suffix(u, v, b + 1);
    }
    let c = fraction_end(v, b);
    assert(fraction_end(s, n + b) == n + c);
    if c < v.len() {
        let e = sign_end(v, c + 1);
        assert(sign_end(s, n + c + 1) == n + e);
        lemma_digits_run(v, e);
        lemma_digits_end_suffix(u, v, e);
    }
    let d = exponent_end(v, c);
    assert(exponent_end(s, n + c) == n + d);
    if b > a {
        let p = number_at(v, k).unwrap().0;
        let q = number_at(s, n + k).unwrap().0;
        assert(q.integer =~= p.integer);
        assert(q.fraction =~= p.fraction);
        assert(q.exponent =~= p.exponent);
    }
}

/// Where a literal is read, a sign or a digit stands.
pub proof fn lemma_number_at_first(s: Seq<u8>, i: int)
    requires
        0 <= i <= s.len(),
        number_at(s, i) is Some,
    ensures
        i < s.len(),
        is_sign(s[i]) || is_digit(s[i]),
{
}

/// Behind a literal no digit follows, for a literal takes all the digits
/// that it can.
pub proof fn lemma_number_at_end(s: Seq<u8>, i: int)
    requires
        0 <= i <= s.len(),
        number_at(s, i) is Some,
    ensures
        ({
            let j = number_at(s, i).unwrap().1;
            i < j <= s.len() && (j < s.len() ==> !is_digit(s[j]))
        }),
{
    let a = sign_end(s, i);
    lemma_digits_run(s, a);
    let b = digits_end(s, a);
    if b < s.len() {
        lemma_digits_run(s, b + 1);
    }
    let c = fraction_end(s, b);
    if c < s.len() {
        lemma_digits_run(s, sign_end(s, c + 1));
    }
}

/// A decimal number, kept exactly as it was written.
#[derive(Debug, Clone, PartialEq, Eq)]
pub struct Number {
    /// A minus sign stood before the digits.
    pub negative: bool,
    /// The digits before the dot, as ASCII bytes.
    pub integer: Vec<u8>,
    /// The digits after the dot; empty where there was no fraction.
    pub fraction: Vec<u8>,
    /// A minus sign stood before the exponent's digits.
    pub exponent_negative: bool,
    /// The exponent's digits; empty where there was no exponent.
    pub exponent: Vec<u8>,
}

impl View for Number {
    type V = Decimal;

    open spec fn view(&self) -> Decimal {
        Decimal {
            negative: self.negative,
            integer: self.integer@,
            fraction: self.fraction@,
            exponent_negative: self.exponent_negative,
            exponent: self.exponent@,
        }
    }
}

/// Whether some byte of `d` is one of the digits `1` to `9`.
pub fn any_nonzero_digit(d: &Vec<u8>) -> (b: bool)
    ensures
        b == has_nonzero_digit(d@),
{
    let mut k: usize = 0;
    while k < d.len()
        invariant
            k <= d@.len(),
            forall|j: int| 0 <= j < k ==> !(ZERO < #[trigger] d@[j] <= NINE),
        decreases d@.len() - k,
    {
        if ZERO < d[k] && d[k] <= NINE {
            return true;
        }
        k += 1;
    }
    false
}

/// Puts the bytes of `d` behind those of `v`.
pub fn push_all(v: &mut Vec<u8>, d: &Vec<u8>)
    ensures
        final(v)@ == old(v)@ + d@,
{
    let mut k: usize = 0;
    while k < d.len()
        invariant
            k <= d@.len(),
            v@ == old(v)@ + d@.subrange(0, k as int),
        decreases d@.len() - k,
    {
        v.push(d[k]);
        k += 1;
        assert(v@ =~= old(v)@ + d@.subrange(0, k as int));
    }
    assert(d@.subrange(0, k as int) =~= d@);
}

impl Number {
    /// The number `0`.
    pub fn zero() -> (n: Number)
        ensures
            n@ == Decimal::zero(),
            n@.wf(),
            !n@.is_negative(),
    {
        let mut integer: Vec<u8> = Vec::new();
        integer.push(ZERO);
        let n = Number {
            negative: false,
            integer,
            fraction: Vec::new(),
            exponent_negative: false,
            exponent: Vec::new(),
        };
        assert(n@.integer =~= seq![ZERO]);
        assert(n@.fraction =~= Seq::empty());
        assert(n@.exponent =~= Seq::empty());
        n
    }

    /// The shortest literal that writes the number.
    pub fn to_bytes(&self) -> (v: Vec<u8>)
        ensures
            v@ == self@.text(),
    {
        let mut v: Vec<u8> = Vec::new();
        if self.negative {
            v.push(MINUS);
        }
        assert(v@ =~= sign_text(self.negative));
        push_all(&mut v, &self.integer);
        if self.fraction.len() > 0 {
            v.push(DOT);
            push_all(&mut v, &self.fraction);
        }
        assert(v@ =~= sign_text(self.negative) + self.integer@ + (if self.fraction@.len() == 0 {
            Seq::<u8>::empty()
        } else {
            seq![DOT] + self.fraction@
        }));
        if self.exponent.len() > 0 {
            v.push(LOWER_E);
            if self.exponent_negative {
                v.push(MINUS);
            }
            push_all(&mut v, &self.exponent);
        }
        assert(v@ =~= self@.text());
        v
    }

    /// Whether the number is below zero.
    pub fn is_negative(&self) -> (b: bool)
        ensures
            b == self@.is_negative(),
    {
        self.negative && (any_nonzero_digit(&self.integer) || any_nonzero_digit(&self.fraction))
    }
}

/// Whether `b` is an ASCII decimal digit.
pub fn digit_byte(b: u8) -> (r: bool)
    ensures
        r == is_digit(b),
{
    ZERO <= b && b <= NINE
}

/// Skips the digits that start at `i`.
pub fn skip_digits(s: &[u8], i: usize) -> (j: usize)
    requires
        i <= s@.len(),
    ensures
        j == digits_end(s@, i as int),
        i <= j <= s@.len(),
{
    let mut j: usize = i;
    while j < s.len() && digit_byte(s[j])
        invariant
            i <= j <= s@.len(),
            digits_end(s@, j as int) == digits_end(s@, i as int),
        decreases s@.len() - j,
    {
        j += 1;
    }
    j
}

/// Skips one sign at `i`, if there is one.
pub fn skip_sign(s: &[u8], i: usize) -> (j: usize)
    requires
        i <= s@.len(),
    ensures
        j == sign_end(s@, i as int),
        i <= j <= s@.len(),
{
    if i < s.len() && (s[i] == PLUS || s[i] == MINUS) {
        i + 1
    } else {
        i
    }
}

/// The bytes of `s` from `a` up to `b`, as a vector of their own.
pub fn copy_range(s: &[u8], a: usize, b: usize) -> (v: Vec<u8>)
    requires
        a <= b <= s@.len(),
    ensures
        v@ == s@.subrange(a as int, b as int),
{
    slice_to_vec(slice_subrange(s, a, b))
}

/// Reads the literal that starts at `i`. Returns it with the position just
/// past it, or `None` where no literal starts at `i`.
pub fn read_number(s: &[u8], i: usize) -> (r: Option<(Number, usize)>)
    requires
        i <= s@.len(),
    ensures
        match number_at(s@, i as int) {
            Some((n, j)) => r matches Some(p) && p.0@ == n && p.1 == j && n.wf() && i < j
                <= s@.len(),
            None => r is None,
        },
{
    proof {
        lemma_number_at_wf(s@, i as int);
    }
    let a: usize = skip_sign(s, i);
    let b: usize = skip_digits(s, a);
    if b == a {
        return None;
    }
    let negative = a > i && s[i] == MINUS;
    let integer = copy_range(s, a, b);
    let mut c: usize = b;
    let mut fraction: Vec<u8> = Vec::new();
    if b < s.len() && s[b] == DOT {
        let f: usize = skip_digits(s, b + 1);
        if f > b + 1 {
            fraction = copy_range(s, b + 1, f);
            c = f;
        }
    }
    let mut d: usize = c;
    let mut exponent_negative = false;
    let mut exponent: Vec<u8> = Vec::new();
    if c < s.len() && (s[c] == LOWER_E || s[c] == UPPER_E) {
        let g: usize = skip_sign(s, c + 1);
        let h: usize = skip_digits(s, g);
        if h > g {
            exponent_negative = g > c + 1 && s[c + 1] == MINUS;
            exponent = copy_range(s, g, h);
            d = h;
        }
    }
    let n = Number { negative, integer, fraction, exponent_negative, exponent };
    assert(n@.fraction =~= number_at(s@, i as int).unwrap().0.fraction);
    assert(n@.exponent =~= number_at(s@, i as int).unwrap().0.exponent);
    Some((n, d))
}

} // verus!
