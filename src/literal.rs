use vstd::prelude::*;

use crate::decimal::{
    after_point, append_fits, before_point, initial, lemma_run_concat, parse, parse_from, run, step,
    DecimalValue, Error, ParserModel, State,
};
use crate::sign::Sign;
use crate::significand::{appended, digit_value, is_digit, lemma_pow10_grows, pow10, Significand};

verus! {

/// The character `0`, `k` times.
pub open spec fn zeros(k: nat) -> Seq<char> {
    Seq::new(k, |_i: int| '0')
}

/// Whether every character of `s` is a digit.
pub open spec fn all_digits(s: Seq<char>) -> bool {
    forall|i: int| 0 <= i < s.len() ==> is_digit(#[trigger] s[i])
}

/// The number that the digits `s` spell in base ten.
pub open spec fn digits_value(s: Seq<char>) -> int
    decreases s.len(),
{
    if s.len() == 0 {
        0
    } else {
        10 * digits_value(s.drop_last()) + digit_value(s.last())
    }
}

/// `s` without its trailing zeros.
pub open spec fn trim_zeros(s: Seq<char>) -> Seq<char>
    decreases s.len(),
{
    if s.len() > 0 && s.last() == '0' {
        trim_zeros(s.drop_last())
    } else {
        s
    }
}

/// The magnitude `v` with the sign `sign`.
pub open spec fn signed(sign: Sign, v: int) -> int {
    match sign {
        Sign::Positive => v,
        Sign::Negative => -v,
    }
}

/// The characters of a sign, if any.
pub open spec fn sign_chars(sign: Option<Sign>) -> Seq<char> {
    match sign {
        None => seq![],
        Some(Sign::Positive) => seq!['+'],
        Some(Sign::Negative) => seq!['-'],
    }
}

/// The literal written as an optional sign, the integer digits and, where `point` holds, a
/// decimal point followed by the fraction digits.
pub open spec fn literal(
    sign: Option<Sign>,
    integer: Seq<char>,
    point: bool,
    fraction: Seq<char>,
) -> Seq<char> {
    if point {
        sign_chars(sign) + integer + seq!['.'] + fraction
    } else {
        sign_chars(sign) + integer
    }
}

/// The value of such a literal, worked out by hand: the significand is spelled by the integer
/// digits and the fraction digits up to the last nonzero one; the negative exponent counts those
/// fraction digits.
pub open spec fn literal_value(sign: Sign, integer: Seq<char>, fraction: Seq<char>) -> DecimalValue {
    DecimalValue {
        significand: signed(sign, digits_value(integer + trim_zeros(fraction))),
        negative_exponent: trim_zeros(fraction).len(),
    }
}

proof fn lemma_digits_value_nonnegative(s: Seq<char>)
    requires
        all_digits(s),
    ensures
        digits_value(s) >= 0,
    decreases s.len(),
{
    if s.len() > 0 {
        assert(is_digit(s[s.len() - 1]));
        lemma_digits_value_nonnegative(s.drop_last());
    }
}

proof fn lemma_digits_value_concat(a: Seq<char>, b: Seq<char>)
    ensures
        digits_value(a + b) == digits_value(a) * pow10(b.len()) + digits_value(b),
    decreases b.len(),
{
    if b.len() == 0 {
        assert(a + b =~= a);
        assert(pow10(0) == 1);
        assert(digits_value(b) == 0);
    } else {
        let b0 = b.drop_last();
        assert((a + b).drop_last() =~= a + b0);
        assert((a + b).last() == b.last());
        lemma_digits_value_concat(a, b0);
        assert(pow10(b.len()) == 10 * pow10(b0.len()));
        assert(10 * (digits_value(a) * pow10(b0.len()) + digits_value(b0)) == digits_value(a) * (10
            * pow10(b0.len())) + 10 * digits_value(b0)) by (nonlinear_arith);
        assert(digits_value(a + b) == 10 * digits_value(a + b0) + digit_value(b.last()));
        assert(digits_value(b) == 10 * digits_value(b0) + digit_value(b.last()));
    }
}

/// Where `0 <= a <= b`, `b` with a sign fits only if `a` with that sign does.
proof fn lemma_fits_signed<S: Significand>(sign: Sign, a: int, b: int)
    requires
        0 <= a <= b,
        S::fits(signed(sign, b)),
    ensures
        S::fits(signed(sign, a)),
{
    S::lemma_fits_between(signed(sign, b), signed(sign, a));
}

/// Feeding integer digits before the decimal point: the significand is the number that all the
/// digits read so far spell, and the result is `Capacity` exactly where that number no longer fits.
pub proof fn lemma_integer_digits<S: Significand>(m: ParserModel, prefix: Seq<char>, digits: Seq<char>)
    requires
        before_point(m.state),
        all_digits(prefix),
        all_digits(digits),
        m.significand == signed(m.sign, digits_value(prefix)),
        S::fits(m.significand),
    ensures
        run::<S>(m, digits) == if S::fits(signed(m.sign, digits_value(prefix + digits))) {
            Ok(
                ParserModel {
                    state: if digits.len() == 0 {
                        m.state
                    } else {
                        State::Integer
                    },
                    significand: signed(m.sign, digits_value(prefix + digits)),
                    ..m
                },
            )
        } else {
            Err(Error::Capacity)
        },
    decreases digits.len(),
{
    if digits.len() == 0 {
        assert(prefix + digits =~= prefix);
    } else {
        let d0 = digits.drop_last();
        let c = digits.last();
        assert(all_digits(d0));
        assert(is_digit(c)) by {
            assert(is_digit(digits[digits.len() - 1]));
        }
        assert(all_digits(prefix + d0));
        lemma_integer_digits::<S>(m, prefix, d0);
        assert((prefix + digits).drop_last() =~= prefix + d0);
        let v0 = digits_value(prefix + d0);
        let v = digits_value(prefix + digits);
        lemma_digits_value_nonnegative(prefix + d0);
        assert(v == 10 * v0 + digit_value(c));
        assert(pow10(0) == 1);
        assert(pow10(1) == 10);
        if S::fits(signed(m.sign, v0)) {
            if !(c == '0' && signed(m.sign, v0) == 0) {
                assert(appended(signed(m.sign, v0), 1, c, m.sign) == signed(m.sign, v));
                assert(signed(m.sign, v0) * pow10(1) == signed(m.sign, 10 * v0));
                if S::fits(signed(m.sign, v)) {
                    lemma_fits_signed::<S>(m.sign, 10 * v0, v);
                }
            }
        } else {
            if S::fits(signed(m.sign, v)) {
                lemma_fits_signed::<S>(m.sign, v0, v);
            }
        }
    }
}

proof fn lemma_trim_zeros(s: Seq<char>)
    ensures
        trim_zeros(s).len() <= s.len(),
        s =~= trim_zeros(s) + zeros((s.len() - trim_zeros(s).len()) as nat),
    decreases s.len(),
{
    if s.len() > 0 && s.last() == '0' {
        let s0 = s.drop_last();
        lemma_trim_zeros(s0);
        let t = trim_zeros(s0);
        assert(s =~= s0.push('0'));
        assert(zeros((s0.len() - t.len()) as nat).push('0') =~= zeros((s.len() - t.len()) as nat));
    } else {
        assert(s =~= s + zeros(0));
    }
}

proof fn lemma_digits_value_zeros(k: nat)
    ensures
        digits_value(zeros(k)) == 0,
    decreases k,
{
    if k > 0 {
        assert(zeros(k).drop_last() =~= zeros((k - 1) as nat));
        lemma_digits_value_zeros((k - 1) as nat);
    }
}

/// Feeding fraction digits after the decimal point.
proof fn lemma_fraction_digits<S: Significand>(
    m: ParserModel,
    prefix: Seq<char>,
    fraction: Seq<char>,
)
    requires
        after_point(m.state),
        all_digits(prefix),
        all_digits(fraction),
        m.significand == signed(m.sign, digits_value(prefix)),
        S::fits(m.significand),
        m.negative_exponent == 0,
        m.trailing_zeros_plus_one == 1,
        fraction.len() < u32::MAX,
    ensures
        run::<S>(m, fraction) == if S::fits(
            signed(m.sign, digits_value(prefix + trim_zeros(fraction))),
        ) {
            Ok(
                ParserModel {
                    state: if fraction.len() == 0 {
                        m.state
                    } else {
                        State::Fraction
                    },
                    significand: signed(m.sign, digits_value(prefix + trim_zeros(fraction))),
                    negative_exponent: trim_zeros(fraction).len(),
                    trailing_zeros_plus_one: (fraction.len() - trim_zeros(fraction).len() + 1) as nat,
                    ..m
                },
            )
        } else {
            Err(Error::Capacity)
        },
    decreases fraction.len(),
{
    if fraction.len() == 0 {
        assert(prefix + fraction =~= prefix);
    } else {
        let f0 = fraction.drop_last();
        let c = fraction.last();
        assert(all_digits(f0));
        assert(is_digit(c)) by {
            assert(is_digit(fraction[fraction.len() - 1]));
        }
        lemma_fraction_digits::<S>(m, prefix, f0);
        lemma_trim_zeros(f0);
        let t0 = trim_zeros(f0);
        let z0 = (f0.len() - t0.len()) as nat;
        assert(t0 =~= f0.take(t0.len() as int));
        assert(all_digits(prefix + t0));
        lemma_digits_value_nonnegative(prefix + t0);
        let v0 = digits_value(prefix + t0);
        if c == '0' {
            assert(trim_zeros(fraction) == t0);
        } else {
            assert(trim_zeros(fraction) == fraction);
            assert(fraction =~= f0.push(c));
            assert(f0 =~= t0 + zeros(z0));
            assert(fraction =~= t0 + zeros(z0).push(c));
            assert(prefix + fraction =~= (prefix + t0) + (zeros(z0).push(c)));
            lemma_digits_value_concat(prefix + t0, zeros(z0).push(c));
            assert(zeros(z0).push(c).drop_last() =~= zeros(z0));
            lemma_digits_value_zeros(z0);
            assert(digits_value(zeros(z0).push(c)) == digit_value(c));
            let p = pow10(z0 + 1);
            lemma_pow10_grows(0, z0 + 1);
            assert(pow10(0) == 1);
            let v = digits_value(prefix + fraction);
            assert(v == v0 * p + digit_value(c));
            assert(v0 <= v0 * p) by (nonlinear_arith)
                requires
                    v0 >= 0,
                    p >= 1,
            ;
            assert(signed(m.sign, v0) * p == signed(m.sign, v0 * p)) by (nonlinear_arith);
            assert(appended(signed(m.sign, v0), z0 + 1, c, m.sign) == signed(m.sign, v));
            if S::fits(signed(m.sign, v0)) {
                if S::fits(signed(m.sign, v)) {
                    lemma_fits_signed::<S>(m.sign, v0 * p, v);
                }
            } else {
                if S::fits(signed(m.sign, v)) {
                    lemma_fits_signed::<S>(m.sign, v0, v);
                }
            }
        }
    }
}

/// The sign of a literal whose sign may be left out.
pub open spec fn sign_or_positive(sign: Option<Sign>) -> Sign {
    match sign {
        Some(x) => x,
        None => Sign::Positive,
    }
}

/// Feeding a literal's sign characters to a fresh parser.
proof fn lemma_sign_chars<S: Significand>(sign: Option<Sign>)
    ensures
        run::<S>(initial(), sign_chars(sign)) == Ok::<ParserModel, Error>(
            ParserModel {
                state: if sign is Some {
                    State::Sign
                } else {
                    State::Start
                },
                sign: sign_or_positive(sign),
                ..initial()
            },
        ),
{
    let s = sign_chars(sign);
    if sign is Some {
        assert(s.drop_last() =~= Seq::<char>::empty());
        assert(run::<S>(initial(), s.drop_last()) == Ok::<ParserModel, Error>(initial()));
    }
}

/// A fresh parser reads every literal as it is worked out by hand.
///
/// For an optional sign, integer digits and, after a decimal point, fraction digits, finalizing
/// yields `literal_value`: the significand spelled by the integer digits and the fraction
/// digits up to the last nonzero one, and the number of those fraction digits as the negative
/// exponent. The result is `Capacity` exactly where that significand does not fit, and
/// `Incomplete` where the literal has no digit at all.
pub proof fn lemma_parse_literal<S: Significand>(
    sign: Option<Sign>,
    integer: Seq<char>,
    point: bool,
    fraction: Seq<char>,
)
    requires
        all_digits(integer),
        all_digits(fraction),
        point || fraction.len() == 0,
        fraction.len() < u32::MAX,
    ensures
        parse::<S>(literal(sign, integer, point, fraction)) == if integer.len() == 0
            && fraction.len() == 0 {
            Err(Error::Incomplete)
        } else if S::fits(literal_value(sign_or_positive(sign), integer, fraction).significand) {
            Ok(literal_value(sign_or_positive(sign), integer, fraction))
        } else {
            Err(Error::Capacity)
        },
{
    let sgn = sign_or_positive(sign);
    let sc = sign_chars(sign);
    S::lemma_zero_fits();
    lemma_sign_chars::<S>(sign);
    let m1 = ParserModel {
        state: if sign is Some {
            State::Sign
        } else {
            State::Start
        },
        sign: sgn,
        ..initial()
    };
    assert(Seq::<char>::empty() + integer =~= integer);
    assert(signed(sgn, digits_value(Seq::<char>::empty())) == 0);
    lemma_integer_digits::<S>(m1, Seq::<char>::empty(), integer);
    lemma_run_concat::<S>(initial(), sc, integer);
    let vi = digits_value(integer);
    let t = trim_zeros(fraction);
    lemma_trim_zeros(fraction);
    assert(t =~= fraction.take(t.len() as int));
    assert(all_digits(t));
    lemma_digits_value_nonnegative(integer);
    lemma_digits_value_nonnegative(t);
    lemma_digits_value_concat(integer, t);
    lemma_pow10_grows(0, t.len());
    assert(pow10(0) == 1);
    let v = digits_value(integer + t);
    assert(vi <= vi * pow10(t.len())) by (nonlinear_arith)
        requires
            vi >= 0,
            pow10(t.len()) >= 1,
    ;
    if S::fits(signed(sgn, v)) {
        lemma_fits_signed::<S>(sgn, vi, v);
    }
    if !point {
        assert(fraction =~= Seq::<char>::empty());
        assert(t =~= Seq::<char>::empty());
        assert(integer + t =~= integer);
    } else {
        let m2 = ParserModel {
            state: if integer.len() == 0 {
                m1.state
            } else {
                State::Integer
            },
            significand: signed(sgn, vi),
            ..m1
        };
        lemma_run_concat::<S>(initial(), sc + integer, seq!['.']);
        assert(seq!['.'].drop_last() =~= Seq::<char>::empty());
        lemma_run_concat::<S>(initial(), sc + integer + seq!['.'], fraction);
        if S::fits(signed(sgn, vi)) {
            assert(run::<S>(m2, Seq::<char>::empty()) == Ok::<ParserModel, Error>(m2));
            assert(seq!['.'].last() == '.');
            assert(run::<S>(m2, seq!['.']) == step::<S>(m2, '.'));
            let m3 = ParserModel {
                state: if integer.len() == 0 {
                    State::LeadingDecimal
                } else {
                    State::Fraction
                },
                ..m2
            };
            assert(step::<S>(m2, '.') == Ok::<ParserModel, Error>(m3));
            lemma_fraction_digits::<S>(m3, integer, fraction);
        }
    }
}

/// Leading zeros before the decimal point change nothing: a literal that goes on with a digit
/// reads the same with any number of zeros after its sign.
pub proof fn lemma_leading_zeros<S: Significand>(sign: Option<Sign>, k: nat, rest: Seq<char>)
    requires
        rest.len() > 0,
        is_digit(rest[0]),
    ensures
        parse::<S>(sign_chars(sign) + zeros(k) + rest) == parse::<S>(sign_chars(sign) + rest),
{
    let sc = sign_chars(sign);
    S::lemma_zero_fits();
    lemma_sign_chars::<S>(sign);
    let m1 = ParserModel {
        state: if sign is Some {
            State::Sign
        } else {
            State::Start
        },
        sign: sign_or_positive(sign),
        ..initial()
    };
    assert(all_digits(zeros(k)));
    assert(Seq::<char>::empty() + zeros(k) =~= zeros(k));
    lemma_digits_value_zeros(k);
    assert(signed(m1.sign, digits_value(Seq::<char>::empty())) == 0);
    lemma_integer_digits::<S>(m1, Seq::<char>::empty(), zeros(k));
    let m2 = ParserModel {
        state: if k == 0 {
            m1.state
        } else {
            State::Integer
        },
        ..m1
    };
    assert(run::<S>(m1, zeros(k)) == Ok::<ParserModel, Error>(m2));
    lemma_run_concat::<S>(initial(), sc, zeros(k));
    lemma_run_concat::<S>(initial(), sc + zeros(k), rest);
    lemma_run_concat::<S>(initial(), sc, rest);
    let first = seq![rest[0]];
    let tail = rest.skip(1);
    assert(rest =~= first + tail);
    lemma_run_concat::<S>(m1, first, tail);
    lemma_run_concat::<S>(m2, first, tail);
    lemma_feed_one::<S>(m1, rest[0]);
    lemma_feed_one::<S>(m2, rest[0]);
    assert(step::<S>(m1, rest[0]) == step::<S>(m2, rest[0]));
}

/// Feeding one character is one step.
pub proof fn lemma_feed_one<S: Significand>(m: ParserModel, c: char)
    ensures
        run::<S>(m, seq![c]) == step::<S>(m, c),
{
    assert(seq![c].drop_last() =~= Seq::<char>::empty());
    assert(run::<S>(m, Seq::<char>::empty()) == Ok::<ParserModel, Error>(m));
    assert(seq![c].last() == c);
}

/// Feeding zeros after the decimal point only counts them.
proof fn lemma_fraction_zeros<S: Significand>(m: ParserModel, k: nat)
    requires
        after_point(m.state),
        m.trailing_zeros_plus_one == 1,
    ensures
        run::<S>(m, zeros(k)) == if k + 1 <= u32::MAX {
            Ok(
                ParserModel {
                    state: if k == 0 {
                        m.state
                    } else {
                        State::Fraction
                    },
                    trailing_zeros_plus_one: k + 1,
                    ..m
                },
            )
        } else {
            Err(Error::Capacity)
        },
    decreases k,
{
    if k > 0 {
        assert(zeros(k).drop_last() =~= zeros((k - 1) as nat));
        assert(zeros(k).last() == '0');
        lemma_fraction_zeros::<S>(m, (k - 1) as nat);
    }
}

/// A run of zeros after the decimal point is applied at once, when the next nonzero digit comes:
/// the negative exponent grows by the run's length plus one, and the significand becomes what
/// appending the zeros one at a time and then the digit gives. `Capacity` comes where the count
/// of zeros, the exponent or the significand does not fit.
pub proof fn lemma_fraction_zero_run<S: Significand>(m: ParserModel, k: nat, c: char)
    requires
        after_point(m.state),
        m.trailing_zeros_plus_one == 1,
        is_digit(c),
        c != '0',
    ensures
        run::<S>(m, zeros(k).push(c)) == if k + 1 <= u32::MAX && append_fits::<S>(
            m.significand,
            k + 1,
            c,
            m.sign,
        ) && m.negative_exponent + k + 1 <= u32::MAX {
            Ok(
                ParserModel {
                    state: State::Fraction,
                    significand: appended(m.significand, k + 1, c, m.sign),
                    negative_exponent: m.negative_exponent + k + 1,
                    trailing_zeros_plus_one: 1,
                    ..m
                },
            )
        } else {
            Err(Error::Capacity)
        },
        appended(m.significand, k + 1, c, m.sign) == appended(
            m.significand * pow10(k),
            1,
            c,
            m.sign,
        ),
{
    lemma_fraction_zeros::<S>(m, k);
    assert(zeros(k).push(c).drop_last() =~= zeros(k));
    assert(zeros(k).push(c).last() == c);
    assert(pow10(0) == 1);
    assert(pow10(k + 1) == 10 * pow10(k));
    assert(m.significand * pow10(k + 1) == (m.significand * pow10(k)) * pow10(1))
        by (nonlinear_arith)
        requires
            pow10(k + 1) == 10 * pow10(k),
            pow10(1) == 10,
    ;
}

/// Input without a digit never yields a value: finalizing gives `Incomplete`, unless a character
/// was refused first.
pub proof fn lemma_no_digits<S: Significand>(s: Seq<char>)
    requires
        forall|i: int| 0 <= i < s.len() ==> !is_digit(#[trigger] s[i]),
    ensures
        run::<S>(initial(), s) is Ok ==> parse::<S>(s) == Err::<DecimalValue, Error>(
            Error::Incomplete,
        ),
        run::<S>(initial(), s) is Err ==> parse::<S>(s) == Err::<DecimalValue, Error>(
            Error::InvalidCharacter,
        ),
{
    lemma_no_digits_states::<S>(s);
}

proof fn lemma_no_digits_states<S: Significand>(s: Seq<char>)
    requires
        forall|i: int| 0 <= i < s.len() ==> !is_digit(#[trigger] s[i]),
    ensures
        match run::<S>(initial(), s) {
            Ok(m) => m.state == State::Start || m.state == State::Sign || m.state
                == State::LeadingDecimal,
            Err(e) => e == Error::InvalidCharacter,
        },
    decreases s.len(),
{
    if s.len() > 0 {
        let s0 = s.drop_last();
        assert(forall|i: int| 0 <= i < s0.len() ==> s0[i] == s[i]);
        lemma_no_digits_states::<S>(s0);
        assert(!is_digit(s[s.len() - 1]));
    }
}

/// A character other than a sign, a decimal point or a digit is refused where it comes, and
/// nothing after it is read.
pub proof fn lemma_invalid_character<S: Significand>(
    m: ParserModel,
    before: Seq<char>,
    c: char,
    after: Seq<char>,
)
    requires
        run::<S>(m, before) is Ok,
        c != '+' && c != '-' && c != '.' && !is_digit(c),
    ensures
        run::<S>(m, before.push(c) + after) == Err::<ParserModel, Error>(Error::InvalidCharacter),
{
    assert(before.push(c).drop_last() =~= before);
    assert(before.push(c).last() == c);
    lemma_run_concat::<S>(m, before.push(c), after);
}

/// Feeding input in two pieces and then ending it yields what feeding it whole does.
pub proof fn lemma_feed_in_pieces<S: Significand>(m: ParserModel, a: Seq<char>, b: Seq<char>)
    ensures
        parse_from::<S>(m, a + b) == match run::<S>(m, a) {
            Ok(mid) => parse_from::<S>(mid, b),
            Err(e) => Err(e),
        },
{
    lemma_run_concat::<S>(m, a, b);
}

/// Feeding input one character at a time from the front yields what feeding it whole does.
pub proof fn lemma_feed_first<S: Significand>(m: ParserModel, s: Seq<char>)
    requires
        s.len() > 0,
    ensures
        run::<S>(m, s) == match step::<S>(m, s[0]) {
            Ok(next) => run::<S>(next, s.skip(1)),
            Err(e) => Err(e),
        },
{
    assert(s =~= seq![s[0]] + s.skip(1));
    lemma_run_concat::<S>(m, seq![s[0]], s.skip(1));
    lemma_feed_one::<S>(m, s[0]);
}

} // verus!
