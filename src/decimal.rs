use vstd::prelude::*;

use crate::sign::Sign;
use crate::significand::{appended, is_digit, pow10, Significand, SignificandExt};

verus! {

/// What a [`Decimal`] stands for: `significand × 10^-negative_exponent`.
pub struct DecimalValue {
    pub significand: int,
    pub negative_exponent: nat,
}

/// A decimal number in the format `significand × 10^-negative_exponent`.
///
/// The sign is encoded in the significand; there is no distinction between positive and negative
/// zero. The negative exponent is the number of the significand's decimal digits that appear
/// right of the decimal point.
#[derive(Debug, PartialEq, Eq)]
pub struct Decimal<S> where S: Significand {
    significand: S,
    negative_exponent: u32,
}

impl<S> View for Decimal<S> where S: Significand {
    type V = DecimalValue;

    closed spec fn view(&self) -> DecimalValue {
        DecimalValue {
            significand: self.significand.value(),
            negative_exponent: self.negative_exponent as nat,
        }
    }
}

impl<S> Decimal<S> where S: Significand {
    /// Creates a new [`Decimal`] with the specified significand and negative exponent.
    pub fn new(significand: S, negative_exponent: u32) -> (r: Self)
        ensures
            r@ == (DecimalValue {
                significand: significand.value(),
                negative_exponent: negative_exponent as nat,
            }),
    {
        Decimal { significand, negative_exponent }
    }

    /// Returns the significand of the [`Decimal`] number.
    pub fn significand(&self) -> (r: S)
        ensures
            r.value() == self@.significand,
    {
        self.significand
    }

    /// Returns the negative exponent of the [`Decimal`] number.
    pub fn negative_exponent(&self) -> (r: u32)
        ensures
            r as nat == self@.negative_exponent,
    {
        self.negative_exponent
    }
}

/// Why a decimal literal could not be read.
#[derive(Clone, Copy, Debug, PartialEq, Eq, Structural)]
pub enum Error {
    /// A step of the arithmetic does not fit the significand or the exponent.
    Capacity,
    /// The literal ended before any digit.
    Incomplete,
    /// A character is not allowed where it stands.
    InvalidCharacter,
}

/// Where a [`DecimalParser`] stands in the literal.
#[derive(Clone, Copy, Debug, PartialEq, Eq, Structural)]
pub enum State {
    /// Nothing read yet.
    Start,
    /// A sign read, no digit yet.
    Sign,
    /// A decimal point read before any integer digit.
    LeadingDecimal,
    /// At least one integer digit read, no decimal point.
    Integer,
    /// A decimal point read after an integer digit, or a digit after the decimal point.
    Fraction,
}

/// The state of a [`DecimalParser`] with its significand as an integer.
pub struct ParserModel {
    pub state: State,
    pub sign: Sign,
    pub significand: int,
    pub negative_exponent: nat,
    pub trailing_zeros_plus_one: nat,
}

/// A parser for one decimal literal, fed one character at a time.
///
/// Runs of zeros after the decimal point are counted in `trailing_zeros_plus_one` and only
/// applied to the significand when a later nonzero digit comes.
#[derive(Debug)]
pub struct DecimalParser<S> where S: Significand {
    pub state: State,
    pub sign: Sign,
    pub significand: S,
    pub negative_exponent: u32,
    pub trailing_zeros_plus_one: u32,
}

impl<S> View for DecimalParser<S> where S: Significand {
    type V = ParserModel;

    open spec fn view(&self) -> ParserModel {
        ParserModel {
            state: self.state,
            sign: self.sign,
            significand: self.significand.value(),
            negative_exponent: self.negative_exponent as nat,
            trailing_zeros_plus_one: self.trailing_zeros_plus_one as nat,
        }
    }
}

/// The state of a parser that has read nothing.
pub open spec fn initial() -> ParserModel {
    ParserModel {
        state: State::Start,
        sign: Sign::Positive,
        significand: 0,
        negative_exponent: 0,
        trailing_zeros_plus_one: 1,
    }
}

/// Whether appending `digit` at weight `10^exp` to `x` fits, at each of its two steps.
pub open spec fn append_fits<S: Significand>(x: int, exp: nat, digit: char, sign: Sign) -> bool {
    S::fits(x * pow10(exp)) && S::fits(appended(x, exp, digit, sign))
}

/// Whether the state is one before the decimal point.
pub open spec fn before_point(state: State) -> bool {
    state == State::Start || state == State::Sign || state == State::Integer
}

/// Whether the state is one after the decimal point.
pub open spec fn after_point(state: State) -> bool {
    state == State::LeadingDecimal || state == State::Fraction
}

/// What feeding the character `c` to a parser in state `m` does.
pub open spec fn step<S: Significand>(m: ParserModel, c: char) -> Result<ParserModel, Error> {
    if m.state == State::Start && c == '+' {
        Ok(ParserModel { state: State::Sign, ..m })
    } else if m.state == State::Start && c == '-' {
        Ok(ParserModel { state: State::Sign, sign: Sign::Negative, ..m })
    } else if (m.state == State::Start || m.state == State::Sign) && c == '.' {
        Ok(ParserModel { state: State::LeadingDecimal, ..m })
    } else if m.state == State::Integer && c == '.' {
        Ok(ParserModel { state: State::Fraction, ..m })
    } else if before_point(m.state) && is_digit(c) {
        if c == '0' && m.significand == 0 {
            Ok(ParserModel { state: State::Integer, ..m })
        } else if append_fits::<S>(m.significand, 1, c, m.sign) {
            Ok(
                ParserModel {
                    state: State::Integer,
                    significand: appended(m.significand, 1, c, m.sign),
                    ..m
                },
            )
        } else {
            Err(Error::Capacity)
        }
    } else if after_point(m.state) && c == '0' {
        if m.trailing_zeros_plus_one + 1 <= u32::MAX {
            Ok(
                ParserModel {
                    state: State::Fraction,
                    trailing_zeros_plus_one: m.trailing_zeros_plus_one + 1,
                    ..m
                },
            )
        } else {
            Err(Error::Capacity)
        }
    } else if after_point(m.state) && is_digit(c) {
        if append_fits::<S>(m.significand, m.trailing_zeros_plus_one, c, m.sign)
            && m.negative_exponent + m.trailing_zeros_plus_one <= u32::MAX {
            Ok(
                ParserModel {
                    state: State::Fraction,
                    significand: appended(m.significand, m.trailing_zeros_plus_one, c, m.sign),
                    negative_exponent: m.negative_exponent + m.trailing_zeros_plus_one,
                    trailing_zeros_plus_one: 1,
                    ..m
                },
            )
        } else {
            Err(Error::Capacity)
        }
    } else {
        Err(Error::InvalidCharacter)
    }
}

/// What feeding the characters `s` in order to a parser in state `m` does: the first error, or
/// the state after the last character.
pub open spec fn run<S: Significand>(m: ParserModel, s: Seq<char>) -> Result<ParserModel, Error>
    decreases s.len(),
{
    if s.len() == 0 {
        Ok(m)
    } else {
        match run::<S>(m, s.drop_last()) {
            Ok(before) => step::<S>(before, s.last()),
            Err(e) => Err(e),
        }
    }
}

/// What ending the literal in state `m` yields.
pub open spec fn finish(m: ParserModel) -> Result<DecimalValue, Error> {
    if m.state == State::Integer || m.state == State::Fraction {
        Ok(DecimalValue { significand: m.significand, negative_exponent: m.negative_exponent })
    } else {
        Err(Error::Incomplete)
    }
}

/// What feeding `s` to a parser in state `m` and then ending the literal yields.
pub open spec fn parse_from<S: Significand>(m: ParserModel, s: Seq<char>) -> Result<
    DecimalValue,
    Error,
> {
    match run::<S>(m, s) {
        Ok(end) => finish(end),
        Err(e) => Err(e),
    }
}

/// What a fresh parser makes of the literal `s`.
pub open spec fn parse<S: Significand>(s: Seq<char>) -> Result<DecimalValue, Error> {
    parse_from::<S>(initial(), s)
}

/// The value a result stands for.
pub open spec fn result_view<S: Significand>(r: Result<Decimal<S>, Error>) -> Result<
    DecimalValue,
    Error,
> {
    match r {
        Ok(d) => Ok(d@),
        Err(e) => Err(e),
    }
}

/// Feeding `a` and then `b` does what feeding `a + b` does.
pub proof fn lemma_run_concat<S: Significand>(m: ParserModel, a: Seq<char>, b: Seq<char>)
    ensures
        run::<S>(m, a + b) == match run::<S>(m, a) {
            Ok(mid) => run::<S>(mid, b),
            Err(e) => Err(e),
        },
    decreases b.len(),
{
    if b.len() == 0 {
        assert(a + b =~= a);
    } else {
        lemma_run_concat::<S>(m, a, b.drop_last());
        assert((a + b).drop_last() =~= a + b.drop_last());
        assert((a + b).last() == b.last());
    }
}

impl<S> Default for DecimalParser<S> where S: Significand {
    /// A parser that has read nothing.
    fn default() -> (r: Self)
        ensures
            r@ == initial(),
    {
        DecimalParser {
            state: State::Start,
            sign: Sign::Positive,
            significand: S::zero(),
            negative_exponent: 0,
            trailing_zeros_plus_one: 1,
        }
    }
}

impl<S> DecimalParser<S> where S: Significand {
    /// Feeds one character of the literal. On an error the parser is left as it was.
    pub fn try_feed(&mut self, c: char) -> (r: Result<(), Error>)
        ensures
            match step::<S>(old(self)@, c) {
                Ok(m) => r is Ok && final(self)@ == m,
                Err(e) => r == Err::<(), Error>(e) && *final(self) == *old(self),
            },
    {
        let state = self.state;
        if state == State::Start && c == '+' {
            self.state = State::Sign;
            Ok(())
        } else if state == State::Start && c == '-' {
            self.state = State::Sign;
            self.sign = Sign::Negative;
            Ok(())
        } else if (state == State::Start || state == State::Sign) && c == '.' {
            self.state = State::LeadingDecimal;
            Ok(())
        } else if state == State::Integer && c == '.' {
            self.state = State::Fraction;
            Ok(())
        } else if (state == State::Start || state == State::Sign || state == State::Integer) && '0'
            <= c && c <= '9' {
            if c == '0' && self.significand.is_zero() {
                self.state = State::Integer;
                Ok(())
            } else {
                match self.significand.checked_append_digit(1, c, self.sign) {
                    Some(significand) => {
                        self.state = State::Integer;
                        self.significand = significand;
                        Ok(())
                    },
                    None => Err(Error::Capacity),
                }
            }
        } else if (state == State::LeadingDecimal || state == State::Fraction) && c == '0' {
            match self.trailing_zeros_plus_one.checked_add(1) {
                Some(trailing_zeros) => {
                    self.state = State::Fraction;
                    self.trailing_zeros_plus_one = trailing_zeros;
                    Ok(())
                },
                None => Err(Error::Capacity),
            }
        } else if (state == State::LeadingDecimal || state == State::Fraction) && '1' <= c && c
            <= '9' {
            let significand = self.significand.checked_append_digit(
                self.trailing_zeros_plus_one,
                c,
                self.sign,
            );
            let negative_exponent = self.negative_exponent.checked_add(
                self.trailing_zeros_plus_one,
            );
            match (significand, negative_exponent) {
                (Some(significand), Some(negative_exponent)) => {
                    self.state = State::Fraction;
                    self.significand = significand;
                    self.negative_exponent = negative_exponent;
                    self.trailing_zeros_plus_one = 1;
                    Ok(())
                },
                _ => Err(Error::Capacity),
            }
        } else {
            Err(Error::InvalidCharacter)
        }
    }

    /// Feeds the characters of `s` in order, stopping at the first error. The parser is then left
    /// as the characters before the refused one made it.
    pub fn try_feed_str(&mut self, s: &str) -> (r: Result<(), Error>)
        ensures
            match run::<S>(old(self)@, s@) {
                Ok(m) => r is Ok && final(self)@ == m,
                Err(e) => r == Err::<(), Error>(e) && exists|k: int|
                    0 <= k < s@.len() && run::<S>(old(self)@, #[trigger] s@.take(k)) == Ok::<
                        ParserModel,
                        Error,
                    >(final(self)@) && step::<S>(final(self)@, s@[k]) == Err::<ParserModel, Error>(e),
            },
    {
        let ghost start = self@;
        let n = s.unicode_len();
        let mut i: usize = 0;
        while i < n
            invariant
                start == old(self)@,
                n == s@.len(),
                i <= n,
                run::<S>(start, s@.take(i as int)) == Ok::<ParserModel, Error>(self@),
            decreases n - i,
        {
            let c = s.get_char(i);
            proof {
                assert(s@.take(i + 1).drop_last() =~= s@.take(i as int));
                assert(s@.take(i + 1).last() == c);
            }
            let ghost before = self@;
            match self.try_feed(c) {
                Ok(()) => {},
                Err(e) => {
                    proof {
                        assert(step::<S>(before, c) == Err::<ParserModel, Error>(e));
                        assert(run::<S>(start, s@.take(i + 1)) == Err::<ParserModel, Error>(e));
                        lemma_run_concat::<S>(start, s@.take(i + 1), s@.skip(i + 1));
                        assert(s@.take(i + 1) + s@.skip(i + 1) =~= s@);
                        assert(run::<S>(start, s@) == Err::<ParserModel, Error>(e));
                        assert(s@[i as int] == c);
                        assert(run::<S>(start, s@.take(i as int)) == Ok::<ParserModel, Error>(
                            self@,
                        ));
                    }
                    return Err(e);
                },
            }
            i = i + 1;
        }
        proof {
            assert(s@.take(n as int) =~= s@);
        }
        Ok(())
    }

    /// Feeds the characters of `s` in order and ends the literal.
    pub fn try_feed_str_end(self, s: &str) -> (r: Result<Decimal<S>, Error>)
        ensures
            result_view(r) == parse_from::<S>(self@, s@),
    {
        let mut parser = self;
        match parser.try_feed_str(s) {
            Ok(()) => parser.try_end(),
            Err(e) => Err(e),
        }
    }

    /// Ends the literal: its value where at least one digit was read, else `Incomplete`.
    pub fn try_end(&self) -> (r: Result<Decimal<S>, Error>)
        ensures
            result_view(r) == finish(self@),
    {
        if self.state == State::Integer || self.state == State::Fraction {
            Ok(Decimal::new(self.significand, self.negative_exponent))
        } else {
            Err(Error::Incomplete)
        }
    }
}

} // verus!
