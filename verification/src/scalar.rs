//! What a format reads from the input: scalars, and the boundaries of lists and objects.
use crate::numeric::{Float64, Number};
use std::borrow::Cow;
use vstd::prelude::*;
use vstd::string::*;

verus! {

/// A scalar value used during deserialization.
///
/// `u64` and `i64` are apart because neither holds the other, and both are apart from the 128-bit
/// integers so that most numbers need no more than 64 bits.
#[derive(Debug, PartialEq)]
pub enum Scalar<'input> {
    /// Owned or borrowed string data.
    String(Cow<'input, str>),
    /// Unsigned 64-bit integer scalar.
    U64(u64),
    /// Signed 64-bit integer scalar.
    I64(i64),
    /// 64-bit floating-point scalar.
    F64(Float64),
    /// 128-bit unsigned integer scalar.
    U128(u128),
    /// 128-bit signed integer scalar.
    I128(i128),
    /// Boolean scalar.
    Bool(bool),
    /// Null scalar (e.g. for formats supporting explicit null).
    Null,
}

/// Expected next input token or structure during deserialization.
#[derive(Clone, Copy, Debug, PartialEq, Eq, Structural)]
pub enum Expectation {
    /// Accept a value.
    Value,
    /// Expect an object key or the end of an object.
    ObjectKeyOrObjectClose,
    /// Expect a value inside an object.
    ObjectVal,
    /// Expect a list item or the end of a list.
    ListItemOrListClose,
}

/// Outcome of parsing the next input element.
#[derive(Debug, PartialEq)]
pub enum Outcome<'input> {
    /// Parsed a scalar value.
    Scalar(Scalar<'input>),
    /// Starting a list/array.
    ListStarted,
    /// Ending a list/array.
    ListEnded,
    /// Starting an object/map.
    ObjectStarted,
    /// Ending an object/map.
    ObjectEnded,
}

/// What a scalar holds, whoever owns its string.
pub enum ScalarView {
    String(Seq<char>),
    Number(Number),
    Bool(bool),
    Null,
}

/// What an outcome holds, whoever owns its string.
pub enum OutcomeView {
    Scalar(ScalarView),
    ListStarted,
    ListEnded,
    ObjectStarted,
    ObjectEnded,
}

impl<'input> View for Scalar<'input> {
    type V = ScalarView;

    open spec fn view(&self) -> ScalarView {
        match self {
            Scalar::String(s) => ScalarView::String(s@),
            Scalar::U64(v) => ScalarView::Number(Number::U64(*v)),
            Scalar::I64(v) => ScalarView::Number(Number::I64(*v)),
            Scalar::F64(v) => ScalarView::Number(Number::F64(*v)),
            Scalar::U128(v) => ScalarView::Number(Number::U128(*v)),
            Scalar::I128(v) => ScalarView::Number(Number::I128(*v)),
            Scalar::Bool(v) => ScalarView::Bool(*v),
            Scalar::Null => ScalarView::Null,
        }
    }
}

impl<'input> View for Outcome<'input> {
    type V = OutcomeView;

    open spec fn view(&self) -> OutcomeView {
        match self {
            Outcome::Scalar(s) => OutcomeView::Scalar(s@),
            Outcome::ListStarted => OutcomeView::ListStarted,
            Outcome::ListEnded => OutcomeView::ListEnded,
            Outcome::ObjectStarted => OutcomeView::ObjectStarted,
            Outcome::ObjectEnded => OutcomeView::ObjectEnded,
        }
    }
}

impl<'input> Scalar<'input> {
    /// Whether this is a string that belongs to someone else.
    pub open spec fn borrows(&self) -> bool {
        self matches Scalar::String(s) && s is Borrowed
    }
}

impl<'input> Outcome<'input> {
    /// Whether this is a string that belongs to someone else.
    pub open spec fn borrows(&self) -> bool {
        self matches Outcome::Scalar(scalar) && scalar.borrows()
    }
}

impl<'input> Clone for Scalar<'input> {
    fn clone(&self) -> (r: Self)
        ensures
            r@ == self@,
            r.borrows() == self.borrows(),
    {
        match self {
            Scalar::String(Cow::Borrowed(s)) => Scalar::String(Cow::Borrowed(s)),
            Scalar::String(Cow::Owned(s)) => Scalar::String(Cow::Owned(s.clone())),
            Scalar::U64(val) => Scalar::U64(*val),
            Scalar::I64(val) => Scalar::I64(*val),
            Scalar::F64(val) => Scalar::F64(*val),
            Scalar::U128(val) => Scalar::U128(*val),
            Scalar::I128(val) => Scalar::I128(*val),
            Scalar::Bool(val) => Scalar::Bool(*val),
            Scalar::Null => Scalar::Null,
        }
    }
}

impl<'input> Clone for Outcome<'input> {
    fn clone(&self) -> (r: Self)
        ensures
            r@ == self@,
            r.borrows() == self.borrows(),
    {
        match self {
            Outcome::Scalar(scalar) => Outcome::Scalar(scalar.clone()),
            Outcome::ListStarted => Outcome::ListStarted,
            Outcome::ListEnded => Outcome::ListEnded,
            Outcome::ObjectStarted => Outcome::ObjectStarted,
            Outcome::ObjectEnded => Outcome::ObjectEnded,
        }
    }
}

impl<'input> vstd::std_specs::convert::FromSpecImpl<Scalar<'input>> for Outcome<'input> {
    open spec fn obeys_from_spec() -> bool {
        true
    }

    open spec fn from_spec(scalar: Scalar<'input>) -> Self {
        Outcome::Scalar(scalar)
    }
}

impl<'input> From<Scalar<'input>> for Outcome<'input> {
    fn from(scalar: Scalar<'input>) -> (r: Self) {
        Outcome::Scalar(scalar)
    }
}

/// The decimal digits of `n`, without leading zeros.
pub open spec fn decimal(n: nat) -> Seq<char>
    decreases n,
{
    if n < 10 {
        seq![digit(n)]
    } else {
        decimal(n / 10).push(digit(n % 10))
    }
}

/// The character of the decimal digit `d`.
pub open spec fn digit(d: nat) -> char {
    (48 + d) as char
}

/// The decimal digits of `n`, after a minus sign where it is negative.
pub open spec fn signed_decimal(n: int) -> Seq<char> {
    if n < 0 {
        "-"@ + decimal((-n) as nat)
    } else {
        decimal(n as nat)
    }
}

/// The text that describes a scalar to a user; `float` is the text of a floating-point number.
pub open spec fn scalar_text(scalar: ScalarView, float: Seq<char>) -> Seq<char> {
    match scalar {
        ScalarView::String(s) => "string \""@ + s + "\""@,
        ScalarView::Number(Number::U64(v)) => "u64 "@ + decimal(v as nat),
        ScalarView::Number(Number::I64(v)) => "i64 "@ + signed_decimal(v as int),
        ScalarView::Number(Number::F64(_)) => "f64 "@ + float,
        ScalarView::Number(Number::U128(v)) => "u128 "@ + decimal(v as nat),
        ScalarView::Number(Number::I128(v)) => "i128 "@ + signed_decimal(v as int),
        ScalarView::Bool(v) => if v {
            "bool true"@
        } else {
            "bool false"@
        },
        ScalarView::Null => "null"@,
    }
}

/// The text that describes an outcome to a user; `float` is the text of a floating-point number.
pub open spec fn outcome_text(outcome: OutcomeView, float: Seq<char>) -> Seq<char> {
    match outcome {
        OutcomeView::Scalar(scalar) => "scalar "@ + scalar_text(scalar, float),
        OutcomeView::ListStarted => "list start"@,
        OutcomeView::ListEnded => "list end"@,
        OutcomeView::ObjectStarted => "object start"@,
        OutcomeView::ObjectEnded => "object end"@,
    }
}

/// Appends the digit `d` to `out`.
fn append_digit(out: &mut String, d: u128)
    requires
        d < 10,
    ensures
        final(out)@ == old(out)@.push(digit(d as nat)),
{
    proof {
        reveal_strlit("0");
        reveal_strlit("1");
        reveal_strlit("2");
        reveal_strlit("3");
        reveal_strlit("4");
        reveal_strlit("5");
        reveal_strlit("6");
        reveal_strlit("7");
        reveal_strlit("8");
        reveal_strlit("9");
    }
    let text: &str = if d == 0 {
        "0"
    } else if d == 1 {
        "1"
    } else if d == 2 {
        "2"
    } else if d == 3 {
        "3"
    } else if d == 4 {
        "4"
    } else if d == 5 {
        "5"
    } else if d == 6 {
        "6"
    } else if d == 7 {
        "7"
    } else if d == 8 {
        "8"
    } else {
        "9"
    };
    assert(text@ == seq![digit(d as nat)]);
    out.append(text);
}

/// Appends the decimal digits of `n` to `out`.
fn append_decimal(out: &mut String, n: u128)
    ensures
        final(out)@ == old(out)@ + decimal(n as nat),
    decreases n,
{
    if n >= 10 {
        append_decimal(out, n / 10);
    }
    append_digit(out, n % 10);
}

/// Appends `n` in decimal to `out`.
fn append_signed(out: &mut String, n: i128)
    ensures
        final(out)@ == old(out)@ + signed_decimal(n as int),
{
    if n < 0 {
        out.append("-");
        append_decimal(out, magnitude(n));
        assert(out@ == old(out)@ + signed_decimal(n as int));
    } else {
        append_decimal(out, n as u128);
    }
}

/// Returns the absolute value of a negative number.
fn magnitude(n: i128) -> (r: u128)
    requires
        n < 0,
    ensures
        r == -n,
{
    (-(n + 1)) as u128 + 1
}

impl<'input> Scalar<'input> {
    /// Returns a description of this scalar for users, in which `float` stands for the text of a
    /// floating-point number.
    pub fn text(&self, float: &str) -> (r: String)
        ensures
            r@ == scalar_text(self@, float@),
    {
        let mut out = String::new();
        match self {
            Scalar::String(s) => {
                out.append("string \"");
                match s {
                    Cow::Borrowed(s) => out.append(s),
                    Cow::Owned(s) => out.append(s.as_str()),
                }
                out.append("\"");
                assert(out@ == scalar_text(self@, float@));
            },
            Scalar::U64(v) => {
                out.append("u64 ");
                append_decimal(&mut out, *v as u128);
                assert(out@ == scalar_text(self@, float@));
            },
            Scalar::I64(v) => {
                out.append("i64 ");
                append_signed(&mut out, *v as i128);
                assert(out@ == scalar_text(self@, float@));
            },
            Scalar::F64(_) => {
                out.append("f64 ");
                out.append(float);
                assert(out@ == scalar_text(self@, float@));
            },
            Scalar::U128(v) => {
                out.append("u128 ");
                append_decimal(&mut out, *v);
                assert(out@ == scalar_text(self@, float@));
            },
            Scalar::I128(v) => {
                out.append("i128 ");
                append_signed(&mut out, *v);
                assert(out@ == scalar_text(self@, float@));
            },
            Scalar::Bool(v) => {
                if *v {
                    out.append("bool true");
                } else {
                    out.append("bool false");
                }
                assert(out@ == scalar_text(self@, float@));
            },
            Scalar::Null => {
                out.append("null");
                assert(out@ == scalar_text(self@, float@));
            },
        }
        out
    }

    /// Returns the same scalar, with a string of its own.
    pub fn into_owned(self) -> (r: Scalar<'static>)
        ensures
            r@ == self@,
            !r.borrows(),
    {
        match self {
            Scalar::String(cow) => Scalar::String(Cow::Owned(owned_text(cow))),
            Scalar::U64(val) => Scalar::U64(val),
            Scalar::I64(val) => Scalar::I64(val),
            Scalar::F64(val) => Scalar::F64(val),
            Scalar::U128(val) => Scalar::U128(val),
            Scalar::I128(val) => Scalar::I128(val),
            Scalar::Bool(val) => Scalar::Bool(val),
            Scalar::Null => Scalar::Null,
        }
    }
}

impl<'input> Outcome<'input> {
    /// Returns a description of this outcome for users, in which `float` stands for the text of a
    /// floating-point number.
    pub fn text(&self, float: &str) -> (r: String)
        ensures
            r@ == outcome_text(self@, float@),
    {
        let mut out = String::new();
        match self {
            Outcome::Scalar(scalar) => {
                out.append("scalar ");
                let scalar_text = scalar.text(float);
                out.append(scalar_text.as_str());
            },
            Outcome::ListStarted => out.append("list start"),
            Outcome::ListEnded => out.append("list end"),
            Outcome::ObjectStarted => out.append("object start"),
            Outcome::ObjectEnded => out.append("object end"),
        }
        assert(out@ == outcome_text(self@, float@));
        out
    }

    /// Returns the same outcome, with a string of its own, so that it can outlive the input.
    pub fn into_owned(self) -> (r: Outcome<'static>)
        ensures
            r@ == self@,
            !r.borrows(),
    {
        match self {
            Outcome::Scalar(scalar) => Outcome::Scalar(scalar.into_owned()),
            Outcome::ListStarted => Outcome::ListStarted,
            Outcome::ListEnded => Outcome::ListEnded,
            Outcome::ObjectStarted => Outcome::ObjectStarted,
            Outcome::ObjectEnded => Outcome::ObjectEnded,
        }
    }
}

/// Returns the text of `cow` as a string of its own.
pub(crate) fn owned_text(cow: Cow<'_, str>) -> (r: String)
    ensures
        r@ == cow@,
{
    match cow {
        Cow::Borrowed(s) => s.to_owned(),
        Cow::Owned(s) => s,
    }
}

/// Returns the text of `cow`.
pub(crate) fn as_text<'a>(cow: &'a Cow<'_, str>) -> (r: &'a str)
    ensures
        r@ == cow@,
{
    match cow {
        Cow::Borrowed(s) => s,
        Cow::Owned(s) => s.as_str(),
    }
}

} // verus!
