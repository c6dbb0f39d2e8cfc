//! The texts that describe scalars and outcomes to users.
use crate::numeric::{Float64, Number};
use crate::scalar::{self, OutcomeView, ScalarView};
use vstd::prelude::*;

verus! {

/// The number that the decimal digits `digits` are read as.
pub open spec fn number_read(digits: Seq<char>) -> int
    decreases digits.len(),
{
    if digits.len() == 0 {
        0
    } else {
        10 * number_read(digits.drop_last()) + (digits.last() as int - '0' as int)
    }
}

/// Whether `digits` is a number in decimal: digits alone, at least one, and the first is no zero
/// unless it is the only one.
pub open spec fn is_decimal(digits: Seq<char>) -> bool {
    &&& digits.len() > 0
    &&& forall|i: int| 0 <= i < digits.len() ==> '0' <= #[trigger] digits[i] <= '9'
    &&& digits.len() > 1 ==> digits[0] != '0'
}

/// A number in decimal is read as that number.
pub proof fn a_number_in_decimal_is_read_as_that_number(n: nat)
    ensures
        is_decimal(scalar::decimal(n)),
        number_read(scalar::decimal(n)) == n,
        n > 0 ==> scalar::decimal(n)[0] != '0',
    decreases n,
{
    if n < 10 {
        let digits = seq![scalar::digit(n)];
        assert(digits.drop_last() =~= Seq::empty());
        assert(number_read(digits.drop_last()) == 0);
    } else {
        a_number_in_decimal_is_read_as_that_number(n / 10);
        let digits = scalar::decimal(n);
        assert(digits.drop_last() =~= scalar::decimal(n / 10));
        assert(digits.last() == scalar::digit(n % 10));
    }
}

/// A negative number in decimal is a minus sign, and then its absolute value.
pub proof fn a_negative_number_has_a_minus_sign(n: int)
    ensures
        n >= 0 ==> is_decimal(scalar::signed_decimal(n)) && number_read(scalar::signed_decimal(n))
            == n,
        n < 0 ==> {
            let text = scalar::signed_decimal(n);
            &&& text.len() > 1
            &&& text[0] == '-'
            &&& is_decimal(text.skip(1))
            &&& number_read(text.skip(1)) == -n
        },
{
    reveal_strlit("-");
    if n >= 0 {
        a_number_in_decimal_is_read_as_that_number(n as nat);
    } else {
        a_number_in_decimal_is_read_as_that_number((-n) as nat);
        assert(scalar::signed_decimal(n).skip(1) =~= scalar::decimal((-n) as nat));
    }
}

/// A text with a label is the label and what comes after it.
proof fn lemma_labelled(label: Seq<char>, rest: Seq<char>)
    ensures
        (label + rest).take(label.len() as int) == label,
        (label + rest).skip(label.len() as int) == rest,
{
    assert((label + rest).take(label.len() as int) =~= label);
    assert((label + rest).skip(label.len() as int) =~= rest);
}

/// The text of an unsigned number says its type, and then the number.
pub proof fn the_text_of_an_unsigned_number(u: u64, v: u128, float: Seq<char>)
    ensures
        ({
            let text = scalar::scalar_text(ScalarView::Number(Number::U64(u)), float);
            &&& text.take(4) == "u64 "@
            &&& is_decimal(text.skip(4)) && number_read(text.skip(4)) == u
        }),
        ({
            let text = scalar::scalar_text(ScalarView::Number(Number::U128(v)), float);
            &&& text.take(5) == "u128 "@
            &&& is_decimal(text.skip(5)) && number_read(text.skip(5)) == v
        }),
{
    reveal_strlit("u64 ");
    reveal_strlit("u128 ");
    a_number_in_decimal_is_read_as_that_number(u as nat);
    a_number_in_decimal_is_read_as_that_number(v as nat);
    lemma_labelled("u64 "@, scalar::decimal(u as nat));
    lemma_labelled("u128 "@, scalar::decimal(v as nat));
}

/// Whether `text` is the number `n` in decimal, after a minus sign where it is negative.
pub open spec fn reads_as(text: Seq<char>, n: int) -> bool {
    if n < 0 {
        text.len() > 1 && text[0] == '-' && is_decimal(text.skip(1)) && number_read(text.skip(1))
            == -n
    } else {
        is_decimal(text) && number_read(text) == n
    }
}

/// The text of a signed number says its type, and then the number.
pub proof fn the_text_of_a_signed_number(i: i64, w: i128, float: Seq<char>)
    ensures
        ({
            let text = scalar::scalar_text(ScalarView::Number(Number::I64(i)), float);
            &&& text.take(4) == "i64 "@
            &&& reads_as(text.skip(4), i as int)
        }),
        ({
            let text = scalar::scalar_text(ScalarView::Number(Number::I128(w)), float);
            &&& text.take(5) == "i128 "@
            &&& reads_as(text.skip(5), w as int)
        }),
{
    reveal_strlit("i64 ");
    reveal_strlit("i128 ");
    a_negative_number_has_a_minus_sign(i as int);
    a_negative_number_has_a_minus_sign(w as int);
    lemma_labelled("i64 "@, scalar::signed_decimal(i as int));
    lemma_labelled("i128 "@, scalar::signed_decimal(w as int));
}

/// The text of a string has the string in quotes, as it is, and that of a floating-point number the
/// text that was given for it. A `bool` and a null are told by their names.
pub proof fn the_text_of_what_is_no_integer(s: Seq<char>, v: Float64, float: Seq<char>)
    ensures
        ({
            let text = scalar::scalar_text(ScalarView::String(s), float);
            &&& text.len() == s.len() + 9
            &&& text.take(8) == "string \""@
            &&& text.subrange(8, 8 + s.len() as int) == s
            &&& text.last() == '"'
        }),
        ({
            let text = scalar::scalar_text(ScalarView::Number(Number::F64(v)), float);
            &&& text.take(4) == "f64 "@
            &&& text.skip(4) == float
        }),
        scalar::scalar_text(ScalarView::Bool(true), float) == "bool true"@,
        scalar::scalar_text(ScalarView::Bool(false), float) == "bool false"@,
        scalar::scalar_text(ScalarView::Null, float) == "null"@,
{
    reveal_strlit("string \"");
    reveal_strlit("\"");
    reveal_strlit("f64 ");
    let text = scalar::scalar_text(ScalarView::String(s), float);
    assert(text.take(8) =~= "string \""@);
    assert(text.subrange(8, 8 + s.len() as int) =~= s);
    lemma_labelled("f64 "@, float);
}

/// The text of an outcome that is a scalar says so, and then the text of the scalar. The others are
/// told by their names.
pub proof fn the_text_of_an_outcome(view: ScalarView, float: Seq<char>)
    ensures
        ({
            let text = scalar::outcome_text(OutcomeView::Scalar(view), float);
            &&& text.take(7) == "scalar "@
            &&& text.skip(7) == scalar::scalar_text(view, float)
        }),
        scalar::outcome_text(OutcomeView::ListStarted, float) == "list start"@,
        scalar::outcome_text(OutcomeView::ListEnded, float) == "list end"@,
        scalar::outcome_text(OutcomeView::ObjectStarted, float) == "object start"@,
        scalar::outcome_text(OutcomeView::ObjectEnded, float) == "object end"@,
{
    reveal_strlit("scalar ");
    lemma_labelled("scalar "@, scalar::scalar_text(view, float));
}

} // verus!
