//! How a duration is shown to the operator.

use vstd::prelude::*;
use vstd::string::StringExecFns;

verus! {

/// The character of a decimal digit.
pub open spec fn digit_char(d: int) -> char {
    if d == 0 {
        '0'
    } else if d == 1 {
        '1'
    } else if d == 2 {
        '2'
    } else if d == 3 {
        '3'
    } else if d == 4 {
        '4'
    } else if d == 5 {
        '5'
    } else if d == 6 {
        '6'
    } else if d == 7 {
        '7'
    } else if d == 8 {
        '8'
    } else {
        '9'
    }
}

/// The decimal digits of a number, without leading zeros.
pub open spec fn decimal_digits(x: nat) -> Seq<char>
    decreases x,
{
    if x < 10 {
        seq![digit_char(x as int)]
    } else {
        decimal_digits(x / 10).push(digit_char((x % 10) as int))
    }
}

/// A duration in seconds in a unit that keeps the number small: seconds
/// below 200, minutes below two hours, hours below 100, weeks below three,
/// months (of 30 days) below four, then, below five years, again the number
/// of 30-day months, labelled as years. Days are shown below three days,
/// all of which the hours take first.
pub open spec fn time_text(sec: u64) -> Seq<char> {
    if sec == 0 {
        "< 1 sec"@
    } else if sec < 200 {
        "~"@ + decimal_digits(sec as nat) + " sec"@
    } else if sec < 60 * 120 {
        "~"@ + decimal_digits((sec / 60) as nat) + " min"@
    } else if sec < 60 * 60 * 100 {
        "~"@ + decimal_digits((sec / 60 / 60) as nat) + " hrs"@
    } else if sec < 60 * 60 * 24 * 3 {
        "~"@ + decimal_digits((sec / 60 / 60 / 24) as nat) + " days"@
    } else if sec < 60 * 60 * 24 * 7 * 3 {
        "~"@ + decimal_digits((sec / 60 / 60 / 24 / 7) as nat) + " weeks"@
    } else if sec < 60 * 60 * 24 * 30 * 4 {
        "~"@ + decimal_digits((sec / 60 / 60 / 24 / 30) as nat) + " months"@
    } else if sec < 60 * 60 * 24 * 365 * 5 {
        "~"@ + decimal_digits((sec / 60 / 60 / 24 / 30) as nat) + " years"@
    } else {
        "eternity"@
    }
}

fn digit_text(d: u64) -> (r: &'static str)
    requires
        d < 10,
    ensures
        r@ == seq![digit_char(d as int)],
{
    proof {
        reveal_strlit("0");
        reveal_strlit("1");
        reveal_strlit("2");
        reveal_strlit("3");
        reveal_strlit("4");
        reveal_strlit("5");
        reveal_strlit("6");
        reveal_strlit("7");
        reveal_strlit("8");
        reveal_strlit("9");
    }
    let r: &'static str = if d == 0 {
        "0"
    } else if d == 1 {
        "1"
    } else if d == 2 {
        "2"
    } else if d == 3 {
        "3"
    } else if d == 4 {
        "4"
    } else if d == 5 {
        "5"
    } else if d == 6 {
        "6"
    } else if d == 7 {
        "7"
    } else if d == 8 {
        "8"
    } else {
        "9"
    };
    assert(r@ =~= seq![digit_char(d as int)]);
    r
}

/// Appends the decimal digits of `x` to `text`.
pub fn append_decimal(text: &mut String, x: u64)
    ensures
        final(text)@ == old(text)@ + decimal_digits(x as nat),
    decreases x,
{
    if x >= 10 {
        append_decimal(text, x / 10);
    }
    let ghost at_entry = text@;
    text.append(digit_text(x % 10));
    proof {
        if x >= 10 {
            assert(text@ =~= old(text)@ + decimal_digits((x / 10) as nat).push(
                digit_char((x % 10) as int),
            ));
        } else {
            assert(text@ =~= old(text)@ + seq![digit_char(x as int)]);
        }
    }
}

fn labelled(x: u64, unit: &str) -> (r: String)
    ensures
        r@ == "~"@ + decimal_digits(x as nat) + unit@,
{
    let mut text: String = String::from_str("~");
    append_decimal(&mut text, x);
    text.append(unit);
    text
}

/// Shows a duration in seconds: see [`time_text`].
pub fn time_display(sec: u64) -> (r: String)
    ensures
        r@ == time_text(sec),
{
    if sec == 0 {
        String::from_str("< 1 sec")
    } else if sec < 200 {
        labelled(sec, " sec")
    } else if sec < 60 * 120 {
        labelled(sec / 60, " min")
    } else if sec < 60 * 60 * 100 {
        labelled(sec / 60 / 60, " hrs")
    } else if sec < 60 * 60 * 24 * 3 {
        labelled(sec / 60 / 60 / 24, " days")
    } else if sec < 60 * 60 * 24 * 7 * 3 {
        labelled(sec / 60 / 60 / 24 / 7, " weeks")
    } else if sec < 60 * 60 * 24 * 30 * 4 {
        labelled(sec / 60 / 60 / 24 / 30, " months")
    } else if sec < 60 * 60 * 24 * 365 * 5 {
        labelled(sec / 60 / 60 / 24 / 30, " years")
    } else {
        String::from_str("eternity")
    }
}

} // verus!
