//! The output table: one header line, then one line for each solution, the
//! fields separated by tabs.

use vstd::prelude::*;
use vstd::string::StringExecFns;
use crate::progress::{append_decimal, decimal_digits};
use crate::structs::solutions::Solution;
use crate::useful::Orientation;

verus! {

/// The header line of the output table.
pub open spec fn header_text() -> Seq<char> {
    "idA\tidB\tO\tOHA\tOHB\tOLA\tOLB\tK\n"@
}

/// A signed number in decimal digits, with `-` in front where it is
/// negative.
pub open spec fn signed_digits(x: int) -> Seq<char> {
    if x < 0 {
        "-"@ + decimal_digits((-x) as nat)
    } else {
        decimal_digits(x as nat)
    }
}

/// The letter of an orientation as text.
pub open spec fn orientation_text(o: Orientation) -> Seq<char> {
    match o {
        Orientation::Normal => "N"@,
        Orientation::Reversed => "I"@,
    }
}

/// The line of a solution: the names of its two sequences, the letter of
/// its orientation, the two overhangs, the two overlap lengths and the
/// number of errors.
pub open spec fn row_text(s: Solution, name_a: Seq<char>, name_b: Seq<char>) -> Seq<char> {
    name_a + "\t"@ + name_b + "\t"@ + orientation_text(s.orientation) + "\t"@ + signed_digits(
        s.overhang_left_a as int,
    ) + "\t"@ + signed_digits(s.overhang_right_b as int) + "\t"@ + decimal_digits(
        s.overlap_a as nat,
    ) + "\t"@ + decimal_digits(s.overlap_b as nat) + "\t"@ + decimal_digits(s.errors as nat)
        + "\n"@
}

/// The header line of the output table.
pub fn header_line() -> (r: String)
    ensures
        r@ == header_text(),
{
    String::from_str("idA\tidB\tO\tOHA\tOHB\tOLA\tOLB\tK\n")
}

fn append_signed(text: &mut String, x: i32)
    ensures
        final(text)@ == old(text)@ + signed_digits(x as int),
{
    if x < 0 {
        text.append("-");
        append_decimal(text, (-(x as i64)) as u64);
        assert(text@ =~= old(text)@ + signed_digits(x as int));
    } else {
        append_decimal(text, x as u64);
    }
}

/// The line of a solution in the output table.
pub fn solution_row(s: &Solution, name_a: &str, name_b: &str) -> (r: String)
    ensures
        r@ == row_text(*s, name_a@, name_b@),
{
    let mut text: String = String::from_str(name_a);
    text.append("\t");
    text.append(name_b);
    text.append("\t");
    match s.orientation {
        Orientation::Normal => text.append("N"),
        Orientation::Reversed => text.append("I"),
    }
    text.append("\t");
    append_signed(&mut text, s.overhang_left_a);
    text.append("\t");
    append_signed(&mut text, s.overhang_right_b);
    text.append("\t");
    append_decimal(&mut text, s.overlap_a as u64);
    text.append("\t");
    append_decimal(&mut text, s.overlap_b as u64);
    text.append("\t");
    append_decimal(&mut text, s.errors as u64);
    text.append("\n");
    assert(text@ =~= row_text(*s, name_a@, name_b@));
    text
}

} // verus!
