//! Diagnostic text: decimal rendering of numbers and the panic report.
//!
//! The boot console can only emit bytes, so every diagnostic line is built
//! here as a plain string and handed to the console driver; the fatal path
//! prints the report and halts, which is the caller's part.

use vstd::prelude::*;
use vstd::string::StringExecFns;
use vstd::string::StrSliceExecFns;

verus! {

/// The decimal digit character for one digit value.
pub open spec fn dec_digit(d: int) -> char {
    if d == 0 {
        '0'
    } else if d == 1 {
        '1'
    } else if d == 2 {
        '2'
    } else if d == 3 {
        '3'
    } else if d == 4 {
        '4'
    } else if d == 5 {
        '5'
    } else if d == 6 {
        '6'
    } else if d == 7 {
        '7'
    } else if d == 8 {
        '8'
    } else {
        '9'
    }
}

/// The decimal rendering of a non-negative number, most significant digit
/// first, with no leading zeroes (zero itself renders as one digit).
pub open spec fn dec_chars(n: int) -> Seq<char>
    decreases n,
{
    if n < 10 {
        seq![dec_digit(n)]
    } else {
        dec_chars(n / 10).push(dec_digit(n % 10))
    }
}

/// One decimal digit as a string slice.
fn digit_str(d: usize) -> (r: &'static str)
    requires
        d < 10,
    ensures
        r@ == seq![dec_digit(d as int)],
{
    proof {
        reveal_strlit("0");
        reveal_strlit("1");
        reveal_strlit("2");
        reveal_strlit("3");
        reveal_strlit("4");
        reveal_strlit("5");
        reveal_strlit("6");
        reveal_strlit("7");
        reveal_strlit("8");
        reveal_strlit("9");
    }
    let r: &'static str = match d {
        0 => "0",
        1 => "1",
        2 => "2",
        3 => "3",
        4 => "4",
        5 => "5",
        6 => "6",
        7 => "7",
        8 => "8",
        _ => "9",
    };
    proof {
        assert(r@ =~= seq![dec_digit(d as int)]);
    }
    r
}

/// Renders a number in decimal, most significant digit first.
pub fn usize_to_string(n: usize) -> (r: String)
    ensures
        r@ == dec_chars(n as int),
    decreases n,
{
    if n < 10 {
        String::from_str(digit_str(n))
    } else {
        let mut s = usize_to_string(n / 10);
        s.append(digit_str(n % 10));
        s
    }
}

/// Builds the diagnostic report that the fatal path prints before halting:
/// the panic message in quotes and the source location it came from. There
/// is no supervisor to return to and no stack to unwind across a paging
/// switch, so after printing this the core can only spin.
pub fn panic(message: &str, file: &str, line: usize, column: usize) -> (r: String)
    ensures
        r@ == "Panicked with message: \""@ + message@ + "\" at "@ + file@ + ":"@ + dec_chars(
            line as int,
        ) + ":"@ + dec_chars(column as int) + "\n"@,
{
    let mut r = String::from_str("Panicked with message: \"");
    r.append(message);
    r.append("\" at ");
    r.append(file);
    r.append(":");
    let line_s = usize_to_string(line);
    r.append(line_s.as_str());
    r.append(":");
    let col_s = usize_to_string(column);
    r.append(col_s.as_str());
    r.append("\n");
    r
}

} // verus!
