//! Test data for the log parsers.

use vstd::prelude::*;
use vstd::string::*;

verus! {

/// The character for the digit `d`, for `d` below ten.
pub open spec fn digit(d: nat) -> char {
    ((48 + d) as u8) as char
}

/// The decimal numeral of `n`, without leading zeros.
pub open spec fn decimal(n: nat) -> Seq<char>
    decreases n,
{
    if n < 10 {
        seq![digit(n)]
    } else {
        decimal(n / 10).push(digit(n % 10))
    }
}

/// Line number `i` of the generated log, with its line feed.
pub open spec fn log_line(i: nat) -> Seq<char> {
    "2025-01-01T12:00:00|ERROR|Database connection failed|retry="@ + decimal(i)
        + "|timeout=30|attempt=1|user=admin|ip=127.0.0.1\n"@
}

/// The first `lines` lines of the generated log.
pub open spec fn log_data(lines: nat) -> Seq<char>
    decreases lines,
{
    if lines == 0 {
        Seq::empty()
    } else {
        log_data((lines - 1) as nat) + log_line((lines - 1) as nat)
    }
}

/// The text of the digit `d`.
fn digit_text(d: usize) -> (text: &'static str)
    requires
        d < 10,
    ensures
        text@ == seq![digit(d as nat)],
{
    proof {
        reveal_strlit("0");
        reveal_strlit("1");
        reveal_strlit("2");
        reveal_strlit("3");
        reveal_strlit("4");
        reveal_strlit("5");
        reveal_strlit("6");
        reveal_strlit("7");
        reveal_strlit("8");
        reveal_strlit("9");
    }
    let text = if d == 0 {
        "0"
    } else if d == 1 {
        "1"
    } else if d == 2 {
        "2"
    } else if d == 3 {
        "3"
    } else if d == 4 {
        "4"
    } else if d == 5 {
        "5"
    } else if d == 6 {
        "6"
    } else if d == 7 {
        "7"
    } else if d == 8 {
        "8"
    } else {
        "9"
    };
    assert(text@ =~= seq![digit(d as nat)]);
    text
}

/// Appends the decimal numeral of `n` to `text`.
fn push_decimal(text: &mut String, n: usize)
    ensures
        final(text)@ == old(text)@ + decimal(n as nat),
    decreases n,
{
    if n >= 10 {
        push_decimal(text, n / 10);
    }
    text.append(digit_text(n % 10));
    proof {
        if n >= 10 {
            assert(text@ =~= old(text)@ + decimal((n / 10) as nat).push(digit((n % 10) as nat)));
        } else {
            assert(text@ =~= old(text)@ + seq![digit(n as nat)]);
        }
    }
}

/// Generates a log of `lines` lines for the parsers to work on. Every line
/// is one entry with five metadata fields, and the lines differ in the value
/// of `retry`, which is the number of the line, counted from zero.
pub fn generate_log_data(lines: usize) -> (data: String)
    ensures
        data@ == log_data(lines as nat),
{
    let mut data = String::new();
    let mut i: usize = 0;
    while i < lines
        invariant
            i <= lines,
            data@ == log_data(i as nat),
        decreases lines - i,
    {
        let ghost before = data@;
        data.append("2025-01-01T12:00:00|ERROR|Database connection failed|retry=");
        push_decimal(&mut data, i);
        data.append("|timeout=30|attempt=1|user=admin|ip=127.0.0.1\n");
        proof {
            assert(data@ =~= before + log_line(i as nat));
        }
        i += 1;
    }
    data
}

} // verus!
