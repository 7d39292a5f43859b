//! Naming the report file that the interactive browser exports.

use vstd::prelude::*;
use crate::text::{concat, push_char};

verus! {

/// The decimal digit `d`.
pub open spec fn digit(d: nat) -> char {
    seq!['0', '1', '2', '3', '4', '5', '6', '7', '8', '9'][d as int]
}

/// The decimal numeral of `n`, without leading zeros.
pub open spec fn decimal(n: nat) -> Seq<char>
    decreases n,
{
    if n < 10 {
        seq![digit(n)]
    } else {
        decimal(n / 10).push(digit(n % 10))
    }
}

fn digit_char(d: u64) -> (c: char)
    requires
        d < 10,
    ensures
        c == digit(d as nat),
{
    match d {
        0 => '0',
        1 => '1',
        2 => '2',
        3 => '3',
        4 => '4',
        5 => '5',
        6 => '6',
        7 => '7',
        8 => '8',
        _ => '9',
    }
}

/// Appends the decimal numeral of `n`.
pub fn push_decimal(s: &mut String, n: u64)
    ensures
        final(s)@ == old(s)@ + decimal(n as nat),
    decreases n,
{
    if n >= 10 {
        push_decimal(s, n / 10);
    }
    push_char(s, digit_char(n % 10));
    assert(final(s)@ =~= old(s)@ + decimal(n as nat));
}

/// The default name of an exported report.
pub open spec fn default_report_name() -> Seq<char> {
    "gradlens-report.txt"@
}

/// The name an export uses: the default one, unless a file of that name
/// exists, then one stamped with `timestamp`.
pub open spec fn report_name(default_exists: bool, timestamp: u64) -> Seq<char> {
    if default_exists {
        "gradlens-report-"@ + decimal(timestamp as nat) + ".txt"@
    } else {
        default_report_name()
    }
}

/// The file name an interactive export writes to; see `report_name`.
pub fn tui_report_name(default_exists: bool, timestamp: u64) -> (r: String)
    ensures
        r@ == report_name(default_exists, timestamp),
{
    proof {
        reveal_strlit("gradlens-report.txt");
        reveal_strlit("gradlens-report-");
        reveal_strlit(".txt");
    }
    if !default_exists {
        return "gradlens-report.txt".to_owned();
    }
    let mut r = "gradlens-report-".to_owned();
    push_decimal(&mut r, timestamp);
    concat(r.as_str(), ".txt")
}

} // verus!
