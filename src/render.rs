//! The report as text: a header line, then one line per entry.
use vstd::prelude::*;
use vstd::string::*;

use crate::tally::RankedEntry;

verus! {

/// The character of a decimal digit.
pub open spec fn digit_char(d: nat) -> char {
    if d == 0 {
        '0'
    } else if d == 1 {
        '1'
    } else if d == 2 {
        '2'
    } else if d == 3 {
        '3'
    } else if d == 4 {
        '4'
    } else if d == 5 {
        '5'
    } else if d == 6 {
        '6'
    } else if d == 7 {
        '7'
    } else if d == 8 {
        '8'
    } else {
        '9'
    }
}

/// `n` written in decimal, without leading zeros.
pub open spec fn decimal(n: nat) -> Seq<char>
    decreases n,
{
    if n < 10 {
        seq![digit_char(n)]
    } else {
        decimal(n / 10).push(digit_char(n % 10))
    }
}

/// The line of an entry at a 1-based rank: rank, extension and count,
/// separated by single spaces.
pub open spec fn line_of(rank: nat, entry: (Seq<char>, nat)) -> Seq<char> {
    decimal(rank) + seq![' '] + entry.0 + seq![' '] + decimal(entry.1)
}

/// The header line of a report.
pub open spec fn header() -> Seq<char> {
    seq!['T', 'o', 'p', ' ', 'E', 'x', 't', ' ', 'C', 'o', 'u', 'n', 't']
}

fn digit_str(d: usize) -> (r: &'static str)
    requires
        d < 10,
    ensures
        r@ == seq![digit_char(d as nat)],
{
    proof {
        reveal_strlit("0");
        reveal_strlit("1");
        reveal_strlit("2");
        reveal_strlit("3");
        reveal_strlit("4");
        reveal_strlit("5");
        reveal_strlit("6");
        reveal_strlit("7");
        reveal_strlit("8");
        reveal_strlit("9");
    }
    let r = if d == 0 {
        "0"
    } else if d == 1 {
        "1"
    } else if d == 2 {
        "2"
    } else if d == 3 {
        "3"
    } else if d == 4 {
        "4"
    } else if d == 5 {
        "5"
    } else if d == 6 {
        "6"
    } else if d == 7 {
        "7"
    } else if d == 8 {
        "8"
    } else {
        "9"
    };
    assert(r@ =~= seq![digit_char(d as nat)]);
    r
}

/// Appends `n` in decimal to `out`.
pub fn push_decimal(out: &mut String, n: usize)
    ensures
        final(out)@ == old(out)@ + decimal(n as nat),
    decreases n,
{
    if n >= 10 {
        push_decimal(out, n / 10);
    }
    out.append(digit_str(n % 10));
    assert(final(out)@ =~= old(out)@ + decimal(n as nat));
}

/// The line of `entry` at the 1-based `rank`.
pub fn render_line(rank: usize, entry: &RankedEntry) -> (r: String)
    ensures
        r@ == line_of(rank as nat, entry@),
{
    let mut r = String::new();
    push_decimal(&mut r, rank);
    proof {
        reveal_strlit(" ");
    }
    r.append(" ");
    r.append(entry.extension.as_str());
    r.append(" ");
    push_decimal(&mut r, entry.count);
    assert(r@ =~= line_of(rank as nat, entry@));
    r
}

/// The lines of a report: the header, then each entry under its rank,
/// counted from one.
pub fn render_report(entries: &Vec<RankedEntry>) -> (r: Vec<String>)
    requires
        entries@.len() < usize::MAX,
    ensures
        r@.len() == entries@.len() + 1,
        r@[0]@ == header(),
        forall|i: int| 0 <= i < entries@.len() ==> #[trigger] r@[i + 1]@ == line_of(
            (i + 1) as nat,
            entries@[i]@,
        ),
{
    let mut r: Vec<String> = Vec::new();
    proof {
        reveal_strlit("Top Ext Count");
    }
    let head = String::from_str("Top Ext Count");
    assert(head@ =~= header());
    r.push(head);
    let mut i: usize = 0;
    while i < entries.len()
        invariant
            i <= entries@.len() < usize::MAX,
            r@.len() == i + 1,
            r@[0]@ == header(),
            forall|j: int| 0 <= j < i ==> #[trigger] r@[j + 1]@ == line_of((j + 1) as nat, entries@[j]@),
        decreases entries@.len() - i,
    {
        r.push(render_line(i + 1, &entries[i]));
        i = i + 1;
    }
    r
}

} // verus!
