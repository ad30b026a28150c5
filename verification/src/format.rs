//! Human-readable rendering of byte counts.

use vstd::prelude::*;
use vstd::string::*;

verus! {

/// The decimal digit character for `d`, for `d` below ten.
pub open spec fn digit_char(d: nat) -> char {
    if d == 0 {
        '0'
    } else if d == 1 {
        '1'
    } else if d == 2 {
        '2'
    } else if d == 3 {
        '3'
    } else if d == 4 {
        '4'
    } else if d == 5 {
        '5'
    } else if d == 6 {
        '6'
    } else if d == 7 {
        '7'
    } else if d == 8 {
        '8'
    } else {
        '9'
    }
}

/// The decimal representation of `n`, most significant digit first, without
/// leading zeros (zero itself is `"0"`).
pub open spec fn decimal(n: nat) -> Seq<char>
    decreases n,
{
    if n < 10 {
        seq![digit_char(n)]
    } else {
        decimal(n / 10).push(digit_char(n % 10))
    }
}

/// `bytes` expressed in units of `unit_size` with one truncated decimal place,
/// followed by the unit's name.
pub open spec fn scaled_text(bytes: nat, unit_size: nat, unit: Seq<char>) -> Seq<char> {
    decimal(bytes / unit_size) + seq!['.'] + decimal((bytes % unit_size) * 10 / unit_size) + unit
}

/// The text that [`kmgt`] produces for `bytes`.
pub open spec fn kmgt_text(bytes: nat) -> Seq<char> {
    if bytes < 1024 {
        decimal(bytes) + " B"@
    } else if bytes < 1024 * 1024 {
        scaled_text(bytes, 1024, " kiB"@)
    } else if bytes < 1024 * 1024 * 1024 {
        scaled_text(bytes, 1024 * 1024, " MiB"@)
    } else if bytes < 1024 * 1024 * 1024 * 1024 {
        scaled_text(bytes, 1024 * 1024 * 1024, " GiB"@)
    } else {
        scaled_text(bytes, 1024 * 1024 * 1024 * 1024, " TiB"@)
    }
}

fn digit_str(d: u64) -> (s: &'static str)
    requires
        d < 10,
    ensures
        s@ == seq![digit_char(d as nat)],
{
    proof {
        reveal_strlit("0");
        reveal_strlit("1");
        reveal_strlit("2");
        reveal_strlit("3");
        reveal_strlit("4");
        reveal_strlit("5");
        reveal_strlit("6");
        reveal_strlit("7");
        reveal_strlit("8");
        reveal_strlit("9");
    }
    let s = if d == 0 {
        "0"
    } else if d == 1 {
        "1"
    } else if d == 2 {
        "2"
    } else if d == 3 {
        "3"
    } else if d == 4 {
        "4"
    } else if d == 5 {
        "5"
    } else if d == 6 {
        "6"
    } else if d == 7 {
        "7"
    } else if d == 8 {
        "8"
    } else {
        "9"
    };
    assert(s@ =~= seq![digit_char(d as nat)]);
    s
}

/// Appends the decimal representation of `n` to `out`.
pub fn push_decimal(out: &mut String, n: u64)
    ensures
        final(out)@ == old(out)@ + decimal(n as nat),
    decreases n,
{
    if n >= 10 {
        push_decimal(out, n / 10);
    }
    out.append(digit_str(n % 10));
    assert(final(out)@ =~= old(out)@ + decimal(n as nat));
}

fn push_scaled(out: &mut String, bytes: u64, unit_size: u64, unit: &str)
    requires
        0 < unit_size <= 0x100_0000_0000,
    ensures
        final(out)@ == old(out)@ + scaled_text(bytes as nat, unit_size as nat, unit@),
{
    let tenths: u64 = (bytes % unit_size) * 10 / unit_size;
    push_decimal(out, bytes / unit_size);
    out.append(".");
    push_decimal(out, tenths);
    out.append(unit);
    proof {
        reveal_strlit(".");
        assert("."@ =~= seq!['.']);
        assert(final(out)@ =~= old(out)@ + scaled_text(bytes as nat, unit_size as nat, unit@));
    }
}

/// Renders a byte count for people: plain bytes below 1024, otherwise the
/// largest binary unit up to TiB that keeps the whole part at least one, with
/// one decimal place that is truncated, not rounded.
pub fn kmgt(bytes: u64) -> (text: String)
    ensures
        text@ == kmgt_text(bytes as nat),
{
    let mut text = String::new();
    if bytes < 1024 {
        push_decimal(&mut text, bytes);
        text.append(" B");
        assert(text@ =~= kmgt_text(bytes as nat));
    } else if bytes < 1024 * 1024 {
        push_scaled(&mut text, bytes, 1024, " kiB");
        assert(text@ =~= kmgt_text(bytes as nat));
    } else if bytes < 1024 * 1024 * 1024 {
        push_scaled(&mut text, bytes, 1024 * 1024, " MiB");
        assert(text@ =~= kmgt_text(bytes as nat));
    } else if bytes < 1024 * 1024 * 1024 * 1024 {
        push_scaled(&mut text, bytes, 1024 * 1024 * 1024, " GiB");
        assert(text@ =~= kmgt_text(bytes as nat));
    } else {
        push_scaled(&mut text, bytes, 1024 * 1024 * 1024 * 1024, " TiB");
        assert(text@ =~= kmgt_text(bytes as nat));
    }
    text
}

/// A row of the duplicate list: the duplicate's path in quotes, the size,
/// and the path of the file that stays, in quotes.
pub open spec fn csv_text(duplicate: Seq<char>, size: nat, survivor: Seq<char>) -> Seq<char> {
    seq!['"'] + duplicate + seq!['"', ','] + decimal(size) + seq![',', '"'] + survivor + seq!['"']
}

/// Renders one row of the duplicate list. Paths are written as they are.
pub fn csv_row(duplicate: &str, size: u64, survivor: &str) -> (row: String)
    ensures
        row@ == csv_text(duplicate@, size as nat, survivor@),
{
    proof {
        reveal_strlit("\"");
        reveal_strlit("\",");
        reveal_strlit(",\"");
    }
    let mut row = String::from_str("\"");
    row.append(duplicate);
    row.append("\",");
    push_decimal(&mut row, size);
    row.append(",\"");
    row.append(survivor);
    row.append("\"");
    assert("\""@ =~= seq!['"']);
    assert("\","@ =~= seq!['"', ',']);
    assert(",\""@ =~= seq![',', '"']);
    assert(row@ =~= csv_text(duplicate@, size as nat, survivor@));
    row
}

/// A line of the duplicate report: the path of the file that stays, an
/// arrow, and the duplicate's path, both in quotes.
pub open spec fn report_text(survivor: Seq<char>, duplicate: Seq<char>) -> Seq<char> {
    seq!['"'] + survivor + seq!['"', ' ', '=', '>', ' ', '"'] + duplicate + seq!['"']
}

/// Renders one line of the duplicate report.
pub fn report_line(survivor: &str, duplicate: &str) -> (line: String)
    ensures
        line@ == report_text(survivor@, duplicate@),
{
    proof {
        reveal_strlit("\"");
        reveal_strlit("\" => \"");
    }
    let mut line = String::from_str("\"");
    line.append(survivor);
    line.append("\" => \"");
    line.append(duplicate);
    line.append("\"");
    assert("\""@ =~= seq!['"']);
    assert("\" => \""@ =~= seq!['"', ' ', '=', '>', ' ', '"']);
    assert(line@ =~= report_text(survivor@, duplicate@));
    line
}

} // verus!
