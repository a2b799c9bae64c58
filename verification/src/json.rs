//! JSON rendering of match records, with string escaping.

use crate::records::{MatchRecord, Position, RecordModel};
use crate::text::{dec_str, push_dec, push_str_chars};
use vstd::prelude::*;

verus! {

/// The character for one hexadecimal digit.
pub open spec fn hex_digit(d: nat) -> char {
    if d == 0 {
        '0'
    } else if d == 1 {
        '1'
    } else if d == 2 {
        '2'
    } else if d == 3 {
        '3'
    } else if d == 4 {
        '4'
    } else if d == 5 {
        '5'
    } else if d == 6 {
        '6'
    } else if d == 7 {
        '7'
    } else if d == 8 {
        '8'
    } else if d == 9 {
        '9'
    } else if d == 10 {
        'a'
    } else if d == 11 {
        'b'
    } else if d == 12 {
        'c'
    } else if d == 13 {
        'd'
    } else if d == 14 {
        'e'
    } else {
        'f'
    }
}

/// The JSON escape of one character: quote and backslash get a backslash,
/// common control characters their short escape, other control characters a
/// `\u00XX` escape, everything else stands as itself.
pub open spec fn esc_char(c: char) -> Seq<char> {
    if c == '"' {
        seq!['\\', '"']
    } else if c == '\\' {
        seq!['\\', '\\']
    } else if c == '\n' {
        seq!['\\', 'n']
    } else if c == '\r' {
        seq!['\\', 'r']
    } else if c == '\t' {
        seq!['\\', 't']
    } else if (c as u32) < 0x20 {
        seq!['\\', 'u', '0', '0', hex_digit((c as u32) as nat / 16), hex_digit(
            (c as u32) as nat % 16,
        )]
    } else {
        seq![c]
    }
}

/// The JSON escape of a whole character sequence.
pub open spec fn json_escaped(s: Seq<char>) -> Seq<char>
    decreases s.len(),
{
    if s.len() == 0 {
        Seq::empty()
    } else {
        json_escaped(s.drop_last()) + esc_char(s.last())
    }
}

/// A JSON string literal: the escaped text between double quotes.
pub open spec fn json_string(s: Seq<char>) -> Seq<char> {
    seq!['"'] + json_escaped(s) + seq!['"']
}

fn hex_digit_char(d: u32) -> (c: char)
    requires
        d < 16,
    ensures
        c == hex_digit(d as nat),
{
    if d == 0 {
        '0'
    } else if d == 1 {
        '1'
    } else if d == 2 {
        '2'
    } else if d == 3 {
        '3'
    } else if d == 4 {
        '4'
    } else if d == 5 {
        '5'
    } else if d == 6 {
        '6'
    } else if d == 7 {
        '7'
    } else if d == 8 {
        '8'
    } else if d == 9 {
        '9'
    } else if d == 10 {
        'a'
    } else if d == 11 {
        'b'
    } else if d == 12 {
        'c'
    } else if d == 13 {
        'd'
    } else if d == 14 {
        'e'
    } else {
        'f'
    }
}

fn push_esc_char(out: &mut Vec<char>, c: char)
    ensures
        final(out)@ == old(out)@ + esc_char(c),
{
    if c == '"' {
        out.push('\\');
        out.push('"');
    } else if c == '\\' {
        out.push('\\');
        out.push('\\');
    } else if c == '\n' {
        out.push('\\');
        out.push('n');
    } else if c == '\r' {
        out.push('\\');
        out.push('r');
    } else if c == '\t' {
        out.push('\\');
        out.push('t');
    } else if (c as u32) < 0x20 {
        let v = c as u32;
        out.push('\\');
        out.push('u');
        out.push('0');
        out.push('0');
        out.push(hex_digit_char(v / 16));
        out.push(hex_digit_char(v % 16));
    } else {
        out.push(c);
    }
    proof {
        assert(out@ =~= old(out)@ + esc_char(c));
    }
}

/// Appends the JSON string literal for `s` to `out`.
pub fn push_json_string(out: &mut Vec<char>, s: &str)
    ensures
        final(out)@ == old(out)@ + json_string(s@),
{
    out.push('"');
    let n = s.unicode_len();
    let mut i: usize = 0;
    while i < n
        invariant
            i <= n,
            n == s@.len(),
            out@ == old(out)@ + seq!['"'] + json_escaped(s@.subrange(0, i as int)),
        decreases n - i,
    {
        proof {
            assert(s@.subrange(0, i + 1).drop_last() =~= s@.subrange(0, i as int));
            assert(s@.subrange(0, i + 1).last() == s@[i as int]);
        }
        push_esc_char(out, s.get_char(i));
        i += 1;
    }
    out.push('"');
    proof {
        assert(s@.subrange(0, n as int) =~= s@);
        assert(out@ =~= old(out)@ + json_string(s@));
    }
}

/// The JSON object for one (row, column) position.
pub open spec fn pos_json(row: nat, col: nat) -> Seq<char> {
    "{\"row\":"@ + dec_str(row) + ",\"column\":"@ + dec_str(col) + "}"@
}

fn push_pos_json(out: &mut Vec<char>, p: Position)
    ensures
        final(out)@ == old(out)@ + pos_json(p.row as nat, p.column as nat),
{
    push_str_chars(out, "{\"row\":");
    push_dec(out, p.row);
    push_str_chars(out, ",\"column\":");
    push_dec(out, p.column);
    push_str_chars(out, "}");
    proof {
        assert(out@ =~= old(out)@ + pos_json(p.row as nat, p.column as nat));
    }
}

/// The JSON object for one match record.
pub open spec fn record_json(m: RecordModel) -> Seq<char> {
    "{\"file\":"@ + json_string(m.file) + ",\"start\":"@ + pos_json(m.start_row, m.start_col)
        + ",\"end\":"@ + pos_json(m.end_row, m.end_col) + ",\"capture\":"@ + json_string(m.capture)
        + ",\"text\":"@ + json_string(m.text) + "}"@
}

/// Appends the JSON object for `rec` to `out`.
pub fn push_record_json(out: &mut Vec<char>, rec: &MatchRecord)
    ensures
        final(out)@ == old(out)@ + record_json(rec@),
{
    push_str_chars(out, "{\"file\":");
    push_json_string(out, rec.file.as_str());
    push_str_chars(out, ",\"start\":");
    push_pos_json(out, rec.start);
    push_str_chars(out, ",\"end\":");
    push_pos_json(out, rec.end);
    push_str_chars(out, ",\"capture\":");
    push_json_string(out, rec.capture.as_str());
    push_str_chars(out, ",\"text\":");
    push_json_string(out, rec.text.as_str());
    push_str_chars(out, "}");
    proof {
        assert(out@ =~= old(out)@ + record_json(rec@));
    }
}

} // verus!
