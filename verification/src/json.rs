//! The snapshot persistence format.
//!
//! A snapshot is persisted as a self-describing JSON object with the fields
//! `scanTime` (integer), `root` (string) and `entries` (object mapping each
//! relative path to an object with `modTime`, `permissions`, `size` and
//! `type`, the type tag being `"File"`, `"Directory"` or `"Symlink"`).
//!
//! [`to_json`] renders that record canonically; [`from_json`] reads it
//! back, accepting the fields in any order, tolerating unknown extra
//! fields, and rejecting a payload that misses a required field. Both
//! directions are verified against the same specification-level grammar,
//! and the round trip is proved exact.

use vstd::prelude::*;
use crate::model::FileType;
use crate::model::PathEntry;
use crate::model::Snapshot;
use crate::model::SnapshotEntry;
use crate::model::entries_view;
use crate::model::wf_entry_seq;
use crate::model::insert_entry;
use crate::model::insert_entry_spec;
use crate::model::lemma_insert_entry_wf;
use crate::model::lemma_insert_entry_at;
use crate::order::cmp_str;
use crate::order::str_lt;

verus! {

// ---------------------------------------------------------------------
// characters and digits
// ---------------------------------------------------------------------

/// JSON whitespace.
pub open spec fn is_ws(c: char) -> bool {
    c == ' ' || c == '\t' || c == '\n' || c == '\r'
}

/// The value of a decimal digit, or 10 for any other character.
pub open spec fn dec_val(c: char) -> nat {
    if c == '0' { 0 } else if c == '1' { 1 } else if c == '2' { 2 } else if c == '3' { 3 }
    else if c == '4' { 4 } else if c == '5' { 5 } else if c == '6' { 6 } else if c == '7' { 7 }
    else if c == '8' { 8 } else if c == '9' { 9 } else { 10 }
}

/// Whether a character is a decimal digit.
pub open spec fn is_dec_digit(c: char) -> bool {
    dec_val(c) < 10
}

/// The decimal digit character for a value below ten.
pub open spec fn dec_digit(d: nat) -> char {
    if d == 0 { '0' } else if d == 1 { '1' } else if d == 2 { '2' } else if d == 3 { '3' }
    else if d == 4 { '4' } else if d == 5 { '5' } else if d == 6 { '6' } else if d == 7 { '7' }
    else if d == 8 { '8' } else { '9' }
}

/// The value of a hexadecimal digit, or 16 for any other character.
pub open spec fn hex_val(c: char) -> nat {
    if c == 'a' || c == 'A' { 10 } else if c == 'b' || c == 'B' { 11 }
    else if c == 'c' || c == 'C' { 12 } else if c == 'd' || c == 'D' { 13 }
    else if c == 'e' || c == 'E' { 14 } else if c == 'f' || c == 'F' { 15 }
    else if dec_val(c) < 10 { dec_val(c) } else { 16 }
}

/// The lower-case hexadecimal digit character for a value below sixteen.
pub open spec fn hex_digit(d: nat) -> char {
    if d < 10 { dec_digit(d) } else if d == 10 { 'a' } else if d == 11 { 'b' }
    else if d == 12 { 'c' } else if d == 13 { 'd' } else if d == 14 { 'e' } else { 'f' }
}

/// The decimal digit sequence of a natural number, most significant first.
pub open spec fn dec_digits(n: nat) -> Seq<char>
    decreases n,
{
    if n < 10 {
        seq![dec_digit(n)]
    } else {
        dec_digits(n / 10) + seq![dec_digit(n % 10)]
    }
}

// ---------------------------------------------------------------------
// trusted bridges to std
// ---------------------------------------------------------------------

/// Relies on String::push: appends exactly the one character.
#[verifier::external_body]
fn push_char(s: &mut String, c: char)
    ensures
        final(s)@ == old(s)@.push(c),
{
    s.push(c);
}

/// Relies on char::from_u32: `Some` exactly for Unicode scalar values
/// (below the surrogate range or between it and 0x10FFFF), and the
/// returned character has exactly the given code point.
#[verifier::external_body]
fn char_from_u32(v: u32) -> (r: Option<char>)
    ensures
        r is Some <==> (v < 0xD800 || (0xE000 <= v && v <= 0x10FFFF)),
        r is Some ==> (r->0 as u32) == v,
{
    char::from_u32(v)
}

// ---------------------------------------------------------------------
// specification-level parsing primitives
// ---------------------------------------------------------------------

/// Drop leading JSON whitespace.
pub open spec fn skip_ws(s: Seq<char>) -> Seq<char>
    decreases s.len(),
{
    if s.len() > 0 && is_ws(s[0]) {
        skip_ws(s.skip(1))
    } else {
        s
    }
}

/// Accumulate decimal digits into `acc`; stops at the first non-digit,
/// fails on overflow of a 64-bit value.
pub open spec fn parse_u64_loop(s: Seq<char>, acc: u64) -> Option<(u64, Seq<char>)>
    decreases s.len(),
{
    if s.len() > 0 && is_dec_digit(s[0]) {
        if (acc as int) * 10 + (dec_val(s[0]) as int) > u64::MAX as int {
            None
        } else {
            parse_u64_loop(s.skip(1), (acc * 10 + (dec_val(s[0]) as u64)) as u64)
        }
    } else {
        Some((acc, s))
    }
}

/// Parse an unsigned decimal number: at least one digit, no overflow.
pub open spec fn parse_u64(s: Seq<char>) -> Option<(u64, Seq<char>)> {
    if s.len() > 0 && is_dec_digit(s[0]) {
        parse_u64_loop(s, 0)
    } else {
        None
    }
}

/// Parse a possibly negative decimal number into a signed 64-bit value.
pub open spec fn parse_i64(s: Seq<char>) -> Option<(i64, Seq<char>)> {
    if s.len() > 0 && s[0] == '-' {
        match parse_u64(s.skip(1)) {
            Some((mag, rest)) => if mag as int <= 0x8000_0000_0000_0000 {
                Some(((-(mag as int)) as i64, rest))
            } else {
                None
            },
            None => None,
        }
    } else {
        match parse_u64(s) {
            Some((mag, rest)) => if mag as int <= i64::MAX as int {
                Some((mag as i64, rest))
            } else {
                None
            },
            None => None,
        }
    }
}

/// Parse the remainder of a JSON string (after the opening quote),
/// appending the decoded characters to `acc`; returns the decoded string
/// and the text after the closing quote.
pub open spec fn parse_str_loop(s: Seq<char>, acc: Seq<char>) -> Option<(Seq<char>, Seq<char>)>
    decreases s.len(),
{
    if s.len() == 0 {
        None
    } else if s[0] == '"' {
        Some((acc, s.skip(1)))
    } else if s[0] == '\\' {
        if s.len() < 2 {
            None
        } else if s[1] == '"' || s[1] == '\\' || s[1] == '/' {
            parse_str_loop(s.skip(2), acc.push(s[1]))
        } else if s[1] == 'n' {
            parse_str_loop(s.skip(2), acc.push('\n'))
        } else if s[1] == 't' {
            parse_str_loop(s.skip(2), acc.push('\t'))
        } else if s[1] == 'r' {
            parse_str_loop(s.skip(2), acc.push('\r'))
        } else if s[1] == 'b' {
            parse_str_loop(s.skip(2), acc.push('\u{0008}'))
        } else if s[1] == 'f' {
            parse_str_loop(s.skip(2), acc.push('\u{000C}'))
        } else if s[1] == 'u' {
            if s.len() < 6 {
                None
            } else {
                let v = hex_val(s[2]) * 4096 + hex_val(s[3]) * 256 + hex_val(s[4]) * 16 + hex_val(
                    s[5],
                );
                if hex_val(s[2]) < 16 && hex_val(s[3]) < 16 && hex_val(s[4]) < 16 && hex_val(s[5])
                    < 16 && (v < 0xD800 || v >= 0xE000) {
                    parse_str_loop(s.skip(6), acc.push((v as u32) as char))
                } else {
                    None
                }
            }
        } else {
            None
        }
    } else if (s[0] as u32) < 32 {
        None
    } else {
        parse_str_loop(s.skip(1), acc.push(s[0]))
    }
}

/// Parse a JSON string, opening quote included.
pub open spec fn parse_string(s: Seq<char>) -> Option<(Seq<char>, Seq<char>)> {
    if s.len() > 0 && s[0] == '"' {
        parse_str_loop(s.skip(1), Seq::empty())
    } else {
        None
    }
}

/// Skip one JSON value of any shape: scans with a brace/bracket depth
/// counter, honouring strings and escapes; stops before a `,`, `}` or `]`
/// belonging to the enclosing container, or just after this value's own
/// closing quote, brace or bracket.
pub open spec fn skip_value_loop(s: Seq<char>, depth: nat, in_str: bool, esc: bool) -> Option<
    Seq<char>,
>
    decreases s.len(),
{
    if s.len() == 0 {
        None
    } else {
        let c = s[0];
        if in_str {
            if esc {
                skip_value_loop(s.skip(1), depth, true, false)
            } else if c == '\\' {
                skip_value_loop(s.skip(1), depth, true, true)
            } else if c == '"' {
                if depth == 0 {
                    Some(s.skip(1))
                } else {
                    skip_value_loop(s.skip(1), depth, false, false)
                }
            } else {
                skip_value_loop(s.skip(1), depth, true, false)
            }
        } else if c == '"' {
            skip_value_loop(s.skip(1), depth, true, false)
        } else if c == '{' || c == '[' {
            skip_value_loop(s.skip(1), depth + 1, false, false)
        } else if c == '}' || c == ']' {
            if depth == 0 {
                Some(s)
            } else if depth == 1 {
                Some(s.skip(1))
            } else {
                skip_value_loop(s.skip(1), (depth - 1) as nat, false, false)
            }
        } else if c == ',' && depth == 0 {
            Some(s)
        } else {
            skip_value_loop(s.skip(1), depth, false, false)
        }
    }
}

// ---------------------------------------------------------------------
// executable parsing primitives
// ---------------------------------------------------------------------

/// The characters of a string, for O(1) indexed parsing.
pub fn str_to_chars(s: &str) -> (v: Vec<char>)
    ensures
        v@ == s@,
{
    let n = s.unicode_len();
    let mut v: Vec<char> = Vec::new();
    let mut i: usize = 0;
    while i < n
        invariant
            i <= n,
            n == s@.len(),
            v@ =~= s@.subrange(0, i as int),
        decreases n - i,
    {
        v.push(s.get_char(i));
        i = i + 1;
    }
    proof {
        assert(v@ =~= s@);
    }
    v
}

/// The value of a decimal digit, or 10.
fn dec_val_exec(c: char) -> (d: u64)
    ensures
        d as nat == dec_val(c),
{
    if c == '0' { 0 } else if c == '1' { 1 } else if c == '2' { 2 } else if c == '3' { 3 }
    else if c == '4' { 4 } else if c == '5' { 5 } else if c == '6' { 6 } else if c == '7' { 7 }
    else if c == '8' { 8 } else if c == '9' { 9 } else { 10 }
}

/// The value of a hexadecimal digit, or 16.
fn hex_val_exec(c: char) -> (d: u64)
    ensures
        d as nat == hex_val(c),
{
    if c == 'a' || c == 'A' { 10 } else if c == 'b' || c == 'B' { 11 }
    else if c == 'c' || c == 'C' { 12 } else if c == 'd' || c == 'D' { 13 }
    else if c == 'e' || c == 'E' { 14 } else if c == 'f' || c == 'F' { 15 }
    else { let d = dec_val_exec(c); if d < 10 { d } else { 16 } }
}

/// Whether a character is JSON whitespace.
fn is_ws_exec(c: char) -> (b: bool)
    ensures
        b == is_ws(c),
{
    c == ' ' || c == '\t' || c == '\n' || c == '\r'
}

/// Advance past JSON whitespace; the new position matches `skip_ws`.
fn ws_exec(v: &Vec<char>, i: usize) -> (j: usize)
    requires
        i <= v.len(),
    ensures
        i <= j <= v.len(),
        v@.skip(j as int) == skip_ws(v@.skip(i as int)),
{
    let mut j = i;
    while j < v.len() && is_ws_exec(v[j])
        invariant
            i <= j <= v.len(),
            skip_ws(v@.skip(j as int)) == skip_ws(v@.skip(i as int)),
        decreases v.len() - j,
    {
        proof {
            assert(v@.skip(j as int)[0] == v@[j as int]);
            assert(v@.skip(j as int).skip(1) =~= v@.skip(j + 1));
        }
        j = j + 1;
    }
    proof {
        if j < v.len() {
            assert(v@.skip(j as int)[0] == v@[j as int]);
        }
        assert(skip_ws(v@.skip(j as int)) == v@.skip(j as int));
    }
    j
}

/// Parse an unsigned decimal number starting at `i`.
fn parse_u64_exec(v: &Vec<char>, i: usize) -> (r: Option<(u64, usize)>)
    requires
        i <= v.len(),
    ensures
        match parse_u64(v@.skip(i as int)) {
            Some(p) => r is Some && (r->0).0 == p.0 && i <= (r->0).1 <= v.len() && v@.skip(
                (r->0).1 as int,
            ) == p.1,
            None => r is None,
        },
{
    if i == v.len() || dec_val_exec(v[i]) >= 10 {
        proof {
            if i < v.len() {
                assert(v@.skip(i as int)[0] == v@[i as int]);
            }
        }
        return None;
    }
    proof {
        assert(v@.skip(i as int)[0] == v@[i as int]);
    }
    let mut j = i;
    let mut acc: u64 = 0;
    while j < v.len() && dec_val_exec(v[j]) < 10
        invariant
            i <= j <= v.len(),
            parse_u64_loop(v@.skip(j as int), acc) == parse_u64_loop(v@.skip(i as int), 0),
        decreases v.len() - j,
    {
        let d = dec_val_exec(v[j]);
        proof {
            assert(v@.skip(j as int)[0] == v@[j as int]);
            assert(v@.skip(j as int).skip(1) =~= v@.skip(j + 1));
        }
        if acc > (u64::MAX - d) / 10 {
            proof {
                vstd::arithmetic::div_mod::lemma_fundamental_div_mod((u64::MAX - d) as int, 10);
                assert((acc as int) * 10 + (d as int) > u64::MAX as int) by (nonlinear_arith)
                    requires
                        acc as int > ((u64::MAX - d) as int) / 10,
                        (u64::MAX - d) as int == 10 * (((u64::MAX - d) as int) / 10) + (((u64::MAX
                            - d) as int) % 10),
                        0 <= ((u64::MAX - d) as int) % 10 < 10,
                        0 <= d < 10,
                ;
            }
            return None;
        }
        proof {
            vstd::arithmetic::div_mod::lemma_fundamental_div_mod((u64::MAX - d) as int, 10);
            assert((acc as int) * 10 + (d as int) <= u64::MAX as int) by (nonlinear_arith)
                requires
                    acc as int <= ((u64::MAX - d) as int) / 10,
                    (u64::MAX - d) as int == 10 * (((u64::MAX - d) as int) / 10) + (((u64::MAX - d)
                        as int) % 10),
                    0 <= ((u64::MAX - d) as int) % 10 < 10,
                    0 <= d < 10,
            ;
        }
        acc = acc * 10 + d;
        j = j + 1;
    }
    proof {
        if j < v.len() {
            assert(v@.skip(j as int)[0] == v@[j as int]);
        }
        assert(parse_u64_loop(v@.skip(j as int), acc) == Some((acc, v@.skip(j as int))));
    }
    Some((acc, j))
}

/// Parse a possibly negative decimal number starting at `i`.
fn parse_i64_exec(v: &Vec<char>, i: usize) -> (r: Option<(i64, usize)>)
    requires
        i <= v.len(),
    ensures
        match parse_i64(v@.skip(i as int)) {
            Some(p) => r is Some && (r->0).0 == p.0 && i <= (r->0).1 <= v.len() && v@.skip(
                (r->0).1 as int,
            ) == p.1,
            None => r is None,
        },
{
    if i < v.len() && v[i] == '-' {
        proof {
            assert(v@.skip(i as int)[0] == v@[i as int]);
            assert(v@.skip(i as int).skip(1) =~= v@.skip(i + 1));
        }
        match parse_u64_exec(v, i + 1) {
            Some((mag, j)) => {
                if mag <= 0x8000_0000_0000_0000 {
                    let m: i64 = if mag == 0x8000_0000_0000_0000 {
                        i64::MIN
                    } else {
                        -(mag as i64)
                    };
                    Some((m, j))
                } else {
                    None
                }
            },
            None => None,
        }
    } else {
        proof {
            if i < v.len() {
                assert(v@.skip(i as int)[0] == v@[i as int]);
            }
        }
        match parse_u64_exec(v, i) {
            Some((mag, j)) => {
                if mag <= i64::MAX as u64 {
                    Some((mag as i64, j))
                } else {
                    None
                }
            },
            None => None,
        }
    }
}

/// Parse a JSON string starting at `i` (at the opening quote).
fn parse_string_exec(v: &Vec<char>, i: usize) -> (r: Option<(String, usize)>)
    requires
        i <= v.len(),
    ensures
        match parse_string(v@.skip(i as int)) {
            Some(p) => r is Some && (r->0).0@ == p.0 && i <= (r->0).1 <= v.len() && v@.skip(
                (r->0).1 as int,
            ) == p.1,
            None => r is None,
        },
{
    if i == v.len() || v[i] != '"' {
        proof {
            if i < v.len() {
                assert(v@.skip(i as int)[0] == v@[i as int]);
            }
        }
        return None;
    }
    proof {
        assert(v@.skip(i as int)[0] == v@[i as int]);
        assert(v@.skip(i as int).skip(1) =~= v@.skip(i + 1));
    }
    let mut j = i + 1;
    let mut acc = String::new();
    loop
        invariant
            i + 1 <= j <= v.len(),
            parse_str_loop(v@.skip(j as int), acc@) == parse_string(v@.skip(i as int)),
        decreases v.len() - j,
    {
        if j == v.len() {
            return None;
        }
        let c = v[j];
        proof {
            assert(v@.skip(j as int)[0] == v@[j as int]);
            assert(v@.skip(j as int).skip(1) =~= v@.skip(j + 1));
        }
        if c == '"' {
            return Some((acc, j + 1));
        }
        if c == '\\' {
            if j + 1 == v.len() {
                return None;
            }
            let e = v[j + 1];
            proof {
                assert(v@.skip(j as int)[1] == v@[j + 1]);
                assert(v@.skip(j as int).skip(2) =~= v@.skip(j + 2));
            }
            if e == '"' || e == '\\' || e == '/' {
                push_char(&mut acc, e);
                j = j + 2;
            } else if e == 'n' {
                push_char(&mut acc, '\n');
                j = j + 2;
            } else if e == 't' {
                push_char(&mut acc, '\t');
                j = j + 2;
            } else if e == 'r' {
                push_char(&mut acc, '\r');
                j = j + 2;
            } else if e == 'b' {
                push_char(&mut acc, '\u{0008}');
                j = j + 2;
            } else if e == 'f' {
                push_char(&mut acc, '\u{000C}');
                j = j + 2;
            } else if e == 'u' {
                if v.len() - j < 6 {
                    return None;
                }
                proof {
                    assert(v@.skip(j as int)[2] == v@[j + 2]);
                    assert(v@.skip(j as int)[3] == v@[j + 3]);
                    assert(v@.skip(j as int)[4] == v@[j + 4]);
                    assert(v@.skip(j as int)[5] == v@[j + 5]);
                    assert(v@.skip(j as int).skip(6) =~= v@.skip(j + 6));
                }
                let h0 = hex_val_exec(v[j + 2]);
                let h1 = hex_val_exec(v[j + 3]);
                let h2 = hex_val_exec(v[j + 4]);
                let h3 = hex_val_exec(v[j + 5]);
                if h0 >= 16 || h1 >= 16 || h2 >= 16 || h3 >= 16 {
                    return None;
                }
                let val: u32 = (h0 as u32) * 4096 + (h1 as u32) * 256 + (h2 as u32) * 16 + (
                h3 as u32);
                match char_from_u32(val) {
                    Some(dc) => {
                        proof {
                            vstd::utf8::char_u32_cast(dc, dc as u32);
                            assert(((val as u32) as char) == dc);
                        }
                        push_char(&mut acc, dc);
                        j = j + 6;
                    },
                    None => {
                        return None;
                    },
                }
            } else {
                return None;
            }
        } else if (c as u32) < 32 {
            return None;
        } else {
            push_char(&mut acc, c);
            j = j + 1;
        }
    }
}

/// Skip one JSON value starting at `i`.
fn skip_value_exec(v: &Vec<char>, i: usize) -> (r: Option<usize>)
    requires
        i <= v.len(),
    ensures
        match skip_value_loop(v@.skip(i as int), 0, false, false) {
            Some(rest) => r is Some && i <= r->0 <= v.len() && v@.skip(r->0 as int) == rest,
            None => r is None,
        },
{
    let mut j = i;
    let mut depth: usize = 0;
    let mut in_str = false;
    let mut esc = false;
    loop
        invariant
            i <= j <= v.len(),
            depth <= j - i,
            !in_str ==> !esc,
            skip_value_loop(v@.skip(j as int), depth as nat, in_str, esc) == skip_value_loop(
                v@.skip(i as int),
                0,
                false,
                false,
            ),
        decreases v.len() - j,
    {
        if j == v.len() {
            return None;
        }
        let c = v[j];
        proof {
            assert(v@.skip(j as int)[0] == v@[j as int]);
            assert(v@.skip(j as int).skip(1) =~= v@.skip(j + 1));
        }
        if in_str {
            if esc {
                esc = false;
                j = j + 1;
            } else if c == '\\' {
                esc = true;
                j = j + 1;
            } else if c == '"' {
                if depth == 0 {
                    return Some(j + 1);
                } else {
                    in_str = false;
                    j = j + 1;
                }
            } else {
                j = j + 1;
            }
        } else if c == '"' {
            in_str = true;
            j = j + 1;
        } else if c == '{' || c == '[' {
            depth = depth + 1;
            j = j + 1;
        } else if c == '}' || c == ']' {
            if depth == 0 {
                return Some(j);
            } else if depth == 1 {
                return Some(j + 1);
            } else {
                depth = depth - 1;
                j = j + 1;
            }
        } else if c == ',' && depth == 0 {
            return Some(j);
        } else {
            j = j + 1;
        }
    }
}

// ---------------------------------------------------------------------
// the canonical rendering
// ---------------------------------------------------------------------

/// The decimal rendering of an unsigned number.
pub open spec fn ser_u64(n: u64) -> Seq<char> {
    dec_digits(n as nat)
}

/// The decimal rendering of a signed number.
pub open spec fn ser_i64(m: i64) -> Seq<char> {
    if m < 0 {
        seq!['-'] + dec_digits((-(m as int)) as nat)
    } else {
        dec_digits(m as nat)
    }
}

/// The JSON escape of one character: quote and backslash get a backslash,
/// control characters a `\u00..` escape, everything else stands as itself.
pub open spec fn esc_char(c: char) -> Seq<char> {
    if c == '"' {
        seq!['\\', '"']
    } else if c == '\\' {
        seq!['\\', '\\']
    } else if (c as u32) < 32 {
        seq!['\\', 'u', '0', '0', hex_digit(((c as u32) / 16) as nat), hex_digit(
            ((c as u32) % 16) as nat,
        )]
    } else {
        seq![c]
    }
}

/// The JSON escape of a character sequence.
pub open spec fn esc(s: Seq<char>) -> Seq<char>
    decreases s.len(),
{
    if s.len() == 0 {
        Seq::empty()
    } else {
        esc_char(s[0]) + esc(s.skip(1))
    }
}

/// A JSON string: quotes around the escaped content.
pub open spec fn ser_string(s: Seq<char>) -> Seq<char> {
    seq!['"'] + esc(s) + seq!['"']
}

/// The tag under which a file type is persisted.
pub open spec fn ftype_tag(t: FileType) -> Seq<char> {
    match t {
        FileType::File => "File"@,
        FileType::Directory => "Directory"@,
        FileType::Symlink => "Symlink"@,
    }
}

/// One object member: a quoted key, a colon, and the rendered value.
pub open spec fn ser_member(k: Seq<char>, v: Seq<char>) -> Seq<char> {
    ser_string(k) + seq![':'] + v
}

/// The metadata object for one path.
pub open spec fn ser_entry(d: PathEntry) -> Seq<char> {
    seq!['{'] + ser_member("modTime"@, ser_i64(d.mod_time)) + seq![','] + ser_member(
        "permissions"@,
        dec_digits(d.permissions as nat),
    ) + seq![','] + ser_member("size"@, ser_u64(d.size)) + seq![','] + ser_member(
        "type"@,
        ser_string(ftype_tag(d.ftype)),
    ) + seq!['}']
}

/// The members after the first of the entries object, each preceded by a
/// comma.
pub open spec fn ser_entries_mid(s: Seq<(Seq<char>, PathEntry)>) -> Seq<char>
    decreases s.len(),
{
    if s.len() == 0 {
        Seq::empty()
    } else {
        seq![','] + ser_member(s[0].0, ser_entry(s[0].1)) + ser_entries_mid(s.skip(1))
    }
}

/// The entries object: one member per path, in entry order.
pub open spec fn ser_entries(s: Seq<(Seq<char>, PathEntry)>) -> Seq<char> {
    if s.len() == 0 {
        seq!['{', '}']
    } else {
        seq!['{'] + ser_member(s[0].0, ser_entry(s[0].1)) + ser_entries_mid(s.skip(1)) + seq!['}']
    }
}

/// The whole snapshot record.
pub open spec fn ser_snapshot(t: u64, root: Seq<char>, es: Seq<(Seq<char>, PathEntry)>) -> Seq<
    char,
> {
    seq!['{'] + ser_member("scanTime"@, ser_u64(t)) + seq![','] + ser_member(
        "root"@,
        ser_string(root),
    ) + seq![','] + ser_member("entries"@, ser_entries(es)) + seq!['}']
}

/// Escaping distributes over appending one character.
proof fn lemma_esc_snoc(t: Seq<char>, c: char)
    ensures
        esc(t.push(c)) == esc(t) + esc_char(c),
    decreases t.len(),
{
    if t.len() == 0 {
        assert(t.push(c)[0] == c);
        assert(esc(t.push(c)) == esc_char(c) + esc(t.push(c).skip(1)));
        assert(t.push(c).skip(1) =~= Seq::<char>::empty());
        assert(esc(t.push(c).skip(1)) == Seq::<char>::empty());
        assert(esc(t) == Seq::<char>::empty());
        assert(esc(t.push(c)) =~= esc(t) + esc_char(c));
    } else {
        assert(t.push(c).skip(1) =~= t.skip(1).push(c));
        lemma_esc_snoc(t.skip(1), c);
        assert(esc(t.push(c)) == esc_char(t[0]) + (esc(t.skip(1)) + esc_char(c)));
        assert(esc_char(t[0]) + (esc(t.skip(1)) + esc_char(c)) =~= esc(t) + esc_char(c));
    }
}

/// The comma-separated middle distributes over appending one entry.
proof fn lemma_mid_snoc(s: Seq<(Seq<char>, PathEntry)>, x: (Seq<char>, PathEntry))
    ensures
        ser_entries_mid(s.push(x)) == ser_entries_mid(s) + seq![','] + ser_member(
            x.0,
            ser_entry(x.1),
        ),
    decreases s.len(),
{
    if s.len() == 0 {
        assert(s.push(x)[0] == x);
        assert(ser_entries_mid(s.push(x)) == seq![','] + ser_member(x.0, ser_entry(x.1))
            + ser_entries_mid(s.push(x).skip(1)));
        assert(s.push(x).skip(1) =~= Seq::<(Seq<char>, PathEntry)>::empty());
        assert(ser_entries_mid(s.push(x).skip(1)) == Seq::<char>::empty());
        assert(ser_entries_mid(s) == Seq::<char>::empty());
        assert(ser_entries_mid(s.push(x)) =~= ser_entries_mid(s) + seq![','] + ser_member(
            x.0,
            ser_entry(x.1),
        ));
    } else {
        assert(s.push(x)[0] == s[0]);
        assert(ser_entries_mid(s.push(x)) == seq![','] + ser_member(s[0].0, ser_entry(s[0].1))
            + ser_entries_mid(s.push(x).skip(1)));
        assert(s.push(x).skip(1) =~= s.skip(1).push(x));
        lemma_mid_snoc(s.skip(1), x);
        assert(ser_entries_mid(s.push(x)) =~= ser_entries_mid(s) + seq![','] + ser_member(
            x.0,
            ser_entry(x.1),
        ));
    }
}

/// The decimal digit character for a value below ten.
fn dec_digit_exec(d: u64) -> (c: char)
    requires
        d < 10,
    ensures
        c == dec_digit(d as nat),
{
    if d == 0 { '0' } else if d == 1 { '1' } else if d == 2 { '2' } else if d == 3 { '3' }
    else if d == 4 { '4' } else if d == 5 { '5' } else if d == 6 { '6' } else if d == 7 { '7' }
    else if d == 8 { '8' } else { '9' }
}

/// The lower-case hexadecimal digit character for a value below sixteen.
fn hex_digit_exec(d: u64) -> (c: char)
    requires
        d < 16,
    ensures
        c == hex_digit(d as nat),
{
    if d < 10 { dec_digit_exec(d) } else if d == 10 { 'a' } else if d == 11 { 'b' }
    else if d == 12 { 'c' } else if d == 13 { 'd' } else if d == 14 { 'e' } else { 'f' }
}

/// Append the decimal rendering of an unsigned number.
fn push_u64(out: &mut String, n: u64)
    ensures
        final(out)@ == old(out)@ + dec_digits(n as nat),
    decreases n,
{
    if n < 10 {
        push_char(out, dec_digit_exec(n));
        proof {
            assert(final(out)@ =~= old(out)@ + dec_digits(n as nat));
        }
    } else {
        push_u64(out, n / 10);
        push_char(out, dec_digit_exec(n % 10));
        proof {
            assert(final(out)@ =~= old(out)@ + dec_digits(n as nat));
        }
    }
}

/// Append the decimal rendering of a signed number.
fn push_i64(out: &mut String, m: i64)
    ensures
        final(out)@ == old(out)@ + ser_i64(m),
{
    if m < 0 {
        push_char(out, '-');
        let mag: u64 = if m == i64::MIN {
            9223372036854775808u64
        } else {
            (-m) as u64
        };
        proof {
            assert(mag as int == -(m as int));
        }
        push_u64(out, mag);
        proof {
            assert(final(out)@ =~= old(out)@ + ser_i64(m));
        }
    } else {
        push_u64(out, m as u64);
        proof {
            assert(final(out)@ =~= old(out)@ + ser_i64(m));
        }
    }
}

/// Append a quoted, escaped JSON string.
fn push_json_string(out: &mut String, s: &str)
    ensures
        final(out)@ == old(out)@ + ser_string(s@),
{
    push_char(out, '"');
    let n = s.unicode_len();
    let mut i: usize = 0;
    while i < n
        invariant
            i <= n,
            n == s@.len(),
            out@ == old(out)@ + seq!['"'] + esc(s@.subrange(0, i as int)),
        decreases n - i,
    {
        let c = s.get_char(i);
        proof {
            assert(s@.subrange(0, i + 1) =~= s@.subrange(0, i as int).push(s@[i as int]));
            lemma_esc_snoc(s@.subrange(0, i as int), s@[i as int]);
        }
        if c == '"' {
            push_char(out, '\\');
            push_char(out, '"');
        } else if c == '\\' {
            push_char(out, '\\');
            push_char(out, '\\');
        } else if (c as u32) < 32 {
            push_char(out, '\\');
            push_char(out, 'u');
            push_char(out, '0');
            push_char(out, '0');
            push_char(out, hex_digit_exec(((c as u32) / 16) as u64));
            push_char(out, hex_digit_exec(((c as u32) % 16) as u64));
        } else {
            push_char(out, c);
        }
        proof {
            assert(out@ =~= old(out)@ + seq!['"'] + esc(s@.subrange(0, i + 1)));
        }
        i = i + 1;
    }
    proof {
        assert(s@.subrange(0, n as int) =~= s@);
    }
    push_char(out, '"');
    proof {
        assert(final(out)@ =~= old(out)@ + ser_string(s@));
    }
}

/// Append the metadata object for one path.
#[verifier::rlimit(100)]
fn push_entry(out: &mut String, d: &PathEntry)
    ensures
        final(out)@ == old(out)@ + ser_entry(*d),
{
    push_char(out, '{');
    push_json_string(out, "modTime");
    push_char(out, ':');
    push_i64(out, d.mod_time);
    push_char(out, ',');
    push_json_string(out, "permissions");
    push_char(out, ':');
    push_u64(out, d.permissions as u64);
    push_char(out, ',');
    push_json_string(out, "size");
    push_char(out, ':');
    push_u64(out, d.size);
    push_char(out, ',');
    push_json_string(out, "type");
    push_char(out, ':');
    match d.ftype {
        FileType::File => push_json_string(out, "File"),
        FileType::Directory => push_json_string(out, "Directory"),
        FileType::Symlink => push_json_string(out, "Symlink"),
    }
    push_char(out, '}');
    proof {
        assert(final(out)@ =~= old(out)@ + ser_entry(*d));
    }
}

/// Render a snapshot as its canonical JSON record.
#[verifier::rlimit(100)]
pub fn to_json(snap: &Snapshot) -> (out: String)
    ensures
        out@ == ser_snapshot(snap.scan_time, snap.root@, snap.view_entries()),
{
    let ghost es = snap.view_entries();
    let mut out = String::new();
    push_char(&mut out, '{');
    push_json_string(&mut out, "scanTime");
    push_char(&mut out, ':');
    push_u64(&mut out, snap.scan_time);
    push_char(&mut out, ',');
    push_json_string(&mut out, "root");
    push_char(&mut out, ':');
    push_json_string(&mut out, snap.root.as_str());
    push_char(&mut out, ',');
    push_json_string(&mut out, "entries");
    push_char(&mut out, ':');
    let ghost head = seq!['{'] + ser_member("scanTime"@, ser_u64(snap.scan_time)) + seq![',']
        + ser_member("root"@, ser_string(snap.root@)) + seq![','] + ser_string("entries"@) + seq![
        ':',
    ];
    proof {
        assert(out@ =~= head);
    }
    push_char(&mut out, '{');
    let n = snap.entries.len();
    if n > 0 {
        push_json_string(&mut out, snap.entries[0].path.as_str());
        push_char(&mut out, ':');
        push_entry(&mut out, &snap.entries[0].entry);
        proof {
            assert(es[0] == (snap.entries@[0].path@, snap.entries@[0].entry));
            assert(out@ =~= head + seq!['{'] + ser_member(es[0].0, ser_entry(es[0].1))
                + ser_entries_mid(es.subrange(1, 1)));
        }
        let mut i: usize = 1;
        while i < n
            invariant
                1 <= i <= n,
                n == snap.entries.len(),
                es == snap.view_entries(),
                head == seq!['{'] + ser_member("scanTime"@, ser_u64(snap.scan_time)) + seq![',']
                    + ser_member("root"@, ser_string(snap.root@)) + seq![','] + ser_string(
                    "entries"@,
                ) + seq![':'],
                out@ == head + seq!['{'] + ser_member(es[0].0, ser_entry(es[0].1))
                    + ser_entries_mid(es.subrange(1, i as int)),
            decreases n - i,
        {
            push_char(&mut out, ',');
            push_json_string(&mut out, snap.entries[i].path.as_str());
            push_char(&mut out, ':');
            push_entry(&mut out, &snap.entries[i].entry);
            proof {
                assert(es[i as int] == (snap.entries@[i as int].path@, snap.entries@[i as int].entry));
                assert(es.subrange(1, i + 1) =~= es.subrange(1, i as int).push(es[i as int]));
                lemma_mid_snoc(es.subrange(1, i as int), es[i as int]);
                assert(out@ =~= head + seq!['{'] + ser_member(es[0].0, ser_entry(es[0].1))
                    + ser_entries_mid(es.subrange(1, i + 1)));
            }
            i = i + 1;
        }
        proof {
            assert(es.subrange(1, n as int) =~= es.skip(1));
        }
    }
    push_char(&mut out, '}');
    push_char(&mut out, '}');
    proof {
        assert(out@ =~= ser_snapshot(snap.scan_time, snap.root@, es));
    }
    out
}

// ---------------------------------------------------------------------
// reading a snapshot record
// ---------------------------------------------------------------------

/// A persisted snapshot that does not parse into the required shape.
#[derive(Clone, Copy, PartialEq, Eq, Structural, Debug)]
pub struct MalformedSnapshot;

/// The file type named by a persisted tag.
pub open spec fn tag_of(s: Seq<char>) -> Option<FileType> {
    if s == "File"@ {
        Some(FileType::File)
    } else if s == "Directory"@ {
        Some(FileType::Directory)
    } else if s == "Symlink"@ {
        Some(FileType::Symlink)
    } else {
        None
    }
}

/// Parse the members of a metadata object, starting at a key; the four
/// slots hold the required fields already seen. Unknown members are
/// skipped; the object must close with every required field present.
pub open spec fn parse_entry_members(
    s: Seq<char>,
    mt: Option<i64>,
    pm: Option<u32>,
    sz: Option<u64>,
    ft: Option<FileType>,
) -> Option<(PathEntry, Seq<char>)>
    decreases s.len(),
{
    match parse_string(s) {
        None => None,
        Some((key, r1)) => {
            let r2 = skip_ws(r1);
            if r2.len() == 0 || r2[0] != ':' {
                None
            } else {
                let r3 = skip_ws(r2.skip(1));
                let step: Option<(Option<i64>, Option<u32>, Option<u64>, Option<FileType>, Seq<char>)> =
                    if key == "modTime"@ {
                        match parse_i64(r3) {
                            Some((x, r4)) => Some((Some(x), pm, sz, ft, r4)),
                            None => None,
                        }
                    } else if key == "permissions"@ {
                        match parse_u64(r3) {
                            Some((x, r4)) => if x <= u32::MAX as u64 {
                                Some((mt, Some(x as u32), sz, ft, r4))
                            } else {
                                None
                            },
                            None => None,
                        }
                    } else if key == "size"@ {
                        match parse_u64(r3) {
                            Some((x, r4)) => Some((mt, pm, Some(x), ft, r4)),
                            None => None,
                        }
                    } else if key == "type"@ {
                        match parse_string(r3) {
                            Some((t, r4)) => match tag_of(t) {
                                Some(tt) => Some((mt, pm, sz, Some(tt), r4)),
                                None => None,
                            },
                            None => None,
                        }
                    } else {
                        match skip_value_loop(r3, 0, false, false) {
                            Some(r4) => Some((mt, pm, sz, ft, r4)),
                            None => None,
                        }
                    };
                match step {
                    None => None,
                    Some((mt2, pm2, sz2, ft2, r4)) => {
                        let r5 = skip_ws(r4);
                        if r5.len() == 0 {
                            None
                        } else if r5[0] == ',' {
                            let r6 = skip_ws(r5.skip(1));
                            if r6.len() < s.len() {
                                parse_entry_members(r6, mt2, pm2, sz2, ft2)
                            } else {
                                None
                            }
                        } else if r5[0] == '}' {
                            match (mt2, pm2, sz2, ft2) {
                                (Some(a), Some(b), Some(z), Some(t)) => Some(
                                    (
                                        PathEntry {
                                            mod_time: a,
                                            permissions: b,
                                            size: z,
                                            ftype: t,
                                        },
                                        r5.skip(1),
                                    ),
                                ),
                                _ => None,
                            }
                        } else {
                            None
                        }
                    },
                }
            }
        },
    }
}

/// Parse one metadata object, at its opening brace.
pub open spec fn parse_entry_obj(s: Seq<char>) -> Option<(PathEntry, Seq<char>)> {
    if s.len() > 0 && s[0] == '{' {
        parse_entry_members(skip_ws(s.skip(1)), None, None, None, None)
    } else {
        None
    }
}

/// Parse the members of the entries object, starting at a key;
/// accumulated entries are kept sorted, a later member for the same path
/// replacing the earlier one. An empty path is rejected.
pub open spec fn parse_entries_members(
    s: Seq<char>,
    acc: Seq<(Seq<char>, PathEntry)>,
) -> Option<(Seq<(Seq<char>, PathEntry)>, Seq<char>)>
    decreases s.len(),
{
    match parse_string(s) {
        None => None,
        Some((key, r1)) => {
            let r2 = skip_ws(r1);
            if r2.len() == 0 || r2[0] != ':' || key.len() == 0 {
                None
            } else {
                let r3 = skip_ws(r2.skip(1));
                match parse_entry_obj(r3) {
                    None => None,
                    Some((pe, r4)) => {
                        let acc2 = insert_entry_spec(acc, key, pe);
                        let r5 = skip_ws(r4);
                        if r5.len() == 0 {
                            None
                        } else if r5[0] == ',' {
                            let r6 = skip_ws(r5.skip(1));
                            if r6.len() < s.len() {
                                parse_entries_members(r6, acc2)
                            } else {
                                None
                            }
                        } else if r5[0] == '}' {
                            Some((acc2, r5.skip(1)))
                        } else {
                            None
                        }
                    },
                }
            }
        },
    }
}

/// Parse the entries object, at its opening brace.
pub open spec fn parse_entries_obj(s: Seq<char>) -> Option<
    (Seq<(Seq<char>, PathEntry)>, Seq<char>),
> {
    if s.len() > 0 && s[0] == '{' {
        let s1 = skip_ws(s.skip(1));
        if s1.len() > 0 && s1[0] == '}' {
            Some((Seq::empty(), s1.skip(1)))
        } else {
            parse_entries_members(s1, Seq::empty())
        }
    } else {
        None
    }
}

/// Parse the members of the snapshot object, starting at a key.
pub open spec fn parse_snapshot_members(
    s: Seq<char>,
    st: Option<u64>,
    rt: Option<Seq<char>>,
    en: Option<Seq<(Seq<char>, PathEntry)>>,
) -> Option<((u64, Seq<char>, Seq<(Seq<char>, PathEntry)>), Seq<char>)>
    decreases s.len(),
{
    match parse_string(s) {
        None => None,
        Some((key, r1)) => {
            let r2 = skip_ws(r1);
            if r2.len() == 0 || r2[0] != ':' {
                None
            } else {
                let r3 = skip_ws(r2.skip(1));
                let step: Option<(Option<u64>, Option<Seq<char>>, Option<Seq<(Seq<char>, PathEntry)>>, Seq<char>)> =
                    if key == "scanTime"@ {
                        match parse_u64(r3) {
                            Some((x, r4)) => Some((Some(x), rt, en, r4)),
                            None => None,
                        }
                    } else if key == "root"@ {
                        match parse_string(r3) {
                            Some((x, r4)) => Some((st, Some(x), en, r4)),
                            None => None,
                        }
                    } else if key == "entries"@ {
                        match parse_entries_obj(r3) {
                            Some((x, r4)) => Some((st, rt, Some(x), r4)),
                            None => None,
                        }
                    } else {
                        match skip_value_loop(r3, 0, false, false) {
                            Some(r4) => Some((st, rt, en, r4)),
                            None => None,
                        }
                    };
                match step {
                    None => None,
                    Some((st2, rt2, en2, r4)) => {
                        let r5 = skip_ws(r4);
                        if r5.len() == 0 {
                            None
                        } else if r5[0] == ',' {
                            let r6 = skip_ws(r5.skip(1));
                            if r6.len() < s.len() {
                                parse_snapshot_members(r6, st2, rt2, en2)
                            } else {
                                None
                            }
                        } else if r5[0] == '}' {
                            match (st2, rt2, en2) {
                                (Some(t), Some(rootv), Some(esv)) => Some(
                                    ((t, rootv, esv), r5.skip(1)),
                                ),
                                _ => None,
                            }
                        } else {
                            None
                        }
                    },
                }
            }
        },
    }
}

/// Parse a whole snapshot record; nothing but whitespace may follow it.
pub open spec fn parse_snapshot_full(s: Seq<char>) -> Option<
    (u64, Seq<char>, Seq<(Seq<char>, PathEntry)>),
> {
    let s0 = skip_ws(s);
    if s0.len() > 0 && s0[0] == '{' {
        match parse_snapshot_members(skip_ws(s0.skip(1)), None, None, None) {
            Some((trip, rest)) => if skip_ws(rest).len() == 0 {
                Some(trip)
            } else {
                None
            },
            None => None,
        }
    } else {
        None
    }
}

/// Entries accumulated by the parser stay sorted and keep every path
/// nonempty.
pub proof fn lemma_parse_entries_wf(s: Seq<char>, acc: Seq<(Seq<char>, PathEntry)>)
    requires
        wf_entry_seq(acc),
        forall|i: int| 0 <= i < acc.len() ==> (#[trigger] acc[i].0).len() > 0,
    ensures
        parse_entries_members(s, acc) is Some ==> {
            let es = (parse_entries_members(s, acc)->0).0;
            wf_entry_seq(es) && forall|i: int| 0 <= i < es.len() ==> (#[trigger] es[i].0).len() > 0
        },
    decreases s.len(),
{
    match parse_string(s) {
        None => {},
        Some((key, r1)) => {
            let r2 = skip_ws(r1);
            if r2.len() == 0 || r2[0] != ':' || key.len() == 0 {
            } else {
                let r3 = skip_ws(r2.skip(1));
                match parse_entry_obj(r3) {
                    None => {},
                    Some((pe, r4)) => {
                        let acc2 = insert_entry_spec(acc, key, pe);
                        lemma_insert_entry_wf(acc, key, pe);
                        assert forall|i: int| 0 <= i < acc2.len() implies (#[trigger] acc2[i].0).len()
                            > 0 by {
                            if acc2[i].0 != key {
                                let j = choose|j: int| 0 <= j < acc.len() && acc[j].0 == acc2[i].0;
                                assert(acc[j].0.len() > 0);
                            }
                        }
                        let r5 = skip_ws(r4);
                        if r5.len() == 0 {
                        } else if r5[0] == ',' {
                            let r6 = skip_ws(r5.skip(1));
                            if r6.len() < s.len() {
                                lemma_parse_entries_wf(r6, acc2);
                            }
                        }
                    },
                }
            }
        },
    }
}

/// The view of an optional string.
pub open spec fn opt_str_view(o: Option<String>) -> Option<Seq<char>> {
    match o {
        Some(s) => Some(s@),
        None => None,
    }
}

/// The view of an optional entry vector.
pub open spec fn opt_entries_view(o: Option<Vec<SnapshotEntry>>) -> Option<
    Seq<(Seq<char>, PathEntry)>,
> {
    match o {
        Some(v) => Some(entries_view(v@)),
        None => None,
    }
}

/// Parse the members of a metadata object, mirroring
/// `parse_entry_members`.
fn parse_entry_members_exec(
    v: &Vec<char>,
    i: usize,
    mt: Option<i64>,
    pm: Option<u32>,
    sz: Option<u64>,
    ft: Option<FileType>,
) -> (r: Option<(PathEntry, usize)>)
    requires
        i <= v.len(),
    ensures
        match parse_entry_members(v@.skip(i as int), mt, pm, sz, ft) {
            Some(p) => r is Some && (r->0).0 == p.0 && i <= (r->0).1 <= v.len() && v@.skip(
                (r->0).1 as int,
            ) == p.1,
            None => r is None,
        },
    decreases v.len() - i,
{
    let (key, j1) = match parse_string_exec(v, i) {
        Some(p) => p,
        None => {
            return None;
        },
    };
    let j2 = ws_exec(v, j1);
    if j2 == v.len() || v[j2] != ':' {
        proof {
            if j2 < v.len() {
                assert(v@.skip(j2 as int)[0] == v@[j2 as int]);
            }
        }
        return None;
    }
    proof {
        assert(v@.skip(j2 as int)[0] == v@[j2 as int]);
        assert(v@.skip(j2 as int).skip(1) =~= v@.skip(j2 + 1));
    }
    let j3 = ws_exec(v, j2 + 1);
    let mut mt2 = mt;
    let mut pm2 = pm;
    let mut sz2 = sz;
    let mut ft2 = ft;
    let j4: usize;
    if cmp_str(key.as_str(), "modTime") == 0 {
        match parse_i64_exec(v, j3) {
            Some((x, j)) => {
                mt2 = Some(x);
                j4 = j;
            },
            None => {
                return None;
            },
        }
    } else if cmp_str(key.as_str(), "permissions") == 0 {
        match parse_u64_exec(v, j3) {
            Some((x, j)) => {
                if x <= u32::MAX as u64 {
                    pm2 = Some(x as u32);
                    j4 = j;
                } else {
                    return None;
                }
            },
            None => {
                return None;
            },
        }
    } else if cmp_str(key.as_str(), "size") == 0 {
        match parse_u64_exec(v, j3) {
            Some((x, j)) => {
                sz2 = Some(x);
                j4 = j;
            },
            None => {
                return None;
            },
        }
    } else if cmp_str(key.as_str(), "type") == 0 {
        match parse_string_exec(v, j3) {
            Some((t, j)) => {
                if cmp_str(t.as_str(), "File") == 0 {
                    ft2 = Some(FileType::File);
                    j4 = j;
                } else if cmp_str(t.as_str(), "Directory") == 0 {
                    ft2 = Some(FileType::Directory);
                    j4 = j;
                } else if cmp_str(t.as_str(), "Symlink") == 0 {
                    ft2 = Some(FileType::Symlink);
                    j4 = j;
                } else {
                    return None;
                }
            },
            None => {
                return None;
            },
        }
    } else {
        match skip_value_exec(v, j3) {
            Some(j) => {
                j4 = j;
            },
            None => {
                return None;
            },
        }
    }
    let j5 = ws_exec(v, j4);
    if j5 == v.len() {
        return None;
    }
    proof {
        assert(v@.skip(j5 as int)[0] == v@[j5 as int]);
        assert(v@.skip(j5 as int).skip(1) =~= v@.skip(j5 + 1));
    }
    if v[j5] == ',' {
        let j6 = ws_exec(v, j5 + 1);
        if j6 > i {
            parse_entry_members_exec(v, j6, mt2, pm2, sz2, ft2)
        } else {
            None
        }
    } else if v[j5] == '}' {
        match (mt2, pm2, sz2, ft2) {
            (Some(a), Some(b), Some(z), Some(t)) => Some(
                (PathEntry { mod_time: a, permissions: b, size: z, ftype: t }, j5 + 1),
            ),
            _ => None,
        }
    } else {
        None
    }
}

/// Parse one metadata object, mirroring `parse_entry_obj`.
fn parse_entry_obj_exec(v: &Vec<char>, i: usize) -> (r: Option<(PathEntry, usize)>)
    requires
        i <= v.len(),
    ensures
        match parse_entry_obj(v@.skip(i as int)) {
            Some(p) => r is Some && (r->0).0 == p.0 && i <= (r->0).1 <= v.len() && v@.skip(
                (r->0).1 as int,
            ) == p.1,
            None => r is None,
        },
{
    if i == v.len() || v[i] != '{' {
        proof {
            if i < v.len() {
                assert(v@.skip(i as int)[0] == v@[i as int]);
            }
        }
        return None;
    }
    proof {
        assert(v@.skip(i as int)[0] == v@[i as int]);
        assert(v@.skip(i as int).skip(1) =~= v@.skip(i + 1));
    }
    let j = ws_exec(v, i + 1);
    parse_entry_members_exec(v, j, None, None, None, None)
}

/// Parse the members of the entries object, mirroring
/// `parse_entries_members`.
fn parse_entries_members_exec(v: &Vec<char>, i: usize, acc: Vec<SnapshotEntry>) -> (r: Option<
    (Vec<SnapshotEntry>, usize),
>)
    requires
        i <= v.len(),
    ensures
        match parse_entries_members(v@.skip(i as int), entries_view(acc@)) {
            Some(p) => r is Some && entries_view((r->0).0@) == p.0 && i <= (r->0).1 <= v.len()
                && v@.skip((r->0).1 as int) == p.1,
            None => r is None,
        },
    decreases v.len() - i,
{
    let mut acc = acc;
    let (key, j1) = match parse_string_exec(v, i) {
        Some(p) => p,
        None => {
            return None;
        },
    };
    let j2 = ws_exec(v, j1);
    if j2 == v.len() || v[j2] != ':' || key.as_str().is_empty() {
        proof {
            if j2 < v.len() {
                assert(v@.skip(j2 as int)[0] == v@[j2 as int]);
            }
        }
        return None;
    }
    proof {
        assert(v@.skip(j2 as int)[0] == v@[j2 as int]);
        assert(v@.skip(j2 as int).skip(1) =~= v@.skip(j2 + 1));
    }
    let j3 = ws_exec(v, j2 + 1);
    let (pe, j4) = match parse_entry_obj_exec(v, j3) {
        Some(p) => p,
        None => {
            return None;
        },
    };
    insert_entry(&mut acc, key, pe);
    let j5 = ws_exec(v, j4);
    if j5 == v.len() {
        return None;
    }
    proof {
        assert(v@.skip(j5 as int)[0] == v@[j5 as int]);
        assert(v@.skip(j5 as int).skip(1) =~= v@.skip(j5 + 1));
    }
    if v[j5] == ',' {
        let j6 = ws_exec(v, j5 + 1);
        if j6 > i {
            parse_entries_members_exec(v, j6, acc)
        } else {
            None
        }
    } else if v[j5] == '}' {
        Some((acc, j5 + 1))
    } else {
        None
    }
}

/// Parse the entries object, mirroring `parse_entries_obj`.
fn parse_entries_obj_exec(v: &Vec<char>, i: usize) -> (r: Option<(Vec<SnapshotEntry>, usize)>)
    requires
        i <= v.len(),
    ensures
        match parse_entries_obj(v@.skip(i as int)) {
            Some(p) => r is Some && entries_view((r->0).0@) == p.0 && i <= (r->0).1 <= v.len()
                && v@.skip((r->0).1 as int) == p.1,
            None => r is None,
        },
{
    if i == v.len() || v[i] != '{' {
        proof {
            if i < v.len() {
                assert(v@.skip(i as int)[0] == v@[i as int]);
            }
        }
        return None;
    }
    proof {
        assert(v@.skip(i as int)[0] == v@[i as int]);
        assert(v@.skip(i as int).skip(1) =~= v@.skip(i + 1));
    }
    let j = ws_exec(v, i + 1);
    if j < v.len() && v[j] == '}' {
        proof {
            assert(v@.skip(j as int)[0] == v@[j as int]);
            assert(v@.skip(j as int).skip(1) =~= v@.skip(j + 1));
            assert(entries_view(Seq::<SnapshotEntry>::empty()) =~= Seq::<
                (Seq<char>, PathEntry),
            >::empty());
        }
        return Some((Vec::new(), j + 1));
    }
    proof {
        if j < v.len() {
            assert(v@.skip(j as int)[0] == v@[j as int]);
        }
        assert(entries_view(Seq::<SnapshotEntry>::empty()) =~= Seq::<
            (Seq<char>, PathEntry),
        >::empty());
    }
    parse_entries_members_exec(v, j, Vec::new())
}

/// Parse the members of the snapshot object, mirroring
/// `parse_snapshot_members`.
fn parse_snapshot_members_exec(
    v: &Vec<char>,
    i: usize,
    st: Option<u64>,
    rt: Option<String>,
    en: Option<Vec<SnapshotEntry>>,
) -> (r: Option<((u64, String, Vec<SnapshotEntry>), usize)>)
    requires
        i <= v.len(),
    ensures
        match parse_snapshot_members(v@.skip(i as int), st, opt_str_view(rt), opt_entries_view(en)) {
            Some(p) => r is Some && ((r->0).0).0 == (p.0).0 && ((r->0).0).1@ == (p.0).1
                && entries_view(((r->0).0).2@) == (p.0).2 && i <= (r->0).1 <= v.len() && v@.skip(
                (r->0).1 as int,
            ) == p.1,
            None => r is None,
        },
    decreases v.len() - i,
{
    let (key, j1) = match parse_string_exec(v, i) {
        Some(p) => p,
        None => {
            return None;
        },
    };
    let j2 = ws_exec(v, j1);
    if j2 == v.len() || v[j2] != ':' {
        proof {
            if j2 < v.len() {
                assert(v@.skip(j2 as int)[0] == v@[j2 as int]);
            }
        }
        return None;
    }
    proof {
        assert(v@.skip(j2 as int)[0] == v@[j2 as int]);
        assert(v@.skip(j2 as int).skip(1) =~= v@.skip(j2 + 1));
    }
    let j3 = ws_exec(v, j2 + 1);
    let mut st2 = st;
    let mut rt2 = rt;
    let mut en2 = en;
    let j4: usize;
    if cmp_str(key.as_str(), "scanTime") == 0 {
        match parse_u64_exec(v, j3) {
            Some((x, j)) => {
                st2 = Some(x);
                j4 = j;
            },
            None => {
                return None;
            },
        }
    } else if cmp_str(key.as_str(), "root") == 0 {
        match parse_string_exec(v, j3) {
            Some((x, j)) => {
                rt2 = Some(x);
                j4 = j;
            },
            None => {
                return None;
            },
        }
    } else if cmp_str(key.as_str(), "entries") == 0 {
        match parse_entries_obj_exec(v, j3) {
            Some((x, j)) => {
                en2 = Some(x);
                j4 = j;
            },
            None => {
                return None;
            },
        }
    } else {
        match skip_value_exec(v, j3) {
            Some(j) => {
                j4 = j;
            },
            None => {
                return None;
            },
        }
    }
    let j5 = ws_exec(v, j4);
    if j5 == v.len() {
        return None;
    }
    proof {
        assert(v@.skip(j5 as int)[0] == v@[j5 as int]);
        assert(v@.skip(j5 as int).skip(1) =~= v@.skip(j5 + 1));
    }
    if v[j5] == ',' {
        let j6 = ws_exec(v, j5 + 1);
        if j6 > i {
            parse_snapshot_members_exec(v, j6, st2, rt2, en2)
        } else {
            None
        }
    } else if v[j5] == '}' {
        match (st2, rt2, en2) {
            (Some(t), Some(rootv), Some(esv)) => Some(((t, rootv, esv), j5 + 1)),
            _ => None,
        }
    } else {
        None
    }
}

/// Read a snapshot back from its persisted JSON record.
///
/// Accepts the three required fields in any order, tolerates unknown
/// additional fields, and fails with `MalformedSnapshot` exactly when the
/// text does not parse as a snapshot record — in particular when any
/// required field is missing.
pub fn from_json(s: &str) -> (r: Result<Snapshot, MalformedSnapshot>)
    ensures
        r is Ok <==> parse_snapshot_full(s@) is Some,
        r is Ok ==> r->Ok_0.scan_time == (parse_snapshot_full(s@)->0).0,
        r is Ok ==> r->Ok_0.root@ == (parse_snapshot_full(s@)->0).1,
        r is Ok ==> r->Ok_0.view_entries() == (parse_snapshot_full(s@)->0).2,
        r is Ok ==> r->Ok_0.wf(),
{
    let v = str_to_chars(s);
    proof {
        assert(v@.skip(0) =~= s@);
    }
    let j0 = ws_exec(&v, 0);
    if j0 == v.len() || v[j0] != '{' {
        proof {
            if j0 < v.len() {
                assert(v@.skip(j0 as int)[0] == v@[j0 as int]);
            }
        }
        return Err(MalformedSnapshot);
    }
    proof {
        assert(v@.skip(j0 as int)[0] == v@[j0 as int]);
        assert(v@.skip(j0 as int).skip(1) =~= v@.skip(j0 + 1));
    }
    let j1 = ws_exec(&v, j0 + 1);
    match parse_snapshot_members_exec(&v, j1, None, None, None) {
        Some(((t, root, entries), j)) => {
            let jr = ws_exec(&v, j);
            if jr == v.len() {
                proof {
                    lemma_parse_snapshot_members_wf(v@.skip(j1 as int), None, None, None);
                }
                Ok(Snapshot { scan_time: t, root, entries })
            } else {
                Err(MalformedSnapshot)
            }
        },
        None => Err(MalformedSnapshot),
    }
}

/// The entry sequence of any parsed snapshot record is well formed.
pub proof fn lemma_parse_snapshot_members_wf(
    s: Seq<char>,
    st: Option<u64>,
    rt: Option<Seq<char>>,
    en: Option<Seq<(Seq<char>, PathEntry)>>,
)
    requires
        en is Some ==> wf_entry_seq(en->0) && forall|i: int| 0 <= i < en->0.len() ==> (
        #[trigger] en->0[i].0).len() > 0,
    ensures
        parse_snapshot_members(s, st, rt, en) is Some ==> {
            let es = ((parse_snapshot_members(s, st, rt, en)->0).0).2;
            wf_entry_seq(es) && forall|i: int| 0 <= i < es.len() ==> (#[trigger] es[i].0).len() > 0
        },
    decreases s.len(),
{
    match parse_string(s) {
        None => {},
        Some((key, r1)) => {
            let r2 = skip_ws(r1);
            if r2.len() == 0 || r2[0] != ':' {
            } else {
                let r3 = skip_ws(r2.skip(1));
                // a freshly parsed entries object is well formed
                if key == "entries"@ && parse_entries_obj(r3) is Some {
                    let x = (parse_entries_obj(r3)->0).0;
                    assert(r3.len() > 0 && r3[0] == '{');
                    let s1 = skip_ws(r3.skip(1));
                    if s1.len() > 0 && s1[0] == '}' {
                        assert(x =~= Seq::<(Seq<char>, PathEntry)>::empty());
                    } else {
                        lemma_parse_entries_wf(s1, Seq::empty());
                        assert(x == (parse_entries_members(s1, Seq::empty())->0).0);
                    }
                    assert(wf_entry_seq(x) && forall|i: int| 0 <= i < x.len() ==> (
                    #[trigger] x[i].0).len() > 0);
                }
                // the slots as the spec carries them forward
                let st2: Option<u64> = if key == "scanTime"@ && parse_u64(r3) is Some {
                    Some((parse_u64(r3)->0).0)
                } else {
                    st
                };
                let rt2: Option<Seq<char>> = if key == "root"@ && parse_string(r3) is Some {
                    Some((parse_string(r3)->0).0)
                } else {
                    rt
                };
                let en2: Option<Seq<(Seq<char>, PathEntry)>> = if key == "entries"@
                    && parse_entries_obj(r3) is Some {
                    Some((parse_entries_obj(r3)->0).0)
                } else {
                    en
                };
                assert(en2 is Some ==> wf_entry_seq(en2->0) && forall|i: int|
                    0 <= i < en2->0.len() ==> (#[trigger] en2->0[i].0).len() > 0);
                let step_rest: Option<Seq<char>> = if key == "scanTime"@ {
                    match parse_u64(r3) {
                        Some((x, r4)) => Some(r4),
                        None => None,
                    }
                } else if key == "root"@ {
                    match parse_string(r3) {
                        Some((x, r4)) => Some(r4),
                        None => None,
                    }
                } else if key == "entries"@ {
                    match parse_entries_obj(r3) {
                        Some((x, r4)) => Some(r4),
                        None => None,
                    }
                } else {
                    skip_value_loop(r3, 0, false, false)
                };
                match step_rest {
                    Some(r4) => {
                        let r5 = skip_ws(r4);
                        if r5.len() > 0 && r5[0] == ',' {
                            let r6 = skip_ws(r5.skip(1));
                            if r6.len() < s.len() {
                                lemma_parse_snapshot_members_wf(r6, st2, rt2, en2);
                            }
                        }
                    },
                    None => {},
                }
            }
        },
    }
}

// ---------------------------------------------------------------------
// the round trip: parsing inverts the canonical rendering
// ---------------------------------------------------------------------

/// Ten to the `k`.
pub open spec fn pow10(k: nat) -> int
    decreases k,
{
    if k == 0 {
        1
    } else {
        10 * pow10((k - 1) as nat)
    }
}

/// Rendering a digit and reading it back returns its value.
proof fn lemma_digit_roundtrip(x: nat)
    requires
        x < 10,
    ensures
        dec_val(dec_digit(x)) == x,
        is_dec_digit(dec_digit(x)),
{
}

/// The rendering of a number is nonempty and starts with a digit.
proof fn lemma_dec_digits_first(n: nat)
    ensures
        dec_digits(n).len() >= 1,
        is_dec_digit(dec_digits(n)[0]),
    decreases n,
{
    if n < 10 {
        lemma_digit_roundtrip(n);
    } else {
        lemma_dec_digits_first(n / 10);
    }
}

/// Consuming the digits of `n` multiplies the accumulator by the right
/// power of ten and then continues with the rest.
proof fn lemma_parse_u64_loop_digits(n: nat, acc: u64, rest: Seq<char>)
    requires
        (acc as int) * pow10(dec_digits(n).len()) + n <= u64::MAX as int,
    ensures
        parse_u64_loop(dec_digits(n) + rest, acc) == parse_u64_loop(
            rest,
            ((acc as int) * pow10(dec_digits(n).len()) + n) as u64,
        ),
    decreases n,
{
    let ll = dec_digits(n);
    let len = ll.len();
    if n < 10 {
        lemma_digit_roundtrip(n);
        assert(pow10(0) == 1);
        assert(pow10(1) == 10);
        assert(len == 1);
        assert((ll + rest)[0] == dec_digit(n));
        assert((ll + rest).skip(1) =~= rest);
        assert((acc as int) * 10 + (n as int) <= u64::MAX as int);
        assert(parse_u64_loop(ll + rest, acc) == parse_u64_loop(
            rest,
            (acc * 10 + (dec_val(dec_digit(n)) as u64)) as u64,
        ));
    } else {
        let d = n % 10;
        let q = n / 10;
        vstd::arithmetic::div_mod::lemma_fundamental_div_mod(n as int, 10);
        let lq = dec_digits(q);
        assert(ll == lq + seq![dec_digit(d)]);
        assert(len == lq.len() + 1);
        assert(pow10(len) == 10 * pow10(lq.len()));
        let target = (acc as int) * pow10(len) + n;
        let m = (acc as int) * pow10(lq.len()) + q;
        assert(target == m * 10 + d) by (nonlinear_arith)
            requires
                target == (acc as int) * pow10(len) + n,
                m == (acc as int) * pow10(lq.len()) + q,
                pow10(len) == 10 * pow10(lq.len()),
                n as int == 10 * (q as int) + (d as int),
        ;
        lemma_pow10_pos(lq.len());
        assert(0 <= m) by (nonlinear_arith)
            requires
                m == (acc as int) * pow10(lq.len()) + q,
                acc >= 0,
                q >= 0,
                pow10(lq.len()) >= 1,
        ;
        assert(m <= u64::MAX as int);
        assert(ll + rest =~= lq + (seq![dec_digit(d)] + rest));
        lemma_parse_u64_loop_digits(q, acc, seq![dec_digit(d)] + rest);
        lemma_digit_roundtrip(d);
        let mid = seq![dec_digit(d)] + rest;
        assert(mid[0] == dec_digit(d));
        assert(mid.skip(1) =~= rest);
        assert((m as u64 as int) * 10 + (d as int) <= u64::MAX as int);
        assert(parse_u64_loop(mid, m as u64) == parse_u64_loop(
            rest,
            ((m as u64) * 10 + (dec_val(dec_digit(d)) as u64)) as u64,
        ));
        assert(((m as u64) * 10 + (d as u64)) as int == target);
    }
}

/// Powers of ten are positive.
proof fn lemma_pow10_pos(k: nat)
    ensures
        pow10(k) >= 1,
    decreases k,
{
    if k > 0 {
        lemma_pow10_pos((k - 1) as nat);
    }
}

/// Reading back the rendering of an unsigned number returns it, leaving
/// any non-digit continuation untouched.
proof fn lemma_parse_u64_ser(n: u64, rest: Seq<char>)
    requires
        rest.len() == 0 || !is_dec_digit(rest[0]),
    ensures
        parse_u64(dec_digits(n as nat) + rest) == Some((n, rest)),
{
    let ll = dec_digits(n as nat);
    lemma_dec_digits_first(n as nat);
    assert((ll + rest)[0] == ll[0]);
    lemma_pow10_pos(ll.len());
    assert((0int) * pow10(ll.len()) + (n as int) <= u64::MAX as int) by (nonlinear_arith)
        requires
            n <= u64::MAX,
    ;
    lemma_parse_u64_loop_digits(n as nat, 0, rest);
    assert(((0int) * pow10(ll.len()) + n as int) as u64 == n) by (nonlinear_arith);
    assert(parse_u64_loop(rest, n) == Some((n, rest)));
}

/// Reading back the rendering of a signed number returns it.
proof fn lemma_parse_i64_ser(m: i64, rest: Seq<char>)
    requires
        rest.len() == 0 || !is_dec_digit(rest[0]),
    ensures
        parse_i64(ser_i64(m) + rest) == Some((m, rest)),
{
    if m < 0 {
        let g = -(m as int);
        let text = ser_i64(m) + rest;
        assert(text =~= seq!['-'] + (dec_digits(g as nat) + rest));
        assert(text[0] == '-');
        assert(text.skip(1) =~= dec_digits(g as nat) + rest);
        lemma_parse_u64_ser(g as u64, rest);
        assert(dec_digits((g as u64) as nat) == dec_digits(g as nat));
        assert(parse_u64(text.skip(1)) == Some((g as u64, rest)));
        assert((g as u64) as int <= 0x8000_0000_0000_0000);
        assert((-((g as u64) as int)) as i64 == m);
    } else {
        let text = ser_i64(m) + rest;
        assert(text =~= dec_digits(m as nat) + rest);
        lemma_parse_u64_ser(m as u64, rest);
        assert(dec_digits((m as u64) as nat) == dec_digits(m as nat));
        lemma_dec_digits_first(m as nat);
        assert(text[0] == dec_digits(m as nat)[0]);
        assert(is_dec_digit(text[0]));
        assert(text[0] != '-');
        assert(parse_u64(text) == Some((m as u64, rest)));
        assert((m as u64) as int <= i64::MAX as int);
    }
}

/// Rendering a hexadecimal digit and reading it back returns its value.
proof fn lemma_hex_roundtrip(x: nat)
    requires
        x < 16,
    ensures
        hex_val(hex_digit(x)) == x,
{
}

/// Reading a string body back across its escaped rendering appends the
/// original characters and stops at the closing quote.
proof fn lemma_parse_str_esc(s: Seq<char>, acc: Seq<char>, rest: Seq<char>)
    ensures
        parse_str_loop(esc(s) + (seq!['"'] + rest), acc) == Some((acc + s, rest)),
    decreases s.len(),
{
    if s.len() == 0 {
        let text = esc(s) + (seq!['"'] + rest);
        assert(text =~= seq!['"'] + rest);
        assert(text[0] == '"');
        assert(text.skip(1) =~= rest);
        assert(acc + s =~= acc);
    } else {
        let c = s[0];
        let tail = esc(s.skip(1)) + (seq!['"'] + rest);
        let text = esc(s) + (seq!['"'] + rest);
        assert(text =~= esc_char(c) + tail);
        lemma_parse_str_esc(s.skip(1), acc.push(c), rest);
        assert(acc.push(c) + s.skip(1) =~= acc + s);
        if c == '"' {
            assert(text[0] == '\\' && text[1] == '"');
            assert(text.skip(2) =~= tail);
        } else if c == '\\' {
            assert(text[0] == '\\' && text[1] == '\\');
            assert(text.skip(2) =~= tail);
        } else if (c as u32) < 32 {
            let hi = ((c as u32) / 16) as nat;
            let lo = ((c as u32) % 16) as nat;
            assert(text[0] == '\\' && text[1] == 'u' && text[2] == '0' && text[3] == '0' && text[4]
                == hex_digit(hi) && text[5] == hex_digit(lo));
            assert(text.len() >= 6);
            lemma_hex_roundtrip(hi);
            lemma_hex_roundtrip(lo);
            let value = hex_val(text[2]) * 4096 + hex_val(text[3]) * 256 + hex_val(text[4]) * 16
                + hex_val(text[5]);
            assert(value == hi * 16 + lo);
            assert(value == c as u32) by {
                vstd::arithmetic::div_mod::lemma_fundamental_div_mod((c as u32) as int, 16);
            }
            assert(value < 32);
            vstd::utf8::char_u32_cast(c, c as u32);
            assert(((value as u32) as char) == c);
            assert(text.skip(6) =~= tail);
        } else {
            assert(text[0] == c);
            assert(text.skip(1) =~= tail);
        }
    }
}

/// Reading back a rendered string returns its content, leaving the
/// continuation untouched.
proof fn lemma_parse_string_ser(k: Seq<char>, rest: Seq<char>)
    ensures
        parse_string(ser_string(k) + rest) == Some((k, rest)),
{
    let text = ser_string(k) + rest;
    assert(text[0] == '"');
    assert(text.skip(1) =~= esc(k) + (seq!['"'] + rest));
    lemma_parse_str_esc(k, Seq::empty(), rest);
    assert(Seq::<char>::empty() + k =~= k);
}

/// The three persisted type tags are distinct and name their types.
proof fn lemma_tag_roundtrip(t: FileType)
    ensures
        tag_of(ftype_tag(t)) == Some(t),
{
    reveal_strlit("File");
    reveal_strlit("Directory");
    reveal_strlit("Symlink");
    assert("File"@.len() == 4);
    assert("Directory"@.len() == 9);
    assert("Symlink"@.len() == 7);
    match t {
        FileType::File => {
            assert(ftype_tag(t) == "File"@);
        },
        FileType::Directory => {
            assert(ftype_tag(t) == "Directory"@);
            assert("Directory"@ != "File"@);
        },
        FileType::Symlink => {
            assert(ftype_tag(t) == "Symlink"@);
            assert("Symlink"@ != "File"@);
            assert("Symlink"@ != "Directory"@);
        },
    }
}

/// A rendered member parses as its key, a colon follows, and the value
/// begins right after; no whitespace intervenes anywhere.
proof fn lemma_member_step(k: Seq<char>, val: Seq<char>, tail: Seq<char>)
    requires
        val.len() > 0,
        !is_ws(val[0]),
    ensures
        skip_ws(ser_member(k, val) + tail) == ser_member(k, val) + tail,
        parse_string(ser_member(k, val) + tail) == Some((k, seq![':'] + (val + tail))),
        skip_ws(seq![':'] + (val + tail)) == seq![':'] + (val + tail),
        (seq![':'] + (val + tail)).len() > 0,
        (seq![':'] + (val + tail))[0] == ':',
        skip_ws((seq![':'] + (val + tail)).skip(1)) == val + tail,
        (ser_member(k, val) + tail).len() > val.len() + tail.len(),
{
    let text = ser_member(k, val) + tail;
    assert(ser_string(k)[0] == '"');
    assert(text[0] == '"');
    assert(!is_ws('"'));
    assert(text =~= ser_string(k) + (seq![':'] + (val + tail)));
    lemma_parse_string_ser(k, seq![':'] + (val + tail));
    let r1 = seq![':'] + (val + tail);
    assert(r1[0] == ':');
    assert(!is_ws(':'));
    assert(r1.skip(1) =~= val + tail);
    assert((val + tail)[0] == val[0]);
}

/// The rendering of a number begins with a digit or a minus sign, never
/// with whitespace.
proof fn lemma_number_first(m: i64)
    ensures
        ser_i64(m).len() > 0,
        !is_ws(ser_i64(m)[0]),
{
    if m < 0 {
        assert(ser_i64(m)[0] == '-');
    } else {
        lemma_dec_digits_first(m as nat);
        let c = ser_i64(m)[0];
        assert(is_dec_digit(c));
        assert(!is_ws(c));
    }
}

/// Reading back a rendered metadata object returns it.
#[verifier::rlimit(100)]
proof fn lemma_parse_entry_ser(d: PathEntry, rest: Seq<char>)
    ensures
        parse_entry_obj(ser_entry(d) + rest) == Some((d, rest)),
{
    reveal_strlit("modTime");
    reveal_strlit("permissions");
    reveal_strlit("size");
    reveal_strlit("type");
    assert("modTime"@.len() == 7);
    assert("permissions"@.len() == 11);
    assert("size"@.len() == 4);
    assert("type"@.len() == 4);
    assert("type"@[0] == 't' && "size"@[0] == 's');
    assert("permissions"@ != "modTime"@);
    assert("size"@ != "modTime"@ && "size"@ != "permissions"@);
    assert("type"@ != "modTime"@ && "type"@ != "permissions"@ && "type"@ != "size"@);
    let v1 = ser_i64(d.mod_time);
    let v2 = dec_digits(d.permissions as nat);
    let v3 = ser_u64(d.size);
    let v4 = ser_string(ftype_tag(d.ftype));
    let t4 = ser_member("type"@, v4) + (seq!['}'] + rest);
    let t3 = ser_member("size"@, v3) + (seq![','] + t4);
    let t2 = ser_member("permissions"@, v2) + (seq![','] + t3);
    let t1 = ser_member("modTime"@, v1) + (seq![','] + t2);
    let text = ser_entry(d) + rest;
    assert(text =~= seq!['{'] + t1);
    assert(text[0] == '{');
    assert(text.skip(1) =~= t1);
    // member 1: modTime
    lemma_number_first(d.mod_time);
    lemma_member_step("modTime"@, v1, seq![','] + t2);
    assert(skip_ws(text.skip(1)) == t1);
    lemma_parse_i64_ser(d.mod_time, seq![','] + t2);
    let sep1 = seq![','] + t2;
    assert(sep1[0] == ',' && !is_ws(','));
    assert(skip_ws(sep1) == sep1);
    assert(sep1.skip(1) =~= t2);
    assert(skip_ws(t2) == t2) by {
        assert(ser_string("permissions"@)[0] == '"');
        assert(t2[0] == '"');
    }
    assert(t2.len() < t1.len());
    // member 2: permissions
    lemma_dec_digits_first(d.permissions as nat);
    assert(v2.len() > 0 && !is_ws(v2[0]));
    lemma_member_step("permissions"@, v2, seq![','] + t3);
    lemma_parse_u64_ser(d.permissions as u64, seq![','] + t3);
    assert(dec_digits((d.permissions as u64) as nat) == v2);
    let sep2 = seq![','] + t3;
    assert(sep2[0] == ',');
    assert(skip_ws(sep2) == sep2);
    assert(sep2.skip(1) =~= t3);
    assert(skip_ws(t3) == t3) by {
        assert(ser_string("size"@)[0] == '"');
        assert(t3[0] == '"');
    }
    assert(t3.len() < t2.len());
    assert((d.permissions as u64) <= u32::MAX as u64);
    assert((d.permissions as u64) as u32 == d.permissions);
    // member 3: size
    lemma_dec_digits_first(d.size as nat);
    assert(v3.len() > 0 && !is_ws(v3[0]));
    lemma_member_step("size"@, v3, seq![','] + t4);
    lemma_parse_u64_ser(d.size, seq![','] + t4);
    let sep3 = seq![','] + t4;
    assert(sep3[0] == ',');
    assert(skip_ws(sep3) == sep3);
    assert(sep3.skip(1) =~= t4);
    assert(skip_ws(t4) == t4) by {
        assert(ser_string("type"@)[0] == '"');
        assert(t4[0] == '"');
    }
    assert(t4.len() < t3.len());
    // member 4: type
    assert(v4[0] == '"' && !is_ws('"'));
    lemma_member_step("type"@, v4, seq!['}'] + rest);
    lemma_parse_string_ser(ftype_tag(d.ftype), seq!['}'] + rest);
    assert(v4 + (seq!['}'] + rest) =~= ser_string(ftype_tag(d.ftype)) + (seq!['}'] + rest));
    lemma_tag_roundtrip(d.ftype);
    let sep4 = seq!['}'] + rest;
    assert(sep4[0] == '}');
    assert(skip_ws(sep4) == sep4);
    assert(sep4.skip(1) =~= rest);
    // the four members assemble the original record
    assert(d == PathEntry {
        mod_time: d.mod_time,
        permissions: d.permissions,
        size: d.size,
        ftype: d.ftype,
    });
    assert(parse_entry_members(t4, Some(d.mod_time), Some(d.permissions), Some(d.size), None)
        == Some((d, rest)));
    assert(parse_entry_members(t3, Some(d.mod_time), Some(d.permissions), None, None) == Some(
        (d, rest),
    ));
    assert(parse_entry_members(t2, Some(d.mod_time), None, None, None) == Some((d, rest)));
    assert(parse_entry_members(t1, None, None, None, None) == Some((d, rest)));
}

/// Reading back the rendered members of the entries object appends the
/// entries, in order, to what was accumulated.
#[verifier::rlimit(100)]
proof fn lemma_parse_entries_ser(
    es: Seq<(Seq<char>, PathEntry)>,
    acc: Seq<(Seq<char>, PathEntry)>,
    rest: Seq<char>,
)
    requires
        es.len() > 0,
        wf_entry_seq(acc + es),
        forall|i: int| 0 <= i < es.len() ==> (#[trigger] es[i].0).len() > 0,
    ensures
        parse_entries_members(
            ser_member(es[0].0, ser_entry(es[0].1)) + (ser_entries_mid(es.skip(1)) + (seq!['}']
                + rest)),
            acc,
        ) == Some((acc + es, rest)),
    decreases es.len(),
{
    let k = es[0].0;
    let pe = es[0].1;
    let tail = ser_entries_mid(es.skip(1)) + (seq!['}'] + rest);
    let text = ser_member(k, ser_entry(pe)) + tail;
    assert(ser_entry(pe)[0] == '{');
    assert(!is_ws('{'));
    lemma_member_step(k, ser_entry(pe), tail);
    lemma_parse_entry_ser(pe, tail);
    // the new entry lands at the end of the accumulator
    assert(forall|j: int| 0 <= j < acc.len() ==> str_lt((acc + es)[j].0, (acc + es)[acc.len() as int].0));
    assert forall|j: int| 0 <= j < acc.len() implies str_lt(#[trigger] acc[j].0, k) by {
        assert((acc + es)[j] == acc[j]);
        assert((acc + es)[acc.len() as int] == es[0]);
    }
    lemma_insert_entry_at(acc, k, pe, acc.len() as int);
    assert(es[0] == (k, pe));
    assert(insert_entry_spec(acc, k, pe) =~= acc.push(es[0]));
    if es.len() == 1 {
        assert(es.skip(1).len() == 0);
        assert(ser_entries_mid(es.skip(1)) == Seq::<char>::empty());
        assert(tail =~= seq!['}'] + rest);
        assert(tail[0] == '}');
        assert(skip_ws(tail) == tail);
        assert(tail.skip(1) =~= rest);
        assert(acc.push(es[0]) =~= acc + es);
        assert(parse_entries_members(text, acc) == Some((acc + es, rest)));
    } else {
        let es1 = es.skip(1);
        assert(es1.len() > 0);
        assert(ser_entries_mid(es1) == seq![','] + ser_member(es1[0].0, ser_entry(es1[0].1))
            + ser_entries_mid(es1.skip(1)));
        let next = ser_member(es1[0].0, ser_entry(es1[0].1)) + (ser_entries_mid(es1.skip(1)) + (
        seq!['}'] + rest));
        assert(tail =~= seq![','] + next);
        assert(tail[0] == ',');
        assert(skip_ws(tail) == tail);
        assert(tail.skip(1) =~= next);
        assert(skip_ws(next) == next) by {
            assert(ser_string(es1[0].0)[0] == '"');
            assert(next[0] == '"');
        }
        assert(next.len() < text.len());
        assert(acc.push(es[0]) + es1 =~= acc + es);
        assert(forall|i: int| 0 <= i < es1.len() ==> es1[i] == es[i + 1]);
        lemma_parse_entries_ser(es1, acc.push(es[0]), rest);
        assert(parse_entries_members(next, acc.push(es[0])) == Some((acc + es, rest)));
        assert(parse_entries_members(text, acc) == Some((acc + es, rest)));
    }
}

/// Round trip: reading back the canonical rendering of a well-formed
/// snapshot record returns exactly its scan time, root and entries.
#[verifier::rlimit(100)]
pub proof fn lemma_snapshot_round_trip(t: u64, root: Seq<char>, es: Seq<(Seq<char>, PathEntry)>)
    requires
        wf_entry_seq(es),
        forall|i: int| 0 <= i < es.len() ==> (#[trigger] es[i].0).len() > 0,
    ensures
        parse_snapshot_full(ser_snapshot(t, root, es)) == Some((t, root, es)),
{
    reveal_strlit("scanTime");
    reveal_strlit("root");
    reveal_strlit("entries");
    assert("scanTime"@.len() == 8);
    assert("root"@.len() == 4);
    assert("entries"@.len() == 7);
    assert("root"@ != "scanTime"@);
    assert("entries"@ != "scanTime"@ && "entries"@ != "root"@);
    let v1 = ser_u64(t);
    let v2 = ser_string(root);
    let v3 = ser_entries(es);
    let t3 = ser_member("entries"@, v3) + (seq!['}'] + Seq::<char>::empty());
    let t2 = ser_member("root"@, v2) + (seq![','] + t3);
    let t1 = ser_member("scanTime"@, v1) + (seq![','] + t2);
    let text = ser_snapshot(t, root, es);
    assert(text =~= seq!['{'] + t1);
    assert(text[0] == '{');
    assert(!is_ws('{'));
    assert(skip_ws(text) == text);
    assert(text.skip(1) =~= t1);
    // member 1: scanTime
    lemma_dec_digits_first(t as nat);
    assert(v1.len() > 0 && !is_ws(v1[0]));
    lemma_member_step("scanTime"@, v1, seq![','] + t2);
    assert(skip_ws(text.skip(1)) == t1);
    lemma_parse_u64_ser(t, seq![','] + t2);
    let sep1 = seq![','] + t2;
    assert(sep1[0] == ',');
    assert(skip_ws(sep1) == sep1);
    assert(sep1.skip(1) =~= t2);
    assert(skip_ws(t2) == t2) by {
        assert(ser_string("root"@)[0] == '"');
        assert(t2[0] == '"');
    }
    assert(t2.len() < t1.len());
    // member 2: root
    assert(v2[0] == '"' && !is_ws('"'));
    lemma_member_step("root"@, v2, seq![','] + t3);
    lemma_parse_string_ser(root, seq![','] + t3);
    assert(v2 + (seq![','] + t3) =~= ser_string(root) + (seq![','] + t3));
    let sep2 = seq![','] + t3;
    assert(sep2[0] == ',');
    assert(skip_ws(sep2) == sep2);
    assert(sep2.skip(1) =~= t3);
    assert(skip_ws(t3) == t3) by {
        assert(ser_string("entries"@)[0] == '"');
        assert(t3[0] == '"');
    }
    assert(t3.len() < t2.len());
    // member 3: entries
    assert(v3[0] == '{' && !is_ws('{'));
    lemma_member_step("entries"@, v3, seq!['}'] + Seq::<char>::empty());
    let close = seq!['}'] + Seq::<char>::empty();
    if es.len() == 0 {
        assert(v3 =~= seq!['{', '}']);
        let inner = v3 + close;
        assert(inner[0] == '{');
        assert(inner.skip(1) =~= seq!['}'] + close);
        assert(inner.skip(1)[0] == '}');
        assert(skip_ws(inner.skip(1)) == inner.skip(1));
        assert(inner.skip(1).skip(1) =~= close);
        assert(parse_entries_obj(inner) == Some((Seq::<(Seq<char>, PathEntry)>::empty(), close)));
        assert(Seq::<(Seq<char>, PathEntry)>::empty() =~= es);
    } else {
        let member = ser_member(es[0].0, ser_entry(es[0].1));
        assert(v3 =~= seq!['{'] + (member + ser_entries_mid(es.skip(1)) + seq!['}']));
        let inner = v3 + close;
        assert(inner[0] == '{');
        let body = member + (ser_entries_mid(es.skip(1)) + (seq!['}'] + close));
        assert(inner.skip(1) =~= body);
        assert(body[0] == '"') by {
            assert(ser_string(es[0].0)[0] == '"');
        }
        assert(skip_ws(inner.skip(1)) == body);
        assert(body[0] != '}');
        assert(Seq::<(Seq<char>, PathEntry)>::empty() + es =~= es);
        lemma_parse_entries_ser(es, Seq::empty(), close);
        assert(parse_entries_obj(inner) == Some((es, close)));
    }
    assert(close[0] == '}');
    assert(skip_ws(close) == close);
    assert(close.skip(1) =~= Seq::<char>::empty());
    assert(skip_ws(Seq::<char>::empty()).len() == 0);
    assert(parse_snapshot_members(t3, Some(t), Some(root), None) == Some(
        ((t, root, es), Seq::<char>::empty()),
    ));
    assert(parse_snapshot_members(t2, Some(t), None, None) == Some(
        ((t, root, es), Seq::<char>::empty()),
    ));
    assert(parse_snapshot_members(t1, None, None, None) == Some(
        ((t, root, es), Seq::<char>::empty()),
    ));
}

} // verus!
