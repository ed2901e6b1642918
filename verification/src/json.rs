//! A verified parser for the line-delimited JSON session format: one
//! header object on the first line, one event array per following line,
//! and a cut-configuration object.
//!
//! Structural validation is a single character-at-a-time automaton
//! (`scan_step`) over the full JSON grammar, including string escapes,
//! surrogate pairs and numbers with fractions and exponents. Separate
//! interpreter functions read the validated text back out: string
//! contents as decoded characters, and numbers as clipped microsecond
//! timestamps.
use vstd::prelude::*;

use crate::events::{Cut, Error, Event, EventV, Header, Screencast};

verus! {

// ---------------------------------------------------------------------
// Character classes
// ---------------------------------------------------------------------

/// JSON insignificant whitespace.
pub open spec fn is_ws(c: char) -> bool {
    c == ' ' || c == '\t' || c == '\n' || c == '\r'
}

/// An ASCII decimal digit.
pub open spec fn is_digit(c: char) -> bool {
    48 <= c as u32 <= 57
}

/// The numeric value of a decimal digit.
pub open spec fn digit_val(c: char) -> int {
    c as u32 - 48
}

/// The numeric value of a hexadecimal digit, or -1 for any other
/// character.
pub open spec fn hex_val(c: char) -> int {
    if 48 <= c as u32 <= 57 {
        c as u32 - 48
    } else if 97 <= c as u32 <= 102 {
        c as u32 - 87
    } else if 65 <= c as u32 <= 70 {
        c as u32 - 55
    } else {
        -1
    }
}

/// The first position at or after `pos` that does not hold whitespace.
pub open spec fn ws_end(s: Seq<char>, pos: int) -> int
    decreases s.len() - pos,
{
    if 0 <= pos < s.len() && is_ws(s[pos]) {
        ws_end(s, pos + 1)
    } else {
        pos
    }
}

/// Skipping whitespace stays within the input and stops at the first
/// non-whitespace character.
pub proof fn lemma_ws_end(s: Seq<char>, pos: int)
    requires
        0 <= pos <= s.len(),
    ensures
        pos <= ws_end(s, pos) <= s.len(),
        ws_end(s, pos) < s.len() ==> !is_ws(s[ws_end(s, pos)]),
    decreases s.len() - pos,
{
    if pos < s.len() && is_ws(s[pos]) {
        lemma_ws_end(s, pos + 1);
    }
}

/// The first position at or after `pos` that does not hold a decimal
/// digit.
pub open spec fn digits_end(s: Seq<char>, pos: int) -> int
    decreases s.len() - pos,
{
    if 0 <= pos < s.len() && is_digit(s[pos]) {
        digits_end(s, pos + 1)
    } else {
        pos
    }
}

/// Skipping digits stays within the input and stops at the first
/// non-digit.
pub proof fn lemma_digits_end(s: Seq<char>, pos: int)
    requires
        0 <= pos <= s.len(),
    ensures
        pos <= digits_end(s, pos) <= s.len(),
        digits_end(s, pos) < s.len() ==> !is_digit(s[digits_end(s, pos)]),
        forall|i: int| pos <= i < digits_end(s, pos) ==> is_digit(s[i]),
    decreases s.len() - pos,
{
    if pos < s.len() && is_digit(s[pos]) {
        lemma_digits_end(s, pos + 1);
    }
}

/// Skips whitespace in a character buffer.
fn skip_ws(s: &Vec<char>, pos: usize) -> (r: usize)
    requires
        pos <= s.len(),
    ensures
        r == ws_end(s@, pos as int),
        pos <= r <= s.len(),
{
    proof {
        lemma_ws_end(s@, pos as int);
    }
    let mut p = pos;
    while p < s.len() && (s[p] == ' ' || s[p] == '\t' || s[p] == '\n' || s[p] == '\r')
        invariant
            pos <= p <= s.len(),
            ws_end(s@, pos as int) == ws_end(s@, p as int),
        decreases s.len() - p,
    {
        p = p + 1;
    }
    p
}

// ---------------------------------------------------------------------
// Structural validation: a character-at-a-time automaton over the JSON
// grammar. `scan_value` returns the exclusive end of one JSON value, or
// `None` when the text is not valid JSON.
// ---------------------------------------------------------------------

/// The number automaton's position inside a numeric literal.
#[derive(Clone, Copy, PartialEq, Eq, Structural, Debug)]
pub enum NumSt {
    /// After a leading minus sign.
    Minus,
    /// After a leading zero.
    Zero,
    /// Inside the integer digit run.
    Int,
    /// After the decimal point.
    Dot,
    /// Inside the fraction digit run.
    Frac,
    /// After `e` or `E`.
    Exp,
    /// After the exponent's sign.
    ExpSign,
    /// Inside the exponent digit run.
    ExpDigits,
}

/// The scanning automaton's mode between two characters.
#[derive(Clone, Copy, PartialEq, Eq, Structural, Debug)]
pub enum Mode {
    /// Expecting the first character of a value.
    Val,
    /// Just after `[`: expecting a value or an immediate `]`.
    ValOrClose,
    /// A value has been completed inside a container.
    AfterVal,
    /// Just after `{`: expecting a key string or an immediate `}`.
    KeyOrClose,
    /// After `,` inside an object: expecting a key string.
    Key,
    /// After a key string: expecting `:`.
    AfterKey,
    /// Inside a string; `key` tells whether it is an object key.
    Str { key: bool },
    /// After a backslash inside a string.
    StrEsc { key: bool },
    /// Inside a `\u` escape with `left` hex digits still to read; `high`
    /// is set while reading the low half of a surrogate pair, whose high
    /// half is `first`.
    StrHex { key: bool, high: bool, have: u32, left: u8, first: u32 },
    /// After a high surrogate: expecting the `\` of the mandatory low
    /// surrogate escape.
    StrPairEsc { key: bool, first: u32 },
    /// After that backslash: expecting `u`.
    StrPairU { key: bool, first: u32 },
    /// Inside `true`, `false` or `null` (`kind` is the first letter)
    /// with `left` characters still to read.
    Lit { kind: char, left: u8 },
    /// Inside a number.
    Num(NumSt),
}

/// Ordering used to show the automaton terminates: the only transition
/// that does not consume a character steps from a number into
/// `AfterVal`, or from `ValOrClose` back to `Val`.
pub open spec fn mode_rank(m: Mode) -> int {
    match m {
        Mode::AfterVal => 0,
        Mode::Val => 1,
        _ => 2,
    }
}

/// True in the number states that may legally end a numeric literal.
pub open spec fn num_accepts(n: NumSt) -> bool {
    n == NumSt::Zero || n == NumSt::Int || n == NumSt::Frac || n == NumSt::ExpDigits
}

/// The next expected character inside a literal keyword, by first
/// letter and count of characters still to read.
pub open spec fn lit_expect(kind: char, left: u8) -> char {
    if kind == 't' {
        if left == 3 {
            'r'
        } else if left == 2 {
            'u'
        } else {
            'e'
        }
    } else if kind == 'f' {
        if left == 4 {
            'a'
        } else if left == 3 {
            'l'
        } else if left == 2 {
            's'
        } else {
            'e'
        }
    } else {
        if left == 3 {
            'u'
        } else {
            'l'
        }
    }
}

/// Runs the automaton from `pos` in mode `m` with the given stack of
/// open containers (`true` = array, `false` = object). Returns the
/// exclusive end of the value being scanned, or `None` when the text is
/// not valid JSON.
pub open spec fn scan_step(s: Seq<char>, pos: int, m: Mode, stack: Seq<bool>) -> Option<int>
    decreases s.len() - pos, mode_rank(m),
{
    if pos < 0 {
        None
    } else if pos >= s.len() {
        if pos == s.len() && (m matches Mode::Num(n) && num_accepts(n) && stack.len() == 0) {
            Some(pos)
        } else {
            None
        }
    } else {
        let c = s[pos];
        match m {
            Mode::Val => {
                if is_ws(c) {
                    scan_step(s, pos + 1, Mode::Val, stack)
                } else if c == '"' {
                    scan_step(s, pos + 1, Mode::Str { key: false }, stack)
                } else if c == '{' {
                    scan_step(s, pos + 1, Mode::KeyOrClose, stack.push(false))
                } else if c == '[' {
                    scan_step(s, pos + 1, Mode::ValOrClose, stack.push(true))
                } else if c == '-' {
                    scan_step(s, pos + 1, Mode::Num(NumSt::Minus), stack)
                } else if c as u32 == 48 {
                    scan_step(s, pos + 1, Mode::Num(NumSt::Zero), stack)
                } else if is_digit(c) {
                    scan_step(s, pos + 1, Mode::Num(NumSt::Int), stack)
                } else if c == 't' {
                    scan_step(s, pos + 1, Mode::Lit { kind: 't', left: 3 }, stack)
                } else if c == 'f' {
                    scan_step(s, pos + 1, Mode::Lit { kind: 'f', left: 4 }, stack)
                } else if c == 'n' {
                    scan_step(s, pos + 1, Mode::Lit { kind: 'n', left: 3 }, stack)
                } else {
                    None
                }
            },
            Mode::ValOrClose => {
                if is_ws(c) {
                    scan_step(s, pos + 1, Mode::ValOrClose, stack)
                } else if c == ']' {
                    if stack.len() > 0 && stack.last() == true {
                        if stack.len() == 1 {
                            Some(pos + 1)
                        } else {
                            scan_step(s, pos + 1, Mode::AfterVal, stack.drop_last())
                        }
                    } else {
                        None
                    }
                } else {
                    scan_step(s, pos, Mode::Val, stack)
                }
            },
            Mode::AfterVal => {
                if stack.len() == 0 {
                    None
                } else if is_ws(c) {
                    scan_step(s, pos + 1, Mode::AfterVal, stack)
                } else if c == ',' {
                    if stack.last() == true {
                        scan_step(s, pos + 1, Mode::Val, stack)
                    } else {
                        scan_step(s, pos + 1, Mode::Key, stack)
                    }
                } else if c == ']' {
                    if stack.last() == true {
                        if stack.len() == 1 {
                            Some(pos + 1)
                        } else {
                            scan_step(s, pos + 1, Mode::AfterVal, stack.drop_last())
                        }
                    } else {
                        None
                    }
                } else if c == '}' {
                    if stack.last() == false {
                        if stack.len() == 1 {
                            Some(pos + 1)
                        } else {
                            scan_step(s, pos + 1, Mode::AfterVal, stack.drop_last())
                        }
                    } else {
                        None
                    }
                } else {
                    None
                }
            },
            Mode::KeyOrClose => {
                if is_ws(c) {
                    scan_step(s, pos + 1, Mode::KeyOrClose, stack)
                } else if c == '"' {
                    scan_step(s, pos + 1, Mode::Str { key: true }, stack)
                } else if c == '}' {
                    if stack.len() > 0 && stack.last() == false {
                        if stack.len() == 1 {
                            Some(pos + 1)
                        } else {
                            scan_step(s, pos + 1, Mode::AfterVal, stack.drop_last())
                        }
                    } else {
                        None
                    }
                } else {
                    None
                }
            },
            Mode::Key => {
                if is_ws(c) {
                    scan_step(s, pos + 1, Mode::Key, stack)
                } else if c == '"' {
                    scan_step(s, pos + 1, Mode::Str { key: true }, stack)
                } else {
                    None
                }
            },
            Mode::AfterKey => {
                if is_ws(c) {
                    scan_step(s, pos + 1, Mode::AfterKey, stack)
                } else if c == ':' {
                    scan_step(s, pos + 1, Mode::Val, stack)
                } else {
                    None
                }
            },
            Mode::Str { key } => {
                if c == '"' {
                    if key {
                        scan_step(s, pos + 1, Mode::AfterKey, stack)
                    } else if stack.len() == 0 {
                        Some(pos + 1)
                    } else {
                        scan_step(s, pos + 1, Mode::AfterVal, stack)
                    }
                } else if c == '\\' {
                    scan_step(s, pos + 1, Mode::StrEsc { key }, stack)
                } else if (c as u32) < 32 {
                    None
                } else {
                    scan_step(s, pos + 1, Mode::Str { key }, stack)
                }
            },
            Mode::StrEsc { key } => {
                if c == '"' || c == '\\' || c == '/' || c == 'b' || c == 'f' || c == 'n' || c
                    == 'r' || c == 't' {
                    scan_step(s, pos + 1, Mode::Str { key }, stack)
                } else if c == 'u' {
                    scan_step(
                        s,
                        pos + 1,
                        Mode::StrHex { key, high: false, have: 0, left: 4, first: 0 },
                        stack,
                    )
                } else {
                    None
                }
            },
            Mode::StrHex { key, high, have, left, first } => {
                if hex_val(c) >= 0 && have < 0x1000 {
                    let acc = (have * 16 + hex_val(c)) as u32;
                    if left > 1 {
                        scan_step(
                            s,
                            pos + 1,
                            Mode::StrHex { key, high, have: acc, left: (left - 1) as u8, first },
                            stack,
                        )
                    } else if !high {
                        if 0xD800 <= acc < 0xDC00 {
                            scan_step(s, pos + 1, Mode::StrPairEsc { key, first: acc }, stack)
                        } else if 0xDC00 <= acc < 0xE000 {
                            None
                        } else {
                            scan_step(s, pos + 1, Mode::Str { key }, stack)
                        }
                    } else {
                        if 0xDC00 <= acc < 0xE000 {
                            scan_step(s, pos + 1, Mode::Str { key }, stack)
                        } else {
                            None
                        }
                    }
                } else {
                    None
                }
            },
            Mode::StrPairEsc { key, first } => {
                if c == '\\' {
                    scan_step(s, pos + 1, Mode::StrPairU { key, first }, stack)
                } else {
                    None
                }
            },
            Mode::StrPairU { key, first } => {
                if c == 'u' {
                    scan_step(
                        s,
                        pos + 1,
                        Mode::StrHex { key, high: true, have: 0, left: 4, first },
                        stack,
                    )
                } else {
                    None
                }
            },
            Mode::Lit { kind, left } => {
                if c == lit_expect(kind, left) {
                    if left > 1 {
                        scan_step(s, pos + 1, Mode::Lit { kind, left: (left - 1) as u8 }, stack)
                    } else if stack.len() == 0 {
                        Some(pos + 1)
                    } else {
                        scan_step(s, pos + 1, Mode::AfterVal, stack)
                    }
                } else {
                    None
                }
            },
            Mode::Num(n) => {
                match n {
                    NumSt::Minus => {
                        if c as u32 == 48 {
                            scan_step(s, pos + 1, Mode::Num(NumSt::Zero), stack)
                        } else if is_digit(c) {
                            scan_step(s, pos + 1, Mode::Num(NumSt::Int), stack)
                        } else {
                            None
                        }
                    },
                    NumSt::Zero => {
                        if c == '.' {
                            scan_step(s, pos + 1, Mode::Num(NumSt::Dot), stack)
                        } else if c == 'e' || c == 'E' {
                            scan_step(s, pos + 1, Mode::Num(NumSt::Exp), stack)
                        } else if stack.len() == 0 {
                            Some(pos)
                        } else {
                            scan_step(s, pos, Mode::AfterVal, stack)
                        }
                    },
                    NumSt::Int => {
                        if is_digit(c) {
                            scan_step(s, pos + 1, Mode::Num(NumSt::Int), stack)
                        } else if c == '.' {
                            scan_step(s, pos + 1, Mode::Num(NumSt::Dot), stack)
                        } else if c == 'e' || c == 'E' {
                            scan_step(s, pos + 1, Mode::Num(NumSt::Exp), stack)
                        } else if stack.len() == 0 {
                            Some(pos)
                        } else {
                            scan_step(s, pos, Mode::AfterVal, stack)
                        }
                    },
                    NumSt::Dot => {
                        if is_digit(c) {
                            scan_step(s, pos + 1, Mode::Num(NumSt::Frac), stack)
                        } else {
                            None
                        }
                    },
                    NumSt::Frac => {
                        if is_digit(c) {
                            scan_step(s, pos + 1, Mode::Num(NumSt::Frac), stack)
                        } else if c == 'e' || c == 'E' {
                            scan_step(s, pos + 1, Mode::Num(NumSt::Exp), stack)
                        } else if stack.len() == 0 {
                            Some(pos)
                        } else {
                            scan_step(s, pos, Mode::AfterVal, stack)
                        }
                    },
                    NumSt::Exp => {
                        if c == '+' || c == '-' {
                            scan_step(s, pos + 1, Mode::Num(NumSt::ExpSign), stack)
                        } else if is_digit(c) {
                            scan_step(s, pos + 1, Mode::Num(NumSt::ExpDigits), stack)
                        } else {
                            None
                        }
                    },
                    NumSt::ExpSign => {
                        if is_digit(c) {
                            scan_step(s, pos + 1, Mode::Num(NumSt::ExpDigits), stack)
                        } else {
                            None
                        }
                    },
                    NumSt::ExpDigits => {
                        if is_digit(c) {
                            scan_step(s, pos + 1, Mode::Num(NumSt::ExpDigits), stack)
                        } else if stack.len() == 0 {
                            Some(pos)
                        } else {
                            scan_step(s, pos, Mode::AfterVal, stack)
                        }
                    },
                }
            },
        }
    }
}

/// The end of one complete JSON value starting at or after `pos`, with
/// leading whitespace allowed, or `None` when the text is malformed.
pub open spec fn scan_value(s: Seq<char>, pos: int) -> Option<int> {
    scan_step(s, pos, Mode::Val, Seq::empty())
}

/// A successful scan never moves backwards or past the end of the
/// input.
pub proof fn lemma_scan_bounds(s: Seq<char>, pos: int, m: Mode, stack: Seq<bool>)
    ensures
        scan_step(s, pos, m, stack) matches Some(e) ==> pos <= e <= s.len(),
    decreases s.len() - pos, mode_rank(m),
{
    if pos < 0 || pos >= s.len() {
    } else {
        let c = s[pos];
        if scan_step(s, pos, m, stack) is Some {
            match m {
                Mode::Val => {
                    if is_ws(c) {
                        lemma_scan_bounds(s, pos + 1, Mode::Val, stack);
                    } else if c == '"' {
                        lemma_scan_bounds(s, pos + 1, Mode::Str { key: false }, stack);
                    } else if c == '{' {
                        lemma_scan_bounds(s, pos + 1, Mode::KeyOrClose, stack.push(false));
                    } else if c == '[' {
                        lemma_scan_bounds(s, pos + 1, Mode::ValOrClose, stack.push(true));
                    } else if c == '-' {
                        lemma_scan_bounds(s, pos + 1, Mode::Num(NumSt::Minus), stack);
                    } else if c as u32 == 48 {
                        lemma_scan_bounds(s, pos + 1, Mode::Num(NumSt::Zero), stack);
                    } else if is_digit(c) {
                        lemma_scan_bounds(s, pos + 1, Mode::Num(NumSt::Int), stack);
                    } else if c == 't' {
                        lemma_scan_bounds(s, pos + 1, Mode::Lit { kind: 't', left: 3 }, stack);
                    } else if c == 'f' {
                        lemma_scan_bounds(s, pos + 1, Mode::Lit { kind: 'f', left: 4 }, stack);
                    } else if c == 'n' {
                        lemma_scan_bounds(s, pos + 1, Mode::Lit { kind: 'n', left: 3 }, stack);
                    }
                },
                Mode::ValOrClose => {
                    if is_ws(c) {
                        lemma_scan_bounds(s, pos + 1, Mode::ValOrClose, stack);
                    } else if c == ']' {
                        if stack.len() > 1 {
                            lemma_scan_bounds(s, pos + 1, Mode::AfterVal, stack.drop_last());
                        }
                    } else {
                        lemma_scan_bounds(s, pos, Mode::Val, stack);
                    }
                },
                Mode::AfterVal => {
                    if stack.len() > 0 {
                        if is_ws(c) {
                            lemma_scan_bounds(s, pos + 1, Mode::AfterVal, stack);
                        } else if c == ',' {
                            if stack.last() == true {
                                lemma_scan_bounds(s, pos + 1, Mode::Val, stack);
                            } else {
                                lemma_scan_bounds(s, pos + 1, Mode::Key, stack);
                            }
                        } else if c == ']' || c == '}' {
                            if stack.len() > 1 {
                                lemma_scan_bounds(s, pos + 1, Mode::AfterVal, stack.drop_last());
                            }
                        }
                    }
                },
                Mode::KeyOrClose => {
                    if is_ws(c) {
                        lemma_scan_bounds(s, pos + 1, Mode::KeyOrClose, stack);
                    } else if c == '"' {
                        lemma_scan_bounds(s, pos + 1, Mode::Str { key: true }, stack);
                    } else if c == '}' {
                        if stack.len() > 1 {
                            lemma_scan_bounds(s, pos + 1, Mode::AfterVal, stack.drop_last());
                        }
                    }
                },
                Mode::Key => {
                    if is_ws(c) {
                        lemma_scan_bounds(s, pos + 1, Mode::Key, stack);
                    } else if c == '"' {
                        lemma_scan_bounds(s, pos + 1, Mode::Str { key: true }, stack);
                    }
                },
                Mode::AfterKey => {
                    if is_ws(c) {
                        lemma_scan_bounds(s, pos + 1, Mode::AfterKey, stack);
                    } else if c == ':' {
                        lemma_scan_bounds(s, pos + 1, Mode::Val, stack);
                    }
                },
                Mode::Str { key } => {
                    if c == '"' {
                        if key {
                            lemma_scan_bounds(s, pos + 1, Mode::AfterKey, stack);
                        } else if stack.len() > 0 {
                            lemma_scan_bounds(s, pos + 1, Mode::AfterVal, stack);
                        }
                    } else if c == '\\' {
                        lemma_scan_bounds(s, pos + 1, Mode::StrEsc { key }, stack);
                    } else if (c as u32) >= 32 {
                        lemma_scan_bounds(s, pos + 1, Mode::Str { key }, stack);
                    }
                },
                Mode::StrEsc { key } => {
                    if c == 'u' {
                        lemma_scan_bounds(
                            s,
                            pos + 1,
                            Mode::StrHex { key, high: false, have: 0, left: 4, first: 0 },
                            stack,
                        );
                    } else {
                        lemma_scan_bounds(s, pos + 1, Mode::Str { key }, stack);
                    }
                },
                Mode::StrHex { key, high, have, left, first } => {
                    if hex_val(c) >= 0 && have < 0x1000 {
                        let acc = (have * 16 + hex_val(c)) as u32;
                        if left > 1 {
                            lemma_scan_bounds(
                                s,
                                pos + 1,
                                Mode::StrHex {
                                    key,
                                    high,
                                    have: acc,
                                    left: (left - 1) as u8,
                                    first,
                                },
                                stack,
                            );
                        } else if !high {
                            if 0xD800 <= acc < 0xDC00 {
                                lemma_scan_bounds(
                                    s,
                                    pos + 1,
                                    Mode::StrPairEsc { key, first: acc },
                                    stack,
                                );
                            } else if !(0xDC00 <= acc < 0xE000) {
                                lemma_scan_bounds(s, pos + 1, Mode::Str { key }, stack);
                            }
                        } else {
                            if 0xDC00 <= acc < 0xE000 {
                                lemma_scan_bounds(s, pos + 1, Mode::Str { key }, stack);
                            }
                        }
                    }
                },
                Mode::StrPairEsc { key, first } => {
                    lemma_scan_bounds(s, pos + 1, Mode::StrPairU { key, first }, stack);
                },
                Mode::StrPairU { key, first } => {
                    lemma_scan_bounds(
                        s,
                        pos + 1,
                        Mode::StrHex { key, high: true, have: 0, left: 4, first },
                        stack,
                    );
                },
                Mode::Lit { kind, left } => {
                    if c == lit_expect(kind, left) {
                        if left > 1 {
                            lemma_scan_bounds(
                                s,
                                pos + 1,
                                Mode::Lit { kind, left: (left - 1) as u8 },
                                stack,
                            );
                        } else if stack.len() > 0 {
                            lemma_scan_bounds(s, pos + 1, Mode::AfterVal, stack);
                        }
                    }
                },
                Mode::Num(n) => {
                    lemma_scan_bounds(s, pos + 1, Mode::Num(NumSt::Minus), stack);
                    lemma_scan_bounds(s, pos + 1, Mode::Num(NumSt::Zero), stack);
                    lemma_scan_bounds(s, pos + 1, Mode::Num(NumSt::Int), stack);
                    lemma_scan_bounds(s, pos + 1, Mode::Num(NumSt::Dot), stack);
                    lemma_scan_bounds(s, pos + 1, Mode::Num(NumSt::Frac), stack);
                    lemma_scan_bounds(s, pos + 1, Mode::Num(NumSt::Exp), stack);
                    lemma_scan_bounds(s, pos + 1, Mode::Num(NumSt::ExpSign), stack);
                    lemma_scan_bounds(s, pos + 1, Mode::Num(NumSt::ExpDigits), stack);
                    lemma_scan_bounds(s, pos, Mode::AfterVal, stack);
                },
            }
        }
    }
}

/// Runs the structural automaton over a character buffer, mirroring
/// `scan_step` from mode `Val` with an empty container stack.
fn scan_from(s: &Vec<char>, start: usize) -> (r: Option<usize>)
    requires
        start <= s.len(),
    ensures
        match scan_value(s@, start as int) {
            Some(e) => r == Some(e as usize),
            None => r is None,
        },
{
    let mut pos = start;
    let mut mode = Mode::Val;
    let mut stack: Vec<bool> = Vec::new();
    loop
        invariant
            pos <= s.len(),
            scan_step(s@, pos as int, mode, stack@) == scan_value(s@, start as int),
        decreases s@.len() - pos, mode_rank(mode),
    {
        proof {
            lemma_scan_bounds(s@, pos as int, mode, stack@);
        }
        if pos == s.len() {
            match mode {
                Mode::Num(n) => {
                    if (n == NumSt::Zero || n == NumSt::Int || n == NumSt::Frac || n
                        == NumSt::ExpDigits) && stack.len() == 0 {
                        return Some(pos);
                    } else {
                        return None;
                    }
                },
                _ => {
                    return None;
                },
            }
        }
        let c = s[pos];
        match mode {
            Mode::Val => {
                if c == ' ' || c == '\t' || c == '\n' || c == '\r' {
                    pos = pos + 1;
                } else if c == '"' {
                    mode = Mode::Str { key: false };
                    pos = pos + 1;
                } else if c == '{' {
                    stack.push(false);
                    mode = Mode::KeyOrClose;
                    pos = pos + 1;
                } else if c == '[' {
                    stack.push(true);
                    mode = Mode::ValOrClose;
                    pos = pos + 1;
                } else if c == '-' {
                    mode = Mode::Num(NumSt::Minus);
                    pos = pos + 1;
                } else if (c as u32) == 48 {
                    mode = Mode::Num(NumSt::Zero);
                    pos = pos + 1;
                } else if 49 <= (c as u32) && (c as u32) <= 57 {
                    mode = Mode::Num(NumSt::Int);
                    pos = pos + 1;
                } else if c == 't' {
                    mode = Mode::Lit { kind: 't', left: 3 };
                    pos = pos + 1;
                } else if c == 'f' {
                    mode = Mode::Lit { kind: 'f', left: 4 };
                    pos = pos + 1;
                } else if c == 'n' {
                    mode = Mode::Lit { kind: 'n', left: 3 };
                    pos = pos + 1;
                } else {
                    return None;
                }
            },
            Mode::ValOrClose => {
                if c == ' ' || c == '\t' || c == '\n' || c == '\r' {
                    pos = pos + 1;
                } else if c == ']' {
                    if stack.len() > 0 && stack[stack.len() - 1] == true {
                        if stack.len() == 1 {
                            return Some(pos + 1);
                        } else {
                            stack.pop();
                            mode = Mode::AfterVal;
                            pos = pos + 1;
                        }
                    } else {
                        return None;
                    }
                } else {
                    mode = Mode::Val;
                }
            },
            Mode::AfterVal => {
                if stack.len() == 0 {
                    return None;
                } else if c == ' ' || c == '\t' || c == '\n' || c == '\r' {
                    pos = pos + 1;
                } else if c == ',' {
                    if stack[stack.len() - 1] == true {
                        mode = Mode::Val;
                    } else {
                        mode = Mode::Key;
                    }
                    pos = pos + 1;
                } else if c == ']' {
                    if stack[stack.len() - 1] == true {
                        if stack.len() == 1 {
                            return Some(pos + 1);
                        } else {
                            stack.pop();
                            pos = pos + 1;
                        }
                    } else {
                        return None;
                    }
                } else if c == '}' {
                    if stack[stack.len() - 1] == false {
                        if stack.len() == 1 {
                            return Some(pos + 1);
                        } else {
                            stack.pop();
                            pos = pos + 1;
                        }
                    } else {
                        return None;
                    }
                } else {
                    return None;
                }
            },
            Mode::KeyOrClose => {
                if c == ' ' || c == '\t' || c == '\n' || c == '\r' {
                    pos = pos + 1;
                } else if c == '"' {
                    mode = Mode::Str { key: true };
                    pos = pos + 1;
                } else if c == '}' {
                    if stack.len() > 0 && stack[stack.len() - 1] == false {
                        if stack.len() == 1 {
                            return Some(pos + 1);
                        } else {
                            stack.pop();
                            mode = Mode::AfterVal;
                            pos = pos + 1;
                        }
                    } else {
                        return None;
                    }
                } else {
                    return None;
                }
            },
            Mode::Key => {
                if c == ' ' || c == '\t' || c == '\n' || c == '\r' {
                    pos = pos + 1;
                } else if c == '"' {
                    mode = Mode::Str { key: true };
                    pos = pos + 1;
                } else {
                    return None;
                }
            },
            Mode::AfterKey => {
                if c == ' ' || c == '\t' || c == '\n' || c == '\r' {
                    pos = pos + 1;
                } else if c == ':' {
                    mode = Mode::Val;
                    pos = pos + 1;
                } else {
                    return None;
                }
            },
            Mode::Str { key } => {
                if c == '"' {
                    if key {
                        mode = Mode::AfterKey;
                        pos = pos + 1;
                    } else if stack.len() == 0 {
                        return Some(pos + 1);
                    } else {
                        mode = Mode::AfterVal;
                        pos = pos + 1;
                    }
                } else if c == '\\' {
                    mode = Mode::StrEsc { key };
                    pos = pos + 1;
                } else if (c as u32) < 32 {
                    return None;
                } else {
                    pos = pos + 1;
                }
            },
            Mode::StrEsc { key } => {
                if c == '"' || c == '\\' || c == '/' || c == 'b' || c == 'f' || c == 'n' || c
                    == 'r' || c == 't' {
                    mode = Mode::Str { key };
                    pos = pos + 1;
                } else if c == 'u' {
                    mode = Mode::StrHex { key, high: false, have: 0, left: 4, first: 0 };
                    pos = pos + 1;
                } else {
                    return None;
                }
            },
            Mode::StrHex { key, high, have, left, first } => {
                let hv = hex_digit(c);
                if hv >= 0 && have < 0x1000 {
                    let acc = have * 16 + (hv as u32);
                    if left > 1 {
                        mode = Mode::StrHex { key, high, have: acc, left: left - 1, first };
                        pos = pos + 1;
                    } else if !high {
                        if 0xD800 <= acc && acc < 0xDC00 {
                            mode = Mode::StrPairEsc { key, first: acc };
                            pos = pos + 1;
                        } else if 0xDC00 <= acc && acc < 0xE000 {
                            return None;
                        } else {
                            mode = Mode::Str { key };
                            pos = pos + 1;
                        }
                    } else {
                        if 0xDC00 <= acc && acc < 0xE000 {
                            mode = Mode::Str { key };
                            pos = pos + 1;
                        } else {
                            return None;
                        }
                    }
                } else {
                    return None;
                }
            },
            Mode::StrPairEsc { key, first } => {
                if c == '\\' {
                    mode = Mode::StrPairU { key, first };
                    pos = pos + 1;
                } else {
                    return None;
                }
            },
            Mode::StrPairU { key, first } => {
                if c == 'u' {
                    mode = Mode::StrHex { key, high: true, have: 0, left: 4, first };
                    pos = pos + 1;
                } else {
                    return None;
                }
            },
            Mode::Lit { kind, left } => {
                let expect = if kind == 't' {
                    if left == 3 {
                        'r'
                    } else if left == 2 {
                        'u'
                    } else {
                        'e'
                    }
                } else if kind == 'f' {
                    if left == 4 {
                        'a'
                    } else if left == 3 {
                        'l'
                    } else if left == 2 {
                        's'
                    } else {
                        'e'
                    }
                } else {
                    if left == 3 {
                        'u'
                    } else {
                        'l'
                    }
                };
                if c == expect {
                    if left > 1 {
                        mode = Mode::Lit { kind, left: left - 1 };
                        pos = pos + 1;
                    } else if stack.len() == 0 {
                        return Some(pos + 1);
                    } else {
                        mode = Mode::AfterVal;
                        pos = pos + 1;
                    }
                } else {
                    return None;
                }
            },
            Mode::Num(n) => {
                match n {
                    NumSt::Minus => {
                        if (c as u32) == 48 {
                            mode = Mode::Num(NumSt::Zero);
                            pos = pos + 1;
                        } else if 49 <= (c as u32) && (c as u32) <= 57 {
                            mode = Mode::Num(NumSt::Int);
                            pos = pos + 1;
                        } else {
                            return None;
                        }
                    },
                    NumSt::Zero => {
                        if c == '.' {
                            mode = Mode::Num(NumSt::Dot);
                            pos = pos + 1;
                        } else if c == 'e' || c == 'E' {
                            mode = Mode::Num(NumSt::Exp);
                            pos = pos + 1;
                        } else if stack.len() == 0 {
                            return Some(pos);
                        } else {
                            mode = Mode::AfterVal;
                        }
                    },
                    NumSt::Int => {
                        if 48 <= (c as u32) && (c as u32) <= 57 {
                            pos = pos + 1;
                        } else if c == '.' {
                            mode = Mode::Num(NumSt::Dot);
                            pos = pos + 1;
                        } else if c == 'e' || c == 'E' {
                            mode = Mode::Num(NumSt::Exp);
                            pos = pos + 1;
                        } else if stack.len() == 0 {
                            return Some(pos);
                        } else {
                            mode = Mode::AfterVal;
                        }
                    },
                    NumSt::Dot => {
                        if 48 <= (c as u32) && (c as u32) <= 57 {
                            mode = Mode::Num(NumSt::Frac);
                            pos = pos + 1;
                        } else {
                            return None;
                        }
                    },
                    NumSt::Frac => {
                        if 48 <= (c as u32) && (c as u32) <= 57 {
                            pos = pos + 1;
                        } else if c == 'e' || c == 'E' {
                            mode = Mode::Num(NumSt::Exp);
                            pos = pos + 1;
                        } else if stack.len() == 0 {
                            return Some(pos);
                        } else {
                            mode = Mode::AfterVal;
                        }
                    },
                    NumSt::Exp => {
                        if c == '+' || c == '-' {
                            mode = Mode::Num(NumSt::ExpSign);
                            pos = pos + 1;
                        } else if 48 <= (c as u32) && (c as u32) <= 57 {
                            mode = Mode::Num(NumSt::ExpDigits);
                            pos = pos + 1;
                        } else {
                            return None;
                        }
                    },
                    NumSt::ExpSign => {
                        if 48 <= (c as u32) && (c as u32) <= 57 {
                            mode = Mode::Num(NumSt::ExpDigits);
                            pos = pos + 1;
                        } else {
                            return None;
                        }
                    },
                    NumSt::ExpDigits => {
                        if 48 <= (c as u32) && (c as u32) <= 57 {
                            pos = pos + 1;
                        } else if stack.len() == 0 {
                            return Some(pos);
                        } else {
                            mode = Mode::AfterVal;
                        }
                    },
                }
            },
        }
    }
}

/// The numeric value of a hexadecimal digit as executable code, or -1.
fn hex_digit(c: char) -> (v: i32)
    ensures
        v as int == hex_val(c),
{
    let u = c as u32;
    if 48 <= u && u <= 57 {
        (u - 48) as i32
    } else if 97 <= u && u <= 102 {
        (u - 87) as i32
    } else if 65 <= u && u <= 70 {
        (u - 55) as i32
    } else {
        -1
    }
}

} // verus!

verus! {

// ---------------------------------------------------------------------
// String contents: decoding a validated JSON string, escapes included.
// ---------------------------------------------------------------------

/// The character that a single-letter escape denotes, or `None` when
/// the letter is not a legal escape.
pub open spec fn simple_escape(c: char) -> Option<char> {
    if c == '"' {
        Some('"')
    } else if c == '\\' {
        Some('\\')
    } else if c == '/' {
        Some('/')
    } else if c == 'b' {
        Some('\u{8}')
    } else if c == 'f' {
        Some('\u{c}')
    } else if c == 'n' {
        Some('\n')
    } else if c == 'r' {
        Some('\r')
    } else if c == 't' {
        Some('\t')
    } else {
        None
    }
}

/// The value of four hexadecimal digits starting at `pos`, or `None`
/// when they are missing or not hexadecimal.
pub open spec fn hex4(s: Seq<char>, pos: int) -> Option<u32> {
    if 0 <= pos && pos + 4 <= s.len() && hex_val(s[pos]) >= 0 && hex_val(s[pos + 1]) >= 0
        && hex_val(s[pos + 2]) >= 0 && hex_val(s[pos + 3]) >= 0 {
        Some(
            (hex_val(s[pos]) * 4096 + hex_val(s[pos + 1]) * 256 + hex_val(s[pos + 2]) * 16
                + hex_val(s[pos + 3])) as u32,
        )
    } else {
        None
    }
}

/// The low half of a surrogate pair: a `\uXXXX` escape at `pos` whose
/// value lies in the low-surrogate range.
pub open spec fn low_surrogate(s: Seq<char>, pos: int) -> Option<u32> {
    if 0 <= pos && pos + 6 <= s.len() && s[pos] == '\\' && s[pos + 1] == 'u' {
        match hex4(s, pos + 2) {
            Some(w) => if 0xDC00 <= w < 0xE000 {
                Some(w)
            } else {
                None
            },
            None => None,
        }
    } else {
        None
    }
}

/// Prepends a decoded character to the rest of a string body.
pub open spec fn str_cons(c: char, rest: Option<(Seq<char>, int)>) -> Option<(Seq<char>, int)> {
    match rest {
        Some(t) => Some((seq![c] + t.0, t.1)),
        None => None,
    }
}

/// The decoded contents and exclusive end (one past the closing quote)
/// of a string body starting at `pos`, just after the opening quote.
pub open spec fn str_body(s: Seq<char>, pos: int) -> Option<(Seq<char>, int)>
    decreases s.len() - pos,
{
    if !(0 <= pos < s.len()) {
        None
    } else {
        let c = s[pos];
        if c == '"' {
            Some((Seq::empty(), pos + 1))
        } else if c == '\\' {
            if pos + 1 < s.len() {
                let e = s[pos + 1];
                if e == 'u' {
                    if pos + 6 <= s.len() {
                        match hex4(s, pos + 2) {
                            Some(v) => if v < 0xD800 || v >= 0xE000 {
                                str_cons((v as u32) as char, str_body(s, pos + 6))
                            } else if v < 0xDC00 {
                                if pos + 12 <= s.len() {
                                    match low_surrogate(s, pos + 6) {
                                        Some(w) => str_cons(
                                            ((0x10000 + (v - 0xD800) * 0x400 + (w
                                                - 0xDC00)) as u32) as char,
                                            str_body(s, pos + 12),
                                        ),
                                        None => None,
                                    }
                                } else {
                                    None
                                }
                            } else {
                                None
                            },
                            None => None,
                        }
                    } else {
                        None
                    }
                } else {
                    match simple_escape(e) {
                        Some(d) => str_cons(d, str_body(s, pos + 2)),
                        None => None,
                    }
                }
            } else {
                None
            }
        } else if (c as u32) < 32 {
            None
        } else {
            str_cons(c, str_body(s, pos + 1))
        }
    }
}

/// The decoded contents and exclusive end of a JSON string whose
/// opening quote stands at `pos`.
pub open spec fn spec_string(s: Seq<char>, pos: int) -> Option<(Seq<char>, int)> {
    if 0 <= pos < s.len() && s[pos] == '"' {
        str_body(s, pos + 1)
    } else {
        None
    }
}

/// A decoded string body ends after its starting position and within
/// the input.
pub proof fn lemma_str_body_bounds(s: Seq<char>, pos: int)
    ensures
        str_body(s, pos) matches Some(t) ==> pos < t.1 <= s.len(),
    decreases s.len() - pos,
{
    if 0 <= pos < s.len() && str_body(s, pos) is Some {
        lemma_str_body_bounds(s, pos + 1);
        if pos + 2 <= s.len() {
            lemma_str_body_bounds(s, pos + 2);
        }
        if pos + 6 <= s.len() {
            lemma_str_body_bounds(s, pos + 6);
        }
        if pos + 12 <= s.len() {
            lemma_str_body_bounds(s, pos + 12);
        }
    }
}

/// A decoded string ends after its opening quote and within the input.
pub proof fn lemma_string_bounds(s: Seq<char>, pos: int)
    ensures
        spec_string(s, pos) matches Some(t) ==> pos < t.1 <= s.len(),
{
    lemma_str_body_bounds(s, pos + 1);
}

/// Relies on char::from_u32: the result is the character with the given
/// scalar value exactly when that value is a Unicode scalar (not a
/// surrogate and at most 0x10FFFF), and `None` otherwise.
#[verifier::external_body]
fn char_from_u32(v: u32) -> (c: Option<char>)
    ensures
        c is Some <==> vstd::utf8::is_scalar(v),
        c matches Some(d) ==> d as u32 == v,
{
    char::from_u32(v)
}

/// Composing one decoded character into an accumulated prefix.
proof fn lemma_cons_compose(acc: Seq<char>, c: char, rest: Option<(Seq<char>, int)>)
    ensures
        (match str_cons(c, rest) {
            Some(t) => Some((acc + t.0, t.1)),
            None => None,
        }) == (match rest {
            Some(t) => Some::<(Seq<char>, int)>((acc.push(c) + t.0, t.1)),
            None => None,
        }),
{
    match rest {
        Some(t) => {
            assert(acc + (seq![c] + t.0) =~= acc.push(c) + t.0);
        },
        None => {},
    }
}

/// Reads four hexadecimal digits from a character buffer.
fn read_hex4(s: &Vec<char>, pos: usize) -> (r: Option<u32>)
    requires
        pos <= s.len(),
    ensures
        r == hex4(s@, pos as int),
{
    if s.len() - pos < 4 {
        return None;
    }
    let h0 = hex_digit(s[pos]);
    let h1 = hex_digit(s[pos + 1]);
    let h2 = hex_digit(s[pos + 2]);
    let h3 = hex_digit(s[pos + 3]);
    if h0 >= 0 && h1 >= 0 && h2 >= 0 && h3 >= 0 {
        Some((h0 as u32) * 4096 + (h1 as u32) * 256 + (h2 as u32) * 16 + (h3 as u32))
    } else {
        None
    }
}

/// Decodes the JSON string whose opening quote stands at `pos`,
/// returning its contents and the position one past the closing quote.
#[verifier::rlimit(40)]
fn parse_string(s: &Vec<char>, pos: usize) -> (r: Option<(Vec<char>, usize)>)
    requires
        pos <= s.len(),
    ensures
        match spec_string(s@, pos as int) {
            Some(t) => r matches Some(v) && v.0@ == t.0 && v.1 as int == t.1,
            None => r is None,
        },
{
    if pos >= s.len() || s[pos] != '"' {
        return None;
    }
    let mut p = pos + 1;
    let mut acc: Vec<char> = Vec::new();
    loop
        invariant
            pos < s.len(),
            s@[pos as int] == '"',
            pos + 1 <= p <= s.len(),
            str_body(s@, pos + 1 as int) == (match str_body(s@, p as int) {
                Some(t) => Some::<(Seq<char>, int)>((acc@ + t.0, t.1)),
                None => None,
            }),
        decreases s@.len() - p,
    {
        if p >= s.len() {
            return None;
        }
        let c = s[p];
        if c == '"' {
            proof {
                assert(str_body(s@, p as int) == Some((Seq::<char>::empty(), p + 1 as int)));
                assert(acc@ + Seq::<char>::empty() =~= acc@);
            }
            return Some((acc, p + 1));
        } else if c == '\\' {
            if p + 1 >= s.len() {
                return None;
            }
            let e = s[p + 1];
            if e == 'u' {
                if s.len() - p < 6 {
                    return None;
                }
                match read_hex4(s, p + 2) {
                    Some(v) => {
                        if v < 0xD800 || v >= 0xE000 {
                            proof {
                                lemma_cons_compose(acc@, (v as u32) as char, str_body(s@, p + 6 as int));
                            }
                            match char_from_u32(v) {
                                Some(d) => {
                                    proof {
                                        vstd::utf8::char_u32_cast(d, v);
                                    }
                                    acc.push(d);
                                    p = p + 6;
                                },
                                None => {
                                    return None;
                                },
                            }
                        } else if v < 0xDC00 {
                            if s.len() - p < 12 {
                                return None;
                            }
                            if s[p + 6] != '\\' || s[p + 7] != 'u' {
                                return None;
                            }
                            match read_hex4(s, p + 8) {
                                Some(w) => {
                                    if !(0xDC00 <= w && w < 0xE000) {
                                        return None;
                                    }
                                    let scalar = 0x10000 + (v - 0xD800) * 0x400 + (w - 0xDC00);
                                    proof {
                                        lemma_cons_compose(
                                            acc@,
                                            (scalar as u32) as char,
                                            str_body(s@, p + 12 as int),
                                        );
                                    }
                                    match char_from_u32(scalar) {
                                        Some(d) => {
                                            proof {
                                                vstd::utf8::char_u32_cast(d, scalar);
                                            }
                                            acc.push(d);
                                            p = p + 12;
                                        },
                                        None => {
                                            return None;
                                        },
                                    }
                                },
                                None => {
                                    return None;
                                },
                            }
                        } else {
                            return None;
                        }
                    },
                    None => {
                        return None;
                    },
                }
            } else {
                let d: char;
                if e == '"' {
                    d = '"';
                } else if e == '\\' {
                    d = '\\';
                } else if e == '/' {
                    d = '/';
                } else if e == 'b' {
                    d = '\u{8}';
                } else if e == 'f' {
                    d = '\u{c}';
                } else if e == 'n' {
                    d = '\n';
                } else if e == 'r' {
                    d = '\r';
                } else if e == 't' {
                    d = '\t';
                } else {
                    return None;
                }
                proof {
                    lemma_cons_compose(acc@, d, str_body(s@, p + 2 as int));
                }
                acc.push(d);
                p = p + 2;
            }
        } else if (c as u32) < 32 {
            return None;
        } else {
            proof {
                lemma_cons_compose(acc@, c, str_body(s@, p + 1 as int));
            }
            acc.push(c);
            p = p + 1;
        }
    }
}

} // verus!

verus! {

// ---------------------------------------------------------------------
// Numbers: reading a validated JSON number as a microsecond timestamp.
// The decimal value is truncated toward zero at microsecond precision
// and clipped to the i64 range.
// ---------------------------------------------------------------------

/// Ten to the `k`.
pub open spec fn pow10(k: nat) -> int
    decreases k,
{
    if k == 0 {
        1
    } else {
        10 * pow10((k - 1) as nat)
    }
}

/// Clips a mathematical integer to the i64 range.
pub open spec fn clip_i64(v: int) -> i64 {
    if v > i64::MAX {
        i64::MAX
    } else if v < i64::MIN {
        i64::MIN
    } else {
        v as i64
    }
}

/// Whether the number starting at `a` carries a leading minus sign.
pub open spec fn num_neg(s: Seq<char>, a: int) -> bool {
    0 <= a < s.len() && s[a] == '-'
}

/// Start of the integer digit run.
pub open spec fn num_ia(s: Seq<char>, a: int) -> int {
    if num_neg(s, a) {
        a + 1
    } else {
        a
    }
}

/// End of the integer digit run.
pub open spec fn num_ib(s: Seq<char>, a: int) -> int {
    digits_end(s, num_ia(s, a))
}

/// Start of the fraction digit run (equal to its end when there is no
/// decimal point).
pub open spec fn num_fa(s: Seq<char>, a: int) -> int {
    let ib = num_ib(s, a);
    if 0 <= ib < s.len() && s[ib] == '.' {
        ib + 1
    } else {
        ib
    }
}

/// End of the fraction digit run.
pub open spec fn num_fb(s: Seq<char>, a: int) -> int {
    digits_end(s, num_fa(s, a))
}

/// Whether an exponent part follows the digits.
pub open spec fn num_has_exp(s: Seq<char>, a: int) -> bool {
    let fb = num_fb(s, a);
    0 <= fb < s.len() && (s[fb] == 'e' || s[fb] == 'E')
}

/// Whether the exponent is negative.
pub open spec fn num_esign(s: Seq<char>, a: int) -> bool {
    let fb = num_fb(s, a);
    num_has_exp(s, a) && fb + 1 < s.len() && s[fb + 1] == '-'
}

/// Start of the exponent digit run.
pub open spec fn num_xa(s: Seq<char>, a: int) -> int {
    let fb = num_fb(s, a);
    if num_has_exp(s, a) {
        if fb + 1 < s.len() && (s[fb + 1] == '-' || s[fb + 1] == '+') {
            fb + 2
        } else {
            fb + 1
        }
    } else {
        fb
    }
}

/// End of the exponent digit run.
pub open spec fn num_xb(s: Seq<char>, a: int) -> int {
    digits_end(s, num_xa(s, a))
}

/// The value of the digit run `[a, b)`.
pub open spec fn digits_val_range(s: Seq<char>, a: int, b: int) -> int
    decreases b - a,
{
    if a >= b {
        0
    } else {
        digits_val_range(s, a, b - 1) * 10 + digit_val(s[b - 1])
    }
}

/// The signed exponent value.
pub open spec fn num_exp_val(s: Seq<char>, a: int) -> int {
    let dv = digits_val_range(s, num_xa(s, a), num_xb(s, a));
    if num_esign(s, a) {
        -dv
    } else {
        dv
    }
}

/// How many mantissa digits the number has, integer and fraction parts
/// together.
pub open spec fn mant_len(s: Seq<char>, a: int) -> int {
    (num_ib(s, a) - num_ia(s, a)) + (num_fb(s, a) - num_fa(s, a))
}

/// The `i`-th mantissa digit, counting across the decimal point.
pub open spec fn mdigit(s: Seq<char>, a: int, i: int) -> int {
    let ia = num_ia(s, a);
    let ib = num_ib(s, a);
    let fa = num_fa(s, a);
    if i < ib - ia {
        digit_val(s[ia + i])
    } else {
        digit_val(s[fa + (i - (ib - ia))])
    }
}

/// The value of mantissa digits `[i, j)`.
pub open spec fn mant_val(s: Seq<char>, a: int, i: int, j: int) -> int
    decreases j - i,
{
    if i >= j {
        0
    } else {
        mant_val(s, a, i, j - 1) * 10 + mdigit(s, a, j - 1)
    }
}

/// The microsecond value of the decimal numeral starting at `a`: its
/// exact value times ten to the sixth, truncated toward zero and
/// clipped to the i64 range.
pub open spec fn spec_time_us(s: Seq<char>, a: int) -> i64 {
    let n = mant_len(s, a);
    let m = mant_val(s, a, 0, n);
    let q = num_exp_val(s, a) - (num_fb(s, a) - num_fa(s, a)) + 6;
    let abs = if q >= 0 {
        m * pow10(q as nat)
    } else {
        m / pow10((-q) as nat)
    };
    clip_i64(
        if num_neg(s, a) {
            -abs
        } else {
            abs
        },
    )
}

/// Ten to the `k` is at least one.
pub proof fn lemma_pow10_pos(k: nat)
    ensures
        pow10(k) >= 1,
    decreases k,
{
    if k > 0 {
        lemma_pow10_pos((k - 1) as nat);
    }
}

/// Powers of ten multiply by adding exponents.
pub proof fn lemma_pow10_add(x: nat, y: nat)
    ensures
        pow10(x + y) == pow10(x) * pow10(y),
    decreases x,
{
    if x == 0 {
    } else {
        lemma_pow10_add((x - 1) as nat, y);
        assert(pow10(x + y) == 10 * pow10((x + y - 1) as nat));
        assert(10 * (pow10((x - 1) as nat) * pow10(y)) == (10 * pow10((x - 1) as nat)) * pow10(
            y,
        )) by (nonlinear_arith);
    }
}

/// Powers of ten grow with the exponent.
pub proof fn lemma_pow10_mono(x: nat, y: nat)
    requires
        x <= y,
    ensures
        pow10(x) <= pow10(y),
{
    lemma_pow10_add(x, (y - x) as nat);
    lemma_pow10_pos(x);
    lemma_pow10_pos((y - x) as nat);
    assert(pow10(x) * 1 <= pow10(x) * pow10((y - x) as nat)) by (nonlinear_arith)
        requires pow10(x) >= 1 && pow10((y - x) as nat) >= 1;
}

/// Bounds on a mantissa digit within range.
pub proof fn lemma_mdigit_bounds(s: Seq<char>, a: int, i: int)
    requires
        0 <= i < mant_len(s, a),
        0 <= num_ia(s, a),
        num_ib(s, a) <= s.len(),
        num_fa(s, a) <= num_fb(s, a) <= s.len(),
    ensures
        0 <= mdigit(s, a, i) <= 9,
{
    lemma_digits_end(s, num_ia(s, a));
    if num_fa(s, a) <= s.len() {
        lemma_digits_end(s, num_fa(s, a));
    }
}

/// A run of mantissa digits is bounded by the corresponding power of
/// ten.
pub proof fn lemma_mant_bounds(s: Seq<char>, a: int, i: int, j: int)
    requires
        forall|k: int| i <= k < j ==> 0 <= #[trigger] mdigit(s, a, k) <= 9,
        i <= j,
    ensures
        0 <= mant_val(s, a, i, j) < pow10((j - i) as nat),
    decreases j - i,
{
    if i >= j {
    } else {
        lemma_mant_bounds(s, a, i, j - 1);
        let prev = mant_val(s, a, i, j - 1);
        let p = pow10((j - 1 - i) as nat);
        assert(prev * 10 + mdigit(s, a, j - 1) < p * 10) by (nonlinear_arith)
            requires prev < p && 0 <= mdigit(s, a, j - 1) <= 9 && prev >= 0;
        assert(pow10((j - i) as nat) == 10 * pow10((j - i - 1) as nat));
        assert(prev * 10 >= 0) by (nonlinear_arith)
            requires prev >= 0;
    }
}

/// Splitting a run of mantissa digits at `k`.
pub proof fn lemma_mant_split(s: Seq<char>, a: int, i: int, k: int, j: int)
    requires
        i <= k <= j,
    ensures
        mant_val(s, a, i, j) == mant_val(s, a, i, k) * pow10((j - k) as nat) + mant_val(
            s,
            a,
            k,
            j,
        ),
    decreases j - k,
{
    if k == j {
        assert(mant_val(s, a, i, j) * 1 == mant_val(s, a, i, j));
    } else {
        lemma_mant_split(s, a, i, k, j - 1);
        let x = mant_val(s, a, i, k);
        let y = mant_val(s, a, k, j - 1);
        let p = pow10((j - 1 - k) as nat);
        let d = mdigit(s, a, j - 1);
        assert((x * p + y) * 10 + d == x * (10 * p) + (y * 10 + d)) by (nonlinear_arith);
        assert(pow10((j - k) as nat) == 10 * pow10((j - k - 1) as nat));
        assert(x * (10 * p) == x * pow10((j - k) as nat));
    }
}

/// A run of zero digits has value zero.
pub proof fn lemma_mant_zeros(s: Seq<char>, a: int, i: int, j: int)
    requires
        forall|k: int| i <= k < j ==> #[trigger] mdigit(s, a, k) == 0,
        i <= j,
    ensures
        mant_val(s, a, i, j) == 0,
    decreases j - i,
{
    if i < j {
        lemma_mant_zeros(s, a, i, j - 1);
    }
}

/// A run whose first digit is non-zero is at least the power of ten of
/// its remaining length.
pub proof fn lemma_mant_lower(s: Seq<char>, a: int, i: int, j: int)
    requires
        i < j,
        mdigit(s, a, i) >= 1,
        forall|k: int| i <= k < j ==> 0 <= #[trigger] mdigit(s, a, k) <= 9,
    ensures
        mant_val(s, a, i, j) >= pow10((j - i - 1) as nat),
{
    lemma_mant_split(s, a, i, i + 1, j);
    lemma_mant_bounds(s, a, i + 1, j);
    lemma_pow10_pos((j - i - 1) as nat);
    assert(mant_val(s, a, i, i) == 0);
    assert(mant_val(s, a, i, i + 1) == mdigit(s, a, i));
    let p = pow10((j - i - 1) as nat);
    assert(mdigit(s, a, i) * p >= 1 * p) by (nonlinear_arith)
        requires mdigit(s, a, i) >= 1 && p >= 1;
}

} // verus!

verus! {

/// Ten to the nineteenth exceeds the i64 range.
proof fn lemma_pow10_19()
    ensures
        pow10(19) == 10_000_000_000_000_000_000,
{
    reveal_with_fuel(pow10, 21);
}

/// A numeral whose mantissa digits are all zero has value zero.
proof fn lemma_time_zero(s: Seq<char>, a: int)
    requires
        forall|k: int| 0 <= k < mant_len(s, a) ==> #[trigger] mdigit(s, a, k) == 0,
    ensures
        spec_time_us(s, a) == 0,
{
    let n = mant_len(s, a);
    if n >= 0 {
        lemma_mant_zeros(s, a, 0, n);
    }
    let q = num_exp_val(s, a) - (num_fb(s, a) - num_fa(s, a)) + 6;
    if q >= 0 {
        assert(0 * pow10(q as nat) == 0) by (nonlinear_arith);
    } else {
        lemma_pow10_pos((-q) as nat);
        vstd::arithmetic::div_mod::lemma_basic_div(0, pow10((-q) as nat));
    }
}

/// A numeral whose scale places at least twenty digits above the
/// microsecond point clips to the i64 extreme of its sign.
proof fn lemma_time_big(s: Seq<char>, a: int, nz: int)
    requires
        forall|k: int| 0 <= k < mant_len(s, a) ==> 0 <= #[trigger] mdigit(s, a, k) <= 9,
        0 <= nz < mant_len(s, a),
        forall|k: int| 0 <= k < nz ==> #[trigger] mdigit(s, a, k) == 0,
        mdigit(s, a, nz) >= 1,
        (mant_len(s, a) - nz) + num_exp_val(s, a) - (num_fb(s, a) - num_fa(s, a)) + 6 >= 20,
    ensures
        spec_time_us(s, a) == if num_neg(s, a) {
            i64::MIN
        } else {
            i64::MAX
        },
{
    let n = mant_len(s, a);
    let nn = n - nz;
    let q = num_exp_val(s, a) - (num_fb(s, a) - num_fa(s, a)) + 6;
    let m = mant_val(s, a, 0, n);
    lemma_mant_split(s, a, 0, nz, n);
    lemma_mant_zeros(s, a, 0, nz);
    assert(m == mant_val(s, a, nz, n));
    lemma_mant_lower(s, a, nz, n);
    assert(m >= pow10((nn - 1) as nat));
    lemma_pow10_19();
    if q >= 0 {
        // abs == m * pow10(q) >= pow10(nn - 1 + q) >= pow10(19)
        lemma_pow10_add((nn - 1) as nat, q as nat);
        lemma_pow10_pos(q as nat);
        assert(m * pow10(q as nat) >= pow10((nn - 1) as nat) * pow10(q as nat)) by (
        nonlinear_arith)
            requires m >= pow10((nn - 1) as nat) && pow10(q as nat) >= 1;
        lemma_pow10_mono(19, (nn - 1 + q) as nat);
        assert(m * pow10(q as nat) >= pow10(19));
    } else {
        // abs == m / pow10(-q) >= pow10(nn - 1 + q) >= pow10(19)
        let d = pow10((-q) as nat);
        let lo = pow10((nn - 1 + q) as nat);
        lemma_pow10_pos((-q) as nat);
        lemma_pow10_add((nn - 1 + q) as nat, (-q) as nat);
        assert(pow10((nn - 1) as nat) == lo * d);
        vstd::arithmetic::div_mod::lemma_div_is_ordered(lo * d, m, d);
        vstd::arithmetic::div_mod::lemma_div_multiples_vanish(lo, d);
        assert(lo * d == d * lo) by (nonlinear_arith);
        assert((lo * d) / d == lo);
        lemma_pow10_mono(19, (nn - 1 + q) as nat);
        assert(m / d >= pow10(19));
    }
}

/// A numeral whose scale places no digits above the microsecond point
/// truncates to zero.
proof fn lemma_time_small(s: Seq<char>, a: int, nz: int)
    requires
        forall|k: int| 0 <= k < mant_len(s, a) ==> 0 <= #[trigger] mdigit(s, a, k) <= 9,
        0 <= nz < mant_len(s, a),
        forall|k: int| 0 <= k < nz ==> #[trigger] mdigit(s, a, k) == 0,
        (mant_len(s, a) - nz) + num_exp_val(s, a) - (num_fb(s, a) - num_fa(s, a)) + 6 <= 0,
    ensures
        spec_time_us(s, a) == 0,
{
    let n = mant_len(s, a);
    let nn = n - nz;
    let q = num_exp_val(s, a) - (num_fb(s, a) - num_fa(s, a)) + 6;
    let m = mant_val(s, a, 0, n);
    lemma_mant_split(s, a, 0, nz, n);
    lemma_mant_zeros(s, a, 0, nz);
    lemma_mant_bounds(s, a, nz, n);
    assert(q < 0);
    assert(0 <= m < pow10(nn as nat));
    lemma_pow10_mono(nn as nat, (-q) as nat);
    vstd::arithmetic::div_mod::lemma_basic_div(m, pow10((-q) as nat));
}

/// In the exactly-representable range the truncated value is the run of
/// mantissa digits above the microsecond point, scaled up when the
/// exponent reaches past the mantissa's end.
proof fn lemma_time_mid(s: Seq<char>, a: int, nz: int, k: int, acc: int)
    requires
        forall|j: int| 0 <= j < mant_len(s, a) ==> 0 <= #[trigger] mdigit(s, a, j) <= 9,
        0 <= nz < mant_len(s, a),
        forall|j: int| 0 <= j < nz ==> #[trigger] mdigit(s, a, j) == 0,
        1 <= (mant_len(s, a) - nz) + num_exp_val(s, a) - (num_fb(s, a) - num_fa(s, a)) + 6 <= 19,
        k == ({
            let sc = (mant_len(s, a) - nz) + num_exp_val(s, a) - (num_fb(s, a) - num_fa(s, a))
                + 6;
            if mant_len(s, a) - nz < sc {
                mant_len(s, a) - nz
            } else {
                sc
            }
        }),
        acc == mant_val(s, a, nz, nz + k) * pow10(
            ((mant_len(s, a) - nz) + num_exp_val(s, a) - (num_fb(s, a) - num_fa(s, a)) + 6
                - k) as nat,
        ),
    ensures
        spec_time_us(s, a) == clip_i64(
            if num_neg(s, a) {
                -acc
            } else {
                acc
            },
        ),
{
    let n = mant_len(s, a);
    let nn = n - nz;
    let q = num_exp_val(s, a) - (num_fb(s, a) - num_fa(s, a)) + 6;
    let sc = nn + q;
    let m = mant_val(s, a, 0, n);
    lemma_mant_split(s, a, 0, nz, n);
    lemma_mant_zeros(s, a, 0, nz);
    assert(m == mant_val(s, a, nz, n));
    if q >= 0 {
        assert(k == nn);
        assert(acc == m * pow10(q as nat));
    } else {
        assert(k == sc);
        assert(acc == mant_val(s, a, nz, nz + k) * pow10(0));
        assert(pow10(0) == 1);
        let d = pow10((-q) as nat);
        lemma_pow10_pos((-q) as nat);
        lemma_mant_split(s, a, nz, nz + k, n);
        lemma_mant_bounds(s, a, nz + k, n);
        assert(n - (nz + k) == -q);
        assert(m == mant_val(s, a, nz, nz + k) * d + mant_val(s, a, nz + k, n));
        vstd::arithmetic::div_mod::lemma_fundamental_div_mod_converse(
            m,
            d,
            mant_val(s, a, nz, nz + k),
            mant_val(s, a, nz + k, n),
        );
        assert(m / d == mant_val(s, a, nz, nz + k));
        assert(acc == mant_val(s, a, nz, nz + k) * 1);
    }
}

} // verus!

verus! {

/// Saturation bound for exponent accumulation: any exponent magnitude
/// beyond this forces the result to a clip extreme or to zero, whatever
/// the dropped digits were.
pub const EXP_CAP: i128 = 1_000_000_000_000_000_000_000_000_000_000;

/// Executable digit test.
fn is_digit_exec(c: char) -> (b: bool)
    ensures
        b == is_digit(c),
{
    let u = c as u32;
    48 <= u && u <= 57
}

/// Reads the raw code of the `i`-th mantissa digit, counting across the
/// decimal point.
fn mant_digit(s: &Vec<char>, ia: usize, ilen: usize, fa: usize, i: usize) -> (d: u32)
    requires
        i < ilen ==> ia + i < s.len(),
        i >= ilen ==> fa + (i - ilen) < s.len(),
    ensures
        d == (if (i as int) < ilen as int {
            s@[ia + i]
        } else {
            s@[fa as int + (i as int - ilen as int)]
        }) as u32,
{
    if i < ilen {
        s[ia + i] as u32
    } else {
        s[fa + (i - ilen)] as u32
    }
}

/// Skips decimal digits in a character buffer.
fn skip_digits(s: &Vec<char>, pos: usize) -> (r: usize)
    requires
        pos <= s.len(),
    ensures
        r == digits_end(s@, pos as int),
        pos <= r <= s.len(),
{
    proof {
        lemma_digits_end(s@, pos as int);
    }
    let mut p = pos;
    while p < s.len() && is_digit_exec(s[p])
        invariant
            pos <= p <= s.len(),
            digits_end(s@, pos as int) == digits_end(s@, p as int),
        decreases s.len() - p,
    {
        p = p + 1;
    }
    p
}

/// Reads the decimal numeral starting at `a` as a clipped microsecond
/// count, mirroring `spec_time_us`.
#[verifier::rlimit(100)]
fn parse_time_us(s: &Vec<char>, a: usize) -> (t: i64)
    requires
        a <= s.len(),
    ensures
        t == spec_time_us(s@, a as int),
{
    let ghost sa = s@;
    let ghost ai = a as int;

    let neg = a < s.len() && s[a] == '-';
    let ia = if neg {
        a + 1
    } else {
        a
    };
    proof {
        assert(neg == num_neg(sa, ai));
        assert(ia as int == num_ia(sa, ai));
    }
    let ib = skip_digits(s, ia);
    let fa = if ib < s.len() && s[ib] == '.' {
        ib + 1
    } else {
        ib
    };
    let fb = skip_digits(s, fa);
    let has_exp = fb < s.len() && (s[fb] == 'e' || s[fb] == 'E');
    let esign = has_exp && fb + 1 < s.len() && s[fb + 1] == '-';
    let xa = if has_exp {
        if fb + 1 < s.len() && (s[fb + 1] == '-' || s[fb + 1] == '+') {
            fb + 2
        } else {
            fb + 1
        }
    } else {
        fb
    };
    let xb = skip_digits(s, xa);
    proof {
        assert(ib as int == num_ib(sa, ai));
        assert(fa as int == num_fa(sa, ai));
        assert(fb as int == num_fb(sa, ai));
        assert(has_exp == num_has_exp(sa, ai));
        assert(esign == num_esign(sa, ai));
        assert(xa as int == num_xa(sa, ai));
        assert(xb as int == num_xb(sa, ai));
        lemma_digits_end(sa, ia as int);
        lemma_digits_end(sa, fa as int);
        lemma_digits_end(sa, xa as int);
    }

    // Exponent digits, saturating far beyond any meaningful scale.
    let mut ev: i128 = 0;
    let mut i = xa;
    while i < xb
        invariant
            xa <= i <= xb <= s.len(),
            sa == s@,
            forall|j: int| xa <= j < xb ==> is_digit(#[trigger] sa[j]),
            0 <= ev <= EXP_CAP * 10 + 9,
            ev <= digits_val_range(sa, xa as int, i as int),
            ev == digits_val_range(sa, xa as int, i as int) || (ev > EXP_CAP
                && digits_val_range(sa, xa as int, i as int) > EXP_CAP),
        decreases xb - i,
    {
        let ghost evt_old = digits_val_range(sa, xa as int, i as int);
        let d = (s[i] as u32 - 48) as i128;
        if ev <= EXP_CAP {
            ev = ev * 10 + d;
        }
        i = i + 1;
        proof {
            let evt = digits_val_range(sa, xa as int, i as int);
            assert(evt == evt_old * 10 + digit_val(sa[i - 1]));
            if evt_old > EXP_CAP {
                assert(evt_old * 10 > EXP_CAP * 10) by (nonlinear_arith)
                    requires evt_old > EXP_CAP && EXP_CAP > 0;
            } else {
                assert(evt_old * 10 + d <= EXP_CAP * 10 + 9) by (nonlinear_arith)
                    requires evt_old <= EXP_CAP && d <= 9;
                assert(evt_old * 10 >= evt_old) by (nonlinear_arith)
                    requires evt_old >= 0;
            }
        }
    }
    let ghost evt = digits_val_range(sa, num_xa(sa, ai), num_xb(sa, ai));
    let ghost exp_true = num_exp_val(sa, ai);
    let ghost q_true = exp_true - (num_fb(sa, ai) - num_fa(sa, ai)) + 6;

    let evs: i128 = if esign {
        -ev
    } else {
        ev
    };
    let fraclen = fb - fa;
    let q: i128 = evs - (fraclen as i128) + 6;
    proof {
        if esign {
            assert(exp_true == -evt);
            assert(evs >= -evt);
        } else {
            assert(exp_true == evt);
            assert(evs <= evt);
        }
    }

    // Mantissa digits, counted across the decimal point.
    let ilen = ib - ia;
    let n = ilen + (fb - fa);
    proof {
        assert(n as int == mant_len(sa, ai));
        assert forall|k: int| 0 <= k < n implies 0 <= #[trigger] mdigit(sa, ai, k) <= 9 by {
            if k < ib - ia {
                assert(is_digit(sa[ia + k]));
            } else {
                assert(is_digit(sa[fa + (k - (ib - ia))]));
            }
        }
    }

    // First non-zero mantissa digit.
    let mut nz: usize = 0;
    while nz < n && mant_digit(s, ia, ilen, fa, nz) == 48
        invariant
            0 <= nz <= n,
            n == ilen + (fb - fa),
            ilen == ib - ia,
            ia <= ib <= s.len(),
            fa <= fb <= s.len(),
            sa == s@,
            ai == a as int,
            ia as int == num_ia(sa, ai),
            ib as int == num_ib(sa, ai),
            fa as int == num_fa(sa, ai),
            n as int == mant_len(sa, ai),
            forall|k: int| 0 <= k < n ==> 0 <= #[trigger] mdigit(sa, ai, k) <= 9,
            forall|k: int| 0 <= k < nz ==> #[trigger] mdigit(sa, ai, k) == 0,
        decreases n - nz,
    {
        nz = nz + 1;
    }
    proof {
        if nz < n {
            assert(mdigit(sa, ai, nz as int) >= 1);
        }
    }

    if nz == n {
        proof {
            lemma_time_zero(sa, ai);
        }
        return 0;
    }

    let nn = n - nz;
    let sc: i128 = (nn as i128) + q;
    let ghost sct = (nn as int) + q_true;
    proof {
        assert(usize::MAX as int <= 0xFFFF_FFFF_FFFF_FFFFu64 as int);
        if ev != evt {
            assert(ev > EXP_CAP && evt > EXP_CAP);
        }
    }

    if sc >= 20 {
        proof {
            if esign {
                assert(ev == evt);
                assert(sct == sc as int);
            } else {
                assert(q as int <= q_true);
                assert(sct >= 20);
            }
            lemma_time_big(sa, ai, nz as int);
        }
        if neg {
            return i64::MIN;
        } else {
            return i64::MAX;
        }
    }
    if sc <= 0 {
        proof {
            if esign {
                assert(q as int >= q_true);
                assert(sct <= 0);
            } else {
                assert(ev == evt);
                assert(sct == sc as int);
            }
            lemma_time_small(sa, ai, nz as int);
        }
        return 0;
    }
    proof {
        if ev != evt {
            if esign {
                assert(sc <= 0);
            } else {
                assert(sc >= 20);
            }
            assert(false);
        }
        assert(sct == sc as int);
    }

    // Digits above the microsecond point.
    let k = if (nn as i128) < sc {
        nn
    } else {
        sc as usize
    };
    let mut acc: i128 = 0;
    let mut j: usize = 0;
    while j < k
        invariant
            0 <= j <= k,
            k <= nn,
            nn == n - nz,
            k as i128 <= 19,
            nz + k <= n,
            n == ilen + (fb - fa),
            ilen == ib - ia,
            ia <= ib <= s.len(),
            fa <= fb <= s.len(),
            sa == s@,
            ai == a as int,
            ia as int == num_ia(sa, ai),
            ib as int == num_ib(sa, ai),
            fa as int == num_fa(sa, ai),
            n as int == mant_len(sa, ai),
            forall|t: int| 0 <= t < n ==> 0 <= #[trigger] mdigit(sa, ai, t) <= 9,
            acc == mant_val(sa, ai, nz as int, nz + j),
            0 <= acc,
        decreases k - j,
    {
        proof {
            lemma_mant_bounds(sa, ai, nz as int, nz + j);
            lemma_pow10_mono((j) as nat, 19);
            lemma_pow10_19();
        }
        let u = mant_digit(s, ia, ilen, fa, nz + j);
        proof {
            assert(u as int - 48 == mdigit(sa, ai, nz + j));
        }
        let d = (u - 48) as i128;
        acc = acc * 10 + d;
        j = j + 1;
    }
    proof {
        lemma_mant_bounds(sa, ai, nz as int, nz + k);
    }

    // Scale up when the exponent reaches past the mantissa's end.
    let mut mult = sc - (k as i128);
    while mult > 0
        invariant
            0 <= mult <= sc - k,
            k as i128 <= sc <= 19,
            sa == s@,
            ai == a as int,
            acc == mant_val(sa, ai, nz as int, nz + k as int) * pow10((sc - k - mult) as nat),
            0 <= acc < pow10((sc - mult) as nat),
        decreases mult,
    {
        proof {
            lemma_pow10_mono((sc - mult) as nat, 19);
            lemma_pow10_19();
            let m0 = mant_val(sa, ai, nz as int, nz + k as int);
            let p0 = pow10((sc - k - mult) as nat);
            assert((m0 * p0) * 10 == m0 * (10 * p0)) by (nonlinear_arith);
            assert(pow10((sc - k - mult + 1) as nat) == 10 * p0);
            assert(acc * 10 < pow10((sc - mult) as nat) * 10) by (nonlinear_arith)
                requires acc < pow10((sc - mult) as nat) && acc >= 0;
            assert(pow10((sc - mult + 1) as nat) == 10 * pow10((sc - mult) as nat));
        }
        acc = acc * 10;
        mult = mult - 1;
    }
    proof {
        lemma_time_mid(sa, ai, nz as int, k as int, acc as int);
        lemma_pow10_mono((sc) as nat, 19);
        lemma_pow10_19();
    }

    let v: i128 = if neg {
        -acc
    } else {
        acc
    };
    if v > i64::MAX as i128 {
        i64::MAX
    } else if v < i64::MIN as i128 {
        i64::MIN
    } else {
        v as i64
    }
}

} // verus!

verus! {

// ---------------------------------------------------------------------
// Event lines: a JSON array `[time, tag, payload?]`.
// ---------------------------------------------------------------------

/// Interprets a structurally valid event array whose `[` stands at `p`:
/// the first element must be a number (the timestamp), the second a
/// string tag; tags `o` and `m` require a third string element, any
/// other tag is carried as an unknown event.
pub open spec fn spec_event_of(s: Seq<char>, p: int) -> Result<EventV, Error> {
    let a0 = ws_end(s, p + 1);
    if a0 < s.len() && s[a0] == ']' {
        Err(Error::InvalidEventTime)
    } else if !(a0 < s.len() && (s[a0] == '-' || is_digit(s[a0]))) {
        Err(Error::InvalidEventTime)
    } else {
        let t = spec_time_us(s, a0);
        match scan_value(s, a0) {
            None => Err(Error::MalformedJson),
            Some(e0) => {
                let r0 = ws_end(s, e0);
                if r0 < s.len() && s[r0] == ',' {
                    let a1 = ws_end(s, r0 + 1);
                    if a1 < s.len() && s[a1] == '"' {
                        match spec_string(s, a1) {
                            None => Err(Error::MalformedJson),
                            Some(tg) => {
                                if tg.0 == seq!['o'] || tg.0 == seq!['m'] {
                                    let r1 = ws_end(s, tg.1);
                                    if r1 < s.len() && s[r1] == ',' {
                                        let a2 = ws_end(s, r1 + 1);
                                        if a2 < s.len() && s[a2] == '"' {
                                            match spec_string(s, a2) {
                                                None => Err(Error::MalformedJson),
                                                Some(dt) => if tg.0 == seq!['o'] {
                                                    Ok(EventV::Output { time: t, data: dt.0 })
                                                } else {
                                                    Ok(EventV::Marker { time: t, label: dt.0 })
                                                },
                                            }
                                        } else {
                                            Err(Error::InvalidEvent)
                                        }
                                    } else {
                                        Err(Error::InvalidEvent)
                                    }
                                } else {
                                    Ok(EventV::Unknown { time: t, tag: tg.0 })
                                }
                            },
                        }
                    } else {
                        Err(Error::InvalidEvent)
                    }
                } else {
                    Err(Error::InvalidEvent)
                }
            },
        }
    }
}

/// Parses one event line: the line must be a single JSON value with
/// nothing but whitespace around it, the value must be an array, and
/// its elements are read as `spec_event_of` says.
pub open spec fn spec_parse_event(s: Seq<char>) -> Result<EventV, Error> {
    let p = ws_end(s, 0);
    match scan_value(s, p) {
        None => Err(Error::MalformedJson),
        Some(e) => if ws_end(s, e) != s.len() {
            Err(Error::MalformedJson)
        } else if !(p < s.len() && s[p] == '[') {
            Err(Error::InvalidEventTime)
        } else {
            spec_event_of(s, p)
        },
    }
}

/// Parses one line of the session log into an event.
///
/// Any malformed JSON fails with `MalformedJson`; a line whose value is
/// not an array, or whose first element is missing or not a number,
/// fails with `InvalidEventTime`; an output or marker event without its
/// string payload fails with `InvalidEvent`. Unknown tags are never
/// errors.
pub fn parse_event(line: &Vec<char>) -> (r: Result<Event, Error>)
    ensures
        (match r {
            Ok(ev) => spec_parse_event(line@) == Ok::<EventV, Error>(ev@),
            Err(er) => spec_parse_event(line@) == Err::<EventV, Error>(er),
        }),
{
    let p = skip_ws(line, 0);
    let e = match scan_from(line, p) {
        Some(x) => x,
        None => {
            return Err(Error::MalformedJson);
        },
    };
    proof {
        lemma_scan_bounds(line@, p as int, Mode::Val, Seq::empty());
    }
    if skip_ws(line, e) != line.len() {
        return Err(Error::MalformedJson);
    }
    if !(p < line.len() && line[p] == '[') {
        return Err(Error::InvalidEventTime);
    }
    let a0 = skip_ws(line, p + 1);
    if a0 < line.len() && line[a0] == ']' {
        return Err(Error::InvalidEventTime);
    }
    if !(a0 < line.len() && (line[a0] == '-' || is_digit_exec(line[a0]))) {
        return Err(Error::InvalidEventTime);
    }
    let t = parse_time_us(line, a0);
    let e0 = match scan_from(line, a0) {
        Some(x) => x,
        None => {
            return Err(Error::MalformedJson);
        },
    };
    proof {
        lemma_scan_bounds(line@, a0 as int, Mode::Val, Seq::empty());
    }
    let r0 = skip_ws(line, e0);
    if !(r0 < line.len() && line[r0] == ',') {
        return Err(Error::InvalidEvent);
    }
    let a1 = skip_ws(line, r0 + 1);
    if !(a1 < line.len() && line[a1] == '"') {
        return Err(Error::InvalidEvent);
    }
    proof {
        lemma_string_bounds(line@, a1 as int);
    }
    let (tag, e1) = match parse_string(line, a1) {
        Some(x) => x,
        None => {
            return Err(Error::MalformedJson);
        },
    };
    let is_o = tag.len() == 1 && tag[0] == 'o';
    let is_m = tag.len() == 1 && tag[0] == 'm';
    proof {
        if is_o {
            assert(tag@ =~= seq!['o']);
        } else if tag@ == seq!['o'] {
            assert(tag@.len() == 1 && tag@[0] == 'o');
            assert(false);
        }
        if is_m {
            assert(tag@ =~= seq!['m']);
        } else if tag@ == seq!['m'] {
            assert(tag@.len() == 1 && tag@[0] == 'm');
            assert(false);
        }
    }
    if is_o || is_m {
        let r1 = skip_ws(line, e1);
        if !(r1 < line.len() && line[r1] == ',') {
            return Err(Error::InvalidEvent);
        }
        let a2 = skip_ws(line, r1 + 1);
        if !(a2 < line.len() && line[a2] == '"') {
            return Err(Error::InvalidEvent);
        }
        let (data, _e2) = match parse_string(line, a2) {
            Some(x) => x,
            None => {
                return Err(Error::MalformedJson);
            },
        };
        if is_o {
            Ok(Event::Output { time: t, data })
        } else {
            Ok(Event::Marker { time: t, label: data })
        }
    } else {
        Ok(Event::Unknown { time: t, tag })
    }
}

} // verus!

verus! {

// ---------------------------------------------------------------------
// Objects: the header line and the cut configuration. Members are
// walked in order; object keys are decoded strings, member values are
// left in place and classified by their first character.
// ---------------------------------------------------------------------

/// The members of the object body starting at `pos` (just after `{`),
/// as decoded keys paired with the position of each member's value,
/// plus the position one past the closing brace.
pub open spec fn spec_members_rest(s: Seq<char>, pos: int) -> Option<(Seq<(Seq<char>, int)>, int)>
    decreases s.len() - pos,
        via spec_members_rest_dec
{
    let q = ws_end(s, pos);
    match spec_string(s, q) {
        None => None,
        Some(kv) => {
            let c = ws_end(s, kv.1);
            if c < s.len() && s[c] == ':' {
                let v = ws_end(s, c + 1);
                match scan_value(s, v) {
                    None => None,
                    Some(e2) => {
                        let r = ws_end(s, e2);
                        if r < s.len() && s[r] == '}' {
                            Some((seq![(kv.0, v)], r + 1))
                        } else if r < s.len() && s[r] == ',' {
                            match spec_members_rest(s, r + 1) {
                                None => None,
                                Some(t) => Some((seq![(kv.0, v)] + t.0, t.1)),
                            }
                        } else {
                            None
                        }
                    },
                }
            } else {
                None
            }
        },
    }
}

#[via_fn]
proof fn spec_members_rest_dec(s: Seq<char>, pos: int) {
    if 0 <= pos <= s.len() {
        lemma_ws_end(s, pos);
        let q = ws_end(s, pos);
        lemma_string_bounds(s, q);
        match spec_string(s, q) {
            None => {},
            Some(kv) => {
                lemma_ws_end(s, kv.1);
                let c = ws_end(s, kv.1);
                if c < s.len() && s[c] == ':' {
                    lemma_ws_end(s, c + 1);
                    let v = ws_end(s, c + 1);
                    lemma_scan_bounds(s, v, Mode::Val, Seq::empty());
                    match scan_value(s, v) {
                        None => {},
                        Some(e2) => {
                            lemma_ws_end(s, e2);
                        },
                    }
                }
            },
        }
    }
}

/// The member list of the object whose opening brace stands just before
/// `pos`, allowing the empty object.
pub open spec fn spec_members(s: Seq<char>, pos: int) -> Option<(Seq<(Seq<char>, int)>, int)> {
    let q = ws_end(s, pos);
    if q < s.len() && s[q] == '}' {
        Some((Seq::empty(), q + 1))
    } else {
        spec_members_rest(s, pos)
    }
}

/// Walks the members of the object whose `{` stands at `p`, returning
/// each decoded key with the position of its value, and the position
/// one past the closing brace.
#[verifier::rlimit(50)]
fn parse_members(line: &Vec<char>, p: usize) -> (r: Option<(Vec<(Vec<char>, usize)>, usize)>)
    requires
        p < line.len(),
    ensures
        match spec_members(line@, p as int + 1) {
            Some(t) => r matches Some(v) && v.0@.len() == t.0.len() && (forall|i: int|
                0 <= i < t.0.len() ==> (#[trigger] v.0@[i]).0@ == t.0[i].0 && v.0@[i].1 as int
                    == t.0[i].1) && v.1 as int == t.1,
            None => r is None,
        },
{
    let q0 = skip_ws(line, p + 1);
    if q0 < line.len() && line[q0] == '}' {
        let empty: Vec<(Vec<char>, usize)> = Vec::new();
        return Some((empty, q0 + 1));
    }
    let mut ms: Vec<(Vec<char>, usize)> = Vec::new();
    let mut pos = p + 1;
    loop
        invariant
            pos <= line.len(),
            !(ws_end(line@, p as int + 1) < line@.len() && line@[ws_end(line@, p as int + 1)]
                == '}'),
            spec_members_rest(line@, p as int + 1) == (match spec_members_rest(
                line@,
                pos as int,
            ) {
                Some(t) => Some::<(Seq<(Seq<char>, int)>, int)>(
                    (ms@.map_values(|m: (Vec<char>, usize)| (m.0@, m.1 as int)) + t.0, t.1),
                ),
                None => None,
            }),
        decreases line@.len() - pos,
    {
        let ghost msv = ms@.map_values(|m: (Vec<char>, usize)| (m.0@, m.1 as int));
        let q = skip_ws(line, pos);
        proof {
            lemma_string_bounds(line@, q as int);
        }
        let (key, e1) = match parse_string(line, q) {
            Some(x) => x,
            None => {
                return None;
            },
        };
        let c = skip_ws(line, e1);
        if !(c < line.len() && line[c] == ':') {
            return None;
        }
        let v = skip_ws(line, c + 1);
        let e2 = match scan_from(line, v) {
            Some(x) => x,
            None => {
                return None;
            },
        };
        proof {
            lemma_scan_bounds(line@, v as int, Mode::Val, Seq::empty());
        }
        let rr = skip_ws(line, e2);
        ms.push((key, v));
        proof {
            assert(ms@.map_values(|m: (Vec<char>, usize)| (m.0@, m.1 as int)) =~= msv.push(
                (ms@.last().0@, ms@.last().1 as int),
            ));
        }
        if rr < line.len() && line[rr] == '}' {
            proof {
                assert(spec_members_rest(line@, pos as int) matches Some(t) && t.0
                    =~= seq![(ms@.last().0@, ms@.last().1 as int)]);
                assert(msv + seq![(ms@.last().0@, ms@.last().1 as int)] =~= ms@.map_values(
                    |m: (Vec<char>, usize)| (m.0@, m.1 as int),
                ));
            }
            return Some((ms, rr + 1));
        } else if rr < line.len() && line[rr] == ',' {
            proof {
                let tail = spec_members_rest(line@, rr + 1 as int);
                match tail {
                    Some(t) => {
                        assert(msv + (seq![(ms@.last().0@, ms@.last().1 as int)] + t.0)
                            =~= ms@.map_values(|m: (Vec<char>, usize)| (m.0@, m.1 as int))
                            + t.0);
                    },
                    None => {},
                }
            }
            pos = rr + 1;
        } else {
            return None;
        }
    }
}

} // verus!

verus! {

/// The key of the header's width member.
pub open spec fn key_width() -> Seq<char> {
    seq!['w', 'i', 'd', 't', 'h']
}

/// The key of the header's height member.
pub open spec fn key_height() -> Seq<char> {
    seq!['h', 'e', 'i', 'g', 'h', 't']
}

/// The key of the cut's first-marker member.
pub open spec fn key_first_marker() -> Seq<char> {
    seq!['f', 'i', 'r', 's', 't', '_', 'm', 'a', 'r', 'k', 'e', 'r']
}

/// The key of the cut's last-marker member.
pub open spec fn key_last_marker() -> Seq<char> {
    seq!['l', 'a', 's', 't', '_', 'm', 'a', 'r', 'k', 'e', 'r']
}

/// The key of the cut's start-immediately member.
pub open spec fn key_start_immediately() -> Seq<char> {
    seq!['s', 't', 'a', 'r', 't', '_', 'i', 'm', 'm', 'e', 'd', 'i', 'a', 't', 'e', 'l', 'y']
}

/// A member value read as an unsigned integer: it must be a bare digit
/// run, neither fractional nor exponential nor negative, and fit the
/// machine's word.
pub open spec fn member_uint(s: Seq<char>, v: int) -> Option<int> {
    if 0 <= v < s.len() && is_digit(s[v]) {
        let d = digits_end(s, v);
        if d == s.len() || !(s[d] == '.' || s[d] == 'e' || s[d] == 'E') {
            let val = digits_val_range(s, v, d);
            if val <= usize::MAX {
                Some(val)
            } else {
                None
            }
        } else {
            None
        }
    } else {
        None
    }
}

/// A member value read as an optional unsigned integer: `null` stands
/// for the absent value.
pub open spec fn member_opt_uint(s: Seq<char>, v: int) -> Option<Option<int>> {
    if 0 <= v < s.len() && s[v] == 'n' {
        Some(None)
    } else {
        match member_uint(s, v) {
            Some(x) => Some(Some(x)),
            None => None,
        }
    }
}

/// A member value read as a boolean.
pub open spec fn member_bool(s: Seq<char>, v: int) -> Option<bool> {
    if 0 <= v < s.len() && s[v] == 't' {
        Some(true)
    } else if 0 <= v < s.len() && s[v] == 'f' {
        Some(false)
    } else {
        None
    }
}

/// Running state while reading the header's members.
pub struct HdrAcc {
    pub bad: bool,
    pub w: Option<int>,
    pub h: Option<int>,
}

/// Folds one header member into the running state: a repeated or
/// ill-typed dimension poisons the header, unknown keys are ignored.
pub open spec fn hdr_step(s: Seq<char>, acc: HdrAcc, key: Seq<char>, v: int) -> HdrAcc {
    if key == key_width() {
        if acc.w is Some {
            HdrAcc { bad: true, ..acc }
        } else {
            match member_uint(s, v) {
                Some(x) => HdrAcc { w: Some(x), ..acc },
                None => HdrAcc { bad: true, ..acc },
            }
        }
    } else if key == key_height() {
        if acc.h is Some {
            HdrAcc { bad: true, ..acc }
        } else {
            match member_uint(s, v) {
                Some(x) => HdrAcc { h: Some(x), ..acc },
                None => HdrAcc { bad: true, ..acc },
            }
        }
    } else {
        acc
    }
}

/// The header members folded in order.
pub open spec fn hdr_fold(s: Seq<char>, ms: Seq<(Seq<char>, int)>) -> HdrAcc
    decreases ms.len(),
{
    if ms.len() == 0 {
        HdrAcc { bad: false, w: None, h: None }
    } else {
        hdr_step(s, hdr_fold(s, ms.drop_last()), ms.last().0, ms.last().1)
    }
}

/// Parses the header line: a JSON object holding `width` and `height`
/// members with unsigned integer values, each exactly once; other
/// members are ignored.
pub open spec fn spec_parse_header(s: Seq<char>) -> Option<Header> {
    let p = ws_end(s, 0);
    match scan_value(s, p) {
        None => None,
        Some(e) => if ws_end(s, e) != s.len() {
            None
        } else if !(p < s.len() && s[p] == '{') {
            None
        } else {
            match spec_members(s, p + 1) {
                None => None,
                Some(t) => {
                    let acc = hdr_fold(s, t.0);
                    if !acc.bad && acc.w is Some && acc.h is Some {
                        Some(Header { width: acc.w->0 as usize, height: acc.h->0 as usize })
                    } else {
                        None
                    }
                },
            }
        },
    }
}

/// Compares two character buffers.
fn chars_eq(a: &Vec<char>, b: &Vec<char>) -> (r: bool)
    ensures
        r == (a@ == b@),
{
    if a.len() != b.len() {
        proof {
            if a@ == b@ {
                assert(a@.len() == b@.len());
            }
        }
        return false;
    }
    let mut i: usize = 0;
    while i < a.len()
        invariant
            i <= a.len(),
            a.len() == b.len(),
            forall|j: int| 0 <= j < i ==> a@[j] == b@[j],
        decreases a.len() - i,
    {
        if a[i] != b[i] {
            proof {
                if a@ == b@ {
                    assert(a@[i as int] == b@[i as int]);
                }
            }
            return false;
        }
        i = i + 1;
    }
    proof {
        assert(a@ =~= b@);
    }
    true
}

/// Reads a member value as an unsigned integer, mirroring
/// `member_uint`.
fn parse_uint(s: &Vec<char>, v: usize) -> (r: Option<usize>)
    ensures
        member_uint(s@, v as int) == (match r {
            Some(u) => Some(u as int),
            None => None::<int>,
        }),
{
    if v >= s.len() || !is_digit_exec(s[v]) {
        return None;
    }
    let d = skip_digits(s, v);
    if d < s.len() && (s[d] == '.' || s[d] == 'e' || s[d] == 'E') {
        return None;
    }
    proof {
        lemma_digits_end(s@, v as int);
    }
    let mut acc: u128 = 0;
    let mut i = v;
    while i < d
        invariant
            v <= i <= d <= s.len(),
            forall|j: int| v <= j < d ==> is_digit(#[trigger] s@[j]),
            0 <= acc <= (usize::MAX as u128) * 10 + 9,
            acc <= digits_val_range(s@, v as int, i as int),
            acc == digits_val_range(s@, v as int, i as int) || (acc > usize::MAX as u128
                && digits_val_range(s@, v as int, i as int) > usize::MAX),
        decreases d - i,
    {
        let ghost dv_old = digits_val_range(s@, v as int, i as int);
        let dg = (s[i] as u32 - 48) as u128;
        if acc <= usize::MAX as u128 {
            acc = acc * 10 + dg;
        }
        i = i + 1;
        proof {
            let dv = digits_val_range(s@, v as int, i as int);
            assert(dv == dv_old * 10 + digit_val(s@[i - 1]));
            if dv_old > usize::MAX {
                assert(dv_old * 10 > (usize::MAX as int) * 10) by (nonlinear_arith)
                    requires dv_old > usize::MAX as int && usize::MAX as int > 0;
            } else {
                assert(dv_old * 10 + dg <= (usize::MAX as int) * 10 + 9) by (nonlinear_arith)
                    requires dv_old <= usize::MAX as int && dg <= 9;
                assert(dv_old * 10 >= dv_old) by (nonlinear_arith)
                    requires dv_old >= 0;
            }
        }
    }
    if acc > usize::MAX as u128 {
        None
    } else {
        Some(acc as usize)
    }
}

} // verus!

verus! {

/// A poisoned header state stays poisoned through the remaining
/// members.
proof fn lemma_hdr_bad_sticky(s: Seq<char>, ms: Seq<(Seq<char>, int)>, k: int)
    requires
        0 <= k <= ms.len(),
        hdr_fold(s, ms.take(k)).bad,
    ensures
        hdr_fold(s, ms).bad,
    decreases ms.len() - k,
{
    if k == ms.len() {
        assert(ms.take(k) =~= ms);
    } else {
        assert(ms.take(k + 1).drop_last() =~= ms.take(k));
        assert(ms.take(k + 1).last() == ms[k]);
        assert(hdr_fold(s, ms.take(k + 1)).bad);
        lemma_hdr_bad_sticky(s, ms, k + 1);
    }
}

/// Parses the header line into grid dimensions. Any failure - broken
/// JSON, a value that is not an object, a missing, repeated or
/// ill-typed dimension - yields `None`.
pub fn parse_header(line: &Vec<char>) -> (r: Option<Header>)
    ensures
        r == spec_parse_header(line@),
{
    let p = skip_ws(line, 0);
    let e = match scan_from(line, p) {
        Some(x) => x,
        None => {
            return None;
        },
    };
    proof {
        lemma_scan_bounds(line@, p as int, Mode::Val, Seq::empty());
    }
    if skip_ws(line, e) != line.len() {
        return None;
    }
    if !(p < line.len() && line[p] == '{') {
        return None;
    }
    let (ms, _end) = match parse_members(line, p) {
        Some(x) => x,
        None => {
            return None;
        },
    };
    let ghost msv = (spec_members(line@, p as int + 1)->0).0;
    let kw = vec!['w', 'i', 'd', 't', 'h'];
    let kh = vec!['h', 'e', 'i', 'g', 'h', 't'];
    proof {
        assert(kw@ =~= key_width());
        assert(kh@ =~= key_height());
    }
    let mut w: Option<usize> = None;
    let mut h: Option<usize> = None;
    let mut i: usize = 0;
    while i < ms.len()
        invariant
            i <= ms.len(),
            ms@.len() == msv.len(),
            forall|j: int| 0 <= j < msv.len() ==> (#[trigger] ms@[j]).0@ == msv[j].0
                && ms@[j].1 as int == msv[j].1,
            kw@ == key_width(),
            kh@ == key_height(),
            p < line@.len() && line@[p as int] == '{',
            p as int == ws_end(line@, 0),
            scan_value(line@, p as int) == Some(e as int),
            ws_end(line@, e as int) == line@.len(),
            spec_members(line@, p as int + 1) is Some,
            (spec_members(line@, p as int + 1)->0).0 == msv,
            hdr_fold(line@, msv.take(i as int)) == (HdrAcc {
                bad: false,
                w: match w {
                    Some(u) => Some(u as int),
                    None => None,
                },
                h: match h {
                    Some(u) => Some(u as int),
                    None => None,
                },
            }),
        decreases ms.len() - i,
    {
        let ghost accv = hdr_fold(line@, msv.take(i as int));
        proof {
            assert(msv.take(i as int + 1).drop_last() =~= msv.take(i as int));
            assert(msv.take(i as int + 1).last() == msv[i as int]);
        }
        let is_w = chars_eq(&ms[i].0, &kw);
        let is_h = chars_eq(&ms[i].0, &kh);
        if is_w {
            if w.is_some() {
                proof {
                    lemma_hdr_bad_sticky(line@, msv, i as int + 1);
                }
                return None;
            }
            match parse_uint(line, ms[i].1) {
                Some(x) => {
                    w = Some(x);
                },
                None => {
                    proof {
                        lemma_hdr_bad_sticky(line@, msv, i as int + 1);
                    }
                    return None;
                },
            }
        } else if is_h {
            if h.is_some() {
                proof {
                    lemma_hdr_bad_sticky(line@, msv, i as int + 1);
                }
                return None;
            }
            match parse_uint(line, ms[i].1) {
                Some(x) => {
                    h = Some(x);
                },
                None => {
                    proof {
                        lemma_hdr_bad_sticky(line@, msv, i as int + 1);
                    }
                    return None;
                },
            }
        }
        i = i + 1;
    }
    proof {
        assert(msv.take(msv.len() as int) =~= msv);
    }
    match (w, h) {
        (Some(wv), Some(hv)) => Some(Header { width: wv, height: hv }),
        _ => None,
    }
}

/// Running state while reading the cut configuration's members.
pub struct CutAcc {
    pub bad: bool,
    pub first: Option<Option<int>>,
    pub last: Option<Option<int>>,
    pub started: Option<bool>,
}

/// Folds one cut member into the running state: the marker fields take
/// an unsigned integer or `null`, the start flag a boolean; a repeated
/// or ill-typed field poisons the configuration, unknown keys are
/// ignored.
pub open spec fn cut_step(s: Seq<char>, acc: CutAcc, key: Seq<char>, v: int) -> CutAcc {
    if key == key_first_marker() {
        if acc.first is Some {
            CutAcc { bad: true, ..acc }
        } else {
            match member_opt_uint(s, v) {
                Some(x) => CutAcc { first: Some(x), ..acc },
                None => CutAcc { bad: true, ..acc },
            }
        }
    } else if key == key_last_marker() {
        if acc.last is Some {
            CutAcc { bad: true, ..acc }
        } else {
            match member_opt_uint(s, v) {
                Some(x) => CutAcc { last: Some(x), ..acc },
                None => CutAcc { bad: true, ..acc },
            }
        }
    } else if key == key_start_immediately() {
        if acc.started is Some {
            CutAcc { bad: true, ..acc }
        } else {
            match member_bool(s, v) {
                Some(x) => CutAcc { started: Some(x), ..acc },
                None => CutAcc { bad: true, ..acc },
            }
        }
    } else {
        acc
    }
}

/// The cut members folded in order.
pub open spec fn cut_fold(s: Seq<char>, ms: Seq<(Seq<char>, int)>) -> CutAcc
    decreases ms.len(),
{
    if ms.len() == 0 {
        CutAcc { bad: false, first: None, last: None, started: None }
    } else {
        cut_step(s, cut_fold(s, ms.drop_last()), ms.last().0, ms.last().1)
    }
}

/// Parses a cut configuration: a JSON object with optional
/// `first_marker` and `last_marker` members and a mandatory
/// `start_immediately` boolean.
pub open spec fn spec_parse_cut(s: Seq<char>) -> Option<Cut> {
    let p = ws_end(s, 0);
    match scan_value(s, p) {
        None => None,
        Some(e) => if ws_end(s, e) != s.len() {
            None
        } else if !(p < s.len() && s[p] == '{') {
            None
        } else {
            match spec_members(s, p + 1) {
                None => None,
                Some(t) => {
                    let acc = cut_fold(s, t.0);
                    if !acc.bad && acc.started is Some {
                        Some(
                            Cut {
                                first_marker: match acc.first {
                                    Some(Some(x)) => Some(x as usize),
                                    _ => None,
                                },
                                last_marker: match acc.last {
                                    Some(Some(x)) => Some(x as usize),
                                    _ => None,
                                },
                                start_immediately: acc.started->0,
                            },
                        )
                    } else {
                        None
                    }
                },
            }
        },
    }
}

/// A poisoned cut state stays poisoned through the remaining members.
proof fn lemma_cut_bad_sticky(s: Seq<char>, ms: Seq<(Seq<char>, int)>, k: int)
    requires
        0 <= k <= ms.len(),
        cut_fold(s, ms.take(k)).bad,
    ensures
        cut_fold(s, ms).bad,
    decreases ms.len() - k,
{
    if k == ms.len() {
        assert(ms.take(k) =~= ms);
    } else {
        assert(ms.take(k + 1).drop_last() =~= ms.take(k));
        assert(ms.take(k + 1).last() == ms[k]);
        assert(cut_fold(s, ms.take(k + 1)).bad);
        lemma_cut_bad_sticky(s, ms, k + 1);
    }
}

/// Parses a cut configuration string. Every failure is `MalformedCut`:
/// broken JSON, a value that is not an object, a repeated or ill-typed
/// field, or a missing `start_immediately`.
pub fn parse_cut(line: &Vec<char>) -> (r: Result<Cut, Error>)
    ensures
        (match r {
            Ok(c) => spec_parse_cut(line@) == Some(c),
            Err(er) => spec_parse_cut(line@) is None && er == Error::MalformedCut,
        }),
{
    let p = skip_ws(line, 0);
    let e = match scan_from(line, p) {
        Some(x) => x,
        None => {
            return Err(Error::MalformedCut);
        },
    };
    proof {
        lemma_scan_bounds(line@, p as int, Mode::Val, Seq::empty());
    }
    if skip_ws(line, e) != line.len() {
        return Err(Error::MalformedCut);
    }
    if !(p < line.len() && line[p] == '{') {
        return Err(Error::MalformedCut);
    }
    let (ms, _end) = match parse_members(line, p) {
        Some(x) => x,
        None => {
            return Err(Error::MalformedCut);
        },
    };
    let ghost msv = (spec_members(line@, p as int + 1)->0).0;
    let kf = vec!['f', 'i', 'r', 's', 't', '_', 'm', 'a', 'r', 'k', 'e', 'r'];
    let kl = vec!['l', 'a', 's', 't', '_', 'm', 'a', 'r', 'k', 'e', 'r'];
    let ks = vec!['s', 't', 'a', 'r', 't', '_', 'i', 'm', 'm', 'e', 'd', 'i', 'a', 't', 'e', 'l', 'y'];
    proof {
        assert(kf@ =~= key_first_marker());
        assert(kl@ =~= key_last_marker());
        assert(ks@ =~= key_start_immediately());
    }
    let mut first: Option<Option<usize>> = None;
    let mut last: Option<Option<usize>> = None;
    let mut started: Option<bool> = None;
    let mut i: usize = 0;
    while i < ms.len()
        invariant
            i <= ms.len(),
            ms@.len() == msv.len(),
            forall|j: int| 0 <= j < msv.len() ==> (#[trigger] ms@[j]).0@ == msv[j].0
                && ms@[j].1 as int == msv[j].1,
            kf@ == key_first_marker(),
            kl@ == key_last_marker(),
            ks@ == key_start_immediately(),
            p < line@.len() && line@[p as int] == '{',
            p as int == ws_end(line@, 0),
            scan_value(line@, p as int) == Some(e as int),
            ws_end(line@, e as int) == line@.len(),
            spec_members(line@, p as int + 1) is Some,
            (spec_members(line@, p as int + 1)->0).0 == msv,
            cut_fold(line@, msv.take(i as int)) == (CutAcc {
                bad: false,
                first: match first {
                    Some(Some(u)) => Some(Some(u as int)),
                    Some(None) => Some(None),
                    None => None,
                },
                last: match last {
                    Some(Some(u)) => Some(Some(u as int)),
                    Some(None) => Some(None),
                    None => None,
                },
                started: started,
            }),
        decreases ms.len() - i,
    {
        proof {
            assert(msv.take(i as int + 1).drop_last() =~= msv.take(i as int));
            assert(msv.take(i as int + 1).last() == msv[i as int]);
        }
        let is_f = chars_eq(&ms[i].0, &kf);
        let is_l = chars_eq(&ms[i].0, &kl);
        let is_s = chars_eq(&ms[i].0, &ks);
        let v = ms[i].1;
        if is_f || is_l {
            let taken = if is_f {
                first.is_some()
            } else {
                last.is_some()
            };
            if taken {
                proof {
                    lemma_cut_bad_sticky(line@, msv, i as int + 1);
                }
                return Err(Error::MalformedCut);
            }
            let val: Option<usize>;
            if v < line.len() && line[v] == 'n' {
                val = None;
            } else {
                match parse_uint(line, v) {
                    Some(x) => {
                        val = Some(x);
                    },
                    None => {
                        proof {
                            lemma_cut_bad_sticky(line@, msv, i as int + 1);
                        }
                        return Err(Error::MalformedCut);
                    },
                }
            }
            if is_f {
                first = Some(val);
            } else {
                last = Some(val);
            }
        } else if is_s {
            if started.is_some() {
                proof {
                    lemma_cut_bad_sticky(line@, msv, i as int + 1);
                }
                return Err(Error::MalformedCut);
            }
            if v < line.len() && line[v] == 't' {
                started = Some(true);
            } else if v < line.len() && line[v] == 'f' {
                started = Some(false);
            } else {
                proof {
                    lemma_cut_bad_sticky(line@, msv, i as int + 1);
                }
                return Err(Error::MalformedCut);
            }
        }
        i = i + 1;
    }
    proof {
        assert(msv.take(msv.len() as int) =~= msv);
    }
    match started {
        Some(st) => Ok(
            Cut {
                first_marker: match first {
                    Some(Some(x)) => Some(x),
                    _ => None,
                },
                last_marker: match last {
                    Some(Some(x)) => Some(x),
                    _ => None,
                },
                start_immediately: st,
            },
        ),
        None => Err(Error::MalformedCut),
    }
}

} // verus!

verus! {

// ---------------------------------------------------------------------
// Whole files: newline-delimited lines, a header line, then one event
// per line. One bad line invalidates the entire file.
// ---------------------------------------------------------------------

/// The first position at or after `pos` holding a newline, or the end
/// of the text.
pub open spec fn nl_end(t: Seq<char>, pos: int) -> int
    decreases t.len() - pos,
{
    if 0 <= pos < t.len() && t[pos] != '\n' {
        nl_end(t, pos + 1)
    } else {
        pos
    }
}

/// Searching for a newline stays within the text.
pub proof fn lemma_nl_end(t: Seq<char>, pos: int)
    requires
        0 <= pos <= t.len(),
    ensures
        pos <= nl_end(t, pos) <= t.len(),
        nl_end(t, pos) < t.len() ==> t[nl_end(t, pos)] == '\n',
    decreases t.len() - pos,
{
    if pos < t.len() && t[pos] != '\n' {
        lemma_nl_end(t, pos + 1);
    }
}

/// Drops the carriage return that ends a line split at a newline.
pub open spec fn strip_cr(l: Seq<char>) -> Seq<char> {
    if l.len() > 0 && l.last() == '\r' {
        l.drop_last()
    } else {
        l
    }
}

/// The lines of the text from `pos` on: split at newlines, each line
/// stripped of one trailing carriage return, with no empty line after a
/// final newline.
pub open spec fn lines_from(t: Seq<char>, pos: int) -> Seq<Seq<char>>
    decreases t.len() - pos,
        via lines_from_dec
{
    if !(0 <= pos < t.len()) {
        Seq::empty()
    } else {
        let i = nl_end(t, pos);
        if i >= t.len() {
            seq![t.subrange(pos, t.len() as int)]
        } else {
            seq![strip_cr(t.subrange(pos, i))] + lines_from(t, i + 1)
        }
    }
}

#[via_fn]
proof fn lines_from_dec(t: Seq<char>, pos: int) {
    if 0 <= pos < t.len() {
        lemma_nl_end(t, pos);
    }
}

/// Copies the characters `[a, b)` out of a buffer.
fn copy_range(t: &Vec<char>, a: usize, b: usize) -> (r: Vec<char>)
    requires
        a <= b <= t.len(),
    ensures
        r@ == t@.subrange(a as int, b as int),
{
    let mut r: Vec<char> = Vec::new();
    let mut j = a;
    while j < b
        invariant
            a <= j <= b <= t.len(),
            r@ == t@.subrange(a as int, j as int),
        decreases b - j,
    {
        r.push(t[j]);
        proof {
            assert(t@.subrange(a as int, j + 1 as int) =~= t@.subrange(a as int, j as int).push(
                t@[j as int],
            ));
        }
        j = j + 1;
    }
    r
}

/// Splits session text into lines, mirroring `lines_from`.
fn split_lines(t: &Vec<char>) -> (r: Vec<Vec<char>>)
    ensures
        r@.len() == lines_from(t@, 0).len(),
        forall|i: int| 0 <= i < r@.len() ==> (#[trigger] r@[i])@ == lines_from(t@, 0)[i],
{
    let mut r: Vec<Vec<char>> = Vec::new();
    let mut pos: usize = 0;
    while pos < t.len()
        invariant
            pos <= t.len(),
            lines_from(t@, 0) == r@.map_values(|l: Vec<char>| l@) + lines_from(t@, pos as int),
        decreases t.len() - pos,
    {
        let ghost rv = r@.map_values(|l: Vec<char>| l@);
        proof {
            lemma_nl_end(t@, pos as int);
        }
        let mut i = pos;
        while i < t.len() && t[i] != '\n'
            invariant
                pos <= i <= t.len(),
                nl_end(t@, pos as int) == nl_end(t@, i as int),
            decreases t.len() - i,
        {
            i = i + 1;
        }
        let mut line = copy_range(t, pos, i);
        if i < t.len() && line.len() > 0 && line[line.len() - 1] == '\r' {
            line.pop();
            proof {
                assert(line@ =~= strip_cr(t@.subrange(pos as int, i as int)));
            }
        }
        r.push(line);
        proof {
            let lf = lines_from(t@, pos as int);
            assert(r@.map_values(|l: Vec<char>| l@) =~= rv.push(r@.last()@));
            if i < t.len() {
                assert(rv + (seq![strip_cr(t@.subrange(pos as int, i as int))] + lines_from(
                    t@,
                    i + 1 as int,
                )) =~= r@.map_values(|l: Vec<char>| l@) + lines_from(t@, i + 1 as int));
            } else {
                assert(line@ =~= t@.subrange(pos as int, t@.len() as int));
                assert(rv + seq![t@.subrange(pos as int, t@.len() as int)] =~= r@.map_values(
                    |l: Vec<char>| l@,
                ) + lines_from(t@, t@.len() as int));
            }
        }
        if i >= t.len() {
            pos = i;
        } else {
            pos = i + 1;
        }
    }
    proof {
        assert(lines_from(t@, 0) =~= r@.map_values(|l: Vec<char>| l@));
        assert forall|i: int| 0 <= i < r@.len() implies (#[trigger] r@[i])@ == lines_from(
            t@,
            0,
        )[i] by {
            assert(lines_from(t@, 0)[i] == r@.map_values(|l: Vec<char>| l@)[i]);
        }
    }
    r
}

/// Parses the event lines from index `i` on, stopping at the first
/// error.
pub open spec fn spec_parse_events(ls: Seq<Seq<char>>, i: int) -> Result<Seq<EventV>, Error>
    decreases ls.len() - i,
{
    if !(0 <= i < ls.len()) {
        Ok(Seq::empty())
    } else {
        match spec_parse_event(ls[i]) {
            Err(e) => Err(e),
            Ok(ev) => match spec_parse_events(ls, i + 1) {
                Err(e) => Err(e),
                Ok(tl) => Ok(seq![ev] + tl),
            },
        }
    }
}

/// Parses a whole session file: the first line is the header, every
/// following line an event. An empty file fails with `EmptyFile`; any
/// bad line aborts the load.
pub open spec fn spec_parse_file(t: Seq<char>) -> Result<(Header, Seq<EventV>), Error> {
    let ls = lines_from(t, 0);
    if ls.len() == 0 {
        Err(Error::EmptyFile)
    } else {
        match spec_parse_header(ls[0]) {
            None => Err(Error::MalformedJson),
            Some(h) => match spec_parse_events(ls, 1) {
                Err(e) => Err(e),
                Ok(evs) => Ok((h, evs)),
            },
        }
    }
}

/// Parses session text into a header and an event sequence.
#[verifier::rlimit(60)]
pub fn parse_file(text: &Vec<char>) -> (r: Result<Screencast, Error>)
    ensures
        (match r {
            Ok(sc) => spec_parse_file(text@) == Ok::<(Header, Seq<EventV>), Error>(
                (sc.header, sc.events@.map_values(|e: Event| e@)),
            ),
            Err(er) => spec_parse_file(text@) == Err::<(Header, Seq<EventV>), Error>(er),
        }),
{
    let lines = split_lines(text);
    let ghost lsv = lines_from(text@, 0);
    if lines.len() == 0 {
        return Err(Error::EmptyFile);
    }
    let header = match parse_header(&lines[0]) {
        Some(h) => h,
        None => {
            return Err(Error::MalformedJson);
        },
    };
    let mut events: Vec<Event> = Vec::new();
    let mut i: usize = 1;
    while i < lines.len()
        invariant
            1 <= i <= lines.len(),
            lsv == lines_from(text@, 0),
            lsv.len() > 0,
            spec_parse_header(lsv[0]) == Some(header),
            lines@.len() == lsv.len(),
            forall|j: int| 0 <= j < lsv.len() ==> (#[trigger] lines@[j])@ == lsv[j],
            spec_parse_events(lsv, 1) == (match spec_parse_events(lsv, i as int) {
                Err(e) => Err::<Seq<EventV>, Error>(e),
                Ok(tl) => Ok(events@.map_values(|e: Event| e@) + tl),
            }),
        decreases lines.len() - i,
    {
        let ghost evs = events@.map_values(|e: Event| e@);
        let ev = match parse_event(&lines[i]) {
            Ok(x) => x,
            Err(er) => {
                return Err(er);
            },
        };
        events.push(ev);
        proof {
            assert(events@.map_values(|e: Event| e@) =~= evs.push(events@.last()@));
            match spec_parse_events(lsv, i + 1 as int) {
                Err(_) => {},
                Ok(tl) => {
                    assert(evs + (seq![events@.last()@] + tl) =~= events@.map_values(
                        |e: Event| e@,
                    ) + tl);
                },
            }
        }
        i = i + 1;
    }
    proof {
        assert(spec_parse_events(lsv, lsv.len() as int) == Ok::<Seq<EventV>, Error>(
            Seq::empty(),
        ));
        assert(events@.map_values(|e: Event| e@) + Seq::<EventV>::empty() =~= events@.map_values(
            |e: Event| e@,
        ));
    }
    Ok(Screencast { header, events })
}

} // verus!
