//! Which capability strings are handed to the terminfo library.
//!
//! A capability string is a small program: text with escapes that begin
//! with `%`, which push parameters and constants on a stack, compute with
//! them and print them. The library that runs these programs does not stop
//! on an escape it does not know, and computes in 32 bits without looking
//! for overflow. So a string is looked over first, and only a tame one is
//! run: one in which every `%` begins an escape of the kinds listed here,
//! nothing is multiplied or divided, and few enough sums are taken of small
//! enough numbers that 32 bits hold every result.

use vstd::prelude::*;

verus! {

/// The most sums and differences that a tame string takes. Every number
/// that a tame string starts from is below 2^20 in size: a parameter of 16
/// bits, perhaps with one added, a character, or a constant of six digits.
/// A sum or difference at most doubles the size, each escape is run at most
/// once, and so ten of them stay below 2^30.
pub open spec fn sums_allowed() -> nat {
    10
}

/// The most digits of a constant in a tame string.
pub open spec fn digits_allowed() -> int {
    6
}

/// The byte is a decimal digit.
pub open spec fn is_digit(byte: u8) -> bool {
    0x30 <= byte <= 0x39
}

/// The byte is a letter of the English alphabet.
pub open spec fn is_letter(byte: u8) -> bool {
    0x41 <= byte <= 0x5a || 0x61 <= byte <= 0x7a
}

/// The escape `%` and `byte` takes a sum or a difference: `%+`, `%-`.
pub open spec fn takes_sum(byte: u8) -> bool {
    byte == 0x2b || byte == 0x2d
}

/// `%` and `byte` is a whole escape that a tame string may hold:
///
/// - `%%`, the percent sign itself;
/// - `%+ %-`, sum and difference;
/// - `%& %| %^`, the operations on bits;
/// - `%A %O %!`, the operations on truth values;
/// - `%= %> %<`, the comparisons;
/// - `%i`, which adds one to the first two parameters;
/// - `%? %t %e %;`, the conditional;
/// - `%d %o %x %X %s %c`, printing, without flags, width or precision.
pub open spec fn single_escape(byte: u8) -> bool {
    ||| byte == 0x25
    ||| takes_sum(byte)
    ||| byte == 0x26 || byte == 0x7c || byte == 0x5e
    ||| byte == 0x41 || byte == 0x4f || byte == 0x21
    ||| byte == 0x3d || byte == 0x3e || byte == 0x3c
    ||| byte == 0x69
    ||| byte == 0x3f || byte == 0x74 || byte == 0x65 || byte == 0x3b
    ||| byte == 0x64 || byte == 0x6f || byte == 0x78 || byte == 0x58 || byte == 0x73 || byte
        == 0x63
}

/// The first position from `from` on that holds no digit.
pub open spec fn digits_end(template: Seq<u8>, from: int) -> int
    decreases template.len() - from,
{
    if 0 <= from < template.len() && is_digit(template[from]) {
        digits_end(template, from + 1)
    } else {
        from
    }
}

/// Where the escape ends whose `%` stands just before position `at`, or
/// `None` if no escape that a tame string may hold begins there. Besides
/// the escapes of two bytes these are:
///
/// - `%p1` to `%p9`, which push a parameter;
/// - `%Pa`, `%ga` and the like, which set and get one of the variables `a`
///   to `z` and `A` to `Z`;
/// - `%'c'`, the constant of a character;
/// - `%{n}`, the constant of a number of one to six digits.
pub open spec fn escape_end(template: Seq<u8>, at: int) -> Option<int> {
    if at < 0 || at >= template.len() {
        None
    } else if single_escape(template[at]) {
        Some(at + 1)
    } else if template[at] == 0x70 {
        if at + 1 < template.len() && 0x31 <= template[at + 1] <= 0x39 {
            Some(at + 2)
        } else {
            None
        }
    } else if template[at] == 0x50 || template[at] == 0x67 {
        if at + 1 < template.len() && is_letter(template[at + 1]) {
            Some(at + 2)
        } else {
            None
        }
    } else if template[at] == 0x27 {
        if at + 2 < template.len() && template[at + 2] == 0x27 {
            Some(at + 3)
        } else {
            None
        }
    } else if template[at] == 0x7b {
        let end = digits_end(template, at + 1);
        if 1 <= end - (at + 1) <= digits_allowed() && end < template.len() && template[end]
            == 0x7d {
            Some(end + 1)
        } else {
            None
        }
    } else {
        None
    }
}

/// The string is tame from position `at` on, where `budget` sums and
/// differences may still be taken.
pub open spec fn tame_from(template: Seq<u8>, at: int, budget: nat) -> bool
    decreases template.len() - at,
{
    if at < 0 || at >= template.len() {
        true
    } else if template[at] != 0x25 {
        tame_from(template, at + 1, budget)
    } else {
        match escape_end(template, at + 1) {
            None => false,
            Some(end) => if end <= at {
                false
            } else if takes_sum(template[at + 1]) {
                budget > 0 && tame_from(template, end, (budget - 1) as nat)
            } else {
                tame_from(template, end, budget)
            },
        }
    }
}

/// The capability string is tame: every `%` in it begins an escape that a
/// tame string may hold, and it takes no more sums and differences than
/// are allowed.
pub open spec fn tame(template: Seq<u8>) -> bool {
    tame_from(template, 0, sums_allowed())
}

/// Where the escape ends whose `%` stands just before position `at`.
fn end_of_escape(template: &Vec<u8>, at: usize) -> (end: Option<usize>)
    requires
        at <= template@.len(),
    ensures
        end is Some <==> escape_end(template@, at as int) is Some,
        end matches Some(e) ==> escape_end(template@, at as int) == Some(e as int) && at < e
            <= template@.len(),
{
    let len = template.len();
    if at >= len {
        return None;
    }
    let byte = template[at];
    if byte == 0x25 || byte == 0x2b || byte == 0x2d || byte == 0x26 || byte == 0x7c || byte == 0x5e
        || byte == 0x41 || byte == 0x4f || byte == 0x21 || byte == 0x3d || byte == 0x3e || byte
        == 0x3c || byte == 0x69 || byte == 0x3f || byte == 0x74 || byte == 0x65 || byte == 0x3b
        || byte == 0x64 || byte == 0x6f || byte == 0x78 || byte == 0x58 || byte == 0x73 || byte
        == 0x63 {
        Some(at + 1)
    } else if byte == 0x70 {
        if at + 1 < len && 0x31 <= template[at + 1] && template[at + 1] <= 0x39 {
            Some(at + 2)
        } else {
            None
        }
    } else if byte == 0x50 || byte == 0x67 {
        if at + 1 < len && (0x41 <= template[at + 1] && template[at + 1] <= 0x5a || 0x61
            <= template[at + 1] && template[at + 1] <= 0x7a) {
            Some(at + 2)
        } else {
            None
        }
    } else if byte == 0x27 {
        if len - at > 2 && template[at + 2] == 0x27 {
            Some(at + 3)
        } else {
            None
        }
    } else if byte == 0x7b {
        let mut end: usize = at + 1;
        while end < len && 0x30 <= template[end] && template[end] <= 0x39
            invariant
                at + 1 <= end <= len,
                len == template@.len(),
                digits_end(template@, at + 1) == digits_end(template@, end as int),
            decreases len - end,
        {
            end += 1;
        }
        if 1 <= end - (at + 1) && end - (at + 1) <= 6 && end < len && template[end] == 0x7d {
            Some(end + 1)
        } else {
            None
        }
    } else {
        None
    }
}

/// Whether the capability string is tame.
pub fn is_tame(template: &Vec<u8>) -> (tamed: bool)
    ensures
        tamed == tame(template@),
{
    let len = template.len();
    let mut at: usize = 0;
    let mut budget: usize = 10;
    while at < len
        invariant
            at <= len,
            len == template@.len(),
            budget <= 10,
            tame(template@) == tame_from(template@, at as int, budget as nat),
        decreases len - at,
    {
        if template[at] != 0x25 {
            at += 1;
        } else {
            match end_of_escape(template, at + 1) {
                None => {
                    return false;
                },
                Some(end) => {
                    let sum = template[at + 1] == 0x2b || template[at + 1] == 0x2d;
                    if sum {
                        if budget == 0 {
                            return false;
                        }
                        budget -= 1;
                    }
                    at = end;
                },
            }
        }
    }
    true
}

} // verus!
