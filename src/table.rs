use vstd::prelude::*;
use vstd::slice::slice_to_vec;

use crate::error::MorseError;
use crate::signal::Signal;

verus! {

/// The code sent for a character that is not in the table ("?").
pub open spec fn fallback_code() -> Seq<Signal> {
    seq![Signal::Dash, Signal::Dash, Signal::Dot, Signal::Dash, Signal::Dash]
}

/// Latin letters of either case and the decimal digits.
pub open spec fn in_table(c: char) -> bool {
    ('a' <= c && c <= 'z') || ('A' <= c && c <= 'Z') || ('0' <= c && c <= '9')
}

/// The code sent for `c`: its table entry, or the fallback code for any
/// character outside the table.
pub open spec fn symbol_code(c: char) -> Seq<Signal> {
    match c {
        'A' | 'a' => seq![Signal::Dot, Signal::Dash],
        'B' | 'b' => seq![Signal::Dash, Signal::Dot, Signal::Dot, Signal::Dot],
        'C' | 'c' => seq![Signal::Dash, Signal::Dot, Signal::Dash, Signal::Dot],
        'D' | 'd' => seq![Signal::Dash, Signal::Dot, Signal::Dot],
        'E' | 'e' => seq![Signal::Dot],
        'F' | 'f' => seq![Signal::Dot, Signal::Dot, Signal::Dash, Signal::Dot],
        'G' | 'g' => seq![Signal::Dash, Signal::Dash, Signal::Dot],
        'H' | 'h' => seq![Signal::Dot, Signal::Dot, Signal::Dot, Signal::Dot],
        'I' | 'i' => seq![Signal::Dot, Signal::Dot],
        'J' | 'j' => seq![Signal::Dot, Signal::Dash, Signal::Dash, Signal::Dash],
        'K' | 'k' => seq![Signal::Dash, Signal::Dot, Signal::Dash],
        'L' | 'l' => seq![Signal::Dot, Signal::Dash, Signal::Dot, Signal::Dot],
        'M' | 'm' => seq![Signal::Dash, Signal::Dash],
        'N' | 'n' => seq![Signal::Dash, Signal::Dot],
        'O' | 'o' => seq![Signal::Dash, Signal::Dash, Signal::Dash],
        'P' | 'p' => seq![Signal::Dot, Signal::Dash, Signal::Dash, Signal::Dot],
        'Q' | 'q' => seq![Signal::Dash, Signal::Dash, Signal::Dot, Signal::Dash],
        'R' | 'r' => seq![Signal::Dot, Signal::Dash, Signal::Dot],
        'S' | 's' => seq![Signal::Dot, Signal::Dot, Signal::Dot],
        'T' | 't' => seq![Signal::Dash],
        'U' | 'u' => seq![Signal::Dot, Signal::Dot, Signal::Dash],
        'V' | 'v' => seq![Signal::Dot, Signal::Dot, Signal::Dot, Signal::Dash],
        'W' | 'w' => seq![Signal::Dot, Signal::Dash, Signal::Dash],
        'X' | 'x' => seq![Signal::Dash, Signal::Dot, Signal::Dot, Signal::Dash],
        'Y' | 'y' => seq![Signal::Dash, Signal::Dot, Signal::Dash, Signal::Dash],
        'Z' | 'z' => seq![Signal::Dash, Signal::Dash, Signal::Dot, Signal::Dot],
        '1' => seq![Signal::Dot, Signal::Dash, Signal::Dash, Signal::Dash, Signal::Dash],
        '2' => seq![Signal::Dot, Signal::Dot, Signal::Dash, Signal::Dash, Signal::Dash],
        '3' => seq![Signal::Dot, Signal::Dot, Signal::Dot, Signal::Dash, Signal::Dash],
        '4' => seq![Signal::Dot, Signal::Dot, Signal::Dot, Signal::Dot, Signal::Dash],
        '5' => seq![Signal::Dot, Signal::Dot, Signal::Dot, Signal::Dot, Signal::Dot],
        '6' => seq![Signal::Dash, Signal::Dot, Signal::Dot, Signal::Dot, Signal::Dot],
        '7' => seq![Signal::Dash, Signal::Dash, Signal::Dot, Signal::Dot, Signal::Dot],
        '8' => seq![Signal::Dash, Signal::Dash, Signal::Dash, Signal::Dot, Signal::Dot],
        '9' => seq![Signal::Dash, Signal::Dash, Signal::Dash, Signal::Dash, Signal::Dot],
        '0' => seq![Signal::Dash, Signal::Dash, Signal::Dash, Signal::Dash, Signal::Dash],
        _ => fallback_code(),
    }
}

/// The value of a code read as a number in base 3, a dot standing for the
/// digit 1 and a dash for 2. Distinct codes of dots and dashes have distinct
/// keys.
pub open spec fn code_key(code: Seq<Signal>) -> int
    decreases code.len(),
{
    if code.len() == 0 {
        0
    } else {
        code_key(code.drop_last()) * 3 + if code.last() is Dot {
            1int
        } else {
            2int
        }
    }
}

/// A sequence of one to five dots and dashes.
pub open spec fn is_code(code: Seq<Signal>) -> bool {
    1 <= code.len() <= 5 && forall|i: int| 0 <= i < code.len() ==> is_mark(code[i])
}

/// A dot or a dash.
pub open spec fn is_mark(s: Signal) -> bool {
    s is Dot || s is Dash
}

/// The character whose code has key `k`: a lower case letter, a digit, or
/// `?` for the fallback code.
pub open spec fn symbol_of_key(k: int) -> Option<char> {
    if k == 1 {
        Some('e')
    } else if k == 2 {
        Some('t')
    } else if k == 4 {
        Some('i')
    } else if k == 5 {
        Some('a')
    } else if k == 7 {
        Some('n')
    } else if k == 8 {
        Some('m')
    } else if k == 13 {
        Some('s')
    } else if k == 14 {
        Some('u')
    } else if k == 16 {
        Some('r')
    } else if k == 17 {
        Some('w')
    } else if k == 22 {
        Some('d')
    } else if k == 23 {
        Some('k')
    } else if k == 25 {
        Some('g')
    } else if k == 26 {
        Some('o')
    } else if k == 40 {
        Some('h')
    } else if k == 41 {
        Some('v')
    } else if k == 43 {
        Some('f')
    } else if k == 49 {
        Some('l')
    } else if k == 52 {
        Some('p')
    } else if k == 53 {
        Some('j')
    } else if k == 67 {
        Some('b')
    } else if k == 68 {
        Some('x')
    } else if k == 70 {
        Some('c')
    } else if k == 71 {
        Some('y')
    } else if k == 76 {
        Some('z')
    } else if k == 77 {
        Some('q')
    } else if k == 121 {
        Some('5')
    } else if k == 122 {
        Some('4')
    } else if k == 125 {
        Some('3')
    } else if k == 134 {
        Some('2')
    } else if k == 161 {
        Some('1')
    } else if k == 202 {
        Some('6')
    } else if k == 229 {
        Some('7')
    } else if k == 233 {
        Some('?')
    } else if k == 238 {
        Some('8')
    } else if k == 241 {
        Some('9')
    } else if k == 242 {
        Some('0')
    } else {
        None
    }
}

/// The character a code reads back as, if any.
pub open spec fn decode_code(code: Seq<Signal>) -> Option<char> {
    if is_code(code) {
        symbol_of_key(code_key(code))
    } else {
        None
    }
}

/// Looks up the code of `c`, and whether `c` is in the table. Letters match
/// in either case; any other character gets the fallback code.
pub fn char_to_signals(c: char) -> (r: (Vec<Signal>, bool))
    ensures
        r.0@ == symbol_code(c),
        r.1 == in_table(c),
{
    match c {
        'A' | 'a' => (vec![Signal::Dot, Signal::Dash], true),
        'B' | 'b' => (vec![Signal::Dash, Signal::Dot, Signal::Dot, Signal::Dot], true),
        'C' | 'c' => (vec![Signal::Dash, Signal::Dot, Signal::Dash, Signal::Dot], true),
        'D' | 'd' => (vec![Signal::Dash, Signal::Dot, Signal::Dot], true),
        'E' | 'e' => (vec![Signal::Dot], true),
        'F' | 'f' => (vec![Signal::Dot, Signal::Dot, Signal::Dash, Signal::Dot], true),
        'G' | 'g' => (vec![Signal::Dash, Signal::Dash, Signal::Dot], true),
        'H' | 'h' => (vec![Signal::Dot, Signal::Dot, Signal::Dot, Signal::Dot], true),
        'I' | 'i' => (vec![Signal::Dot, Signal::Dot], true),
        'J' | 'j' => (vec![Signal::Dot, Signal::Dash, Signal::Dash, Signal::Dash], true),
        'K' | 'k' => (vec![Signal::Dash, Signal::Dot, Signal::Dash], true),
        'L' | 'l' => (vec![Signal::Dot, Signal::Dash, Signal::Dot, Signal::Dot], true),
        'M' | 'm' => (vec![Signal::Dash, Signal::Dash], true),
        'N' | 'n' => (vec![Signal::Dash, Signal::Dot], true),
        'O' | 'o' => (vec![Signal::Dash, Signal::Dash, Signal::Dash], true),
        'P' | 'p' => (vec![Signal::Dot, Signal::Dash, Signal::Dash, Signal::Dot], true),
        'Q' | 'q' => (vec![Signal::Dash, Signal::Dash, Signal::Dot, Signal::Dash], true),
        'R' | 'r' => (vec![Signal::Dot, Signal::Dash, Signal::Dot], true),
        'S' | 's' => (vec![Signal::Dot, Signal::Dot, Signal::Dot], true),
        'T' | 't' => (vec![Signal::Dash], true),
        'U' | 'u' => (vec![Signal::Dot, Signal::Dot, Signal::Dash], true),
        'V' | 'v' => (vec![Signal::Dot, Signal::Dot, Signal::Dot, Signal::Dash], true),
        'W' | 'w' => (vec![Signal::Dot, Signal::Dash, Signal::Dash], true),
        'X' | 'x' => (vec![Signal::Dash, Signal::Dot, Signal::Dot, Signal::Dash], true),
        'Y' | 'y' => (vec![Signal::Dash, Signal::Dot, Signal::Dash, Signal::Dash], true),
        'Z' | 'z' => (vec![Signal::Dash, Signal::Dash, Signal::Dot, Signal::Dot], true),
        '1' => (vec![Signal::Dot, Signal::Dash, Signal::Dash, Signal::Dash, Signal::Dash], true),
        '2' => (vec![Signal::Dot, Signal::Dot, Signal::Dash, Signal::Dash, Signal::Dash], true),
        '3' => (vec![Signal::Dot, Signal::Dot, Signal::Dot, Signal::Dash, Signal::Dash], true),
        '4' => (vec![Signal::Dot, Signal::Dot, Signal::Dot, Signal::Dot, Signal::Dash], true),
        '5' => (vec![Signal::Dot, Signal::Dot, Signal::Dot, Signal::Dot, Signal::Dot], true),
        '6' => (vec![Signal::Dash, Signal::Dot, Signal::Dot, Signal::Dot, Signal::Dot], true),
        '7' => (vec![Signal::Dash, Signal::Dash, Signal::Dot, Signal::Dot, Signal::Dot], true),
        '8' => (vec![Signal::Dash, Signal::Dash, Signal::Dash, Signal::Dot, Signal::Dot], true),
        '9' => (vec![Signal::Dash, Signal::Dash, Signal::Dash, Signal::Dash, Signal::Dot], true),
        '0' => (vec![Signal::Dash, Signal::Dash, Signal::Dash, Signal::Dash, Signal::Dash], true),
        _ => (vec![Signal::Dash, Signal::Dash, Signal::Dot, Signal::Dash, Signal::Dash], false),
    }
}

fn symbol_for_key(k: u32) -> (r: Option<char>)
    ensures
        r == symbol_of_key(k as int),
{
    match k {
        1 => Some('e'),
        2 => Some('t'),
        4 => Some('i'),
        5 => Some('a'),
        7 => Some('n'),
        8 => Some('m'),
        13 => Some('s'),
        14 => Some('u'),
        16 => Some('r'),
        17 => Some('w'),
        22 => Some('d'),
        23 => Some('k'),
        25 => Some('g'),
        26 => Some('o'),
        40 => Some('h'),
        41 => Some('v'),
        43 => Some('f'),
        49 => Some('l'),
        52 => Some('p'),
        53 => Some('j'),
        67 => Some('b'),
        68 => Some('x'),
        70 => Some('c'),
        71 => Some('y'),
        76 => Some('z'),
        77 => Some('q'),
        121 => Some('5'),
        122 => Some('4'),
        125 => Some('3'),
        134 => Some('2'),
        161 => Some('1'),
        202 => Some('6'),
        229 => Some('7'),
        233 => Some('?'),
        238 => Some('8'),
        241 => Some('9'),
        242 => Some('0'),
        _ => None,
    }
}

/// Reads a code back as a character: the letter (in lower case) or digit
/// whose code it is, `?` for the fallback code, and `NotFound` for any other
/// sequence, the empty one included.
pub fn signals_to_char(signals: &[Signal]) -> (r: Result<char, MorseError>)
    ensures
        r is Ok <==> decode_code(signals@) is Some,
        r is Ok ==> decode_code(signals@) == Some(r->Ok_0),
        r is Err ==> (r->Err_0 is NotFound && r->Err_0->NotFound_0@ == signals@),
{
    let found = if signals.len() >= 1 && signals.len() <= 5 {
        let mut key: u32 = 0;
        let mut all_marks = true;
        let mut i: usize = 0;
        while i < signals.len()
            invariant
                signals@.len() <= 5,
                0 <= i <= signals@.len(),
                all_marks == forall|j: int| 0 <= j < i ==> is_mark(signals@[j]),
                all_marks ==> key == code_key(signals@.take(i as int)),
                key as int <= if i == 0 {
                    0int
                } else if i == 1 {
                    2
                } else if i == 2 {
                    8
                } else if i == 3 {
                    26
                } else if i == 4 {
                    80
                } else {
                    242
                },
            decreases signals@.len() - i,
        {
            assert(signals@.take(i + 1).drop_last() =~= signals@.take(i as int));
            match signals[i] {
                Signal::Dot => {
                    key = key * 3 + 1;
                },
                Signal::Dash => {
                    key = key * 3 + 2;
                },
                _ => {
                    all_marks = false;
                    key = 0;
                },
            }
            i += 1;
        }
        assert(signals@.take(i as int) =~= signals@);
        if all_marks {
            symbol_for_key(key)
        } else {
            None
        }
    } else {
        None
    };
    match found {
        Some(c) => Ok(c),
        None => Err(MorseError::NotFound(slice_to_vec(signals))),
    }
}

/// The letter in lower case, any other character unchanged.
pub open spec fn lower(c: char) -> char {
    if 'A' <= c && c <= 'Z' {
        ((c as u32) + 32) as char
    } else {
        c
    }
}

/// A character of the table reads back as itself, letters in lower case.
pub proof fn lemma_decode_symbol_code(c: char)
    requires
        in_table(c),
    ensures
        decode_code(symbol_code(c)) == Some(lower(c)),
{
    reveal_with_fuel(code_key, 6);
}

/// Every character of the table sends a code that reads back as a
/// character, and that character sends the same code again.
pub proof fn lemma_table_round_trip(c: char)
    requires
        in_table(c),
    ensures
        decode_code(symbol_code(c)) is Some,
        symbol_code(decode_code(symbol_code(c))->Some_0) == symbol_code(c),
{
    lemma_decode_symbol_code(c);
}

} // verus!
