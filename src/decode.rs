use vstd::prelude::*;

use crate::bits::bytes_bits;
use crate::error::MorseError;
use crate::runs::{bytes_to_signals, read_signals};
use crate::signal::Signal;
use crate::table::{decode_code, signals_to_char};

verus! {

/// The character a finished code reads as, or the code itself when it is
/// no character's code.
pub open spec fn flush(code: Seq<Signal>) -> Result<char, Seq<Signal>> {
    match decode_code(code) {
        Some(c) => Ok(c),
        None => Err(code),
    }
}

/// Reads signals from `pos` on, with the dots and dashes of `code` already
/// gathered, up to the next item: a `Gap` is skipped, a `LongGap` ends a
/// non-empty code, a `WordGap` ends a non-empty code and leaves a space
/// pending (or is a space itself after an empty code), and the end of the
/// signals ends a non-empty code. Gives the item, where reading stopped,
/// and whether a space is pending.
pub open spec fn scan(sig: Seq<Signal>, pos: int, code: Seq<Signal>) -> (
    Option<Result<char, Seq<Signal>>>,
    int,
    bool,
)
    decreases sig.len() - pos,
{
    if pos < 0 || pos >= sig.len() {
        (
            if code.len() == 0 {
                None
            } else {
                Some(flush(code))
            },
            pos,
            false,
        )
    } else {
        match sig[pos] {
            Signal::Dot => scan(sig, pos + 1, code.push(Signal::Dot)),
            Signal::Dash => scan(sig, pos + 1, code.push(Signal::Dash)),
            Signal::Gap => scan(sig, pos + 1, code),
            Signal::LongGap => if code.len() == 0 {
                scan(sig, pos + 1, code)
            } else {
                (Some(flush(code)), pos + 1, false)
            },
            Signal::WordGap => if code.len() == 0 {
                (Some(Ok(' ')), pos + 1, false)
            } else {
                (Some(flush(code)), pos + 1, true)
            },
        }
    }
}

/// The next item from `pos` on: the pending space first, if any.
pub open spec fn next_item(sig: Seq<Signal>, pos: int, on_space: bool) -> (
    Option<Result<char, Seq<Signal>>>,
    int,
    bool,
) {
    if on_space {
        (Some(Ok(' ')), pos, false)
    } else {
        scan(sig, pos, Seq::empty())
    }
}

/// Reading never goes back, and an item read from an empty code has used
/// at least one signal.
pub proof fn lemma_scan_progress(sig: Seq<Signal>, pos: int, code: Seq<Signal>)
    requires
        0 <= pos <= sig.len(),
    ensures
        pos <= scan(sig, pos, code).1 <= sig.len(),
        scan(sig, pos, code).0 is Some && code.len() == 0 ==> scan(sig, pos, code).1 > pos,
    decreases sig.len() - pos,
{
    if pos < sig.len() {
        match sig[pos] {
            Signal::Dot => lemma_scan_progress(sig, pos + 1, code.push(Signal::Dot)),
            Signal::Dash => lemma_scan_progress(sig, pos + 1, code.push(Signal::Dash)),
            Signal::Gap => lemma_scan_progress(sig, pos + 1, code),
            Signal::LongGap => if code.len() == 0 {
                lemma_scan_progress(sig, pos + 1, code)
            },
            Signal::WordGap => {},
        }
    }
}

/// Every character from `pos` on, or the first code that is no
/// character's code.
pub open spec fn decode_from(sig: Seq<Signal>, pos: int, on_space: bool) -> Result<
    Seq<char>,
    Seq<Signal>,
>
    decreases 2 * (sig.len() - pos) + if on_space {
        1int
    } else {
        0int
    },
    when 0 <= pos <= sig.len()
    via decode_from_decreases
{
    let (item, next, space) = next_item(sig, pos, on_space);
    match item {
        None => Ok(Seq::empty()),
        Some(Err(code)) => Err(code),
        Some(Ok(c)) => match decode_from(sig, next, space) {
            Ok(rest) => Ok(seq![c] + rest),
            Err(code) => Err(code),
        },
    }
}

#[via_fn]
proof fn decode_from_decreases(sig: Seq<Signal>, pos: int, on_space: bool) {
    if !on_space {
        lemma_scan_progress(sig, pos, Seq::empty());
    }
}

/// The text that a sequence of signals reads as, or the first code that is
/// no character's code.
pub open spec fn decode_signals(sig: Seq<Signal>) -> Result<Seq<char>, Seq<Signal>> {
    decode_from(sig, 0, false)
}

/// Groups signals into characters, with a space for each word boundary.
pub struct SignalsToCharIterator {
    signals: Vec<Signal>,
    pos: usize,
    on_space: bool,
}

impl SignalsToCharIterator {
    pub closed spec fn wf(&self) -> bool {
        self.pos <= self.signals@.len()
    }

    /// The signals being read.
    pub closed spec fn signals(&self) -> Seq<Signal> {
        self.signals@
    }

    /// Where reading goes on.
    pub closed spec fn position(&self) -> int {
        self.pos as int
    }

    /// Whether a space is due before anything else.
    pub closed spec fn space_pending(&self) -> bool {
        self.on_space
    }

    /// Starts reading `inner`.
    pub fn new(inner: Vec<Signal>) -> (r: Self)
        ensures
            r.wf(),
            r.signals() == inner@,
            r.position() == 0,
            !r.space_pending(),
    {
        SignalsToCharIterator { signals: inner, pos: 0, on_space: false }
    }

    /// The next character, a space for a word boundary, `NotFound` for a
    /// code that is no character's code, or `None` at the end.
    pub fn next(&mut self) -> (r: Option<Result<char, MorseError>>)
        requires
            old(self).wf(),
        ensures
            final(self).wf(),
            final(self).signals() == old(self).signals(),
            ({
                let (item, next, space) = next_item(
                    old(self).signals(),
                    old(self).position(),
                    old(self).space_pending(),
                );
                &&& final(self).position() == next
                &&& final(self).space_pending() == space
                &&& match item {
                    None => r is None,
                    Some(Ok(c)) => r == Some(Ok::<char, MorseError>(c)),
                    Some(Err(code)) => r matches Some(Err(MorseError::NotFound(v))) && v@ == code,
                }
            }),
    {
        if self.on_space {
            self.on_space = false;
            return Some(Ok(' '));
        }
        let ghost start = self.pos as int;
        let mut code: Vec<Signal> = Vec::new();
        while self.pos < self.signals.len()
            invariant
                self.wf(),
                !self.on_space,
                !old(self).on_space,
                self.signals@ == old(self).signals@,
                start == old(self).pos,
                scan(self.signals@, start, Seq::empty()) == scan(
                    self.signals@,
                    self.pos as int,
                    code@,
                ),
            decreases self.signals@.len() - self.pos,
        {
            let s = self.signals[self.pos];
            self.pos = self.pos + 1;
            match s {
                Signal::Dot | Signal::Dash => {
                    code.push(s);
                },
                Signal::Gap => {},
                Signal::LongGap => {
                    if code.len() > 0 {
                        return Some(signals_to_char(code.as_slice()));
                    }
                },
                Signal::WordGap => {
                    if code.len() == 0 {
                        return Some(Ok(' '));
                    }
                    self.on_space = true;
                    return Some(signals_to_char(code.as_slice()));
                },
            }
        }
        if code.len() == 0 {
            None
        } else {
            Some(signals_to_char(code.as_slice()))
        }
    }
}

/// What reading from the start gives, when `prefix` has been read and
/// `rest` is what reading on gives.
pub open spec fn joined_text(prefix: Seq<char>, rest: Result<Seq<char>, Seq<Signal>>) -> Result<
    Seq<char>,
    Seq<Signal>,
> {
    match rest {
        Ok(tail) => Ok(prefix + tail),
        Err(code) => Err(code),
    }
}

/// Reads a sequence of signals as text, stopping at the first code that is
/// no character's code.
pub fn signals_to_text(signals: Vec<Signal>) -> (r: Result<Vec<char>, MorseError>)
    ensures
        match decode_signals(signals@) {
            Ok(text) => r is Ok && r->Ok_0@ == text,
            Err(code) => r matches Err(MorseError::NotFound(v)) && v@ == code,
        },
{
    let ghost sig = signals@;
    let mut it = SignalsToCharIterator::new(signals);
    let mut out: Vec<char> = Vec::new();
    loop
        invariant
            it.wf(),
            it.signals() == sig,
            sig == signals@,
            decode_signals(sig) == joined_text(
                out@,
                decode_from(sig, it.position(), it.space_pending()),
            ),
        decreases 2 * (sig.len() - it.position()) + if it.space_pending() {
            1int
        } else {
            0int
        },
    {
        let ghost pos = it.position();
        let ghost space = it.space_pending();
        proof {
            if !space {
                lemma_scan_progress(sig, pos, Seq::empty());
            }
        }
        match it.next() {
            None => {
                assert(out@ + Seq::<char>::empty() =~= out@);
                return Ok(out);
            },
            Some(Err(e)) => {
                return Err(e);
            },
            Some(Ok(c)) => {
                proof {
                    let before = out@;
                    match decode_from(sig, it.position(), it.space_pending()) {
                        Ok(tail) => {
                            assert(before + (seq![c] + tail) =~= before.push(c) + tail);
                        },
                        Err(code) => {},
                    }
                }
                out.push(c);
            },
        }
    }
}

/// Decodes packed bytes into text. Fails with `UnrecognizedRunLength` at
/// the first run of bits that stands for no signal, else with `NotFound` at
/// the first code that is no character's code; nothing is returned of the
/// text read before the failure.
pub fn decode_bytes(bytes: Vec<u8>) -> (r: Result<Vec<char>, MorseError>)
    ensures
        match read_signals(bytes_bits(bytes@), 0) {
            Err((b, n)) => r matches Err(MorseError::UnrecognizedRunLength(b2, n2)) && b2 == b
                && n2 == n,
            Ok(sigs) => match decode_signals(sigs) {
                Ok(text) => r is Ok && r->Ok_0@ == text,
                Err(code) => r matches Err(MorseError::NotFound(v)) && v@ == code,
            },
        },
{
    match bytes_to_signals(bytes) {
        Err(e) => Err(e),
        Ok(signals) => signals_to_text(signals),
    }
}

} // verus!
