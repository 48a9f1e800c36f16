use vstd::prelude::*;

use crate::bits::{bytes_bits, unpack_bytes};
use crate::error::MorseError;
use crate::signal::Signal;

verus! {

/// Length of the run of equal bits that starts at `pos`.
pub open spec fn run_len(bits: Seq<bool>, pos: int) -> nat
    decreases bits.len() - pos,
{
    if pos < 0 || pos >= bits.len() {
        0
    } else if pos + 1 < bits.len() && bits[pos + 1] == bits[pos] {
        1 + run_len(bits, pos + 1)
    } else {
        1
    }
}

/// The signal that a run of `n` bits of polarity `active` stands for.
pub open spec fn signal_of_run(active: bool, n: nat) -> Option<Signal> {
    if active && n == 1 {
        Some(Signal::Dot)
    } else if active && n == 2 {
        Some(Signal::Dash)
    } else if !active && n == 1 {
        Some(Signal::Gap)
    } else if !active && n == 2 {
        Some(Signal::LongGap)
    } else if !active && n == 3 {
        Some(Signal::WordGap)
    } else {
        None
    }
}

/// Reading the run at `pos`: nothing at the end of the bits, nothing for a
/// run of inactive bits that reaches the end (the silence that fills the
/// last byte, whatever its length), else the run's signal, or its polarity
/// and length when it stands for none.
pub open spec fn read_step(bits: Seq<bool>, pos: int) -> Option<Result<Signal, (bool, nat)>> {
    if pos < 0 || pos >= bits.len() {
        None
    } else if !bits[pos] && pos + run_len(bits, pos) == bits.len() {
        None
    } else {
        match signal_of_run(bits[pos], run_len(bits, pos)) {
            Some(s) => Some(Ok(s)),
            None => Some(Err((bits[pos], run_len(bits, pos)))),
        }
    }
}

/// All the signals from `pos` on, or the first run that stands for none.
pub open spec fn read_signals(bits: Seq<bool>, pos: int) -> Result<Seq<Signal>, (bool, nat)>
    decreases bits.len() - pos via read_signals_decreases
{
    if pos < 0 || pos >= bits.len() {
        Ok(Seq::empty())
    } else {
        match read_step(bits, pos) {
            None => Ok(Seq::empty()),
            Some(Err(e)) => Err(e),
            Some(Ok(s)) => match read_signals(bits, pos + run_len(bits, pos)) {
                Ok(rest) => Ok(seq![s] + rest),
                Err(e) => Err(e),
            },
        }
    }
}

/// A run starting inside the bits has at least one bit and ends inside them.
pub proof fn lemma_run_len_bounds(bits: Seq<bool>, pos: int)
    requires
        0 <= pos < bits.len(),
    ensures
        1 <= run_len(bits, pos) <= bits.len() - pos,
    decreases bits.len() - pos,
{
    if pos + 1 < bits.len() && bits[pos + 1] == bits[pos] {
        lemma_run_len_bounds(bits, pos + 1);
    }
}

#[via_fn]
proof fn read_signals_decreases(bits: Seq<bool>, pos: int) {
    if 0 <= pos < bits.len() {
        lemma_run_len_bounds(bits, pos);
    }
}

/// Reads signals from packed bytes, one run of equal bits at a time.
pub struct ByteSignalReader {
    bits: Vec<bool>,
    pos: usize,
}

impl ByteSignalReader {
    pub closed spec fn wf(&self) -> bool {
        self.pos <= self.bits@.len()
    }

    /// The bits being read.
    pub closed spec fn bits(&self) -> Seq<bool> {
        self.bits@
    }

    /// Where the next run starts.
    pub closed spec fn position(&self) -> int {
        self.pos as int
    }

    /// Starts reading the bits of `bytes`, most significant bit first.
    pub fn new(inner: Vec<u8>) -> (r: Self)
        ensures
            r.wf(),
            r.bits() == bytes_bits(inner@),
            r.position() == 0,
    {
        ByteSignalReader { bits: unpack_bytes(&inner), pos: 0 }
    }

    /// Reads the next run: `None` at the end, else its signal or
    /// `UnrecognizedRunLength` with its polarity and length.
    pub fn next(&mut self) -> (r: Option<Result<Signal, MorseError>>)
        requires
            old(self).wf(),
        ensures
            final(self).wf(),
            final(self).bits() == old(self).bits(),
            match read_step(old(self).bits(), old(self).position()) {
                None => r is None,
                Some(Ok(s)) => r == Some(Ok::<Signal, MorseError>(s)),
                Some(Err((b, n))) => r matches Some(Err(MorseError::UnrecognizedRunLength(b2, n2)))
                    && b2 == b && n2 == n,
            },
            r is Some ==> final(self).position() == old(self).position() + run_len(
                old(self).bits(),
                old(self).position(),
            ),
    {
        let len = self.bits.len();
        if self.pos >= len {
            return None;
        }
        let bit = self.bits[self.pos];
        let mut n: usize = 1;
        while n < len - self.pos && self.bits[self.pos + n] == bit
            invariant
                self.wf(),
                self.pos < len == self.bits@.len(),
                1 <= n <= len - self.pos,
                bit == self.bits@[self.pos as int],
                self.bits@[self.pos + n - 1] == bit,
                run_len(self.bits@, self.pos as int) == n - 1 + run_len(
                    self.bits@,
                    self.pos + n - 1,
                ),
            decreases len - self.pos - n,
        {
            n += 1;
        }
        assert(run_len(self.bits@, self.pos + n - 1) == 1);
        let at_end = n == len - self.pos;
        if !bit && at_end {
            return None;
        }
        self.pos = self.pos + n;
        if bit && n == 1 {
            Some(Ok(Signal::Dot))
        } else if bit && n == 2 {
            Some(Ok(Signal::Dash))
        } else if !bit && n == 1 {
            Some(Ok(Signal::Gap))
        } else if !bit && n == 2 {
            Some(Ok(Signal::LongGap))
        } else if !bit && n == 3 {
            Some(Ok(Signal::WordGap))
        } else {
            Some(Err(MorseError::UnrecognizedRunLength(bit, n)))
        }
    }
}

/// What reading `bits` from the start gives, when `prefix` has been read
/// and `rest` is what reading from the current position gives.
pub open spec fn joined(prefix: Seq<Signal>, rest: Result<Seq<Signal>, (bool, nat)>) -> Result<
    Seq<Signal>,
    (bool, nat),
> {
    match rest {
        Ok(tail) => Ok(prefix + tail),
        Err(e) => Err(e),
    }
}

/// Reads all the signals of packed bytes, stopping at the first run that
/// stands for no signal.
pub fn bytes_to_signals(bytes: Vec<u8>) -> (r: Result<Vec<Signal>, MorseError>)
    ensures
        match read_signals(bytes_bits(bytes@), 0) {
            Ok(sigs) => r is Ok && r->Ok_0@ == sigs,
            Err((b, n)) => r matches Err(MorseError::UnrecognizedRunLength(b2, n2)) && b2 == b
                && n2 == n,
        },
{
    let mut reader = ByteSignalReader::new(bytes);
    let ghost bits = reader.bits();
    let mut out: Vec<Signal> = Vec::new();
    loop
        invariant
            reader.wf(),
            reader.bits() == bits,
            bits == bytes_bits(bytes@),
            read_signals(bits, 0) == joined(out@, read_signals(bits, reader.position())),
        decreases bits.len() - reader.position(),
    {
        let ghost pos = reader.position();
        let step = reader.next();
        match step {
            None => {
                assert(read_signals(bits, pos) == Ok::<Seq<Signal>, (bool, nat)>(Seq::empty()));
                assert(out@ + Seq::<Signal>::empty() =~= out@);
                return Ok(out);
            },
            Some(Err(e)) => {
                return Err(e);
            },
            Some(Ok(s)) => {
                proof {
                    lemma_run_len_bounds(bits, pos);
                    let before = out@;
                    match read_signals(bits, reader.position()) {
                        Ok(tail) => {
                            assert(before + (seq![s] + tail) =~= before.push(s) + tail);
                        },
                        Err(e) => {},
                    }
                }
                out.push(s);
            },
        }
    }
}

/// `k` inactive bits.
pub open spec fn silence(k: nat) -> Seq<bool> {
    Seq::new(k, |i: int| false)
}

proof fn lemma_run_len_silence(bits: Seq<bool>, k: nat, pos: int)
    requires
        bits.len() <= pos < bits.len() + k,
    ensures
        run_len(bits + silence(k), pos) == bits.len() + k - pos,
    decreases bits.len() + k - pos,
{
    let ext = bits + silence(k);
    if pos + 1 < ext.len() {
        assert(ext[pos + 1] == ext[pos]);
        lemma_run_len_silence(bits, k, pos + 1);
    }
}

proof fn lemma_run_len_extend(bits: Seq<bool>, k: nat, pos: int)
    requires
        0 <= pos < bits.len(),
    ensures
        run_len(bits + silence(k), pos) == run_len(bits, pos) + if pos + run_len(bits, pos)
            == bits.len() && !bits[pos] {
            k as int
        } else {
            0int
        },
    decreases bits.len() - pos,
{
    let ext = bits + silence(k);
    assert(ext[pos] == bits[pos]);
    if pos + 1 < bits.len() {
        assert(ext[pos + 1] == bits[pos + 1]);
        if bits[pos + 1] == bits[pos] {
            lemma_run_len_extend(bits, k, pos + 1);
        }
    } else if k > 0 {
        assert(ext[pos + 1] == false);
        if !bits[pos] {
            lemma_run_len_silence(bits, k, pos + 1);
        }
    }
}

proof fn lemma_read_silence(bits: Seq<bool>, k: nat)
    ensures
        read_signals(bits + silence(k), bits.len() as int) == Ok::<Seq<Signal>, (bool, nat)>(
            Seq::empty(),
        ),
{
    let ext = bits + silence(k);
    if k > 0 {
        lemma_run_len_silence(bits, k, bits.len() as int);
        assert(!ext[bits.len() as int]);
    }
}

proof fn lemma_read_extend(bits: Seq<bool>, k: nat, pos: int)
    requires
        0 <= pos <= bits.len(),
    ensures
        read_signals(bits + silence(k), pos) == read_signals(bits, pos),
    decreases bits.len() - pos,
{
    let ext = bits + silence(k);
    if pos == bits.len() {
        lemma_read_silence(bits, k);
    } else {
        lemma_run_len_extend(bits, k, pos);
        lemma_run_len_bounds(bits, pos);
        assert(ext[pos] == bits[pos]);
        let n = run_len(bits, pos);
        if pos + n == bits.len() && !bits[pos] {
            lemma_run_len_bounds(ext, pos);
        } else {
            lemma_read_extend(bits, k, pos + n);
        }
    }
}

/// Inactive bits added at the end of a stream, such as the filling of its
/// last byte, change nothing that is read from it.
pub proof fn lemma_trailing_silence(bits: Seq<bool>, k: nat)
    ensures
        read_signals(bits + silence(k), 0) == read_signals(bits, 0),
{
    lemma_read_extend(bits, k, 0);
}

} // verus!
