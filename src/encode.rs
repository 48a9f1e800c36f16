use vstd::prelude::*;

use crate::bits::{pack_bits, padded, bytes_bits};
use crate::signal::{signals_bits, Signal};
use crate::table::{char_to_signals, fallback_code, in_table, symbol_code};

verus! {

/// A code with a `Gap` between each two neighbouring signals.
pub open spec fn with_gaps(code: Seq<Signal>) -> Seq<Signal>
    decreases code.len(),
{
    if code.len() <= 1 {
        code
    } else {
        seq![code[0], Signal::Gap] + with_gaps(code.drop_first())
    }
}

/// The signals sent for one character, and whether a letter has been sent
/// since the last word boundary afterwards. A space sends a `WordGap` only
/// after a letter; a character outside the table is dropped when `skip` is
/// set, else sent as the fallback code; a `LongGap` goes before every code
/// that follows a letter.
pub open spec fn char_step(c: char, skip: bool, sent: bool) -> (Seq<Signal>, bool) {
    if c == ' ' {
        if sent {
            (seq![Signal::WordGap], false)
        } else {
            (Seq::empty(), false)
        }
    } else if skip && !in_table(c) {
        (Seq::empty(), sent)
    } else {
        (
            (if sent {
                seq![Signal::LongGap]
            } else {
                Seq::empty()
            }) + with_gaps(symbol_code(c)),
            true,
        )
    }
}

/// The signals sent for `chars`, starting in state `sent`.
pub open spec fn encode_from(chars: Seq<char>, skip: bool, sent: bool) -> Seq<Signal>
    decreases chars.len(),
{
    if chars.len() == 0 {
        Seq::empty()
    } else {
        let (out, next) = char_step(chars[0], skip, sent);
        out + encode_from(chars.drop_first(), skip, next)
    }
}

/// The signals sent for a text.
pub open spec fn encode_signals(chars: Seq<char>, skip: bool) -> Seq<Signal> {
    encode_from(chars, skip, false)
}

/// Relies on itertools::intersperse: the signals of the code in order, with
/// a `Gap` between each two neighbours.
#[verifier::external_body]
fn intersperse_gaps(code: &Vec<Signal>) -> (r: Vec<Signal>)
    ensures
        r@ == with_gaps(code@),
{
    itertools::intersperse(code.iter().copied(), Signal::Gap).collect()
}

/// Turns text into signals, one character at a time.
pub struct CharToSignalIterator {
    chars: Vec<char>,
    pos: usize,
    skip_unrecognized: bool,
    has_sent_letter: bool,
    buf: Vec<Signal>,
    buf_pos: usize,
}

impl CharToSignalIterator {
    pub closed spec fn wf(&self) -> bool {
        &&& self.pos <= self.chars@.len()
        &&& self.buf_pos <= self.buf@.len()
    }

    /// The signals still to come.
    pub closed spec fn remaining(&self) -> Seq<Signal> {
        self.buf@.skip(self.buf_pos as int) + encode_from(
            self.chars@.skip(self.pos as int),
            self.skip_unrecognized,
            self.has_sent_letter,
        )
    }

    /// Starts encoding `inner`; characters outside the table are dropped
    /// when `skip_unrecognized` is set.
    pub fn new(inner: Vec<char>, skip_unrecognized: bool) -> (r: Self)
        ensures
            r.wf(),
            r.remaining() == encode_signals(inner@, skip_unrecognized),
    {
        let r = CharToSignalIterator {
            chars: inner,
            pos: 0,
            skip_unrecognized,
            has_sent_letter: false,
            buf: Vec::new(),
            buf_pos: 0,
        };
        assert(r.chars@.skip(0) =~= r.chars@);
        assert(r.buf@.skip(0) =~= Seq::<Signal>::empty());
        r
    }

    /// The next signal, or `None` once the text is used up.
    pub fn next(&mut self) -> (r: Option<Signal>)
        requires
            old(self).wf(),
        ensures
            final(self).wf(),
            match r {
                None => old(self).remaining().len() == 0 && final(self).remaining().len() == 0,
                Some(s) => {
                    &&& old(self).remaining().len() > 0
                    &&& s == old(self).remaining()[0]
                    &&& final(self).remaining() == old(self).remaining().drop_first()
                },
            },
    {
        let ghost start = self.remaining();
        while self.buf_pos == self.buf.len() && self.pos < self.chars.len()
            invariant
                self.wf(),
                self.remaining() == start,
            decreases self.chars@.len() - self.pos,
        {
            let c = self.chars[self.pos];
            proof {
                let rest = self.chars@.skip(self.pos as int);
                assert(rest[0] == c);
                assert(rest.drop_first() =~= self.chars@.skip(self.pos + 1));
                assert(self.buf@.skip(self.buf_pos as int) =~= Seq::<Signal>::empty());
            }
            self.pos = self.pos + 1;
            if c == ' ' {
                if self.has_sent_letter {
                    self.buf = vec![Signal::WordGap];
                    self.buf_pos = 0;
                    self.has_sent_letter = false;
                    assert(self.buf@.skip(0) =~= seq![Signal::WordGap]);
                }
            } else {
                let (code, recognized) = char_to_signals(c);
                if !(self.skip_unrecognized && !recognized) {
                    let mut b: Vec<Signal> = Vec::new();
                    if self.has_sent_letter {
                        b.push(Signal::LongGap);
                    }
                    let mut g = intersperse_gaps(&code);
                    b.append(&mut g);
                    self.buf = b;
                    self.buf_pos = 0;
                    self.has_sent_letter = true;
                    assert(self.buf@.skip(0) =~= self.buf@);
                }
            }
            assert(self.remaining() =~= start);
        }
        if self.buf_pos == self.buf.len() {
            proof {
                assert(self.buf@.skip(self.buf_pos as int) =~= Seq::<Signal>::empty());
                assert(self.chars@.skip(self.pos as int) =~= Seq::<char>::empty());
                assert(self.remaining() =~= Seq::<Signal>::empty());
            }
            return None;
        }
        let s = self.buf[self.buf_pos];
        let ghost before = self.remaining();
        self.buf_pos = self.buf_pos + 1;
        assert(self.remaining() =~= before.drop_first());
        Some(s)
    }
    /// All the signals still to come, in order.
    pub fn into_signals(self) -> (r: Vec<Signal>)
        requires
            self.wf(),
        ensures
            r@ == self.remaining(),
    {
        let ghost all = self.remaining();
        let mut it = self;
        let mut out: Vec<Signal> = Vec::new();
        loop
            invariant
                it.wf(),
                all == self.remaining(),
                out@ + it.remaining() == all,
            decreases it.remaining().len(),
        {
            let ghost rem = it.remaining();
            match it.next() {
                None => {
                    assert(out@ + rem =~= out@);
                    return out;
                },
                Some(s) => {
                    let ghost before = out@;
                    out.push(s);
                    assert(out@ + it.remaining() =~= before + rem);
                },
            }
        }
    }

    /// Encodes all the signals still to come as bytes: the signals' bits
    /// one after the other, most significant bit of each byte first, the
    /// last byte filled with inactive bits.
    pub fn write(self) -> (r: Vec<u8>)
        requires
            self.wf(),
        ensures
            bytes_bits(r@) == padded(signals_bits(self.remaining())),
    {
        let ghost all = self.remaining();
        let mut it = self;
        let ghost mut sent: Seq<Signal> = Seq::empty();
        let mut bits: Vec<bool> = Vec::new();
        loop
            invariant
                it.wf(),
                all == self.remaining(),
                sent + it.remaining() == all,
                bits@ == signals_bits(sent),
            ensures
                bits@ == signals_bits(all),
            decreases it.remaining().len(),
        {
            let ghost rem = it.remaining();
            match it.next() {
                None => {
                    assert(sent + rem =~= sent);
                    break;
                },
                Some(s) => {
                    s.write(&mut bits);
                    proof {
                        let before = sent;
                        assert(before.push(s).drop_last() =~= before);
                        sent = before.push(s);
                        assert(sent + it.remaining() =~= before + rem);
                    }
                },
            }
        }
        pack_bits(&bits)
    }
}

/// Encodes a text as bytes; characters outside the table are dropped when
/// `skip_unrecognized` is set, else sent as the fallback code.
pub fn encode_text(text: Vec<char>, skip_unrecognized: bool) -> (r: Vec<u8>)
    ensures
        bytes_bits(r@) == padded(signals_bits(encode_signals(text@, skip_unrecognized))),
{
    CharToSignalIterator::new(text, skip_unrecognized).write()
}

/// Whether a letter has been sent since the last word boundary after
/// sending `chars` from state `sent`.
pub open spec fn state_after(chars: Seq<char>, skip: bool, sent: bool) -> bool
    decreases chars.len(),
{
    if chars.len() == 0 {
        sent
    } else {
        state_after(chars.drop_first(), skip, char_step(chars[0], skip, sent).1)
    }
}

/// Sending two texts one after the other sends the signals of the first,
/// then those of the second from the state the first left.
pub proof fn lemma_encode_concat(a: Seq<char>, b: Seq<char>, skip: bool, sent: bool)
    ensures
        encode_from(a + b, skip, sent) == encode_from(a, skip, sent) + encode_from(
            b,
            skip,
            state_after(a, skip, sent),
        ),
    decreases a.len(),
{
    if a.len() == 0 {
        assert(a + b =~= b);
    } else {
        let (out, next) = char_step(a[0], skip, sent);
        assert((a + b).drop_first() =~= a.drop_first() + b);
        lemma_encode_concat(a.drop_first(), b, skip, next);
        assert(out + (encode_from(a.drop_first(), skip, next) + encode_from(
            b,
            skip,
            state_after(a.drop_first(), skip, next),
        )) =~= (out + encode_from(a.drop_first(), skip, next)) + encode_from(
            b,
            skip,
            state_after(a.drop_first(), skip, next),
        ));
    }
}

/// With unrecognised characters skipped, a character outside the table
/// (other than a space) sends no signal and no gap: the text sends what it
/// would send without it. Otherwise it sends the fallback code like any
/// other character.
pub proof fn lemma_unrecognized(a: Seq<char>, c: char, b: Seq<char>)
    requires
        !in_table(c),
        c != ' ',
    ensures
        encode_signals(a + seq![c] + b, true) == encode_signals(a + b, true),
        char_step(c, false, false).0 == fallback_code_gapped(),
        char_step(c, false, true).0 == seq![Signal::LongGap] + fallback_code_gapped(),
{
    let s = state_after(a, true, false);
    lemma_encode_concat(a, seq![c] + b, true, false);
    lemma_encode_concat(a, b, true, false);
    assert((a + seq![c] + b) =~= a + (seq![c] + b));
    assert((seq![c] + b).drop_first() =~= b);
    assert(Seq::<Signal>::empty() + encode_from(b, true, s) =~= encode_from(b, true, s));
}

/// The fallback code as sent, with its gaps.
pub open spec fn fallback_code_gapped() -> Seq<Signal> {
    with_gaps(fallback_code())
}

} // verus!
