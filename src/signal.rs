use vstd::prelude::*;
use vstd::string::StringExecFns;

verus! {

/// One timed unit of a Morse transmission.
#[derive(Clone, Copy, Debug, PartialEq, Eq, Structural)]
pub enum Signal {
    Dot,
    Dash,
    Gap,
    LongGap,
    WordGap,
}

/// Whether the signal is a tone (active) rather than silence.
pub open spec fn is_active(s: Signal) -> bool {
    s is Dot || s is Dash
}

/// Number of time units the signal lasts.
pub open spec fn unit_length(s: Signal) -> nat {
    match s {
        Signal::Dot => 1,
        Signal::Dash => 2,
        Signal::Gap => 1,
        Signal::LongGap => 2,
        Signal::WordGap => 3,
    }
}

/// The bits of one signal: its polarity, once per time unit.
pub open spec fn signal_bits(s: Signal) -> Seq<bool> {
    Seq::new(unit_length(s), |i: int| is_active(s))
}

/// The bits of a sequence of signals, one after the other.
pub open spec fn signals_bits(ss: Seq<Signal>) -> Seq<bool>
    decreases ss.len(),
{
    if ss.len() == 0 {
        Seq::empty()
    } else {
        signals_bits(ss.drop_last()) + signal_bits(ss.last())
    }
}

/// How a signal is drawn on a terminal: a block per unit of tone, a space
/// per unit of silence.
pub open spec fn signal_picture(s: Signal) -> Seq<char> {
    Seq::new(unit_length(s), |i: int| if is_active(s) { '\u{2584}' } else { ' ' })
}

/// The pictures of a sequence of signals, one after the other.
pub open spec fn signals_picture(ss: Seq<Signal>) -> Seq<char>
    decreases ss.len(),
{
    if ss.len() == 0 {
        Seq::empty()
    } else {
        signals_picture(ss.drop_last()) + signal_picture(ss.last())
    }
}

impl Signal {
    /// The polarity of the signal: `true` for a tone.
    pub fn polarity(&self) -> (r: bool)
        ensures
            r == is_active(*self),
    {
        match self {
            Signal::Dot | Signal::Dash => true,
            _ => false,
        }
    }

    /// The number of time units the signal lasts.
    pub fn length(&self) -> (r: usize)
        ensures
            r == unit_length(*self),
    {
        match self {
            Signal::Dot => 1,
            Signal::Dash => 2,
            Signal::Gap => 1,
            Signal::LongGap => 2,
            Signal::WordGap => 3,
        }
    }

    /// Appends the signal's bits: its polarity, once per time unit.
    pub fn write(&self, bits: &mut Vec<bool>)
        ensures
            final(bits)@ == old(bits)@ + signal_bits(*self),
    {
        let bit = self.polarity();
        let length = self.length();
        let ghost start = bits@;
        let mut i: usize = 0;
        while i < length
            invariant
                i <= length,
                length == unit_length(*self),
                bit == is_active(*self),
                bits@ == start + Seq::new(i as nat, |k: int| bit),
            decreases length - i,
        {
            bits.push(bit);
            i += 1;
            assert(bits@ =~= start + Seq::new(i as nat, |k: int| bit));
        }
        assert(bits@ =~= start + signal_bits(*self));
    }

    /// The signal drawn as text: a block per unit of tone, a space per unit
    /// of silence.
    pub fn picture(&self) -> (r: String)
        ensures
            r@ == signal_picture(*self),
    {
        let mut s = String::new();
        let active = self.polarity();
        let length = self.length();
        let mut i: usize = 0;
        while i < length
            invariant
                i <= length,
                length == unit_length(*self),
                active == is_active(*self),
                s@ == Seq::new(i as nat, |k: int| if active { '\u{2584}' } else { ' ' }),
            decreases length - i,
        {
            if active {
                proof {
                    reveal_strlit("\u{2584}");
                }
                s.append("\u{2584}");
            } else {
                proof {
                    reveal_strlit(" ");
                }
                s.append(" ");
            }
            i += 1;
            assert(s@ =~= Seq::new(i as nat, |k: int| if active { '\u{2584}' } else { ' ' }));
        }
        assert(s@ =~= signal_picture(*self));
        s
    }
}

/// Draws a sequence of signals as text, one picture after the other.
pub fn signals_to_string(signals: &[Signal]) -> (r: String)
    ensures
        r@ == signals_picture(signals@),
{
    let mut s = String::new();
    let mut i: usize = 0;
    while i < signals.len()
        invariant
            0 <= i <= signals@.len(),
            s@ == signals_picture(signals@.take(i as int)),
        decreases signals@.len() - i,
    {
        let p = signals[i].picture();
        s.append(p.as_str());
        assert(signals@.take(i + 1).drop_last() =~= signals@.take(i as int));
        i += 1;
    }
    assert(signals@.take(i as int) =~= signals@);
    s
}

} // verus!
