use vstd::prelude::*;

use crate::bits::{bytes_bits, lemma_bytes_bits_len, padded, padding_len};
use crate::decode::{decode_from, decode_signals, flush, lemma_scan_progress, next_item, scan};
use crate::encode::{char_step, encode_from, encode_signals, state_after, with_gaps};
use crate::table::{decode_code, in_table, is_code, lemma_decode_symbol_code, lower, symbol_code};
use crate::runs::{lemma_trailing_silence, silence, read_signals, read_step, run_len, signal_of_run, lemma_run_len_bounds};
use crate::signal::{is_active, signal_bits, signals_bits, unit_length, Signal};

verus! {

/// An empty text encodes to no bytes at all, and no bytes decode to the
/// empty text.
pub proof fn lemma_empty_round_trip(skip: bool, bytes: Seq<u8>)
    requires
        bytes_bits(bytes) == padded(signals_bits(encode_signals(Seq::empty(), skip))),
    ensures
        bytes.len() == 0,
        read_signals(bytes_bits(bytes), 0) == Ok::<Seq<Signal>, (bool, nat)>(Seq::empty()),
        decode_signals(Seq::empty()) == Ok::<Seq<char>, Seq<Signal>>(Seq::empty()),
{
    lemma_bytes_bits_len(bytes);
    assert(padded(Seq::<bool>::empty()).len() == 0);
}

/// Neighbouring signals differ in polarity.
pub open spec fn alternating(ss: Seq<Signal>) -> bool {
    forall|i: int| 0 <= i < ss.len() - 1 ==> is_active(ss[i]) != is_active(#[trigger] ss[i + 1])
}

/// The signals without a final gap: a gap at the end of a stream cannot be
/// told from the silence that fills the last byte.
pub open spec fn without_trailing_gap(ss: Seq<Signal>) -> Seq<Signal> {
    if ss.len() > 0 && !is_active(ss.last()) {
        ss.drop_last()
    } else {
        ss
    }
}

proof fn lemma_signals_bits_concat(a: Seq<Signal>, b: Seq<Signal>)
    ensures
        signals_bits(a + b) == signals_bits(a) + signals_bits(b),
    decreases b.len(),
{
    if b.len() == 0 {
        assert(a + b =~= a);
        assert(signals_bits(a) + Seq::<bool>::empty() =~= signals_bits(a));
    } else {
        assert((a + b).drop_last() =~= a + b.drop_last());
        lemma_signals_bits_concat(a, b.drop_last());
        assert(signals_bits(a) + signals_bits(b.drop_last()) + signal_bits(b.last()) =~= signals_bits(
            a,
        ) + (signals_bits(b.drop_last()) + signal_bits(b.last())));
    }
}

proof fn lemma_signals_bits_first(ss: Seq<Signal>)
    requires
        ss.len() > 0,
    ensures
        signals_bits(ss) == signal_bits(ss[0]) + signals_bits(ss.drop_first()),
{
    assert(ss =~= seq![ss[0]] + ss.drop_first());
    lemma_signals_bits_concat(seq![ss[0]], ss.drop_first());
    let one = seq![ss[0]];
    assert(one.drop_last() =~= Seq::<Signal>::empty());
    assert(one.last() == ss[0]);
    assert(signals_bits(Seq::<Signal>::empty()) == Seq::<bool>::empty());
    assert(signals_bits(one) == signals_bits(one.drop_last()) + signal_bits(one.last()));
    assert(Seq::<bool>::empty() + signal_bits(ss[0]) =~= signal_bits(ss[0]));
}

proof fn lemma_run_len_shift(a: Seq<bool>, b: Seq<bool>, j: int)
    requires
        0 <= j < b.len(),
    ensures
        run_len(a + b, a.len() + j) == run_len(b, j),
    decreases b.len() - j,
{
    let ab = a + b;
    assert(ab[a.len() + j] == b[j]);
    if j + 1 < b.len() {
        assert(ab[a.len() + j + 1] == b[j + 1]);
        lemma_run_len_shift(a, b, j + 1);
    }
}

proof fn lemma_read_shift(a: Seq<bool>, b: Seq<bool>, j: int)
    requires
        0 <= j <= b.len(),
    ensures
        read_signals(a + b, a.len() + j) == read_signals(b, j),
    decreases b.len() - j,
{
    if j < b.len() {
        let ab = a + b;
        assert(ab[a.len() + j] == b[j]);
        lemma_run_len_shift(a, b, j);
        lemma_run_len_bounds(b, j);
        lemma_read_shift(a, b, j + run_len(b, j));
    }
}

proof fn lemma_run_len_block(s: Signal, y: Seq<bool>, j: int)
    requires
        0 <= j < unit_length(s),
        y.len() == 0 || y[0] != is_active(s),
    ensures
        run_len(signal_bits(s) + y, j) == unit_length(s) - j,
    decreases unit_length(s) - j,
{
    let xy = signal_bits(s) + y;
    assert(xy[j] == is_active(s));
    if j + 1 < unit_length(s) {
        assert(xy[j + 1] == is_active(s));
        lemma_run_len_block(s, y, j + 1);
    } else if y.len() > 0 {
        assert(xy[j + 1] == y[0]);
    }
}

/// Reading back the bits of signals whose polarity alternates gives the
/// signals, but for a final gap.
pub proof fn lemma_read_alternating(ss: Seq<Signal>)
    requires
        alternating(ss),
    ensures
        read_signals(signals_bits(ss), 0) == Ok::<Seq<Signal>, (bool, nat)>(without_trailing_gap(ss)),
    decreases ss.len(),
{
    if ss.len() > 0 {
        let s = ss[0];
        let rest = ss.drop_first();
        let x = signal_bits(s);
        let y = signals_bits(rest);
        lemma_signals_bits_first(ss);
        assert(alternating(rest)) by {
            assert forall|i: int| 0 <= i < rest.len() - 1 implies is_active(rest[i]) != is_active(
                #[trigger] rest[i + 1],
            ) by {
                let k = i + 1;
                assert(is_active(ss[k]) != is_active(ss[k + 1]));
                assert(rest[i] == ss[k]);
                assert(rest[i + 1] == ss[k + 1]);
            };
        };
        if rest.len() > 0 {
            lemma_signals_bits_first(rest);
            assert(y[0] == is_active(rest[0]));
            assert(is_active(ss[0]) != is_active(ss[1]));
        }
        lemma_run_len_block(s, y, 0);
        let bits = x + y;
        assert(bits[0] == is_active(s));
        assert(bits.len() == unit_length(s) + y.len());
        assert(run_len(bits, 0) == unit_length(s));
        assert(signals_bits(ss) == bits);
        assert(signal_of_run(is_active(s), unit_length(s)) == Some(s));
        if rest.len() == 0 {
            assert(y =~= Seq::<bool>::empty());
            if is_active(s) {
                lemma_read_shift(x, y, 0);
                assert(read_signals(bits, unit_length(s) as int) == read_signals(y, 0));
                assert(read_signals(y, 0) == Ok::<Seq<Signal>, (bool, nat)>(Seq::empty()));
                assert(seq![s] + Seq::<Signal>::empty() =~= ss);
            } else {
                assert(ss.drop_last() =~= Seq::<Signal>::empty());
            }
        } else {
            lemma_read_shift(x, y, 0);
            assert(read_signals(bits, unit_length(s) as int) == read_signals(y, 0));
            lemma_read_alternating(rest);
            assert(seq![s] + without_trailing_gap(rest) =~= without_trailing_gap(ss));
        }
    } else {
        assert(signals_bits(ss) =~= Seq::<bool>::empty());
        assert(ss =~= Seq::<Signal>::empty());
        assert(without_trailing_gap(ss) =~= ss);
    }
}

proof fn lemma_alternating_concat(a: Seq<Signal>, b: Seq<Signal>)
    requires
        alternating(a),
        alternating(b),
        a.len() > 0 && b.len() > 0 ==> is_active(a.last()) != is_active(b[0]),
    ensures
        alternating(a + b),
{
    let ab = a + b;
    assert forall|i: int| 0 <= i < ab.len() - 1 implies is_active(ab[i]) != is_active(
        #[trigger] ab[i + 1],
    ) by {
        if i + 1 < a.len() {
            assert(ab[i] == a[i] && ab[i + 1] == a[i + 1]);
        } else if i + 1 == a.len() {
            assert(ab[i] == a.last() && ab[i + 1] == b[0]);
        } else {
            let k = i - a.len();
            assert(ab[i] == b[k] && ab[i + 1] == b[k + 1]);
        }
    };
}

proof fn lemma_with_gaps_shape(code: Seq<Signal>)
    requires
        is_code(code),
    ensures
        with_gaps(code).len() >= 1,
        alternating(with_gaps(code)),
        with_gaps(code)[0] == code[0],
        is_active(with_gaps(code)[0]),
        is_active(with_gaps(code).last()),
    decreases code.len(),
{
    if code.len() > 1 {
        let rest = code.drop_first();
        assert(is_code(rest)) by {
            assert forall|i: int| 0 <= i < rest.len() implies crate::table::is_mark(
                rest[i],
            ) by {
                assert(rest[i] == code[i + 1]);
            };
        };
        lemma_with_gaps_shape(rest);
        let head = seq![code[0], Signal::Gap];
        assert(crate::table::is_mark(code[0]));
        assert(alternating(head)) by {
            assert forall|i: int| 0 <= i < head.len() - 1 implies is_active(head[i]) != is_active(
                #[trigger] head[i + 1],
            ) by {
                assert(i == 0);
            };
        };
        assert(rest[0] == code[1]);
        assert(crate::table::is_mark(code[1]));
        lemma_alternating_concat(head, with_gaps(rest));
        let w = head + with_gaps(rest);
        assert(w.last() == with_gaps(rest).last());
    } else {
        assert(crate::table::is_mark(code[0]));
    }
}

/// Text of table characters and spaces only.
pub open spec fn table_text(t: Seq<char>) -> bool {
    forall|i: int| 0 <= i < t.len() ==> in_table(#[trigger] t[i]) || t[i] == ' '
}

proof fn lemma_table_text_rest(t: Seq<char>)
    requires
        table_text(t),
        t.len() > 0,
    ensures
        table_text(t.drop_first()),
        in_table(t[0]) || t[0] == ' ',
{
    assert forall|i: int| 0 <= i < t.drop_first().len() implies in_table(
        #[trigger] t.drop_first()[i],
    ) || t.drop_first()[i] == ' ' by {
        assert(t.drop_first()[i] == t[i + 1]);
    };
}

proof fn lemma_symbol_is_code(c: char)
    requires
        in_table(c),
    ensures
        is_code(symbol_code(c)),
        decode_code(symbol_code(c)) == Some(lower(c)),
{
    lemma_decode_symbol_code(c);
}

proof fn lemma_encode_shape(t: Seq<char>, skip: bool, sent: bool)
    requires
        table_text(t),
    ensures
        alternating(encode_from(t, skip, sent)),
        encode_from(t, skip, sent).len() > 0 ==> is_active(encode_from(t, skip, sent)[0]) == !sent
            && is_active(encode_from(t, skip, sent).last()) == state_after(t, skip, sent),
        encode_from(t, skip, sent).len() == 0 ==> state_after(t, skip, sent) == sent,
    decreases t.len(),
{
    if t.len() > 0 {
        lemma_table_text_rest(t);
        let c = t[0];
        let (out, next) = char_step(c, skip, sent);
        let rest = t.drop_first();
        lemma_encode_shape(rest, skip, next);
        let e = encode_from(rest, skip, next);
        if c == ' ' {
            if sent {
                assert(alternating(out)) by {
                    assert forall|i: int| 0 <= i < out.len() - 1 implies is_active(out[i])
                        != is_active(#[trigger] out[i + 1]) by {};
                };
                lemma_alternating_concat(out, e);
                assert((out + e)[0] == Signal::WordGap);
                if e.len() > 0 {
                    assert((out + e).last() == e.last());
                }
            } else {
                assert(out + e =~= e);
            }
        } else {
            lemma_symbol_is_code(c);
            let w = with_gaps(symbol_code(c));
            lemma_with_gaps_shape(symbol_code(c));
            if sent {
                let lg = seq![Signal::LongGap];
                assert(alternating(lg)) by {
                    assert forall|i: int| 0 <= i < lg.len() - 1 implies is_active(lg[i])
                        != is_active(#[trigger] lg[i + 1]) by {};
                };
                lemma_alternating_concat(lg, w);
                assert(out == lg + w);
                assert((lg + w).last() == w.last());
            } else {
                assert(out =~= w);
            }
            lemma_alternating_concat(out, e);
            assert((out + e)[0] == out[0]);
            if e.len() > 0 {
                assert((out + e).last() == e.last());
            } else {
                assert(out + e =~= out);
            }
        }
    }
}

/// A text as it reads back after encoding: letters in lower case, each run
/// of spaces between two words made one space, spaces before the first word
/// and after the last dropped. `normal_words` reads a text from a word
/// boundary on.
pub open spec fn normal_words(t: Seq<char>) -> Seq<char>
    decreases t.len(),
{
    if t.len() == 0 {
        Seq::empty()
    } else if t[0] == ' ' {
        normal_words(t.drop_first())
    } else {
        seq![lower(t[0])] + normal_rest(t.drop_first())
    }
}

/// A text read from within a word on; see `normal_words`.
pub open spec fn normal_rest(t: Seq<char>) -> Seq<char>
    decreases t.len(),
{
    if t.len() == 0 {
        Seq::empty()
    } else if t[0] == ' ' {
        if normal_words(t.drop_first()).len() == 0 {
            Seq::empty()
        } else {
            seq![' '] + normal_words(t.drop_first())
        }
    } else {
        seq![lower(t[0])] + normal_rest(t.drop_first())
    }
}

/// The text that encoding and decoding give back.
pub open spec fn normalized(t: Seq<char>) -> Seq<char> {
    normal_words(t)
}

proof fn lemma_scan_shift(a: Seq<Signal>, b: Seq<Signal>, j: int, code: Seq<Signal>)
    requires
        0 <= j <= b.len(),
    ensures
        scan(a + b, a.len() + j, code) == (
            scan(b, j, code).0,
            a.len() + scan(b, j, code).1,
            scan(b, j, code).2,
        ),
    decreases b.len() - j,
{
    if j < b.len() {
        assert((a + b)[a.len() + j] == b[j]);
        match b[j] {
            Signal::Dot => lemma_scan_shift(a, b, j + 1, code.push(Signal::Dot)),
            Signal::Dash => lemma_scan_shift(a, b, j + 1, code.push(Signal::Dash)),
            Signal::Gap => lemma_scan_shift(a, b, j + 1, code),
            Signal::LongGap => if code.len() == 0 {
                lemma_scan_shift(a, b, j + 1, code)
            },
            Signal::WordGap => {},
        }
    }
}

proof fn lemma_decode_shift(a: Seq<Signal>, b: Seq<Signal>, j: int, space: bool)
    requires
        0 <= j <= b.len(),
    ensures
        decode_from(a + b, a.len() + j, space) == decode_from(b, j, space),
    decreases 2 * (b.len() - j) + if space {
        1int
    } else {
        0int
    },
{
    let (item, next, sp) = next_item(b, j, space);
    if !space {
        lemma_scan_shift(a, b, j, Seq::empty());
        lemma_scan_progress(b, j, Seq::empty());
    }
    if item is Some && item->Some_0 is Ok {
        lemma_decode_shift(a, b, next, sp);
    }
}

proof fn lemma_scan_code(code: Seq<Signal>, tail: Seq<Signal>, acc: Seq<Signal>)
    requires
        is_code(code),
    ensures
        scan(with_gaps(code) + tail, 0, acc) == (
            scan(tail, 0, acc + code).0,
            with_gaps(code).len() + scan(tail, 0, acc + code).1,
            scan(tail, 0, acc + code).2,
        ),
    decreases code.len(),
{
    let w = with_gaps(code);
    let m = code[0];
    assert(crate::table::is_mark(m));
    if code.len() == 1 {
        assert(w == code);
        assert((w + tail)[0] == m);
        lemma_scan_shift(w, tail, 0, acc.push(m));
        assert(scan(w + tail, 0, acc) == scan(w + tail, 1, acc.push(m)));
        assert(acc.push(m) =~= acc + code);
    } else {
        let rest = code.drop_first();
        assert(is_code(rest)) by {
            assert forall|i: int| 0 <= i < rest.len() implies crate::table::is_mark(
                rest[i],
            ) by {
                assert(rest[i] == code[i + 1]);
            };
        };
        let head = seq![m, Signal::Gap];
        let wr = with_gaps(rest);
        assert(w + tail =~= head + (wr + tail));
        assert((w + tail)[0] == m);
        assert((w + tail)[1] == Signal::Gap);
        lemma_scan_shift(head, wr + tail, 0, acc.push(m));
        lemma_scan_code(rest, tail, acc.push(m));
        assert(acc.push(m) + rest =~= acc + code);
        assert(w.len() == 2 + wr.len());
        assert(scan(w + tail, 0, acc) == scan(w + tail, 1, acc.push(m)));
        assert(scan(w + tail, 1, acc.push(m)) == scan(w + tail, 2, acc.push(m)));
    }
}

/// Prepends a character to a decoding result.
pub open spec fn prepend(c: char, r: Result<Seq<char>, Seq<Signal>>) -> Result<Seq<char>, Seq<Signal>> {
    match r {
        Ok(t) => Ok(seq![c] + t),
        Err(e) => Err(e),
    }
}

proof fn lemma_decode_letter(code: Seq<Signal>, c: char, tail: Seq<Signal>)
    requires
        is_code(code),
        decode_code(code) == Some(c),
        tail.len() == 0 || tail[0] is LongGap || tail[0] is WordGap,
    ensures
        tail.len() == 0 ==> decode_from(with_gaps(code) + tail, 0, false) == Ok::<
            Seq<char>,
            Seq<Signal>,
        >(seq![c]),
        tail.len() > 0 && tail[0] is LongGap ==> decode_from(with_gaps(code) + tail, 0, false)
            == prepend(c, decode_from(tail, 1, false)),
        tail.len() > 0 && tail[0] is WordGap ==> decode_from(with_gaps(code) + tail, 0, false)
            == prepend(c, prepend(' ', decode_from(tail, 1, false))),
{
    let w = with_gaps(code);
    let s = w + tail;
    lemma_scan_code(code, tail, Seq::empty());
    assert(Seq::<Signal>::empty() + code =~= code);
    assert(flush(code) == Ok::<char, Seq<Signal>>(c));
    if tail.len() == 0 {
        assert(s =~= w);
        lemma_decode_shift(w, tail, 0, false);
        assert(decode_from(tail, 0, false) == Ok::<Seq<char>, Seq<Signal>>(Seq::empty()));
        assert(seq![c] + Seq::<char>::empty() =~= seq![c]);
    } else if tail[0] is LongGap {
        lemma_decode_shift(w, tail, 1, false);
    } else {
        lemma_decode_shift(w, tail, 1, true);
        assert(next_item(tail, 1, true) == (Some(Ok::<char, Seq<Signal>>(' ')), 1int, false));
        lemma_scan_progress(tail, 1, Seq::empty());
    }
}

proof fn lemma_words_nonempty(t: Seq<char>, skip: bool)
    requires
        table_text(t),
        encode_from(t, skip, false).len() > 0,
    ensures
        normal_words(t).len() > 0,
    decreases t.len(),
{
    lemma_table_text_rest(t);
    if t[0] == ' ' {
        assert(encode_from(t, skip, false) =~= encode_from(t.drop_first(), skip, false));
        lemma_words_nonempty(t.drop_first(), skip);
    }
}

proof fn lemma_without_gap_concat(a: Seq<Signal>, b: Seq<Signal>)
    requires
        b.len() > 0,
    ensures
        without_trailing_gap(a + b) == a + without_trailing_gap(b),
{
    assert((a + b).last() == b.last());
    assert((a + b).drop_last() =~= a + b.drop_last());
}

proof fn lemma_decode_encoded(t: Seq<char>, skip: bool, after: Option<char>)
    requires
        table_text(t),
        after is Some ==> in_table(after->Some_0),
    ensures
        after is None ==> decode_from(without_trailing_gap(encode_from(t, skip, false)), 0, false)
            == Ok::<Seq<char>, Seq<Signal>>(normal_words(t)),
        after is Some ==> decode_from(
            without_trailing_gap(with_gaps(symbol_code(after->Some_0)) + encode_from(t, skip, true)),
            0,
            false,
        ) == Ok::<Seq<char>, Seq<Signal>>(seq![lower(after->Some_0)] + normal_rest(t)),
    decreases t.len(),
{
    let empty_sig = Seq::<Signal>::empty();
    match after {
        None => {
            if t.len() == 0 {
                assert(without_trailing_gap(encode_from(t, skip, false)) =~= empty_sig);
                assert(decode_from(empty_sig, 0, false) == Ok::<Seq<char>, Seq<Signal>>(
                    Seq::empty(),
                ));
            } else {
                lemma_table_text_rest(t);
                let c = t[0];
                let t1 = t.drop_first();
                if c == ' ' {
                    lemma_decode_encoded(t1, skip, None);
                    assert(encode_from(t, skip, false) =~= encode_from(t1, skip, false));
                } else {
                    lemma_decode_encoded(t1, skip, Some(c));
                    assert(encode_from(t, skip, false) =~= with_gaps(symbol_code(c)) + encode_from(
                        t1,
                        skip,
                        true,
                    ));
                }
            }
        },
        Some(c) => {
            lemma_symbol_is_code(c);
            let code = symbol_code(c);
            let w = with_gaps(code);
            lemma_with_gaps_shape(code);
            if t.len() == 0 {
                assert(w + encode_from(t, skip, true) =~= w);
                assert(w + empty_sig =~= w);
                lemma_decode_letter(code, lower(c), empty_sig);
                assert(seq![lower(c)] + normal_rest(t) =~= seq![lower(c)]);
            } else {
                lemma_table_text_rest(t);
                let c2 = t[0];
                let t1 = t.drop_first();
                if c2 == ' ' {
                    let e1 = encode_from(t1, skip, false);
                    lemma_decode_encoded(t1, skip, None);
                    assert(encode_from(t, skip, true) =~= seq![Signal::WordGap] + e1);
                    if e1.len() == 0 {
                        assert(w + (seq![Signal::WordGap] + e1) =~= w.push(Signal::WordGap));
                        assert(w.push(Signal::WordGap).drop_last() =~= w);
                        assert(w + empty_sig =~= w);
                        lemma_decode_letter(code, lower(c), empty_sig);
                        assert(without_trailing_gap(e1) =~= empty_sig);
                        assert(decode_from(empty_sig, 0, false) == Ok::<Seq<char>, Seq<Signal>>(
                            Seq::empty(),
                        ));
                        assert(seq![lower(c)] + normal_rest(t) =~= seq![lower(c)]);
                    } else {
                        lemma_words_nonempty(t1, skip);
                        let tail = seq![Signal::WordGap] + without_trailing_gap(e1);
                        lemma_without_gap_concat(seq![Signal::WordGap], e1);
                        lemma_without_gap_concat(w, seq![Signal::WordGap] + e1);
                        lemma_decode_letter(code, lower(c), tail);
                        lemma_decode_shift(seq![Signal::WordGap], without_trailing_gap(e1), 0, false);
                        assert(seq![lower(c)] + (seq![' '] + normal_words(t1)) =~= seq![lower(c)]
                            + normal_rest(t));
                    }
                } else {
                    lemma_decode_encoded(t1, skip, Some(c2));
                    lemma_symbol_is_code(c2);
                    let w2 = with_gaps(symbol_code(c2));
                    lemma_with_gaps_shape(symbol_code(c2));
                    let x = w2 + encode_from(t1, skip, true);
                    assert(encode_from(t, skip, true) =~= seq![Signal::LongGap] + x);
                    let tail = seq![Signal::LongGap] + without_trailing_gap(x);
                    lemma_without_gap_concat(seq![Signal::LongGap], x);
                    lemma_without_gap_concat(w, seq![Signal::LongGap] + x);
                    lemma_decode_letter(code, lower(c), tail);
                    lemma_decode_shift(seq![Signal::LongGap], without_trailing_gap(x), 0, false);
                    assert(seq![lower(c)] + (seq![lower(c2)] + normal_rest(t1)) =~= seq![lower(c)]
                        + normal_rest(t));
                }
            }
        },
    }
}

/// Encoding a text of table characters and spaces and decoding the bytes
/// gives the text back with its letters in lower case, each run of spaces
/// between words made one space, and no space before the first word or
/// after the last.
pub proof fn lemma_text_round_trip(text: Seq<char>, skip: bool, bytes: Seq<u8>)
    requires
        table_text(text),
        bytes_bits(bytes) == padded(signals_bits(encode_signals(text, skip))),
    ensures
        read_signals(bytes_bits(bytes), 0) is Ok,
        decode_signals(read_signals(bytes_bits(bytes), 0)->Ok_0) == Ok::<Seq<char>, Seq<Signal>>(
            normalized(text),
        ),
{
    let e = encode_signals(text, skip);
    let b = signals_bits(e);
    assert(padded(b) =~= b + silence(padding_len(b.len())));
    lemma_trailing_silence(b, padding_len(b.len()));
    lemma_encode_shape(text, skip, false);
    lemma_read_alternating(e);
    lemma_decode_encoded(text, skip, None);
}

} // verus!
