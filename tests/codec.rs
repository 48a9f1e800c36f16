use morse_stream::bits::{pack_bits, unpack_bytes};
use morse_stream::decode::{decode_bytes, signals_to_text, SignalsToCharIterator};
use morse_stream::encode::{encode_text, CharToSignalIterator};
use morse_stream::error::MorseError;
use morse_stream::runs::{bytes_to_signals, ByteSignalReader};
use morse_stream::signal::{signals_to_string, Signal};
use morse_stream::table::{char_to_signals, signals_to_char};

use Signal::{Dash, Dot, Gap, LongGap, WordGap};

fn chars(s: &str) -> Vec<char> {
    s.chars().collect()
}

fn signals_of(s: &str, skip: bool) -> Vec<Signal> {
    CharToSignalIterator::new(chars(s), skip).into_signals()
}

fn text_of(bytes: Vec<u8>) -> String {
    decode_bytes(bytes).expect("decodes").into_iter().collect()
}

#[test]
fn sos_signals() {
    assert_eq!(
        signals_of("SOS", false),
        vec![Dot, Gap, Dot, Gap, Dot, LongGap, Dash, Gap, Dash, Gap, Dash, LongGap, Dot, Gap, Dot, Gap, Dot]
    );
}

#[test]
fn sos_bytes() {
    // 10101 00 11011011 00 10101, then two bits of padding
    assert_eq!(encode_text(chars("SOS"), false), vec![0b1010_1001, 0b1011_0110, 0b0101_0100]);
    assert_eq!(encode_text(chars("sos"), true), vec![0xA9, 0xB6, 0x54]);
}

#[test]
fn decode_a_space_b() {
    // A = 1 0 11, word gap 000, B = 11 0 1 0 1 0 1, one bit of padding
    assert_eq!(text_of(vec![0b1011_0001, 0b1010_1010]), "a b");
    assert_eq!(text_of(encode_text(chars("A B"), false)), "a b");
}

#[test]
fn inactive_run_of_four_is_rejected() {
    // dot, four inactive bits, dot, padding
    let r = decode_bytes(vec![0b1000_0100]);
    assert_eq!(r, Err(MorseError::UnrecognizedRunLength(false, 4)));
}

#[test]
fn active_run_of_three_is_rejected() {
    let r = bytes_to_signals(vec![0b1110_0000]);
    assert_eq!(r, Err(MorseError::UnrecognizedRunLength(true, 3)));
}

#[test]
fn unknown_code_is_not_found() {
    // six dots
    let r = decode_bytes(vec![0b1010_1010, 0b1010_0000]);
    assert_eq!(r, Err(MorseError::NotFound(vec![Dot, Dot, Dot, Dot, Dot, Dot])));
}

#[test]
fn unrecognized_char_fallback_or_skip() {
    assert_eq!(signals_of("@", false), vec![Dash, Gap, Dash, Gap, Dot, Gap, Dash, Gap, Dash]);
    assert_eq!(signals_of("@", true), Vec::<Signal>::new());
    assert_eq!(signals_of("A@B", true), signals_of("AB", true));
    assert_eq!(text_of(encode_text(chars("a@b"), false)), "a?b");
    assert_eq!(text_of(encode_text(chars("a@b"), true)), "ab");
}

#[test]
fn empty_text_round_trip() {
    assert_eq!(encode_text(Vec::new(), false), Vec::<u8>::new());
    assert_eq!(encode_text(Vec::new(), true), Vec::<u8>::new());
    assert_eq!(decode_bytes(Vec::new()), Ok(Vec::new()));
}

#[test]
fn padding_does_not_change_text() {
    // a single dot followed by 7, then 15 inactive bits
    assert_eq!(text_of(vec![0x80]), "e");
    assert_eq!(text_of(vec![0x80, 0x00]), "e");
    let sos = encode_text(chars("SOS"), false);
    let mut longer = sos.clone();
    longer.push(0);
    assert_eq!(text_of(sos), "sos");
    assert_eq!(text_of(longer), "sos");
    // a stream ending in a word gap keeps decoding the same with more silence
    let ends_in_gap = encode_text(chars("E "), false);
    assert_eq!(ends_in_gap, vec![0b1000_0000]);
    assert_eq!(text_of(ends_in_gap), "e");
}

#[test]
fn full_text_round_trip() {
    let text = "  Hello  World 0123456789 abcdefghijklmnopqrstuvwxyz  ";
    assert_eq!(
        text_of(encode_text(chars(text), false)),
        "hello world 0123456789 abcdefghijklmnopqrstuvwxyz"
    );
}

#[test]
fn every_table_symbol_reads_back() {
    for c in "ABCDEFGHIJKLMNOPQRSTUVWXYZabcdefghijklmnopqrstuvwxyz0123456789".chars() {
        let (code, recognized) = char_to_signals(c);
        assert!(recognized);
        assert_eq!(signals_to_char(&code), Ok(c.to_ascii_lowercase()));
    }
    let (code, recognized) = char_to_signals('#');
    assert!(!recognized);
    assert_eq!(signals_to_char(&code), Ok('?'));
    assert_eq!(signals_to_char(&[]), Err(MorseError::NotFound(vec![])));
}

#[test]
fn table_entries() {
    assert_eq!(char_to_signals('a'), (vec![Dot, Dash], true));
    assert_eq!(char_to_signals('Q'), (vec![Dash, Dash, Dot, Dash], true));
    assert_eq!(char_to_signals('0'), (vec![Dash, Dash, Dash, Dash, Dash], true));
    assert_eq!(signals_to_char(&[Dash, Dot, Dash, Dash]), Ok('y'));
    assert_eq!(signals_to_char(&[Dot, Gap]), Err(MorseError::NotFound(vec![Dot, Gap])));
}

#[test]
fn signal_bits_and_lengths() {
    let mut bits = vec![true];
    WordGap.write(&mut bits);
    Dash.write(&mut bits);
    assert_eq!(bits, vec![true, false, false, false, true, true]);
    assert_eq!(Gap.length(), 1);
    assert_eq!(LongGap.length(), 2);
    assert!(Dot.polarity());
    assert!(!WordGap.polarity());
}

#[test]
fn pictures() {
    assert_eq!(Dash.picture(), "\u{2584}\u{2584}");
    assert_eq!(LongGap.picture(), "  ");
    assert_eq!(signals_to_string(&[Dot, Gap, Dash, WordGap]), "\u{2584} \u{2584}\u{2584}   ");
}

#[test]
fn pack_and_unpack() {
    assert_eq!(pack_bits(&vec![true, false, true]), vec![0b1010_0000]);
    assert_eq!(pack_bits(&vec![false; 8]), vec![0]);
    assert_eq!(pack_bits(&vec![true; 9]), vec![0xFF, 0x80]);
    assert_eq!(unpack_bytes(&vec![0x81, 0x02]), vec![
        true, false, false, false, false, false, false, true,
        false, false, false, false, false, false, true, false,
    ]);
}

#[test]
fn signal_reader_steps() {
    let mut r = ByteSignalReader::new(vec![0b1011_0001, 0b1010_1010]);
    let mut seen = Vec::new();
    while let Some(s) = r.next() {
        seen.push(s.expect("valid run"));
    }
    assert_eq!(seen, vec![Dot, Gap, Dash, WordGap, Dash, Gap, Dot, Gap, Dot, Gap, Dot]);
}

#[test]
fn char_iterator_spaces() {
    let mut it = SignalsToCharIterator::new(vec![Dot, WordGap, WordGap, Dash, LongGap, LongGap, Dot]);
    let mut out = String::new();
    while let Some(c) = it.next() {
        out.push(c.expect("known code"));
    }
    assert_eq!(out, "e  te");
    let text = signals_to_text(vec![Dot, Gap, Dash, WordGap, Dash, Gap, Dot, Gap, Dot, Gap, Dot, WordGap]);
    assert_eq!(text, Ok(vec!['a', ' ', 'b', ' ']));
}

#[test]
fn leading_and_repeated_spaces_send_no_extra_gaps() {
    assert_eq!(signals_of("  E   T ", false), vec![Dot, WordGap, Dash, WordGap]);
}

#[test]
fn iterator_write_packs_bytes() {
    let bytes = CharToSignalIterator::new(chars("SOS"), false).write();
    assert_eq!(bytes, vec![0xA9, 0xB6, 0x54]);
    let mut it = CharToSignalIterator::new(chars("ET"), false);
    assert_eq!(it.next(), Some(Dot));
    // what is left: long gap, dash
    assert_eq!(it.write(), vec![0b0011_0000]);
}
