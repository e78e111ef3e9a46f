use fht_decode::bits::Bits;
use fht_decode::chunk::{chunk_into_bytes, chunk_parity_even, load_byte};
use fht_decode::frame::{
    check_frame, checksum, decode_bytes_as_signal, FHTCommand, FHTSignal, FrameError,
};
use fht_decode::pipeline::decode_samples;
use fht_decode::symbols::{classify_sample, on_offs_to_bits, RunState, Symbol};
use fht_decode::sync::sync_bits;

fn bits_from(s: &str) -> Bits {
    let v: Vec<bool> = s.chars().map(|c| c == '1').collect();
    Bits::from_bools(&v)
}

fn bit_string(b: &Bits) -> String {
    b.to_bools().iter().map(|x| if *x { '1' } else { '0' }).collect()
}

fn pulse(out: &mut Vec<bool>, bit: bool) {
    if bit {
        out.extend([true, true, true, false, false, false]);
    } else {
        out.extend([true, true, false, false]);
    }
}

/// Eight zeros and a one, then each byte with an even-parity bit, as pulses.
fn encode(bytes: &[u8]) -> Vec<bool> {
    let mut out = Vec::new();
    for _ in 0..8 {
        pulse(&mut out, false);
    }
    pulse(&mut out, true);
    for b in bytes {
        let mut ones = 0;
        for k in (0..8).rev() {
            let bit = (b >> k) & 1 == 1;
            if bit {
                ones += 1;
            }
            pulse(&mut out, bit);
        }
        pulse(&mut out, ones % 2 == 1);
    }
    out
}

#[test]
fn silence_gives_no_candidates() {
    let samples = vec![false; 500];
    assert!(on_offs_to_bits(Bits::from_bools(&samples)).is_empty());
    assert!(on_offs_to_bits(Bits::from_bools(&Vec::new())).is_empty());
}

#[test]
fn encoded_frame_round_trips() {
    let bytes = vec![39, 5, 0, 182, 227, 209];
    let decoded = decode_samples(Bits::from_bools(&encode(&bytes)));
    assert_eq!(decoded.len(), 1);
    assert_eq!(decoded[0].bytes, bytes);
    assert_eq!(
        decoded[0].signal,
        Some(FHTSignal {
            house_code1: 39,
            house_code2: 5,
            address: 0,
            command: FHTCommand::OpenTo(89),
        })
    );
}

#[test]
fn two_frames_split_at_a_break() {
    let mut samples = encode(&[1, 2, 3]);
    samples.extend([true; 7]);
    samples.extend(encode(&[200, 100]));
    let decoded = decode_samples(Bits::from_bools(&samples));
    assert_eq!(decoded.len(), 2);
    assert_eq!(decoded[0].bytes, vec![1, 2, 3]);
    assert_eq!(decoded[1].bytes, vec![200, 100]);
    assert_eq!(decoded[0].signal, None);
}

#[test]
fn short_runs_are_dropped() {
    let samples = encode(&[7]);
    assert!(on_offs_to_bits(Bits::from_bools(&samples)).is_empty());
}

#[test]
fn classifier_transitions() {
    let s = |on_run, off_run| RunState { on_run, off_run };
    assert_eq!(classify_sample(s(4, 0), true), (s(4, 0), Some(Symbol::Break)));
    assert_eq!(classify_sample(s(2, 0), true), (s(3, 0), None));
    assert_eq!(classify_sample(s(0, 0), false), (s(0, 1), None));
    assert_eq!(classify_sample(s(0, 1), false), (s(0, 1), None));
    assert_eq!(classify_sample(s(2, 1), false), (s(0, 0), Some(Symbol::Zero)));
    assert_eq!(classify_sample(s(4, 1), false), (s(0, 0), Some(Symbol::Zero)));
    assert_eq!(classify_sample(s(3, 2), false), (s(0, 0), Some(Symbol::One)));
    assert_eq!(classify_sample(s(1, 2), false), (s(0, 0), Some(Symbol::One)));
    assert_eq!(classify_sample(s(3, 1), false), (s(3, 2), None));
}

#[test]
fn sync_needs_two_zeros() {
    assert_eq!(bit_string(&sync_bits(bits_from("0101101"))), "");
    assert_eq!(bit_string(&sync_bits(bits_from("1001011"))), "011");
    assert_eq!(bit_string(&sync_bits(bits_from(""))), "");
}

#[test]
fn flipped_bit_truncates_bytes() {
    let bits = "001001110000010010000000000001111000000011011100001011";
    assert_eq!(chunk_into_bytes(bits_from(bits)), vec![39, 9, 0, 60, 13, 133]);
    let mut flipped: Vec<bool> = bits.chars().map(|c| c == '1').collect();
    flipped[20] = !flipped[20];
    let f = Bits::from_bools(&flipped);
    assert!(chunk_parity_even(&bits_from(bits), 18));
    assert!(!chunk_parity_even(&f, 18));
    assert_eq!(chunk_into_bytes(f), vec![39, 9]);
}

#[test]
fn incomplete_chunk_is_dropped() {
    assert_eq!(chunk_into_bytes(bits_from("00100111011")), vec![39]);
    assert!(chunk_into_bytes(bits_from("00100111")).is_empty());
}

#[test]
fn load_byte_reads_msb_first() {
    assert_eq!(load_byte(&bits_from("11111111"), 0), 255);
    assert_eq!(load_byte(&bits_from("0110000000"), 1), 128 + 64);
}

#[test]
fn checksum_value() {
    assert_eq!(checksum(&vec![39, 5, 0, 182, 227], 5), 209);
    assert_eq!(checksum(&vec![250, 10], 2), 16);
}

#[test]
fn checksum_mutation_rejects() {
    let bytes = vec![39, 5, 0, 182, 227, 210];
    assert_eq!(decode_bytes_as_signal(bytes.clone()), None);
    assert_eq!(check_frame(&bytes), Err(FrameError::BadChecksum));
}

#[test]
fn frame_errors() {
    assert_eq!(check_frame(&vec![39, 5, 0, 182, 227]), Err(FrameError::TooShort));
    assert_eq!(check_frame(&vec![0, 0, 0, 0, 12, 0]), Err(FrameError::UnknownCommand(0)));
}

#[test]
fn sync_command_without_extension() {
    let signal = decode_bytes_as_signal(vec![1, 2, 3, 12, 30, 0]);
    assert_eq!(
        signal,
        Some(FHTSignal {
            house_code1: 1,
            house_code2: 2,
            address: 3,
            command: FHTCommand::Sync,
        })
    );
}

#[test]
fn full_opening_is_one_hundred() {
    let sum: u32 = [1u32, 1, 1, 0x26, 255].iter().sum();
    let check = ((sum + 12) % 256) as u8;
    let signal = decode_bytes_as_signal(vec![1, 1, 1, 0x26, 255, check]).unwrap();
    assert_eq!(signal.command, FHTCommand::OpenTo(100));
}

#[test]
fn bits_keep_their_order() {
    let b = bits_from("1011001");
    assert_eq!(b.len(), 7);
    assert_eq!(bit_string(&b), "1011001");
}
