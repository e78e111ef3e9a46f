use bitvec::order::Msb0;
use bitvec::vec::BitVec;
use fht_decode::bits::Bits;
use fht_decode::chunk::load_byte;
use fht_decode::frame::{decode_bytes_as_signal, FHTCommand, FHTSignal};
use fht_decode::symbols::on_offs_to_bits;
use fht_decode::sync::sync_bits;

fn bits_from(s: &str) -> Bits {
    let v: Vec<bool> = s.chars().map(|c| c == '1').collect();
    Bits::from_bools(&v)
}

/// Renders bits in groups of eight, as `[00100111, 0101]`.
fn render(b: &Bits) -> String {
    let v: BitVec<u8, Msb0> = b.to_bools().into_iter().collect();
    let groups: Vec<String> = v
        .chunks(8)
        .map(|c| c.iter().map(|x| if *x { '1' } else { '0' }).collect())
        .collect();
    format!("[{}]", groups.join(", "))
}

#[test]
fn test_bitvec() {
    let x = bits_from("00100111");
    let y: u8 = load_byte(&x, 0);
    assert_eq!(39, y);
}

#[test]
fn test_on_offs_to_bits() {
    let bits = "1100110011001100110011001100110011001100110011001110001100110011100011001\
    1001110001110001110001100110011001100110011100011001100111000110011001100110011001100110011\
    0011001100110011001110001100111000111000110011001110001110001110001110001100111000110011100\
    011100011001100111000110011100011001100111000111000110011";
    let result = on_offs_to_bits(bits_from(bits));
    assert_eq!(
        render(&result[0]),
        "[00000000, 00001001, 00111000, 00100100, 00000000, 00101100, 11110101, 10010100, 110]"
    );
}

#[test]
fn test_sync_bits1() {
    let bits = "0000000000001001001110000010010000000000001011001111010110010100110";
    let result = sync_bits(bits_from(bits));
    assert_eq!(
        "[00100111, 00000100, 10000000, 00000101, 10011110, 10110010, 100110]",
        render(&result)
    );
}

#[test]
fn test_sync_bits2() {
    let bits = "0000010010011100000100100000000000010110011100111100000101100";
    let result = sync_bits(bits_from(bits));
    assert_eq!(
        "[00100111, 00000100, 10000000, 00000101, 10011100, 11110000, 0101100]",
        render(&result)
    );
}

#[test]
fn test_decode_bytes() {
    let bytes = vec![39, 5, 0, 182, 227, 209];
    let signal = decode_bytes_as_signal(bytes).unwrap();
    assert_eq!(
        FHTSignal {
            house_code1: 39,
            house_code2: 5,
            address: 0,
            command: FHTCommand::OpenTo(89),
        },
        signal
    );
}
