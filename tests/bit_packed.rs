use parquet2::bit_packed::Decoder;
use parquet2::error::Error;

fn decode(data: &[u8], num_bits: u8, length: usize) -> Vec<u32> {
    Decoder::new(data, num_bits, length).unwrap().collect_remaining()
}

/// Packs `values` at `num_bits` bits each, most significant bit first.
fn pack(values: &[u32], num_bits: u32) -> Vec<u8> {
    let total_bits = values.len() * num_bits as usize;
    let mut out = vec![0u8; (total_bits + 7) / 8];
    for (i, v) in values.iter().enumerate() {
        for k in 0..num_bits {
            let bit = (v >> (num_bits - 1 - k)) & 1;
            let pos = i * num_bits as usize + k as usize;
            out[pos / 8] |= (bit as u8) << (7 - pos % 8);
        }
    }
    out
}

#[test]
fn decode_small() {
    // 0..8 at 3 bits each: 000 001 010 011 100 101 110 111
    let num_bits = 3;
    let length = 8;
    let data = vec![0b00000101u8, 0b00111001, 0b01110111];

    let decoded = decode(&data, num_bits, length);
    assert_eq!(decoded, vec![0, 1, 2, 3, 4, 5, 6, 7]);
}

#[test]
fn decode_large() {
    let num_bits = 3;
    let length = 8 * 7;
    let data = vec![
        0b00000101u8,
        0b00111001,
        0b01110111,
        0b00000101u8,
        0b00111001,
        0b01110111,
        0b00000101u8,
        0b00111001,
        0b01110111,
        0b00000101u8,
        0b00111001,
        0b01110111,
        0b00000101u8,
        0b00111001,
        0b01110111,
        0b00000101u8,
        0b00111001,
        0b01110111,
        0b00000101u8,
        0b00111001,
        0b01110111,
    ];

    let decoded = decode(&data, num_bits, length);
    assert_eq!(
        decoded,
        vec![
            0, 1, 2, 3, 4, 5, 6, 7, 0, 1, 2, 3, 4, 5, 6, 7, 0, 1, 2, 3, 4, 5, 6, 7, 0, 1, 2, 3,
            4, 5, 6, 7, 0, 1, 2, 3, 4, 5, 6, 7, 0, 1, 2, 3, 4, 5, 6, 7, 0, 1, 2, 3, 4, 5, 6, 7,
        ]
    );
}

#[test]
fn decode_binary() {
    let num_bits = 1;
    let length = 4;
    let data = vec![0b01100000u8];

    let decoded = decode(&data, num_bits, length);
    assert_eq!(decoded, vec![0, 1, 1, 0]);
}

#[test]
fn decode_larger() {
    let num_bits = 8;
    let length = 3;
    let data = vec![0b11111111u8, 0b00000000u8, 0b00000001u8];

    let decoded = decode(&data, num_bits, length);
    assert_eq!(decoded, vec![255, 0, 1]);
}

#[test]
fn round_trip_every_width() {
    for num_bits in 1..=32u32 {
        let max = if num_bits == 32 { u32::MAX } else { (1u32 << num_bits) - 1 };
        let values: Vec<u32> = (0..100u32)
            .map(|i| (i.wrapping_mul(2654435761)) & max)
            .collect();
        let data = pack(&values, num_bits);
        assert_eq!(decode(&data, num_bits as u8, values.len()), values, "width {}", num_bits);
    }
}

#[test]
fn round_trip_crosses_words_within_block() {
    let values: Vec<u32> = (0..32).collect();
    let data = pack(&values, 5);
    assert_eq!(data.len(), 20);
    assert_eq!(decode(&data, 5, 32), values);
}

#[test]
fn full_width_values() {
    let data = vec![0xDE, 0xAD, 0xBE, 0xEF, 0, 0, 0, 1];
    assert_eq!(decode(&data, 32, 2), vec![0xDEADBEEF, 1]);
}

#[test]
fn width_zero_gives_zeros() {
    assert_eq!(decode(&[], 0, 40), vec![0; 40]);
}

#[test]
fn empty_buffer_with_no_values() {
    let mut d = Decoder::new(&[], 4, 0).unwrap();
    assert_eq!(d.size_hint(), (0, Some(0)));
    assert_eq!(d.next(), None);
}

#[test]
fn extra_bytes_are_ignored() {
    let data = vec![0b11111111u8, 0b00000000u8, 0b00000001u8, 7, 7, 7];
    assert_eq!(decode(&data, 8, 2), vec![255, 0]);
}

#[test]
fn exact_length_and_exhaustion() {
    let data = vec![0b01100000u8];
    let mut d = Decoder::new(&data, 1, 4).unwrap();
    assert_eq!(d.size_hint(), (4, Some(4)));
    assert_eq!(d.next(), Some(0));
    assert_eq!(d.size_hint(), (3, Some(3)));
    assert_eq!(d.next(), Some(1));
    assert_eq!(d.next(), Some(1));
    assert_eq!(d.next(), Some(0));
    assert_eq!(d.next(), None);
    assert_eq!(d.next(), None);
    assert_eq!(d.size_hint(), (0, Some(0)));
}

#[test]
fn short_block_is_zero_padded() {
    // one byte holds two 4-bit values; the rest of the block reads as zeros
    let data = vec![0xA5];
    assert_eq!(decode(&data, 4, 5), vec![10, 5, 0, 0, 0]);
}

#[test]
fn bit_width_too_large() {
    assert!(matches!(Decoder::new(&[0u8; 200], 33, 1), Err(Error::BitWidthTooLarge)));
}

#[test]
fn empty_buffer_with_values_is_refused() {
    assert!(matches!(Decoder::new(&[], 3, 1), Err(Error::BufferTooShort)));
}

#[test]
fn length_past_last_block_is_refused() {
    // one byte at width 1 is one block of 32 values
    assert!(Decoder::new(&[0xFF], 1, 32).is_ok());
    assert!(matches!(Decoder::new(&[0xFF], 1, 33), Err(Error::BufferTooShort)));
}
