use parquet2::error::Error;
use parquet2::levels::{dict_indices_decoder, get_bit_width, DefLevelsDecoder, HybridRleDecoder};
use parquet2::page::{split_buffer, DataPage};

fn page(buffer: Vec<u8>, max_rep_level: u16, max_def_level: u16) -> DataPage {
    DataPage { buffer, num_values: 7, max_rep_level, max_def_level }
}

#[test]
fn bit_widths() {
    assert_eq!(get_bit_width(0), 0);
    assert_eq!(get_bit_width(1), 1);
    assert_eq!(get_bit_width(2), 2);
    assert_eq!(get_bit_width(3), 2);
    assert_eq!(get_bit_width(4), 3);
    assert_eq!(get_bit_width(7), 3);
    assert_eq!(get_bit_width(8), 4);
    assert_eq!(get_bit_width(u16::MAX), 16);
}

#[test]
fn split_with_both_levels() {
    let p = page(vec![1, 0, 0, 0, 9, 2, 0, 0, 0, 5, 6, 42, 43], 1, 2);
    let (rep, def, values) = split_buffer(&p).unwrap();
    assert_eq!(rep, &[9]);
    assert_eq!(def, &[5, 6]);
    assert_eq!(values, &[42, 43]);
}

#[test]
fn split_without_levels() {
    let p = page(vec![1, 2, 3], 0, 0);
    let (rep, def, values) = split_buffer(&p).unwrap();
    assert!(rep.is_empty());
    assert!(def.is_empty());
    assert_eq!(values, &[1, 2, 3]);
}

#[test]
fn split_with_short_prefix_is_refused() {
    let p = page(vec![1, 0], 0, 1);
    assert!(matches!(split_buffer(&p), Err(Error::BufferTooShort)));
    let p = page(vec![9, 0, 0, 0, 1], 0, 1);
    assert!(matches!(split_buffer(&p), Err(Error::BufferTooShort)));
}

#[test]
fn def_levels_bitmap_mode() {
    let p = page(vec![2, 0, 0, 0, 3, 4, 99], 0, 1);
    match DefLevelsDecoder::new(&p).unwrap() {
        DefLevelsDecoder::Bitmap(d) => {
            assert_eq!(d.data, &[3, 4]);
            assert_eq!(d.num_bits, 1);
            assert_eq!(d.length, 7);
        }
        DefLevelsDecoder::Levels(..) => panic!("expected the bitmap mode"),
    }
}

#[test]
fn def_levels_levels_mode() {
    let p = page(vec![1, 0, 0, 0, 3, 99], 0, 3);
    match DefLevelsDecoder::new(&p).unwrap() {
        DefLevelsDecoder::Levels(d, max) => {
            assert_eq!(d.data, &[3]);
            assert_eq!(d.num_bits, 2);
            assert_eq!(d.length, 7);
            assert_eq!(max, 3);
        }
        DefLevelsDecoder::Bitmap(_) => panic!("expected the levels mode"),
    }
}

#[test]
fn def_levels_of_truncated_page() {
    let p = page(vec![4, 0, 0, 0, 3], 0, 1);
    assert!(matches!(DefLevelsDecoder::new(&p), Err(Error::BufferTooShort)));
}

#[test]
fn dict_indices_read_bit_width_prefix() {
    let p = page(vec![5, 0xAA, 0xBB], 0, 0);
    let d = dict_indices_decoder(&p).unwrap();
    assert_eq!(d.num_bits, 5);
    assert_eq!(d.data, &[0xAA, 0xBB]);
    assert_eq!(d.length, 7);
}

#[test]
fn dict_indices_errors() {
    let p = page(vec![], 0, 0);
    assert!(matches!(dict_indices_decoder(&p), Err(Error::BufferTooShort)));
    let p = page(vec![33, 1], 0, 0);
    assert!(matches!(dict_indices_decoder(&p), Err(Error::BitWidthTooLarge)));
}

#[test]
fn hybrid_stream_bit_width_limit() {
    assert!(HybridRleDecoder::new(&[1], 32, 1).is_ok());
    assert!(matches!(HybridRleDecoder::new(&[1], 33, 1), Err(Error::BitWidthTooLarge)));
}
