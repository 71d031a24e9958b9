use binstruct::schema::Relation;
use binstruct::wire::{decode_int, encode_int, reversed, ByteOrder, ByteSink, ByteSource, IntWidth};

#[test]
fn integers_are_written_in_both_orders() {
    assert_eq!(encode_int(0x12, IntWidth::W8, ByteOrder::Big), vec![0x12]);
    assert_eq!(encode_int(0x1234, IntWidth::W16, ByteOrder::Big), vec![0x12, 0x34]);
    assert_eq!(encode_int(0x1234, IntWidth::W16, ByteOrder::Little), vec![0x34, 0x12]);
    assert_eq!(
        encode_int(0x0102_0304, IntWidth::W32, ByteOrder::Big),
        vec![0x01, 0x02, 0x03, 0x04]
    );
    assert_eq!(
        encode_int(0x0102_0304, IntWidth::W32, ByteOrder::Little),
        vec![0x04, 0x03, 0x02, 0x01]
    );
    assert_eq!(
        encode_int(0x0102_0304_0506_0708, IntWidth::W64, ByteOrder::Big),
        vec![1, 2, 3, 4, 5, 6, 7, 8]
    );
    assert_eq!(encode_int(u64::MAX, IntWidth::W64, ByteOrder::Little), vec![0xff; 8]);
}

#[test]
fn integer_that_does_not_fit_keeps_its_low_bytes() {
    assert_eq!(encode_int(0x1_2345, IntWidth::W16, ByteOrder::Big), vec![0x23, 0x45]);
}

#[test]
fn integers_are_read_in_both_orders() {
    assert_eq!(decode_int(&vec![0x12, 0x34], ByteOrder::Big), 0x1234);
    assert_eq!(decode_int(&vec![0x12, 0x34], ByteOrder::Little), 0x3412);
    assert_eq!(decode_int(&vec![1, 2, 3, 4, 5, 6, 7, 8], ByteOrder::Big), 0x0102_0304_0506_0708);
    assert_eq!(decode_int(&vec![0xff; 8], ByteOrder::Little), u64::MAX);
    assert_eq!(decode_int(&vec![], ByteOrder::Big), 0);
}

#[test]
fn integers_survive_a_round_trip() {
    for &order in &[ByteOrder::Big, ByteOrder::Little] {
        for &(width, v) in &[
            (IntWidth::W8, 0xabu64),
            (IntWidth::W16, 0xabcd),
            (IntWidth::W32, 0xdead_beef),
            (IntWidth::W64, 0x0123_4567_89ab_cdef),
        ] {
            assert_eq!(decode_int(&encode_int(v, width, order), order), v);
        }
    }
}

#[test]
fn widths_have_sizes_and_limits() {
    assert_eq!(IntWidth::W8.bytes(), 1);
    assert_eq!(IntWidth::W16.bytes(), 2);
    assert_eq!(IntWidth::W32.bytes(), 4);
    assert_eq!(IntWidth::W64.bytes(), 8);
    assert!(IntWidth::W8.fits(255));
    assert!(!IntWidth::W8.fits(256));
    assert!(IntWidth::W16.fits(65535));
    assert!(!IntWidth::W16.fits(65536));
    assert!(IntWidth::W32.fits(0xffff_ffff));
    assert!(!IntWidth::W32.fits(0x1_0000_0000));
    assert!(IntWidth::W64.fits(u64::MAX));
}

#[test]
fn reversed_turns_bytes_around() {
    assert_eq!(reversed(&vec![1, 2, 3]), vec![3, 2, 1]);
    assert_eq!(reversed(&vec![]), Vec::<u8>::new());
}

#[test]
fn relations_compare() {
    assert!(Relation::Equal.test(3, 3));
    assert!(!Relation::Equal.test(3, 4));
    assert!(Relation::NotEqual.test(3, 4));
    assert!(!Relation::NotEqual.test(4, 4));
    assert!(Relation::Below.test(3, 4));
    assert!(!Relation::Below.test(4, 4));
    assert!(Relation::Above.test(5, 4));
    assert!(!Relation::Above.test(4, 4));
}

#[test]
fn sink_appends_until_full() {
    let mut sink = ByteSink::new(4);
    assert_eq!(sink.limit(), 4);
    assert!(sink.write(&[1, 2]));
    assert_eq!(sink.len(), 2);
    assert!(sink.write(&[]));
    assert!(!sink.write(&[3, 4, 5]));
    assert_eq!(sink.as_slice(), &[1, 2, 3, 4]);
    assert!(!sink.write(&[6]));
    assert_eq!(sink.into_bytes(), vec![1, 2, 3, 4]);
}

#[test]
fn sink_accepts_a_write_that_exactly_fits() {
    let mut sink = ByteSink::new(3);
    assert!(sink.write(&[1, 2, 3]));
    assert_eq!(sink.len(), 3);
}

#[test]
fn source_reads_front_to_back() {
    let mut source = ByteSource::new(vec![1, 2, 3, 4, 5]);
    assert_eq!(source.remaining(), 5);
    assert_eq!(source.take(2), Some(vec![1, 2]));
    assert_eq!(source.take(0), Some(vec![]));
    assert_eq!(source.take(4), None);
    assert_eq!(source.remaining(), 3);
    assert_eq!(source.take_rest(), vec![3, 4, 5]);
    assert_eq!(source.remaining(), 0);
    assert_eq!(source.take_rest(), Vec::<u8>::new());
    assert_eq!(source.take(1), None);
}
