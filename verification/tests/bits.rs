use ku::tools::{BitReader, BitWriter};

#[test]
fn writer_packs_msb_first() {
    let mut w = BitWriter::new();
    w.write(1, 1);
    w.write(0, 2);
    w.write(0b10110, 5);
    assert_eq!(w.disolve(), vec![0b10010110]);
}

#[test]
fn writer_pads_the_final_partial_byte() {
    let mut w = BitWriter::new();
    w.write(0b101, 3);
    assert_eq!(w.disolve(), vec![0b10100000]);
}

#[test]
fn writer_reader_round_trip() {
    let mut w = BitWriter::new();
    let fields: [(u8, u8); 6] = [(5, 3), (1, 1), (9, 4), (0, 2), (255, 8), (3, 2)];
    for (v, len) in fields.iter() {
        w.write(*v, *len);
    }
    let bytes = w.disolve();
    let mut r = BitReader::new(bytes);
    for (v, len) in fields.iter() {
        assert_eq!(r.read(*len), *v);
    }
}

#[test]
fn drop_zeros_strips_trailing_zero_bytes() {
    let mut w = BitWriter::new();
    w.write(1, 1);
    w.write(0, 8);
    w.write(0, 8);
    let bytes = w.disolve_drop_zeros();
    assert_eq!(bytes, vec![0b10000000]);
}

#[test]
fn drop_zeros_can_strip_everything() {
    let mut w = BitWriter::new();
    w.write(0, 8);
    w.write(0, 3);
    assert_eq!(w.disolve_drop_zeros(), Vec::<u8>::new());
}

#[test]
fn elided_zeros_read_back_as_zeros() {
    let mut w = BitWriter::new();
    w.write(1, 1);
    w.write(0, 8);
    let bytes = w.disolve_drop_zeros();
    let mut r = BitReader::new(bytes);
    assert_eq!(r.read(1), 1);
    assert_eq!(r.read(8), 0);
    assert_eq!(r.read(8), 0);
}

#[test]
fn reader_of_empty_input_yields_zeros() {
    let mut r = BitReader::new(Vec::new());
    assert_eq!(r.read(8), 0);
    assert_eq!(r.read(5), 0);
}

#[test]
fn zero_width_read_consumes_nothing() {
    let mut r = BitReader::new(vec![0b11000000]);
    assert_eq!(r.read(0), 0);
    assert_eq!(r.read(2), 0b11);
}

#[test]
fn reader_crosses_byte_boundaries() {
    let mut r = BitReader::new(vec![0b10110001, 0b01000000]);
    assert_eq!(r.read(3), 0b101);
    assert_eq!(r.read(7), 0b1000101);
}

#[test]
fn write_u16_splits_wide_fields() {
    let mut w = BitWriter::new();
    w.write_u16(0x01ff, 16);
    assert_eq!(w.disolve(), vec![0x01, 0xff]);
    let mut w2 = BitWriter::new();
    w2.write_u16(0x2a, 6);
    assert_eq!(w2.disolve(), vec![0b10101000]);
}

#[test]
fn write_u16_keeps_the_high_byte_full_width() {
    // for widths between 9 and 16 the high byte always occupies 8 bits and
    // only the low byte shrinks
    let mut w = BitWriter::new();
    w.write_u16(0xab0c, 12);
    assert_eq!(w.disolve(), vec![0xab, 0xc0]);
}
