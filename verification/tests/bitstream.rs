use block_compression::decode::bitstream::BitStream;

fn sample() -> [u8; 16] {
    [
        0x10, 0x32, 0x54, 0x76, 0x98, 0xBA, 0xDC, 0xFE, 0x01, 0x23, 0x45, 0x67, 0x89, 0xAB, 0xCD,
        0xEF,
    ]
}

fn value_of(data: &[u8; 16]) -> u128 {
    let mut value = 0u128;
    for i in (0..16).rev() {
        value = (value << 8) | data[i] as u128;
    }
    value
}

#[test]
fn bits_come_out_lowest_first() {
    let data = sample();
    let mut stream = BitStream::new(&data);
    assert_eq!(stream.read_bits(4), 0x0);
    assert_eq!(stream.read_bits(4), 0x1);
    assert_eq!(stream.read_bits(8), 0x32);
    assert_eq!(stream.read_bits(16), 0x7654);
    assert_eq!(stream.read_bits(32), 0xFEDC_BA98);
    assert_eq!(stream.read_bits(32), 0x6745_2301);
    assert_eq!(stream.read_bits(32), 0xEFCD_AB89);
}

#[test]
fn reads_of_every_width_follow_the_number() {
    let data = sample();
    for width in 1..=32u32 {
        let mut stream = BitStream::new(&data);
        let mut rest = value_of(&data);
        for _ in 0..6 {
            let expected = (rest & ((1u128 << width) - 1)) as u32;
            assert_eq!(stream.read_bits(width), expected, "width {}", width);
            rest >>= width;
        }
    }
}

#[test]
fn reading_past_the_end_yields_zeros() {
    let data = [0xFFu8; 16];
    let mut stream = BitStream::new(&data);
    for _ in 0..4 {
        assert_eq!(stream.read_bits(32), 0xFFFF_FFFF);
    }
    assert_eq!(stream.read_bits(32), 0);
    assert_eq!(stream.read_bit(), 0);
    assert_eq!(stream.read_bits_i32(7), 0);
    assert_eq!(stream.read_bits_reversed(6), 0);
}

#[test]
fn single_bits() {
    let mut data = [0u8; 16];
    data[0] = 0b0000_0101;
    let mut stream = BitStream::new(&data);
    assert_eq!(stream.read_bit(), 1);
    assert_eq!(stream.read_bit(), 0);
    assert_eq!(stream.read_bit_i32(), 1);
    assert_eq!(stream.read_bit_i32(), 0);
}

#[test]
fn signed_reads_keep_the_bit_pattern() {
    let data = [0xFFu8; 16];
    let mut stream = BitStream::new(&data);
    assert_eq!(stream.read_bits_i32(10), 1023);
    assert_eq!(stream.read_bits_i32(31), 0x7FFF_FFFF);
    assert_eq!(stream.read_bits_i32(32), -1);
}

#[test]
fn reversed_reads_put_the_first_bit_on_top() {
    let mut data = [0u8; 16];
    data[0] = 0b0010_1101;
    let mut stream = BitStream::new(&data);
    assert_eq!(stream.read_bits_reversed(2), 0b10);
    assert_eq!(stream.read_bits_reversed(6), 0b110100);
    let mut data = [0u8; 16];
    data[0] = 0b0000_0001;
    let mut stream = BitStream::new(&data);
    assert_eq!(stream.read_bits_reversed(6), 0b100000);
    let mut data = [0u8; 16];
    data[0] = 1;
    let mut stream = BitStream::new(&data);
    assert_eq!(stream.read_bits_reversed(32), i32::MIN);
}
