use sketches::BitVec;

fn make_bit_vec_u8() -> BitVec<5> {
    let buf = vec![0b101_11000, 0b1_10001_00, 0b1011_0010, 0b1, 0];
    BitVec::with_buf_and_size(buf, 5)
}

fn make_bit_vec_u32() -> BitVec<17> {
    let buf = vec![
        0b11010110,
        0b01000110,
        0b0010111_0,
        0b10111111,
        0b100010_00,
        0b00011110,
        0b01111_001,
        0b01011001,
        0b0001_1110,
        0b10011001,
        0b10111,
        0,
    ];
    BitVec::with_buf_and_size(buf, 5)
}

#[test]
fn test_buffer_size() {
    assert_eq!(BitVec::<5>::new(1).buffer().len(), 2);
    assert_eq!(BitVec::<5>::new(6).buffer().len(), 5);
    assert_eq!(BitVec::<5>::new(8).buffer().len(), 6);
    assert_eq!(BitVec::<6>::new(10).buffer().len(), 9);
    assert_eq!(BitVec::<20>::new(3).buffer().len(), 9);
    assert_eq!(BitVec::<20>::new(8).buffer().len(), 21);
}

#[test]
fn test_get_u8() {
    let bv = make_bit_vec_u8();

    assert_eq!(bv.get(0), 0b11000);
    assert_eq!(bv.get(1), 0b00101);
    assert_eq!(bv.get(2), 0b10001);
    assert_eq!(bv.get(3), 0b00101);
    assert_eq!(bv.get(4), 0b11011);
}

#[test]
fn test_get_u32() {
    let bv = make_bit_vec_u32();

    assert_eq!(bv.get(0), 0b00100011011010110);
    assert_eq!(bv.get(1), 0b00101111110010111);
    assert_eq!(bv.get(2), 0b00100011110100010);
    assert_eq!(bv.get(3), 0b11100101100101111);
    assert_eq!(bv.get(4), 0b10111100110010001);
}

#[test]
fn test_set_single_word_u8() {
    let mut bv = make_bit_vec_u8();
    let expected = vec![0b101_11000, 0b1_01011_00, 0b1011_0010, 0b1, 0];

    bv.set(2, 0b01011);

    assert_eq!(*bv.buffer(), expected);
}

#[test]
fn test_set_word_boundary_u8() {
    let mut bv = make_bit_vec_u8();
    let expected = vec![0b011_11000, 0b1_10001_01, 0b1011_0010, 0b1, 0];

    bv.set(1, 0b01011);

    assert_eq!(*bv.buffer(), expected);
}

#[test]
fn test_set_u32() {
    let mut bv = make_bit_vec_u32();
    let expected = vec![
        0b11010110,
        0b01000110,
        0b0010111_0,
        0b10111111,
        0b100000_00,
        0b00100001,
        0b01111_101,
        0b01011001,
        0b0001_1110,
        0b10011001,
        0b10111,
        0,
    ];

    bv.set(2, 0b10100100001100000);

    assert_eq!(*bv.buffer(), expected);
}

#[test]
fn test_iter_u8() {
    let bv = make_bit_vec_u8();

    assert_eq!(bv.iter(), vec![0b11000, 0b00101, 0b10001, 0b00101, 0b11011]);
}

#[test]
fn test_iter_u32() {
    let bv = make_bit_vec_u32();

    assert_eq!(
        bv.iter(),
        vec![
            0b00100011011010110,
            0b00101111110010111,
            0b00100011110100010,
            0b11100101100101111,
            0b10111100110010001,
        ]
    );
}

#[test]
fn test_set_get_round_trip() {
    let mut bv = BitVec::<5>::new(10);
    for i in 0..10 {
        bv.set(i, (7 * i as u32 + 29) % 64);
    }
    for i in 0..10 {
        assert_eq!(bv.get(i), (7 * i as u32 + 29) % 64 & 0b11111);
    }
}

#[test]
fn test_set_masks_to_width() {
    let mut bv = BitVec::<3>::new(4);
    bv.set(2, 0b1111_1010);
    assert_eq!(bv.get(2), 0b010);
    assert_eq!(bv.get(1), 0);
    assert_eq!(bv.get(3), 0);
}
