use bitwise_challenge::state::{from_state, make_state, Data};

fn sample() -> Data {
    let mut tail = [0u8; 19];
    for (i, t) in tail.iter_mut().enumerate() {
        *t = (i % 4) as u8;
    }
    Data { pos: [3, 6], dir: 2, score: 45, fruit_pos: [7, 1], tail, is_dead: true }
}

fn same(a: &Data, b: &Data) -> bool {
    a.pos == b.pos
        && a.dir == b.dir
        && a.score == b.score
        && a.fruit_pos == b.fruit_pos
        && a.tail == b.tail
        && a.is_dead == b.is_dead
}

#[test]
fn decode_of_encode_is_identity() {
    let d = sample();
    let back = from_state(make_state(d));
    assert!(same(&d, &back));
}

#[test]
fn encode_of_decode_is_identity() {
    for &x in &[0u64, 0x3a_0024, 0x7fff_ffff_fffe_ffff & !(0xc0 | (0xc0 << 17)), 0xdead_beef_0002_1234 & !(1 << 16)] {
        assert_eq!(make_state(from_state(x)), x, "state {:#x}", x);
    }
}

#[test]
fn field_layout_matches() {
    let x = make_state(Data { pos: [4, 4], dir: 0, score: 0, fruit_pos: [5, 3], tail: [0; 19], is_dead: false });
    assert_eq!(x, 0x3a_0024);
    let mut tail = [0u8; 19];
    tail[0] = 3;
    tail[18] = 1;
    let y = make_state(Data { pos: [1, 2], dir: 3, score: 63, fruit_pos: [0, 7], tail, is_dead: true });
    assert_eq!(y & 0xff, 17);
    assert_eq!((y >> 8) & 3, 3);
    assert_eq!((y >> 10) & 0x3f, 63);
    assert_eq!((y >> 17) & 0xff, 56);
    assert_eq!((y >> 25) & 3, 3);
    assert_eq!((y >> 61) & 3, 1);
    assert_eq!(y >> 63, 1);
}

#[test]
fn score_of_64_spills_into_spare_bit() {
    let x = make_state(Data { pos: [0, 0], dir: 0, score: 64, fruit_pos: [0, 0], tail: [0; 19], is_dead: false });
    assert_eq!(x, 1 << 16);
    assert_eq!(from_state(x).score, 0);
}

#[test]
fn decode_splits_cells() {
    let d = from_state(0xff | (0x9a << 17));
    assert_eq!(d.pos, [7, 31]);
    assert_eq!(d.fruit_pos, [2, 19]);
    assert!(!d.is_dead);
}
