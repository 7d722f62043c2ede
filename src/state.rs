use vstd::prelude::*;
use crate::bits::{field, low_mask, put, lemma_put_other, lemma_put_same, lemma_low_extend};

verus! {

/// Cells per side of the square playing grid.
pub const CELLS: u32 = 8;

/// Number of trailing-segment direction codes kept in the state.
pub const TAIL_LEN: usize = 19;

/// Bit offset of the first trailing-segment code.
pub const TAIL_OFFSET: u64 = 25;

/// The decoded form of a Snake packed state.
#[derive(Clone, Copy)]
pub struct Data {
    /// Head cell, as `[column, row]`.
    pub pos: [u32; 2],
    /// Facing direction: 0 right, 1 up, 2 left, 3 down.
    pub dir: u32,
    pub score: u8,
    /// Fruit cell, as `[column, row]`.
    pub fruit_pos: [u32; 2],
    /// Direction codes leading from the head back along the body.
    pub tail: [u8; 19],
    pub is_dead: bool,
}

pub open spec fn valid_cell(p: [u32; 2]) -> bool {
    p[0] < CELLS && p[1] < CELLS
}

/// A record whose every field fits its bit field.
pub open spec fn valid(d: Data) -> bool {
    &&& valid_cell(d.pos)
    &&& d.dir < 4
    &&& d.score < 64
    &&& valid_cell(d.fruit_pos)
    &&& forall|i: int| 0 <= i < TAIL_LEN ==> #[trigger] d.tail[i] < 4
}

/// The cell index `row * CELLS + column`.
pub open spec fn cell_index(p: [u32; 2]) -> u64 {
    (p[1] * CELLS + p[0]) as u64
}

/// A record that `make_state` accepts: both cell indices within 8 bits and a score
/// below 128. The score is written with 7 bits, so a score of 64 or more
/// spills into the unused bit 16.
pub open spec fn encodable(d: Data) -> bool {
    d.pos[0] < CELLS && d.pos[1] < 32 && d.fruit_pos[0] < CELLS && d.fruit_pos[1] < 32 && d.score < 128
}

/// The packed head fields: position, direction, score and fruit position.
pub open spec fn head_fields(pos_cell: u64, dir: u64, score: u64, fruit_cell: u64) -> u64 {
    put(put(put(put(0, pos_cell, 0, 8), dir, 8, 2), score, 10, 7), fruit_cell, 17, 8)
}

pub open spec fn head_bits(d: Data) -> u64 {
    head_fields(cell_index(d.pos), d.dir as u64, d.score as u64, cell_index(d.fruit_pos))
}

/// `base` with the first `n` trailing-segment codes of `t` inserted.
pub open spec fn with_tail(base: u64, t: Seq<u8>, n: nat) -> u64
    decreases n,
{
    if n == 0 {
        base
    } else {
        put(with_tail(base, t, (n - 1) as nat), t[n - 1] as u64, (TAIL_OFFSET + 2 * (n - 1)) as u64, 2)
    }
}

/// The packed state made of the given field values.
pub open spec fn pack(pos_cell: u64, dir: u64, score: u64, fruit_cell: u64, tail: Seq<u8>, dead: bool) -> u64 {
    put(
        with_tail(head_fields(pos_cell, dir, score, fruit_cell), tail, TAIL_LEN as nat),
        if dead { 1 } else { 0 },
        63,
        1,
    )
}

/// The packed form of a record.
pub open spec fn encode(d: Data) -> u64 {
    pack(cell_index(d.pos), d.dir as u64, d.score as u64, cell_index(d.fruit_pos), d.tail@, d.is_dead)
}

/// Whether `d` is what the packed value `x` decodes to, field by field.
pub open spec fn decodes_to(x: u64, d: Data) -> bool {
    &&& d.pos[0] == field(x, 0, 8) % 8
    &&& d.pos[1] == field(x, 0, 8) / 8
    &&& d.dir == field(x, 8, 2)
    &&& d.score == field(x, 10, 6)
    &&& d.fruit_pos[0] == field(x, 17, 8) % 8
    &&& d.fruit_pos[1] == field(x, 17, 8) / 8
    &&& forall|i: int| 0 <= i < TAIL_LEN ==> #[trigger] d.tail[i] == field(x, (TAIL_OFFSET + 2 * i) as u64, 2)
    &&& d.is_dead == (field(x, 63, 1) == 1)
}

/// Packs a record into its 64-bit state.
pub fn make_state(data: Data) -> (r: u64)
    requires
        encodable(data),
    ensures
        r == encode(data),
{
    let pos = ((data.pos[1] * CELLS + data.pos[0]) as u64) & 0xff;
    let dir = ((data.dir & 3) as u64) << 8u64;
    let score = (data.score as u64) << 10u64;
    let fruit_pos = (((data.fruit_pos[1] * CELLS + data.fruit_pos[0]) & 0xff) as u64) << 17u64;
    let head = pos | dir | score | fruit_pos;
    proof {
        let p = cell_index(data.pos);
        let f = cell_index(data.fruit_pos);
        let dd = data.dir as u64;
        let s = data.score as u64;
        assert(head == put(put(put(put(0, p, 0, 8), dd, 8, 2), s, 10, 7), f, 17, 8)) by (bit_vector)
            requires
                head == (p & 0xff) | ((dd & 3) << 8u64) | (s << 10u64) | ((f & 0xff) << 17u64),
                s < 128,
        ;
    }
    let mut acc = head;
    let mut i: usize = 0;
    while i < TAIL_LEN
        invariant
            i <= TAIL_LEN,
            acc == with_tail(head_bits(data), data.tail@, i as nat),
        decreases TAIL_LEN - i,
    {
        let t = data.tail[i] as u64;
        let o = TAIL_OFFSET + (i as u64) * 2;
        let next = acc | ((t & 3) << o);
        assert(next == put(acc, t, o, 2)) by (bit_vector)
            requires next == acc | ((t & 3) << o);
        acc = next;
        i += 1;
    }
    let dead: u64 = if data.is_dead { 1 } else { 0 };
    let r = acc | (dead << 63u64);
    assert(r == put(acc, dead, 63, 1)) by (bit_vector)
        requires r == acc | (dead << 63u64), dead <= 1;
    r
}

/// Unpacks a 64-bit state into its record.
pub fn from_state(state: u64) -> (r: Data)
    ensures
        decodes_to(state, r),
{
    let cell = state & 0xff;
    let fruit = (state >> 17u64) & 0xff;
    let mut tail: [u8; 19] = [0; 19];
    let mut i: usize = 0;
    while i < TAIL_LEN
        invariant
            i <= TAIL_LEN,
            forall|j: int| 0 <= j < i ==> #[trigger] tail[j] == field(state, (TAIL_OFFSET + 2 * j) as u64, 2),
        decreases TAIL_LEN - i,
    {
        let o = TAIL_OFFSET + (i as u64) * 2;
        let v = (state >> o) & 3;
        assert(v == field(state, o, 2) && v < 4) by (bit_vector)
            requires v == (state >> o) & 3;
        tail[i] = v as u8;
        i += 1;
    }
    let dead = (state >> 63u64) & 1;
    let dir = (state >> 8u64) & 3;
    let score = (state >> 10u64) & 0x3f;
    assert(cell == field(state, 0, 8) && fruit == field(state, 17, 8) && dead == field(state, 63, 1)
        && dir == field(state, 8, 2) && score == field(state, 10, 6) && cell < 256 && fruit < 256
        && dir < 4 && score < 64) by (bit_vector)
        requires
            cell == state & 0xff,
            fruit == (state >> 17u64) & 0xff,
            dead == (state >> 63u64) & 1,
            dir == (state >> 8u64) & 3,
            score == (state >> 10u64) & 0x3f,
    ;
    Data {
        pos: [(cell as u32) % CELLS, (cell as u32) / CELLS],
        dir: dir as u32,
        score: score as u8,
        fruit_pos: [(fruit as u32) % CELLS, (fruit as u32) / CELLS],
        tail,
        is_dead: dead == 1,
    }
}

/// The head fields read back as stored, and leave the trailing-segment slots
/// and the dead flag clear.
proof fn lemma_head_fields(p: u64, dd: u64, s: u64, f: u64)
    requires
        p < 256,
        dd < 4,
        s < 128,
        f < 256,
    ensures
        field(head_fields(p, dd, s, f), 0, 8) == p,
        field(head_fields(p, dd, s, f), 8, 2) == dd,
        field(head_fields(p, dd, s, f), 10, 6) == s % 64,
        field(head_fields(p, dd, s, f), 16, 1) == s / 64,
        field(head_fields(p, dd, s, f), 17, 8) == f,
        field(head_fields(p, dd, s, f), 63, 1) == 0,
        forall|i: int| 0 <= i < TAIL_LEN ==> #[trigger] field(head_fields(p, dd, s, f), (TAIL_OFFSET + 2 * i) as u64, 2) == 0,
{
    let h = head_fields(p, dd, s, f);
    assert(field(h, 0, 8) == p && field(h, 8, 2) == dd && field(h, 10, 6) == s % 64 && field(h, 17, 8) == f
        && field(h, 16, 1) == s / 64 && field(h, 63, 1) == 0) by (bit_vector)
        requires
            h == put(put(put(put(0, p, 0, 8), dd, 8, 2), s, 10, 7), f, 17, 8),
            p < 256,
            f < 256,
            dd < 4,
            s < 128,
    ;
    assert forall|i: int| 0 <= i < TAIL_LEN implies #[trigger] field(h, (TAIL_OFFSET + 2 * i) as u64, 2) == 0 by {
        let o = (TAIL_OFFSET + 2 * i) as u64;
        assert(field(h, o, 2) == 0) by (bit_vector)
            requires
                h == put(put(put(put(0, p, 0, 8), dd, 8, 2), s, 10, 7), f, 17, 8),
                p < 256,
                f < 256,
                s < 128,
                25 <= o <= 62,
        ;
    }
}

/// Inserting the first `n` trailing-segment codes fills exactly those slots.
proof fn lemma_tail_fields(p: u64, dd: u64, s: u64, f: u64, t: Seq<u8>, n: nat)
    requires
        p < 256,
        dd < 4,
        s < 128,
        f < 256,
        t.len() == TAIL_LEN,
        forall|i: int| 0 <= i < TAIL_LEN ==> #[trigger] t[i] < 4,
        n <= TAIL_LEN,
    ensures
        field(with_tail(head_fields(p, dd, s, f), t, n), 0, 8) == p,
        field(with_tail(head_fields(p, dd, s, f), t, n), 8, 2) == dd,
        field(with_tail(head_fields(p, dd, s, f), t, n), 10, 6) == s % 64,
        field(with_tail(head_fields(p, dd, s, f), t, n), 16, 1) == s / 64,
        field(with_tail(head_fields(p, dd, s, f), t, n), 17, 8) == f,
        field(with_tail(head_fields(p, dd, s, f), t, n), 63, 1) == 0,
        forall|i: int| 0 <= i < TAIL_LEN ==> #[trigger] field(with_tail(head_fields(p, dd, s, f), t, n), (TAIL_OFFSET + 2 * i) as u64, 2)
            == if i < n { t[i] as u64 } else { 0 },
    decreases n,
{
    lemma_head_fields(p, dd, s, f);
    if n > 0 {
        let m = (n - 1) as nat;
        lemma_tail_fields(p, dd, s, f, t, m);
        let prev = with_tail(head_fields(p, dd, s, f), t, m);
        let o = (TAIL_OFFSET + 2 * m) as u64;
        let v = t[m as int] as u64;
        assert(v < 4);
        lemma_put_other(prev, v, o, 2, 0, 8);
        lemma_put_other(prev, v, o, 2, 8, 2);
        lemma_put_other(prev, v, o, 2, 10, 6);
        lemma_put_other(prev, v, o, 2, 16, 1);
        lemma_put_other(prev, v, o, 2, 17, 8);
        lemma_put_other(prev, v, o, 2, 63, 1);
        lemma_put_same(prev, v, o, 2);
        assert(v & low_mask(2) == v) by (bit_vector)
            requires v < 4;
        assert forall|i: int| 0 <= i < TAIL_LEN implies #[trigger] field(with_tail(head_fields(p, dd, s, f), t, n), (TAIL_OFFSET + 2 * i) as u64, 2)
            == if i < n { t[i] as u64 } else { 0 } by {
            if i != m {
                lemma_put_other(prev, v, o, 2, (TAIL_OFFSET + 2 * i) as u64, 2);
            }
        }
    }
}

/// Every field of a packed state reads back the value it was packed from.
pub proof fn lemma_pack_fields(p: u64, dd: u64, s: u64, f: u64, t: Seq<u8>, dead: bool)
    requires
        p < 256,
        dd < 4,
        s < 128,
        f < 256,
        t.len() == TAIL_LEN,
        forall|i: int| 0 <= i < TAIL_LEN ==> #[trigger] t[i] < 4,
    ensures
        field(pack(p, dd, s, f, t, dead), 0, 8) == p,
        field(pack(p, dd, s, f, t, dead), 8, 2) == dd,
        field(pack(p, dd, s, f, t, dead), 10, 6) == s % 64,
        field(pack(p, dd, s, f, t, dead), 16, 1) == s / 64,
        field(pack(p, dd, s, f, t, dead), 17, 8) == f,
        field(pack(p, dd, s, f, t, dead), 63, 1) == if dead { 1u64 } else { 0u64 },
        forall|i: int| 0 <= i < TAIL_LEN ==> #[trigger] field(pack(p, dd, s, f, t, dead), (TAIL_OFFSET + 2 * i) as u64, 2)
            == t[i] as u64,
{
    lemma_tail_fields(p, dd, s, f, t, TAIL_LEN as nat);
    let w = with_tail(head_fields(p, dd, s, f), t, TAIL_LEN as nat);
    let bit: u64 = if dead { 1 } else { 0 };
    lemma_put_other(w, bit, 63, 1, 0, 8);
    lemma_put_other(w, bit, 63, 1, 8, 2);
    lemma_put_other(w, bit, 63, 1, 10, 6);
    lemma_put_other(w, bit, 63, 1, 16, 1);
    lemma_put_other(w, bit, 63, 1, 17, 8);
    lemma_put_same(w, bit, 63, 1);
    assert(bit & low_mask(1) == bit) by (bit_vector)
        requires bit <= 1;
    assert forall|i: int| 0 <= i < TAIL_LEN implies #[trigger] field(pack(p, dd, s, f, t, dead), (TAIL_OFFSET + 2 * i) as u64, 2)
        == t[i] as u64 by {
        lemma_put_other(w, bit, 63, 1, (TAIL_OFFSET + 2 * i) as u64, 2);
    }
}

/// Decoding the packed form of a valid record gives the record back.
pub proof fn lemma_decode_encode(s: Data, d: Data)
    requires
        valid(s),
        decodes_to(encode(s), d),
    ensures
        d == s,
{
    lemma_pack_fields(cell_index(s.pos), s.dir as u64, s.score as u64, cell_index(s.fruit_pos), s.tail@, s.is_dead);
    assert forall|i: int| 0 <= i < TAIL_LEN implies d.tail[i] == s.tail[i] by {
        assert(field(encode(s), (TAIL_OFFSET + 2 * i) as u64, 2) == s.tail@[i] as u64);
    }
    assert(d.tail =~= s.tail);
    assert(d.pos =~= s.pos);
    assert(d.fruit_pos =~= s.fruit_pos);
}

/// The low `TAIL_OFFSET + 2 * n` bits of `x` are its head fields with the
/// first `n` trailing-segment codes inserted.
proof fn lemma_low_bits(x: u64, d: Data, n: nat)
    requires
        field(x, 16, 1) == 0,
        field(x, 0, 8) < 64,
        field(x, 17, 8) < 64,
        decodes_to(x, d),
        n <= TAIL_LEN,
    ensures
        with_tail(head_bits(d), d.tail@, n) == x & low_mask((TAIL_OFFSET + 2 * n) as u64),
    decreases n,
{
    if n == 0 {
        let c = field(x, 0, 8);
        let f = field(x, 17, 8);
        assert(cell_index(d.pos) == c);
        assert(cell_index(d.fruit_pos) == f);
        let dd = d.dir as u64;
        let s = d.score as u64;
        assert(x & low_mask(25) == put(put(put(put(0, c, 0, 8), dd, 8, 2), s, 10, 7), f, 17, 8)) by (bit_vector)
            requires
                c == field(x, 0, 8),
                f == field(x, 17, 8),
                dd == field(x, 8, 2),
                s == field(x, 10, 6),
                field(x, 16, 1) == 0,
        ;
    } else {
        let m = (n - 1) as nat;
        lemma_low_bits(x, d, m);
        lemma_low_extend(x, (TAIL_OFFSET + 2 * m) as u64, 2);
        assert(d.tail@[m as int] as u64 == field(x, (TAIL_OFFSET + 2 * m) as u64, 2));
    }
}

/// Every packed value whose unused bit is clear and whose cell indices lie on
/// the grid decodes to a valid record that packs back to the same value.
pub proof fn lemma_encode_decode(x: u64, d: Data)
    requires
        field(x, 16, 1) == 0,
        field(x, 0, 8) < 64,
        field(x, 17, 8) < 64,
        decodes_to(x, d),
    ensures
        valid(d),
        encode(d) == x,
{
    assert forall|i: int| 0 <= i < TAIL_LEN implies #[trigger] d.tail[i] < 4 by {
        let o = (TAIL_OFFSET + 2 * i) as u64;
        let v = field(x, o, 2);
        assert(v < 4) by (bit_vector)
            requires v == field(x, o, 2);
    }
    assert(field(x, 8, 2) < 4 && field(x, 10, 6) < 64) by (bit_vector);
    lemma_low_bits(x, d, TAIL_LEN as nat);
    let dead: u64 = if d.is_dead { 1 } else { 0 };
    assert(field(x, 63, 1) <= 1) by (bit_vector);
    assert(x == put(x & low_mask(63), field(x, 63, 1), 63, 1)) by (bit_vector);
}

} // verus!
