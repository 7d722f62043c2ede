use vstd::prelude::*;
use crate::bits::{field, put};
use crate::game::Game;
use crate::input::{Input, Key};
use crate::render::{Output, Shape};
use crate::state::{
    Data, CELLS, TAIL_LEN, decodes_to, TAIL_OFFSET, pack, with_tail, head_fields, make_state, from_state,
    lemma_pack_fields,
};

verus! {

/// Side of one grid cell, in pixels.
pub const CELL: u32 = 32;

/// Height of the score strip above the grid, in pixels.
pub const SCORE_H: u32 = 64;

/// The packed start state: head at `[4, 4]` facing right, fruit at `[5, 3]`,
/// score 0, empty trail, alive.
pub const INIT_STATE: u64 = 0x3a_0024;

/// The Snake game on an 8 x 8 grid.
pub struct Snake;

/// A grid cell as `(column, row)`.
pub type Cell = (u32, u32);

pub open spec fn cell_of(c: Cell) -> u64 {
    (c.1 * 8 + c.0) as u64
}

pub open spec fn pos_of(x: u64) -> Cell {
    ((field(x, 0, 8) % 8) as u32, (field(x, 0, 8) / 8) as u32)
}

pub open spec fn dir_of(x: u64) -> u32 {
    field(x, 8, 2) as u32
}

pub open spec fn score_of(x: u64) -> nat {
    field(x, 10, 6) as nat
}

pub open spec fn fruit_of(x: u64) -> Cell {
    ((field(x, 17, 8) % 8) as u32, (field(x, 17, 8) / 8) as u32)
}

pub open spec fn tail_of(x: u64) -> Seq<u8> {
    Seq::new(TAIL_LEN as nat, |i: int| field(x, (TAIL_OFFSET + 2 * i) as u64, 2) as u8)
}

pub open spec fn dead_of(x: u64) -> bool {
    field(x, 63, 1) == 1
}

/// The neighbouring cell in direction `dir`, wrapping at the grid edges.
pub open spec fn step_cell(c: Cell, dir: u32) -> Cell {
    if dir == 0 {
        (((c.0 + 1) % 8) as u32, c.1)
    } else if dir == 1 {
        (c.0, ((c.1 + 7) % 8) as u32)
    } else if dir == 2 {
        (((c.0 + 7) % 8) as u32, c.1)
    } else {
        (c.0, ((c.1 + 1) % 8) as u32)
    }
}

/// The fixed mixing function that places new fruit.
pub open spec fn mix(seed: u64) -> u64 {
    let m = ((seed as nat * 182099923) % 0x1_0000_0000_0000_0000) as u64;
    let x = ((((m ^ seed) as nat + 8301719803) % 0x1_0000_0000_0000_0000) as u64) ^ seed;
    x ^ seed ^ (x / 21273)
}

/// Whether the head advances on this tick.
pub open spec fn moves(x: u64, input: Input) -> bool {
    input.spec_tick() % 15 == 0 && !dead_of(x)
}

pub open spec fn head_after(x: u64, input: Input) -> Cell {
    if moves(x, input) {
        step_cell(pos_of(x), dir_of(x))
    } else {
        pos_of(x)
    }
}

pub open spec fn eats(x: u64, input: Input) -> bool {
    moves(x, input) && head_after(x, input) == fruit_of(x)
}

pub open spec fn fruit_after(x: u64, input: Input) -> Cell {
    if eats(x, input) {
        ((mix(input.spec_tick()) % 8) as u32, (mix(mix(input.spec_tick())) % 8) as u32)
    } else {
        fruit_of(x)
    }
}

pub open spec fn score_after_move(x: u64, input: Input) -> nat {
    score_of(x) + if eats(x, input) { 1nat } else { 0nat }
}

/// The trail after a move: every code shifts back one place and the front
/// code points from the new head back to the cell it left.
pub open spec fn tail_after(x: u64, input: Input) -> Seq<u8> {
    if moves(x, input) {
        Seq::new(
            TAIL_LEN as nat,
            |i: int| if i == 0 { ((dir_of(x) + 2) % 4) as u8 } else { tail_of(x)[i - 1] },
        )
    } else {
        tail_of(x)
    }
}

/// The direction the held keys ask for, `d` when none is held.
pub open spec fn chosen_dir(d: u32, input: Input) -> u32 {
    if input.spec_down(Key::Right) {
        0
    } else if input.spec_down(Key::Left) {
        2
    } else if input.spec_down(Key::Up) {
        1
    } else if input.spec_down(Key::Down) {
        3
    } else {
        d
    }
}

pub open spec fn dir_after(x: u64, input: Input) -> u32 {
    if chosen_dir(dir_of(x), input) != (dir_of(x) + 2) % 4 {
        chosen_dir(dir_of(x), input)
    } else {
        dir_of(x)
    }
}

/// The cell reached from `c` by following the first `n` codes of `t`.
pub open spec fn segment(c: Cell, t: Seq<u8>, n: nat) -> Cell
    decreases n,
{
    if n == 0 {
        c
    } else {
        step_cell(segment(c, t, (n - 1) as nat), t[n - 1] as u32)
    }
}

/// Whether one of the segments `1 .. n` lies on `c` itself.
pub open spec fn revisits(c: Cell, t: Seq<u8>, n: nat) -> bool
    decreases n,
{
    if n <= 1 {
        false
    } else {
        revisits(c, t, (n - 1) as nat) || segment(c, t, (n - 1) as nat) == c
    }
}

/// How many body segments are walked: one per point of score plus the head,
/// at most one per trail code plus the head.
pub open spec fn walk_len(x: u64, input: Input) -> nat {
    if score_after_move(x, input) < TAIL_LEN {
        score_after_move(x, input) + 1
    } else {
        TAIL_LEN as nat + 1
    }
}

pub open spec fn self_hit(x: u64, input: Input) -> bool {
    !dead_of(x) && revisits(head_after(x, input), tail_after(x, input), walk_len(x, input))
}

pub open spec fn dead_after(x: u64, input: Input) -> bool {
    dead_of(x) || self_hit(x, input)
}

/// The score written back: reset on a collision, and counted up by one on
/// every tick spent dead.
pub open spec fn final_score(x: u64, input: Input) -> nat {
    (if self_hit(x, input) { 0nat } else { score_after_move(x, input) }) + if dead_after(x, input) {
        1nat
    } else {
        0nat
    }
}

/// Whether this tick ends the death animation and restarts the game.
pub open spec fn restarts(x: u64, input: Input) -> bool {
    dead_after(x, input) && final_score(x, input) == 63
}

/// The packed state after one tick.
pub open spec fn next_state(x: u64, input: Input) -> u64 {
    if restarts(x, input) {
        INIT_STATE
    } else {
        pack(
            cell_of(head_after(x, input)),
            dir_after(x, input) as u64,
            final_score(x, input) as u64,
            cell_of(fruit_after(x, input)),
            tail_after(x, input),
            dead_after(x, input),
        )
    }
}

pub open spec fn cell_rect(c: Cell, color: [u8; 3]) -> Shape {
    Shape::Rect { x: (c.0 * CELL) as i32, y: (c.1 * CELL + SCORE_H) as i32, w: CELL, h: CELL, color }
}

/// The colour of body segment `i`, shading from blue towards green.
pub open spec fn body_color(i: nat) -> [u8; 3] {
    [0u8, (i * 10) as u8, (255 - i * 10) as u8]
}

/// The rectangles of the first `n` body segments.
pub open spec fn body_shapes(c: Cell, t: Seq<u8>, n: nat) -> Seq<Shape> {
    Seq::new(n, |i: int| cell_rect(segment(c, t, i as nat), body_color(i as nat)))
}

/// The score strip: flashing while dead, a progress bar while alive.
pub open spec fn strip_shapes(x: u64, input: Input) -> Seq<Shape> {
    if dead_after(x, input) {
        seq![Shape::Rect {
            x: 0,
            y: 0,
            w: 256u32,
            h: SCORE_H,
            color: [0u8, 0u8, if input.spec_tick() % 16 < 8 { 255u8 } else { 0u8 }],
        }]
    } else {
        seq![
            Shape::Rect { x: 0, y: 0, w: 256u32, h: SCORE_H, color: [100u8, 100u8, 100u8] },
            Shape::Rect {
                x: 0,
                y: 0,
                w: (score_after_move(x, input) * 5) as u32,
                h: SCORE_H,
                color: [0u8, 255u8, 0u8],
            },
        ]
    }
}

/// Everything drawn on one tick: the body (while alive), the fruit, the strip.
pub open spec fn frame_shapes(x: u64, input: Input) -> Seq<Shape> {
    (if dead_of(x) {
        Seq::empty()
    } else {
        body_shapes(head_after(x, input), tail_after(x, input), walk_len(x, input))
    }) + seq![cell_rect(fruit_after(x, input), [0u8, 255u8, 0u8])] + strip_shapes(x, input)
}

fn rand(seed: u64) -> (r: u64)
    ensures
        r == mix(seed),
{
    let x = (seed.wrapping_mul(182099923) ^ seed).wrapping_add(8301719803) ^ seed;
    x ^ seed ^ x / 21273
}

fn move_dir(pos: [u32; 2], dir: u32) -> (r: [u32; 2])
    requires
        pos[0] < 32,
        pos[1] < 32,
        dir < 4,
    ensures
        (r[0], r[1]) == step_cell((pos[0], pos[1]), dir),
{
    let mut p = pos;
    if dir == 0 {
        p[0] = (p[0] + 1) % CELLS;
    } else if dir == 1 {
        p[1] = (p[1] + CELLS - 1) % CELLS;
    } else if dir == 2 {
        p[0] = (p[0] + CELLS - 1) % CELLS;
    } else {
        p[1] = (p[1] + 1) % CELLS;
    }
    p
}

proof fn lemma_zero_tail(base: u64, t: Seq<u8>, n: nat)
    requires
        n <= TAIL_LEN,
        forall|i: int| 0 <= i < n ==> #[trigger] t[i] == 0,
    ensures
        with_tail(base, t, n) == base,
    decreases n,
{
    if n > 0 {
        let m = (n - 1) as nat;
        lemma_zero_tail(base, t, m);
        let o = (TAIL_OFFSET + 2 * m) as u64;
        assert(t[m as int] == 0);
        assert(put(base, 0, o, 2) == base) by (bit_vector);
    }
}

impl Game for Snake {
    open spec fn next(prev: u64, input: Input) -> u64 {
        next_state(prev, input)
    }

    open spec fn drawn(prev: u64, input: Input) -> Seq<Shape> {
        frame_shapes(prev, input)
    }

    open spec fn spec_width() -> nat {
        256
    }

    open spec fn spec_height() -> nat {
        320
    }

    open spec fn start() -> u64 {
        INIT_STATE
    }

    fn name() -> &'static str {
        "Snake"
    }

    fn width() -> (r: usize) {
        (CELLS * CELL) as usize
    }

    fn height() -> (r: usize) {
        (CELLS * CELL + SCORE_H) as usize
    }

    fn init() -> (r: u64) {
        let data = Data {
            pos: [4, 4],
            dir: 0,
            score: 0,
            fruit_pos: [5, 3],
            tail: [0; 19],
            is_dead: false,
        };
        let r = make_state(data);
        proof {
            lemma_zero_tail(head_fields(36, 0, 0, 29), data.tail@, TAIL_LEN as nat);
            assert(put(head_fields(36, 0, 0, 29), 0, 63, 1) == 0x3a_0024u64) by (bit_vector);
        }
        r
    }

    fn tick(prev: u64, input: &Input, output: &mut Output) -> (r: u64) {
        let ghost x = prev;
        let ghost inp = *input;
        let ghost start = output.spec_shapes();
        let mut data = from_state(prev);
        let t = input.tick();
        proof {
            lemma_decoded(x, data);
        }
        move_step(&mut data, t, Ghost(x), Ghost(inp));
        let new_dir = if input.is_key_down(Key::Right) {
            0
        } else if input.is_key_down(Key::Left) {
            2
        } else if input.is_key_down(Key::Up) {
            1
        } else if input.is_key_down(Key::Down) {
            3
        } else {
            data.dir
        };
        if new_dir != (data.dir + 2) % 4 {
            data.dir = new_dir;
        }
        if !data.is_dead {
            draw_body(&mut data, output, Ghost(x), Ghost(inp));
        }
        assert(data.is_dead == dead_after(x, inp));
        output.rect(
            (data.fruit_pos[0] * CELL) as i32,
            (data.fruit_pos[1] * CELL + SCORE_H) as i32,
            CELL,
            CELL,
            [0, 255, 0],
        );
        if data.is_dead {
            output.rect(0, 0, CELLS * CELL, SCORE_H, [0, 0, if t % 16 < 8 { 255 } else { 0 }]);
            data.score = data.score + 1;
            if data.score == 63 {
                assert(output.spec_shapes() =~= start + frame_shapes(x, inp));
                return Self::init();
            }
        } else {
            output.rect(0, 0, CELLS * CELL, SCORE_H, [100, 100, 100]);
            output.rect(0, 0, data.score as u32 * 5, SCORE_H, [0, 255, 0]);
        }
        assert(output.spec_shapes() =~= start + frame_shapes(x, inp));
        make_state(data)
    }
}

/// The ranges that a freshly decoded record lies in.
proof fn lemma_decoded(x: u64, d: Data)
    requires
        decodes_to(x, d),
    ensures
        d.pos[0] < 8,
        d.pos[1] < 32,
        d.fruit_pos[0] < 8,
        d.fruit_pos[1] < 32,
        d.dir < 4,
        d.score < 64,
        d.tail@ == tail_of(x),
        forall|i: int| 0 <= i < TAIL_LEN ==> #[trigger] d.tail[i] < 4,
{
    assert forall|i: int| 0 <= i < TAIL_LEN implies #[trigger] d.tail[i] < 4 by {
        let o = (TAIL_OFFSET + 2 * i) as u64;
        assert(field(x, o, 2) < 4) by (bit_vector);
    }
    assert(d.tail@ =~= tail_of(x));
    assert(field(x, 0, 8) < 256 && field(x, 10, 6) < 64 && field(x, 17, 8) < 256 && field(x, 8, 2) < 4)
        by (bit_vector);
}

/// The fields of `d` as they stand once the tick's move is done.
pub open spec fn after_move(d: Data, x: u64, input: Input) -> bool {
    &&& (d.pos[0], d.pos[1]) == head_after(x, input)
    &&& (d.fruit_pos[0], d.fruit_pos[1]) == fruit_after(x, input)
    &&& d.score == score_after_move(x, input)
    &&& d.tail@ == tail_after(x, input)
    &&& d.pos[0] < 8
    &&& d.pos[1] < 32
    &&& d.fruit_pos[0] < 8
    &&& d.fruit_pos[1] < 32
    &&& forall|i: int| 0 <= i < TAIL_LEN ==> #[trigger] d.tail[i] < 4
}

/// On a movement tick of a live snake: advances the head, eats a fruit it
/// lands on, and records the move at the front of the trail.
fn move_step(data: &mut Data, t: u64, Ghost(x): Ghost<u64>, Ghost(inp): Ghost<Input>)
    requires
        decodes_to(x, *old(data)),
        t == inp.spec_tick(),
    ensures
        after_move(*final(data), x, inp),
        final(data).dir == old(data).dir,
        final(data).is_dead == old(data).is_dead,
{
    proof {
        lemma_decoded(x, *data);
    }
    if t % 15 == 0 && !data.is_dead {
        data.pos = move_dir(data.pos, data.dir);
        if data.pos[0] == data.fruit_pos[0] && data.pos[1] == data.fruit_pos[1] {
            let fx = rand(t);
            let fy = rand(fx);
            data.fruit_pos = [(fx % 8) as u32, (fy % 8) as u32];
            data.score = data.score + 1;
        }
        let mut tail = data.tail;
        let ghost before = tail@;
        let mut i: usize = TAIL_LEN - 1;
        while i > 0
            invariant
                i < TAIL_LEN,
                tail@.len() == TAIL_LEN,
                forall|j: int| 0 <= j <= i ==> #[trigger] tail@[j] == before[j],
                forall|j: int| i < j < TAIL_LEN ==> #[trigger] tail@[j] == before[j - 1],
            decreases i,
        {
            tail[i] = tail[i - 1];
            i -= 1;
        }
        tail[0] = ((data.dir as u8) + 2) % 4;
        data.tail = tail;
        assert(data.tail@ =~= tail_after(x, inp));
    }
}

/// Draws the body of a live snake segment by segment, and marks it dead,
/// with its score reset, when a later segment lies on the head.
fn draw_body(data: &mut Data, output: &mut Output, Ghost(x): Ghost<u64>, Ghost(inp): Ghost<Input>)
    requires
        after_move(*old(data), x, inp),
        !old(data).is_dead,
        !dead_of(x),
    ensures
        after_move(
            Data { is_dead: final(data).is_dead, score: old(data).score, ..*final(data) },
            x,
            inp,
        ),
        final(data).dir == old(data).dir,
        final(data).is_dead == self_hit(x, inp),
        final(data).score == if final(data).is_dead { 0 } else { old(data).score },
        final(output).spec_width() == old(output).spec_width(),
        final(output).spec_height() == old(output).spec_height(),
        final(output).spec_shapes() == old(output).spec_shapes() + body_shapes(
            head_after(x, inp),
            tail_after(x, inp),
            walk_len(x, inp),
        ),
{
    let ghost start = output.spec_shapes();
    let ghost score = data.score;
    let count: u8 = if data.score < 19 { data.score + 1 } else { 20 };
    let ghost head = head_after(x, inp);
    let ghost trail = tail_after(x, inp);
    let mut seg = data.pos;
    let mut i: u8 = 0;
    assert(body_shapes(head, trail, 0) =~= Seq::<Shape>::empty());
    while i < count
        invariant
            count == walk_len(x, inp),
            count <= 20,
            i <= count,
            after_move(Data { is_dead: data.is_dead, score: score, ..*data }, x, inp),
            data.dir == old(data).dir,
            head == (data.pos[0], data.pos[1]),
            trail == data.tail@,
            i < count ==> (seg[0], seg[1]) == segment(head, trail, i as nat),
            seg[0] < 8,
            seg[1] < 32,
            data.is_dead == revisits(head, trail, i as nat),
            data.score == if data.is_dead { 0 } else { score },
            output.spec_width() == old(output).spec_width(),
            output.spec_height() == old(output).spec_height(),
            output.spec_shapes() == start + body_shapes(head, trail, i as nat),
        decreases count - i,
    {
        if i > 0 && seg[0] == data.pos[0] && seg[1] == data.pos[1] {
            data.is_dead = true;
            data.score = 0;
        }
        output.rect((seg[0] * CELL) as i32, (seg[1] * CELL + SCORE_H) as i32, CELL, CELL, [0, i * 10, 255 - i * 10]);
        assert(body_shapes(head, trail, i as nat + 1) =~= body_shapes(head, trail, i as nat).push(
            cell_rect(segment(head, trail, i as nat), body_color(i as nat)),
        ));
        if i + 1 < count {
            seg = move_dir(seg, data.tail[i as usize] as u32);
        }
        i += 1;
    }
}

/// Reading the fields of the next state back gives the values the tick
/// computed, unless the tick restarts the game.
pub proof fn lemma_next_fields(x: u64, input: Input)
    requires
        !restarts(x, input),
    ensures
        pos_of(next_state(x, input)) == head_after(x, input),
        dir_of(next_state(x, input)) == dir_after(x, input),
        score_of(next_state(x, input)) == final_score(x, input) % 64,
        fruit_of(next_state(x, input)) == fruit_after(x, input),
        tail_of(next_state(x, input)) == tail_after(x, input),
        dead_of(next_state(x, input)) == dead_after(x, input),
{
    assert(field(x, 0, 8) < 256 && field(x, 10, 6) < 64 && field(x, 17, 8) < 256 && field(x, 8, 2) < 4)
        by (bit_vector);
    assert forall|i: int| 0 <= i < TAIL_LEN implies #[trigger] tail_of(x)[i] < 4 by {
        let o = (TAIL_OFFSET + 2 * i) as u64;
        assert(field(x, o, 2) < 4) by (bit_vector);
    }
    let h = head_after(x, input);
    let f = fruit_after(x, input);
    let t = tail_after(x, input);
    assert forall|i: int| 0 <= i < TAIL_LEN implies #[trigger] t[i] < 4 by {}
    lemma_pack_fields(cell_of(h), dir_after(x, input) as u64, final_score(x, input) as u64, cell_of(f), t, dead_after(x, input));
    let n = next_state(x, input);
    assert(tail_of(n) =~= t);
}

/// A held key that points opposite to the facing direction does not turn the
/// snake around.
pub proof fn lemma_reversal_rejected(x: u64, input: Input)
    requires
        chosen_dir(dir_of(x), input) == (dir_of(x) + 2) % 4,
        !restarts(x, input),
    ensures
        dir_of(next_state(x, input)) == dir_of(x),
{
    lemma_next_fields(x, input);
}

/// Off the movement cadence the head stays in its cell, whatever the keys.
pub proof fn lemma_still_between_moves(x: u64, input: Input)
    requires
        input.spec_tick() % 15 != 0,
        !restarts(x, input),
    ensures
        pos_of(next_state(x, input)) == pos_of(x),
{
    lemma_next_fields(x, input);
}

/// A live snake whose walked body comes back onto its head dies: the next
/// state is dead, with the score restarted as the death-animation counter,
/// which has already counted this tick.
pub proof fn lemma_self_collision(x: u64, input: Input)
    requires
        !dead_of(x),
        revisits(head_after(x, input), tail_after(x, input), walk_len(x, input)),
    ensures
        dead_of(next_state(x, input)),
        score_of(next_state(x, input)) == 1,
{
    lemma_next_fields(x, input);
}

/// A run of ticks that all fall off the movement cadence leaves the head in
/// its cell, as long as the run is too short to finish a death animation.
pub proof fn lemma_still_over_run(x: u64, inputs: Seq<Input>)
    requires
        forall|k: int| 0 <= k < inputs.len() ==> #[trigger] inputs[k].spec_tick() % 15 != 0,
        if dead_of(x) {
            score_of(x) + inputs.len() < 63
        } else {
            inputs.len() <= 61
        },
    ensures
        pos_of(run(x, inputs)) == pos_of(x),
    decreases inputs.len(),
{
    if inputs.len() > 0 {
        let input = inputs[0];
        assert(input.spec_tick() % 15 != 0);
        if self_hit(x, input) {
            assert(final_score(x, input) == 1);
        }
        lemma_next_fields(x, input);
        let rest = inputs.drop_first();
        assert forall|k: int| 0 <= k < rest.len() implies #[trigger] rest[k].spec_tick() % 15 != 0 by {
            assert(rest[k] == inputs[k + 1]);
        }
        lemma_still_over_run(next_state(x, input), rest);
    }
}

/// The state reached from `x` by one tick per snapshot of `inputs`.
pub open spec fn run(x: u64, inputs: Seq<Input>) -> u64
    decreases inputs.len(),
{
    if inputs.len() == 0 {
        x
    } else {
        run(next_state(x, inputs[0]), inputs.drop_first())
    }
}

/// A dead snake with score `s` comes back to the start state, bit for bit,
/// after exactly `63 - s` more ticks, whatever the keys and tick numbers.
pub proof fn lemma_death_restart(x: u64, inputs: Seq<Input>)
    requires
        dead_of(x),
        score_of(x) < 63,
        inputs.len() == 63 - score_of(x),
    ensures
        run(x, inputs) == INIT_STATE,
    decreases inputs.len(),
{
    let input = inputs[0];
    assert(final_score(x, input) == score_of(x) + 1);
    if score_of(x) + 1 == 63 {
        assert(run(INIT_STATE, inputs.drop_first()) == INIT_STATE);
    } else {
        lemma_next_fields(x, input);
        lemma_death_restart(next_state(x, input), inputs.drop_first());
    }
}

} // verus!
