use bitwise_challenge::game::{frame, replay, Game};
use bitwise_challenge::input::{Input, Key};
use bitwise_challenge::render::Output;
use bitwise_challenge::snake::{Snake, INIT_STATE};
use bitwise_challenge::state::{from_state, make_state, Data};

fn idle(tick: u64) -> Input {
    Input::new(tick, false, false, false, false, false)
}

fn step(state: u64, input: &Input) -> (u64, Output) {
    let mut out = Output::new(Snake::width(), Snake::height());
    let next = Snake::tick(state, input, &mut out);
    (next, out)
}

fn state_of(pos: [u32; 2], dir: u32, score: u8, fruit_pos: [u32; 2], tail: [u8; 19], is_dead: bool) -> u64 {
    make_state(Data { pos, dir, score, fruit_pos, tail, is_dead })
}

#[test]
fn init_is_fixed() {
    assert_eq!(Snake::init(), INIT_STATE);
    assert_eq!(Snake::init(), 0x3a_0024);
    let d = from_state(Snake::init());
    assert_eq!(d.pos, [4, 4]);
    assert_eq!(d.fruit_pos, [5, 3]);
    assert_eq!(d.dir, 0);
    assert_eq!(d.score, 0);
    assert!(!d.is_dead);
    assert_eq!(Snake::width(), 256);
    assert_eq!(Snake::height(), 320);
    assert_eq!(Snake::name(), "Snake");
}

#[test]
fn input_reports_keys() {
    let i = Input::new(42, true, false, false, true, false);
    assert_eq!(i.tick(), 42);
    assert!(i.is_key_down(Key::Up));
    assert!(!i.is_key_down(Key::Down));
    assert!(!i.is_key_down(Key::Left));
    assert!(i.is_key_down(Key::Right));
    assert!(!i.is_key_down(Key::Escape));
}

#[test]
fn replay_is_deterministic() {
    let mut inputs = Vec::new();
    for t in 0..200u64 {
        inputs.push(Input::new(t, t % 37 == 5, t % 41 == 9, t % 23 == 3, t % 29 == 7, false));
    }
    let a = replay::<Snake>(&inputs);
    let b = replay::<Snake>(&inputs);
    assert_eq!(a.len(), 200);
    assert_eq!(a, b);
    let mut state = Snake::init();
    for (k, input) in inputs.iter().enumerate() {
        let (next, buf) = frame::<Snake>(state, input);
        let (again, buf2) = frame::<Snake>(state, input);
        assert_eq!(next, again);
        assert_eq!(buf, buf2);
        assert_eq!(next, a[k]);
        state = next;
    }
}

#[test]
fn reversal_is_rejected() {
    let left = Input::new(1, false, false, true, false, false);
    let (next, _) = step(INIT_STATE, &left);
    assert_eq!(from_state(next).dir, 0);
    let up = Input::new(1, true, false, false, false, false);
    let (next, _) = step(INIT_STATE, &up);
    assert_eq!(from_state(next).dir, 1);
}

#[test]
fn head_moves_only_every_fifteen_ticks() {
    let (mut state, _) = step(INIT_STATE, &idle(0));
    assert_eq!(from_state(state).pos, [5, 4]);
    for t in 1..15u64 {
        let keys = Input::new(t, t % 2 == 0, t % 2 == 1, false, false, false);
        state = step(state, &keys).0;
        assert_eq!(from_state(state).pos, [5, 4], "tick {}", t);
    }
    let d = from_state(state);
    let (next, _) = step(state, &idle(15));
    let moved = from_state(next);
    assert_ne!(moved.pos, d.pos);
}

#[test]
fn eating_places_new_fruit_and_scores() {
    let start = state_of([4, 4], 0, 0, [5, 4], [0; 19], false);
    let d = from_state(step(start, &idle(0)).0);
    assert_eq!(d.pos, [5, 4]);
    assert_eq!(d.fruit_pos, [5, 4]);
    assert_eq!(d.score, 1);
    assert_eq!(d.tail[0], 2);
    let start = state_of([4, 4], 3, 0, [4, 5], [0; 19], false);
    let d = from_state(step(start, &idle(30)).0);
    assert_eq!(d.pos, [4, 5]);
    assert_eq!(d.fruit_pos, [4, 1]);
    assert_eq!(d.score, 1);
    assert_eq!(d.tail[0], 1);
}

#[test]
fn head_wraps_at_edges() {
    let d = from_state(step(state_of([7, 0], 0, 0, [0, 0], [0; 19], false), &idle(0)).0);
    assert_eq!(d.pos, [0, 0]);
    let d = from_state(step(state_of([7, 0], 1, 0, [0, 0], [0; 19], false), &idle(0)).0);
    assert_eq!(d.pos, [7, 7]);
}

#[test]
fn self_collision_kills() {
    let mut tail = [0u8; 19];
    tail[0] = 0;
    tail[1] = 1;
    tail[2] = 2;
    tail[3] = 3;
    let start = state_of([4, 4], 0, 4, [0, 0], tail, false);
    let d = from_state(step(start, &idle(1)).0);
    assert!(d.is_dead);
    assert_eq!(d.score, 1);
    let short = state_of([4, 4], 0, 3, [0, 0], tail, false);
    let d = from_state(step(short, &idle(1)).0);
    assert!(!d.is_dead);
    assert_eq!(d.score, 3);
}

#[test]
fn death_counts_up_to_restart() {
    let dead = state_of([2, 2], 1, 60, [0, 0], [1; 19], true);
    let (a, _) = step(dead, &idle(15));
    assert_eq!(from_state(a).score, 61);
    assert!(from_state(a).is_dead);
    assert_eq!(from_state(a).pos, [2, 2]);
    let (b, _) = step(a, &Input::new(16, false, false, false, true, false));
    assert_eq!(from_state(b).score, 62);
    let (c, _) = step(b, &idle(17));
    assert_eq!(c, INIT_STATE);
}

#[test]
fn tick_draws_body_fruit_and_strip() {
    let (_, out) = step(INIT_STATE, &idle(1));
    let mut buf = vec![0u32; 256 * 320];
    out.write_to(&mut buf);
    let gray = 0xff64_6464;
    assert_eq!(buf[10 * 256 + 10], gray);
    assert_eq!(buf[0], 0);
    let head = (64 + 4 * 32 + 5) * 256 + 4 * 32 + 5;
    assert_eq!(buf[head], 0xffff_0000);
    let fruit = (64 + 3 * 32 + 5) * 256 + 5 * 32 + 5;
    assert_eq!(buf[fruit], 0xff00_ff00);
}

#[test]
fn dead_strip_flashes() {
    let dead = state_of([2, 2], 1, 10, [0, 0], [0; 19], true);
    let (_, bright) = frame::<Snake>(dead, &idle(3));
    let (_, dark) = frame::<Snake>(dead, &idle(12));
    assert_eq!(bright[10 * 256 + 10], 0xffff_0000);
    assert_eq!(dark[10 * 256 + 10], 0xff00_0000);
}
