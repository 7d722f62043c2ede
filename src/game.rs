use vstd::prelude::*;
use crate::input::Input;
use crate::render::{Output, Shape, rasterized};

verus! {

/// A game whose whole persistent state is one packed `u64`, advanced once per
/// tick by a pure transition.
pub trait Game {
    /// The state that follows `prev` on the snapshot `input`.
    spec fn next(prev: u64, input: Input) -> u64;

    /// The drawing commands issued while advancing `prev` on `input`.
    spec fn drawn(prev: u64, input: Input) -> Seq<Shape>;

    spec fn spec_width() -> nat;

    spec fn spec_height() -> nat;

    /// The window title.
    fn name() -> &'static str;

    fn width() -> (r: usize)
        ensures
            r == Self::spec_width(),
            r <= i32::MAX,
    ;

    fn height() -> (r: usize)
        ensures
            r == Self::spec_height(),
            r <= i32::MAX,
    ;

    /// The fixed starting state.
    spec fn start() -> u64;

    fn init() -> (r: u64)
        ensures
            r == Self::start(),
    ;

    /// Advances `prev` by one tick and appends this tick's drawing commands.
    fn tick(prev: u64, input: &Input, output: &mut Output) -> (r: u64)
        ensures
            r == Self::next(prev, *input),
            final(output).spec_width() == old(output).spec_width(),
            final(output).spec_height() == old(output).spec_height(),
            final(output).spec_shapes() == old(output).spec_shapes() + Self::drawn(prev, *input),
    ;
}

/// The pixels of a blank `width` x `height` buffer.
pub open spec fn blank(width: nat, height: nat) -> Seq<u32> {
    Seq::new(width * height, |i: int| 0u32)
}

/// One iteration of the driver loop, without its platform side: advances
/// `state` on `input` and rasterizes the tick's commands into a fresh buffer.
pub fn frame<G: Game>(state: u64, input: &Input) -> (r: (u64, Vec<u32>))
    requires
        G::spec_width() * G::spec_height() <= usize::MAX,
    ensures
        r.0 == G::next(state, *input),
        r.1@ == rasterized(
            G::drawn(state, *input),
            blank(G::spec_width(), G::spec_height()),
            G::spec_width() as int,
            G::spec_height() as int,
        ),
{
    let width = G::width();
    let height = G::height();
    let mut buf: Vec<u32> = vec![0u32; width * height];
    assert(buf@ =~= blank(G::spec_width(), G::spec_height()));
    let mut output = Output::new(width, height);
    let next = G::tick(state, input, &mut output);
    assert(output.spec_shapes() =~= G::drawn(state, *input));
    output.write_to(&mut buf);
    (next, buf)
}

/// The states after each tick when `inputs` are fed one per tick from `x`.
pub open spec fn states<G: Game>(x: u64, inputs: Seq<Input>) -> Seq<u64>
    decreases inputs.len(),
{
    if inputs.len() == 0 {
        Seq::empty()
    } else {
        seq![G::next(x, inputs[0])] + states::<G>(G::next(x, inputs[0]), inputs.drop_first())
    }
}

/// The drawing commands of each tick when `inputs` are fed one per tick from `x`.
pub open spec fn drawings<G: Game>(x: u64, inputs: Seq<Input>) -> Seq<Seq<Shape>>
    decreases inputs.len(),
{
    if inputs.len() == 0 {
        Seq::empty()
    } else {
        seq![G::drawn(x, inputs[0])] + drawings::<G>(G::next(x, inputs[0]), inputs.drop_first())
    }
}

/// Two runs from the start state on the same snapshots pass through the same
/// states and draw the same commands.
pub proof fn lemma_deterministic<G: Game>(a: Seq<Input>, b: Seq<Input>)
    requires
        a == b,
    ensures
        states::<G>(G::start(), a) == states::<G>(G::start(), b),
        drawings::<G>(G::start(), a) == drawings::<G>(G::start(), b),
{
}

/// Runs the game from its start state over `inputs`, one tick each, and
/// returns the state after every tick.
pub fn replay<G: Game>(inputs: &Vec<Input>) -> (r: Vec<u64>)
    ensures
        r@ == states::<G>(G::start(), inputs@),
{
    let mut out: Vec<u64> = Vec::new();
    let mut state = G::init();
    let mut k: usize = 0;
    assert(inputs@.skip(0) =~= inputs@);
    assert(out@ + states::<G>(state, inputs@.skip(0)) =~= states::<G>(G::start(), inputs@));
    while k < inputs.len()
        invariant
            k <= inputs@.len(),
            out@ + states::<G>(state, inputs@.skip(k as int)) == states::<G>(G::start(), inputs@),
        decreases inputs@.len() - k,
    {
        let mut output = Output::new(0, 0);
        let next = G::tick(state, &inputs[k], &mut output);
        assert(inputs@.skip(k as int).drop_first() =~= inputs@.skip(k as int + 1));
        assert(out@.push(next) + states::<G>(next, inputs@.skip(k as int + 1)) =~= out@ + states::<G>(
            state,
            inputs@.skip(k as int),
        ));
        out.push(next);
        state = next;
        k += 1;
    }
    assert(inputs@.skip(k as int) =~= Seq::<Input>::empty());
    assert(out@ + Seq::<u64>::empty() =~= out@);
    out
}

} // verus!
