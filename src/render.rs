use vstd::prelude::*;
use vstd::arithmetic::div_mod::{lemma_fundamental_div_mod, lemma_fundamental_div_mod_converse};

verus! {

/// A primitive drawing command.
pub enum Shape {
    /// A filled rectangle whose top-left corner is at `(x, y)`.
    Rect { x: i32, y: i32, w: u32, h: u32, color: [u8; 3] },
}

/// The packed pixel value of an opaque color: red in the lowest byte, then
/// green, blue, and a full alpha byte on top.
pub open spec fn color_word(color: [u8; 3]) -> u32 {
    (color[0] as int + color[1] as int * 0x100 + color[2] as int * 0x1_0000 + 0xff00_0000) as u32
}

/// Whether the pixel `(px, py)` lies in the drawable region of a
/// `width` x `height` buffer. Row and column 0 are never drawn.
pub open spec fn drawable(px: int, py: int, width: int, height: int) -> bool {
    0 < px < width && 0 < py < height
}

/// Whether `shape` writes the pixel `(px, py)` of a `width` x `height` buffer.
pub open spec fn covers(shape: Shape, px: int, py: int, width: int, height: int) -> bool {
    match shape {
        Shape::Rect { x, y, w, h, .. } => x <= px < x + w && y <= py < y + h
            && drawable(px, py, width, height),
    }
}

pub open spec fn shape_color(shape: Shape) -> [u8; 3] {
    match shape {
        Shape::Rect { color, .. } => color,
    }
}

/// The value of pixel `(px, py)` after painting `shapes` in order over a pixel
/// that held `base`: the color of the last shape that covers it, if any.
pub open spec fn painted(shapes: Seq<Shape>, base: u32, px: int, py: int, width: int, height: int) -> u32
    decreases shapes.len(),
{
    if shapes.len() == 0 {
        base
    } else if covers(shapes.last(), px, py, width, height) {
        color_word(shape_color(shapes.last()))
    } else {
        painted(shapes.drop_last(), base, px, py, width, height)
    }
}

/// The whole buffer `before` (row-major, `width` pixels per row) after
/// painting `shapes` over it.
pub open spec fn rasterized(shapes: Seq<Shape>, before: Seq<u32>, width: int, height: int) -> Seq<u32> {
    Seq::new(
        before.len(),
        |i: int| painted(shapes, before[i], i % width, i / width, width, height),
    )
}

/// The drawing commands of one tick, in the order they were issued.
pub struct Output {
    width: usize,
    height: usize,
    shapes: Vec<Shape>,
}

impl Output {
    pub closed spec fn spec_width(&self) -> nat {
        self.width as nat
    }

    pub closed spec fn spec_height(&self) -> nat {
        self.height as nat
    }

    /// The commands issued so far.
    pub closed spec fn spec_shapes(&self) -> Seq<Shape> {
        self.shapes@
    }

    /// An empty command list for a `width` x `height` pixel buffer.
    pub fn new(width: usize, height: usize) -> (r: Output)
        ensures
            r.spec_width() == width,
            r.spec_height() == height,
            r.spec_shapes() == Seq::<Shape>::empty(),
    {
        Output { width, height, shapes: Vec::new() }
    }

    pub fn width(&self) -> (r: usize)
        ensures
            r == self.spec_width(),
    {
        self.width
    }

    pub fn height(&self) -> (r: usize)
        ensures
            r == self.spec_height(),
    {
        self.height
    }

    /// Appends a rectangle command.
    pub fn rect(&mut self, x: i32, y: i32, w: u32, h: u32, color: [u8; 3])
        ensures
            final(self).spec_width() == old(self).spec_width(),
            final(self).spec_height() == old(self).spec_height(),
            final(self).spec_shapes() == old(self).spec_shapes().push(
                Shape::Rect { x, y, w, h, color },
            ),
    {
        self.shapes.push(Shape::Rect { x, y, w, h, color });
    }

    /// Paints every command, in order, into the row-major pixel buffer `buf`.
    pub fn write_to(self, buf: &mut Vec<u32>)
        requires
            old(buf)@.len() == self.spec_width() * self.spec_height(),
            self.spec_width() <= i32::MAX,
            self.spec_height() <= i32::MAX,
        ensures
            final(buf)@ == rasterized(
                self.spec_shapes(),
                old(buf)@,
                self.spec_width() as int,
                self.spec_height() as int,
            ),
    {
        let width = self.width;
        let height = self.height;
        let shapes = self.shapes;
        let ghost before = buf@;
        let mut k: usize = 0;
        while k < shapes.len()
            invariant
                0 <= k <= shapes@.len(),
                buf@.len() == before.len(),
                before.len() == width * height,
                width <= i32::MAX,
                height <= i32::MAX,
                forall|i: int|
                    0 <= i < before.len() ==> #[trigger] buf@[i] == painted(
                        shapes@.take(k as int),
                        before[i],
                        i % (width as int),
                        i / (width as int),
                        width as int,
                        height as int,
                    ),
            decreases shapes@.len() - k,
        {
            let ghost prev = buf@;
            let shape = &shapes[k];
            match shape {
                Shape::Rect { x, y, w, h, color } => {
                    paint_rect(buf, width, height, *x, *y, *w, *h, *color);
                },
            }
            proof {
                let taken = shapes@.take(k as int + 1);
                assert(taken.drop_last() =~= shapes@.take(k as int));
                assert(taken.last() == shapes@[k as int]);
                assert forall|i: int| 0 <= i < before.len() implies #[trigger] buf@[i] == painted(
                    taken,
                    before[i],
                    i % (width as int),
                    i / (width as int),
                    width as int,
                    height as int,
                ) by {
                    assert(prev[i] == painted(
                        shapes@.take(k as int),
                        before[i],
                        i % (width as int),
                        i / (width as int),
                        width as int,
                        height as int,
                    ));
                }
            }
            k += 1;
        }
        assert(shapes@.take(shapes@.len() as int) =~= shapes@);
        assert(buf@ =~= rasterized(shapes@, before, width as int, height as int));
    }
}

/// Packs an opaque color into a pixel value.
fn pack_color(color: [u8; 3]) -> (r: u32)
    ensures
        r == color_word(color),
{
    let r: u32 = color[0] as u32 | (color[1] as u32) << 8u32 | (color[2] as u32) << 16u32 | 0xff00_0000u32;
    let c0 = color[0];
    let c1 = color[1];
    let c2 = color[2];
    assert(c0 as u32 | (c1 as u32) << 8u32 | (c2 as u32) << 16u32 | 0xff00_0000u32
        == c0 as u32 + (c1 as u32) * 0x100 + (c2 as u32) * 0x1_0000 + 0xff00_0000u32) by (bit_vector);
    r
}

/// Writes `color` to every drawable pixel of the rectangle at `(x, y)` of size `w` x `h`.
fn paint_rect(buf: &mut Vec<u32>, width: usize, height: usize, x: i32, y: i32, w: u32, h: u32, color: [u8; 3])
    requires
        old(buf)@.len() == width * height,
        width <= i32::MAX,
        height <= i32::MAX,
    ensures
        final(buf)@.len() == old(buf)@.len(),
        forall|i: int| 0 <= i < old(buf)@.len() ==> #[trigger] final(buf)@[i] == if covers(
            Shape::Rect { x, y, w, h, color },
            i % (width as int),
            i / (width as int),
            width as int,
            height as int,
        ) {
            color_word(color)
        } else {
            old(buf)@[i]
        },
{
    let ghost before = buf@;
    let ghost shape = Shape::Rect { x, y, w, h, color };
    let word = pack_color(color);
    let n = buf.len();
    let x0: i64 = if (x as i64) < 1 { 1 } else { x as i64 };
    let x1: i64 = if (x as i64) + (w as i64) < (width as i64) { (x as i64) + (w as i64) } else { width as i64 };
    let y0: i64 = if (y as i64) < 1 { 1 } else { y as i64 };
    let y1: i64 = if (y as i64) + (h as i64) < (height as i64) { (y as i64) + (h as i64) } else { height as i64 };
    if x0 >= x1 || y0 >= y1 {
        assert forall|i: int| 0 <= i < before.len() implies #[trigger] buf@[i] == before[i] && !covers(
            shape,
            i % (width as int),
            i / (width as int),
            width as int,
            height as int,
        ) by {}
        return;
    }
    assert forall|i: int| 0 <= i < before.len() implies #[trigger] buf@[i] == if covers(
        shape,
        i % (width as int),
        i / (width as int),
        width as int,
        height as int,
    ) && i / (width as int) < y0 {
        color_word(color)
    } else {
        before[i]
    } by {
        if covers(shape, i % (width as int), i / (width as int), width as int, height as int) {
            assert(i / (width as int) >= y0);
        }
    }
    let mut py: i64 = y0;
    while py < y1
        invariant
            1 <= x0 < x1 <= width,
            1 <= y0 <= py <= y1 <= height,
            x0 == if x < 1 { 1 } else { x as int },
            y0 == if y < 1 { 1 } else { y as int },
            x1 == if x + w < width { x + w } else { width as int },
            y1 == if y + h < height { y + h } else { height as int },
            buf@.len() == before.len(),
            before.len() == width * height,
            n == before.len(),
            shape == (Shape::Rect { x, y, w, h, color }),
            word == color_word(color),
            forall|i: int| 0 <= i < before.len() ==> #[trigger] buf@[i] == if covers(
                shape,
                i % (width as int),
                i / (width as int),
                width as int,
                height as int,
            ) && i / (width as int) < py {
                color_word(color)
            } else {
                before[i]
            },
        decreases y1 - py,
    {
        assert forall|i: int| 0 <= i < before.len() implies #[trigger] buf@[i] == if covers(
            shape,
            i % (width as int),
            i / (width as int),
            width as int,
            height as int,
        ) && (i / (width as int) < py || (i / (width as int) == py && i % (width as int) < x0)) {
            color_word(color)
        } else {
            before[i]
        } by {
            if covers(shape, i % (width as int), i / (width as int), width as int, height as int) {
                assert(i % (width as int) >= x0);
            }
        }
        let mut px: i64 = x0;
        while px < x1
            invariant
                1 <= x0 <= px <= x1 <= width,
                1 <= y0 <= py < y1 <= height,
                x0 == if x < 1 { 1 } else { x as int },
                y0 == if y < 1 { 1 } else { y as int },
                x1 == if x + w < width { x + w } else { width as int },
                y1 == if y + h < height { y + h } else { height as int },
                buf@.len() == before.len(),
                before.len() == width * height,
                n == before.len(),
                shape == (Shape::Rect { x, y, w, h, color }),
                word == color_word(color),
                forall|i: int| 0 <= i < before.len() ==> #[trigger] buf@[i] == if covers(
                    shape,
                    i % (width as int),
                    i / (width as int),
                    width as int,
                    height as int,
                ) && (i / (width as int) < py || (i / (width as int) == py && i % (width as int) < px)) {
                    color_word(color)
                } else {
                    before[i]
                },
            decreases x1 - px,
        {
            proof {
                assert((py as int) * (width as int) + (px as int) < (width as int) * (height as int)) by (nonlinear_arith)
                    requires py < height, px < width, 0 <= py, 0 <= px;
            }
            let idx: usize = (py as usize) * width + (px as usize);
            proof {
                lemma_fundamental_div_mod_converse(idx as int, width as int, py as int, px as int);
            }
            let ghost mid = buf@;
            buf.set(idx, word);
            proof {
                assert forall|i: int| 0 <= i < before.len() implies #[trigger] buf@[i] == if covers(
                    shape,
                    i % (width as int),
                    i / (width as int),
                    width as int,
                    height as int,
                ) && (i / (width as int) < py || (i / (width as int) == py && i % (width as int) < px + 1)) {
                    color_word(color)
                } else {
                    before[i]
                } by {
                    if i != idx {
                        assert(mid[i] == buf@[i]);
                        if i / (width as int) == py && i % (width as int) == px {
                            lemma_fundamental_div_mod(i, width as int);
                            assert((width as int) * (i / (width as int)) == (py as int) * (width as int)) by (nonlinear_arith)
                                requires i / (width as int) == py;
                            assert(false);
                        }
                    }
                }
            }
            px += 1;
        }
        py += 1;
    }
    assert forall|i: int| 0 <= i < before.len() implies #[trigger] buf@[i] == if covers(
        shape,
        i % (width as int),
        i / (width as int),
        width as int,
        height as int,
    ) {
        color_word(color)
    } else {
        before[i]
    } by {
        if covers(shape, i % (width as int), i / (width as int), width as int, height as int) {
            assert(i / (width as int) < py);
        }
    }
}

/// A pixel outside the drawable region keeps whatever it held.
proof fn lemma_undrawable_kept(shapes: Seq<Shape>, base: u32, px: int, py: int, width: int, height: int)
    requires
        !drawable(px, py, width, height),
    ensures
        painted(shapes, base, px, py, width, height) == base,
    decreases shapes.len(),
{
    if shapes.len() > 0 {
        lemma_undrawable_kept(shapes.drop_last(), base, px, py, width, height);
    }
}

/// No command writes row 0 or column 0 of the buffer.
pub proof fn lemma_border_untouched(shapes: Seq<Shape>, before: Seq<u32>, width: int, height: int, i: int)
    requires
        0 < width,
        0 <= i < before.len(),
        i % width == 0 || i / width == 0,
    ensures
        rasterized(shapes, before, width, height)[i] == before[i],
{
    lemma_undrawable_kept(shapes, before[i], i % width, i / width, width, height);
}

/// A rectangle writes each pixel it covers with its exact color, fully
/// opaque: red, green and blue in the three low bytes and 255 above them.
pub proof fn lemma_rect_painted(shape: Shape, before: Seq<u32>, width: int, height: int, i: int)
    requires
        0 < width,
        0 <= i < before.len(),
        covers(shape, i % width, i / width, width, height),
    ensures
        rasterized(seq![shape], before, width, height)[i] == color_word(shape_color(shape)),
        color_word(shape_color(shape)) % 0x100 == shape_color(shape)[0],
        (color_word(shape_color(shape)) / 0x100) % 0x100 == shape_color(shape)[1],
        (color_word(shape_color(shape)) / 0x1_0000) % 0x100 == shape_color(shape)[2],
        color_word(shape_color(shape)) / 0x100_0000 == 255,
{
    assert(seq![shape].last() == shape);
}

/// Where two commands overlap, the later one's color is what remains.
pub proof fn lemma_later_wins(first: Shape, second: Shape, before: Seq<u32>, width: int, height: int, i: int)
    requires
        0 < width,
        0 <= i < before.len(),
        covers(first, i % width, i / width, width, height),
        covers(second, i % width, i / width, width, height),
    ensures
        rasterized(seq![first, second], before, width, height)[i] == color_word(shape_color(second)),
{
    assert(seq![first, second].last() == second);
}

} // verus!
