//! Drawing the grid into an RGBA frame buffer, four bytes per pixel, rows of
//! pixels one after another.

use vstd::prelude::*;
use vstd::arithmetic::div_mod::{
    lemma_div_pos_is_pos, lemma_fundamental_div_mod, lemma_fundamental_div_mod_converse, lemma_mod_pos_bound,
};
use crate::types::{Cell, CellType};

verus! {

broadcast use {lemma_div_pos_is_pos, lemma_mod_pos_bound};

/// Side of one cell in pixels.
pub const CELL_SIZE: u32 = 40;

/// The gray of cell borders.
pub const BORDER: u8 = 40;

/// The color of each cell role, as a spec.
pub open spec fn role_color(t: CellType) -> (u8, u8, u8) {
    match t {
        CellType::Empty => (255, 255, 255),
        CellType::Wall => (80, 80, 80),
        CellType::Start => (0, 255, 0),
        CellType::Goal => (255, 0, 0),
        CellType::Visited => (0, 0, 255),
        CellType::Path => (255, 255, 0),
    }
}

/// The color of each cell role.
pub fn color_of(t: CellType) -> (c: (u8, u8, u8))
    ensures
        c == role_color(t),
{
    match t {
        CellType::Empty => (255, 255, 255),
        CellType::Wall => (80, 80, 80),
        CellType::Start => (0, 255, 0),
        CellType::Goal => (255, 0, 0),
        CellType::Visited => (0, 0, 255),
        CellType::Path => (255, 255, 0),
    }
}

/// Byte `k` of an opaque pixel of color `c`.
pub open spec fn channel(c: (u8, u8, u8), k: int) -> u8 {
    if k == 0 {
        c.0
    } else if k == 1 {
        c.1
    } else if k == 2 {
        c.2
    } else {
        255
    }
}

/// Pixel number `p` of a frame `sw` pixels wide lies in the rectangle at
/// `(x, y)` of `w` by `h` pixels.
pub open spec fn in_rect(p: int, sw: int, x: int, y: int, w: int, h: int) -> bool {
    x <= p % sw < x + w && y <= p / sw < y + h
}

/// A rectangle at `(x, y)` of `w` by `h` pixels is empty, or lies within a
/// frame `sw` pixels wide whose `len` bytes reach its last pixel, and the
/// number of that pixel fits in a `u32`.
pub open spec fn rect_fits(len: int, x: int, y: int, w: int, h: int, sw: int) -> bool {
    w == 0 || h == 0 || {
        &&& x + w <= sw
        &&& ((y + h - 1) * sw + x + w) * 4 <= len
        &&& (y + h - 1) * sw + x + w - 1 <= u32::MAX
    }
}

/// Byte `k` of pixel `(px, py)` sits at `(py * sw + px) * 4 + k`.
proof fn lemma_pixel_byte(px: int, py: int, sw: int, k: int)
    requires
        0 <= px < sw,
        0 <= py,
        0 <= k < 4,
    ensures
        ((py * sw + px) * 4 + k) / 4 == py * sw + px,
        ((py * sw + px) * 4 + k) % 4 == k,
        (py * sw + px) % sw == px,
        (py * sw + px) / sw == py,
{
    lemma_fundamental_div_mod_converse((py * sw + px) * 4 + k, 4, py * sw + px, k);
    lemma_fundamental_div_mod_converse(py * sw + px, sw, py, px);
}

/// Paints the rectangle at `(x, y)` of `w` by `h` pixels in color `color`.
pub fn fill_rect(frame: &mut Vec<u8>, x: u32, y: u32, w: u32, h: u32, color: (u8, u8, u8), screen_width: u32)
    requires
        rect_fits(old(frame)@.len() as int, x as int, y as int, w as int, h as int, screen_width as int),
    ensures
        final(frame)@.len() == old(frame)@.len(),
        forall|i: int| 0 <= i < old(frame)@.len() ==> #[trigger] final(frame)@[i] == if in_rect(
            i / 4,
            screen_width as int,
            x as int,
            y as int,
            w as int,
            h as int,
        ) {
            channel(color, i % 4)
        } else {
            old(frame)@[i]
        },
{
    if w == 0 || h == 0 {
        return;
    }
    let ghost sw = screen_width as int;
    let ghost before = frame@;
    let n = frame.len();
    let (r, g, b) = color;
    let mut dx: u32 = 0;
    while dx < w
        invariant
            rect_fits(before.len() as int, x as int, y as int, w as int, h as int, sw),
            w > 0 && h > 0,
            frame@.len() == before.len(),
            n == before.len(),
            dx <= w,
            color == (r, g, b),
            sw == screen_width as int,
            forall|i: int| 0 <= i < before.len() ==> #[trigger] frame@[i] == if in_rect(
                i / 4,
                sw,
                x as int,
                y as int,
                dx as int,
                h as int,
            ) {
                channel(color, i % 4)
            } else {
                before[i]
            },
        decreases w - dx,
    {
        let mut dy: u32 = 0;
        while dy < h
            invariant
                rect_fits(before.len() as int, x as int, y as int, w as int, h as int, sw),
                w > 0 && h > 0,
                frame@.len() == before.len(),
                n == before.len(),
                dx < w,
                dy <= h,
                color == (r, g, b),
                sw == screen_width as int,
                forall|i: int| 0 <= i < before.len() ==> #[trigger] frame@[i] == if in_rect(
                    i / 4,
                    sw,
                    x as int,
                    y as int,
                    dx as int,
                    h as int,
                ) || in_rect(i / 4, sw, x + dx, y as int, 1, dy as int) {
                    channel(color, i % 4)
                } else {
                    before[i]
                },
            decreases h - dy,
        {
            let ghost px = (x + dx) as int;
            let ghost py = (y + dy) as int;
            proof {
                let last = y + h - 1;
                assert(py * sw <= last * sw && last <= last * sw) by (nonlinear_arith)
                    requires
                        0 <= py <= last,
                        sw >= 1,
                ;
                assert((py * sw + px) * 4 + 4 <= n);
                assert(y + dy <= u32::MAX);
            }
            let i = ((y + dy) as usize * screen_width as usize + (x + dx) as usize) * 4;
            let ghost mid = frame@;
            frame.set(i, r);
            frame.set(i + 1, g);
            frame.set(i + 2, b);
            frame.set(i + 3, 255);
            proof {
                assert forall|j: int| 0 <= j < before.len() implies #[trigger] frame@[j] == if in_rect(
                    j / 4,
                    sw,
                    x as int,
                    y as int,
                    dx as int,
                    h as int,
                ) || in_rect(j / 4, sw, x + dx, y as int, 1, dy + 1) {
                    channel(color, j % 4)
                } else {
                    before[j]
                } by {
                    if i <= j < i + 4 {
                        lemma_pixel_byte(px, py, sw, j - i);
                    } else {
                        assert(frame@[j] == mid[j]);
                        lemma_fundamental_div_mod(j / 4, sw);
                        lemma_fundamental_div_mod(j, 4);
                        if (j / 4) % sw == px && (j / 4) / sw == py {
                            assert(j / 4 == py * sw + px) by (nonlinear_arith)
                                requires
                                    j / 4 == sw * ((j / 4) / sw) + (j / 4) % sw,
                                    (j / 4) % sw == px,
                                    (j / 4) / sw == py,
                            ;
                        }
                    }
                }
            }
            dy += 1;
        }
        proof {
            assert forall|j: int| 0 <= j < before.len() implies #[trigger] frame@[j] == if in_rect(
                j / 4,
                sw,
                x as int,
                y as int,
                dx + 1,
                h as int,
            ) {
                channel(color, j % 4)
            } else {
                before[j]
            } by {
            }
        }
        dx += 1;
    }
}

/// Byte `i` of a frame after a cell of `size` pixels at `(x, y)` was drawn
/// with a one-pixel border over `before`.
pub open spec fn bordered_byte(
    before: Seq<u8>,
    i: int,
    sw: int,
    x: int,
    y: int,
    size: int,
    color: (u8, u8, u8),
) -> u8 {
    if in_rect(i / 4, sw, x + 1, y + 1, size - 2, size - 2) {
        channel(color, i % 4)
    } else if in_rect(i / 4, sw, x, y, size, size) {
        channel((BORDER, BORDER, BORDER), i % 4)
    } else {
        before[i]
    }
}

/// Draws one cell of `size` pixels at `(x, y)` in `color`, with a darker
/// one-pixel border.
pub fn draw_cell_with_border(
    frame: &mut Vec<u8>,
    x: u32,
    y: u32,
    size: u32,
    color: (u8, u8, u8),
    screen_width: u32,
)
    requires
        rect_fits(old(frame)@.len() as int, x as int, y as int, size as int, size as int, screen_width as int),
    ensures
        final(frame)@.len() == old(frame)@.len(),
        forall|i: int| 0 <= i < old(frame)@.len() ==> #[trigger] final(frame)@[i] == bordered_byte(
            old(frame)@,
            i,
            screen_width as int,
            x as int,
            y as int,
            size as int,
            color,
        ),
{
    fill_rect(frame, x, y, size, size, (BORDER, BORDER, BORDER), screen_width);
    if size > 2 {
        proof {
            let sw = screen_width as int;
            let last = y + size - 1;
            assert((last - 1) * sw <= last * sw && last <= last * sw) by (nonlinear_arith)
                requires
                    last >= 1,
                    sw >= 1,
            ;
        }
        fill_rect(frame, x + 1, y + 1, size - 2, size - 2, color, screen_width);
    }
}

/// The color of pixel `(px, py)` of a drawn grid whose cells are `field`.
pub open spec fn grid_byte(field: Seq<Vec<Cell>>, px: int, py: int, k: int) -> u8 {
    let cs = CELL_SIZE as int;
    let lx = px % cs;
    let ly = py % cs;
    if 1 <= lx < cs - 1 && 1 <= ly < cs - 1 {
        channel(role_color(field[py / cs]@[px / cs].cell_type), k)
    } else {
        channel((BORDER, BORDER, BORDER), k)
    }
}

/// Pixel row `py` and column `px` lie in a cell drawn before cell `(r, c)` in
/// row-major order.
pub open spec fn drawn_before(px: int, py: int, r: int, c: int) -> bool {
    let cs = CELL_SIZE as int;
    py / cs < r || (py / cs == r && px / cs < c)
}

/// Pixel column `px` lies in cell column `c` exactly when `px / 40 == c`,
/// at offset `px - 40 * c` within it.
proof fn lemma_cell_span(px: int, c: int)
    requires
        0 <= px,
        0 <= c,
    ensures
        (c * 40 <= px < c * 40 + 40) <==> px / 40 == c,
        (c * 40 <= px < c * 40 + 40) ==> px % 40 == px - c * 40,
{
    lemma_fundamental_div_mod(px, 40);
    if c * 40 <= px < c * 40 + 40 {
        lemma_fundamental_div_mod_converse(px, 40, c, px - c * 40);
    }
}

/// Renders the whole grid: each cell a square of `CELL_SIZE` pixels in the
/// color of its role, with a border.
pub fn draw_grid(frame: &mut Vec<u8>, field: &Vec<Vec<Cell>>, height: usize, width: usize)
    requires
        field@.len() == height,
        forall|r: int| 0 <= r < height ==> #[trigger] field@[r]@.len() == width,
        height * 40 <= u32::MAX,
        width * 40 <= u32::MAX,
        (height * 40) * (width * 40) * 4 <= old(frame)@.len(),
        (height * 40) * (width * 40) <= u32::MAX + 1,
    ensures
        final(frame)@.len() == old(frame)@.len(),
        forall|i: int| 0 <= i < old(frame)@.len() ==> #[trigger] final(frame)@[i] == if width > 0 && (i / 4) / (width * 40) < height
            * 40 {
            grid_byte(field@, (i / 4) % (width * 40), (i / 4) / (width * 40), i % 4)
        } else {
            old(frame)@[i]
        },
{
    let ghost before = frame@;
    let sw = width as u32 * CELL_SIZE;
    let ghost swi = sw as int;
    let mut y: usize = 0;
    while y < height
        invariant
            field@.len() == height,
            forall|r: int| 0 <= r < height ==> #[trigger] field@[r]@.len() == width,
            height * 40 <= u32::MAX,
            width * 40 <= u32::MAX,
            (height * 40) * (width * 40) * 4 <= before.len(),
            (height * 40) * (width * 40) <= u32::MAX + 1,
            sw == width * 40,
            swi == sw,
            y <= height,
            frame@.len() == before.len(),
            forall|i: int| 0 <= i < before.len() ==> #[trigger] frame@[i] == if swi > 0 && (i / 4) / swi < height * 40
                && drawn_before((i / 4) % swi, (i / 4) / swi, y as int, 0) {
                grid_byte(field@, (i / 4) % swi, (i / 4) / swi, i % 4)
            } else {
                before[i]
            },
        decreases height - y,
    {
        let mut x: usize = 0;
        while x < width
            invariant
                field@.len() == height,
                forall|r: int| 0 <= r < height ==> #[trigger] field@[r]@.len() == width,
                height * 40 <= u32::MAX,
                width * 40 <= u32::MAX,
                (height * 40) * (width * 40) * 4 <= before.len(),
                (height * 40) * (width * 40) <= u32::MAX + 1,
            (height * 40) * (width * 40) <= u32::MAX + 1,
                sw == width * 40,
                swi == sw,
                y < height,
                x <= width,
                frame@.len() == before.len(),
                forall|i: int| 0 <= i < before.len() ==> #[trigger] frame@[i] == if swi > 0 && (i / 4) / swi < height * 40
                    && drawn_before((i / 4) % swi, (i / 4) / swi, y as int, x as int) {
                    grid_byte(field@, (i / 4) % swi, (i / 4) / swi, i % 4)
                } else {
                    before[i]
                },
            decreases width - x,
        {
            let color = color_of(field[y][x].cell_type);
            let ghost mid = frame@;
            proof {
                assert((y + 1) * 40 <= height * 40);
                assert((y as int * 40 + 40) * swi <= (height * 40) * (width * 40)) by (nonlinear_arith)
                    requires
                        y as int * 40 + 40 <= height * 40,
                        swi == width * 40,
                        swi >= 0,
                ;
                assert((y as int * 40 + 39) * swi + swi == (y as int * 40 + 40) * swi) by (nonlinear_arith);
                assert(rect_fits(frame@.len() as int, x as int * 40, y as int * 40, 40, 40, swi));
            }
            draw_cell_with_border(frame, x as u32 * CELL_SIZE, y as u32 * CELL_SIZE, CELL_SIZE, color, sw);
            proof {
                assert forall|i: int| 0 <= i < before.len() implies #[trigger] frame@[i] == if swi > 0 && (i / 4) / swi < height
                    * 40 && drawn_before((i / 4) % swi, (i / 4) / swi, y as int, x + 1) {
                    grid_byte(field@, (i / 4) % swi, (i / 4) / swi, i % 4)
                } else {
                    before[i]
                } by {
                    let p = i / 4;
                    let px = p % swi;
                    let py = p / swi;
                    assert(0 <= px);
                    assert(0 <= py) by {
                        assert(p >= 0);
                    }
                    lemma_cell_span(px, x as int);
                    lemma_cell_span(py, y as int);
                    lemma_cell_span(px, x as int + 1);
                    assert(frame@[i] == bordered_byte(mid, i, swi, x as int * 40, y as int * 40, 40, color));
                }
            }
            x += 1;
        }
        proof {
            assert forall|i: int| 0 <= i < before.len() implies #[trigger] frame@[i] == if swi > 0 && (i / 4) / swi < height * 40
                && drawn_before((i / 4) % swi, (i / 4) / swi, y + 1, 0) {
                grid_byte(field@, (i / 4) % swi, (i / 4) / swi, i % 4)
            } else {
                before[i]
            } by {
                if swi > 0 {
                    let px = (i / 4) % swi;
                    assert(px / 40 < width as int) by {
                        lemma_cell_span(px, px / 40);
                        lemma_fundamental_div_mod(px, 40);
                    }
                }
            }
        }
        y += 1;
    }
    proof {
        assert forall|i: int| 0 <= i < before.len() implies #[trigger] frame@[i] == if width > 0 && (i / 4) / (width * 40) < height
            * 40 {
            grid_byte(field@, (i / 4) % (width * 40), (i / 4) / (width * 40), i % 4)
        } else {
            before[i]
        } by {
            let py = (i / 4) / swi;
            if py < height * 40 {
                lemma_fundamental_div_mod(py, 40);
                assert(py / 40 < height as int);
            }
        }
    }
}

} // verus!
