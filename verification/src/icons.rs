use vstd::prelude::*;

verus! {

/// Side of one utility icon frame, in pixels.
pub const UTILITY_ICON_FRAME_SIZE: usize = 9;

/// Number of utility icon frames laid side by side: cable, connector,
/// assembler and lift station.
pub const UTILITY_ICON_FRAMES: usize = 4;

/// Width of the utility icon strip, in pixels.
pub const UTILITY_ICON_WIDTH: usize = 36;

/// A red, green, blue and alpha colour.
pub type Rgba = (u8, u8, u8, u8);

pub open spec fn transparent() -> Rgba {
    (0, 0, 0, 0)
}

pub open spec fn cyan() -> Rgba {
    (0, 255, 255, 255)
}

/// Whether a pixel lies on the square from `low` to `high` in both
/// directions, and whether it lies on that square's rim.
pub open spec fn in_square(x: int, y: int, low: int, high: int) -> bool {
    low <= x <= high && low <= y <= high
}

pub open spec fn on_rim(x: int, y: int, low: int, high: int) -> bool {
    x == low || x == high || y == low || y == high
}

/// The colour of pixel (`x`, `y`) of a utility icon frame: a cable (a
/// dark, cyan and darker column), a connector (a framed plate with a cyan
/// centre), an assembler (a framed box with a shaft and a yellow light)
/// and a lift station (a framed box with a divider and a cyan bar).
pub open spec fn utility_icon_colour(frame: int, x: int, y: int) -> Rgba {
    if frame == 0 {
        if x == 3 {
            (42, 65, 72, 255)
        } else if x == 4 {
            cyan()
        } else if x == 5 {
            (31, 45, 52, 255)
        } else {
            transparent()
        }
    } else if frame == 1 {
        if x == 4 && y == 4 {
            cyan()
        } else if in_square(x, y, 2, 6) {
            if on_rim(x, y, 2, 6) {
                (44, 52, 58, 255)
            } else {
                (122, 136, 140, 255)
            }
        } else {
            transparent()
        }
    } else if frame == 2 {
        if x == 6 && y == 2 {
            (255, 255, 0, 255)
        } else if x == 4 && 3 <= y <= 7 {
            (45, 55, 61, 255)
        } else if in_square(x, y, 1, 7) {
            if on_rim(x, y, 1, 7) {
                (34, 42, 48, 255)
            } else {
                (104, 116, 120, 255)
            }
        } else {
            transparent()
        }
    } else {
        if 3 <= x <= 5 && y == 3 {
            cyan()
        } else if in_square(x, y, 1, 7) {
            if on_rim(x, y, 1, 7) || y == 5 {
                (28, 39, 44, 255)
            } else {
                (94, 110, 114, 255)
            }
        } else {
            transparent()
        }
    }
}

/// One channel of a colour.
pub open spec fn channel(colour: Rgba, c: int) -> u8 {
    if c == 0 {
        colour.0
    } else if c == 1 {
        colour.1
    } else if c == 2 {
        colour.2
    } else {
        colour.3
    }
}

/// The byte at an index of the icon strip, stored row by row, four
/// channels per pixel.
pub open spec fn strip_byte(index: int) -> u8 {
    let pixel = index / 4;
    let column = pixel % (UTILITY_ICON_WIDTH as int);
    channel(
        utility_icon_colour(column / (UTILITY_ICON_FRAME_SIZE as int), column % (UTILITY_ICON_FRAME_SIZE as int), pixel / (UTILITY_ICON_WIDTH as int)),
        index % 4,
    )
}

/// The colour of one utility icon pixel.
pub fn utility_icon_pixel(frame: usize, x: usize, y: usize) -> (colour: Rgba)
    ensures
        colour == utility_icon_colour(frame as int, x as int, y as int),
{
    if frame == 0 {
        if x == 3 {
            (42, 65, 72, 255)
        } else if x == 4 {
            (0, 255, 255, 255)
        } else if x == 5 {
            (31, 45, 52, 255)
        } else {
            (0, 0, 0, 0)
        }
    } else if frame == 1 {
        if x == 4 && y == 4 {
            (0, 255, 255, 255)
        } else if 2 <= x && x <= 6 && 2 <= y && y <= 6 {
            if x == 2 || x == 6 || y == 2 || y == 6 {
                (44, 52, 58, 255)
            } else {
                (122, 136, 140, 255)
            }
        } else {
            (0, 0, 0, 0)
        }
    } else if frame == 2 {
        if x == 6 && y == 2 {
            (255, 255, 0, 255)
        } else if x == 4 && 3 <= y && y <= 7 {
            (45, 55, 61, 255)
        } else if 1 <= x && x <= 7 && 1 <= y && y <= 7 {
            if x == 1 || x == 7 || y == 1 || y == 7 {
                (34, 42, 48, 255)
            } else {
                (104, 116, 120, 255)
            }
        } else {
            (0, 0, 0, 0)
        }
    } else {
        if 3 <= x && x <= 5 && y == 3 {
            (0, 255, 255, 255)
        } else if 1 <= x && x <= 7 && 1 <= y && y <= 7 {
            if x == 1 || x == 7 || y == 1 || y == 7 || y == 5 {
                (28, 39, 44, 255)
            } else {
                (94, 110, 114, 255)
            }
        } else {
            (0, 0, 0, 0)
        }
    }
}

proof fn lemma_strip_index(y: int, column: int, c: int)
    requires
        0 <= y,
        0 <= column < UTILITY_ICON_WIDTH,
        0 <= c < 4,
    ensures
        strip_byte((y * (UTILITY_ICON_WIDTH as int) + column) * 4 + c) == channel(
            utility_icon_colour(column / (UTILITY_ICON_FRAME_SIZE as int), column % (UTILITY_ICON_FRAME_SIZE as int), y),
            c,
        ),
{
    let pixel = y * (UTILITY_ICON_WIDTH as int) + column;
    let index = pixel * 4 + c;
    vstd::arithmetic::div_mod::lemma_fundamental_div_mod_converse(index, 4, pixel, c);
    vstd::arithmetic::div_mod::lemma_fundamental_div_mod_converse(pixel, UTILITY_ICON_WIDTH as int, y, column);
}

/// The pixels of the utility icon strip: frames side by side, rows from
/// the top, four bytes per pixel.
pub fn utility_icon_pixels() -> (pixels: Vec<u8>)
    ensures
        pixels@.len() == UTILITY_ICON_WIDTH * UTILITY_ICON_FRAME_SIZE * 4,
        forall|i: int| 0 <= i < pixels@.len() ==> #[trigger] pixels@[i] == strip_byte(i),
        forall|frame: int, x: int, y: int, c: int|
            0 <= frame < UTILITY_ICON_FRAMES && 0 <= x < UTILITY_ICON_FRAME_SIZE && 0 <= y < UTILITY_ICON_FRAME_SIZE && 0
                <= c < 4 ==> #[trigger] pixels@[(y * (UTILITY_ICON_WIDTH as int) + frame * (UTILITY_ICON_FRAME_SIZE as int) + x) * 4 + c]
                == channel(#[trigger] utility_icon_colour(frame, x, y), c),
{
    let mut pixels: Vec<u8> = Vec::new();
    let mut y: usize = 0;
    while y < UTILITY_ICON_FRAME_SIZE
        invariant
            y <= UTILITY_ICON_FRAME_SIZE,
            pixels@.len() == y * UTILITY_ICON_WIDTH * 4,
            forall|i: int| 0 <= i < pixels@.len() ==> #[trigger] pixels@[i] == strip_byte(i),
        decreases UTILITY_ICON_FRAME_SIZE - y,
    {
        let mut column: usize = 0;
        while column < UTILITY_ICON_WIDTH
            invariant
                y < UTILITY_ICON_FRAME_SIZE,
                column <= UTILITY_ICON_WIDTH,
                pixels@.len() == (y * UTILITY_ICON_WIDTH + column) * 4,
                forall|i: int| 0 <= i < pixels@.len() ==> #[trigger] pixels@[i] == strip_byte(i),
            decreases UTILITY_ICON_WIDTH - column,
        {
            let colour = utility_icon_pixel(column / UTILITY_ICON_FRAME_SIZE, column % UTILITY_ICON_FRAME_SIZE, y);
            let ghost start = pixels@.len() as int;
            proof {
                lemma_strip_index(y as int, column as int, 0);
                lemma_strip_index(y as int, column as int, 1);
                lemma_strip_index(y as int, column as int, 2);
                lemma_strip_index(y as int, column as int, 3);
            }
            pixels.push(colour.0);
            pixels.push(colour.1);
            pixels.push(colour.2);
            pixels.push(colour.3);
            proof {
                assert(pixels@[start] == strip_byte(start));
                assert(pixels@[start + 1] == strip_byte(start + 1));
                assert(pixels@[start + 2] == strip_byte(start + 2));
                assert(pixels@[start + 3] == strip_byte(start + 3));
            }
            column = column + 1;
        }
        y = y + 1;
    }
    proof {
        assert forall|frame: int, x: int, y: int, c: int|
            0 <= frame < UTILITY_ICON_FRAMES && 0 <= x < UTILITY_ICON_FRAME_SIZE && 0 <= y < UTILITY_ICON_FRAME_SIZE && 0
                <= c < 4 implies #[trigger] pixels@[(y * (UTILITY_ICON_WIDTH as int) + frame * (UTILITY_ICON_FRAME_SIZE as int) + x) * 4 + c]
                == channel(#[trigger] utility_icon_colour(frame, x, y), c) by {
            let column = frame * (UTILITY_ICON_FRAME_SIZE as int) + x;
            vstd::arithmetic::div_mod::lemma_fundamental_div_mod_converse(column, UTILITY_ICON_FRAME_SIZE as int, frame, x);
            lemma_strip_index(y, column, c);
            assert((y * 36 + column) * 4 + c < 1296) by (nonlinear_arith)
                requires
                    0 <= y < 9,
                    0 <= column < 36,
                    0 <= c < 4,
            ;
            assert(pixels@.len() == 1296);
        }
    }
    pixels
}

} // verus!
