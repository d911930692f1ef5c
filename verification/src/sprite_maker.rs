//! Cutting a sprite sheet into regions.
//!
//! A sprite sheet is an image of four bytes a pixel (red, green, blue and
//! alpha), stored row by row.  The sprites on it are set off by lines of one
//! colour, the border colour: a line down the left side of a block of sprites
//! says how tall the block is, and a line along its top says how wide.
//!
//! Pixels are counted from 0, row after row, so the pixel in column `x` of
//! row `y` of a sheet that is `width` pixels wide is pixel `y * width + x`.
//! A pixel that the buffer does not hold is no part of any line: reading
//! stops where the buffer ends.

use vstd::prelude::*;

verus! {

/// A rectangle on a sprite sheet, without the lines that set it off.
#[derive(Debug, PartialEq, Eq, Structural, Clone, Copy)]
pub struct Region {
    pub x: u32,
    pub y: u32,
    pub width: u32,
    pub height: u32,
}

/// The number of whole pixels that the buffer holds.
pub open spec fn pixel_count(pixels: Seq<u8>) -> int {
    pixels.len() as int / 4
}

/// How opaque pixel `pixel` is: 0 for a pixel that does not show.
pub open spec fn alpha_at(pixels: Seq<u8>, pixel: int) -> u8 {
    pixels[pixel * 4 + 3]
}

/// The colour of pixel `pixel`: its four bytes, red first, as one number.
pub open spec fn color_at(pixels: Seq<u8>, pixel: int) -> u32 {
    (((pixels[pixel * 4] * 0x100 + pixels[pixel * 4 + 1]) * 0x100 + pixels[pixel * 4 + 2])
        * 0x100 + pixels[pixel * 4 + 3]) as u32
}

/// Whether pixel `pixel` is held by the buffer, shows, and has the colour
/// `border_color`.
pub open spec fn border_at(pixels: Seq<u8>, pixel: int, border_color: u32) -> bool {
    &&& 0 <= pixel < pixel_count(pixels)
    &&& alpha_at(pixels, pixel) != 0
    &&& color_at(pixels, pixel) == border_color
}

/// The number of the first `limit` pixels of a walk from pixel `start`, in
/// steps of `step` pixels, that lie before the first pixel that is no
/// border.
pub open spec fn run_length(
    pixels: Seq<u8>,
    start: int,
    step: int,
    border_color: u32,
    limit: nat,
) -> nat
    decreases limit,
{
    if limit == 0 || !border_at(pixels, start, border_color) {
        0
    } else {
        1 + run_length(pixels, start + step, step, border_color, (limit - 1) as nat)
    }
}

/// The region whose upper left corner is the pixel in column `x` of row `y`:
/// as tall as the line of border pixels that runs down from there, and as
/// wide as the one that runs on from there to the right (and, where it
/// reaches the end of a row, on into the next).
pub open spec fn region_at(
    pixels: Seq<u8>,
    width: int,
    x: int,
    y: int,
    border_color: u32,
) -> Region {
    Region {
        x: x as u32,
        y: y as u32,
        width: run_length(pixels, y * width + x, 1, border_color, u32::MAX as nat) as u32,
        height: run_length(pixels, y * width + x, width, border_color, u32::MAX as nat) as u32,
    }
}

/// The regions that follow each other to the right from column `x` of row
/// `y` on: each begins where the one before it ends, and the first region
/// without width or height ends the list.
pub open spec fn regions_from(
    pixels: Seq<u8>,
    width: int,
    x: int,
    y: int,
    border_color: u32,
) -> Seq<Region>
    decreases u32::MAX - x,
{
    let region = region_at(pixels, width, x, y, border_color);
    if region.width == 0 || region.height == 0 || x < 0 || x > u32::MAX {
        Seq::<Region>::empty()
    } else if x + region.width > u32::MAX {
        seq![region]
    } else {
        seq![region] + regions_from(pixels, width, x + region.width, y, border_color)
    }
}

/// Whether pixel `pixel` is a border pixel; see [`border_at`].
fn is_border(pixels: &[u8], pixel: usize, border_color: u32) -> (border: bool)
    ensures
        border == border_at(pixels@, pixel as int, border_color),
{
    if pixel >= pixels.len() / 4 {
        return false;
    }
    let index: usize = pixel * 4;
    let alpha: u8 = pixels[index + 3];
    if alpha == 0 {
        return false;
    }
    let color: u32 = ((pixels[index] as u32 * 0x100 + pixels[index + 1] as u32) * 0x100
        + pixels[index + 2] as u32) * 0x100 + pixels[index + 3] as u32;
    color == border_color
}

/// The colour of the first pixel of the sheet that shows, and 0 where no
/// pixel shows.  The sheet is `width` by `height` pixels, taken row by row;
/// pixels that the buffer does not hold are not looked at.
pub fn find_border_color(pixels: &[u8], width: usize, height: usize) -> (border_color: u32)
    ensures
        forall|pixel: int|
            0 <= pixel < width * height && pixel < pixel_count(pixels@) && alpha_at(
                pixels@,
                pixel,
            ) != 0 && (forall|before: int| 0 <= before < pixel ==> alpha_at(pixels@, before) == 0)
                ==> border_color == color_at(pixels@, pixel),
        (forall|pixel: int|
            0 <= pixel < width * height && pixel < pixel_count(pixels@) ==> alpha_at(
                pixels@,
                pixel,
            ) == 0) ==> border_color == 0,
{
    let held: usize = pixels.len() / 4;
    let on_sheet: usize = match width.checked_mul(height) {
        Some(count) => if count < held {
            count
        } else {
            held
        },
        None => held,
    };
    let mut pixel: usize = 0;
    while pixel < on_sheet
        invariant
            pixels@.len() == pixels.len(),
            held == pixels@.len() / 4,
            on_sheet <= held,
            on_sheet <= width * height,
            on_sheet == width * height || on_sheet == pixel_count(pixels@),
            forall|before: int| 0 <= before < pixel ==> alpha_at(pixels@, before) == 0,
        decreases on_sheet - pixel,
    {
        let index: usize = pixel * 4;
        let alpha: u8 = pixels[index + 3];
        if alpha != 0 {
            let color: u32 = ((pixels[index] as u32 * 0x100 + pixels[index + 1] as u32) * 0x100
                + pixels[index + 2] as u32) * 0x100 + pixels[index + 3] as u32;
            assert forall|other: int|
                0 <= other < width * height && other < pixel_count(pixels@) && alpha_at(
                    pixels@,
                    other,
                ) != 0 && (forall|before: int|
                    0 <= before < other ==> alpha_at(pixels@, before) == 0) implies color
                == color_at(pixels@, other) by {
                if other < pixel {
                    assert(alpha_at(pixels@, other) == 0);
                } else if other > pixel {
                    assert(alpha_at(pixels@, pixel as int) == 0);
                }
            }
            assert(0 <= pixel < width * height && pixel < pixel_count(pixels@) && alpha_at(
                pixels@,
                pixel as int,
            ) != 0);
            return color;
        }
        pixel += 1;
    }
    0
}

/// The length of the line of border pixels from pixel `start` on, in steps
/// of `step` pixels; see [`run_length`].
fn measure(pixels: &[u8], start: Option<usize>, step: usize, border_color: u32) -> (length: u32)
    ensures
        start matches Some(from) ==> length == run_length(
            pixels@,
            from as int,
            step as int,
            border_color,
            u32::MAX as nat,
        ),
        start is None ==> length == 0,
{
    let ghost first: int = match start {
        Some(from) => from as int,
        None => 0,
    };
    let ghost whole = run_length(pixels@, first, step as int, border_color, u32::MAX as nat);
    let mut length: u32 = 0;
    let mut here: Option<usize> = start;
    let ghost mut place: int = first;
    while length < u32::MAX
        invariant
            pixels@.len() == pixels.len(),
            start is None ==> here is None,
            here matches Some(pixel) ==> pixel == place,
            here is None && start is Some ==> place >= pixel_count(pixels@),
            place >= 0,
            start is Some ==> whole == length + run_length(
                pixels@,
                place,
                step as int,
                border_color,
                (u32::MAX - length) as nat,
            ),
            start is None ==> length == 0,
        ensures
            start is Some ==> whole == length,
            start is None ==> length == 0,
        decreases u32::MAX - length,
    {
        let pixel: usize = match here {
            Some(pixel) => pixel,
            None => {
                break ;
            },
        };
        if !is_border(pixels, pixel, border_color) {
            break ;
        }
        length += 1;
        here = pixel.checked_add(step);
        proof {
            place = place + step;
        }
    }
    length
}

/// The pixel in column `x` of row `y` of a sheet that is `width` pixels
/// wide, if its number can be told.
fn pixel_of(width: usize, x: usize, y: usize) -> (pixel: Option<usize>)
    ensures
        pixel matches Some(found) ==> found == y * width + x,
        pixel is None ==> y * width + x > usize::MAX,
{
    match y.checked_mul(width) {
        Some(row) => row.checked_add(x),
        None => {
            assert(y * width + x > usize::MAX) by (nonlinear_arith)
                requires
                    y * width > usize::MAX,
                    x >= 0,
            ;
            None
        },
    }
}

/// A walk that begins behind the last pixel that a buffer can hold comes by
/// no border pixel.
proof fn lemma_no_run_behind_the_buffer(
    pixels: Seq<u8>,
    start: int,
    step: int,
    border_color: u32,
    limit: nat,
)
    requires
        start >= pixel_count(pixels),
    ensures
        run_length(pixels, start, step, border_color, limit) == 0,
{
}

/// The region whose upper left corner is the pixel in column `x` of row `y`;
/// see [`region_at`].
pub fn find_region(
    pixels: &[u8],
    width: usize,
    _height: usize,
    x: usize,
    y: usize,
    border_color: u32,
) -> (region: Region)
    ensures
        region == region_at(pixels@, width as int, x as int, y as int, border_color),
{
    let start = pixel_of(width, x, y);
    proof {
        if start is None {
            assert(pixels@.len() == pixels.len());
            lemma_no_run_behind_the_buffer(
                pixels@,
                y * width + x,
                1,
                border_color,
                u32::MAX as nat,
            );
            lemma_no_run_behind_the_buffer(
                pixels@,
                y * width + x,
                width as int,
                border_color,
                u32::MAX as nat,
            );
        }
    }
    // the height of the region is the length of the line that runs down
    let height: u32 = measure(pixels, start, width, border_color);
    // and its width the length of the line that runs to the right
    let across: u32 = measure(pixels, start, 1, border_color);
    Region { x: #[verifier::truncate] (x as u32), y: #[verifier::truncate] (y as u32), width: across, height }
}

/// The regions that follow each other to the right from the upper left
/// corner of `region` on; see [`regions_from`].
pub fn find_sub_regions(
    pixels: &[u8],
    width: usize,
    height: usize,
    region: &Region,
    border_color: u32,
) -> (sub_regions: Vec<Region>)
    ensures
        sub_regions@ == regions_from(
            pixels@,
            width as int,
            region.x as int,
            region.y as int,
            border_color,
        ),
{
    let mut sub_regions: Vec<Region> = Vec::new();
    let mut x: u32 = region.x;
    let y: u32 = region.y;
    let ghost wanted = regions_from(
        pixels@,
        width as int,
        region.x as int,
        region.y as int,
        border_color,
    );
    loop
        invariant_except_break
            wanted == sub_regions@ + regions_from(
                pixels@,
                width as int,
                x as int,
                y as int,
                border_color,
            ),
        invariant
            y == region.y,
        ensures
            wanted == sub_regions@,
        decreases u32::MAX - x,
    {
        let sub_region = find_region(pixels, width, height, x as usize, y as usize, border_color);
        if sub_region.width == 0 || sub_region.height == 0 {
            assert(wanted =~= sub_regions@);
            break ;
        }
        sub_regions.push(sub_region);
        match x.checked_add(sub_region.width) {
            Some(next) => {
                assert(wanted =~= sub_regions@ + regions_from(
                    pixels@,
                    width as int,
                    next as int,
                    y as int,
                    border_color,
                ));
                x = next;
            },
            None => {
                assert(wanted =~= sub_regions@);
                break ;
            },
        }
    }
    sub_regions
}

} // verus!
