use lib_tower_defense::sprite_maker::{find_border_color, find_region, find_sub_regions, Region};

const CLEAR: [u8; 4] = [9, 9, 9, 0];
const RED: [u8; 4] = [255, 0, 0, 255];
const BLUE: [u8; 4] = [0, 0, 255, 128];
const RED_COLOR: u32 = 0xff00_00ff;
const BLUE_COLOR: u32 = 0x0000_ff80;

/// A sheet from rows of letters: `.` is a pixel that does not show, `r` a
/// red one and `b` a blue one.
fn sheet(rows: &[&str]) -> Vec<u8> {
    let mut pixels = Vec::new();
    for row in rows {
        for letter in row.chars() {
            pixels.extend_from_slice(match letter {
                'r' => &RED,
                'b' => &BLUE,
                _ => &CLEAR,
            });
        }
    }
    pixels
}

#[test]
fn border_color_is_that_of_the_first_pixel_that_shows() {
    assert_eq!(find_border_color(&sheet(&["..r", "b.."]), 3, 2), RED_COLOR);
    assert_eq!(find_border_color(&sheet(&["...", "..b"]), 3, 2), BLUE_COLOR);
    assert_eq!(find_border_color(&sheet(&["b..", "r.."]), 3, 2), BLUE_COLOR);
    assert_eq!(find_border_color(&[1, 2, 3, 4], 1, 1), 0x0102_0304);
}

#[test]
fn border_color_of_a_sheet_on_which_nothing_shows() {
    assert_eq!(find_border_color(&sheet(&["...", "..."]), 3, 2), 0);
    assert_eq!(find_border_color(&[], 0, 0), 0);
    assert_eq!(find_border_color(&[], 3, 2), 0);
    assert_eq!(find_border_color(&sheet(&["r"]), 0, 5), 0);
    assert_eq!(find_border_color(&sheet(&["r"]), 5, 0), 0);
}

#[test]
fn border_color_looks_at_the_sheet_and_at_what_the_buffer_holds() {
    // the sheet is two rows of three; what follows is not looked at
    assert_eq!(find_border_color(&sheet(&["...", "...", "r.."]), 3, 2), 0);
    assert_eq!(find_border_color(&sheet(&["...", "...", "r.."]), 3, 3), RED_COLOR);
    // the buffer is shorter than the sheet
    assert_eq!(find_border_color(&sheet(&["..", "r"]), 4, 4), RED_COLOR);
    assert_eq!(find_border_color(&sheet(&["..", "."]), 4, 4), 0);
    // three bytes are no pixel
    let mut cut = sheet(&[".."]);
    cut.extend_from_slice(&[255, 0, 0]);
    assert_eq!(find_border_color(&cut, 3, 1), 0);
    // a sheet larger than any buffer
    assert_eq!(find_border_color(&sheet(&[".b"]), usize::MAX, usize::MAX), BLUE_COLOR);
}

#[test]
fn region_is_as_wide_and_as_tall_as_its_lines() {
    let pixels = sheet(&[
        "......", //
        ".rrrr.", //
        ".r....", //
        ".r....", //
        "......", //
    ]);
    assert_eq!(
        find_region(&pixels, 6, 5, 1, 1, RED_COLOR),
        Region { x: 1, y: 1, width: 4, height: 3 }
    );
    assert_eq!(
        find_region(&pixels, 6, 5, 2, 1, RED_COLOR),
        Region { x: 2, y: 1, width: 3, height: 1 }
    );
    assert_eq!(
        find_region(&pixels, 6, 5, 1, 2, RED_COLOR),
        Region { x: 1, y: 2, width: 1, height: 2 }
    );
    assert_eq!(
        find_region(&pixels, 6, 5, 0, 0, RED_COLOR),
        Region { x: 0, y: 0, width: 0, height: 0 }
    );
    assert_eq!(
        find_region(&pixels, 6, 5, 1, 1, BLUE_COLOR),
        Region { x: 1, y: 1, width: 0, height: 0 }
    );
}

#[test]
fn region_of_another_colour_ends_the_line() {
    let pixels = sheet(&[
        "rrbr", //
        "r...", //
        "b...", //
        "r...", //
    ]);
    assert_eq!(
        find_region(&pixels, 4, 4, 0, 0, RED_COLOR),
        Region { x: 0, y: 0, width: 2, height: 2 }
    );
    assert_eq!(
        find_region(&pixels, 4, 4, 2, 0, BLUE_COLOR),
        Region { x: 2, y: 0, width: 1, height: 1 }
    );
}

#[test]
fn region_line_runs_on_into_the_next_row_and_ends_with_the_buffer() {
    let pixels = sheet(&[
        ".rr", //
        "rr.", //
        ".rr", //
    ]);
    // to the right: two pixels of the first row and two of the second
    assert_eq!(
        find_region(&pixels, 3, 3, 1, 0, RED_COLOR),
        Region { x: 1, y: 0, width: 4, height: 3 }
    );
    // the last line ends where the buffer ends
    assert_eq!(
        find_region(&pixels, 3, 3, 1, 2, RED_COLOR),
        Region { x: 1, y: 2, width: 2, height: 1 }
    );
    // a corner that the buffer does not hold
    assert_eq!(
        find_region(&pixels, 3, 3, 0, 3, RED_COLOR),
        Region { x: 0, y: 3, width: 0, height: 0 }
    );
    assert_eq!(
        find_region(&pixels, 3, 3, 1, usize::MAX, RED_COLOR),
        Region { x: 1, y: u32::MAX, width: 0, height: 0 }
    );
    assert_eq!(
        find_region(&pixels, usize::MAX, 3, usize::MAX, usize::MAX, RED_COLOR).width,
        0
    );
    assert_eq!(find_region(&[], 3, 3, 0, 0, RED_COLOR).height, 0);
}

#[test]
fn sub_regions_follow_the_line_to_the_right() {
    let pixels = sheet(&[
        "......", //
        ".rrr.r", //
        ".r...r", //
        "......", //
    ]);
    let block = Region { x: 1, y: 1, width: 0, height: 0 };
    assert_eq!(
        find_sub_regions(&pixels, 6, 4, &block, RED_COLOR),
        vec![Region { x: 1, y: 1, width: 3, height: 2 }]
    );
    // where the corner is no border pixel there is no region
    let off = Region { x: 0, y: 1, width: 9, height: 9 };
    assert_eq!(find_sub_regions(&pixels, 6, 4, &off, RED_COLOR), Vec::new());
    let outside = Region { x: u32::MAX, y: u32::MAX, width: 1, height: 1 };
    assert_eq!(find_sub_regions(&pixels, 6, 4, &outside, RED_COLOR), Vec::new());
    assert_eq!(find_sub_regions(&pixels, 6, 4, &block, BLUE_COLOR), Vec::new());
}
