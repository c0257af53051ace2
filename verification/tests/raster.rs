use renderer::coordinates::{Coord2D, Pixel16, ONE};
use renderer::raster::{rasterize_polyline, rasterize_segment, scale_color, walk_of, PixelWrite};
use renderer::{RenderError, AABB};

const COLOR: u32 = 0xFAFA_FAFA;

fn px(x: i64, y: i64) -> Coord2D {
    Coord2D { x: x * ONE, y: y * ONE }
}

fn boxed(min: (u16, u16), max: (u16, u16)) -> AABB {
    AABB {
        min: Pixel16 { x: min.0, y: min.1 },
        max: Pixel16 { x: max.0, y: max.1 },
    }
}

fn writes(list: &[(u16, u16, u32)]) -> Vec<PixelWrite> {
    list.iter().map(|&(x, y, color)| PixelWrite { x, y, color }).collect()
}

#[test]
fn steep_segment_steps_along_y() {
    let aabb = boxed((0, 0), (100, 100));
    let got = rasterize_segment(&aabb, px(10, 10), px(15, 17), COLOR).unwrap();
    let expected = writes(&[
        (10, 10, 4210752250),
        (11, 10, 0),
        (10, 11, 1203072072),
        (11, 11, 3007680177),
        (11, 12, 2406144143),
        (12, 12, 1804608106),
        (12, 13, 3609216214),
        (13, 13, 601536035),
        (12, 14, 601536036),
        (13, 14, 3609216213),
        (13, 15, 1804608107),
        (14, 15, 2406144142),
        (14, 16, 3007680178),
        (15, 16, 1203072071),
        (15, 17, 4210752250),
        (16, 17, 0),
    ]);
    assert_eq!(got, expected);
    // One sample for each row from 10 to 17, none for a column on its own.
    let rows: Vec<u16> = got.iter().step_by(2).map(|w| w.y).collect();
    assert_eq!(rows, vec![10, 11, 12, 13, 14, 15, 16, 17]);
    let span = walk_of(px(10, 10), px(15, 17));
    assert!(!span.along_x);
    assert_eq!((span.from, span.to), (10 * ONE, 17 * ONE));
}

#[test]
fn shallow_segment_steps_along_x() {
    let aabb = boxed((0, 0), (10, 10));
    let got = rasterize_segment(&aabb, px(1, 1), px(5, 2), 256).unwrap();
    let expected = writes(&[
        (1, 1, 256),
        (1, 2, 0),
        (2, 1, 192),
        (2, 2, 64),
        (3, 1, 128),
        (3, 2, 128),
        (4, 1, 64),
        (4, 2, 192),
        (5, 2, 256),
        (5, 3, 0),
    ]);
    assert_eq!(got, expected);
    assert!(walk_of(px(1, 1), px(5, 2)).along_x);
}

#[test]
fn diagonal_steps_along_x() {
    let aabb = boxed((0, 0), (3, 3));
    let got = rasterize_segment(&aabb, px(0, 0), px(3, 3), 1000).unwrap();
    let expected = writes(&[
        (0, 0, 1000),
        (0, 1, 0),
        (1, 1, 1000),
        (1, 2, 0),
        (2, 2, 1000),
        (2, 3, 0),
        (3, 3, 1000),
    ]);
    assert_eq!(got, expected);
    let falling = rasterize_segment(&aabb, px(0, 3), px(3, 0), 1000).unwrap();
    let expected = writes(&[
        (0, 3, 1000),
        (1, 2, 1000),
        (1, 3, 0),
        (2, 1, 1000),
        (2, 2, 0),
        (3, 0, 1000),
        (3, 1, 0),
    ]);
    assert_eq!(falling, expected);
}

#[test]
fn vertical_and_horizontal_segments() {
    let aabb = boxed((0, 0), (9, 9));
    let vertical = rasterize_segment(&aabb, px(4, 2), px(4, 4), 7).unwrap();
    assert_eq!(
        vertical,
        writes(&[(4, 2, 7), (5, 2, 0), (4, 3, 7), (5, 3, 0), (4, 4, 7), (5, 4, 0)])
    );
    let horizontal = rasterize_segment(&aabb, px(8, 9), px(6, 9), 7).unwrap();
    assert_eq!(horizontal, writes(&[(6, 9, 7), (7, 9, 7), (8, 9, 7)]));
}

#[test]
fn segment_is_symmetric() {
    let aabb = boxed((2, 3), (40, 30));
    let ends = [
        (px(10, 10), px(15, 17)),
        (px(0, 0), px(50, 50)),
        (px(5, 29), px(38, 4)),
        (px(20, 0), px(20, 40)),
        (px(-7, 12), px(60, 12)),
        (Coord2D { x: ONE / 3, y: 7 * ONE + 5 }, Coord2D { x: 33 * ONE + 99, y: 21 * ONE / 2 }),
        (Coord2D { x: 12 * ONE + 1, y: 25 * ONE }, Coord2D { x: 11 * ONE, y: 4 * ONE + ONE / 7 }),
    ];
    for &(p1, p2) in ends.iter() {
        let there = rasterize_segment(&aabb, p1, p2, COLOR).unwrap();
        let back = rasterize_segment(&aabb, p2, p1, COLOR).unwrap();
        assert!(!there.is_empty());
        assert_eq!(there, back);
    }
}

#[test]
fn segment_is_clipped_to_the_box() {
    let aabb = boxed((2, 0), (3, 10));
    let got = rasterize_segment(&aabb, px(0, 0), Coord2D { x: 5 * ONE, y: 5 * ONE / 2 }, 256);
    assert_eq!(got.unwrap(), writes(&[(2, 1, 256), (2, 2, 0), (3, 1, 128), (3, 2, 128)]));
    let aabb = boxed((5, 5), (20, 9));
    for w in rasterize_segment(&aabb, px(0, 0), px(30, 14), COLOR).unwrap() {
        assert!(5 <= w.x && w.x <= 20 && 5 <= w.y && w.y <= 9);
    }
}

#[test]
fn segment_outside_the_box_writes_nothing() {
    let aabb = boxed((10, 10), (20, 20));
    let outside = [
        (px(0, 0), px(8, 30)),
        (px(22, 0), px(40, 30)),
        (px(0, 8), px(30, 0)),
        (px(0, 22), px(30, 35)),
        (px(-100, -100), px(-50, -3)),
        (px(70000, 12), px(70010, 18)),
        (px(0, 15), px(15, 30)),
    ];
    for &(p1, p2) in outside.iter() {
        assert_eq!(rasterize_segment(&aabb, p1, p2, COLOR), Ok(vec![]));
        assert_eq!(rasterize_segment(&aabb, p2, p1, COLOR), Ok(vec![]));
    }
}

#[test]
fn segment_next_to_the_box_reaches_the_border_pixels() {
    // Half a pixel above the box: the lower half of each sample falls on the
    // first row of the box.
    let aabb = boxed((10, 10), (20, 20));
    let p1 = Coord2D { x: 12 * ONE, y: 9 * ONE + ONE / 2 };
    let p2 = Coord2D { x: 18 * ONE, y: 9 * ONE + ONE / 2 };
    let got = rasterize_segment(&aabb, p1, p2, COLOR).unwrap();
    let expected: Vec<PixelWrite> =
        (12..=18).map(|x| PixelWrite { x, y: 10, color: 2105376125 }).collect();
    assert_eq!(got, expected);
}

#[test]
fn segment_with_fractional_ends() {
    let aabb = boxed((0, 0), (10, 10));
    let p1 = Coord2D { x: ONE / 2, y: ONE / 4 };
    let p2 = Coord2D { x: 2 * ONE + ONE / 2, y: ONE + ONE / 4 };
    let got = rasterize_segment(&aabb, p1, p2, 1 << 16).unwrap();
    let expected = writes(&[
        (0, 0, 65536),
        (0, 1, 0),
        (1, 0, 32768),
        (1, 1, 32768),
        (2, 1, 65536),
        (2, 2, 0),
    ]);
    assert_eq!(got, expected);
}

#[test]
fn segment_from_negative_coordinates() {
    let aabb = boxed((0, 0), (4, 4));
    let got = rasterize_segment(&aabb, px(-2, -1), px(2, 1), 100).unwrap();
    let expected = writes(&[(0, 0, 100), (0, 1, 0), (1, 0, 50), (1, 1, 50), (2, 1, 100), (2, 2, 0)]);
    assert_eq!(got, expected);
}

#[test]
fn segment_across_the_whole_coordinate_range() {
    let aabb = boxed((0, 0), (65535, 65535));
    let p1 = Coord2D { x: i64::MIN, y: i64::MIN };
    let p2 = Coord2D { x: i64::MAX, y: i64::MAX };
    let got = rasterize_segment(&aabb, p1, p2, 9).unwrap();
    assert_eq!(got.len(), 2 * 65536 - 1);
    assert_eq!(got[0], PixelWrite { x: 0, y: 0, color: 9 });
    assert_eq!(got[1], PixelWrite { x: 0, y: 1, color: 0 });
    assert_eq!(got[got.len() - 1], PixelWrite { x: 65535, y: 65535, color: 9 });
    let steep = rasterize_segment(&aabb, Coord2D { x: i64::MAX, y: i64::MIN }, Coord2D { x: i64::MAX - 1, y: i64::MAX }, 9);
    assert_eq!(steep, Ok(vec![]));
}

#[test]
fn empty_segment_is_an_error() {
    let aabb = boxed((0, 0), (10, 10));
    assert_eq!(
        rasterize_segment(&aabb, px(3, 3), px(3, 3), COLOR),
        Err(RenderError::EmptySegment)
    );
    assert_eq!(
        rasterize_segment(&aabb, px(300, -3), px(300, -3), COLOR),
        Err(RenderError::EmptySegment)
    );
}

#[test]
fn segment_in_an_invalid_box_is_an_error() {
    let aabb = boxed((10, 0), (9, 10));
    assert_eq!(rasterize_segment(&aabb, px(3, 3), px(4, 4), COLOR), Err(RenderError::InvalidBox));
    assert_eq!(rasterize_segment(&aabb, px(3, 3), px(3, 3), COLOR), Err(RenderError::InvalidBox));
    let aabb = boxed((0, 10), (9, 9));
    assert_eq!(rasterize_segment(&aabb, px(3, 3), px(4, 4), COLOR), Err(RenderError::InvalidBox));
}

#[test]
fn color_shares_round_down() {
    assert_eq!(scale_color(COLOR, ONE as u64), COLOR);
    assert_eq!(scale_color(COLOR, 0), 0);
    assert_eq!(scale_color(COLOR, (ONE / 2) as u64), 2105376125);
    assert_eq!(scale_color(3, (ONE / 2) as u64), 1);
    assert_eq!(scale_color(u32::MAX, (ONE - 1) as u64), u32::MAX - 1);
    assert_eq!(scale_color(1, (ONE - 1) as u64), 0);
}

#[test]
fn polyline_joins_its_segments_in_order() {
    let aabb = boxed((0, 0), (20, 20));
    let pts = [px(1, 1), px(5, 2), px(5, 6), px(0, 0)];
    let mut expected = Vec::new();
    for pair in pts.windows(2) {
        expected.extend(rasterize_segment(&aabb, pair[0], pair[1], COLOR).unwrap());
    }
    let got = rasterize_polyline(&aabb, &pts, COLOR).unwrap();
    assert_eq!(got, expected);
    assert_eq!(got[0], PixelWrite { x: 1, y: 1, color: COLOR });
    assert_eq!(got.len(), 10 + 10 + 14);
}

#[test]
fn polyline_of_fewer_than_two_points_is_no_error() {
    let aabb = boxed((0, 0), (20, 20));
    assert_eq!(rasterize_polyline(&aabb, &[], COLOR), Ok(vec![]));
    assert_eq!(rasterize_polyline(&aabb, &[px(3, 3)], COLOR), Ok(vec![]));
    let invalid = boxed((5, 5), (4, 4));
    assert_eq!(rasterize_polyline(&invalid, &[], COLOR), Ok(vec![]));
    assert_eq!(rasterize_polyline(&invalid, &[px(3, 3)], COLOR), Ok(vec![]));
}

#[test]
fn polyline_errors() {
    let aabb = boxed((0, 0), (20, 20));
    let pts = [px(1, 1), px(5, 2), px(5, 2), px(0, 0)];
    assert_eq!(rasterize_polyline(&aabb, &pts, COLOR), Err(RenderError::EmptySegment));
    assert_eq!(
        rasterize_polyline(&aabb, &[px(1, 1), px(1, 1)], COLOR),
        Err(RenderError::EmptySegment)
    );
    // Points that meet again later are fine.
    let pts = [px(1, 1), px(5, 2), px(1, 1)];
    assert!(rasterize_polyline(&aabb, &pts, COLOR).is_ok());
    let invalid = boxed((5, 5), (4, 4));
    assert_eq!(
        rasterize_polyline(&invalid, &[px(1, 1), px(1, 1)], COLOR),
        Err(RenderError::InvalidBox)
    );
}
