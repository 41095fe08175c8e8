use vector_beam::binary32::Binary32;
use vector_beam::font::{layout, line_width};
use vector_beam::geometry::Segment;
use vector_beam::glyphs::glyph;

const MAX_BLOCK_WIDTH: f32 = 3.4;
const MAX_BLOCK_HEIGHT: f32 = 2.6;
const MAX_GLYPH_HEIGHT: f32 = 0.5;

fn b(x: f32) -> Binary32 {
    Binary32 { bits: x.to_bits() }
}

fn f(x: Binary32) -> f32 {
    f32::from_bits(x.bits)
}

fn white() -> [Binary32; 3] {
    [b(1.0), b(1.0), b(1.0)]
}

fn bounds(segs: &[Segment]) -> ([f32; 2], [f32; 2]) {
    let mut min = [f32::INFINITY; 2];
    let mut max = [f32::NEG_INFINITY; 2];
    for s in segs {
        for p in [s.p0, s.p1] {
            for a in 0..2 {
                min[a] = min[a].min(f(p[a]));
                max[a] = max[a].max(f(p[a]));
            }
        }
    }
    (min, max)
}

#[test]
fn glyph_polylines_become_connected_segments() {
    // 'A' is a 5-point outline (4 segments) plus a 2-point bar (1).
    let segs = layout("A", white());
    assert_eq!(segs.len(), 5);
    // Within the outline polyline, each segment starts where the
    // previous one ended (beam path continuity).
    for w in segs[..4].windows(2) {
        assert_eq!(w[0].p1, w[1].p0);
    }
}

#[test]
fn every_glyph_is_continuous_within_polylines() {
    for c in ('A'..='Z').chain('0'..='9').chain(".,-:!?'".chars()) {
        let polylines = glyph(c).unwrap_or_else(|| panic!("missing glyph {c:?}"));
        assert!(!polylines.is_empty(), "empty glyph {c:?}");
        for polyline in polylines {
            assert!(polyline.len() >= 2, "degenerate polyline in {c:?}");
        }
    }
}

#[test]
fn layout_is_centered() {
    // H's ink fills its whole cell, so the ink box equals the metric box
    // and centering is exact.
    let (min, max) = bounds(&layout("HH", white()));
    assert!((min[0] + max[0]).abs() < 1e-5, "x-centered: {min:?} {max:?}");
    assert!((min[1] + max[1]).abs() < 1e-5, "y-centered: {min:?} {max:?}");
}

#[test]
fn short_text_respects_glyph_height_cap() {
    let (min, max) = bounds(&layout("A", white()));
    assert!(max[1] - min[1] <= MAX_GLYPH_HEIGHT + 1e-5);
}

#[test]
fn long_text_fits_block_width() {
    let (min, max) = bounds(&layout("0123456789 ABCDEFGHIJ", white()));
    assert!(max[0] - min[0] <= MAX_BLOCK_WIDTH + 1e-5);
}

#[test]
fn multiline_stacks_and_fits() {
    let one = bounds(&layout("AB", white()));
    let two = bounds(&layout("AB\nCD", white()));
    assert!(two.1[1] - two.0[1] > one.1[1] - one.0[1]);
    assert!(two.1[1] - two.0[1] <= MAX_BLOCK_HEIGHT + 1e-5);
}

#[test]
fn lowercase_folds_and_unknown_chars_advance() {
    assert_eq!(layout("abc", white()).len(), layout("ABC", white()).len());
    // Unsupported glyphs draw nothing but still take a cell.
    assert!(layout("~", white()).is_empty());
    let (min, max) = bounds(&layout("A~B", white()));
    let (min2, max2) = bounds(&layout("AB", white()));
    assert!(max[0] - min[0] > max2[0] - min2[0]);
}

#[test]
fn no_text_draws_nothing() {
    assert!(layout("", white()).is_empty());
    assert!(layout("\n\n", white()).is_empty());
    assert_eq!(f(line_width(0)), 0.0);
    assert_eq!(f(line_width(1)), 4.0);
    assert_eq!(f(line_width(3)), 16.0);
}

#[test]
fn a_dash_lies_where_it_should() {
    let segs = layout("-", [b(0.25), b(0.5), b(0.75)]);
    assert_eq!(segs.len(), 1);
    let scale = 0.5f32 / 6.0;
    assert_eq!(f(segs[0].p0[0]), (-2.0 + 1.0) * scale);
    assert_eq!(f(segs[0].p1[0]), (-2.0 + 3.0) * scale);
    assert_eq!(f(segs[0].p0[1]), (-3.0 + 3.0) * scale);
    assert_eq!(f(segs[0].p0[2]), 0.0);
    assert_eq!(segs[0].color, [b(0.25), b(0.5), b(0.75)]);
}

#[test]
fn small_letters_are_drawn_as_capitals() {
    let a = layout("ab?\nz", white());
    let c = layout("AB?\nZ", white());
    assert_eq!(a.len(), c.len());
    for (x, y) in a.iter().zip(&c) {
        assert_eq!((x.p0, x.p1, x.color), (y.p0, y.p1, y.color));
    }
}

#[test]
fn a_comma_hangs_below_the_baseline() {
    assert_eq!(glyph(','), Some(vec![vec![(4, 2), (2, -2)]]));
    assert_eq!(glyph('.'), Some(vec![vec![(4, 0), (4, 1)]]));
    assert_eq!(glyph('~'), None);
    assert_eq!(glyph('é'), None);
}

/// The layout of a text as it is computed with native arithmetic.
fn native(text: &str) -> Vec<[f32; 4]> {
    let width = |n: usize| if n == 0 { 0.0 } else { (n - 1) as f32 * 6.0 + 4.0 };
    let lines: Vec<&str> = text.split('\n').collect();
    let widest = lines.iter().map(|l| width(l.chars().count())).fold(0.0, f32::max);
    let height = (lines.len() - 1) as f32 * 9.0 + 6.0;
    let scale = (3.4 / widest).min(2.6 / height).min(0.5 / 6.0);
    let mut out = Vec::new();
    for (row, line) in lines.iter().enumerate() {
        let base = height * 0.5 - 6.0 - row as f32 * 9.0;
        let mut pen = -width(line.chars().count()) * 0.5;
        for c in line.chars() {
            for polyline in glyph(c).unwrap_or_default() {
                for w in polyline.windows(2) {
                    let p = |(x, y): (i32, i32)| {
                        ((pen + x as f32 / 2.0) * scale, (base + y as f32 / 2.0) * scale)
                    };
                    let (a, z) = (p(w[0]), p(w[1]));
                    out.push([a.0, a.1, z.0, z.1]);
                }
            }
            pen += 6.0;
        }
    }
    out
}

#[test]
fn layout_agrees_with_native_arithmetic() {
    for text in [
        "HELLO, WORLD!",
        "A\nBC\n\nDEF: 0.5?",
        "the quick brown fox jumps over the lazy dog",
        "1\n2\n3\n4\n5\n6\n7\n8\n9\n0",
    ] {
        let ours: Vec<[f32; 4]> = layout(text, white())
            .iter()
            .map(|s| [f(s.p0[0]), f(s.p0[1]), f(s.p1[0]), f(s.p1[1])])
            .collect();
        assert_eq!(ours, native(text));
    }
}

#[test]
fn tall_blocks_fit_but_for_the_tail_of_a_comma() {
    let rows = vec!["H"; 200].join("\n");
    let (min, max) = bounds(&layout(&rows, white()));
    assert!(max[1] <= 1.3000002 && min[1] >= -1.3000002);
    let (min, _) = bounds(&layout(&(rows + "\n,"), white()));
    assert!(min[1] < -1.3);
}

#[test]
fn joined_texts_are_drawn_in_turn() {
    let step = |s: &Segment| [f(s.p1[0]) - f(s.p0[0]), f(s.p1[1]) - f(s.p0[1])];
    for (first, second) in [("A", "B"), ("VECTOR", " beam 42"), ("", "X-Y"), ("HI\n", "~"), ("\n", "")] {
        let alone: Vec<Segment> =
            layout(first, white()).into_iter().chain(layout(second, white())).collect();
        for joined in [format!("{first}{second}"), format!("{first}\n{second}")] {
            let both = layout(&joined, white());
            assert_eq!(both.len(), alone.len(), "{joined:?}");
            // The scale may differ, and the direction of a stroke does not.
            for (s, t) in both.iter().zip(&alone) {
                let ([x, y], [u, v]) = (step(s), step(t));
                assert!((x * v - y * u).abs() < 1e-6, "{joined:?}");
                assert!(x * u + y * v > 0.0, "{joined:?}");
            }
        }
    }
    let count = |text: &str| layout(text, white()).len();
    assert_eq!((count("A"), count("B"), count("AB"), count("A\nB")), (5, 10, 15, 15));
}
