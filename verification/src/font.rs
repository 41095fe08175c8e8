//! Stroke font: text laid out into beam segments.
//!
//! The segments come polyline by polyline, character by character, from left to
//! right and from the top line to the bottom line, so that their order is the
//! path of the beam.
use vstd::arithmetic::power2::*;
use vstd::prelude::*;

use crate::binary32;
use crate::binary32::Binary32;
use crate::geometry;
use crate::geometry::{Segment, Stroke};
use crate::glyphs;
use crate::order;
use crate::text;

verus! {

/// The lines of a text: `\n` stands between two lines.
pub open spec fn lines(s: Seq<char>) -> Seq<Seq<char>>
    decreases s.len(),
{
    if s.len() == 0 {
        seq![Seq::empty()]
    } else {
        let before = lines(s.drop_last());
        if s.last() == '\n' {
            before.push(Seq::empty())
        } else {
            before.update(before.len() - 1, before.last().push(s.last()))
        }
    }
}

/// The width of a cell of the grid.
pub open spec fn grid_width() -> Binary32 {
    binary32::nearest(4, 1)
}

/// The height of a capital in the grid.
pub open spec fn grid_height() -> Binary32 {
    binary32::nearest(6, 1)
}

/// How far the pen moves for a character: its cell, and the gap behind it.
pub open spec fn advance() -> Binary32 {
    binary32::nearest(6, 1)
}

/// The distance between the baselines of two lines.
pub open spec fn line_height() -> Binary32 {
    binary32::nearest(9, 1)
}

/// The box that a block of text has to fit, and the height that a capital has at
/// most, in the units of the scene.
pub open spec fn max_block_width() -> Binary32 {
    binary32::nearest(34, 10)
}

pub open spec fn max_block_height() -> Binary32 {
    binary32::nearest(26, 10)
}

pub open spec fn max_glyph_height() -> Binary32 {
    binary32::nearest(1, 2)
}

/// The width of a line of `n` characters in the grid: every character moves the
/// pen, but the last takes only its cell.
pub open spec fn width_of_line(n: nat) -> Binary32 {
    if n == 0 {
        binary32::signed(false, 0)
    } else {
        binary32::nearest((n - 1) as nat, 1) * advance() + grid_width()
    }
}

/// The width of the widest line.
pub open spec fn widest(lines: Seq<Seq<char>>) -> Binary32
    decreases lines.len(),
{
    if lines.len() == 0 {
        binary32::signed(false, 0)
    } else {
        widest(lines.drop_last()).larger(width_of_line(lines.last().len()))
    }
}

/// The height of a block of `n` lines in the grid.
pub open spec fn height_of_block(n: nat) -> Binary32 {
    binary32::nearest((n - 1) as nat, 1) * line_height() + grid_height()
}

/// The factor that fits a block into its box, and its capitals under their
/// greatest height.
pub open spec fn scale(lines: Seq<Seq<char>>) -> Binary32 {
    (max_block_width() / widest(lines)).smaller(
        max_block_height() / height_of_block(lines.len()),
    ).smaller(max_glyph_height() / grid_height())
}

/// The baseline of a row in a block of `n` lines, which reaches as far up as down.
pub open spec fn baseline(n: nat, row: nat) -> Binary32 {
    height_of_block(n) * binary32::nearest(1, 2) - grid_height() - binary32::nearest(row, 1)
        * line_height()
}

/// Where the pen stands before the character `i` of a line of `n`, which reaches
/// as far left as right.
pub open spec fn pen(n: nat, i: nat) -> Binary32
    decreases i,
{
    if i == 0 {
        width_of_line(n).negated() * binary32::nearest(1, 2)
    } else {
        pen(n, (i - 1) as nat) + advance()
    }
}

/// `h` halves.
pub open spec fn halves(h: int) -> Binary32 {
    if h < 0 {
        binary32::nearest((-h) as nat, 2).negated()
    } else {
        binary32::nearest(h as nat, 2)
    }
}

/// How a character is placed.
pub struct Placing {
    pub pen: Binary32,
    pub base: Binary32,
    pub scale: Binary32,
    pub color: Seq<Binary32>,
}

impl Placing {
    /// Where a point of a character comes to lie.
    pub open spec fn point(self, p: (i32, i32)) -> Seq<Binary32> {
        seq![
            (self.pen + halves(p.0 as int)) * self.scale,
            (self.base + halves(p.1 as int)) * self.scale,
            binary32::signed(false, 0),
        ]
    }

    /// The strokes of a polyline: each leads from a point to the next.
    pub open spec fn polyline(self, points: Seq<(i32, i32)>) -> Seq<Stroke> {
        Seq::new(
            (points.len() - 1) as nat,
            |i: int|
                Stroke {
                    p0: self.point(points[i]),
                    p1: self.point(points[i + 1]),
                    color: self.color,
                },
        )
    }

    /// The strokes of some polylines, one after the other.
    pub open spec fn polylines(self, list: Seq<Seq<(i32, i32)>>) -> Seq<Stroke>
        decreases list.len(),
    {
        if list.len() == 0 {
            Seq::empty()
        } else {
            self.polylines(list.drop_last()) + self.polyline(list.last())
        }
    }

    /// The strokes of a character; none where it cannot be drawn.
    pub open spec fn character(self, c: char) -> Seq<Stroke> {
        match glyphs::strokes(c) {
            Some(list) => self.polylines(list),
            None => Seq::empty(),
        }
    }
}

/// The strokes of `line`, which is a line of `n` characters or its beginning. The pen
/// starts where the whole line does.
pub open spec fn line_strokes(
    line: Seq<char>,
    n: nat,
    base: Binary32,
    scale: Binary32,
    color: Seq<Binary32>,
) -> Seq<Stroke>
    decreases line.len(),
{
    if line.len() == 0 {
        Seq::empty()
    } else {
        let i = (line.len() - 1) as nat;
        line_strokes(line.drop_last(), n, base, scale, color) + Placing {
            pen: pen(n, i),
            base,
            scale,
            color,
        }.character(line.last())
    }
}

/// The strokes of `rows`, which are the lines of a block of `n` or the first of them.
pub open spec fn row_strokes(
    rows: Seq<Seq<char>>,
    n: nat,
    scale: Binary32,
    color: Seq<Binary32>,
) -> Seq<Stroke>
    decreases rows.len(),
{
    if rows.len() == 0 {
        Seq::empty()
    } else {
        let row = (rows.len() - 1) as nat;
        let line = rows.last();
        row_strokes(rows.drop_last(), n, scale, color) + line_strokes(
            line,
            line.len(),
            baseline(n, row),
            scale,
            color,
        )
    }
}

/// The strokes of a text.
pub open spec fn text_strokes(text: Seq<char>, color: Seq<Binary32>) -> Seq<Stroke> {
    let all = lines(text);
    if widest(all).at_most(binary32::signed(false, 0)) {
        Seq::empty()
    } else {
        row_strokes(all, all.len(), scale(all), color)
    }
}

/// The rows that a list of lists of characters holds.
pub open spec fn rows(v: Seq<Vec<char>>) -> Seq<Seq<char>> {
    v.map_values(|r: Vec<char>| r@)
}

/// The lines of a text.
fn split_lines(text: &str) -> (r: Vec<Vec<char>>)
    ensures
        rows(r@) == lines(text@),
        r@.len() > 0,
{
    let chars: Vec<char> = text::characters(text);
    let mut done: Vec<Vec<char>> = Vec::new();
    let mut current: Vec<char> = Vec::new();
    let mut i: usize = 0;
    proof {
        assert(text@.take(0) =~= Seq::<char>::empty());
        assert(rows(done@).push(current@) =~= lines(text@.take(0)));
    }
    while i < chars.len()
        invariant
            i <= chars@.len(),
            chars@ == text@,
            rows(done@).push(current@) == lines(text@.take(i as int)),
        decreases chars@.len() - i,
    {
        let c: char = chars[i];
        let ghost before = lines(text@.take(i as int));
        let ghost held = rows(done@);
        proof {
            assert(text@.take(i + 1).drop_last() =~= text@.take(i as int));
            assert(before.last() == current@);
        }
        if c == '\n' {
            done.push(current);
            current = Vec::new();
            proof {
                assert(rows(done@) =~= before);
                assert(current@ =~= Seq::<char>::empty());
            }
        } else {
            current.push(c);
            proof {
                assert(held.push(current@) =~= before.update(before.len() - 1, current@));
            }
        }
        i = i + 1;
    }
    proof {
        assert(text@.take(i as int) =~= text@);
        assert(rows(done@.push(current)) =~= rows(done@).push(current@));
    }
    done.push(current);
    done
}

/// The width of a line of `n` characters in the grid.
pub fn line_width(n: usize) -> (w: Binary32)
    ensures
        w == width_of_line(n as nat),
{
    if n == 0 {
        Binary32::zero()
    } else {
        Binary32::from_u64(n as u64 - 1) * Binary32::ratio(6, 1) + Binary32::ratio(4, 1)
    }
}

fn number_of_halves(h: i32) -> (r: Binary32)
    ensures
        r == halves(h as int),
{
    if h < 0 {
        Binary32::ratio((-(h as i64)) as u32, 2).opposite()
    } else {
        Binary32::ratio(h as u32, 2)
    }
}

/// Where and how a character is drawn.
struct Place {
    pen: Binary32,
    base: Binary32,
    scale: Binary32,
    color: [Binary32; 3],
}

impl View for Place {
    type V = Placing;

    closed spec fn view(&self) -> Placing {
        Placing { pen: self.pen, base: self.base, scale: self.scale, color: self.color@ }
    }
}

impl Place {
    fn point(&self, p: (i32, i32)) -> (r: [Binary32; 3])
        ensures
            r@ == self@.point(p),
    {
        let x: Binary32 = (self.pen + number_of_halves(p.0)) * self.scale;
        let y: Binary32 = (self.base + number_of_halves(p.1)) * self.scale;
        let r: [Binary32; 3] = [x, y, Binary32::zero()];
        proof {
            assert(r@ =~= self@.point(p));
        }
        r
    }

    fn push_polyline(&self, points: &Vec<(i32, i32)>, out: &mut Vec<Segment>)
        requires
            points@.len() >= 1,
        ensures
            geometry::strokes(final(out)@) == geometry::strokes(old(out)@) + self@.polyline(
                points@,
            ),
    {
        let last: usize = points.len() - 1;
        let mut i: usize = 0;
        proof {
            assert(self@.polyline(points@).take(0) =~= Seq::<Stroke>::empty());
            assert(geometry::strokes(out@) =~= geometry::strokes(old(out)@) + Seq::<
                Stroke,
            >::empty());
        }
        while i < last
            invariant
                i <= last,
                last + 1 == points@.len(),
                geometry::strokes(out@) == geometry::strokes(old(out)@) + self@.polyline(
                    points@,
                ).take(i as int),
            decreases last - i,
        {
            let s: Segment = Segment::new(
                self.point(points[i]),
                self.point(points[i + 1]),
                self.color,
            );
            let ghost before = out@;
            out.push(s);
            proof {
                let all = self@.polyline(points@);
                assert(all.take(i + 1) =~= all.take(i as int).push(s@));
                assert(geometry::strokes(out@) =~= geometry::strokes(before).push(s@));
                assert(geometry::strokes(out@) =~= geometry::strokes(old(out)@) + all.take(i + 1));
            }
            i = i + 1;
        }
        proof {
            assert(self@.polyline(points@).take(i as int) =~= self@.polyline(points@));
        }
    }

    fn push_character(&self, c: char, out: &mut Vec<Segment>)
        ensures
            geometry::strokes(final(out)@) == geometry::strokes(old(out)@) + self@.character(c),
    {
        proof {
            glyphs::law_glyphs_are_drawable(c);
            assert(geometry::strokes(out@) =~= geometry::strokes(old(out)@) + Seq::<
                Stroke,
            >::empty());
        }
        match glyphs::glyph(c) {
            None => {},
            Some(list) => {
                let ghost all = glyphs::strokes(c)->0;
                let mut i: usize = 0;
                proof {
                    assert(all.take(0) =~= Seq::<Seq<(i32, i32)>>::empty());
                }
                while i < list.len()
                    invariant
                        i <= list@.len(),
                        all == glyphs::polylines(list@),
                        forall|k: int| 0 <= k < all.len() ==> (#[trigger] all[k]).len() >= 2,
                        geometry::strokes(out@) == geometry::strokes(old(out)@) + self@.polylines(
                            all.take(i as int),
                        ),
                    decreases list@.len() - i,
                {
                    proof {
                        assert(all[i as int] == list@[i as int]@);
                        assert(all.take(i + 1).drop_last() =~= all.take(i as int));
                    }
                    self.push_polyline(&list[i], out);
                    proof {
                        assert(geometry::strokes(out@) =~= geometry::strokes(old(out)@)
                            + self@.polylines(all.take(i + 1)));
                    }
                    i = i + 1;
                }
                proof {
                    assert(all.take(i as int) =~= all);
                }
            },
        }
    }
}

fn push_line(
    line: &Vec<char>,
    base: Binary32,
    scale: Binary32,
    color: [Binary32; 3],
    out: &mut Vec<Segment>,
)
    ensures
        geometry::strokes(final(out)@) == geometry::strokes(old(out)@) + line_strokes(
            line@,
            line@.len(),
            base,
            scale,
            color@,
        ),
{
    let advance: Binary32 = Binary32::ratio(6, 1);
    let mut pen: Binary32 = line_width(line.len()).opposite() * Binary32::ratio(1, 2);
    let mut i: usize = 0;
    proof {
        assert(line@.take(0) =~= Seq::<char>::empty());
        assert(geometry::strokes(out@) =~= geometry::strokes(old(out)@) + Seq::<Stroke>::empty());
    }
    while i < line.len()
        invariant
            i <= line@.len(),
            advance == self::advance(),
            pen == self::pen(line@.len(), i as nat),
            geometry::strokes(out@) == geometry::strokes(old(out)@) + line_strokes(
                line@.take(i as int),
                line@.len(),
                base,
                scale,
                color@,
            ),
        decreases line@.len() - i,
    {
        let place: Place = Place { pen, base, scale, color };
        let ghost before = line@.take(i as int);
        place.push_character(line[i], out);
        proof {
            assert(line@.take(i + 1).drop_last() =~= before);
            assert(geometry::strokes(out@) =~= geometry::strokes(old(out)@) + line_strokes(
                line@.take(i + 1),
                line@.len(),
                base,
                scale,
                color@,
            ));
        }
        pen = pen + advance;
        i = i + 1;
    }
    proof {
        assert(line@.take(i as int) =~= line@);
    }
}

/// Lays a text out as segments around the origin.
///
/// Every line is centred, and the lines stand one below the other. The block is
/// scaled as a whole to fit its box, without its capitals growing too tall.
pub fn layout(text: &str, color: [Binary32; 3]) -> (r: Vec<Segment>)
    ensures
        geometry::strokes(r@) == text_strokes(text@, color@),
{
    let list: Vec<Vec<char>> = split_lines(text);
    let ghost all = lines(text@);
    let mut widest: Binary32 = Binary32::zero();
    let mut i: usize = 0;
    proof {
        assert(all.take(0) =~= Seq::<Seq<char>>::empty());
    }
    while i < list.len()
        invariant
            i <= list@.len(),
            rows(list@) == all,
            widest == self::widest(all.take(i as int)),
        decreases list@.len() - i,
    {
        proof {
            assert(all.take(i + 1).drop_last() =~= all.take(i as int));
            assert(all[i as int] == list@[i as int]@);
        }
        widest = widest.max(line_width(list[i].len()));
        i = i + 1;
    }
    proof {
        assert(all.take(i as int) =~= all);
    }
    let mut out: Vec<Segment> = Vec::new();
    proof {
        assert(geometry::strokes(out@) =~= Seq::<Stroke>::empty());
    }
    if widest.is_at_most(Binary32::zero()) {
        return out;
    }
    let line_height: Binary32 = Binary32::ratio(9, 1);
    let grid_height: Binary32 = Binary32::ratio(6, 1);
    let height: Binary32 = Binary32::from_u64(list.len() as u64 - 1) * line_height + grid_height;
    let scale: Binary32 = (Binary32::ratio(34, 10) / widest).min(
        Binary32::ratio(26, 10) / height,
    ).min(Binary32::ratio(1, 2) / grid_height);
    let mut row: usize = 0;
    while row < list.len()
        invariant
            row <= list@.len(),
            rows(list@) == all,
            line_height == self::line_height(),
            grid_height == self::grid_height(),
            height == height_of_block(all.len()),
            geometry::strokes(out@) == row_strokes(
                all.take(row as int),
                all.len(),
                scale,
                color@,
            ),
        decreases list@.len() - row,
    {
        proof {
            assert(all.take(row + 1).drop_last() =~= all.take(row as int));
            assert(all[row as int] == list@[row as int]@);
        }
        let base: Binary32 = height * Binary32::ratio(1, 2) - grid_height - Binary32::from_u64(
            row as u64,
        ) * line_height;
        push_line(&list[row], base, scale, color, &mut out);
        row = row + 1;
    }
    proof {
        assert(all.take(row as int) =~= all);
    }
    out
}

/// The strokes of a polyline hang together: each begins where the one before it
/// ends.
pub proof fn law_polyline_is_connected(place: Placing, points: Seq<(i32, i32)>, i: int)
    requires
        0 <= i < points.len() - 2,
    ensures
        place.polyline(points)[i].p1 == place.polyline(points)[i + 1].p0,
{
}

/// Whether two texts are drawn alike, character by character.
pub open spec fn alike(a: Seq<char>, b: Seq<char>) -> bool {
    &&& a.len() == b.len()
    &&& forall|i: int|
        0 <= i < a.len() ==> glyphs::strokes(#[trigger] a[i]) == glyphs::strokes(b[i]) && (a[i]
            == '\n' <==> b[i] == '\n')
}

/// Whether two lists of lines are drawn alike.
spec fn lines_alike(a: Seq<Seq<char>>, b: Seq<Seq<char>>) -> bool {
    &&& a.len() == b.len()
    &&& forall|r: int| 0 <= r < a.len() ==> alike(#[trigger] a[r], b[r])
}

proof fn lemma_lines_alike(a: Seq<char>, b: Seq<char>)
    requires
        alike(a, b),
    ensures
        lines_alike(lines(a), lines(b)),
        lines(a).len() >= 1,
    decreases a.len(),
{
    if a.len() > 0 {
        let x = a.drop_last();
        let y = b.drop_last();
        assert forall|i: int| 0 <= i < x.len() implies glyphs::strokes(#[trigger] x[i])
            == glyphs::strokes(y[i]) && (x[i] == '\n' <==> y[i] == '\n') by {
            assert(x[i] == a[i] && y[i] == b[i]);
        }
        lemma_lines_alike(x, y);
        let n = lines(x).len() - 1;
        assert(glyphs::strokes(a[a.len() - 1]) == glyphs::strokes(b[a.len() - 1]));
        assert forall|r: int| 0 <= r < lines(a).len() implies alike(
            #[trigger] lines(a)[r],
            lines(b)[r],
        ) by {
            if r < n {
                assert(lines(a)[r] == lines(x)[r] && lines(b)[r] == lines(y)[r]);
            } else if r == n {
                assert(alike(lines(x)[r], lines(y)[r]));
                let p = lines(a)[r];
                let q = lines(b)[r];
                assert forall|i: int| 0 <= i < p.len() implies glyphs::strokes(#[trigger] p[i])
                    == glyphs::strokes(q[i]) && (p[i] == '\n' <==> q[i] == '\n') by {
                    if i < lines(x)[r].len() {
                        assert(p[i] == lines(x)[r][i] && q[i] == lines(y)[r][i]);
                    }
                }
            }
        }
    }
}

proof fn lemma_widest_alike(a: Seq<Seq<char>>, b: Seq<Seq<char>>)
    requires
        lines_alike(a, b),
    ensures
        widest(a) == widest(b),
    decreases a.len(),
{
    if a.len() > 0 {
        assert(alike(a[a.len() - 1], b[a.len() - 1]));
        lemma_shorter_alike(a, b);
        lemma_widest_alike(a.drop_last(), b.drop_last());
    }
}

proof fn lemma_shorter_alike(a: Seq<Seq<char>>, b: Seq<Seq<char>>)
    requires
        lines_alike(a, b),
        a.len() > 0,
    ensures
        lines_alike(a.drop_last(), b.drop_last()),
{
    assert forall|r: int| 0 <= r < a.len() - 1 implies alike(
        #[trigger] a.drop_last()[r],
        b.drop_last()[r],
    ) by {
        assert(alike(a[r], b[r]));
    }
}

proof fn lemma_line_alike(
    a: Seq<char>,
    b: Seq<char>,
    n: nat,
    base: Binary32,
    scale: Binary32,
    color: Seq<Binary32>,
)
    requires
        alike(a, b),
    ensures
        line_strokes(a, n, base, scale, color) == line_strokes(b, n, base, scale, color),
    decreases a.len(),
{
    if a.len() > 0 {
        let x = a.drop_last();
        let y = b.drop_last();
        assert forall|i: int| 0 <= i < x.len() implies glyphs::strokes(#[trigger] x[i])
            == glyphs::strokes(y[i]) && (x[i] == '\n' <==> y[i] == '\n') by {
            assert(x[i] == a[i] && y[i] == b[i]);
        }
        lemma_line_alike(x, y, n, base, scale, color);
        assert(glyphs::strokes(a[a.len() - 1]) == glyphs::strokes(b[a.len() - 1]));
    }
}

proof fn lemma_rows_alike(
    a: Seq<Seq<char>>,
    b: Seq<Seq<char>>,
    n: nat,
    scale: Binary32,
    color: Seq<Binary32>,
)
    requires
        lines_alike(a, b),
    ensures
        row_strokes(a, n, scale, color) == row_strokes(b, n, scale, color),
    decreases a.len(),
{
    if a.len() > 0 {
        let row = (a.len() - 1) as nat;
        assert(alike(a[row as int], b[row as int]));
        lemma_shorter_alike(a, b);
        lemma_rows_alike(a.drop_last(), b.drop_last(), n, scale, color);
        lemma_line_alike(a.last(), b.last(), a.last().len(), baseline(n, row), scale, color);
    }
}

/// What is drawn of a text depends on its characters only by their strokes and by
/// where its lines end.
pub proof fn law_alike_texts_are_drawn_alike(a: Seq<char>, b: Seq<char>, color: Seq<Binary32>)
    requires
        alike(a, b),
    ensures
        text_strokes(a, color) == text_strokes(b, color),
{
    lemma_lines_alike(a, b);
    lemma_widest_alike(lines(a), lines(b));
    lemma_rows_alike(lines(a), lines(b), lines(a).len(), scale(lines(a)), color);
}

/// Small letters are drawn as capitals.
pub proof fn law_small_letters_are_drawn_as_capitals(text: Seq<char>, color: Seq<Binary32>)
    ensures
        text_strokes(text, color) == text_strokes(
            text.map_values(|c: char| glyphs::capital(c)),
            color,
        ),
{
    law_alike_texts_are_drawn_alike(text, text.map_values(|c: char| glyphs::capital(c)), color);
}

/// A character that cannot be drawn takes a cell, as a space does.
pub proof fn law_unknown_characters_are_spaces(text: Seq<char>, i: int, color: Seq<Binary32>)
    requires
        0 <= i < text.len(),
        glyphs::strokes(text[i]) is None,
        text[i] != '\n',
    ensures
        text_strokes(text, color) == text_strokes(text.update(i, ' '), color),
{
    law_alike_texts_are_drawn_alike(text, text.update(i, ' '), color);
}

/// The path of the beam over a polyline, in the grid of its character: from each point to
/// the next.
pub open spec fn polyline_path(points: Seq<(i32, i32)>) -> Seq<((i32, i32), (i32, i32))> {
    Seq::new((points.len() - 1) as nat, |i: int| (points[i], points[i + 1]))
}

/// The path of the beam over some polylines, one after the other.
pub open spec fn polylines_path(list: Seq<Seq<(i32, i32)>>) -> Seq<((i32, i32), (i32, i32))>
    decreases list.len(),
{
    if list.len() == 0 {
        Seq::empty()
    } else {
        polylines_path(list.drop_last()) + polyline_path(list.last())
    }
}

/// The path of the beam over a character, in its grid.
pub open spec fn character_path(c: char) -> Seq<((i32, i32), (i32, i32))> {
    match glyphs::strokes(c) {
        Some(list) => polylines_path(list),
        None => Seq::empty(),
    }
}

/// The path of the beam over the characters of a text, each in its own grid.
pub open spec fn path(text: Seq<char>) -> Seq<((i32, i32), (i32, i32))>
    decreases text.len(),
{
    if text.len() == 0 {
        Seq::empty()
    } else {
        path(text.drop_last()) + character_path(text.last())
    }
}

/// Whether a stroke is a step of a path, placed at a scale and in a color.
pub open spec fn is_step(
    s: Stroke,
    step: ((i32, i32), (i32, i32)),
    scale: Binary32,
    color: Seq<Binary32>,
) -> bool {
    exists|place: Placing|
        place.scale == scale && place.color == color && s == (Stroke {
            p0: #[trigger] place.point(step.0),
            p1: place.point(step.1),
            color,
        })
}

/// Whether some strokes are the steps of a path, in order.
pub open spec fn follows(
    list: Seq<Stroke>,
    path: Seq<((i32, i32), (i32, i32))>,
    scale: Binary32,
    color: Seq<Binary32>,
) -> bool {
    &&& list.len() == path.len()
    &&& forall|k: int| 0 <= k < list.len() ==> is_step(#[trigger] list[k], path[k], scale, color)
}

proof fn lemma_follows_both(
    a: Seq<Stroke>,
    b: Seq<Stroke>,
    p: Seq<((i32, i32), (i32, i32))>,
    q: Seq<((i32, i32), (i32, i32))>,
    scale: Binary32,
    color: Seq<Binary32>,
)
    requires
        follows(a, p, scale, color),
        follows(b, q, scale, color),
    ensures
        follows(a + b, p + q, scale, color),
{
    let list = a + b;
    assert forall|k: int| 0 <= k < list.len() implies is_step(
        #[trigger] list[k],
        (p + q)[k],
        scale,
        color,
    ) by {
        if k < a.len() {
            assert(is_step(a[k], p[k], scale, color));
        } else {
            assert(is_step(b[k - a.len()], q[k - a.len()], scale, color));
        }
    }
}

proof fn lemma_polyline_follows(place: Placing, points: Seq<(i32, i32)>)
    ensures
        follows(place.polyline(points), polyline_path(points), place.scale, place.color),
{
    let list = place.polyline(points);
    let path = polyline_path(points);
    assert forall|k: int| 0 <= k < list.len() implies is_step(
        #[trigger] list[k],
        path[k],
        place.scale,
        place.color,
    ) by {
        assert(place.point(path[k].0) == list[k].p0);
    }
}

proof fn lemma_polylines_follow(place: Placing, list: Seq<Seq<(i32, i32)>>)
    ensures
        follows(place.polylines(list), polylines_path(list), place.scale, place.color),
    decreases list.len(),
{
    if list.len() > 0 {
        lemma_polylines_follow(place, list.drop_last());
        lemma_polyline_follows(place, list.last());
        lemma_follows_both(
            place.polylines(list.drop_last()),
            place.polyline(list.last()),
            polylines_path(list.drop_last()),
            polyline_path(list.last()),
            place.scale,
            place.color,
        );
    }
}

proof fn lemma_line_follows(
    line: Seq<char>,
    n: nat,
    base: Binary32,
    scale: Binary32,
    color: Seq<Binary32>,
)
    ensures
        follows(line_strokes(line, n, base, scale, color), path(line), scale, color),
    decreases line.len(),
{
    if line.len() > 0 {
        let place = Placing { pen: pen(n, (line.len() - 1) as nat), base, scale, color };
        let c = line.last();
        lemma_line_follows(line.drop_last(), n, base, scale, color);
        if glyphs::strokes(c) is Some {
            lemma_polylines_follow(place, glyphs::strokes(c)->0);
        }
        lemma_follows_both(
            line_strokes(line.drop_last(), n, base, scale, color),
            place.character(c),
            path(line.drop_last()),
            character_path(c),
            scale,
            color,
        );
    }
}

/// The path of the beam over some lines, one after the other.
pub open spec fn rows_path(rows: Seq<Seq<char>>) -> Seq<((i32, i32), (i32, i32))>
    decreases rows.len(),
{
    if rows.len() == 0 {
        Seq::empty()
    } else {
        rows_path(rows.drop_last()) + path(rows.last())
    }
}

proof fn lemma_rows_follow(
    rows: Seq<Seq<char>>,
    n: nat,
    scale: Binary32,
    color: Seq<Binary32>,
)
    ensures
        follows(row_strokes(rows, n, scale, color), rows_path(rows), scale, color),
    decreases rows.len(),
{
    if rows.len() > 0 {
        let base = baseline(n, (rows.len() - 1) as nat);
        let line = rows.last();
        lemma_rows_follow(rows.drop_last(), n, scale, color);
        lemma_line_follows(line, line.len(), base, scale, color);
        lemma_follows_both(
            row_strokes(rows.drop_last(), n, scale, color),
            line_strokes(line, line.len(), base, scale, color),
            rows_path(rows.drop_last()),
            path(line),
            scale,
            color,
        );
    }
}

/// Lines are drawn as the text that they are made of.
proof fn lemma_path_of_lines(text: Seq<char>)
    ensures
        lines(text).len() >= 1,
        rows_path(lines(text)) == path(text),
    decreases text.len(),
{
    let all = lines(text);
    if text.len() == 0 {
        assert(rows_path(all.drop_last()) == path(text));
        assert(path(all.last()) == path(text));
        assert(rows_path(all) =~= path(text));
    } else {
        let less = text.drop_last();
        let before = lines(less);
        let c = text.last();
        lemma_path_of_lines(less);
        if c == '\n' {
            glyphs::law_which_can_be_drawn(c);
            assert(all.drop_last() =~= before);
            assert(rows_path(all) =~= path(text));
        } else {
            assert(all.drop_last() =~= before.drop_last());
            assert(all.last().drop_last() =~= before.last());
            assert(rows_path(all) =~= path(text));
        }
    }
}

/// A line with characters in it has a width above zero.
proof fn lemma_line_has_width(n: nat)
    ensures
        !width_of_line(n).nan(),
        width_of_line(n).value() >= 0,
        n > 0 ==> width_of_line(n).value() > 0,
{
    binary32::lemma_units_order(0, 0);
    if n > 0 {
        lemma_pow2_pos(149);
        order::law_nearest_is_exact(6, 1, 6, 149);
        order::law_nearest_is_exact(4, 1, 4, 149);
        let far = binary32::nearest((n - 1) as nat, 1);
        let moved = far * advance();
        binary32::lemma_units_order(far.code(), 0);
        binary32::lemma_units_order(moved.code(), 0);
        binary32::lemma_units_order(advance().code(), 0);
        order::law_sum_is_monotone(grid_width(), moved, moved);
        assert(moved + grid_width() == grid_width() + moved);
    }
}

/// Where no line has a width, no line holds a character.
proof fn lemma_widest_of_none(all: Seq<Seq<char>>)
    ensures
        !widest(all).nan(),
        widest(all).value() >= 0,
        widest(all).value() == 0 ==> rows_path(all) == Seq::<((i32, i32), (i32, i32))>::empty(),
    decreases all.len(),
{
    binary32::lemma_units_order(0, 0);
    if all.len() > 0 {
        lemma_widest_of_none(all.drop_last());
        lemma_line_has_width(all.last().len());
        if widest(all).value() == 0 {
            assert(all.last().len() == 0);
            assert(rows_path(all) =~= Seq::<((i32, i32), (i32, i32))>::empty());
        }
    }
}

/// A text is drawn along the path over its characters, all at one scale.
pub proof fn law_text_follows_its_path(text: Seq<char>, color: Seq<Binary32>)
    ensures
        follows(text_strokes(text, color), path(text), scale(lines(text)), color),
{
    let all = lines(text);
    binary32::lemma_units_order(0, 0);
    lemma_path_of_lines(text);
    lemma_widest_of_none(all);
    lemma_rows_follow(all, all.len(), scale(all), color);
}

proof fn lemma_path_of_both(a: Seq<char>, b: Seq<char>)
    ensures
        path(a + b) == path(a) + path(b),
    decreases b.len(),
{
    if b.len() == 0 {
        assert(a + b =~= a);
        assert(path(a) + path(b) =~= path(a));
    } else {
        lemma_path_of_both(a, b.drop_last());
        assert((a + b).drop_last() =~= a + b.drop_last());
        assert(path(a + b) =~= path(a) + path(b));
    }
}

/// Two texts joined, with a line break between them or without, are drawn one after the
/// other: first along the path over the first, and then along that over the second. The
/// segments are as many as those of both.
pub proof fn law_joined_texts_are_drawn_in_turn(a: Seq<char>, b: Seq<char>, color: Seq<Binary32>)
    ensures
        path(a + b) == path(a) + path(b),
        path(a + seq!['\n'] + b) == path(a) + path(b),
        follows(text_strokes(a + b, color), path(a) + path(b), scale(lines(a + b)), color),
        follows(
            text_strokes(a + seq!['\n'] + b, color),
            path(a) + path(b),
            scale(lines(a + seq!['\n'] + b)),
            color,
        ),
        text_strokes(a + b, color).len() == text_strokes(a, color).len() + text_strokes(
            b,
            color,
        ).len(),
        text_strokes(a + seq!['\n'] + b, color).len() == text_strokes(a, color).len()
            + text_strokes(b, color).len(),
{
    let broken = a + seq!['\n'];
    glyphs::law_which_can_be_drawn('\n');
    assert(broken.drop_last() =~= a);
    assert(path(broken) =~= path(a));
    lemma_path_of_both(a, b);
    lemma_path_of_both(broken, b);
    law_text_follows_its_path(a, color);
    law_text_follows_its_path(b, color);
    law_text_follows_its_path(a + b, color);
    law_text_follows_its_path(broken + b, color);
}

/// The stroke that a step of a path becomes where it is placed.
#[verifier::opaque]
pub open spec fn placed_step(place: Placing, step: ((i32, i32), (i32, i32))) -> Stroke {
    Stroke {
        p0: seq![
            (place.pen + halves(step.0.0 as int)) * place.scale,
            (place.base + halves(step.0.1 as int)) * place.scale,
            binary32::signed(false, 0),
        ],
        p1: seq![
            (place.pen + halves(step.1.0 as int)) * place.scale,
            (place.base + halves(step.1.1 as int)) * place.scale,
            binary32::signed(false, 0),
        ],
        color: place.color,
    }
}

proof fn lemma_polylines_at(place: Placing, list: Seq<Seq<(i32, i32)>>, j: int)
    requires
        0 <= j < polylines_path(list).len(),
    ensures
        place.polylines(list).len() == polylines_path(list).len(),
        place.polylines(list)[j] == placed_step(place, polylines_path(list)[j]),
    decreases list.len(),
{
    lemma_polylines_follow(place, list);
    if list.len() > 0 {
        let less = list.drop_last();
        lemma_polylines_follow(place, less);
        if j < polylines_path(less).len() {
            lemma_polylines_at(place, less, j);
        } else {
            let k = j - polylines_path(less).len();
            reveal(placed_step);
            assert(place.polyline(list.last())[k] =~= placed_step(
                place,
                polyline_path(list.last())[k],
            ));
        }
    }
}

proof fn lemma_line_at(
    line: Seq<char>,
    n: nat,
    base: Binary32,
    scale: Binary32,
    color: Seq<Binary32>,
    i: int,
    j: int,
)
    requires
        0 <= i < line.len(),
        0 <= j < character_path(line[i]).len(),
    ensures
        path(line.take(i)).len() + j < line_strokes(line, n, base, scale, color).len(),
        line_strokes(line, n, base, scale, color)[path(line.take(i)).len() + j] == placed_step(
            Placing { pen: pen(n, i as nat), base, scale, color },
            character_path(line[i])[j],
        ),
    decreases line.len(),
{
    let less = line.drop_last();
    lemma_line_follows(less, n, base, scale, color);
    if i < less.len() {
        assert(less.take(i) =~= line.take(i));
        lemma_line_at(less, n, base, scale, color, i, j);
    } else {
        let place = Placing { pen: pen(n, i as nat), base, scale, color };
        assert(line.take(i) =~= less);
        lemma_polylines_at(place, glyphs::strokes(line[i])->0, j);
    }
}

proof fn lemma_rows_at(
    rows: Seq<Seq<char>>,
    n: nat,
    scale: Binary32,
    color: Seq<Binary32>,
    r: int,
    i: int,
    j: int,
)
    requires
        0 <= r < rows.len(),
        0 <= i < rows[r].len(),
        0 <= j < character_path(rows[r][i]).len(),
    ensures
        ({
            let k = rows_path(rows.take(r)).len() + path(rows[r].take(i)).len() + j;
            &&& k < row_strokes(rows, n, scale, color).len()
            &&& row_strokes(rows, n, scale, color)[k] == placed_step(
                Placing {
                    pen: pen(rows[r].len(), i as nat),
                    base: baseline(n, r as nat),
                    scale,
                    color,
                },
                character_path(rows[r][i])[j],
            )
        }),
    decreases rows.len(),
{
    let less = rows.drop_last();
    let last = rows.last();
    let row = (rows.len() - 1) as nat;
    let base = baseline(n, row);
    let before = row_strokes(less, n, scale, color);
    let more = line_strokes(last, last.len(), base, scale, color);
    lemma_rows_follow(less, n, scale, color);
    assert(row_strokes(rows, n, scale, color) == before + more);
    if r < less.len() {
        assert(less.take(r) =~= rows.take(r));
        assert(less[r] == rows[r]);
        lemma_rows_at(less, n, scale, color, r, i, j);
    } else {
        assert(rows.take(r) =~= less);
        lemma_line_at(last, last.len(), base, scale, color, i, j);
    }
}

/// Every character is drawn where it belongs: the strokes of the character `i` of the line
/// `r` come after those of all characters before it, and each is a step of the character,
/// moved to the place of the pen and to the baseline of the line, and scaled with the
/// whole block.
pub proof fn law_characters_are_drawn_in_place(
    text: Seq<char>,
    color: Seq<Binary32>,
    r: int,
    i: int,
    j: int,
)
    requires
        0 <= r < lines(text).len(),
        0 <= i < lines(text)[r].len(),
        0 <= j < character_path(lines(text)[r][i]).len(),
    ensures
        ({
            let all = lines(text);
            let line = all[r];
            let k = rows_path(all.take(r)).len() + path(line.take(i)).len() + j;
            let step = character_path(line[i])[j];
            let x = pen(line.len(), i as nat);
            let y = baseline(all.len(), r as nat);
            let size = scale(all);
            &&& k < text_strokes(text, color).len()
            &&& text_strokes(text, color)[k].p0 == seq![
                (x + halves(step.0.0 as int)) * size,
                (y + halves(step.0.1 as int)) * size,
                binary32::signed(false, 0),
            ]
            &&& text_strokes(text, color)[k].p1 == seq![
                (x + halves(step.1.0 as int)) * size,
                (y + halves(step.1.1 as int)) * size,
                binary32::signed(false, 0),
            ]
            &&& text_strokes(text, color)[k].color == color
        }),
{
    let all = lines(text);
    lemma_rows_at(all, all.len(), scale(all), color, r, i, j);
    lemma_drawn_text(text, color);
    lemma_rows_follow(all, all.len(), scale(all), color);
    reveal(placed_step);
}

/// A text is drawn line by line; one without characters has no strokes either way.
proof fn lemma_drawn_text(text: Seq<char>, color: Seq<Binary32>)
    ensures
        text_strokes(text, color) == row_strokes(
            lines(text),
            lines(text).len(),
            scale(lines(text)),
            color,
        ),
{
    let all = lines(text);
    binary32::lemma_units_order(0, 0);
    lemma_widest_of_none(all);
    lemma_rows_follow(all, all.len(), scale(all), color);
    if widest(all).value() == 0 {
        assert(row_strokes(all, all.len(), scale(all), color) =~= Seq::<Stroke>::empty());
    }
}

/// A line break ends a line and begins the next: the lines of two texts with a break
/// between them are those of both, and a text without a break is one line.
pub proof fn law_lines_end_at_breaks(a: Seq<char>, b: Seq<char>)
    ensures
        lines(a + seq!['\n'] + b) == lines(a) + lines(b),
        !a.contains('\n') ==> lines(a) == seq![a],
{
    lemma_lines_of_both(a, b);
    if !a.contains('\n') {
        lemma_one_line(a);
    }
}

proof fn lemma_lines_of_both(a: Seq<char>, b: Seq<char>)
    ensures
        lines(b).len() >= 1,
        lines(a + seq!['\n'] + b) == lines(a) + lines(b),
    decreases b.len(),
{
    let all = a + seq!['\n'] + b;
    if b.len() == 0 {
        assert(all.drop_last() =~= a);
        assert(all.last() == '\n');
        assert(lines(all) =~= lines(a) + lines(b));
    } else {
        let less = b.drop_last();
        lemma_lines_of_both(a, less);
        assert(all.drop_last() =~= a + seq!['\n'] + less);
        assert(lines(all) =~= lines(a) + lines(b));
    }
}

proof fn lemma_one_line(a: Seq<char>)
    requires
        !a.contains('\n'),
    ensures
        lines(a) == seq![a],
    decreases a.len(),
{
    if a.len() == 0 {
        assert(a =~= Seq::<char>::empty());
    } else {
        let less = a.drop_last();
        assert(a.contains(a[a.len() - 1]));
        assert forall|j: int| 0 <= j < less.len() implies less[j] != '\n' by {
            assert(a.contains(a[j]));
        }
        lemma_one_line(less);
        assert(less.push(a.last()) =~= a);
        assert(lines(a) =~= seq![a]);
    }
}

/// The widest line is one of the lines, and none is wider.
pub proof fn law_no_line_is_wider(all: Seq<Seq<char>>, r: int)
    requires
        0 <= r < all.len(),
    ensures
        width_of_line(all[r].len()).at_most(widest(all)),
        exists|k: int|
            0 <= k < all.len() && widest(all) == width_of_line((#[trigger] all[k]).len()),
    decreases all.len(),
{
    let less = all.drop_last();
    let last = all.len() - 1;
    binary32::lemma_units_order(0, 0);
    lemma_line_has_width(all[r].len());
    lemma_line_has_width(all[last].len());
    lemma_widest_of_none(less);
    lemma_widest_of_none(all);
    if less.len() > 0 {
        law_no_line_is_wider(less, if r < last { r } else { 0 });
        let k = choose|k: int|
            0 <= k < less.len() && widest(less) == width_of_line((#[trigger] less[k]).len());
        assert(less[k] == all[k]);
        if r < last {
            assert(less[r] == all[r]);
        }
    } else {
        assert(widest(less) == binary32::signed(false, 0));
        if all[last].len() == 0 {
            assert(width_of_line(0) == binary32::signed(false, 0));
        }
    }
    assert(all[last] == all.last());
}

/// What is laid out of a text are its strokes: as many as the steps of the path over its
/// characters, in that order.
pub proof fn law_layout_draws_every_character(text: &str, color: [Binary32; 3], r: Vec<Segment>)
    requires
        call_ensures(layout, (text, color), r),
    ensures
        r@.len() == path(text@).len(),
        follows(geometry::strokes(r@), path(text@), scale(lines(text@)), color@),
        geometry::strokes(r@) == text_strokes(text@, color@),
{
    law_text_follows_its_path(text@, color@);
    assert(geometry::strokes(r@).len() == r@.len());
}

}
