//! The strokes of the characters.
//!
//! A character is drawn on a grid 4 wide and 6 tall, with the baseline at 0, in
//! the blocky style of vector arcade fonts. Points are given in halves of the
//! grid, since a few strokes are only half a unit long. The polylines of a
//! character are ordered and directed as the beam draws them.
use vstd::prelude::*;

verus! {

/// The polylines that a list of lists of points describes.
pub open spec fn polylines(v: Seq<Vec<(i32, i32)>>) -> Seq<Seq<(i32, i32)>> {
    v.map_values(|p: Vec<(i32, i32)>| p@)
}

/// Whether `r` holds the polylines `s`.
pub open spec fn draws(r: Option<Vec<Vec<(i32, i32)>>>, s: Option<Seq<Seq<(i32, i32)>>>) -> bool {
    match (r, s) {
        (Some(v), Some(s)) => polylines(v@) == s,
        (None, None) => true,
        _ => false,
    }
}

/// The strokes of the letters A to M.
pub open spec fn early_letter_strokes(c: char) -> Option<Seq<Seq<(i32, i32)>>> {
    if c == 'A' {
        Some(seq![seq![(0, 0), (0, 8), (4, 12), (8, 8), (8, 0)], seq![(0, 4), (8, 4)]])
    } else if c == 'B' {
        Some(
            seq![
                seq![
                    (0, 0), (0, 12), (6, 12), (8, 10), (8, 8),
                    (6, 6), (8, 4), (8, 2), (6, 0), (0, 0),
                ],
                seq![(0, 6), (6, 6)],
            ],
        )
    } else if c == 'C' {
        Some(seq![seq![(8, 12), (0, 12), (0, 0), (8, 0)]])
    } else if c == 'D' {
        Some(seq![seq![(0, 0), (0, 12), (4, 12), (8, 8), (8, 4), (4, 0), (0, 0)]])
    } else if c == 'E' {
        Some(seq![seq![(8, 12), (0, 12), (0, 0), (8, 0)], seq![(0, 6), (6, 6)]])
    } else if c == 'F' {
        Some(seq![seq![(8, 12), (0, 12), (0, 0)], seq![(0, 6), (6, 6)]])
    } else if c == 'G' {
        Some(seq![seq![(8, 12), (0, 12), (0, 0), (8, 0), (8, 6), (4, 6)]])
    } else if c == 'H' {
        Some(seq![seq![(0, 12), (0, 0)], seq![(0, 6), (8, 6)], seq![(8, 0), (8, 12)]])
    } else if c == 'I' {
        Some(seq![seq![(2, 12), (6, 12)], seq![(4, 12), (4, 0)], seq![(2, 0), (6, 0)]])
    } else if c == 'J' {
        Some(seq![seq![(8, 12), (8, 2), (6, 0), (2, 0), (0, 2)]])
    } else if c == 'K' {
        Some(seq![seq![(0, 12), (0, 0)], seq![(8, 12), (0, 6), (8, 0)]])
    } else if c == 'L' {
        Some(seq![seq![(0, 12), (0, 0), (8, 0)]])
    } else if c == 'M' {
        Some(seq![seq![(0, 0), (0, 12), (4, 6), (8, 12), (8, 0)]])
    } else {
        None
    }
}

fn early_letter(c: char) -> (r: Option<Vec<Vec<(i32, i32)>>>)
    ensures
        draws(r, early_letter_strokes(c)),
{
    if c == 'A' {
        list2(vec![(0, 0), (0, 8), (4, 12), (8, 8), (8, 0)], vec![(0, 4), (8, 4)])
    } else if c == 'B' {
        list2(
            vec![(0, 0), (0, 12), (6, 12), (8, 10), (8, 8), (6, 6), (8, 4), (8, 2), (6, 0), (0, 0)],
            vec![(0, 6), (6, 6)],
        )
    } else if c == 'C' {
        list1(vec![(8, 12), (0, 12), (0, 0), (8, 0)])
    } else if c == 'D' {
        list1(vec![(0, 0), (0, 12), (4, 12), (8, 8), (8, 4), (4, 0), (0, 0)])
    } else if c == 'E' {
        list2(vec![(8, 12), (0, 12), (0, 0), (8, 0)], vec![(0, 6), (6, 6)])
    } else if c == 'F' {
        list2(vec![(8, 12), (0, 12), (0, 0)], vec![(0, 6), (6, 6)])
    } else if c == 'G' {
        list1(vec![(8, 12), (0, 12), (0, 0), (8, 0), (8, 6), (4, 6)])
    } else if c == 'H' {
        list3(vec![(0, 12), (0, 0)], vec![(0, 6), (8, 6)], vec![(8, 0), (8, 12)])
    } else if c == 'I' {
        list3(vec![(2, 12), (6, 12)], vec![(4, 12), (4, 0)], vec![(2, 0), (6, 0)])
    } else if c == 'J' {
        list1(vec![(8, 12), (8, 2), (6, 0), (2, 0), (0, 2)])
    } else if c == 'K' {
        list2(vec![(0, 12), (0, 0)], vec![(8, 12), (0, 6), (8, 0)])
    } else if c == 'L' {
        list1(vec![(0, 12), (0, 0), (8, 0)])
    } else if c == 'M' {
        list1(vec![(0, 0), (0, 12), (4, 6), (8, 12), (8, 0)])
    } else {
        None
    }
}

/// The strokes of the letters N to Z.
pub open spec fn late_letter_strokes(c: char) -> Option<Seq<Seq<(i32, i32)>>> {
    if c == 'N' {
        Some(seq![seq![(0, 0), (0, 12), (8, 0), (8, 12)]])
    } else if c == 'O' {
        Some(seq![seq![(0, 0), (0, 12), (8, 12), (8, 0), (0, 0)]])
    } else if c == 'P' {
        Some(seq![seq![(0, 0), (0, 12), (8, 12), (8, 6), (0, 6)]])
    } else if c == 'Q' {
        Some(seq![seq![(0, 0), (0, 12), (8, 12), (8, 0), (0, 0)], seq![(4, 4), (8, 0)]])
    } else if c == 'R' {
        Some(seq![seq![(0, 0), (0, 12), (8, 12), (8, 6), (0, 6)], seq![(4, 6), (8, 0)]])
    } else if c == 'S' {
        Some(seq![seq![(8, 12), (0, 12), (0, 6), (8, 6), (8, 0), (0, 0)]])
    } else if c == 'T' {
        Some(seq![seq![(0, 12), (8, 12)], seq![(4, 12), (4, 0)]])
    } else if c == 'U' {
        Some(seq![seq![(0, 12), (0, 0), (8, 0), (8, 12)]])
    } else if c == 'V' {
        Some(seq![seq![(0, 12), (4, 0), (8, 12)]])
    } else if c == 'W' {
        Some(seq![seq![(0, 12), (0, 0), (4, 6), (8, 0), (8, 12)]])
    } else if c == 'X' {
        Some(seq![seq![(0, 0), (8, 12)], seq![(0, 12), (8, 0)]])
    } else if c == 'Y' {
        Some(seq![seq![(0, 12), (4, 6), (8, 12)], seq![(4, 6), (4, 0)]])
    } else if c == 'Z' {
        Some(seq![seq![(0, 12), (8, 12), (0, 0), (8, 0)]])
    } else {
        None
    }
}

fn late_letter(c: char) -> (r: Option<Vec<Vec<(i32, i32)>>>)
    ensures
        draws(r, late_letter_strokes(c)),
{
    if c == 'N' {
        list1(vec![(0, 0), (0, 12), (8, 0), (8, 12)])
    } else if c == 'O' {
        list1(vec![(0, 0), (0, 12), (8, 12), (8, 0), (0, 0)])
    } else if c == 'P' {
        list1(vec![(0, 0), (0, 12), (8, 12), (8, 6), (0, 6)])
    } else if c == 'Q' {
        list2(vec![(0, 0), (0, 12), (8, 12), (8, 0), (0, 0)], vec![(4, 4), (8, 0)])
    } else if c == 'R' {
        list2(vec![(0, 0), (0, 12), (8, 12), (8, 6), (0, 6)], vec![(4, 6), (8, 0)])
    } else if c == 'S' {
        list1(vec![(8, 12), (0, 12), (0, 6), (8, 6), (8, 0), (0, 0)])
    } else if c == 'T' {
        list2(vec![(0, 12), (8, 12)], vec![(4, 12), (4, 0)])
    } else if c == 'U' {
        list1(vec![(0, 12), (0, 0), (8, 0), (8, 12)])
    } else if c == 'V' {
        list1(vec![(0, 12), (4, 0), (8, 12)])
    } else if c == 'W' {
        list1(vec![(0, 12), (0, 0), (4, 6), (8, 0), (8, 12)])
    } else if c == 'X' {
        list2(vec![(0, 0), (8, 12)], vec![(0, 12), (8, 0)])
    } else if c == 'Y' {
        list2(vec![(0, 12), (4, 6), (8, 12)], vec![(4, 6), (4, 0)])
    } else if c == 'Z' {
        list1(vec![(0, 12), (8, 12), (0, 0), (8, 0)])
    } else {
        None
    }
}

/// The strokes of the digits.
pub open spec fn digit_strokes(c: char) -> Option<Seq<Seq<(i32, i32)>>> {
    if c == '0' {
        Some(seq![seq![(0, 0), (0, 12), (8, 12), (8, 0), (0, 0)], seq![(0, 2), (8, 10)]])
    } else if c == '1' {
        Some(seq![seq![(2, 10), (4, 12), (4, 0)], seq![(2, 0), (6, 0)]])
    } else if c == '2' {
        Some(seq![seq![(0, 12), (8, 12), (8, 6), (0, 6), (0, 0), (8, 0)]])
    } else if c == '3' {
        Some(seq![seq![(0, 12), (8, 12), (8, 0), (0, 0)], seq![(2, 6), (8, 6)]])
    } else if c == '4' {
        Some(seq![seq![(0, 12), (0, 6), (8, 6)], seq![(8, 12), (8, 0)]])
    } else if c == '5' {
        Some(seq![seq![(8, 12), (0, 12), (0, 6), (8, 6), (8, 0), (0, 0)]])
    } else if c == '6' {
        Some(seq![seq![(8, 12), (0, 12), (0, 0), (8, 0), (8, 6), (0, 6)]])
    } else if c == '7' {
        Some(seq![seq![(0, 12), (8, 12), (4, 0)]])
    } else if c == '8' {
        Some(seq![seq![(0, 0), (0, 12), (8, 12), (8, 0), (0, 0)], seq![(0, 6), (8, 6)]])
    } else if c == '9' {
        Some(seq![seq![(0, 0), (8, 0), (8, 12), (0, 12), (0, 6), (8, 6)]])
    } else {
        None
    }
}

fn digit(c: char) -> (r: Option<Vec<Vec<(i32, i32)>>>)
    ensures
        draws(r, digit_strokes(c)),
{
    if c == '0' {
        list2(vec![(0, 0), (0, 12), (8, 12), (8, 0), (0, 0)], vec![(0, 2), (8, 10)])
    } else if c == '1' {
        list2(vec![(2, 10), (4, 12), (4, 0)], vec![(2, 0), (6, 0)])
    } else if c == '2' {
        list1(vec![(0, 12), (8, 12), (8, 6), (0, 6), (0, 0), (8, 0)])
    } else if c == '3' {
        list2(vec![(0, 12), (8, 12), (8, 0), (0, 0)], vec![(2, 6), (8, 6)])
    } else if c == '4' {
        list2(vec![(0, 12), (0, 6), (8, 6)], vec![(8, 12), (8, 0)])
    } else if c == '5' {
        list1(vec![(8, 12), (0, 12), (0, 6), (8, 6), (8, 0), (0, 0)])
    } else if c == '6' {
        list1(vec![(8, 12), (0, 12), (0, 0), (8, 0), (8, 6), (0, 6)])
    } else if c == '7' {
        list1(vec![(0, 12), (8, 12), (4, 0)])
    } else if c == '8' {
        list2(vec![(0, 0), (0, 12), (8, 12), (8, 0), (0, 0)], vec![(0, 6), (8, 6)])
    } else if c == '9' {
        list1(vec![(0, 0), (8, 0), (8, 12), (0, 12), (0, 6), (8, 6)])
    } else {
        None
    }
}

/// The strokes of the marks.
pub open spec fn mark_strokes(c: char) -> Option<Seq<Seq<(i32, i32)>>> {
    if c == '.' {
        Some(seq![seq![(4, 0), (4, 1)]])
    } else if c == ',' {
        Some(seq![seq![(4, 2), (2, (-2) as i32)]])
    } else if c == '-' {
        Some(seq![seq![(2, 6), (6, 6)]])
    } else if c == ':' {
        Some(seq![seq![(4, 8), (4, 10)], seq![(4, 2), (4, 4)]])
    } else if c == '!' {
        Some(seq![seq![(4, 12), (4, 4)], seq![(4, 0), (4, 1)]])
    } else if c == '?' {
        Some(
            seq![
                seq![(0, 10), (2, 12), (6, 12), (8, 10), (8, 8), (4, 6), (4, 4)],
                seq![(4, 0), (4, 1)],
            ],
        )
    } else if c == '\'' {
        Some(seq![seq![(4, 12), (4, 10)]])
    } else {
        None
    }
}

fn mark(c: char) -> (r: Option<Vec<Vec<(i32, i32)>>>)
    ensures
        draws(r, mark_strokes(c)),
{
    if c == '.' {
        list1(vec![(4, 0), (4, 1)])
    } else if c == ',' {
        list1(vec![(4, 2), (2, -2)])
    } else if c == '-' {
        list1(vec![(2, 6), (6, 6)])
    } else if c == ':' {
        list2(vec![(4, 8), (4, 10)], vec![(4, 2), (4, 4)])
    } else if c == '!' {
        list2(vec![(4, 12), (4, 4)], vec![(4, 0), (4, 1)])
    } else if c == '?' {
        list2(
            vec![(0, 10), (2, 12), (6, 12), (8, 10), (8, 8), (4, 6), (4, 4)],
            vec![(4, 0), (4, 1)],
        )
    } else if c == '\'' {
        list1(vec![(4, 12), (4, 10)])
    } else {
        None
    }
}

/// A character of one polyline.
fn list1(a: Vec<(i32, i32)>) -> (r: Option<Vec<Vec<(i32, i32)>>>)
    ensures
        draws(r, Some(seq![a@])),
{
    let v: Vec<Vec<(i32, i32)>> = vec![a];
    assert(polylines(v@) =~= seq![a@]);
    Some(v)
}

/// A character of two polylines.
fn list2(a: Vec<(i32, i32)>, b: Vec<(i32, i32)>) -> (r: Option<Vec<Vec<(i32, i32)>>>)
    ensures
        draws(r, Some(seq![a@, b@])),
{
    let v: Vec<Vec<(i32, i32)>> = vec![a, b];
    assert(polylines(v@) =~= seq![a@, b@]);
    Some(v)
}

/// A character of three polylines.
fn list3(a: Vec<(i32, i32)>, b: Vec<(i32, i32)>, c: Vec<(i32, i32)>) -> (r: Option<Vec<Vec<(i32, i32)>>>)
    ensures
        draws(r, Some(seq![a@, b@, c@])),
{
    let v: Vec<Vec<(i32, i32)>> = vec![a, b, c];
    assert(polylines(v@) =~= seq![a@, b@, c@]);
    Some(v)
}

/// `c`, or its capital where it is one of the 26 small letters.
pub open spec fn capital(c: char) -> char {
    if 'a' <= c && c <= 'z' {
        (c as u32 - 32) as char
    } else {
        c
    }
}

/// The polylines of a character, or `None` where it cannot be drawn. Small letters
/// are drawn as capitals.
pub open spec fn strokes(c: char) -> Option<Seq<Seq<(i32, i32)>>> {
    let c = capital(c);
    if early_letter_strokes(c) is Some {
        early_letter_strokes(c)
    } else if late_letter_strokes(c) is Some {
        late_letter_strokes(c)
    } else if digit_strokes(c) is Some {
        digit_strokes(c)
    } else {
        mark_strokes(c)
    }
}

/// The polylines of a character, in halves of the grid.
pub fn glyph(c: char) -> (r: Option<Vec<Vec<(i32, i32)>>>)
    ensures
        draws(r, strokes(c)),
{
    let c: char = if c >= 'a' && c <= 'z' {
        (c as u8 - 32) as char
    } else {
        c
    };
    if c >= 'A' && c <= 'M' {
        early_letter(c)
    } else if c >= 'N' && c <= 'Z' {
        late_letter(c)
    } else if c >= '0' && c <= '9' {
        digit(c)
    } else {
        mark(c)
    }
}

/// Whether `p` lies in the cell of a character and on a line of the grid from top
/// to bottom; `lowest` is how far down it may lie.
pub open spec fn in_cell(p: (i32, i32), lowest: int) -> bool {
    0 <= p.0 <= 8 && p.0 % 2 == 0 && lowest <= p.1 <= 12
}

/// Whether there is something to draw, every polyline has two points at least,
/// and all points lie in the cell.
pub open spec fn drawable(s: Seq<Seq<(i32, i32)>>, lowest: int) -> bool {
    &&& s.len() > 0
    &&& forall|i: int| 0 <= i < s.len() ==> (#[trigger] s[i]).len() >= 2
    &&& forall|i: int, j: int|
        0 <= i < s.len() && 0 <= j < s[i].len() ==> in_cell(#[trigger] s[i][j], lowest)
}

proof fn lemma_early_letter(c: char)
    ensures
        early_letter_strokes(c) matches Some(s) ==> drawable(s, 0),
{
}

proof fn lemma_late_letter(c: char)
    ensures
        late_letter_strokes(c) matches Some(s) ==> drawable(s, 0),
{
}

proof fn lemma_digit(c: char)
    ensures
        digit_strokes(c) matches Some(s) ==> drawable(s, 0),
{
}

proof fn lemma_mark(c: char)
    ensures
        mark_strokes(c) matches Some(s) ==> drawable(s, if c == ',' {
            -2
        } else {
            0
        }),
{
}

/// Every character that can be drawn has a stroke, no stroke is a mere point, and
/// all strokes stay in the cell; only the comma hangs below the baseline.
pub proof fn law_glyphs_are_drawable(c: char)
    ensures
        strokes(c) matches Some(s) ==> drawable(
            s,
            if c == ',' {
                -2
            } else {
                0
            },
        ),
{
    let c = capital(c);
    lemma_early_letter(c);
    lemma_late_letter(c);
    lemma_digit(c);
    lemma_mark(c);
}

/// Letters, digits and the seven marks can be drawn, and nothing else.
pub proof fn law_which_can_be_drawn(c: char)
    ensures
        strokes(c) is Some <==> ('A' <= c <= 'Z' || 'a' <= c <= 'z' || '0' <= c <= '9' || c == '.'
            || c == ',' || c == '-' || c == ':' || c == '!' || c == '?' || c == '\''),
{
}

/// Moves of the pen, in halves of the grid.
pub open spec fn left(n: int) -> (int, int) {
    (-n, 0)
}

pub open spec fn right(n: int) -> (int, int) {
    (n, 0)
}

pub open spec fn up(n: int) -> (int, int) {
    (0, n)
}

pub open spec fn down(n: int) -> (int, int) {
    (0, -n)
}

pub open spec fn slant(x: int, y: int) -> (int, int) {
    (x, y)
}

/// Whether a polyline is drawn by setting the pen down at `from` and moving it.
pub open spec fn traced(line: Seq<(i32, i32)>, from: (int, int), moves: Seq<(int, int)>) -> bool {
    &&& line.len() == moves.len() + 1
    &&& line[0].0 == from.0 && line[0].1 == from.1
    &&& forall|k: int|
        0 <= k < moves.len() ==> (#[trigger] line[k + 1]).0 - line[k].0 == moves[k].0 && line[k
            + 1].1 - line[k].1 == moves[k].1
}

/// How the pen draws: the letters A to M. Every polyline begins where the pen is set down,
/// and goes on move by move; nothing else is drawn.
pub proof fn law_how_a_to_m_are_drawn()
    ensures
        strokes('A') matches Some(s) && s.len() == 2
            && traced(s[0], (0, 0), seq![up(8), slant(4, 4), slant(4, -4), down(8)])
            && traced(s[1], (0, 4), seq![right(8)]),
        strokes('B') matches Some(s) && s.len() == 2
            && traced(
            s[0],
            (0, 0),
            seq![
                up(12), right(6), slant(2, -2), down(2), slant(-2, -2), slant(2, -2), down(2),
                slant(-2, -2), left(6),
            ],
        )
            && traced(s[1], (0, 6), seq![right(6)]),
        strokes('C') matches Some(s) && s.len() == 1
            && traced(s[0], (8, 12), seq![left(8), down(12), right(8)]),
        strokes('D') matches Some(s) && s.len() == 1
            && traced(
            s[0],
            (0, 0),
            seq![
                up(12), right(4), slant(4, -4), down(4), slant(-4, -4), left(4),
            ],
        ),
        strokes('E') matches Some(s) && s.len() == 2
            && traced(s[0], (8, 12), seq![left(8), down(12), right(8)])
            && traced(s[1], (0, 6), seq![right(6)]),
        strokes('F') matches Some(s) && s.len() == 2
            && traced(s[0], (8, 12), seq![left(8), down(12)])
            && traced(s[1], (0, 6), seq![right(6)]),
        strokes('G') matches Some(s) && s.len() == 1
            && traced(s[0], (8, 12), seq![left(8), down(12), right(8), up(6), left(4)]),
        strokes('H') matches Some(s) && s.len() == 3
            && traced(s[0], (0, 12), seq![down(12)])
            && traced(s[1], (0, 6), seq![right(8)])
            && traced(s[2], (8, 0), seq![up(12)]),
        strokes('I') matches Some(s) && s.len() == 3
            && traced(s[0], (2, 12), seq![right(4)])
            && traced(s[1], (4, 12), seq![down(12)])
            && traced(s[2], (2, 0), seq![right(4)]),
        strokes('J') matches Some(s) && s.len() == 1
            && traced(s[0], (8, 12), seq![down(10), slant(-2, -2), left(4), slant(-2, 2)]),
        strokes('K') matches Some(s) && s.len() == 2
            && traced(s[0], (0, 12), seq![down(12)])
            && traced(s[1], (8, 12), seq![slant(-8, -6), slant(8, -6)]),
        strokes('L') matches Some(s) && s.len() == 1
            && traced(s[0], (0, 12), seq![down(12), right(8)]),
        strokes('M') matches Some(s) && s.len() == 1
            && traced(s[0], (0, 0), seq![up(12), slant(4, -6), slant(4, 6), down(12)]),
{
}

/// How the pen draws: the letters N to Z. Every polyline begins where the pen is set down,
/// and goes on move by move; nothing else is drawn.
pub proof fn law_how_n_to_z_are_drawn()
    ensures
        strokes('N') matches Some(s) && s.len() == 1
            && traced(s[0], (0, 0), seq![up(12), slant(8, -12), up(12)]),
        strokes('O') matches Some(s) && s.len() == 1
            && traced(s[0], (0, 0), seq![up(12), right(8), down(12), left(8)]),
        strokes('P') matches Some(s) && s.len() == 1
            && traced(s[0], (0, 0), seq![up(12), right(8), down(6), left(8)]),
        strokes('Q') matches Some(s) && s.len() == 2
            && traced(s[0], (0, 0), seq![up(12), right(8), down(12), left(8)])
            && traced(s[1], (4, 4), seq![slant(4, -4)]),
        strokes('R') matches Some(s) && s.len() == 2
            && traced(s[0], (0, 0), seq![up(12), right(8), down(6), left(8)])
            && traced(s[1], (4, 6), seq![slant(4, -6)]),
        strokes('S') matches Some(s) && s.len() == 1
            && traced(s[0], (8, 12), seq![left(8), down(6), right(8), down(6), left(8)]),
        strokes('T') matches Some(s) && s.len() == 2
            && traced(s[0], (0, 12), seq![right(8)])
            && traced(s[1], (4, 12), seq![down(12)]),
        strokes('U') matches Some(s) && s.len() == 1
            && traced(s[0], (0, 12), seq![down(12), right(8), up(12)]),
        strokes('V') matches Some(s) && s.len() == 1
            && traced(s[0], (0, 12), seq![slant(4, -12), slant(4, 12)]),
        strokes('W') matches Some(s) && s.len() == 1
            && traced(s[0], (0, 12), seq![down(12), slant(4, 6), slant(4, -6), up(12)]),
        strokes('X') matches Some(s) && s.len() == 2
            && traced(s[0], (0, 0), seq![slant(8, 12)])
            && traced(s[1], (0, 12), seq![slant(8, -12)]),
        strokes('Y') matches Some(s) && s.len() == 2
            && traced(s[0], (0, 12), seq![slant(4, -6), slant(4, 6)])
            && traced(s[1], (4, 6), seq![down(6)]),
        strokes('Z') matches Some(s) && s.len() == 1
            && traced(s[0], (0, 12), seq![right(8), slant(-8, -12), right(8)]),
{
}

/// How the pen draws: the digits. Every polyline begins where the pen is set down,
/// and goes on move by move; nothing else is drawn.
pub proof fn law_how_digits_are_drawn()
    ensures
        strokes('0') matches Some(s) && s.len() == 2
            && traced(s[0], (0, 0), seq![up(12), right(8), down(12), left(8)])
            && traced(s[1], (0, 2), seq![slant(8, 8)]),
        strokes('1') matches Some(s) && s.len() == 2
            && traced(s[0], (2, 10), seq![slant(2, 2), down(12)])
            && traced(s[1], (2, 0), seq![right(4)]),
        strokes('2') matches Some(s) && s.len() == 1
            && traced(s[0], (0, 12), seq![right(8), down(6), left(8), down(6), right(8)]),
        strokes('3') matches Some(s) && s.len() == 2
            && traced(s[0], (0, 12), seq![right(8), down(12), left(8)])
            && traced(s[1], (2, 6), seq![right(6)]),
        strokes('4') matches Some(s) && s.len() == 2
            && traced(s[0], (0, 12), seq![down(6), right(8)])
            && traced(s[1], (8, 12), seq![down(12)]),
        strokes('5') matches Some(s) && s.len() == 1
            && traced(s[0], (8, 12), seq![left(8), down(6), right(8), down(6), left(8)]),
        strokes('6') matches Some(s) && s.len() == 1
            && traced(s[0], (8, 12), seq![left(8), down(12), right(8), up(6), left(8)]),
        strokes('7') matches Some(s) && s.len() == 1
            && traced(s[0], (0, 12), seq![right(8), slant(-4, -12)]),
        strokes('8') matches Some(s) && s.len() == 2
            && traced(s[0], (0, 0), seq![up(12), right(8), down(12), left(8)])
            && traced(s[1], (0, 6), seq![right(8)]),
        strokes('9') matches Some(s) && s.len() == 1
            && traced(s[0], (0, 0), seq![right(8), up(12), left(8), down(6), right(8)]),
{
}

/// How the pen draws: the marks. Every polyline begins where the pen is set down,
/// and goes on move by move; nothing else is drawn.
pub proof fn law_how_marks_are_drawn()
    ensures
        strokes('.') matches Some(s) && s.len() == 1 && traced(s[0], (4, 0), seq![up(1)]),
        strokes(',') matches Some(s) && s.len() == 1 && traced(s[0], (4, 2), seq![slant(-2, -4)]),
        strokes('-') matches Some(s) && s.len() == 1 && traced(s[0], (2, 6), seq![right(4)]),
        strokes(':') matches Some(s) && s.len() == 2
            && traced(s[0], (4, 8), seq![up(2)])
            && traced(s[1], (4, 2), seq![up(2)]),
        strokes('!') matches Some(s) && s.len() == 2
            && traced(s[0], (4, 12), seq![down(8)])
            && traced(s[1], (4, 0), seq![up(1)]),
        strokes('?') matches Some(s) && s.len() == 2
            && traced(
            s[0],
            (0, 10),
            seq![
                slant(2, 2), right(4), slant(2, -2), down(2), slant(-4, -2), down(2),
            ],
        )
            && traced(s[1], (4, 0), seq![up(1)]),
        strokes('\'') matches Some(s) && s.len() == 1 && traced(s[0], (4, 12), seq![down(2)]),
{
}

/// A small letter is drawn as the capital 32 places before it, and no other character is
/// drawn as one that it is not.
pub proof fn law_small_letters_fold(c: char)
    ensures
        'a' <= c <= 'z' ==> strokes(c) == strokes((c as u32 - 32) as char),
        !('a' <= c <= 'z') ==> capital(c) == c,
{
}

/// A point seen in a mirror at the side of the cell, from below, and turned half around.
pub open spec fn mirrored(p: (i32, i32)) -> (int, int) {
    (8 - p.0, p.1 as int)
}

pub open spec fn flipped(p: (i32, i32)) -> (int, int) {
    (p.0 as int, 12 - p.1)
}

pub open spec fn turned(p: (i32, i32)) -> (int, int) {
    (8 - p.0, 12 - p.1)
}

/// Some characters are drawn alike but for one change: a Q is an O with a tail, an R a P
/// with a leg, an E an F with a bar along the baseline, an 8 an O with a bar across its
/// middle, and a nought an O with a bar through it. A 5 is drawn as an S. A 2 is an S in a
/// mirror, a W an M upside down, and a 9 a 6 turned half around. Below an exclamation mark
/// and a question mark stands a full stop.
pub proof fn law_characters_resemble_each_other(k: int)
    ensures
        strokes('Q')->0[0] == strokes('O')->0[0],
        strokes('8')->0[0] == strokes('O')->0[0],
        strokes('0')->0[0] == strokes('O')->0[0],
        strokes('R')->0[0] == strokes('P')->0[0],
        strokes('E')->0[0].drop_last() == strokes('F')->0[0],
        strokes('E')->0[0].last() == (8i32, 0i32),
        strokes('E')->0[1] == strokes('F')->0[1],
        strokes('5') == strokes('S'),
        strokes('!')->0[1] == strokes('.')->0[0],
        strokes('?')->0[1] == strokes('.')->0[0],
        0 <= k < 6 ==> {
            let two = strokes('2')->0[0][k];
            (two.0 as int, two.1 as int) == mirrored(strokes('S')->0[0][k])
        },
        0 <= k < 5 ==> {
            let w = strokes('W')->0[0][k];
            (w.0 as int, w.1 as int) == flipped(strokes('M')->0[0][k])
        },
        0 <= k < 6 ==> {
            let nine = strokes('9')->0[0][k];
            (nine.0 as int, nine.1 as int) == turned(strokes('6')->0[0][k])
        },
{
    assert(strokes('E')->0[0].drop_last() =~= strokes('F')->0[0]);
}

/// A number by which characters can be told apart: it mixes the number of polylines and
/// points with where the first and the last polyline begin and end.
spec fn feature(s: Seq<Seq<(i32, i32)>>) -> int {
    let first = s[0];
    let rest = s.last();
    54 * s.len() + 25 * first.len() + 125 * first[0].0 + 8 * first[0].1 + 100 * first[1].0 + 111
        * first[1].1 + 156 * first.last().0 + 196 * first.last().1 + 197 * rest[0].0 + rest[0].1
        + 179 * rest.last().0 + 115 * rest.last().1
}

proof fn lemma_feature(c: char)
    ensures
        feature(strokes(capital(c))->0) == feature(strokes(c)->0),
        capital(c) == 'A' ==> feature(strokes(c)->0) == 4265,
        capital(c) == 'B' ==> feature(strokes(c)->0) == 3460,
        capital(c) == 'C' ==> feature(strokes(c)->0) == 6850,
        capital(c) == 'D' ==> feature(strokes(c)->0) == 1561,
        capital(c) == 'E' ==> feature(strokes(c)->0) == 5654,
        capital(c) == 'F' ==> feature(strokes(c)->0) == 4381,
        capital(c) == 'G' ==> feature(strokes(c)->0) == 7426,
        capital(c) == 'H' ==> feature(strokes(c)->0) == 4696,
        capital(c) == 'I' ==> feature(strokes(c)->0) == 7246,
        capital(c) == 'J' ==> feature(strokes(c)->0) == 4507,
        capital(c) == 'K' ==> feature(strokes(c)->0) == 3274,
        capital(c) == 'L' ==> feature(strokes(c)->0) == 2917,
        capital(c) == 'M' ==> feature(strokes(c)->0) == 4191,
        capital(c) == 'N' ==> feature(strokes(c)->0) == 7898,
        capital(c) == 'O' ==> feature(strokes(c)->0) == 1511,
        capital(c) == 'P' ==> feature(strokes(c)->0) == 3377,
        capital(c) == 'Q' ==> feature(strokes(c)->0) == 3789,
        capital(c) == 'R' ==> feature(strokes(c)->0) == 4967,
        capital(c) == 'S' ==> feature(strokes(c)->0) == 4220,
        capital(c) == 'T' ==> feature(strokes(c)->0) == 7502,
        capital(c) == 'U' ==> feature(strokes(c)->0) == 6674,
        capital(c) == 'V' ==> feature(strokes(c)->0) == 7049,
        capital(c) == 'W' ==> feature(strokes(c)->0) == 6699,
        capital(c) == 'X' ==> feature(strokes(c)->0) == 7334,
        capital(c) == 'Y' ==> feature(strokes(c)->0) == 6455,
        capital(c) == 'Z' ==> feature(strokes(c)->0) == 5074,
        capital(c) == '0' ==> feature(strokes(c)->0) == 4149,
        capital(c) == '1' ==> feature(strokes(c)->0) == 4337,
        capital(c) == '2' ==> feature(strokes(c)->0) == 5124,
        capital(c) == '3' ==> feature(strokes(c)->0) == 4958,
        capital(c) == '4' ==> feature(strokes(c)->0) == 6389,
        capital(c) == '5' ==> feature(strokes(c)->0) == 4220,
        capital(c) == '6' ==> feature(strokes(c)->0) == 6086,
        capital(c) == '7' ==> feature(strokes(c)->0) == 3709,
        capital(c) == '8' ==> feature(strokes(c)->0) == 3693,
        capital(c) == '9' ==> feature(strokes(c)->0) == 5550,
        capital(c) == '.' ==> feature(strokes(c)->0) == 3554,
        capital(c) == ',' ==> feature(strokes(c)->0) == 1436,
        capital(c) == '-' ==> feature(strokes(c)->0) == 5944,
        capital(c) == ':' ==> feature(strokes(c)->0) == 6782,
        capital(c) == '!' ==> feature(strokes(c)->0) == 4625,
        capital(c) == '?' ==> feature(strokes(c)->0) == 4922,
        capital(c) == '\'' ==> feature(strokes(c)->0) == 7460,
{
}

/// No two characters look alike, but for an S and a 5, and for small letters and their
/// capitals.
pub proof fn law_no_two_characters_look_alike(c: char, d: char)
    requires
        strokes(c) is Some,
        strokes(c) == strokes(d),
    ensures
        capital(c) == capital(d) || (capital(c) == 'S' && capital(d) == '5') || (capital(c) == '5'
            && capital(d) == 'S'),
{
    lemma_feature(c);
    lemma_feature(d);
}

/// A character that is looked up is the one that is drawn.
pub proof fn law_glyphs_are_looked_up(c: char, r: Option<Vec<Vec<(i32, i32)>>>, i: int)
    requires
        call_ensures(glyph, (c,), r),
    ensures
        r is Some <==> strokes(c) is Some,
        r matches Some(list) ==> {
            let s = strokes(c)->0;
            &&& list@.len() == s.len()
            &&& 0 <= i < s.len() ==> list@[i]@ == s[i]
        },
{
    if r is Some && 0 <= i < r->0@.len() {
        assert(polylines(r->0@)[i] == r->0@[i]@);
    }
}

}
