//! Scene geometry: the line segments that the beam draws, in the order in which
//! it draws them.
//!
//! `Segment` is the record of one instance on the graphics side: `p0`, `p1` and
//! `color` lie one after the other, three numbers each, with no padding.
use vstd::arithmetic::div_mod::*;
use vstd::arithmetic::power2::*;
use vstd::prelude::*;

use crate::binary32;
use crate::binary32::Binary32;
use crate::order;
use crate::rounding;
use crate::rounding::INFINITE;
use crate::text;

verus! {

/// Which scene to render.
///
/// A scene owns its line segments and its model motion. The cube, the ship and
/// the saucer are rigid: their segments never change. The Lissajous curve morphs,
/// so that its segments are made anew for every frame.
#[derive(Clone, Copy, Debug, PartialEq, Eq, Structural)]
pub enum Scene {
    Cube,
    Lissajous,
    /// A ship flown with the keyboard; all its motion comes from the host.
    Ship,
    /// A saucer that scrolls steadily across the screen.
    Ufo,
    /// A board drawn on with the mouse: its segments come from the host, and
    /// the strokes live on in the phosphor. It never runs with scan mode on.
    Draw,
}

impl Default for Scene {
    fn default() -> (r: Scene)
        ensures
            r == Scene::Cube,
    {
        Scene::Cube
    }
}

/// The sine and the cosine of an angle.
#[derive(Clone, Copy, Debug, PartialEq, Eq, Structural)]
pub struct Turn {
    pub sin: Binary32,
    pub cos: Binary32,
}

/// How a scene moves as a whole; angles in radians.
#[derive(Clone, Copy, Debug, PartialEq, Eq, Structural)]
pub enum Model {
    Still,
    /// A turn around the X axis, then one around the Y axis.
    Tumble { y: Binary32, x: Binary32 },
    /// A turn around the Y axis.
    Spin { y: Binary32 },
    /// A shift along the X axis.
    Shift { x: Binary32 },
}

/// One line segment with its colour.
#[derive(Clone, Copy, Debug)]
pub struct Segment {
    pub p0: [Binary32; 3],
    pub p1: [Binary32; 3],
    pub color: [Binary32; 3],
}

/// What a segment draws.
#[verifier::ext_equal]
pub struct Stroke {
    pub p0: Seq<Binary32>,
    pub p1: Seq<Binary32>,
    pub color: Seq<Binary32>,
}

impl View for Segment {
    type V = Stroke;

    open spec fn view(&self) -> Stroke {
        Stroke { p0: self.p0@, p1: self.p1@, color: self.color@ }
    }
}

/// What a list of segments draws, in beam path order.
pub open spec fn strokes(segments: Seq<Segment>) -> Seq<Stroke> {
    segments.map_values(|s: Segment| s@)
}

impl Segment {
    pub fn new(a: [Binary32; 3], b: [Binary32; 3], color: [Binary32; 3]) -> (s: Segment)
        ensures
            s.p0 == a,
            s.p1 == b,
            s.color == color,
    {
        Segment { p0: a, p1: b, color }
    }
}

/// The names that scenes go by.
pub open spec fn named_scene(name: Seq<char>) -> Option<Scene> {
    if name == "cube"@ {
        Some(Scene::Cube)
    } else if name == "lissajous"@ {
        Some(Scene::Lissajous)
    } else if name == "ship"@ {
        Some(Scene::Ship)
    } else if name == "ufo"@ {
        Some(Scene::Ufo)
    } else if name == "draw"@ {
        Some(Scene::Draw)
    } else {
        None
    }
}

/// The number of segments of the Lissajous curve.
pub const LISSAJOUS_SEGMENTS: usize = 600;

/// The encodings of pi and of twice pi.
pub const PI: u32 = 0x4049_0fdb;

pub const TAU: u32 = 0x40c9_0fdb;

/// The colour of most strokes.
pub open spec fn green() -> Seq<Binary32> {
    seq![binary32::nearest(35, 100), binary32::nearest(1, 1), binary32::nearest(55, 100)]
}

/// The colour of the edges of the cube that lead into the depth.
pub open spec fn cyan() -> Seq<Binary32> {
    seq![binary32::nearest(30, 100), binary32::nearest(95, 100), binary32::nearest(95, 100)]
}

fn green_color() -> (r: [Binary32; 3])
    ensures
        r@ == green(),
{
    let r: [Binary32; 3] = [
        Binary32::ratio(35, 100),
        Binary32::ratio(1, 1),
        Binary32::ratio(55, 100),
    ];
    assert(r@ =~= green());
    r
}

fn cyan_color() -> (r: [Binary32; 3])
    ensures
        r@ == cyan(),
{
    let r: [Binary32; 3] = [
        Binary32::ratio(30, 100),
        Binary32::ratio(95, 100),
        Binary32::ratio(95, 100),
    ];
    assert(r@ =~= cyan());
    r
}

/// A corner of a cube around the origin. The corners 0 to 3 go round the back
/// face, and 4 to 7 lie before them.
pub open spec fn corner(s: Binary32, i: int) -> Seq<Binary32> {
    seq![
        if i % 4 == 1 || i % 4 == 2 {
            s
        } else {
            s.negated()
        },
        if i % 4 >= 2 {
            s
        } else {
            s.negated()
        },
        if i >= 4 {
            s
        } else {
            s.negated()
        },
    ]
}

/// The edges of a cube by their corners, in beam path order: round the back face,
/// on to the front face and round it, and the three edges that are left, for each
/// of which the pen is lifted.
pub open spec fn edges() -> Seq<(usize, usize)> {
    seq![
        (0, 1),
        (1, 2),
        (2, 3),
        (3, 0),
        (0, 4),
        (4, 5),
        (5, 6),
        (6, 7),
        (7, 4),
        (1, 5),
        (2, 6),
        (3, 7),
    ]
}

/// The edges of a cube that reaches `s` from the origin along every axis.
pub open spec fn cube_strokes(s: Binary32) -> Seq<Stroke> {
    edges().map_values(
        |e: (usize, usize)|
            Stroke {
                p0: corner(s, e.0 as int),
                p1: corner(s, e.1 as int),
                color: if e.1 == e.0 + 4 {
                    cyan()
                } else {
                    green()
                },
            },
    )
}

/// The edges of a cube around the origin.
pub fn wireframe_cube(s: Binary32) -> (r: Vec<Segment>)
    ensures
        strokes(r@) == cube_strokes(s),
{
    let o: Binary32 = s.opposite();
    let v: [[Binary32; 3]; 8] = [
        [o, o, o],
        [s, o, o],
        [s, s, o],
        [o, s, o],
        [o, o, s],
        [s, o, s],
        [s, s, s],
        [o, s, s],
    ];
    let list: [(usize, usize); 12] = [
        (0, 1),
        (1, 2),
        (2, 3),
        (3, 0),
        (0, 4),
        (4, 5),
        (5, 6),
        (6, 7),
        (7, 4),
        (1, 5),
        (2, 6),
        (3, 7),
    ];
    proof {
        assert(list@ =~= edges());
        assert forall|k: int| 0 <= k < 8 implies (#[trigger] v@[k])@ =~= corner(s, k) by {}
        assert forall|k: int| 0 <= k < 12 implies (#[trigger] edges()[k]).0 < 8 && edges()[k].1
            < 8 by {}
    }
    let green: [Binary32; 3] = green_color();
    let cyan: [Binary32; 3] = cyan_color();
    let mut r: Vec<Segment> = Vec::new();
    let mut i: usize = 0;
    while i < 12
        invariant
            i <= 12,
            list@ == edges(),
            forall|k: int| 0 <= k < 8 ==> (#[trigger] v@[k])@ == corner(s, k),
            forall|k: int| 0 <= k < 12 ==> (#[trigger] edges()[k]).0 < 8 && edges()[k].1 < 8,
            edges().len() == 12,
            green@ == self::green(),
            cyan@ == self::cyan(),
            strokes(r@) == cube_strokes(s).take(i as int),
        decreases 12 - i,
    {
        let (a, b): (usize, usize) = list[i];
        assert((a, b) == edges()[i as int]);
        let color: [Binary32; 3] = if b == a + 4 {
            cyan
        } else {
            green
        };
        let edge: Segment = Segment::new(v[a], v[b], color);
        proof {
            assert(edge@ == cube_strokes(s)[i as int]);
            assert(cube_strokes(s).take(i + 1) =~= cube_strokes(s).take(i as int).push(edge@));
            assert(strokes(r@.push(edge)) =~= strokes(r@).push(edge@));
        }
        r.push(edge);
        i = i + 1;
    }
    proof {
        assert(cube_strokes(s).take(12) =~= cube_strokes(s));
    }
    r
}

/// The strokes that lead from each point to the next.
pub open spec fn path(points: Seq<Seq<Binary32>>, color: Seq<Binary32>) -> Seq<Stroke> {
    Seq::new(
        (points.len() - 1) as nat,
        |i: int| Stroke { p0: points[i], p1: points[i + 1], color },
    )
}

/// The points that a list of triples holds.
pub open spec fn points(list: Seq<[Binary32; 3]>) -> Seq<Seq<Binary32>> {
    list.map_values(|p: [Binary32; 3]| p@)
}

/// Appends the segments that lead from each point to the next.
fn connect(list: &Vec<[Binary32; 3]>, color: [Binary32; 3], out: &mut Vec<Segment>)
    requires
        list@.len() >= 1,
    ensures
        strokes(final(out)@) == strokes(old(out)@) + path(points(list@), color@),
{
    let ghost way = path(points(list@), color@);
    let last: usize = list.len() - 1;
    let mut i: usize = 0;
    proof {
        assert(strokes(out@) =~= strokes(old(out)@) + way.take(0));
    }
    while i < last
        invariant
            i <= last,
            last + 1 == list@.len(),
            way == path(points(list@), color@),
            strokes(out@) == strokes(old(out)@) + way.take(i as int),
        decreases last - i,
    {
        let s: Segment = Segment::new(list[i], list[i + 1], color);
        let ghost before = out@;
        out.push(s);
        proof {
            assert(way.take(i + 1) =~= way.take(i as int).push(s@));
            assert(strokes(out@) =~= strokes(before).push(s@));
            assert(strokes(out@) =~= strokes(old(out)@) + way.take(i + 1));
        }
        i = i + 1;
    }
    proof {
        assert(way.take(i as int) =~= way);
    }
}

/// A point of the drawing plane, in hundredths.
pub open spec fn flat(x: int, y: int) -> Seq<Binary32> {
    seq![hundredths(x), hundredths(y), binary32::signed(false, 0)]
}

pub open spec fn hundredths(x: int) -> Binary32 {
    if x < 0 {
        binary32::nearest((-x) as nat, 100).negated()
    } else {
        binary32::nearest(x as nat, 100)
    }
}

fn flat_point(x: i32, y: i32) -> (r: [Binary32; 3])
    ensures
        r@ == flat(x as int, y as int),
{
    let r: [Binary32; 3] = [number_of_hundredths(x), number_of_hundredths(y), Binary32::zero()];
    assert(r@ =~= flat(x as int, y as int));
    r
}

fn number_of_hundredths(x: i32) -> (r: Binary32)
    ensures
        r == hundredths(x as int),
{
    if x < 0 {
        Binary32::ratio((-(x as i64)) as u32, 100).opposite()
    } else {
        Binary32::ratio(x as u32, 100)
    }
}

/// The outline of the ship, nose up: nose, left fin, left notch, right notch, right
/// fin, and back to the nose.
pub open spec fn ship_outline() -> Seq<Seq<Binary32>> {
    seq![flat(0, 12), flat(-8, -12), flat(-4, -7), flat(4, -7), flat(8, -12), flat(0, 12)]
}

/// The dart of the ship: one stroke without a lift of the pen.
pub fn ship() -> (r: Vec<Segment>)
    ensures
        strokes(r@) == path(ship_outline(), green()),
{
    let list: Vec<[Binary32; 3]> = vec![
        flat_point(0, 12),
        flat_point(-8, -12),
        flat_point(-4, -7),
        flat_point(4, -7),
        flat_point(8, -12),
        flat_point(0, 12),
    ];
    let mut r: Vec<Segment> = Vec::new();
    proof {
        assert(points(list@) =~= ship_outline());
    }
    connect(&list, green_color(), &mut r);
    proof {
        assert(strokes(r@) =~= path(ship_outline(), green()));
    }
    r
}

/// The angle `i` of `n` steps around, as far as `whole`.
pub open spec fn step(whole: u32, i: nat, n: nat) -> Binary32 {
    Binary32 { bits: whole } * binary32::nearest(i, 1) / binary32::nearest(n, 1)
}

fn step_angle(whole: u32, i: usize, n: usize) -> (r: Binary32)
    ensures
        r == step(whole, i as nat, n as nat),
{
    Binary32 { bits: whole } * Binary32::from_u64(i as u64) / Binary32::from_u64(n as u64)
}

/// The angles that the saucer is drawn with: 13 around the hull, and 7 over the
/// dome.
pub open spec fn saucer_angles() -> Seq<Binary32> {
    Seq::new(
        20,
        |i: int|
            if i < 13 {
                step(TAU, i as nat, 12)
            } else {
                step(PI, (i - 13) as nat, 6)
            },
    )
}

pub fn ufo_angles() -> (r: Vec<Binary32>)
    ensures
        r@ == saucer_angles(),
{
    let mut r: Vec<Binary32> = Vec::new();
    while r.len() < 20
        invariant
            r@.len() <= 20,
            r@ == saucer_angles().take(r@.len() as int),
        decreases 20 - r@.len(),
    {
        let i: usize = r.len();
        let angle: Binary32 = if i < 13 {
            step_angle(TAU, i, 12)
        } else {
            step_angle(PI, i - 13, 6)
        };
        r.push(angle);
        proof {
            assert(r@ =~= saucer_angles().take(r@.len() as int));
        }
    }
    proof {
        assert(r@ =~= saucer_angles());
    }
    r
}

/// A point of the hull: an ellipse around the origin.
pub open spec fn hull(t: Turn) -> Seq<Binary32> {
    seq![
        binary32::nearest(35, 100) * t.cos,
        binary32::nearest(10, 100) * t.sin,
        binary32::signed(false, 0),
    ]
}

/// A point of the dome, which sits on the hull.
pub open spec fn dome(t: Turn) -> Seq<Binary32> {
    seq![
        binary32::nearest(16, 100) * t.cos,
        binary32::nearest(6, 100) + binary32::nearest(12, 100) * t.sin,
        binary32::signed(false, 0),
    ]
}

/// The saucer: the hull, and after one lift of the pen the dome. `turns` are the
/// sines and cosines of its angles.
pub open spec fn saucer_strokes(turns: Seq<Turn>) -> Seq<Stroke> {
    path(turns.take(13).map_values(|t: Turn| hull(t)), green()) + path(
        turns.skip(13).map_values(|t: Turn| dome(t)),
        green(),
    )
}

fn hull_point(t: Turn) -> (r: [Binary32; 3])
    ensures
        r@ == hull(t),
{
    let r: [Binary32; 3] = [
        Binary32::ratio(35, 100) * t.cos,
        Binary32::ratio(10, 100) * t.sin,
        Binary32::zero(),
    ];
    assert(r@ =~= hull(t));
    r
}

fn dome_point(t: Turn) -> (r: [Binary32; 3])
    ensures
        r@ == dome(t),
{
    let r: [Binary32; 3] = [
        Binary32::ratio(16, 100) * t.cos,
        Binary32::ratio(6, 100) + Binary32::ratio(12, 100) * t.sin,
        Binary32::zero(),
    ];
    assert(r@ =~= dome(t));
    r
}

/// The saucer, from the sines and cosines of its angles.
pub fn ufo(turns: &[Turn]) -> (r: Vec<Segment>)
    requires
        turns@.len() == 20,
    ensures
        strokes(r@) == saucer_strokes(turns@),
{
    let mut body: Vec<[Binary32; 3]> = Vec::new();
    let mut top: Vec<[Binary32; 3]> = Vec::new();
    let mut i: usize = 0;
    while i < 20
        invariant
            i <= 20,
            turns@.len() == 20,
            body@.len() == (if i < 13 {
                i as int
            } else {
                13
            }),
            top@.len() == (if i < 13 {
                0
            } else {
                i - 13
            }),
            forall|k: int| 0 <= k < body@.len() ==> (#[trigger] body@[k])@ == hull(turns@[k]),
            forall|k: int| 0 <= k < top@.len() ==> (#[trigger] top@[k])@ == dome(turns@[k + 13]),
        decreases 20 - i,
    {
        let t: Turn = turns[i];
        if i < 13 {
            body.push(hull_point(t));
        } else {
            top.push(dome_point(t));
        }
        i = i + 1;
    }
    let mut r: Vec<Segment> = Vec::new();
    let green: [Binary32; 3] = green_color();
    connect(&body, green, &mut r);
    connect(&top, green, &mut r);
    proof {
        assert(points(body@) =~= turns@.take(13).map_values(|t: Turn| hull(t)));
        assert(points(top@) =~= turns@.skip(13).map_values(|t: Turn| dome(t)));
        assert(strokes(r@) =~= saucer_strokes(turns@));
    }
    r
}

/// The three angles at `t` on the Lissajous curve: one for every axis. The first
/// and the last drift with the phase, so that the figure morphs.
pub open spec fn curve_angle(t: Binary32, phase: Binary32, axis: int) -> Binary32 {
    if axis == 0 {
        binary32::nearest(3, 1) * t + phase
    } else if axis == 1 {
        binary32::nearest(2, 1) * t + binary32::nearest(1, 2)
    } else {
        binary32::nearest(5, 1) * t - binary32::nearest(3, 10) * phase
    }
}

/// The angles that a Lissajous curve of `n` segments is drawn with at `time`: three
/// for every end of a segment.
pub open spec fn curve_angles(n: nat, time: Binary32) -> Seq<Binary32> {
    Seq::new(
        if n == 0 {
            0
        } else {
            3 * (n + 1)
        },
        |i: int|
            curve_angle(step(TAU, (i / 3) as nat, n), binary32::nearest(1, 2) * time, i % 3),
    )
}

pub fn lissajous_angles(n: usize, time: Binary32) -> (r: Vec<Binary32>)
    requires
        3 * (n + 1) <= usize::MAX,
    ensures
        r@ == curve_angles(n as nat, time),
{
    let mut r: Vec<Binary32> = Vec::new();
    if n == 0 {
        proof {
            assert(r@ =~= curve_angles(n as nat, time));
        }
        return r;
    }
    let phase: Binary32 = Binary32::ratio(1, 2) * time;
    let mut i: usize = 0;
    while i <= n
        invariant
            i <= n + 1,
            0 < n,
            3 * (n + 1) <= usize::MAX,
            phase == binary32::nearest(1, 2) * time,
            r@ == curve_angles(n as nat, time).take(3 * i),
        decreases n + 1 - i,
    {
        let t: Binary32 = step_angle(TAU, i, n);
        r.push(Binary32::ratio(3, 1) * t + phase);
        r.push(Binary32::ratio(2, 1) * t + Binary32::ratio(1, 2));
        r.push(Binary32::ratio(5, 1) * t - Binary32::ratio(3, 10) * phase);
        proof {
            let all = curve_angles(n as nat, time);
            assert((3 * i) / 3 == i && (3 * i + 1) / 3 == i && (3 * i + 2) / 3 == i);
            assert(all[3 * i] == curve_angle(t, phase, 0));
            assert(all[3 * i + 1] == curve_angle(t, phase, 1));
            assert(all[3 * i + 2] == curve_angle(t, phase, 2));
            assert(r@ =~= all.take(3 * (i + 1)));
        }
        i = i + 1;
    }
    proof {
        assert(r@ =~= curve_angles(n as nat, time));
    }
    r
}

/// The colour of the Lissajous curve.
pub open spec fn curve_color() -> Seq<Binary32> {
    seq![binary32::nearest(4, 10), binary32::nearest(1, 1), binary32::nearest(7, 10)]
}

/// A point of the Lissajous curve, from the turns of its three angles.
pub open spec fn curve_point(turns: Seq<Turn>, i: int) -> Seq<Binary32> {
    seq![
        turns[3 * i].sin * binary32::nearest(8, 10),
        turns[3 * i + 1].sin * binary32::nearest(8, 10),
        turns[3 * i + 2].cos * binary32::nearest(4, 10),
    ]
}

/// The Lissajous curve of `n` segments. `turns` are the sines and cosines of its
/// angles.
pub open spec fn curve_strokes(n: nat, turns: Seq<Turn>) -> Seq<Stroke> {
    if n == 0 {
        Seq::empty()
    } else {
        path(Seq::new(n + 1, |i: int| curve_point(turns, i)), curve_color())
    }
}

/// The Lissajous curve of `n` segments, from the sines and cosines of its angles.
pub fn lissajous(n: usize, turns: &[Turn]) -> (r: Vec<Segment>)
    requires
        n > 0 ==> turns@.len() == 3 * (n + 1),
    ensures
        strokes(r@) == curve_strokes(n as nat, turns@),
{
    let mut r: Vec<Segment> = Vec::new();
    if n == 0 {
        proof {
            assert(strokes(r@) =~= Seq::<Stroke>::empty());
        }
        return r;
    }
    let size: usize = turns.len();
    let wide: Binary32 = Binary32::ratio(8, 10);
    let deep: Binary32 = Binary32::ratio(4, 10);
    let mut list: Vec<[Binary32; 3]> = Vec::new();
    let mut i: usize = 0;
    while i <= n
        invariant
            0 < n,
            i <= n + 1,
            size == turns@.len(),
            size == 3 * (n + 1),
            wide == binary32::nearest(8, 10),
            deep == binary32::nearest(4, 10),
            list@.len() == i,
            forall|k: int| 0 <= k < i ==> (#[trigger] list@[k])@ == curve_point(turns@, k),
        decreases n + 1 - i,
    {
        let p: [Binary32; 3] = [
            turns[3 * i].sin * wide,
            turns[3 * i + 1].sin * wide,
            turns[3 * i + 2].cos * deep,
        ];
        proof {
            assert(p@ =~= curve_point(turns@, i as int));
        }
        list.push(p);
        i = i + 1;
    }
    let color: [Binary32; 3] = [
        Binary32::ratio(4, 10),
        Binary32::ratio(1, 1),
        Binary32::ratio(7, 10),
    ];
    connect(&list, color, &mut r);
    proof {
        assert(color@ =~= curve_color());
        assert(points(list@) =~= Seq::new(n as nat + 1, |i: int| curve_point(turns@, i)));
        assert(strokes(r@) =~= curve_strokes(n as nat, turns@));
    }
    r
}

impl Scene {
    pub fn parse(name: &str) -> (r: Option<Scene>)
        ensures
            r == named_scene(name@),
    {
        if text::same(name, "cube") {
            Some(Scene::Cube)
        } else if text::same(name, "lissajous") {
            Some(Scene::Lissajous)
        } else if text::same(name, "ship") {
            Some(Scene::Ship)
        } else if text::same(name, "ufo") {
            Some(Scene::Ufo)
        } else if text::same(name, "draw") {
            Some(Scene::Draw)
        } else {
            None
        }
    }

    /// The number of segments that the instance buffer holds. It is fixed for a
    /// scene, so that the buffer never grows; that of the board leaves room for
    /// one frame of drawing.
    pub open spec fn capacity(self) -> nat {
        match self {
            Scene::Cube => 12,
            Scene::Lissajous => 600,
            Scene::Ship => 5,
            Scene::Ufo => 18,
            Scene::Draw => 256,
        }
    }

    pub fn max_segments(self) -> (n: usize)
        ensures
            n == self.capacity(),
    {
        match self {
            Scene::Cube => 12,
            Scene::Lissajous => 600,
            Scene::Ship => 5,
            Scene::Ufo => 18,
            Scene::Draw => 256,
        }
    }

    /// Whether the segments change between frames, so that the instance buffer
    /// has to be written for every frame.
    pub fn animated(self) -> (r: bool)
        ensures
            r == (self == Scene::Lissajous),
    {
        matches!(self, Scene::Lissajous)
    }

    /// The angles that the scene is drawn with at `time`.
    pub open spec fn drawn_with(self, time: Binary32) -> Seq<Binary32> {
        match self {
            Scene::Lissajous => curve_angles(LISSAJOUS_SEGMENTS as nat, time),
            Scene::Ufo => saucer_angles(),
            _ => Seq::empty(),
        }
    }

    /// The angles whose sines and cosines `segments` asks for.
    pub fn angles(self, time: Binary32) -> (r: Vec<Binary32>)
        ensures
            r@ == self.drawn_with(time),
    {
        match self {
            Scene::Lissajous => lissajous_angles(LISSAJOUS_SEGMENTS, time),
            Scene::Ufo => ufo_angles(),
            _ => {
                let r: Vec<Binary32> = Vec::new();
                assert(r@ =~= Seq::<Binary32>::empty());
                r
            },
        }
    }

    /// The number of angles that the scene is drawn with.
    pub open spec fn turn_count(self) -> nat {
        match self {
            Scene::Lissajous => 1803,
            Scene::Ufo => 20,
            _ => 0,
        }
    }

    /// The strokes of the scene, from the sines and cosines of its angles.
    pub open spec fn stroke_list(self, turns: Seq<Turn>) -> Seq<Stroke> {
        match self {
            Scene::Cube => cube_strokes(binary32::nearest(7, 10)),
            Scene::Lissajous => curve_strokes(LISSAJOUS_SEGMENTS as nat, turns),
            Scene::Ship => path(ship_outline(), green()),
            Scene::Ufo => saucer_strokes(turns),
            Scene::Draw => Seq::empty(),
        }
    }

    /// The segments of the scene, from the sines and cosines of its angles. The
    /// order of the list is the path of the beam.
    pub fn segments(self, turns: &[Turn]) -> (r: Vec<Segment>)
        requires
            turns@.len() == self.turn_count(),
        ensures
            strokes(r@) == self.stroke_list(turns@),
    {
        match self {
            Scene::Cube => wireframe_cube(Binary32::ratio(7, 10)),
            Scene::Lissajous => lissajous(LISSAJOUS_SEGMENTS, turns),
            Scene::Ship => ship(),
            Scene::Ufo => ufo(turns),
            Scene::Draw => {
                let r: Vec<Segment> = Vec::new();
                assert(strokes(r@) =~= Seq::<Stroke>::empty());
                r
            },
        }
    }

    /// How the scene moves as a whole. The ship and the board have no motion of
    /// their own. The saucer scrolls at a constant speed from -2 to 2, and then
    /// begins anew.
    pub open spec fn motion(self, time: Binary32) -> Model {
        match self {
            Scene::Cube => Model::Tumble {
                y: time * binary32::nearest(7, 10),
                x: time * binary32::nearest(4, 10),
            },
            Scene::Lissajous => Model::Spin { y: time * binary32::nearest(25, 100) },
            Scene::Ship => Model::Still,
            Scene::Draw => Model::Still,
            Scene::Ufo => Model::Shift { x: scrolled(time) },
        }
    }

    pub fn model(self, time: Binary32) -> (r: Model)
        ensures
            r == self.motion(time),
    {
        match self {
            Scene::Cube => Model::Tumble {
                y: time * Binary32::ratio(7, 10),
                x: time * Binary32::ratio(4, 10),
            },
            Scene::Lissajous => Model::Spin { y: time * Binary32::ratio(25, 100) },
            Scene::Ship => Model::Still,
            Scene::Draw => Model::Still,
            Scene::Ufo => {
                let past: Binary32 = (time * Binary32::ratio(12, 10)).rem_four();
                let past: Binary32 = if past.is_below(Binary32::zero()) {
                    past + Binary32::ratio(4, 1)
                } else {
                    past
                };
                Model::Shift { x: past - Binary32::ratio(2, 1) }
            },
        }
    }
}

/// Where the saucer is at `time`: a distance of four is run through again and
/// again.
pub open spec fn scrolled(time: Binary32) -> Binary32 {
    let past = (time * binary32::nearest(12, 10)).past_fours();
    let past = if past.below(binary32::signed(false, 0)) {
        past + binary32::nearest(4, 1)
    } else {
        past
    };
    past - binary32::nearest(2, 1)
}

/// The saucer never leaves the stretch from -2 to 2, as long as the way that it has
/// gone is a number.
pub proof fn law_saucer_stays_on_screen(time: Binary32)
    requires
        (time * binary32::nearest(12, 10)).finite(),
    ensures
        binary32::nearest(2, 1).negated().at_most(scrolled(time)),
        scrolled(time).at_most(binary32::nearest(2, 1)),
{
    let way = time * binary32::nearest(12, 10);
    let past = way.past_fours();
    let four = binary32::nearest(4, 1);
    let two = binary32::nearest(2, 1);
    let zero = binary32::signed(false, 0);
    lemma2_to64();
    lemma_pow2_adds(2, 149);
    lemma_pow2_pos(151);
    order::law_nearest_is_exact(4, 1, 4, 149);
    order::law_nearest_is_exact(2, 1, 2, 149);
    order::law_rounding_keeps_sides(way.units() % pow2(151), 1, four.code());
    let code = rounding::rounded(way.units() % pow2(151), 1);
    binary32::lemma_units_order(code, four.code());
    assert(past.code() == code && past.finite());
    let shifted = if past.below(zero) {
        past + four
    } else {
        past
    };
    if past.below(zero) {
        order::law_sum_between(past, four, zero, four);
    }
    order::lemma_opposite_counts(two, 2, 149);
    binary32::lemma_units_order(shifted.code(), four.code());
    order::law_sum_between(shifted, two.negated(), two.negated(), two);
}

/// The number of segments of a scene never changes and always fits the instance
/// buffer, which is filled by every scene but the board.
pub proof fn law_segments_fit_the_buffer(scene: Scene, turns: Seq<Turn>)
    requires
        turns.len() == scene.turn_count(),
    ensures
        scene.stroke_list(turns).len() <= scene.capacity(),
        scene != Scene::Draw ==> scene.stroke_list(turns).len() == scene.capacity(),
{
}

/// The angles of a scene are as many as its segments ask for.
pub proof fn law_angles_are_enough(scene: Scene, time: Binary32)
    ensures
        scene.drawn_with(time).len() == scene.turn_count(),
{
}

/// Only a scene that is animated has angles, and so segments, that depend on the
/// time.
pub proof fn law_still_scenes_do_not_change(scene: Scene, a: Binary32, b: Binary32)
    requires
        scene != Scene::Lissajous,
    ensures
        scene.drawn_with(a) == scene.drawn_with(b),
{
}

/// Whether the stroke `i` begins where the stroke before it ends.
pub open spec fn continues(list: Seq<Stroke>, i: int) -> bool {
    list[i - 1].p1 == list[i].p0
}

/// The path of the beam is broken only where the scene calls for it: before each
/// of the last three edges of the cube, and between the hull and the dome of the
/// saucer.
pub proof fn law_strokes_are_continuous(scene: Scene, turns: Seq<Turn>, i: int)
    requires
        turns.len() == scene.turn_count(),
        0 < i < scene.stroke_list(turns).len(),
        scene == Scene::Cube ==> i < 9,
        scene == Scene::Ufo ==> i != 12,
    ensures
        continues(scene.stroke_list(turns), i),
{
    if scene == Scene::Cube {
        let e = edges();
        assert(e[i - 1].1 == e[i].0);
    }
}

/// The number of edges that join two corners.
pub open spec fn joins(list: Seq<(usize, usize)>, a: usize, b: usize) -> nat
    decreases list.len(),
{
    if list.len() == 0 {
        0
    } else {
        let last = list.last();
        joins(list.drop_last(), a, b) + (if last == (a, b) || last == (b, a) {
            1nat
        } else {
            0nat
        })
    }
}

/// Whether two corners of a cube lie at the ends of an edge: they differ along one
/// axis.
pub open spec fn adjacent(a: int, b: int) -> bool {
    if (a < 4) == (b < 4) {
        (a - b) % 4 == 1 || (a - b) % 4 == 3
    } else {
        a % 4 == b % 4
    }
}

/// The cube is drawn edge by edge: every two adjacent corners are joined once, and
/// no others.
pub proof fn law_cube_has_every_edge_once(a: usize, b: usize)
    requires
        a < 8,
        b < 8,
    ensures
        joins(edges(), a, b) == (if adjacent(a as int, b as int) {
            1nat
        } else {
            0nat
        }),
{
    let e = edges();
    assert(e.take(12) =~= e);
    assert(e[0] == (0usize, 1usize) && e[1] == (1usize, 2usize) && e[2] == (2usize, 3usize));
    assert(e[3] == (3usize, 0usize) && e[4] == (0usize, 4usize) && e[5] == (4usize, 5usize));
    assert(e[6] == (5usize, 6usize) && e[7] == (6usize, 7usize) && e[8] == (7usize, 4usize));
    assert(e[9] == (1usize, 5usize) && e[10] == (2usize, 6usize) && e[11] == (3usize, 7usize));
    lemma_joins_step(e, 12, a, b);
    lemma_joins_step(e, 11, a, b);
    lemma_joins_step(e, 10, a, b);
    lemma_joins_step(e, 9, a, b);
    lemma_joins_step(e, 8, a, b);
    lemma_joins_step(e, 7, a, b);
    lemma_joins_step(e, 6, a, b);
    lemma_joins_step(e, 5, a, b);
    lemma_joins_step(e, 4, a, b);
    lemma_joins_step(e, 3, a, b);
    lemma_joins_step(e, 2, a, b);
    lemma_joins_step(e, 1, a, b);
}

proof fn lemma_joins_step(list: Seq<(usize, usize)>, n: int, a: usize, b: usize)
    requires
        0 < n <= list.len(),
    ensures
        joins(list.take(n), a, b) == joins(list.take(n - 1), a, b) + (if list[n - 1] == (a, b)
            || list[n - 1] == (b, a) {
            1nat
        } else {
            0nat
        }),
        joins(list.take(0), a, b) == 0,
{
    assert(list.take(n).drop_last() =~= list.take(n - 1));
}

/// The edges of the cube reach `s` from the origin along every axis, each leads along one
/// axis from one side to the other, and those that lead into the depth have a colour of
/// their own.
pub proof fn law_cube_reaches_all_sides(s: Binary32, k: int)
    requires
        0 <= k < 12,
    ensures
        ({
            let edge = cube_strokes(s)[k];
            let low = s.negated();
            let along = |a: int| edge.p0[a] == edge.p1[a].negated() || edge.p1[a]
                == edge.p0[a].negated();
            &&& edge.p0.len() == 3 && edge.p1.len() == 3
            &&& forall|a: int|
                0 <= a < 3 ==> (#[trigger] edge.p0[a] == s || edge.p0[a] == low) && (edge.p1[a] == s
                    || edge.p1[a] == low)
            &&& (edge.p0[0] == edge.p1[0] && edge.p0[1] == edge.p1[1] && along(2)) || (edge.p0[0]
                == edge.p1[0] && edge.p0[2] == edge.p1[2] && along(1)) || (edge.p0[1] == edge.p1[1]
                && edge.p0[2] == edge.p1[2] && along(0))
            &&& edge.p0[2] != edge.p1[2] ==> edge.color == seq![
                binary32::nearest(30, 100),
                binary32::nearest(95, 100),
                binary32::nearest(95, 100),
            ]
            &&& edge.p0[2] == edge.p1[2] && s != low ==> edge.color == seq![
                binary32::nearest(35, 100),
                binary32::nearest(1, 1),
                binary32::nearest(55, 100),
            ]
        }),
{
    let e = edges();
    assert(e[0] == (0usize, 1usize) && e[1] == (1usize, 2usize) && e[2] == (2usize, 3usize));
    assert(e[3] == (3usize, 0usize) && e[4] == (0usize, 4usize) && e[5] == (4usize, 5usize));
    assert(e[6] == (5usize, 6usize) && e[7] == (6usize, 7usize) && e[8] == (7usize, 4usize));
    assert(e[9] == (1usize, 5usize) && e[10] == (2usize, 6usize) && e[11] == (3usize, 7usize));
    assert(cube_strokes(s)[k] == (Stroke {
        p0: corner(s, e[k].0 as int),
        p1: corner(s, e[k].1 as int),
        color: if e[k].1 == e[k].0 + 4 {
            cyan()
        } else {
            green()
        },
    }));
}

/// Different corners of a cube lie apart.
pub proof fn law_corners_lie_apart(s: Binary32, i: int, j: int)
    requires
        0 <= i < 8,
        0 <= j < 8,
        s != s.negated(),
        corner(s, i) == corner(s, j),
    ensures
        i == j,
{
    let a = corner(s, i);
    let b = corner(s, j);
    assert(a[0] == b[0] && a[1] == b[1] && a[2] == b[2]);
}

/// Whether a number is `num / den` of another, within one part in two to the power 20 and
/// eight units.
pub open spec fn near(x: Binary32, num: int, den: int, of: Binary32) -> bool {
    let slack = 0x80_0000 * den + (if num < 0 { -num } else { num }) * of.units();
    &&& 0x10_0000 * (x.value() * den - num * of.value()) <= slack
    &&& 0x10_0000 * (num * of.value() - x.value() * den) <= slack
}

/// The scenes move evenly: the cube turns by 0.7 and 0.4 radians a second around its two
/// axes, and the curve by a quarter. The ship and the board stay where they are.
pub proof fn law_scenes_move_evenly(time: Binary32)
    requires
        time.finite(),
    ensures
        Scene::Cube.motion(time) matches Model::Tumble { y, x } && (y.finite() ==> near(
            y,
            7,
            10,
            time,
        )) && (x.finite() ==> near(x, 2, 5, time)),
        Scene::Lissajous.motion(time) matches Model::Spin { y } && (y.finite() ==> near(
            y,
            1,
            4,
            time,
        )),
        Scene::Ufo.motion(time) is Shift,
        Scene::Ship.motion(time) == Model::Still,
        Scene::Draw.motion(time) == Model::Still,
{
    order::law_operations_commute(time, binary32::nearest(7, 10));
    order::law_operations_commute(time, binary32::nearest(4, 10));
    order::law_operations_commute(time, binary32::nearest(25, 100));
    if (time * binary32::nearest(7, 10)).finite() {
        order::law_fraction_of_error(7, 10, time);
    }
    if (time * binary32::nearest(4, 10)).finite() {
        order::law_fraction_of_error(4, 10, time);
    }
    if (time * binary32::nearest(25, 100)).finite() {
        order::law_fraction_of_error(25, 100, time);
    }
}

/// The saucer scrolls at a constant speed: its place is where it started, two to the left,
/// plus the way that it has gone, from which whole stretches of four are taken. It holds
/// within eight parts in two to the power 22.
pub proof fn law_saucer_scrolls_evenly(time: Binary32)
    requires
        (time * binary32::nearest(12, 10)).finite(),
    ensures
        Scene::Ufo.motion(time) == (Model::Shift { x: scrolled(time) }),
        scrolled(time).finite(),
        ({
            let way = time * binary32::nearest(12, 10);
            let gone = way.value() % (4 * pow2(149) as int);
            let kept = scrolled(time).value() + 2 * pow2(149);
            &&& near(way, 6, 5, time)
            &&& 0x40_0000 * (kept - gone) <= 8 * pow2(149)
            &&& 0x40_0000 * (gone - kept) <= 8 * pow2(149)
        }),
{
    let way = time * binary32::nearest(12, 10);
    let past = way.past_fours();
    let four = binary32::nearest(4, 1);
    let two = binary32::nearest(2, 1);
    let zero = binary32::signed(false, 0);
    let t = pow2(149) as int;
    lemma2_to64();
    lemma_pow2_adds(2, 149);
    lemma_pow2_adds(24, 125);
    lemma_pow2_pos(125);
    lemma_pow2_pos(149);
    lemma_pow2_pos(151);
    order::law_operations_commute(time, binary32::nearest(12, 10));
    order::lemma_fraction_error(12, 10);
    assert(time.finite());
    order::law_fraction_of_error(12, 10, time);
    order::lemma_whole_error(4);
    order::lemma_whole_error(2);
    binary32::lemma_units_order(0, 0);
    let rest = way.units() % pow2(151);
    order::law_rounding_keeps_sides(rest, 1, four.code());
    let code = rounding::rounded(rest, 1);
    binary32::lemma_units_order(code, four.code());
    order::lemma_signed(way.negative(), code);
    order::law_rounding_error(rest, 1);
    assert(past.finite());
    lemma_rest(way.units() as int, pow2(151) as int);
    let moved = if past.below(zero) {
        past + four
    } else {
        past
    };
    if past.below(zero) {
        order::law_sum_between(past, four, zero, four);
        binary32::lemma_units_order(moved.code(), four.code());
        assert(moved.finite());
        order::law_sum_error(past, four);
    }
    order::law_opposites(two, two);
    order::lemma_signed(true, two.code());
    law_saucer_stays_on_screen(time);
    binary32::lemma_units_order(scrolled(time).code(), two.code());
    assert(scrolled(time).finite());
    order::law_sum_error(moved, two.negated());
}

/// The rest of a division of a number and of its opposite.
proof fn lemma_rest(n: int, d: int)
    requires
        n >= 0,
        d > 0,
    ensures
        (-n) % d == (if n % d == 0 {
            0
        } else {
            d - n % d
        }),
{
    let q = n / d;
    let r = n % d;
    lemma_fundamental_div_mod(n, d);
    if r == 0 {
        assert(-n == (-q) * d + 0) by (nonlinear_arith)
            requires
                n == d * q + r,
                r == 0,
        ;
        lemma_fundamental_div_mod_converse(-n, d, -q, 0);
    } else {
        assert(-n == (-q - 1) * d + (d - r)) by (nonlinear_arith)
            requires
                n == d * q + r,
        ;
        lemma_fundamental_div_mod_converse(-n, d, -q - 1, d - r);
    }
}

/// The hull is an ellipse 0.35 wide and 0.1 tall around the origin, and the dome one 0.16
/// wide and 0.12 tall, 0.06 above it. Both lie in the drawing plane.
pub proof fn law_saucer_is_two_ellipses(t: Turn)
    requires
        t.sin.finite(),
        t.cos.finite(),
        t.sin.units() <= pow2(149),
        t.cos.units() <= pow2(149),
    ensures
        hull(t).len() == 3 && dome(t).len() == 3,
        near(hull(t)[0], 7, 20, t.cos),
        near(hull(t)[1], 1, 10, t.sin),
        hull(t)[2].value() == 0,
        near(dome(t)[0], 4, 25, t.cos),
        ({
            let kept = 50 * dome(t)[1].value();
            let exact = 3 * pow2(149) + 6 * t.sin.value();
            &&& 0x10_0000 * (kept - exact) <= 9 * pow2(149)
            &&& 0x10_0000 * (exact - kept) <= 9 * pow2(149)
        }),
        dome(t)[2].value() == 0,
{
    binary32::lemma_units_order(0, 0);
    lemma_small_product(35, 100, t.cos);
    lemma_small_product(10, 100, t.sin);
    lemma_small_product(16, 100, t.cos);
    lemma_dome_height(t.sin);
}

/// The height of a point of the dome.
proof fn lemma_dome_height(sin: Binary32)
    requires
        sin.finite(),
        sin.units() <= pow2(149),
    ensures
        ({
            let y = binary32::nearest(6, 100) + binary32::nearest(12, 100) * sin;
            let kept = 50 * y.value();
            let exact = 3 * pow2(149) + 6 * sin.value();
            &&& 0x10_0000 * (kept - exact) <= 9 * pow2(149)
            &&& 0x10_0000 * (exact - kept) <= 9 * pow2(149)
        }),
{
    let base = binary32::nearest(6, 100);
    let up = binary32::nearest(12, 100) * sin;
    lemma_small_product(12, 100, sin);
    lemma_pow2_pos(149);
    lemma2_to64();
    lemma_pow2_adds(32, 117);
    lemma_pow2_pos(117);
    order::lemma_fraction_error(6, 100);
    rounding::lemma_pow2_monotone(149, 178);
    lemma_pow2_unfold(178);
    lemma_pow2_unfold(179);
    lemma_moderate_sum(base, up);
    order::law_sum_error(base, up);
}

/// A fraction of a number of no more than one is a number.
proof fn lemma_small_product(num: nat, den: nat, x: Binary32)
    requires
        0 < num <= den <= 1000,
        x.finite(),
        x.units() <= pow2(149),
    ensures
        (binary32::nearest(num, den) * x).finite(),
        x * binary32::nearest(num, den) == binary32::nearest(num, den) * x,
        (binary32::nearest(num, den) * x).units() <= 2 * pow2(149),
        ({
            let y = binary32::nearest(num, den) * x;
            &&& 0x40_0000 * (y.value() * den - num * x.value()) <= num * x.units() + 0x40_0000 * den
            &&& 0x40_0000 * (num * x.value() - y.value() * den) <= num * x.units() + 0x40_0000 * den
        }),
{
    let f = binary32::nearest(num, den);
    let t = pow2(149);
    let two = binary32::nearest(2, 1);
    lemma_pow2_pos(149);
    order::lemma_whole_error(2);
    order::lemma_fraction_error(num, den);
    assert(f.units() <= 2 * t) by (nonlinear_arith)
        requires
            0x200_0000 * (f.value() * den - num * t) <= 3 * (num * t),
            f.value() == f.units(),
            num <= den,
            den >= 1,
            t > 0,
    ;
    assert(f.units() * x.units() <= two.units() * t) by (nonlinear_arith)
        requires
            f.units() <= 2 * t,
            x.units() <= t,
            two.units() == 2 * t,
    ;
    order::law_product_between(f, x, two);
    binary32::lemma_units_order((f * x).code(), two.code());
    binary32::lemma_units_order((f * x).code(), INFINITE as nat);
    binary32::lemma_units_order(two.code(), INFINITE as nat);
    order::law_fraction_of_error(num, den, x);
}

/// The curve swings 0.8 to either side and up and down, and 0.4 in depth.
pub proof fn law_curve_swings_within_its_box(turns: Seq<Turn>, i: int)
    requires
        0 <= i,
        3 * i + 2 < turns.len(),
        forall|k: int|
            0 <= k < turns.len() ==> (#[trigger] turns[k]).sin.finite() && turns[k].cos.finite()
                && turns[k].sin.units() <= pow2(149) && turns[k].cos.units() <= pow2(149),
    ensures
        curve_point(turns, i).len() == 3,
        near(curve_point(turns, i)[0], 4, 5, turns[3 * i].sin),
        near(curve_point(turns, i)[1], 4, 5, turns[3 * i + 1].sin),
        near(curve_point(turns, i)[2], 2, 5, turns[3 * i + 2].cos),
{
    lemma_small_product(8, 10, turns[3 * i].sin);
    lemma_small_product(8, 10, turns[3 * i + 1].sin);
    lemma_small_product(4, 10, turns[3 * i + 2].cos);
}

/// The steps around a curve are even: `i` of `n` steps make up the share `i` of `n` of the
/// way around, which is twice that of half the way around.
pub proof fn law_steps_are_even(i: nat, n: nat)
    requires
        i <= n,
        0 < n <= 0x100_0000,
    ensures
        ({
            let whole = (Binary32 { bits: TAU }).value();
            let kept = step(TAU, i, n).value() * n;
            &&& 0x10_0000 * (kept - whole * i) <= whole * i + 0x20_0000 * n
            &&& 0x10_0000 * (whole * i - kept) <= whole * i + 0x20_0000 * n
        }),
        ({
            let half = (Binary32 { bits: PI }).value();
            let kept = step(PI, i, n).value() * n;
            &&& 0x10_0000 * (kept - half * i) <= half * i + 0x20_0000 * n
            &&& 0x10_0000 * (half * i - kept) <= half * i + 0x20_0000 * n
        }),
        (Binary32 { bits: TAU }).value() == 2 * (Binary32 { bits: PI }).value(),
        0x40_0000 * (Binary32 { bits: PI }).value() == 13_176_795 * pow2(149),
{
    lemma2_to64();
    lemma_pow2_unfold(128);
    lemma_pow2_adds(22, 127);
    lemma_pow2_pos(127);
    assert(rounding::units(PI as nat) == 13_176_795 * pow2(127));
    assert(rounding::units(TAU as nat) == 13_176_795 * pow2(128));
    lemma_step_is_finite(Binary32 { bits: TAU }, i, n);
    lemma_step_is_finite(Binary32 { bits: PI }, i, n);
    order::law_share_error(Binary32 { bits: TAU }, i, n);
    order::law_share_error(Binary32 { bits: PI }, i, n);
}

proof fn lemma_step_is_finite(whole: Binary32, i: nat, n: nat)
    requires
        i <= n,
        0 < n <= 0x100_0000,
        whole.finite(),
        !whole.negative(),
        whole.units() <= 8 * pow2(149),
    ensures
        (whole * binary32::nearest(i, 1)).finite(),
        (whole * binary32::nearest(i, 1) / binary32::nearest(n, 1)).finite(),
{
    let t = pow2(149);
    let a = binary32::nearest(i, 1);
    let d = binary32::nearest(n, 1);
    let x = whole * a;
    lemma_pow2_pos(149);
    order::lemma_whole_error(i);
    order::lemma_whole_error(n);
    order::lemma_whole_error(0x1000_0000);
    let big = binary32::nearest(0x1000_0000, 1);
    lemma2_to64();
    lemma_pow2_adds(28, 149);
    order::law_nearest_is_exact(0x1000_0000, 1, 1, 177);
    order::lemma_size_of_count(big, 1, 177);
    assert(whole.units() * a.units() <= big.units() * t) by (nonlinear_arith)
        requires
            whole.units() <= 8 * t,
            a.units() == i * t,
            i <= 0x100_0000,
            big.units() == 0x1000_0000 * t,
            t > 0,
    ;
    order::law_product_between(whole, a, big);
    binary32::lemma_units_order(x.code(), big.code());
    binary32::lemma_units_order(x.code(), INFINITE as nat);
    binary32::lemma_units_order(big.code(), INFINITE as nat);
    binary32::lemma_units_order(d.code(), 0);
    assert(x.units() * t <= big.units() * d.units()) by (nonlinear_arith)
        requires
            x.units() <= big.units(),
            d.units() == n * t,
            n >= 1,
            t > 0,
    ;
    order::law_quotient_between(x, d, big);
    binary32::lemma_units_order((x / d).code(), big.code());
}

/// Along the curve the three angles go round three, two and five times. Those of the first
/// and the last axis drift with the phase, by all of it and by three tenths of it backwards;
/// that of the second axis is ahead by a half.
pub proof fn law_curve_goes_round_three_two_and_five_times(t: Binary32, phase: Binary32)
    requires
        t.finite(),
        phase.finite(),
        t.units() <= pow2(169),
        phase.units() <= pow2(169),
    ensures
        ({
            let x = curve_angle(t, phase, 0).value();
            let y = curve_angle(t, phase, 1).value();
            let z = curve_angle(t, phase, 2).value();
            let slack = 100 * t.units() + 10 * phase.units() + 10 * pow2(149);
            &&& 0x10_0000 * (x - (3 * t.value() + phase.value())) <= slack
            &&& 0x10_0000 * (3 * t.value() + phase.value() - x) <= slack
            &&& 0x10_0000 * (2 * y - (4 * t.value() + pow2(149))) <= slack
            &&& 0x10_0000 * (4 * t.value() + pow2(149) - 2 * y) <= slack
            &&& 0x10_0000 * (10 * z - (50 * t.value() - 3 * phase.value())) <= slack
            &&& 0x10_0000 * (50 * t.value() - 3 * phase.value() - 10 * z) <= slack
        }),
{
    lemma_first_angle(t, phase);
    lemma_second_angle(t);
    lemma_third_angle(t, phase);
}

proof fn lemma_first_angle(t: Binary32, phase: Binary32)
    requires
        t.finite(),
        phase.finite(),
        t.units() <= pow2(169),
        phase.units() <= pow2(169),
    ensures
        ({
            let x = (binary32::nearest(3, 1) * t + phase).value();
            let slack = 100 * t.units() + 10 * phase.units() + pow2(149);
            &&& 0x10_0000 * (x - (3 * t.value() + phase.value())) <= slack
            &&& 0x10_0000 * (3 * t.value() + phase.value() - x) <= slack
        }),
{
    let a = binary32::nearest(3, 1) * t;
    lemma_multiple(3, 1, t);
    rounding::lemma_pow2_monotone(169, 179);
    lemma_moderate_sum(a, phase);
    order::law_sum_error(a, phase);
    lemma2_to64();
    lemma_pow2_adds(32, 117);
    lemma_pow2_pos(117);
}

proof fn lemma_second_angle(t: Binary32)
    requires
        t.finite(),
        t.units() <= pow2(169),
    ensures
        ({
            let y = (binary32::nearest(2, 1) * t + binary32::nearest(1, 2)).value();
            let slack = 100 * t.units() + 10 * pow2(149);
            &&& 0x10_0000 * (2 * y - (4 * t.value() + pow2(149))) <= slack
            &&& 0x10_0000 * (4 * t.value() + pow2(149) - 2 * y) <= slack
        }),
{
    let b = binary32::nearest(2, 1) * t;
    let half = binary32::nearest(1, 2);
    lemma_pow2_unfold(149);
    order::law_nearest_is_exact(1, 2, 1, 148);
    order::lemma_size_of_count(half, 1, 148);
    order::lemma_sign(half, 1, 148);
    lemma_multiple(2, 1, t);
    rounding::lemma_pow2_monotone(148, 179);
    lemma_moderate_sum(b, half);
    order::law_sum_error(b, half);
    lemma2_to64();
    lemma_pow2_adds(32, 117);
    lemma_pow2_pos(117);
}

proof fn lemma_third_angle(t: Binary32, phase: Binary32)
    requires
        t.finite(),
        phase.finite(),
        t.units() <= pow2(169),
        phase.units() <= pow2(169),
    ensures
        ({
            let z = (binary32::nearest(5, 1) * t - binary32::nearest(3, 10) * phase).value();
            let slack = 100 * t.units() + 10 * phase.units() + pow2(149);
            &&& 0x10_0000 * (10 * z - (50 * t.value() - 3 * phase.value())) <= slack
            &&& 0x10_0000 * (50 * t.value() - 3 * phase.value() - 10 * z) <= slack
        }),
{
    let c = binary32::nearest(5, 1) * t;
    let d = binary32::nearest(3, 10) * phase;
    lemma_multiple(5, 1, t);
    lemma_multiple(3, 10, phase);
    order::law_opposites(d, d);
    order::lemma_signed(!d.negative(), d.code());
    lemma_moderate_sum(c, d.negated());
    order::law_sum_error(c, d.negated());
    lemma2_to64();
    lemma_pow2_adds(32, 117);
    lemma_pow2_pos(117);
}

proof fn lemma_multiple(num: nat, den: nat, x: Binary32)
    requires
        0 < num <= 8,
        0 < den <= 10,
        x.finite(),
        x.units() <= pow2(169),
    ensures
        ({
            let y = binary32::nearest(num, den) * x;
            &&& y.finite()
            &&& y.units() <= pow2(179)
            &&& 0x40_0000 * (y.value() * den - num * x.value()) <= num * x.units() + 0x40_0000 * den
            &&& 0x40_0000 * (num * x.value() - y.value() * den) <= num * x.units() + 0x40_0000 * den
        }),
{
    let f = binary32::nearest(num, den);
    let t = pow2(149);
    let big = binary32::nearest(0x4000_0000, 1);
    lemma_pow2_pos(149);
    lemma2_to64();
    lemma_pow2_adds(20, 149);
    lemma_pow2_adds(30, 149);
    order::law_nearest_is_exact(0x4000_0000, 1, 1, 179);
    order::lemma_size_of_count(big, 1, 179);
    order::lemma_fraction_error(num, den);
    assert(f.units() <= 16 * t) by (nonlinear_arith)
        requires
            0x200_0000 * (f.value() * den - num * t) <= 3 * (num * t),
            f.value() == f.units(),
            num <= 8,
            den >= 1,
            t > 0,
    ;
    assert(f.units() * x.units() <= big.units() * t) by (nonlinear_arith)
        requires
            f.units() <= 16 * t,
            x.units() <= 0x10_0000 * t,
            big.units() == 0x4000_0000 * t,
    ;
    order::law_product_between(f, x, big);
    binary32::lemma_units_order((f * x).code(), big.code());
    binary32::lemma_units_order((f * x).code(), INFINITE as nat);
    binary32::lemma_units_order(big.code(), INFINITE as nat);
    order::law_fraction_of_error(num, den, x);
}

proof fn lemma_moderate_sum(a: Binary32, b: Binary32)
    requires
        a.finite(),
        b.finite(),
        a.units() <= pow2(179),
        b.units() <= pow2(179),
    ensures
        (a + b).finite(),
{
    let big = binary32::nearest(0x8000_0000, 1);
    lemma2_to64();
    lemma_pow2_adds(31, 149);
    lemma_pow2_unfold(180);
    order::law_nearest_is_exact(0x8000_0000, 1, 1, 180);
    order::lemma_size_of_count(big, 1, 180);
    order::lemma_sign(big, 1, 180);
    lemma_pow2_pos(180);
    order::law_opposites(big, big);
    order::lemma_signed(true, big.code());
    order::law_sum_between(a, b, big.negated(), big);
    binary32::lemma_units_order((a + b).code(), big.code());
    binary32::lemma_units_order((a + b).code(), INFINITE as nat);
    binary32::lemma_units_order(big.code(), INFINITE as nat);
}

/// The curve is drawn with three angles to every end of a segment, step by step around, at
/// half of the time as its phase.
pub proof fn law_curve_angles_go_step_by_step(n: nat, time: Binary32, i: int, axis: int)
    requires
        n > 0,
        0 <= i <= n,
        0 <= axis < 3,
    ensures
        curve_angles(n, time).len() == 3 * (n + 1),
        curve_angles(n, time)[3 * i + axis] == curve_angle(
            step(TAU, i as nat, n),
            binary32::nearest(1, 2) * time,
            axis,
        ),
{
    assert((3 * i + axis) / 3 == i && (3 * i + axis) % 3 == axis);
}

/// A scene is drawn with the segments that belong to it, and moves as it should; only the
/// curve is made anew for every frame, and the buffer holds what is drawn.
pub proof fn law_scenes_are_drawn(
    scene: Scene,
    turns: &[Turn],
    time: Binary32,
    segments: Vec<Segment>,
    angles: Vec<Binary32>,
    model: Model,
    most: usize,
    animated: bool,
)
    requires
        turns@.len() == scene.turn_count(),
        call_ensures(Scene::segments, (scene, turns), segments),
        call_ensures(Scene::angles, (scene, time), angles),
        call_ensures(Scene::model, (scene, time), model),
        call_ensures(Scene::max_segments, (scene,), most),
        call_ensures(Scene::animated, (scene,), animated),
    ensures
        strokes(segments@) == scene.stroke_list(turns@),
        angles@ == scene.drawn_with(time),
        angles@.len() == turns@.len(),
        model == scene.motion(time),
        segments@.len() <= most,
        scene != Scene::Draw ==> segments@.len() == most,
        animated <==> scene == Scene::Lissajous,
        scene == Scene::Draw ==> segments@.len() == 0,
        scene == Scene::Cube ==> segments@.len() == 12 && strokes(segments@) == cube_strokes(
            binary32::nearest(7, 10),
        ),
        scene == Scene::Ship ==> segments@.len() == 5,
{
    assert(strokes(segments@).len() == segments@.len());
    law_segments_fit_the_buffer(scene, turns@);
    law_angles_are_enough(scene, time);
}

/// A cube of any size is drawn with its twelve edges.
pub proof fn law_cubes_are_drawn(s: Binary32, r: Vec<Segment>, k: int)
    requires
        call_ensures(wireframe_cube, (s,), r),
        0 <= k < 12,
    ensures
        r@.len() == 12,
        r@[k].p0@ == corner(s, edges()[k].0 as int),
        r@[k].p1@ == corner(s, edges()[k].1 as int),
{
    assert(strokes(r@).len() == r@.len());
    assert(strokes(r@)[k] == r@[k]@);
}

/// The ship is a dart with its nose up: its outline is closed, its two halves mirror each
/// other, and it is 0.24 tall and 0.16 wide.
pub proof fn law_ship_is_a_dart(r: Vec<Segment>, k: int)
    requires
        call_ensures(ship, (), r),
        0 <= k < 5,
    ensures
        r@.len() == 5,
        r@[k].p0@ == ship_outline()[k],
        r@[k].p1@ == ship_outline()[k + 1],
        ship_outline()[5] == ship_outline()[0],
        ship_outline()[0] == seq![
            binary32::nearest(0, 100),
            binary32::nearest(12, 100),
            binary32::signed(false, 0),
        ],
        ship_outline()[4] == seq![
            binary32::nearest(8, 100),
            binary32::nearest(12, 100).negated(),
            binary32::signed(false, 0),
        ],
        ship_outline()[3] == seq![
            binary32::nearest(4, 100),
            binary32::nearest(7, 100).negated(),
            binary32::signed(false, 0),
        ],
        ship_outline()[1][0] == ship_outline()[4][0].negated(),
        ship_outline()[1][1] == ship_outline()[4][1],
        ship_outline()[2][0] == ship_outline()[3][0].negated(),
        ship_outline()[2][1] == ship_outline()[3][1],
{
    assert(strokes(r@).len() == r@.len());
    assert(strokes(r@)[k] == r@[k]@);
    assert(ship_outline().len() == 6);
}

/// The curve has as many segments as it is asked for, each from a point of it to the next.
pub proof fn law_curve_goes_point_by_point(n: nat, turns: Seq<Turn>, i: int)
    requires
        0 <= i < n,
    ensures
        curve_strokes(n, turns).len() == n,
        curve_strokes(n, turns)[i].p0 == curve_point(turns, i),
        curve_strokes(n, turns)[i].p1 == curve_point(turns, i + 1),
        curve_strokes(n, turns)[i].color == seq![
            binary32::nearest(2, 5),
            binary32::nearest(1, 1),
            binary32::nearest(7, 10),
        ],
        curve_strokes(0, turns).len() == 0,
{
    let t = pow2(149);
    lemma_pow2_pos(149);
    order::lemma_same_ratio(4 * t, 10, 2 * t, 5, 2);
}

/// The saucer has twelve segments around its hull and six over its dome, each from a point
/// to the next.
pub proof fn law_saucer_goes_point_by_point(turns: Seq<Turn>, i: int)
    requires
        turns.len() == 20,
        0 <= i < 18,
    ensures
        saucer_strokes(turns).len() == 18,
        i < 12 ==> saucer_strokes(turns)[i].p0 == hull(turns[i]) && saucer_strokes(turns)[i].p1
            == hull(turns[i + 1]),
        i >= 12 ==> saucer_strokes(turns)[i].p0 == dome(turns[i + 1]) && saucer_strokes(turns)[i].p1
            == dome(turns[i + 2]),
{
}

/// What is drawn of the curve and of the saucer is what their angles call for.
pub proof fn law_figures_are_drawn(
    n: usize,
    turns: &[Turn],
    time: Binary32,
    curve: Vec<Segment>,
    saucer: Vec<Segment>,
    bends: Vec<Binary32>,
    rim: Vec<Binary32>,
)
    requires
        call_ensures(lissajous, (n, turns), curve),
        call_ensures(ufo, (turns,), saucer),
        call_ensures(lissajous_angles, (n, time), bends),
        call_ensures(ufo_angles, (), rim),
    ensures
        strokes(curve@) == curve_strokes(n as nat, turns@),
        strokes(saucer@) == saucer_strokes(turns@),
        bends@ == curve_angles(n as nat, time),
        rim@.len() == 20,
        forall|i: int| 0 <= i < 13 ==> #[trigger] rim@[i] == step(TAU, i as nat, 12),
        forall|i: int| 13 <= i < 20 ==> #[trigger] rim@[i] == step(PI, (i - 13) as nat, 6),
{
}

}
