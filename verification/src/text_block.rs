//! Where laid out text comes to lie: lines and blocks are centred, and fit the box
//! that is meant for them.
//!
//! All positions in the grid are exact as long as their counts have no more than
//! 24 binary digits. Only the scaling rounds.
use vstd::arithmetic::power2::*;
use vstd::prelude::*;

use crate::binary32;
use crate::binary32::Binary32;
use crate::font;
use crate::geometry::Stroke;
use crate::glyphs;
use crate::order;
use crate::rounding;

verus! {

proof fn lemma_one()
    ensures
        order::counts(binary32::nearest(4, 1), 4, 149),
        order::counts(binary32::nearest(4, 1), 2, 150),
        order::counts(binary32::nearest(6, 1), 6, 149),
        order::counts(binary32::nearest(6, 1), 3, 150),
        order::counts(binary32::nearest(6, 1), 12, 148),
        order::counts(binary32::nearest(9, 1), 9, 149),
        order::counts(binary32::nearest(1, 2), 1, 148),
{
    order::law_nearest_is_exact(4, 1, 4, 149);
    order::law_nearest_is_exact(6, 1, 6, 149);
    order::law_nearest_is_exact(9, 1, 9, 149);
    order::lemma_double_unit(binary32::nearest(4, 1), 2, 149);
    order::lemma_double_unit(binary32::nearest(6, 1), 3, 149);
    order::lemma_double_unit(binary32::nearest(6, 1), 6, 148);
    lemma_pow2_unfold(149);
    order::law_nearest_is_exact(1, 2, 1, 148);
}

/// Whether the half width of a line of `n` characters is a number that binary32
/// holds.
pub open spec fn short_line(n: nat) -> bool {
    3 * n - 1 <= 0x100_0000
}

/// Whether the height of a block of `n` lines is a number that binary32 holds.
pub open spec fn short_block(n: nat) -> bool {
    1 <= n && 9 * n - 3 <= 0x100_0000
}

proof fn lemma_width(n: nat)
    requires
        n >= 1,
        short_line(n),
    ensures
        order::counts(font::width_of_line(n), 3 * n - 1, 150),
{
    lemma_one();
    let k = (n - 1) as nat;
    order::law_nearest_is_exact(k, 1, k, 149);
    order::law_product_is_exact(binary32::nearest(k, 1), font::advance(), k as int, 3, 149, 150);
    order::law_sum_is_exact(
        binary32::nearest(k, 1) * font::advance(),
        font::grid_width(),
        k as int * 3,
        2,
        150,
    );
}

proof fn lemma_pen(n: nat, i: nat)
    requires
        n >= 1,
        short_line(n),
        i <= n,
    ensures
        order::counts(font::pen(n, i), 6 * i - (3 * n - 1), 149),
    decreases i,
{
    lemma_one();
    if i == 0 {
        lemma_width(n);
        let w = font::width_of_line(n);
        order::lemma_opposite_counts(w, 3 * n - 1, 150);
        order::law_product_is_exact(
            w.negated(),
            binary32::nearest(1, 2),
            -(3 * n - 1),
            1,
            150,
            148,
        );
    } else {
        lemma_pen(n, (i - 1) as nat);
        order::law_sum_is_exact(
            font::pen(n, (i - 1) as nat),
            font::advance(),
            6 * (i - 1) - (3 * n - 1),
            6,
            149,
        );
    }
}

proof fn lemma_height(n: nat)
    requires
        short_block(n),
    ensures
        order::counts(font::height_of_block(n), 9 * n - 3, 149),
{
    lemma_one();
    let k = (n - 1) as nat;
    order::law_nearest_is_exact(k, 1, k, 149);
    order::law_product_is_exact(
        binary32::nearest(k, 1),
        font::line_height(),
        k as int,
        9,
        149,
        149,
    );
    order::law_sum_is_exact(
        binary32::nearest(k, 1) * font::line_height(),
        font::grid_height(),
        k as int * 9,
        6,
        149,
    );
}

proof fn lemma_baseline(n: nat, row: nat)
    requires
        short_block(n),
        row < n,
    ensures
        order::counts(font::baseline(n, row), 9 * n - 15 - 18 * row, 148),
{
    lemma_one();
    lemma_height(n);
    let h = font::height_of_block(n);
    let half = binary32::nearest(1, 2);
    order::law_product_is_exact(h, half, 9 * n - 3, 1, 149, 148);
    order::lemma_opposite_counts(font::grid_height(), 12, 148);
    order::law_sum_is_exact(h * half, font::grid_height().negated(), 9 * n - 3, -12, 148);
    order::law_nearest_is_exact(row, 1, row, 149);
    let down = binary32::nearest(row, 1) * font::line_height();
    order::law_product_is_exact(
        binary32::nearest(row, 1),
        font::line_height(),
        row as int,
        9,
        149,
        149,
    );
    order::lemma_double_unit(down, row as int * 9, 148);
    order::lemma_opposite_counts(down, 2 * (row as int * 9), 148);
    order::law_sum_is_exact(
        h * half - font::grid_height(),
        down.negated(),
        9 * n - 15,
        -(2 * (row * 9)),
        148,
    );
}

proof fn lemma_halves(h: int)
    requires
        -100 <= h <= 100,
    ensures
        order::counts(font::halves(h), h, 148),
{
    lemma_pow2_unfold(149);
    if h < 0 {
        let m = (-h) as nat;
        assert(m * pow2(149) == (m * pow2(148)) * 2) by (nonlinear_arith)
            requires
                pow2(149) == 2 * pow2(148),
        ;
        order::law_nearest_is_exact(m, 2, m, 148);
        order::lemma_opposite_counts(binary32::nearest(m, 2), m as int, 148);
    } else {
        let m = h as nat;
        assert(m * pow2(149) == (m * pow2(148)) * 2) by (nonlinear_arith)
            requires
                pow2(149) == 2 * pow2(148),
        ;
        order::law_nearest_is_exact(m, 2, m, 148);
    }
}

/// The product of opposite numbers with one factor are opposite.
proof fn lemma_opposite_products(a: Binary32, b: Binary32, s: Binary32)
    requires
        a.finite(),
        b.finite(),
        s.finite(),
        a.units() == b.units(),
        a.negative() != b.negative(),
    ensures
        a * s == (b * s).negated(),
{
}

/// A line is centred: its left end lies as far to the left as its right end to the
/// right.
pub proof fn law_line_is_centred(n: nat, scale: Binary32)
    requires
        n >= 1,
        short_line(n),
        scale.finite(),
    ensures
        font::pen(n, 0) * scale == ((font::pen(n, (n - 1) as nat) + font::grid_width())
            * scale).negated(),
{
    lemma_one();
    lemma_pen(n, 0);
    lemma_pen(n, (n - 1) as nat);
    let left = font::pen(n, 0);
    let right = font::pen(n, (n - 1) as nat) + font::grid_width();
    order::law_sum_is_exact(
        font::pen(n, (n - 1) as nat),
        font::grid_width(),
        6 * (n - 1) - (3 * n - 1),
        4,
        149,
    );
    order::lemma_size_of_count(left, -(3 * n - 1), 149);
    order::lemma_size_of_count(right, 3 * n - 1, 149);
    order::lemma_sign(left, -(3 * n - 1), 149);
    order::lemma_sign(right, 3 * n - 1, 149);
    lemma_opposite_products(left, right, scale);
}

/// A block is centred: the capitals of its first line reach as high as the last
/// baseline lies low.
pub proof fn law_block_is_centred(n: nat, scale: Binary32)
    requires
        short_block(n),
        scale.finite(),
    ensures
        font::baseline(n, (n - 1) as nat) * scale == ((font::baseline(n, 0) + font::grid_height())
            * scale).negated(),
{
    lemma_one();
    lemma_baseline(n, 0);
    lemma_baseline(n, (n - 1) as nat);
    let low = font::baseline(n, (n - 1) as nat);
    let high = font::baseline(n, 0) + font::grid_height();
    order::law_sum_is_exact(font::baseline(n, 0), font::grid_height(), 9 * n - 15, 12, 148);
    order::lemma_size_of_count(low, -(9 * n - 3), 148);
    order::lemma_size_of_count(high, 9 * n - 3, 148);
    order::lemma_sign(low, -(9 * n - 3), 148);
    order::lemma_sign(high, 9 * n - 3, 148);
    lemma_opposite_products(low, high, scale);
}

/// Whether all lengths of a block are numbers that binary32 holds.
pub open spec fn short(all: Seq<Seq<char>>) -> bool {
    &&& short_block(all.len())
    &&& forall|r: int| 0 <= r < all.len() ==> short_line((#[trigger] all[r]).len())
}

/// A width of some size is at least that of one cell, and no width is large.
spec fn sound_width(w: Binary32) -> bool {
    &&& w.finite()
    &&& !w.negative()
    &&& w.units() <= pow2(200)
    &&& w.units() > 0 ==> w.units() >= pow2(149)
}

proof fn lemma_width_is_sound(n: nat)
    requires
        short_line(n),
    ensures
        sound_width(font::width_of_line(n)),
        n > 0 ==> font::width_of_line(n).units() == 2 * ((3 * n - 1) * pow2(149)),
{
    let w = font::width_of_line(n);
    if n > 0 {
        lemma_width(n);
        let m = (3 * n - 1) as nat;
        order::lemma_size_of_count(w, m as int, 150);
        order::lemma_sign(w, m as int, 150);
        lemma_pow2_unfold(150);
        lemma_pow2_pos(149);
        lemma2_to64();
        lemma_pow2_adds(25, 149);
        rounding::lemma_pow2_monotone(174, 200);
        let one = pow2(149);
        assert(m * pow2(150) == 2 * (m * one)) by (nonlinear_arith)
            requires
                pow2(150) == 2 * one,
        ;
        assert(2 * (m * one) <= pow2(25) * one) by (nonlinear_arith)
            requires
                2 * m <= pow2(25),
        ;
        assert(2 * (m * one) >= one) by (nonlinear_arith)
            requires
                m >= 2,
        ;
    } else {
        lemma_pow2_pos(200);
    }
}

proof fn lemma_widest(all: Seq<Seq<char>>)
    requires
        forall|r: int| 0 <= r < all.len() ==> short_line((#[trigger] all[r]).len()),
    ensures
        sound_width(font::widest(all)),
        forall|r: int|
            0 <= r < all.len() ==> font::width_of_line((#[trigger] all[r]).len()).units()
                <= font::widest(all).units(),
    decreases all.len(),
{
    lemma_pow2_pos(200);
    if all.len() > 0 {
        let less = all.drop_last();
        assert forall|r: int| 0 <= r < less.len() implies short_line((#[trigger] less[r]).len()) by {
            assert(less[r] == all[r]);
        }
        lemma_widest(less);
        lemma_width_is_sound(all.last().len());
        assert forall|r: int| 0 <= r < all.len() implies font::width_of_line(
            (#[trigger] all[r]).len(),
        ).units() <= font::widest(all).units() by {
            if r < less.len() {
                assert(less[r] == all[r]);
            }
        }
    }
}

/// A limit of a few units.
spec fn sound_limit(x: Binary32) -> bool {
    &&& x.finite()
    &&& !x.negative()
    &&& pow2(149) <= x.units() <= pow2(200)
}

proof fn lemma_limits()
    ensures
        sound_limit(font::max_block_width()),
        sound_limit(font::max_block_height()),
{
    lemma_limit(34);
    lemma_limit(26);
}

proof fn lemma_limit(tenths: nat)
    requires
        10 <= tenths <= 40,
    ensures
        sound_limit(binary32::nearest(tenths, 10)),
{
    let t = pow2(149);
    lemma_pow2_pos(149);
    lemma2_to64();
    lemma_pow2_adds(2, 149);
    rounding::lemma_pow2_monotone(151, 200);
    order::law_nearest_is_exact(1, 1, 1, 149);
    order::law_nearest_is_exact(4, 1, 4, 149);
    let low = binary32::nearest(1, 1).code();
    let high = binary32::nearest(4, 1).code();
    order::law_rounding_keeps_sides(tenths * t, 10, low);
    order::law_rounding_keeps_sides(tenths * t, 10, high);
    assert(t * 10 <= tenths * t <= (4 * t) * 10) by (nonlinear_arith)
        requires
            10 <= tenths <= 40,
    ;
    let code = rounding::rounded(tenths * t, 10);
    binary32::lemma_units_order(code, low);
    binary32::lemma_units_order(code, high);
}

proof fn lemma_smaller(a: Binary32, b: Binary32)
    requires
        !a.nan(),
        !b.nan(),
        !a.negative(),
        !b.negative(),
    ensures
        a.smaller(b) == a || a.smaller(b) == b,
        a.smaller(b).units() <= a.units(),
        a.smaller(b).units() <= b.units(),
{
}

/// The scale is at most what every limit allows.
proof fn lemma_scale(all: Seq<Seq<char>>)
    requires
        short(all),
        font::widest(all).units() > 0,
    ensures
        ({
            let s = font::scale(all);
            &&& s.finite()
            &&& !s.negative()
            &&& s.units() <= (font::max_block_width() / font::widest(all)).units()
            &&& s.units() <= (font::max_block_height() / font::height_of_block(
                all.len(),
            )).units()
            &&& s.units() <= (font::max_glyph_height() / font::grid_height()).units()
        }),
{
    lemma_widest(all);
    lemma_limits();
    lemma_one();
    lemma_height(all.len());
    let w = font::widest(all);
    let h = font::height_of_block(all.len());
    let six = font::grid_height();
    let half = font::max_glyph_height();
    lemma_pow2_pos(149);
    order::lemma_size_of_count(h, 9 * all.len() - 3, 149);
    order::lemma_sign(h, 9 * all.len() - 3, 149);
    order::lemma_sign(six, 6, 149);
    order::lemma_sign(half, 1, 148);
    order::lemma_size_of_count(six, 6, 149);
    order::lemma_size_of_count(half, 1, 148);
    binary32::lemma_units_order(w.code(), 0);
    binary32::lemma_units_order(h.code(), 0);
    binary32::lemma_units_order(six.code(), 0);
    assert(h.units() > 0) by (nonlinear_arith)
        requires
            h.units() == ((9 * all.len() - 3) as nat) * pow2(149),
            pow2(149) > 0,
            all.len() >= 1,
    ;
    let a = font::max_block_width() / w;
    let b = font::max_block_height() / h;
    let c = half / six;
    order::law_quotient_between(font::max_block_width(), w, six);
    order::law_quotient_between(font::max_block_height(), h, six);
    order::law_quotient_between(half, six, six);
    assert(half.units() * pow2(149) <= six.units() * six.units()) by (nonlinear_arith)
        requires
            half.units() == pow2(148),
            six.units() == 6 * pow2(149),
            pow2(148) <= pow2(149),
    {
    }
    lemma_smaller(a, b);
    lemma_smaller(a.smaller(b), c);
    binary32::lemma_units_order(c.code(), six.code());
    binary32::lemma_units_order(font::scale(all).code(), c.code());
}

/// Whether both ends of a stroke stay within half of a limit along an axis.
pub open spec fn stays(s: Stroke, axis: int, limit: Binary32) -> bool {
    order::within_half(s.p0[axis], limit) && order::within_half(s.p1[axis], limit)
}

proof fn lemma_polylines_stay(
    place: font::Placing,
    list: Seq<Seq<(i32, i32)>>,
    lowest: int,
    axis: int,
    limit: Binary32,
)
    requires
        forall|i: int| 0 <= i < list.len() ==> (#[trigger] list[i]).len() >= 2,
        forall|i: int, j: int|
            0 <= i < list.len() && 0 <= j < list[i].len() ==> glyphs::in_cell(
                #[trigger] list[i][j],
                lowest,
            ),
        forall|p: (i32, i32)|
            glyphs::in_cell(p, lowest) ==> order::within_half(
                (#[trigger] place.point(p))[axis],
                limit,
            ),
    ensures
        forall|k: int|
            0 <= k < place.polylines(list).len() ==> stays(
                #[trigger] place.polylines(list)[k],
                axis,
                limit,
            ),
    decreases list.len(),
{
    if list.len() > 0 {
        let less = list.drop_last();
        assert forall|i: int| 0 <= i < less.len() implies (#[trigger] less[i]).len() >= 2 by {
            assert(less[i] == list[i]);
        }
        assert forall|i: int, j: int|
            0 <= i < less.len() && 0 <= j < less[i].len() implies glyphs::in_cell(
            #[trigger] less[i][j],
            lowest,
        ) by {
            assert(less[i][j] == list[i][j]);
        }
        lemma_polylines_stay(place, less, lowest, axis, limit);
        let before = place.polylines(less);
        let points = list.last();
        let now = place.polyline(points);
        assert forall|k: int| 0 <= k < place.polylines(list).len() implies stays(
            #[trigger] place.polylines(list)[k],
            axis,
            limit,
        ) by {
            if k < before.len() {
                assert(place.polylines(list)[k] == before[k]);
            } else {
                let j = k - before.len();
                assert(place.polylines(list)[k] == now[j]);
                assert(points == list[list.len() - 1]);
                assert(glyphs::in_cell(list[list.len() - 1][j], lowest));
                assert(glyphs::in_cell(list[list.len() - 1][j + 1], lowest));
                assert(now[j].p0 == place.point(points[j]));
                assert(now[j].p1 == place.point(points[j + 1]));
            }
        }
    }
}

/// What lies lowest in the cell of a character.
spec fn floor(c: char) -> int {
    if c == ',' {
        -2
    } else {
        0
    }
}

proof fn lemma_character_stays(place: font::Placing, c: char, axis: int, limit: Binary32)
    requires
        forall|p: (i32, i32)|
            glyphs::in_cell(p, floor(c)) ==> order::within_half(
                (#[trigger] place.point(p))[axis],
                limit,
            ),
    ensures
        forall|k: int|
            0 <= k < place.character(c).len() ==> stays(
                #[trigger] place.character(c)[k],
                axis,
                limit,
            ),
{
    glyphs::law_glyphs_are_drawable(c);
    if glyphs::strokes(c) is Some {
        lemma_polylines_stay(place, glyphs::strokes(c)->0, floor(c), axis, limit);
    }
}

/// No character of a line leaves the box sideways.
proof fn lemma_across(all: Seq<Seq<char>>, r: int, i: nat, p: (i32, i32))
    requires
        short(all),
        0 <= r < all.len(),
        i < all[r].len(),
        0 <= p.0 <= 8,
        p.0 % 2 == 0,
    ensures
        order::within_half(
            (font::pen(all[r].len(), i) + font::halves(p.0 as int)) * font::scale(all),
            font::max_block_width(),
        ),
{
    let n = all[r].len();
    let w = font::widest(all);
    lemma_widest(all);
    lemma_width_is_sound(n);
    lemma_pow2_pos(149);
    let one = pow2(149);
    assert(2 * ((3 * n - 1) * one) > 0) by (nonlinear_arith)
        requires
            n >= 1,
            one > 0,
    ;
    lemma_scale(all);
    lemma_limits();
    lemma_pen(n, i);
    lemma_halves(p.0 as int);
    let h = p.0 as int / 2;
    order::lemma_double_unit(font::halves(p.0 as int), h, 148);
    let g = 6 * i - (3 * n - 1);
    order::law_sum_is_exact(font::pen(n, i), font::halves(p.0 as int), g, h, 149);
    let x = font::pen(n, i) + font::halves(p.0 as int);
    order::lemma_size_of_count(x, g + h, 149);
    let m = order::size(g + h);
    assert(m * one <= (3 * n - 1) * one) by (nonlinear_arith)
        requires
            m <= 3 * n - 1,
            one > 0,
    ;
    order::law_scaled_to_fit(font::max_block_width(), w, x, font::scale(all));
}

/// No character of a row leaves the box upwards or downwards.
proof fn lemma_along(all: Seq<Seq<char>>, row: nat, p: (i32, i32))
    requires
        short(all),
        row < all.len(),
        font::widest(all).units() > 0,
        0 <= p.1 <= 12,
    ensures
        order::within_half(
            (font::baseline(all.len(), row) + font::halves(p.1 as int)) * font::scale(all),
            font::max_block_height(),
        ),
{
    let n = all.len();
    let h = font::height_of_block(n);
    let half = pow2(148);
    let one = pow2(149);
    lemma_pow2_unfold(149);
    lemma_pow2_pos(148);
    lemma_height(n);
    lemma_scale(all);
    lemma_limits();
    lemma_baseline(n, row);
    lemma_halves(p.1 as int);
    let g = 9 * n - 15 - 18 * row;
    order::law_sum_is_exact(font::baseline(n, row), font::halves(p.1 as int), g, p.1 as int, 148);
    let y = font::baseline(n, row) + font::halves(p.1 as int);
    order::lemma_size_of_count(y, g + p.1, 148);
    order::lemma_size_of_count(h, 9 * n - 3, 149);
    order::lemma_sign(h, 9 * n - 3, 149);
    let m = order::size(g + p.1);
    let k = (9 * n - 3) as nat;
    assert(2 * (m * half) <= k * one) by (nonlinear_arith)
        requires
            m <= k,
            one == 2 * half,
    ;
    lemma2_to64();
    lemma_pow2_adds(24, 149);
    rounding::lemma_pow2_monotone(173, 200);
    assert(one <= k * one <= pow2(24) * one) by (nonlinear_arith)
        requires
            1 <= k <= pow2(24),
    ;
    order::law_scaled_to_fit(font::max_block_height(), h, y, font::scale(all));
}

/// How the character `i` of a line is placed.
pub open spec fn placed(
    line: Seq<char>,
    i: nat,
    base: Binary32,
    scale: Binary32,
    color: Seq<Binary32>,
) -> font::Placing {
    font::Placing { pen: font::pen(line.len(), i), base, scale, color }
}

/// Whether all points of a line stay within half of a limit along an axis.
spec fn line_stays(
    line: Seq<char>,
    base: Binary32,
    scale: Binary32,
    color: Seq<Binary32>,
    axis: int,
    limit: Binary32,
) -> bool {
    forall|i: nat, p: (i32, i32)|
        i < line.len() && glyphs::in_cell(p, floor(line[i as int])) ==> order::within_half(
            (#[trigger] placed(line, i, base, scale, color).point(p))[axis],
            limit,
        )
}

proof fn lemma_line_stays(
    line: Seq<char>,
    k: nat,
    base: Binary32,
    scale: Binary32,
    color: Seq<Binary32>,
    axis: int,
    limit: Binary32,
)
    requires
        k <= line.len(),
        line_stays(line, base, scale, color, axis, limit),
    ensures
        ({
            let drawn = font::line_strokes(line.take(k as int), line.len(), base, scale, color);
            forall|j: int| 0 <= j < drawn.len() ==> stays(#[trigger] drawn[j], axis, limit)
        }),
    decreases k,
{
    if k > 0 {
        let i = (k - 1) as nat;
        lemma_line_stays(line, i, base, scale, color, axis, limit);
        let part = line.take(k as int);
        assert(part.drop_last() =~= line.take(i as int));
        let place = placed(line, i, base, scale, color);
        let c = line[i as int];
        assert(part.last() == c);
        assert forall|p: (i32, i32)| glyphs::in_cell(p, floor(c)) implies order::within_half(
            (#[trigger] place.point(p))[axis],
            limit,
        ) by {
            assert(order::within_half(
                placed(line, i, base, scale, color).point(p)[axis],
                limit,
            ));
        }
        lemma_character_stays(place, c, axis, limit);
        let before = font::line_strokes(line.take(i as int), line.len(), base, scale, color);
        let drawn = font::line_strokes(part, line.len(), base, scale, color);
        assert(drawn == before + place.character(c));
        assert forall|j: int| 0 <= j < drawn.len() implies stays(
            #[trigger] drawn[j],
            axis,
            limit,
        ) by {
            if j < before.len() {
                assert(drawn[j] == before[j]);
            } else {
                assert(drawn[j] == place.character(c)[j - before.len()]);
            }
        }
    }
}

proof fn lemma_rows_stay(
    all: Seq<Seq<char>>,
    k: nat,
    scale: Binary32,
    color: Seq<Binary32>,
    axis: int,
    limit: Binary32,
)
    requires
        k <= all.len(),
        forall|row: nat|
            row < all.len() ==> line_stays(
                all[row as int],
                #[trigger] font::baseline(all.len(), row),
                scale,
                color,
                axis,
                limit,
            ),
    ensures
        ({
            let drawn = font::row_strokes(all.take(k as int), all.len(), scale, color);
            forall|j: int| 0 <= j < drawn.len() ==> stays(#[trigger] drawn[j], axis, limit)
        }),
    decreases k,
{
    if k > 0 {
        let row = (k - 1) as nat;
        lemma_rows_stay(all, row, scale, color, axis, limit);
        let part = all.take(k as int);
        assert(part.drop_last() =~= all.take(row as int));
        let line = all[row as int];
        assert(part.last() == line);
        let base = font::baseline(all.len(), row);
        assert(line_stays(line, base, scale, color, axis, limit));
        lemma_line_stays(line, line.len(), base, scale, color, axis, limit);
        assert(line.take(line.len() as int) =~= line);
        let before = font::row_strokes(all.take(row as int), all.len(), scale, color);
        let now = font::line_strokes(line, line.len(), base, scale, color);
        let drawn = font::row_strokes(part, all.len(), scale, color);
        assert(drawn == before + now);
        assert forall|j: int| 0 <= j < drawn.len() implies stays(
            #[trigger] drawn[j],
            axis,
            limit,
        ) by {
            if j < before.len() {
                assert(drawn[j] == before[j]);
            } else {
                assert(drawn[j] == now[j - before.len()]);
            }
        }
    }
}

proof fn lemma_line_across(all: Seq<Seq<char>>, row: nat, base: Binary32, color: Seq<Binary32>)
    requires
        short(all),
        row < all.len(),
    ensures
        line_stays(all[row as int], base, font::scale(all), color, 0, font::max_block_width()),
{
    let line = all[row as int];
    let scale = font::scale(all);
    assert forall|i: nat, p: (i32, i32)|
        i < line.len() && glyphs::in_cell(p, floor(line[i as int])) implies order::within_half(
        (#[trigger] placed(line, i, base, scale, color).point(p))[0],
        font::max_block_width(),
    ) by {
        lemma_across(all, row as int, i, p);
    }
}

/// No stroke of a text reaches further to the left or right than half of the box
/// is wide, but for the last binary digit of that width.
pub proof fn law_text_fits_across(text: Seq<char>, color: Seq<Binary32>, k: int)
    requires
        short(font::lines(text)),
        0 <= k < font::text_strokes(text, color).len(),
    ensures
        stays(font::text_strokes(text, color)[k], 0, font::max_block_width()),
{
    let all = font::lines(text);
    let limit = font::max_block_width();
    let scale = font::scale(all);
    assert forall|row: nat| row < all.len() implies line_stays(
        all[row as int],
        #[trigger] font::baseline(all.len(), row),
        scale,
        color,
        0,
        limit,
    ) by {
        lemma_line_across(all, row, font::baseline(all.len(), row), color);
    }
    lemma_rows_stay(all, all.len(), scale, color, 0, limit);
    assert(all.take(all.len() as int) =~= all);
}

#[verifier::rlimit(30)]
proof fn lemma_line_along(all: Seq<Seq<char>>, row: nat, color: Seq<Binary32>)
    requires
        short(all),
        row < all.len(),
        font::widest(all).units() > 0,
        forall|i: int| 0 <= i < all[row as int].len() ==> all[row as int][i] != ',',
    ensures
        line_stays(
            all[row as int],
            font::baseline(all.len(), row),
            font::scale(all),
            color,
            1,
            font::max_block_height(),
        ),
{
    let line = all[row as int];
    let base = font::baseline(all.len(), row);
    let scale = font::scale(all);
    assert forall|i: nat, p: (i32, i32)|
        i < line.len() && glyphs::in_cell(p, floor(line[i as int])) implies order::within_half(
        (#[trigger] placed(line, i, base, scale, color).point(p))[1],
        font::max_block_height(),
    ) by {
        assert(line[i as int] != ',');
        lemma_along(all, row, p);
    }
}

/// No stroke of a text without commas reaches further up or down than half of the
/// box is tall, but for the last binary digit of that height. A comma hangs below
/// its baseline, and so may leave the box.
pub proof fn law_text_fits_along(text: Seq<char>, color: Seq<Binary32>, k: int)
    requires
        short(font::lines(text)),
        !text.contains(','),
        0 <= k < font::text_strokes(text, color).len(),
    ensures
        stays(font::text_strokes(text, color)[k], 1, font::max_block_height()),
{
    let all = font::lines(text);
    let limit = font::max_block_height();
    let scale = font::scale(all);
    lemma_widest(all);
    binary32::lemma_units_order(font::widest(all).code(), 0);
    assert forall|row: nat| row < all.len() implies line_stays(
        all[row as int],
        #[trigger] font::baseline(all.len(), row),
        scale,
        color,
        1,
        limit,
    ) by {
        assert forall|i: int| 0 <= i < all[row as int].len() implies all[row as int][i] != ',' by {
            lemma_lines_hold(text, ',', row as int, i);
        }
        lemma_line_along(all, row, color);
    }
    lemma_rows_stay(all, all.len(), scale, color, 1, limit);
    assert(all.take(all.len() as int) =~= all);
}

/// A character that is not in a text is in none of its lines.
proof fn lemma_lines_hold(text: Seq<char>, c: char, r: int, i: int)
    requires
        !text.contains(c),
        0 <= r < font::lines(text).len(),
        0 <= i < font::lines(text)[r].len(),
    ensures
        font::lines(text)[r][i] != c,
    decreases text.len(),
{
    if text.len() > 0 {
        let less = text.drop_last();
        let before = font::lines(less);
        lemma_some_line(less);
        assert forall|j: int| 0 <= j < less.len() implies less[j] != c by {
            assert(text[j] != c);
        }
        assert(text[text.len() - 1] != c);
        if text.last() == '\n' {
            if r < before.len() {
                lemma_lines_hold(less, c, r, i);
            }
        } else if r < before.len() - 1 || i < before.last().len() {
            lemma_lines_hold(less, c, r, i);
        }
    }
}

/// A text has one line at least.
proof fn lemma_some_line(text: Seq<char>)
    ensures
        font::lines(text).len() >= 1,
    decreases text.len(),
{
    if text.len() > 0 {
        lemma_some_line(text.drop_last());
    }
}

/// What stays within half of the height of the box is far below four.
proof fn lemma_exact_is_small(x: Binary32, s: Binary32)
    requires
        x.finite(),
        s.finite(),
        order::within_half(x * s, font::max_block_height()),
    ensures
        (x * s).finite(),
        x.units() * s.units() <= pow2(151) * pow2(149),
{
    let limit = font::max_block_height();
    let t = pow2(149);
    lemma_pow2_pos(149);
    lemma2_to64();
    lemma_pow2_adds(2, 149);
    order::law_nearest_is_exact(3, 1, 3, 149);
    order::law_nearest_is_exact(4, 1, 4, 149);
    let three = binary32::nearest(3, 1);
    let four = binary32::nearest(4, 1);
    order::law_rounding_keeps_sides(26 * t, 10, three.code());
    assert(26 * t <= (3 * t) * 10);
    binary32::lemma_units_order(three.code(), four.code());
    binary32::lemma_units_order(limit.code() + 1, four.code());
    binary32::lemma_units_order((x * s).code(), four.code());
    order::law_product_between(x, s, four);
}

/// Capitals are no taller than they may be, but for less than a millionth: in no
/// row does the top of a capital lie further above the baseline.
pub proof fn law_capitals_are_capped(all: Seq<Seq<char>>, row: nat)
    requires
        short(all),
        row < all.len(),
        font::widest(all).units() > 0,
    ensures
        ({
            let base = font::baseline(all.len(), row);
            let scale = font::scale(all);
            let top = (base + font::grid_height()) * scale;
            let bottom = base * scale;
            top.value() - bottom.value() <= font::max_glyph_height().value() + pow2(129)
        }),
{
    let n = all.len();
    let s = font::scale(all);
    let base = font::baseline(n, row);
    let six = font::grid_height();
    let half = font::max_glyph_height();
    let high = base + six;
    let t = pow2(149);
    let u = pow2(148);
    lemma_pow2_unfold(149);
    lemma_pow2_pos(148);
    lemma_one();
    lemma_scale(all);
    lemma_baseline(n, row);
    let g = 9 * n - 15 - 18 * row;
    order::law_sum_is_exact(base, six, g, 12, 148);
    lemma_halves(0);
    lemma_halves(12);
    order::law_nearest_is_exact(6, 1, 6, 149);
    assert(font::halves(12) == six) by {
        lemma_six();
    }
    lemma_along(all, row, (0, 12));
    lemma_exact_is_small(high, s);
    order::law_sum_is_exact(base, font::halves(0), g, 0, 148);
    let low = base + font::halves(0);
    lemma_along(all, row, (0, 0));
    lemma_same_product(base, low, s, g);
    lemma_exact_is_small(base, s);
    order::law_product_error(high, s);
    order::law_product_error(base, s);
    // The scale is nearly the cap over the grid.
    let c = (half / six).units();
    order::lemma_size_of_count(six, 6, 149);
    order::lemma_size_of_count(half, 1, 148);
    order::lemma_sign(half, 1, 148);
    order::lemma_sign(six, 6, 149);
    binary32::lemma_units_order(six.code(), 0);
    let code = rounding::rounded(half.units() * t, six.units());
    order::law_quotient_between(half, six, six);
    assert(half.units() * t <= six.units() * six.units()) by (nonlinear_arith)
        requires
            half.units() == u,
            six.units() == 6 * t,
            u <= t,
    ;
    binary32::lemma_units_order(code, six.code());
    order::law_rounding_error(half.units() * t, six.units());
    lemma_cap_arithmetic(
        t,
        u,
        s.units() as int,
        c as int,
        g,
        (high * s).value(),
        (base * s).value(),
        high.value(),
        base.value(),
        high.units() * s.units(),
        base.units() * s.units(),
    );
}

proof fn lemma_six()
    ensures
        font::halves(12) == font::grid_height(),
{
    let a = font::halves(12);
    let b = font::grid_height();
    lemma_one();
    lemma_halves(12);
    order::lemma_sign(a, 12, 148);
    order::lemma_sign(b, 12, 148);
    binary32::lemma_units_order(a.code(), b.code());
}

/// Numbers of one value have one product with a third.
proof fn lemma_same_product(a: Binary32, b: Binary32, s: Binary32, h: int)
    requires
        order::counts(a, h, 148),
        order::counts(b, h, 148),
        s.finite(),
        order::within_half(b * s, font::max_block_height()),
    ensures
        order::within_half(a * s, font::max_block_height()),
{
    order::lemma_size_of_count(a, h, 148);
    order::lemma_size_of_count(b, h, 148);
}

proof fn lemma_cap_arithmetic(
    t: nat,
    u: nat,
    s: int,
    c: int,
    g: int,
    top: int,
    bottom: int,
    high: int,
    base: int,
    big: nat,
    small: nat,
)
    requires
        t == pow2(149),
        u == pow2(148),
        0 <= s <= c,
        high == (g + 12) * u,
        base == g * u,
        0x100_0000 * (c * (6 * t) - u * t) <= u * t + 0x80_0000 * (6 * t),
        0x100_0000 * (top * t - high * s) <= big + 0x80_0000 * t,
        0x100_0000 * (base * s - bottom * t) <= small + 0x80_0000 * t,
        big <= pow2(151) * t,
        small <= pow2(151) * t,
    ensures
        top - bottom <= u + pow2(129),
{
    lemma_pow2_unfold(149);
    lemma2_to64();
    lemma_pow2_pos(148);
    lemma_pow2_pos(124);
    lemma_pow2_adds(24, 127);
    lemma_pow2_adds(24, 124);
    lemma_pow2_adds(3, 124);
    lemma_pow2_adds(5, 124);
    let e = pow2(124);
    // In terms of e: u is 2^24 e, and the bound on the products 2^27 e.
    assert(u == 0x100_0000 * e);
    assert(pow2(127) == 8 * e);
    assert(pow2(129) == 32 * e);
    assert(pow2(151) == 0x100_0000 * (8 * e));
    assert(6 * c <= u + e + 3) by (nonlinear_arith)
        requires
            0x100_0000 * (c * (6 * t) - u * t) <= u * t + 0x80_0000 * (6 * t),
            u == 0x100_0000 * e,
            t > 0,
    ;
    assert(high * s - base * s == 6 * t * s) by (nonlinear_arith)
        requires
            high == (g + 12) * u,
            base == g * u,
            t == 2 * u,
    ;
    assert(6 * t * s <= (u + e + 3) * t) by (nonlinear_arith)
        requires
            0 <= s <= c,
            6 * c <= u + e + 3,
            t > 0,
    ;
    assert(top * t - bottom * t <= (u + e + 3) * t + 16 * (e * t) + t) by (nonlinear_arith)
        requires
            0x100_0000 * (top * t - high * s) <= big + 0x80_0000 * t,
            0x100_0000 * (base * s - bottom * t) <= small + 0x80_0000 * t,
            big <= 0x100_0000 * (8 * e) * t,
            small <= 0x100_0000 * (8 * e) * t,
            high * s - base * s <= (u + e + 3) * t,
    ;
    assert(top - bottom <= u + 17 * e + 4) by (nonlinear_arith)
        requires
            top * t - bottom * t <= (u + e + 3) * t + 16 * (e * t) + t,
            t > 0,
    ;
    rounding::lemma_pow2_monotone(3, 124);
}

/// The characters of a line stand six apart, around the middle: each takes a cell four
/// wide and a gap of two.
pub proof fn law_characters_stand_six_apart(n: nat, i: nat)
    requires
        n >= 1,
        short_line(n),
        i < n,
    ensures
        font::pen(n, i).finite(),
        font::pen(n, i).value() == (6 * i - 3 * n + 1) * pow2(149),
        font::width_of_line(n).value() == (6 * n - 2) * pow2(149),
{
    lemma_pen(n, i);
    lemma_width(n);
    lemma_pow2_unfold(150);
    assert((3 * n - 1) * pow2(150) == (6 * n - 2) * pow2(149)) by (nonlinear_arith)
        requires
            pow2(150) == 2 * pow2(149),
    ;
}

/// The lines of a block stand nine apart, around the middle, each six tall.
pub proof fn law_lines_stand_nine_apart(n: nat, row: nat)
    requires
        short_block(n),
        row < n,
    ensures
        font::baseline(n, row).finite(),
        2 * font::baseline(n, row).value() == (9 * n - 15 - 18 * row) * pow2(149),
        font::height_of_block(n).value() == (9 * n - 3) * pow2(149),
{
    lemma_baseline(n, row);
    lemma_height(n);
    lemma_pow2_unfold(149);
    let h = 9 * n - 15 - 18 * row;
    assert(2 * (h * pow2(148)) == h * pow2(149)) by (nonlinear_arith)
        requires
            pow2(149) == 2 * pow2(148),
    ;
}

/// A block is drawn as large as it fits: the scale is within each of the three limits and
/// reaches one of them: 3.4 over the widest line, 2.6 over the height, and a half over the
/// height of a capital.
pub proof fn law_blocks_are_as_large_as_they_fit(all: Seq<Seq<char>>)
    requires
        short(all),
        font::widest(all).units() > 0,
    ensures
        ({
            let s = font::scale(all);
            let a = binary32::nearest(17, 5) / font::widest(all);
            let b = binary32::nearest(13, 5) / font::height_of_block(all.len());
            let c = binary32::nearest(1, 2) / binary32::nearest(6, 1);
            &&& s.at_most(a)
            &&& s.at_most(b)
            &&& s.at_most(c)
            &&& s == a || s == b || s == c
        }),
{
    let t = pow2(149);
    lemma_pow2_pos(149);
    order::lemma_same_ratio(34 * t, 10, 17 * t, 5, 2);
    order::lemma_same_ratio(26 * t, 10, 13 * t, 5, 2);
    lemma_widest(all);
    lemma_height(all.len());
    order::lemma_size_of_count(font::height_of_block(all.len()), 9 * all.len() - 3, 149);
    assert((9 * all.len() - 3) * t > 0) by (nonlinear_arith)
        requires
            all.len() >= 1,
            t > 0,
    ;
    order::lemma_fraction_error(34, 10);
    order::lemma_fraction_error(26, 10);
    order::lemma_fraction_error(1, 2);
    order::lemma_whole_error(6);
    binary32::lemma_units_order(font::height_of_block(all.len()).code(), 0);
    binary32::lemma_units_order(font::widest(all).code(), 0);
    binary32::lemma_units_order(binary32::nearest(6, 1).code(), 0);
    order::law_quotient_between(font::max_block_width(), font::widest(all), font::widest(all));
    order::law_quotient_between(
        font::max_block_height(),
        font::height_of_block(all.len()),
        font::widest(all),
    );
    order::law_quotient_between(
        font::max_glyph_height(),
        font::grid_height(),
        font::widest(all),
    );
}

/// A point of a character counts in halves of the grid.
pub proof fn law_points_count_in_halves(h: int)
    requires
        -100 <= h <= 100,
    ensures
        font::halves(h).finite(),
        2 * font::halves(h).value() == h * pow2(149),
{
    lemma_halves(h);
    lemma_pow2_unfold(149);
    assert(2 * (h * pow2(148)) == h * pow2(149)) by (nonlinear_arith)
        requires
            pow2(149) == 2 * pow2(148),
    ;
}

/// The width of a line that is measured: six to a character, but four to the last.
pub proof fn law_measured_lines(n: usize, w: Binary32)
    requires
        call_ensures(font::line_width, (n,), w),
        short_line(n as nat),
    ensures
        n == 0 ==> w.value() == 0,
        n > 0 ==> w.value() == (6 * n - 2) * pow2(149),
{
    binary32::lemma_units_order(0, 0);
    if n > 0 {
        law_characters_stand_six_apart(n as nat, 0);
    }
}

}
