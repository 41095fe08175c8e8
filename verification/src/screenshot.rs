//! Headless capture of one frame: the frames to be replayed before it, the rows of
//! the picture as they are read back, and the picture as a PNG file.
//!
//! A trail is the light of earlier frames, so a frame alone shows none. The capture
//! therefore replays the last few time constants at 60 frames per second.
use vstd::arithmetic::div_mod::*;
use vstd::arithmetic::power2::*;
use vstd::prelude::*;

use crate::binary32;
use crate::binary32::Binary32;
use crate::order;
use crate::rounding;

verus! {

/// The time between two replayed frames, in seconds.
pub open spec fn frame_interval() -> Binary32 {
    binary32::nearest(1, 60)
}

pub fn interval() -> (r: Binary32)
    ensures
        r == frame_interval(),
{
    Binary32::ratio(1, 60)
}

/// How many frames are replayed: as many as five time constants take, and one at
/// least. One is enough where nothing persists.
pub open spec fn replayed(persistence: Binary32) -> nat {
    if binary32::signed(false, 0).below(persistence) {
        let n = (persistence * binary32::nearest(5, 1) / frame_interval()).next_whole();
        if n < 1 {
            1
        } else if n > u32::MAX {
            u32::MAX as nat
        } else {
            n
        }
    } else {
        1
    }
}

pub fn steps(persistence: Binary32) -> (n: u32)
    ensures
        n == replayed(persistence),
{
    if Binary32::zero().is_below(persistence) {
        let frames: u64 = (persistence * Binary32::ratio(5, 1) / interval()).ceil_to_u64();
        if frames < 1 {
            1
        } else if frames > u32::MAX as u64 {
            u32::MAX
        } else {
            frames as u32
        }
    } else {
        1
    }
}

/// The time of the frame `i` of `n`, the last of which is the one that is captured.
pub open spec fn moment(time: Binary32, n: nat, i: nat) -> Binary32 {
    time - binary32::nearest((n - 1 - i) as nat, 1) * frame_interval()
}

pub fn step_time(time: Binary32, n: u32, i: u32) -> (t: Binary32)
    requires
        i < n,
    ensures
        t == moment(time, n as nat, i as nat),
{
    time - Binary32::from_u64((n - 1 - i) as u64) * interval()
}

/// `wgpu::COPY_BYTES_PER_ROW_ALIGNMENT`: the rows of a texture that is copied to a
/// buffer begin at multiples of 256 bytes.
#[verifier::external_body]
fn row_alignment() -> (r: u32)
    ensures
        r == 256,
{
    wgpu::COPY_BYTES_PER_ROW_ALIGNMENT
}

/// The bytes of a row of the picture: four to a pixel.
pub open spec fn row_bytes(width: u32) -> nat {
    4 * width as nat
}

/// The bytes from one row to the next as they are read back.
pub open spec fn padded_row(width: u32) -> nat {
    (row_bytes(width) + 255) / 256 * 256
}

/// The bytes from one row to the next as they are read back.
pub fn padded_bytes_per_row(width: u32) -> (r: u32)
    requires
        padded_row(width) <= u32::MAX,
    ensures
        r == padded_row(width),
{
    pad(width) as u32
}

fn pad(width: u32) -> (r: u64)
    ensures
        r == padded_row(width),
{
    let row: u64 = 4 * width as u64;
    let align: u64 = row_alignment() as u64;
    let blocks: u64 = row / align + (if row % align == 0 {
        0
    } else {
        1
    });
    blocks * align
}

/// The bytes of the buffer that a picture is read back through, or `None` where 32
/// bits do not count them.
pub fn read_back_size(width: u32, height: u32) -> (r: Option<u32>)
    ensures
        match r {
            Some(size) => size == padded_row(width) * height && padded_row(width) <= u32::MAX,
            None => padded_row(width) * height > u32::MAX || padded_row(width) > u32::MAX,
        },
{
    let padded: u64 = pad(width);
    if padded > u32::MAX as u64 {
        return None;
    }
    proof {
        assert(padded * height <= 0xffff_ffff * 0xffff_ffff) by (nonlinear_arith)
            requires
                padded <= 0xffff_ffff,
                height <= 0xffff_ffff,
        ;
    }
    let size: u64 = padded * height as u64;
    if size > u32::MAX as u64 {
        None
    } else {
        Some(size as u32)
    }
}

/// The picture without the padding of its rows.
pub open spec fn unpadded(mapped: Seq<u8>, width: u32, height: u32) -> Seq<u8>
    decreases height,
{
    if height == 0 {
        Seq::empty()
    } else {
        let row = (height - 1) as u32;
        let start = row * padded_row(width);
        unpadded(mapped, width, row) + mapped.subrange(start as int, start + row_bytes(width))
    }
}

/// Takes the padding off the rows that were read back.
pub fn strip_padding(mapped: &[u8], width: u32, height: u32) -> (r: Vec<u8>)
    requires
        padded_row(width) * height <= u32::MAX,
        padded_row(width) <= u32::MAX,
        mapped@.len() >= padded_row(width) * height,
    ensures
        r@ == unpadded(mapped@, width, height),
        r@.len() == row_bytes(width) * height,
{
    let padded: u64 = padded_bytes_per_row(width) as u64;
    let kept: u64 = 4 * width as u64;
    let size: usize = mapped.len();
    let mut r: Vec<u8> = Vec::new();
    let mut row: u32 = 0;
    while row < height
        invariant
            row <= height,
            size == mapped@.len(),
            padded == padded_row(width),
            kept == row_bytes(width),
            kept <= padded,
            padded * height <= u32::MAX,
            padded * height <= size,
            r@ == unpadded(mapped@, width, row),
            r@.len() == kept * row,
        decreases height - row,
    {
        proof {
            assert(row * padded + padded <= height * padded) by (nonlinear_arith)
                requires
                    row + 1 <= height,
            ;
            assert(padded * height == height * padded) by (nonlinear_arith);
            assert(kept * row + kept == kept * (row + 1)) by (nonlinear_arith);
        }
        let start: usize = (row as u64 * padded) as usize;
        let end: usize = start + kept as usize;
        let ghost before = r@;
        let mut i: usize = start;
        while i < end
            invariant
                start <= i <= end <= size,
                size == mapped@.len(),
                r@ == before + mapped@.subrange(start as int, i as int),
            decreases end - i,
        {
            r.push(mapped[i]);
            i = i + 1;
            proof {
                assert(r@ =~= before + mapped@.subrange(start as int, i as int));
            }
        }
        row = row + 1;
    }
    r
}

/// The error of the PNG encoder.
#[verifier::external_type_specification]
#[verifier::external_body]
pub struct ExEncodingError(png::EncodingError);

/// The PNG file of a picture with four bytes to a pixel (red, green, blue, alpha),
/// or `None` where the encoder refuses it.
pub uninterp spec fn png_file(pixels: Seq<u8>, width: u32, height: u32) -> Option<Seq<u8>>;

/// `png::Encoder` with eight bits to each of red, green, blue and alpha, writing to
/// memory. Its result depends on the arguments alone. `write_header` refuses a
/// picture without pixels, and `write_image_data` one whose data does not have four
/// bytes to each pixel; writing to memory does not fail. The bytes of the file are
/// left to the name.
#[verifier::external_body]
fn encode_rgba(pixels: &[u8], width: u32, height: u32) -> (r: Result<Vec<u8>, png::EncodingError>)
    requires
        4 * width * height <= usize::MAX,
        4 * width < usize::MAX,
    ensures
        match r {
            Ok(file) => png_file(pixels@, width, height) == Some(file@),
            Err(_) => png_file(pixels@, width, height) is None,
        },
        r is Ok <==> (width != 0 && height != 0 && pixels@.len() == 4 * width * height),
{
    let mut file: Vec<u8> = Vec::new();
    let mut encoder = png::Encoder::new(&mut file, width, height);
    encoder.set_color(png::ColorType::Rgba);
    encoder.set_depth(png::BitDepth::Eight);
    let mut writer = encoder.write_header()?;
    writer.write_image_data(pixels)?;
    writer.finish()?;
    Ok(file)
}

/// A picture that could not be encoded.
#[derive(Clone, Copy, Debug, PartialEq, Eq, Structural)]
pub struct EncodingFailed;

/// The PNG file of the rows that were read back. Only a picture without pixels has
/// none.
pub fn picture(mapped: &[u8], width: u32, height: u32) -> (r: Result<Vec<u8>, EncodingFailed>)
    requires
        padded_row(width) * height <= u32::MAX,
        padded_row(width) <= u32::MAX,
        mapped@.len() >= padded_row(width) * height,
    ensures
        match r {
            Ok(file) => png_file(unpadded(mapped@, width, height), width, height) == Some(file@),
            Err(_) => png_file(unpadded(mapped@, width, height), width, height) is None,
        },
        r is Ok <==> width > 0 && height > 0,
{
    let pixels: Vec<u8> = strip_padding(mapped, width, height);
    proof {
        let row = row_bytes(width);
        assert(row * height <= padded_row(width) * height) by (nonlinear_arith)
            requires
                row <= padded_row(width),
        ;
        assert(4 * width * height == row * height) by (nonlinear_arith)
            requires
                row == 4 * width,
        ;
    }
    match encode_rgba(pixels.as_slice(), width, height) {
        Ok(file) => Ok(file),
        Err(_) => Err(EncodingFailed),
    }
}

/// The replay ends on the time of the capture.
pub proof fn law_replay_ends_on_time(time: Binary32, n: nat)
    requires
        n >= 1,
        time.finite(),
    ensures
        moment(time, n, (n - 1) as nat) == time,
{
    let zero = binary32::nearest(0, 1);
    let dt = frame_interval();
    let one = binary32::nearest(1, 1);
    let t = pow2(149);
    lemma_pow2_pos(149);
    rounding::lemma_rounded_vanishes(0, 1);
    rounding::lemma_rounded_vanishes(0, t);
    order::law_nearest_is_exact(1, 1, 1, 149);
    order::law_rounding_keeps_sides(t, 60, one.code());
    assert(zero == binary32::signed(false, 0));
    assert(dt.finite());
    assert(zero.units() * dt.units() == 0) by (nonlinear_arith)
        requires
            zero.units() == 0,
    ;
    assert(zero * dt == binary32::signed(false, 0));
    order::law_rounding_keeps_sides(time.units(), 1, time.code());
    binary32::lemma_units_order(time.code(), 0);
}

/// Every byte of a row stays in its row and at its place in the row.
pub proof fn law_rows_are_kept(mapped: Seq<u8>, width: u32, height: u32, row: int, column: int)
    requires
        0 <= row < height,
        0 <= column < row_bytes(width),
        mapped.len() >= padded_row(width) * height,
    ensures
        unpadded(mapped, width, height).len() == row_bytes(width) * height,
        unpadded(mapped, width, height)[row * row_bytes(width) + column] == mapped[row * padded_row(
            width,
        ) + column],
    decreases height,
{
    let last = (height - 1) as u32;
    let kept = row_bytes(width);
    let padded = padded_row(width);
    assert(last * padded + padded == padded * height) by (nonlinear_arith)
        requires
            last == height - 1,
    ;
    assert(padded * last <= padded * height) by (nonlinear_arith)
        requires
            last <= height,
    ;
    assert(kept * last + kept == kept * height) by (nonlinear_arith)
        requires
            last == height - 1,
    ;
    lemma_unpadded_len(mapped, width, last);
    assert(row * kept == kept * row) by (nonlinear_arith);
    assert(last * kept == kept * last) by (nonlinear_arith);
    if row < last {
        law_rows_are_kept(mapped, width, last, row, column);
        assert(row * kept + kept <= kept * last) by (nonlinear_arith)
            requires
                row + 1 <= last,
        ;
    } else {
        assert(row == last);
    }
}

proof fn lemma_unpadded_len(mapped: Seq<u8>, width: u32, height: u32)
    requires
        mapped.len() >= padded_row(width) * height,
    ensures
        unpadded(mapped, width, height).len() == row_bytes(width) * height,
    decreases height,
{
    if height > 0 {
        let last = (height - 1) as u32;
        let kept = row_bytes(width);
        let padded = padded_row(width);
        assert(last * padded + padded == padded * height) by (nonlinear_arith)
            requires
                last == height - 1,
        ;
        assert(padded * last <= padded * height) by (nonlinear_arith)
            requires
                last <= height,
        ;
        assert(kept * last + kept == kept * height) by (nonlinear_arith)
            requires
                last == height - 1,
        ;
        lemma_unpadded_len(mapped, width, last);
    }
}

/// The rows of a picture that is read back begin at multiples of 256 bytes, each as soon
/// as it can after the four bytes to a pixel of the one before.
pub proof fn law_rows_are_padded_as_little_as_can_be(width: u32)
    ensures
        padded_row(width) % 256 == 0,
        4 * width <= padded_row(width) < 4 * width + 256,
{
}

/// The replay takes as long as five time constants, to the next whole frame at 60 a
/// second: `n` frames take as long, and one fewer would not, within one part in two to the
/// power 20 and 64 units. Where nothing persists one frame is enough.
pub proof fn law_replay_lasts_five_constants(persistence: Binary32)
    ensures
        1 <= replayed(persistence) <= u32::MAX,
        !binary32::signed(false, 0).below(persistence) ==> replayed(persistence) == 1,
        persistence.finite() && persistence.value() > 0 && replayed(persistence) < u32::MAX ==> {
            let n = replayed(persistence);
            let exact = 300 * persistence.value();
            &&& 0x10_0000 * (exact - n * pow2(149)) <= exact + 0x400_0000
            &&& n > 1 ==> 0x10_0000 * ((n - 1) * pow2(149) - exact) <= exact + 0x400_0000
        },
{
    let n = replayed(persistence);
    binary32::lemma_units_order(0, 0);
    if persistence.finite() && persistence.value() > 0 && n < u32::MAX {
        let t = pow2(149) as int;
        let five = binary32::nearest(5, 1);
        let dt = frame_interval();
        let x = persistence * five;
        let q = x / dt;
        lemma_pow2_pos(149);
        order::lemma_whole_error(5);
        order::lemma_fraction_error(1, 60);
        binary32::lemma_units_order(dt.code(), 0);
        binary32::lemma_units_order(five.code(), 0);
        binary32::lemma_units_order(persistence.code(), 0);
        let code = rounding::rounded(persistence.units() * five.units(), pow2(149));
        order::lemma_signed(false, code);
        let next = rounding::rounded(x.units() * pow2(149), dt.units());
        order::lemma_signed(false, next);
        if !q.finite() {
            lemma_endless_replay(q);
        }
        assert(x.finite());
        order::law_product_error(persistence, five);
        binary32::lemma_units_order(x.code(), 0);
        order::law_quotient_error(x, dt);
        binary32::lemma_units_order(q.code(), 0);
        let frames = (q.units() + t - 1) / t;
        lemma_fundamental_div_mod(q.units() + t - 1, t);
        assert(t * frames == frames * t) by (nonlinear_arith);
        lemma_replay_sides(
            persistence.value(),
            five.value(),
            x.value(),
            dt.value(),
            q.value(),
            n as int,
            frames,
            t,
        );
    }
}

proof fn lemma_endless_replay(q: Binary32)
    requires
        q.infinite(),
    ensures
        (q.units() + pow2(149) - 1) / pow2(149) as int > u32::MAX,
{
    let t = pow2(149) as int;
    lemma_pow2_pos(149);
    lemma2_to64();
    lemma_pow2_adds(23, 254);
    lemma_pow2_adds(128, 149);
    lemma_pow2_adds(64, 64);
    assert(q.units() == pow2(277));
    assert(q.units() == pow2(128) * t);
    lemma_fundamental_div_mod_converse(q.units() + t - 1, t, pow2(128) as int, t - 1);
    assert(pow2(128) > u32::MAX) by (nonlinear_arith)
        requires
            pow2(128) == pow2(64) * pow2(64),
            pow2(64) == 0x1_0000_0000_0000_0000,
    ;
}

proof fn lemma_replay_sides(
    p: int,
    five: int,
    x: int,
    dt: int,
    q: int,
    n: int,
    frames: int,
    t: int,
)
    requires
        t == pow2(149),
        p > 0,
        five == 5 * t,
        x >= 0,
        dt > 0,
        q >= 0,
        n >= 1,
        frames <= n,
        n > 1 ==> frames == n,
        frames * t <= q + t - 1 < frames * t + t,
        0x200_0000 * (dt * 60 - 1 * t) <= 3 * (1 * t),
        0x200_0000 * (1 * t - dt * 60) <= 3 * (1 * t),
        0x100_0000 * (x * t - p * five) <= p * five + 0x80_0000 * t,
        0x100_0000 * (p * five - x * t) <= p * five + 0x80_0000 * t,
        0x100_0000 * (q * dt - x * t) <= x * t + 0x80_0000 * dt,
        0x100_0000 * (x * t - q * dt) <= x * t + 0x80_0000 * dt,
    ensures
        0x10_0000 * (300 * p - n * t) <= 300 * p + 0x400_0000,
        n > 1 ==> 0x10_0000 * ((n - 1) * t - 300 * p) <= 300 * p + 0x400_0000,
{
    lemma_pow2_pos(149);
    let a = q * t;
    let b = q * dt;
    let c = x * t;
    let e = p * t;
    assert(p * five == 5 * e) by (nonlinear_arith)
        requires
            five == 5 * t,
            e == p * t,
    ;
    assert(0x200_0000 * (60 * b - a) <= 3 * a && 0x200_0000 * (a - 60 * b) <= 3 * a && a >= 0)
        by (nonlinear_arith)
        requires
            a == q * t,
            b == q * dt,
            q >= 0,
            t > 0,
            0x200_0000 * (dt * 60 - t) <= 3 * t,
            0x200_0000 * (t - dt * 60) <= 3 * t,
    ;
    assert(e >= 0) by (nonlinear_arith)
        requires
            e == p * t,
            p > 0,
            t > 0,
    ;
    assert(0x10_0000 * (300 * e - a) <= 300 * e + 0x300_0000 * t);
    assert(0x10_0000 * (a - 300 * e) <= 300 * e + 0x300_0000 * t);
    assert(0x10_0000 * (300 * p - q) <= 300 * p + 0x300_0000 && 0x10_0000 * (q - 300 * p) <= 300 * p
        + 0x300_0000) by (nonlinear_arith)
        requires
            a == q * t,
            e == p * t,
            t > 0,
            0x10_0000 * (300 * e - a) <= 300 * e + 0x300_0000 * t,
            0x10_0000 * (a - 300 * e) <= 300 * e + 0x300_0000 * t,
    ;
    assert(frames * t <= n * t) by (nonlinear_arith)
        requires
            frames <= n,
            t > 0,
    ;
    assert((n - 1) * t == n * t - t) by (nonlinear_arith);
}

/// The frames of the replay are a sixtieth of a second apart: the frame `i` of `n` comes as
/// many sixtieths before the capture as there are frames after it, within one part in two
/// to the power 20 and 64 units.
pub proof fn law_replay_keeps_its_pace(time: Binary32, n: nat, i: nat)
    requires
        i < n <= u32::MAX,
        time.finite(),
        moment(time, n, i).finite(),
    ensures
        ({
            let left = (n - 1 - i) * pow2(149);
            let exact = 60 * time.value() - left;
            let kept = 60 * moment(time, n, i).value();
            let slack = 60 * time.units() + left + 0x400_0000;
            &&& 0x10_0000 * (kept - exact) <= slack
            &&& 0x10_0000 * (exact - kept) <= slack
        }),
{
    let m = (n - 1 - i) as nat;
    let t = pow2(149) as int;
    let steps = binary32::nearest(m, 1);
    let dt = frame_interval();
    let back = steps * dt;
    lemma_pow2_pos(149);
    order::lemma_whole_error(m);
    order::lemma_fraction_error(1, 60);
    binary32::lemma_units_order(dt.code(), 0);
    binary32::lemma_units_order(steps.code(), 0);
    order::lemma_signed(false, rounding::rounded(steps.units() * dt.units(), pow2(149)));
    assert(back.finite());
    order::law_product_error(steps, dt);
    order::lemma_signed(!back.negative(), back.code());
    order::law_opposites(back, back);
    order::law_sum_error(time, back.negated());
    binary32::lemma_units_order(time.code(), 0);
    let x = back.value();
    let s = steps.value();
    let d = dt.value();
    let k = m * t;
    let e = s * d;
    let f = s * t;
    assert(0x200_0000 * (60 * e - f) <= 3 * f && 0x200_0000 * (f - 60 * e) <= 3 * f && f >= 0)
        by (nonlinear_arith)
        requires
            e == s * d,
            f == s * t,
            s >= 0,
            t > 0,
            0x200_0000 * (d * 60 - 1 * t) <= 3 * (1 * t),
            0x200_0000 * (1 * t - d * 60) <= 3 * (1 * t),
    ;
    let g = x * t;
    assert(0x40_0000 * (60 * g - f) <= f + 0x1000_0000 * t && 0x40_0000 * (f - 60 * g) <= f
        + 0x1000_0000 * t);
    assert(0x40_0000 * (60 * x - s) <= s + 0x1000_0000 && 0x40_0000 * (s - 60 * x) <= s
        + 0x1000_0000) by (nonlinear_arith)
        requires
            g == x * t,
            f == s * t,
            t > 0,
            0x40_0000 * (60 * g - f) <= f + 0x1000_0000 * t,
            0x40_0000 * (f - 60 * g) <= f + 0x1000_0000 * t,
    ;
}

/// The replay that is counted, its moments, and the rows of the picture: as many frames as
/// five time constants take, a sixtieth of a second apart, and rows of 256 bytes or a
/// multiple.
pub proof fn law_captures_are_counted(
    persistence: Binary32,
    time: Binary32,
    n: u32,
    i: u32,
    at: Binary32,
    width: u32,
    row: u32,
)
    requires
        call_ensures(steps, (persistence,), n),
        i < n,
        call_ensures(step_time, (time, n, i), at),
        padded_row(width) <= u32::MAX,
        call_ensures(padded_bytes_per_row, (width,), row),
        time.finite(),
        at.finite(),
    ensures
        n >= 1,
        !binary32::signed(false, 0).below(persistence) ==> n == 1,
        persistence.finite() && persistence.value() > 0 && n < u32::MAX ==> {
            let exact = 300 * persistence.value();
            &&& 0x10_0000 * (exact - n * pow2(149)) <= exact + 0x400_0000
            &&& n > 1 ==> 0x10_0000 * ((n - 1) * pow2(149) - exact) <= exact + 0x400_0000
        },
        i == n - 1 ==> at == time,
        ({
            let left = (n - 1 - i) * pow2(149);
            let exact = 60 * time.value() - left;
            let slack = 60 * time.units() + left + 0x400_0000;
            &&& 0x10_0000 * (60 * at.value() - exact) <= slack
            &&& 0x10_0000 * (exact - 60 * at.value()) <= slack
        }),
        row % 256 == 0,
        4 * width <= row < 4 * width + 256,
{
    law_replay_lasts_five_constants(persistence);
    law_replay_keeps_its_pace(time, n as nat, i as nat);
    law_replay_ends_on_time(time, n as nat);
}

/// What is kept of the rows that were read back: every pixel of the picture, row by row.
pub proof fn law_stripped_rows_are_kept(
    mapped: &[u8],
    width: u32,
    height: u32,
    r: Vec<u8>,
    row: int,
    column: int,
)
    requires
        call_ensures(strip_padding, (mapped, width, height), r),
        mapped@.len() >= padded_row(width) * height,
        0 <= row < height,
        0 <= column < 4 * width,
    ensures
        r@.len() == 4 * width * height,
        r@[row * (4 * width) + column] == mapped@[row * padded_row(width) + column],
{
    law_rows_are_kept(mapped@, width, height, row, column);
    assert(row_bytes(width) == 4 * width);
}

/// The buffer that a picture is read back through holds its padded rows, one after the
/// other; where 32 bits do not count its bytes there is none.
pub proof fn law_read_back_holds_all_rows(width: u32, height: u32, r: Option<u32>)
    requires
        call_ensures(read_back_size, (width, height), r),
    ensures
        r matches Some(size) ==> size == padded_row(width) * height,
        r is None ==> padded_row(width) * height > u32::MAX || padded_row(width) > u32::MAX,
        padded_row(width) <= u32::MAX && padded_row(width) * height <= u32::MAX ==> r is Some,
{
}

/// The file of a picture is that of its pixels without the padding of their rows, and
/// there is one wherever there are pixels. The frames before it are a sixtieth of a second
/// apart.
pub proof fn law_pictures_are_encoded(
    mapped: &[u8],
    width: u32,
    height: u32,
    r: Result<Vec<u8>, EncodingFailed>,
    dt: Binary32,
)
    requires
        call_ensures(picture, (mapped, width, height), r),
        call_ensures(interval, (), dt),
    ensures
        r is Ok <==> width * height > 0,
        r matches Ok(file) ==> png_file(unpadded(mapped@, width, height), width, height) == Some(
            file@,
        ),
        0x200_0000 * (60 * dt.value() - pow2(149)) <= 3 * pow2(149),
        0x200_0000 * (pow2(149) - 60 * dt.value()) <= 3 * pow2(149),
{
    order::lemma_fraction_error(1, 60);
    assert(width * height > 0 <==> width > 0 && height > 0) by (nonlinear_arith);
}

}
