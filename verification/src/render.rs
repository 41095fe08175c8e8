//! What the host decides frame by frame: options, present mode, timing, controls,
//! and what is drawn.
use core::ops::Range;

use vstd::arithmetic::power2::*;
use vstd::prelude::*;

use crate::binary32;
use crate::binary32::Binary32;
use crate::buffers::BeamUniforms;
use crate::cli;
use crate::cli::{Cli, PresentModeArg};
use crate::decimal;
use crate::geometry::{Scene, Segment, Turn};
use crate::order;
use crate::rounding;
use crate::rounding::INFINITE;
use crate::scan;
use crate::scan::{ScanConfig, ScanScheduler};

verus! {

/// Whether two present modes are the same.
fn same_mode(a: wgpu::PresentMode, b: wgpu::PresentMode) -> (r: bool)
    ensures
        r == (a == b),
{
    match (a, b) {
        (wgpu::PresentMode::AutoVsync, wgpu::PresentMode::AutoVsync) => true,
        (wgpu::PresentMode::AutoNoVsync, wgpu::PresentMode::AutoNoVsync) => true,
        (wgpu::PresentMode::Fifo, wgpu::PresentMode::Fifo) => true,
        (wgpu::PresentMode::FifoRelaxed, wgpu::PresentMode::FifoRelaxed) => true,
        (wgpu::PresentMode::Immediate, wgpu::PresentMode::Immediate) => true,
        (wgpu::PresentMode::Mailbox, wgpu::PresentMode::Mailbox) => true,
        _ => false,
    }
}

fn offers(supported: &[wgpu::PresentMode], mode: wgpu::PresentMode) -> (r: bool)
    ensures
        r == supported@.contains(mode),
{
    let mut i: usize = 0;
    while i < supported.len()
        invariant
            i <= supported@.len(),
            forall|j: int| 0 <= j < i ==> supported@[j] != mode,
        decreases supported@.len() - i,
    {
        if same_mode(supported[i], mode) {
            return true;
        }
        i = i + 1;
    }
    false
}

/// The present mode for a surface: the one asked for where the surface has it, and
/// else the one with the least delay that it has. Immediate beats mailbox, and
/// mailbox beats fifo.
pub open spec fn best_mode(
    supported: Seq<wgpu::PresentMode>,
    requested: Option<PresentModeArg>,
) -> wgpu::PresentMode {
    if requested is Some && supported.contains(requested->0.mode()) {
        requested->0.mode()
    } else if supported.contains(wgpu::PresentMode::Immediate) {
        wgpu::PresentMode::Immediate
    } else if supported.contains(wgpu::PresentMode::Mailbox) {
        wgpu::PresentMode::Mailbox
    } else {
        wgpu::PresentMode::Fifo
    }
}

pub fn choose_present_mode(
    supported: &[wgpu::PresentMode],
    requested: Option<PresentModeArg>,
) -> (r: wgpu::PresentMode)
    ensures
        r == best_mode(supported@, requested),
{
    match requested {
        Some(request) => {
            let mode: wgpu::PresentMode = request.to_wgpu();
            if offers(supported, mode) {
                return mode;
            }
        },
        None => {},
    }
    if offers(supported, wgpu::PresentMode::Immediate) {
        wgpu::PresentMode::Immediate
    } else if offers(supported, wgpu::PresentMode::Mailbox) {
        wgpu::PresentMode::Mailbox
    } else {
        wgpu::PresentMode::Fifo
    }
}

/// The flight keys that are held.
#[derive(Clone, Copy, Debug, PartialEq, Eq, Structural)]
pub struct InputState {
    pub turn_left: bool,
    pub turn_right: bool,
    pub thrust: bool,
}

impl Default for InputState {
    fn default() -> (r: InputState)
        ensures
            r == (InputState { turn_left: false, turn_right: false, thrust: false }),
    {
        InputState { turn_left: false, turn_right: false, thrust: false }
    }
}

/// The keys of the windowing library, with its variants.
#[verifier::external_type_specification]
pub struct ExKeyCode(winit::keyboard::KeyCode);

impl InputState {
    /// The keys held after a key was pressed or let go: the arrows, or A, D and W in
    /// their place.
    pub open spec fn after(self, key: winit::keyboard::KeyCode, pressed: bool) -> InputState {
        match key {
            winit::keyboard::KeyCode::ArrowLeft | winit::keyboard::KeyCode::KeyA => InputState {
                turn_left: pressed,
                ..self
            },
            winit::keyboard::KeyCode::ArrowRight | winit::keyboard::KeyCode::KeyD => InputState {
                turn_right: pressed,
                ..self
            },
            winit::keyboard::KeyCode::ArrowUp | winit::keyboard::KeyCode::KeyW => InputState {
                thrust: pressed,
                ..self
            },
            _ => self,
        }
    }

    pub fn key(&mut self, key: winit::keyboard::KeyCode, pressed: bool)
        ensures
            *final(self) == old(self).after(key, pressed),
    {
        match key {
            winit::keyboard::KeyCode::ArrowLeft | winit::keyboard::KeyCode::KeyA => {
                self.turn_left = pressed;
            },
            winit::keyboard::KeyCode::ArrowRight | winit::keyboard::KeyCode::KeyD => {
                self.turn_right = pressed;
            },
            winit::keyboard::KeyCode::ArrowUp | winit::keyboard::KeyCode::KeyW => {
                self.thrust = pressed;
            },
            _ => {},
        }
    }
}

/// Whether a key that was pressed, and is not merely held, turns scan mode on or off:
/// the key S does.
pub fn toggles_scan(key: winit::keyboard::KeyCode, pressed: bool, repeated: bool) -> (r: bool)
    ensures
        r == (key == winit::keyboard::KeyCode::KeyS && pressed && !repeated),
{
    match key {
        winit::keyboard::KeyCode::KeyS => pressed && !repeated,
        _ => false,
    }
}

/// The ship: turns and thrusts with momentum and without drag, and comes back on
/// the other side when it leaves the screen. At the angle zero it points up;
/// positive angles go counterclockwise.
#[derive(Clone, Copy, Debug, PartialEq, Eq, Structural)]
pub struct ShipState {
    pub angle: Binary32,
    pub vel_x: Binary32,
    pub vel_y: Binary32,
    pub pos_x: Binary32,
    pub pos_y: Binary32,
}

impl Default for ShipState {
    fn default() -> (r: ShipState)
        ensures
            r.angle == binary32::signed(false, 0),
            r.vel_x == binary32::signed(false, 0),
            r.vel_y == binary32::signed(false, 0),
            r.pos_x == binary32::signed(false, 0),
            r.pos_y == binary32::signed(false, 0),
    {
        let zero: Binary32 = Binary32::zero();
        ShipState { angle: zero, vel_x: zero, vel_y: zero, pos_x: zero, pos_y: zero }
    }
}

/// `x`, or where it comes back in when it is beyond `half` on either side.
pub open spec fn wrapped(x: Binary32, half: Binary32) -> Binary32 {
    if half.below(x) {
        x - binary32::nearest(2, 1) * half
    } else if x.below(half.negated()) {
        x + binary32::nearest(2, 1) * half
    } else {
        x
    }
}

/// Takes `x` to the opposite edge when it is beyond one.
pub fn wrap(x: Binary32, half: Binary32) -> (r: Binary32)
    ensures
        r == wrapped(x, half),
{
    if half.is_below(x) {
        x - Binary32::ratio(2, 1) * half
    } else if x.is_below(half.opposite()) {
        x + Binary32::ratio(2, 1) * half
    } else {
        x
    }
}

/// The way that the controls turn the ship: one to the left, minus one to the right.
pub open spec fn steering(input: InputState) -> Binary32 {
    if input.turn_left == input.turn_right {
        binary32::signed(false, 0)
    } else if input.turn_left {
        binary32::nearest(1, 1)
    } else {
        binary32::nearest(1, 1).negated()
    }
}

/// How far the screen reaches from the middle at the depth of the ship. `tan` is
/// the tangent of half of the field of view; the camera stands three units off.
pub open spec fn reach(tan: Binary32) -> Binary32 {
    binary32::nearest(3, 1) * tan
}

/// How far the ship may go beyond the edge before it comes back.
pub open spec fn wrap_margin() -> Binary32 {
    binary32::nearest(15, 100)
}

impl ShipState {
    /// The angle after `dt` seconds of steering, at 3.5 radians per second.
    pub open spec fn turned(self, input: InputState, dt: Binary32) -> ShipState {
        ShipState {
            angle: self.angle + steering(input) * binary32::nearest(35, 10) * dt,
            ..self
        }
    }

    /// The velocity after `dt` seconds of thrust, 1.8 units per second each second in
    /// the direction of the ship.
    pub open spec fn pushed(self, input: InputState, dt: Binary32, heading: Turn) -> ShipState {
        if input.thrust {
            let push = binary32::nearest(18, 10);
            ShipState {
                vel_x: self.vel_x + heading.sin.negated() * push * dt,
                vel_y: self.vel_y + heading.cos * push * dt,
                ..self
            }
        } else {
            self
        }
    }

    /// The position after `dt` seconds, back on the screen.
    pub open spec fn moved(self, dt: Binary32, aspect: Binary32, tan: Binary32) -> ShipState {
        ShipState {
            pos_x: wrapped(self.pos_x + self.vel_x * dt, reach(tan) * aspect + wrap_margin()),
            pos_y: wrapped(self.pos_y + self.vel_y * dt, reach(tan) + wrap_margin()),
            ..self
        }
    }

    /// Turns the ship. `integrate` then asks for the sine and cosine of its angle.
    pub fn steer(&mut self, input: &InputState, dt: Binary32)
        ensures
            *final(self) == old(self).turned(*input, dt),
    {
        let turn: Binary32 = if input.turn_left == input.turn_right {
            Binary32::zero()
        } else if input.turn_left {
            Binary32::ratio(1, 1)
        } else {
            Binary32::ratio(1, 1).opposite()
        };
        self.angle = self.angle + turn * Binary32::ratio(35, 10) * dt;
    }

    /// Thrusts and moves the ship, once it was turned. `heading` is the sine and
    /// cosine of its angle, and `tan` the tangent of half of the field of view.
    pub fn integrate(
        &mut self,
        input: &InputState,
        dt: Binary32,
        aspect: Binary32,
        heading: Turn,
        tan: Binary32,
    )
        ensures
            *final(self) == old(self).pushed(*input, dt, heading).moved(dt, aspect, tan),
    {
        if input.thrust {
            let push: Binary32 = Binary32::ratio(18, 10);
            self.vel_x = self.vel_x + heading.sin.opposite() * push * dt;
            self.vel_y = self.vel_y + heading.cos * push * dt;
        }
        let margin: Binary32 = Binary32::ratio(15, 100);
        let half_h: Binary32 = Binary32::ratio(3, 1) * tan + margin;
        let half_w: Binary32 = Binary32::ratio(3, 1) * tan * aspect + margin;
        self.pos_x = wrap(self.pos_x + self.vel_x * dt, half_w);
        self.pos_y = wrap(self.pos_y + self.vel_y * dt, half_h);
    }
}

/// All that the live window needs to begin with.
#[derive(Clone, Copy, Debug)]
pub struct RenderOptions {
    /// `None` where the default of the mode applies.
    pub persistence: Option<Binary32>,
    pub scene: Scene,
    pub present_mode: Option<PresentModeArg>,
    pub scan_cfg: ScanConfig,
    /// The refresh rate of the display, where it is given (`--hw-hz`).
    pub hw_hz: Option<Binary32>,
    /// `None` for a gain of one for every subframe, up to 16.
    pub beam_gain: Option<Binary32>,
    pub scan_enabled: bool,
}

impl Default for RenderOptions {
    fn default() -> (r: RenderOptions)
        ensures
            r.persistence is None,
            r.scene == Scene::Cube,
            r.present_mode is None,
            r.scan_cfg.scan_hz == binary32::nearest(60, 1),
            r.scan_cfg.beams == 1,
            r.hw_hz is None,
            r.beam_gain is None,
            r.scan_enabled,
    {
        RenderOptions {
            persistence: None,
            scene: Scene::default(),
            present_mode: None,
            scan_cfg: ScanConfig::default(),
            hw_hz: None,
            beam_gain: None,
            scan_enabled: true,
        }
    }
}

/// The refresh rate that `--hw-hz` gives. The outer `None` stands for a value that
/// is no number.
pub open spec fn given_rate(words: Seq<Seq<char>>) -> Option<Option<Binary32>> {
    match cli::value_of(words, "--hw-hz"@) {
        None => Some(None),
        Some(v) => match decimal::parsed(v) {
            Some(hz) => Some(Some(hz)),
            None => None,
        },
    }
}

impl RenderOptions {
    /// The options of the live window for a command line. `--no-scan` turns scan mode
    /// off, and the board never runs with it. An error is a message for the user.
    pub fn from_cli(cli: &Cli, args: &[String]) -> (r: Result<RenderOptions, String>)
        ensures
            ({
                let words = cli::words(args@);
                match r {
                    Ok(options) => {
                        &&& given_rate(words) == Some(options.hw_hz)
                        &&& options.persistence == cli.persistence
                        &&& options.scene == cli.scene
                        &&& options.present_mode == cli.present_mode
                        &&& options.scan_cfg.scan_hz == binary32::nearest(60, 1)
                        &&& options.scan_cfg.beams == 1
                        &&& options.beam_gain is None
                        &&& options.scan_enabled == (cli.scene != Scene::Draw && !words.contains(
                            "--no-scan"@,
                        ))
                    },
                    Err(message) => {
                        &&& given_rate(words) is None
                        &&& message@ == cli::complaint(
                            "--hw-hz expects hertz"@,
                            cli::value_of(words, "--hw-hz"@)->0,
                        )
                    },
                }
            }),
    {
        let hw_hz: Option<Binary32> = match cli::flag_value(args, "--hw-hz") {
            None => None,
            Some(v) => match decimal::parse(v) {
                Some(hz) => Some(hz),
                None => {
                    return Err(cli::complain("--hw-hz expects hertz", v));
                },
            },
        };
        let scan_enabled: bool = cli.scene != Scene::Draw && !cli::flag_present(args, "--no-scan");
        Ok(
            RenderOptions {
                persistence: cli.persistence,
                scene: cli.scene,
                present_mode: cli.present_mode,
                scan_cfg: ScanConfig::default(),
                hw_hz,
                beam_gain: None,
                scan_enabled,
            },
        )
    }
}

/// The time constant of the phosphor in seconds: the one given, or the default. In
/// scan mode a stroke is lit in one subframe of a scan only, and a long trail would
/// smear the motion.
pub open spec fn time_constant(given: Option<Binary32>, scanning: bool) -> Binary32 {
    match given {
        Some(seconds) => seconds,
        None => if scanning {
            binary32::nearest(3, 1000)
        } else {
            binary32::nearest(1, 10)
        },
    }
}

pub fn persistence(given: Option<Binary32>, scanning: bool) -> (r: Binary32)
    ensures
        r == time_constant(given, scanning),
{
    match given {
        Some(seconds) => seconds,
        None => if scanning {
            Binary32::ratio(3, 1000)
        } else {
            Binary32::ratio(1, 10)
        },
    }
}

/// The exponent of the factor by which the picture fades in `dt` seconds, or `None`
/// where nothing persists and the factor is zero.
pub open spec fn fading(dt: Binary32, persistence: Binary32) -> Option<Binary32> {
    if binary32::signed(false, 0).below(persistence) {
        Some(dt.negated() / persistence)
    } else {
        None
    }
}

pub fn decay_exponent(dt: Binary32, persistence: Binary32) -> (r: Option<Binary32>)
    ensures
        r == fading(dt, persistence),
{
    if Binary32::zero().is_below(persistence) {
        Some(dt.opposite() / persistence)
    } else {
        None
    }
}

/// The exponent of a span of time that is not below zero, as a rounded quotient.
proof fn lemma_exponent(dt: Binary32, persistence: Binary32)
    requires
        dt.finite(),
        dt.value() >= 0,
        persistence.finite(),
        persistence.value() > 0,
    ensures
        fading(dt, persistence) is Some,
        ({
            let exponent = fading(dt, persistence)->0;
            let code = rounding::rounded(dt.units() * pow2(149), persistence.units());
            &&& exponent.code() == code
            &&& exponent.value() == -(rounding::units(code) as int)
        }),
{
    let num = dt.units() * pow2(149);
    binary32::lemma_units_order(0, dt.code());
    binary32::lemma_units_order(0, persistence.code());
    if dt.code() == 0 {
        assert(num == 0) by (nonlinear_arith)
            requires
                num == dt.units() * pow2(149),
                dt.units() == 0,
        ;
        order::law_rounding_keeps_sides(num, persistence.units(), 0);
    }
}

/// The exponents of a part of a span of time and of the whole of it: where that of the
/// whole is finite, so is that of the part.
proof fn lemma_exponent_of_part(part: Binary32, whole: Binary32, persistence: Binary32)
    requires
        part.finite(),
        0 <= part.value() <= whole.value(),
        whole.finite(),
        persistence.finite(),
        persistence.value() > 0,
        fading(whole, persistence)->0.finite(),
    ensures
        fading(part, persistence)->0.finite(),
{
    lemma_exponent(part, persistence);
    lemma_exponent(whole, persistence);
    binary32::lemma_units_order(0, part.code());
    binary32::lemma_units_order(0, whole.code());
    let a = part.units() * pow2(149);
    let b = whole.units() * pow2(149);
    assert(a <= b) by (nonlinear_arith)
        requires
            a == part.units() * pow2(149),
            b == whole.units() * pow2(149),
            part.units() <= whole.units(),
    ;
    order::law_rounding_is_monotone(a, b, persistence.units());
}

/// How far the exponent of a span of time is off the exact quotient.
proof fn lemma_exponent_error(dt: Binary32, persistence: Binary32)
    requires
        dt.finite(),
        dt.value() >= 0,
        persistence.finite(),
        persistence.value() > 0,
        fading(dt, persistence)->0.finite(),
    ensures
        ({
            let kept = fading(dt, persistence)->0.value() * persistence.value();
            let exact = dt.value() * pow2(149);
            &&& 0x100_0000 * (-kept - exact) <= exact + 0x80_0000 * persistence.value()
            &&& 0x100_0000 * (exact + kept) <= exact + 0x80_0000 * persistence.value()
        }),
{
    lemma_exponent(dt, persistence);
    binary32::lemma_units_order(0, dt.code());
    let num = dt.units() * pow2(149);
    let p = persistence.units();
    order::law_rounding_error(num, p);
    let e = rounding::units(rounding::rounded(num, p)) as int;
    assert((-e) * p == -(e * p)) by (nonlinear_arith);
}

/// The sum of three errors: those of the exponents `-x` of `a`, `-y` of `b` and `-z` of
/// `whole`, which is itself `a + b` within its error.
proof fn lemma_errors_add_up(x: int, y: int, z: int, a: int, b: int, whole: int, p: int)
    requires
        0x100_0000 * (-x - a) <= a + 0x80_0000 * p,
        0x100_0000 * (a + x) <= a + 0x80_0000 * p,
        0x100_0000 * (-y - b) <= b + 0x80_0000 * p,
        0x100_0000 * (b + y) <= b + 0x80_0000 * p,
        0x100_0000 * (-z - whole) <= whole + 0x80_0000 * p,
        0x100_0000 * (whole + z) <= whole + 0x80_0000 * p,
        0x200_0000 * (whole - (a + b)) <= 3 * (a + b),
        0x200_0000 * (a + b - whole) <= 3 * (a + b),
        a + b >= 0,
    ensures
        -(4 * (a + b) + 0x180_0000 * p) <= 0x100_0000 * (x + y - z) <= 4 * (a + b) + 0x180_0000
            * p,
{
}

/// The exponents of two spans add up to that of their sum where it is finite.
proof fn lemma_finite_exponents_add_up(a: Binary32, b: Binary32, persistence: Binary32)
    requires
        a.finite(),
        b.finite(),
        binary32::signed(false, 0).at_most(a),
        binary32::signed(false, 0).at_most(b),
        binary32::signed(false, 0).below(persistence),
        fading(a + b, persistence)->0.finite(),
    ensures
        fading(a, persistence) is Some && fading(a, persistence)->0.finite(),
        fading(b, persistence) is Some && fading(b, persistence)->0.finite(),
        ({
            let gap = fading(a, persistence)->0.value() + fading(b, persistence)->0.value()
                - fading(a + b, persistence)->0.value();
            let slack = 4 * ((a.value() + b.value()) * pow2(149)) + 0x180_0000
                * persistence.value();
            -slack <= 0x100_0000 * (gap * persistence.value()) <= slack
        }),
{
    let t = pow2(149);
    let p = persistence.value();
    lemma_pow2_pos(149);
    binary32::lemma_units_order(0, 0);
    let sum = a + b;
    let x = fading(a, persistence)->0.value();
    let y = fading(b, persistence)->0.value();
    let z = fading(sum, persistence)->0.value();
    let exact = (a.value() + b.value()) * t;
    assert(exact == a.value() * t + b.value() * t && exact >= 0) by (nonlinear_arith)
        requires
            exact == (a.value() + b.value()) * t,
            a.value() >= 0,
            b.value() >= 0,
            t > 0,
    ;
    order::law_sum_is_monotone(a, b, b);
    order::law_sum_is_monotone(b, a, a);
    assert(b + a == sum);
    if persistence.infinite() {
        assert((x + y - z) * p == 0) by (nonlinear_arith)
            requires
                x + y - z == 0,
        ;
    } else {
        lemma_exponent_of_part(a, sum, persistence);
        lemma_exponent_of_part(b, sum, persistence);
        lemma_exponent(a, persistence);
        lemma_exponent(b, persistence);
        lemma_exponent_error(a, persistence);
        lemma_exponent_error(b, persistence);
        lemma_exponent_error(sum, persistence);
        order::law_sum_error(a, b);
        let whole = sum.value() * t;
        assert(0x200_0000 * (whole - exact) <= 3 * exact && 0x200_0000 * (exact - whole) <= 3
            * exact) by (nonlinear_arith)
            requires
                exact == (a.value() + b.value()) * t,
                whole == sum.value() * t,
                0x200_0000 * (sum.value() - (a.value() + b.value())) <= 3 * (a.value()
                    + b.value()),
                0x200_0000 * ((a.value() + b.value()) - sum.value()) <= 3 * (a.value()
                    + b.value()),
                t > 0,
        ;
        assert((x + y - z) * p == x * p + y * p - z * p) by (nonlinear_arith);
        lemma_errors_add_up(x * p, y * p, z * p, a.value() * t, b.value() * t, whole, p);
    }
}

/// Where a span of time reaches `steep` times the persistence, its exponent reaches
/// `-steep`.
proof fn lemma_exponent_reaches(dt: Binary32, persistence: Binary32, steep: nat)
    requires
        dt.finite(),
        dt.value() >= 0,
        persistence.finite(),
        persistence.value() > 0,
        steep < INFINITE,
        rounding::units(steep) * persistence.value() <= dt.value() * pow2(149),
    ensures
        fading(dt, persistence)->0.value() <= -(rounding::units(steep) as int),
{
    lemma_exponent(dt, persistence);
    binary32::lemma_units_order(0, dt.code());
    let num = dt.units() * pow2(149);
    order::law_rounding_keeps_sides(num, persistence.units(), steep);
    binary32::lemma_units_order(steep, rounding::rounded(num, persistence.units()));
}

/// The magnitudes of 104, of two to the power 126, and of three and three and a half
/// times that.
proof fn lemma_steep_magnitudes()
    ensures
        rounding::units(0x42d0_0000) == 104 * pow2(149),
        rounding::units(0x7e80_0000) == pow2(126) * pow2(149),
        rounding::units(0x7f40_0000) == 3 * (pow2(126) * pow2(149)),
        2 * rounding::units(0x7f60_0000) == 7 * (pow2(126) * pow2(149)),
        pow2(126) * pow2(149) == 64 * (pow2(120) * pow2(149)),
{
    lemma2_to64();
    let t = pow2(149);
    lemma_pow2_adds(126, 149);
    lemma_pow2_adds(23, 252);
    lemma_pow2_adds(22, 253);
    lemma_pow2_adds(21, 253);
    lemma_pow2_adds(20, 132);
    lemma_pow2_adds(3, 149);
    lemma_pow2_adds(1, 274);
    lemma_pow2_adds(6, 120);
    assert(pow2(126) * t == 64 * (pow2(120) * t)) by (nonlinear_arith)
        requires
            pow2(126) == 64 * pow2(120),
    ;
    assert(rounding::units(0x42d0_0000) == 0xd0_0000 * pow2(132));
    assert(rounding::units(0x7e80_0000) == 0x80_0000 * pow2(252));
    assert(rounding::units(0x7f40_0000) == 0xc0_0000 * pow2(253));
    assert(rounding::units(0x7f60_0000) == 0xe0_0000 * pow2(253));
}

/// Where the exponent of a span is out of reach, the span exceeds three times two to the
/// power 126 times the persistence.
proof fn lemma_exponent_overflows(dt: Binary32, persistence: Binary32)
    requires
        dt.finite(),
        dt.value() >= 0,
        persistence.finite(),
        persistence.value() > 0,
        !fading(dt, persistence)->0.finite(),
    ensures
        fading(dt, persistence)->0.infinite(),
        fading(dt, persistence)->0.negative(),
        3 * (pow2(126) * pow2(149)) * persistence.value() < dt.value() * pow2(149),
{
    lemma_steep_magnitudes();
    lemma_exponent(dt, persistence);
    binary32::lemma_units_order(0, dt.code());
    binary32::lemma_units_order(0, INFINITE as nat);
    let num = dt.units() * pow2(149);
    order::law_rounding_keeps_sides(num, persistence.units(), 0x7f40_0000);
}

/// Where the sum of two spans is finite and its exponent is not, one of the spans has an
/// exponent of minus two to the power 126 at most.
proof fn lemma_steep_part(a: Binary32, b: Binary32, persistence: Binary32)
    requires
        a.finite(),
        b.finite(),
        a.value() >= b.value() >= 0,
        (a + b).finite(),
        persistence.finite(),
        persistence.value() > 0,
        !fading(a + b, persistence)->0.finite(),
    ensures
        fading(a + b, persistence)->0.infinite(),
        fading(a + b, persistence)->0.negative(),
        fading(a, persistence)->0.value() <= -(pow2(126) * pow2(149)),
{
    let sum = a + b;
    let t = pow2(149) as int;
    let p = persistence.value();
    let steep = (pow2(126) * pow2(149)) as int;
    lemma_pow2_pos(149);
    lemma_steep_magnitudes();
    order::law_sum_is_monotone(a, b, b);
    order::law_sum_error(a, b);
    lemma_exponent_overflows(sum, persistence);
    let x = a.value();
    let s = sum.value();
    assert(s <= 3 * x);
    assert(steep * p <= x * t) by (nonlinear_arith)
        requires
            3 * steep * p < s * t,
            s <= 3 * x,
            t > 0,
    ;
    lemma_exponent_reaches(a, persistence, 0x7e80_0000);
}

/// Where the sum of two spans is not finite and the persistence is no more than two to
/// the power 120, one of the spans has an exponent of -104 at most.
proof fn lemma_long_part(a: Binary32, b: Binary32, persistence: Binary32)
    requires
        a.finite(),
        b.finite(),
        a.value() >= b.value() >= 0,
        !(a + b).finite(),
        0 < persistence.value() <= pow2(120) * pow2(149),
        !persistence.nan(),
    ensures
        fading(a + b, persistence)->0.infinite(),
        fading(a + b, persistence)->0.negative(),
        fading(a, persistence)->0.value() <= -(104 * pow2(149)),
{
    let t = pow2(149) as int;
    let p = persistence.value();
    let top = INFINITE as nat;
    lemma_pow2_pos(149);
    lemma_pow2_pos(120);
    lemma_steep_magnitudes();
    binary32::lemma_units_order(persistence.code(), top);
    binary32::lemma_units_order(0x7e80_0000, top);
    let n = (a.value() + b.value()) as nat;
    order::law_rounding_keeps_sides(n, 1, 0x7f60_0000);
    order::law_rounding_keeps_sides(0, 1, 0);
    let x = a.value();
    assert(4 * x >= 7 * (pow2(126) * pow2(149)));
    assert((104 * t) * p <= x * t) by (nonlinear_arith)
        requires
            104 * p <= x,
            t > 0,
    ;
    lemma_exponent_reaches(a, persistence, 0x42d0_0000);
}

/// How much the picture fades does not depend on the frame rate.
///
/// Where nothing persists, all factors are zero. Else the exponents of two frames add up
/// to that of one frame of the same length, within four parts in two to the power 24 of
/// the exact exponent and one and a half of the least magnitudes. Where the one frame is
/// so long that its exponent is not finite, its factor is zero, and so is that of one of
/// the two: its exponent is minus two to the power 126 at most. Where the two are together
/// longer than any number, and the persistence is no more than two to the power 120, the
/// same holds with an exponent of -104, whose factor is below half of the least magnitude.
pub proof fn law_fading_adds_up(a: Binary32, b: Binary32, persistence: Binary32)
    requires
        a.finite(),
        b.finite(),
        binary32::signed(false, 0).at_most(a),
        binary32::signed(false, 0).at_most(b),
    ensures
        ({
            let lasting = binary32::signed(false, 0).below(persistence);
            &&& fading(a, persistence) is Some <==> lasting
            &&& fading(b, persistence) is Some <==> lasting
            &&& fading(a + b, persistence) is Some <==> lasting
        }),
        binary32::signed(false, 0).below(persistence) ==> ({
            let x = fading(a, persistence)->0;
            let y = fading(b, persistence)->0;
            let z = fading(a + b, persistence)->0;
            let gap = (x.value() + y.value() - z.value()) * persistence.value();
            let slack = 4 * ((a.value() + b.value()) * pow2(149)) + 0x180_0000
                * persistence.value();
            let steep = pow2(126) * pow2(149);
            let spent = 104 * pow2(149);
            &&& z.finite() ==> x.finite() && y.finite() && -slack <= 0x100_0000 * gap <= slack
            &&& (a + b).finite() && !z.finite() ==> {
                &&& z.infinite() && z.negative()
                &&& x.value() <= -steep || y.value() <= -steep
            }
            &&& !(a + b).finite() && persistence.value() <= pow2(120) * pow2(149) ==> {
                &&& z.infinite() && z.negative()
                &&& x.value() <= -spent || y.value() <= -spent
            }
        }),
{
    binary32::lemma_units_order(0, 0);
    assert(b + a == a + b);
    if binary32::signed(false, 0).below(persistence) {
        if fading(a + b, persistence)->0.finite() {
            lemma_finite_exponents_add_up(a, b, persistence);
        } else if (a + b).finite() {
            if b.value() <= a.value() {
                lemma_steep_part(a, b, persistence);
            } else {
                lemma_steep_part(b, a, persistence);
            }
        }
        if !(a + b).finite() && persistence.value() <= pow2(120) * pow2(149) {
            if b.value() <= a.value() {
                lemma_long_part(a, b, persistence);
            } else {
                lemma_long_part(b, a, persistence);
            }
        }
    }
}

/// How much brighter strokes are drawn in scan mode, since each is lit in one of `n`
/// subframes only: `n` times, but no more than 16 times.
pub open spec fn gain(given: Option<Binary32>, n: u32) -> Binary32 {
    match given {
        Some(gain) => gain,
        None => binary32::nearest(n as nat, 1).smaller(binary32::nearest(16, 1)),
    }
}

pub fn beam_gain(given: Option<Binary32>, n: u32) -> (r: Binary32)
    ensures
        r == gain(given, n),
{
    match given {
        Some(gain) => gain,
        None => Binary32::from_u64(n as u64).min(Binary32::ratio(16, 1)),
    }
}

/// The refresh rate of the display: the one given, that of the monitor in
/// thousandths of a hertz, or else 60.
pub open spec fn refresh_rate(given: Option<Binary32>, monitor: Option<u32>) -> Binary32 {
    match (given, monitor) {
        (Some(hz), _) => hz,
        (None, Some(mhz)) => binary32::nearest(mhz as nat, 1) / binary32::nearest(1000, 1),
        (None, None) => binary32::nearest(60, 1),
    }
}

pub fn hardware_rate(given: Option<Binary32>, monitor: Option<u32>) -> (r: Binary32)
    ensures
        r == refresh_rate(given, monitor),
{
    match given {
        Some(hz) => hz,
        None => match monitor {
            Some(mhz) => Binary32::from_u64(mhz as u64) / Binary32::ratio(1000, 1),
            None => Binary32::ratio(60, 1),
        },
    }
}

/// The size of the first surface: no side is ever zero.
pub fn surface_size(width: u32, height: u32) -> (r: (u32, u32))
    ensures
        r.0 == (if width == 0 {
            1
        } else {
            width
        }),
        r.1 == (if height == 0 {
            1
        } else {
            height
        }),
{
    let w: u32 = if width == 0 {
        1
    } else {
        width
    };
    let h: u32 = if height == 0 {
        1
    } else {
        height
    };
    (w, h)
}

/// The new size of the surface, or `None` where the window has no area and keeps
/// what it has.
pub fn resized(width: u32, height: u32) -> (r: Option<(u32, u32)>)
    ensures
        r == (if width == 0 || height == 0 {
            None
        } else {
            Some((width, height))
        }),
{
    if width == 0 || height == 0 {
        None
    } else {
        Some((width, height))
    }
}

/// Which of the formats of a surface is taken: the first that encodes its values as
/// sRGB, or else the first. `srgb` says of each whether it does.
pub fn preferred_format(srgb: &[bool]) -> (r: usize)
    requires
        srgb@.len() > 0,
    ensures
        r < srgb@.len(),
        forall|i: int| 0 <= i < r ==> !srgb@[i],
        srgb@[r as int] || (r == 0 && forall|i: int| 0 <= i < srgb@.len() ==> !srgb@[i]),
{
    let mut i: usize = 0;
    while i < srgb.len()
        invariant
            i <= srgb@.len(),
            forall|j: int| 0 <= j < i ==> !srgb@[j],
        decreases srgb@.len() - i,
    {
        if srgb[i] {
            return i;
        }
        i = i + 1;
    }
    0
}

/// What became of the request for the next frame of the surface.
#[derive(Clone, Copy, Debug, PartialEq, Eq, Structural)]
pub enum FrameStatus {
    Success,
    Suboptimal,
    Outdated,
    Lost,
    /// It timed out, or the window is hidden, or the request was wrong.
    Unavailable,
}

/// What is done with a frame.
#[derive(Clone, Copy, Debug, PartialEq, Eq, Structural)]
pub enum FrameAction {
    Draw,
    /// The surface is set up anew, and the frame is left out.
    Reconfigure,
    /// The frame is left out.
    Skip,
}

pub fn frame_action(status: FrameStatus) -> (r: FrameAction)
    ensures
        r == (match status {
            FrameStatus::Success | FrameStatus::Suboptimal => FrameAction::Draw,
            FrameStatus::Outdated | FrameStatus::Lost => FrameAction::Reconfigure,
            FrameStatus::Unavailable => FrameAction::Skip,
        }),
{
    match status {
        FrameStatus::Success | FrameStatus::Suboptimal => FrameAction::Draw,
        FrameStatus::Outdated | FrameStatus::Lost => FrameAction::Reconfigure,
        FrameStatus::Unavailable => FrameAction::Skip,
    }
}

/// The width of a picture over its height.
pub open spec fn ratio_of_sides(width: u32, height: u32) -> Binary32 {
    binary32::nearest(width as nat, 1) / binary32::nearest(height as nat, 1)
}

pub fn aspect(width: u32, height: u32) -> (r: Binary32)
    ensures
        r == ratio_of_sides(width, height),
{
    Binary32::from_u64(width as u64) / Binary32::from_u64(height as u64)
}

/// What the shader of the beam reads for a frame of the window.
pub fn live_uniforms(
    mvp: [Binary32; 16],
    width: u32,
    height: u32,
    scanning: bool,
    gain: Binary32,
) -> (r: BeamUniforms)
    ensures
        r.mvp == mvp,
        r.resolution@ == seq![
            binary32::nearest(width as nat, 1),
            binary32::nearest(height as nat, 1),
        ],
        r.base_width == binary32::nearest(6, 1),
        r.brightness == (if scanning {
            gain
        } else {
            binary32::nearest(1, 1)
        }),
{
    let resolution: [Binary32; 2] = [
        Binary32::from_u64(width as u64),
        Binary32::from_u64(height as u64),
    ];
    proof {
        assert(resolution@ =~= seq![
            binary32::nearest(width as nat, 1),
            binary32::nearest(height as nat, 1),
        ]);
    }
    BeamUniforms {
        mvp,
        resolution,
        base_width: Binary32::ratio(6, 1),
        brightness: if scanning {
            gain
        } else {
            Binary32::ratio(1, 1)
        },
    }
}

/// What the shader of the beam reads for a picture: its strokes are a little wider,
/// for the higher resolution.
pub fn still_uniforms(mvp: [Binary32; 16], width: u32, height: u32) -> (r: BeamUniforms)
    ensures
        r.mvp == mvp,
        r.resolution@ == seq![
            binary32::nearest(width as nat, 1),
            binary32::nearest(height as nat, 1),
        ],
        r.base_width == binary32::nearest(8, 1),
        r.brightness == binary32::nearest(1, 1),
{
    let live: BeamUniforms = live_uniforms(mvp, width, height, false, Binary32::zero());
    BeamUniforms { base_width: Binary32::ratio(8, 1), ..live }
}

/// The ranges of instances that a frame draws: in scan mode those of the scheduler,
/// and else all `count` at once.
pub fn frame_ranges(
    scanning: bool,
    scheduler: &mut ScanScheduler,
    elapsed: Binary32,
    count: u32,
) -> (r: Vec<Range<u32>>)
    requires
        old(scheduler).wf(),
    ensures
        !scanning ==> final(scheduler)@ == old(scheduler)@ && r@ == seq![
            Range { start: 0u32, end: count },
        ],
        scanning ==> ({
            let v = old(scheduler)@;
            let current = binary32::product_whole(elapsed, v.scan_hz, v.n) as u64;
            if v.last is Some && current <= v.last->0 {
                &&& r@ == Seq::<Range<u32>>::empty()
                &&& final(scheduler)@ == v
            } else {
                let first = scan::first_window(v.last, current, v.n);
                &&& r@ == scan::window_ranges(
                    v.buckets,
                    v.n as nat,
                    first,
                    (current + 1 - first) as nat,
                )
                &&& final(scheduler)@ == (scan::Schedule { last: Some(current), ..v })
            }
        }),
{
    let mut r: Vec<Range<u32>> = Vec::new();
    if scanning {
        scheduler.ranges(elapsed, &mut r);
        proof {
            let v = old(scheduler)@;
            let current = binary32::product_whole(elapsed, v.scan_hz, v.n) as u64;
            let first = scan::first_window(v.last, current, v.n);
            let drawn = scan::window_ranges(
                v.buckets,
                v.n as nat,
                first,
                (current + 1 - first) as nat,
            );
            assert(Seq::<Range<u32>>::empty() + drawn =~= drawn);
        }
    } else {
        r.push(Range { start: 0, end: count });
        proof {
            assert(r@ =~= seq![Range { start: 0u32, end: count }]);
        }
    }
    r
}

/// What the live window keeps from frame to frame.
pub struct FrameState {
    scene: Scene,
    ship: ShipState,
    scan: ScanScheduler,
    scan_enabled: bool,
    beam_gain: Binary32,
    persistence: Option<Binary32>,
    instance_count: u32,
}

/// What a `FrameState` holds.
#[verifier::ext_equal]
pub struct Playing {
    pub scene: Scene,
    pub ship: ShipState,
    pub scan: scan::Schedule,
    pub scanning: bool,
    pub gain: Binary32,
    pub persistence: Option<Binary32>,
    /// The number of instances in the buffer.
    pub count: u32,
}

impl View for FrameState {
    type V = Playing;

    closed spec fn view(&self) -> Playing {
        Playing {
            scene: self.scene,
            ship: self.ship,
            scan: self.scan@,
            scanning: self.scan_enabled,
            gain: self.beam_gain,
            persistence: self.persistence,
            count: self.instance_count,
        }
    }
}

impl Playing {
    /// The scheduler covers the instances in the buffer, and the board does not scan.
    pub open spec fn wf(self) -> bool {
        &&& self.scan.covers(self.count as nat)
        &&& self.scanning ==> self.scene != Scene::Draw
    }

    /// The ranges of instances that a frame at `elapsed` seconds draws.
    pub open spec fn drawn(self, elapsed: Binary32) -> Seq<Range<u32>> {
        let v = self.scan;
        let current = binary32::product_whole(elapsed, v.scan_hz, v.n) as u64;
        if !self.scanning {
            seq![Range { start: 0u32, end: self.count }]
        } else if v.last is Some && current <= v.last->0 {
            Seq::empty()
        } else {
            let first = scan::first_window(v.last, current, v.n);
            scan::window_ranges(v.buckets, v.n as nat, first, (current + 1 - first) as nat)
        }
    }

    /// What is held once a frame at `elapsed` seconds was drawn.
    pub open spec fn after(self, elapsed: Binary32) -> Playing {
        let v = self.scan;
        let current = binary32::product_whole(elapsed, v.scan_hz, v.n) as u64;
        if !self.scanning || (v.last is Some && current <= v.last->0) {
            self
        } else {
            Playing { scan: scan::Schedule { last: Some(current), ..v }, ..self }
        }
    }
}

impl FrameState {
    /// The state before the first frame. `segments` are those that the buffer begins
    /// with, and `hw_hz` is the refresh rate of the display.
    pub fn new(opts: &RenderOptions, segments: &[Segment], hw_hz: Binary32) -> (r: FrameState)
        ensures
            r@.wf(),
            r@.scene == opts.scene,
            r@.ship.angle == binary32::signed(false, 0),
            r@.ship.vel_x == binary32::signed(false, 0),
            r@.ship.vel_y == binary32::signed(false, 0),
            r@.ship.pos_x == binary32::signed(false, 0),
            r@.ship.pos_y == binary32::signed(false, 0),
            r@.scan.n == scan::subframes(hw_hz, opts.scan_cfg.scan_hz),
            r@.scan.scan_hz == opts.scan_cfg.scan_hz,
            r@.scan.beams == (if opts.scan_cfg.beams == 0 {
                1
            } else {
                opts.scan_cfg.beams
            }),
            r@.scan.last is None,
            r@.scan.slices(scan::scheduled(segments@)),
            r@.scanning == (opts.scan_enabled && opts.scene != Scene::Draw),
            r@.gain == gain(opts.beam_gain, r@.scan.n),
            r@.persistence == opts.persistence,
            r@.count == scan::scheduled(segments@).len(),
    {
        let scan: ScanScheduler = ScanScheduler::new(segments, opts.scan_cfg, hw_hz);
        let gain: Binary32 = beam_gain(opts.beam_gain, scan.subframes());
        let count: u32 = (segments.len() as u64 % 0x1_0000_0000) as u32;
        FrameState {
            scene: opts.scene,
            ship: ShipState::default(),
            scan,
            scan_enabled: opts.scan_enabled && opts.scene != Scene::Draw,
            beam_gain: gain,
            persistence: opts.persistence,
            instance_count: count,
        }
    }

    /// The number of subframes of a scan.
    pub fn subframes(&self) -> (n: u32)
        ensures
            n == self@.scan.n,
    {
        self.scan.subframes()
    }

    /// The number of instances in the buffer.
    pub fn instance_count(&self) -> (n: u32)
        ensures
            n == self@.count,
    {
        self.instance_count
    }

    /// How much brighter strokes are drawn in scan mode.
    pub fn gain(&self) -> (r: Binary32)
        ensures
            r == self@.gain,
    {
        self.beam_gain
    }

    /// The exponent of the factor by which the picture fades in `dt` seconds, or
    /// `None` where the factor is zero.
    pub fn fade(&self, dt: Binary32) -> (r: Option<Binary32>)
        ensures
            r == fading(dt, time_constant(self@.persistence, self@.scanning)),
    {
        decay_exponent(dt, persistence(self.persistence, self.scan_enabled))
    }

    /// Whether the segments are made anew for every frame, and handed to `morph`.
    pub fn morphs(&self) -> (r: bool)
        ensures
            r == (self@.scene == Scene::Lissajous),
    {
        self.scene.animated()
    }

    /// Takes in the new segments of a scene that morphs. Their number never changes.
    pub fn morph(&mut self, segments: &[Segment])
        requires
            old(self)@.wf(),
            scan::scheduled(segments@).len() == old(self)@.count,
        ensures
            final(self)@.wf(),
            final(self)@.scan.slices(scan::scheduled(segments@)),
            final(self)@ == (Playing { scan: final(self)@.scan, ..old(self)@ }),
            final(self)@.scan.n == old(self)@.scan.n,
            final(self)@.scan.scan_hz == old(self)@.scan.scan_hz,
            final(self)@.scan.beams == old(self)@.scan.beams,
            final(self)@.scan.last == old(self)@.scan.last,
    {
        self.scan.rebuild(segments);
    }

    /// Turns scan mode on or off. The scan begins anew, so that windows from before are
    /// not made up for. The board never scans.
    pub fn toggle_scan(&mut self)
        ensures
            final(self)@ == (if old(self)@.scene == Scene::Draw {
                old(self)@
            } else {
                Playing {
                    scanning: !old(self)@.scanning,
                    scan: scan::Schedule { last: None, ..old(self)@.scan },
                    ..old(self)@
                }
            }),
            old(self)@.wf() ==> final(self)@.wf(),
    {
        if matches!(self.scene, Scene::Draw) {
            return;
        }
        self.scan_enabled = !self.scan_enabled;
        self.scan.reset();
    }

    /// Whether the controls fly the ship, by `steer` and `fly`.
    pub fn flies(&self) -> (r: bool)
        ensures
            r == (self@.scene == Scene::Ship),
    {
        matches!(self.scene, Scene::Ship)
    }

    /// The ship.
    pub fn ship(&self) -> (r: ShipState)
        ensures
            r == self@.ship,
    {
        self.ship
    }

    /// Turns the ship.
    pub fn steer(&mut self, input: &InputState, dt: Binary32)
        ensures
            final(self)@ == (Playing {
                ship: old(self)@.ship.turned(*input, dt),
                ..old(self)@
            }),
    {
        let mut ship: ShipState = self.ship;
        ship.steer(input, dt);
        self.ship = ship;
    }

    /// Thrusts and moves the ship, once it was turned.
    pub fn fly(
        &mut self,
        input: &InputState,
        dt: Binary32,
        aspect: Binary32,
        heading: Turn,
        tan: Binary32,
    )
        ensures
            final(self)@ == (Playing {
                ship: old(self)@.ship.pushed(*input, dt, heading).moved(dt, aspect, tan),
                ..old(self)@
            }),
    {
        let mut ship: ShipState = self.ship;
        ship.integrate(input, dt, aspect, heading, tan);
        self.ship = ship;
    }

    /// What the shader of the beam reads for a frame.
    pub fn uniforms(&self, mvp: [Binary32; 16], width: u32, height: u32) -> (r: BeamUniforms)
        ensures
            r.mvp == mvp,
            r.resolution@ == seq![
                binary32::nearest(width as nat, 1),
                binary32::nearest(height as nat, 1),
            ],
            r.base_width == binary32::nearest(6, 1),
            r.brightness == (if self@.scanning {
                self@.gain
            } else {
                binary32::nearest(1, 1)
            }),
    {
        live_uniforms(mvp, width, height, self.scan_enabled, self.beam_gain)
    }

    /// The ranges of instances that a frame at `elapsed` seconds draws; none goes
    /// beyond the instances in the buffer.
    pub fn ranges(&mut self, elapsed: Binary32) -> (r: Vec<Range<u32>>)
        requires
            old(self)@.wf(),
        ensures
            r@ == old(self)@.drawn(elapsed),
            final(self)@ == old(self)@.after(elapsed),
            final(self)@.wf(),
            forall|j: int| 0 <= j < r@.len() ==> (#[trigger] r@[j]).end <= old(self)@.count,
    {
        let r: Vec<Range<u32>> = frame_ranges(
            self.scan_enabled,
            &mut self.scan,
            elapsed,
            self.instance_count,
        );
        proof {
            let p = old(self)@;
            let v = p.scan;
            let current = binary32::product_whole(elapsed, v.scan_hz, v.n) as u64;
            if p.scanning && !(v.last is Some && current <= v.last->0) {
                let first = scan::first_window(v.last, current, v.n);
                let count = (current + 1 - first) as nat;
                assert forall|j: int| 0 <= j < r@.len() implies (#[trigger] r@[j]).end
                    <= p.count by {
                    scan::law_ranges_stay_in_the_list(v, p.count as nat, first, count, j);
                }
            }
        }
        r
    }
}

/// The time of the scene that a picture shows, in seconds.
pub fn capture_time() -> (r: Binary32)
    ensures
        r == binary32::nearest(26, 10),
{
    Binary32::ratio(26, 10)
}

/// A present mode that was asked for is honoured where the surface offers it, and
/// the choice is always one that the surface offers, or fifo.
pub proof fn law_present_mode_is_offered(
    supported: Seq<wgpu::PresentMode>,
    requested: Option<PresentModeArg>,
)
    ensures
        requested matches Some(request) ==> supported.contains(request.mode()) ==> best_mode(
            supported,
            requested,
        ) == request.mode(),
        supported.contains(best_mode(supported, requested)) || best_mode(supported, requested)
            == wgpu::PresentMode::Fifo,
{
}

/// Within one screen beyond either edge, wrapping brings a position back between the
/// edges.
pub proof fn law_wrapping_comes_back(x: Binary32, half: Binary32)
    requires
        x.finite(),
        half.finite(),
        !half.negative(),
        (binary32::nearest(2, 1) * half).finite(),
        -3 * half.value() <= x.value() <= 3 * half.value(),
    ensures
        half.negated().at_most(wrapped(x, half)),
        wrapped(x, half).at_most(half),
{
    let two = binary32::nearest(2, 1);
    let both = two * half;
    lemma_doubled(half);
    assert(both.value() == 2 * half.value());
    if half.below(x) {
        order::law_sum_between(x, both.negated(), half.negated(), half);
    } else if x.below(half.negated()) {
        order::law_sum_between(x, both, half.negated(), half);
    }
}

/// Twice a number is exact, where it is a number.
proof fn lemma_doubled(x: Binary32)
    requires
        x.finite(),
        !x.negative(),
        (binary32::nearest(2, 1) * x).finite(),
    ensures
        (binary32::nearest(2, 1) * x).units() == 2 * x.units(),
        !(binary32::nearest(2, 1) * x).negative(),
{
    let two = binary32::nearest(2, 1);
    order::law_nearest_is_exact(2, 1, 2, 149);
    order::lemma_size_of_count(two, 2, 149);
    order::lemma_sign(two, 2, 149);
    order::law_double_is_exact(x.code());
    let t = pow2(149);
    lemma_pow2_pos(149);
    let num = two.units() * x.units();
    assert(num == (2 * x.units()) * t) by (nonlinear_arith)
        requires
            num == (2 * t) * x.units(),
    ;
    order::lemma_whole_units(2 * x.units(), t);
}

/// After scan mode was turned off and on, the next frame draws its own window and no
/// other, however long it was off.
pub proof fn law_toggling_does_not_catch_up(p: Playing, elapsed: Binary32)
    requires
        p.wf(),
        p.scanning,
        p.scan.last is None,
    ensures
        ({
            let v = p.scan;
            let current = binary32::product_whole(elapsed, v.scan_hz, v.n) as u64;
            p.drawn(elapsed) == scan::subframe_ranges(
                v.buckets,
                (current % v.n as u64) as int,
                v.buckets.len(),
            )
        }),
{
    let v = p.scan;
    let current = binary32::product_whole(elapsed, v.scan_hz, v.n) as u64;
    reveal_with_fuel(scan::window_ranges, 2);
    let k = (current % v.n as u64) as int;
    assert(Seq::<Range<u32>>::empty() + scan::subframe_ranges(v.buckets, k, v.buckets.len())
        =~= scan::subframe_ranges(v.buckets, k, v.buckets.len()));
}

/// No side of a surface is ever zero, and sides that are not are kept.
pub proof fn law_surfaces_have_an_area(width: u32, height: u32, r: (u32, u32))
    requires
        call_ensures(surface_size, (width, height), r),
    ensures
        r.0 >= 1 && r.1 >= 1,
        width > 0 ==> r.0 == width,
        height > 0 ==> r.1 == height,
        r.0 <= width + 1 && r.1 <= height + 1,
{
}

/// A resize to no area is ignored, and every other is followed.
pub proof fn law_resizes_are_followed(width: u32, height: u32, r: Option<(u32, u32)>)
    requires
        call_ensures(resized, (width, height), r),
    ensures
        r is None <==> width * height == 0,
        r matches Some(size) ==> size.0 == width && size.1 == height,
{
    if width > 0 && height > 0 {
        assert(width * height > 0) by (nonlinear_arith)
            requires
                width > 0,
                height > 0,
        ;
    } else {
        assert(width * height == 0) by (nonlinear_arith)
            requires
                width == 0 || height == 0,
        ;
    }
}

/// A frame is drawn where the surface gave one, and the surface is set up anew exactly
/// where that can help.
pub proof fn law_frames_that_came_are_drawn(status: FrameStatus, r: FrameAction)
    requires
        call_ensures(frame_action, (status,), r),
    ensures
        r == FrameAction::Draw <==> status == FrameStatus::Success || status
            == FrameStatus::Suboptimal,
        r == FrameAction::Reconfigure <==> status == FrameStatus::Outdated || status
            == FrameStatus::Lost,
        r == FrameAction::Skip <==> status == FrameStatus::Unavailable,
{
}

/// Where the mode asked for is not offered, or none is, the mode with the least delay is
/// taken: no mode that waits less is left aside. A name stands for the mode that it names.
pub proof fn law_least_delay_is_taken(
    supported: Seq<wgpu::PresentMode>,
    requested: Option<PresentModeArg>,
)
    requires
        requested matches Some(request) ==> !supported.contains(request.mode()),
    ensures
        supported.contains(wgpu::PresentMode::Immediate) ==> best_mode(supported, requested)
            == wgpu::PresentMode::Immediate,
        best_mode(supported, requested) == wgpu::PresentMode::Mailbox ==> !supported.contains(
            wgpu::PresentMode::Immediate,
        ),
        best_mode(supported, requested) == wgpu::PresentMode::Fifo ==> !supported.contains(
            wgpu::PresentMode::Immediate,
        ) && !supported.contains(wgpu::PresentMode::Mailbox),
        supported.len() == 0 ==> best_mode(supported, requested) == wgpu::PresentMode::Fifo,
        PresentModeArg::Immediate.mode() == wgpu::PresentMode::Immediate,
        PresentModeArg::Mailbox.mode() == wgpu::PresentMode::Mailbox,
        PresentModeArg::Fifo.mode() == wgpu::PresentMode::Fifo,
{
    if supported.len() == 0 {
        assert(!supported.contains(wgpu::PresentMode::Immediate));
        assert(!supported.contains(wgpu::PresentMode::Mailbox));
    }
}

/// A key holds its control while it is pressed, and touches no other. An arrow and its
/// letter do the same; all other keys do nothing. Of two presses of different controls
/// the order does not count.
pub proof fn law_keys_hold_their_controls(
    input: InputState,
    key: winit::keyboard::KeyCode,
    other: winit::keyboard::KeyCode,
    pressed: bool,
)
    ensures
        ({
            let left = key == winit::keyboard::KeyCode::ArrowLeft || key
                == winit::keyboard::KeyCode::KeyA;
            let right = key == winit::keyboard::KeyCode::ArrowRight || key
                == winit::keyboard::KeyCode::KeyD;
            let up = key == winit::keyboard::KeyCode::ArrowUp || key
                == winit::keyboard::KeyCode::KeyW;
            let now = input.after(key, pressed);
            &&& now.turn_left == (if left { pressed } else { input.turn_left })
            &&& now.turn_right == (if right { pressed } else { input.turn_right })
            &&& now.thrust == (if up { pressed } else { input.thrust })
        }),
        input.after(key, true).after(key, pressed) == input.after(key, pressed),
        input.after(key, pressed).after(other, pressed) == input.after(other, pressed).after(
            key,
            pressed,
        ),
{
}

/// Scan mode is toggled once for a press of S, however long the key is held.
pub proof fn law_one_key_toggles_scan(
    key: winit::keyboard::KeyCode,
    pressed: bool,
    repeated: bool,
    r: bool,
)
    requires
        call_ensures(toggles_scan, (key, pressed, repeated), r),
    ensures
        r ==> pressed && !repeated && key == winit::keyboard::KeyCode::KeyS,
        key == winit::keyboard::KeyCode::KeyS && pressed && !repeated ==> r,
{
}

/// The ship goes where its momentum takes it. Only beyond the edge, which is 0.15 outside
/// of what is seen, it comes back, and then a whole screen away. Neither its angle nor its
/// velocity change on the way.
pub proof fn law_ship_wraps_at_the_edges(
    ship: ShipState,
    dt: Binary32,
    aspect: Binary32,
    tan: Binary32,
)
    ensures
        ({
            let now = ship.moved(dt, aspect, tan);
            let x = ship.pos_x + ship.vel_x * dt;
            let y = ship.pos_y + ship.vel_y * dt;
            let margin = binary32::nearest(15, 100);
            let wide = binary32::nearest(3, 1) * tan * aspect + margin;
            let tall = binary32::nearest(3, 1) * tan + margin;
            &&& wide.negated().at_most(x) && x.at_most(wide) ==> now.pos_x == x
            &&& tall.negated().at_most(y) && y.at_most(tall) ==> now.pos_y == y
            &&& wide.below(x) ==> now.pos_x == x - (wide + wide)
            &&& tall.below(y) ==> now.pos_y == y - (tall + tall)
            &&& x.below(wide.negated()) && !wide.below(x) ==> now.pos_x == x + (wide + wide)
            &&& y.below(tall.negated()) && !tall.below(y) ==> now.pos_y == y + (tall + tall)
            &&& now.angle == ship.angle
            &&& now.vel_x == ship.vel_x
            &&& now.vel_y == ship.vel_y
        }),
{
    let margin = binary32::nearest(15, 100);
    let wide = binary32::nearest(3, 1) * tan * aspect + margin;
    let tall = binary32::nearest(3, 1) * tan + margin;
    lemma_twice(wide);
    lemma_twice(tall);
}

/// Twice a number is the number added to itself.
proof fn lemma_twice(x: Binary32)
    ensures
        !x.nan() ==> binary32::nearest(2, 1) * x == x + x,
{
    let two = binary32::nearest(2, 1);
    let t = pow2(149);
    lemma_pow2_pos(149);
    order::law_nearest_is_exact(2, 1, 2, 149);
    order::lemma_size_of_count(two, 2, 149);
    order::lemma_sign(two, 2, 149);
    binary32::lemma_units_order(x.code(), 0);
    binary32::lemma_units_order(two.code(), 0);
    binary32::lemma_units_order(0, 0);
    if x.finite() {
        let num = two.units() * x.units();
        assert(num == (2 * x.units()) * t) by (nonlinear_arith)
            requires
                num == (2 * t) * x.units(),
        ;
        order::lemma_whole_units(2 * x.units(), t);
        if x.code() == 0 {
            order::lemma_rounded_units(0, 1);
        }
    }
}

/// A ship that is seen after its step is where its momentum took it: the wrap moves no
/// ship on the screen, whatever the shape of the window.
pub proof fn law_ship_on_screen_is_not_moved(
    ship: ShipState,
    dt: Binary32,
    aspect: Binary32,
    tan: Binary32,
)
    requires
        ({
            let x = ship.pos_x + ship.vel_x * dt;
            let y = ship.pos_y + ship.vel_y * dt;
            let wide = binary32::nearest(3, 1) * tan * aspect;
            let tall = binary32::nearest(3, 1) * tan;
            &&& !x.nan() && !y.nan() && !wide.nan() && !tall.nan()
            &&& -wide.value() <= x.value() <= wide.value()
            &&& -tall.value() <= y.value() <= tall.value()
        }),
    ensures
        ship.moved(dt, aspect, tan).pos_x == ship.pos_x + ship.vel_x * dt,
        ship.moved(dt, aspect, tan).pos_y == ship.pos_y + ship.vel_y * dt,
{
    let wide = binary32::nearest(3, 1) * tan * aspect;
    let tall = binary32::nearest(3, 1) * tan;
    let margin = binary32::nearest(15, 100);
    lemma_margin();
    order::law_sum_is_monotone(wide, margin, margin);
    order::law_sum_is_monotone(tall, margin, margin);
    law_ship_wraps_at_the_edges(ship, dt, aspect, tan);
    order::lemma_signed(true, (wide + margin).code());
    order::lemma_signed(true, (tall + margin).code());
    order::law_opposites(wide + margin, margin);
    order::law_opposites(tall + margin, margin);
}

/// The margin is a number above zero.
proof fn lemma_margin()
    ensures
        binary32::nearest(15, 100).finite(),
        binary32::nearest(15, 100).value() > 0,
{
    let t = pow2(149);
    lemma_pow2_pos(149);
    lemma2_to64();
    lemma_pow2_adds(8, 141);
    let one = binary32::nearest(1, 1);
    order::law_nearest_is_exact(1, 1, 1, 149);
    order::lemma_size_of_count(one, 1, 149);
    order::law_rounding_keeps_sides(15 * t, 100, one.code());
    order::law_rounding_keeps_sides(15 * t, 100, 1);
    lemma_pow2_pos(141);
    binary32::lemma_units_order(binary32::nearest(15, 100).code(), 0);
}

/// The ship is never lost: after a step that takes it no more than a screen beyond an
/// edge, it lies within 0.15 of what is seen.
pub proof fn law_ship_stays_within_the_edges(
    ship: ShipState,
    dt: Binary32,
    aspect: Binary32,
    tan: Binary32,
)
    requires
        ({
            let x = ship.pos_x + ship.vel_x * dt;
            let y = ship.pos_y + ship.vel_y * dt;
            let wide = binary32::nearest(3, 1) * tan * aspect + binary32::nearest(15, 100);
            let tall = binary32::nearest(3, 1) * tan + binary32::nearest(15, 100);
            &&& x.finite() && y.finite()
            &&& wide.finite() && !wide.negative() && (wide + wide).finite()
            &&& tall.finite() && !tall.negative() && (tall + tall).finite()
            &&& -3 * wide.value() <= x.value() <= 3 * wide.value()
            &&& -3 * tall.value() <= y.value() <= 3 * tall.value()
        }),
    ensures
        ({
            let now = ship.moved(dt, aspect, tan);
            let wide = binary32::nearest(3, 1) * tan * aspect + binary32::nearest(15, 100);
            let tall = binary32::nearest(3, 1) * tan + binary32::nearest(15, 100);
            &&& -wide.value() <= now.pos_x.value() <= wide.value()
            &&& -tall.value() <= now.pos_y.value() <= tall.value()
            &&& !now.pos_x.nan() && !now.pos_y.nan()
        }),
{
    let wide = binary32::nearest(3, 1) * tan * aspect + binary32::nearest(15, 100);
    let tall = binary32::nearest(3, 1) * tan + binary32::nearest(15, 100);
    lemma_twice(wide);
    lemma_twice(tall);
    order::law_opposites(wide, tall);
    order::law_opposites(tall, wide);
    law_wrapping_comes_back(ship.pos_x + ship.vel_x * dt, wide);
    law_wrapping_comes_back(ship.pos_y + ship.vel_y * dt, tall);
}

/// The ship turns by 3.5 radians a second, to the left where the angle grows, and not at
/// all where both or neither of the keys are held. Nothing else changes.
pub proof fn law_ship_turns_evenly(ship: ShipState, input: InputState, dt: Binary32)
    requires
        ship.angle.finite(),
        dt.finite(),
    ensures
        ({
            let now = ship.turned(input, dt);
            let turn = binary32::nearest(7, 2) * dt;
            &&& input.turn_left && !input.turn_right ==> now.angle == ship.angle + turn
            &&& input.turn_right && !input.turn_left ==> now.angle == ship.angle
                + turn.negated()
            &&& input.turn_left == input.turn_right ==> now.angle.value() == ship.angle.value()
                && now.angle.finite()
            &&& now.vel_x == ship.vel_x && now.vel_y == ship.vel_y
            &&& now.pos_x == ship.pos_x && now.pos_y == ship.pos_y
        }),
{
    let t = pow2(149);
    lemma_pow2_pos(149);
    lemma_pow2_unfold(149);
    let rate = binary32::nearest(35, 10);
    let zero = binary32::signed(false, 0);
    order::law_nearest_is_exact(35, 10, 7, 148);
    order::law_nearest_is_exact(7, 2, 7, 148);
    lemma_same_count(rate, binary32::nearest(7, 2));
    order::law_neutral_elements(rate, zero);
    order::law_neutral_elements(dt, zero * rate);
    order::law_neutral_elements(ship.angle, zero * rate * dt);
    order::law_opposites(rate, dt);
}

/// Two numbers of the same sign and magnitude are the same.
proof fn lemma_same_count(a: Binary32, b: Binary32)
    requires
        a.value() == b.value(),
        a.negative() == b.negative(),
    ensures
        a == b,
{
    binary32::lemma_units_order(a.code(), b.code());
}

/// The thrust pushes by 1.8 units per second each second the way that the ship points, up
/// at the angle zero and to the left from there as the angle grows. Without thrust the
/// velocity stays as it is: there is no drag. Nothing else changes.
pub proof fn law_thrust_pushes_ahead(
    ship: ShipState,
    input: InputState,
    dt: Binary32,
    heading: Turn,
)
    ensures
        ({
            let now = ship.pushed(input, dt, heading);
            let flipped = ShipState { vel_x: ship.vel_x.negated(), ..ship };
            let mirrored = Turn { sin: heading.sin.negated(), ..heading };
            &&& !input.thrust ==> now == ship
            &&& input.thrust ==> {
                &&& now.vel_y == ship.vel_y + heading.cos * binary32::nearest(9, 5) * dt
                &&& now.vel_x == ship.vel_x + (heading.sin.negated() * binary32::nearest(9, 5))
                    * dt
            }
            &&& now.angle == ship.angle
            &&& now.pos_x == ship.pos_x && now.pos_y == ship.pos_y
            &&& flipped.pushed(input, dt, mirrored).vel_y == now.vel_y
        }),
{
    let t = pow2(149);
    lemma_pow2_pos(149);
    order::lemma_same_ratio(18 * t, 10, 9 * t, 5, 2);
}

/// A persistence that is given is the time constant in use, in either mode. Where none is
/// given, trails are shorter in scan mode: three thousandths of a second, and a tenth of
/// a second without.
pub proof fn law_given_persistence_counts(seconds: Binary32, scanning: bool)
    ensures
        time_constant(Some(seconds), scanning) == seconds,
        time_constant(None, true) == binary32::nearest(3, 1000),
        time_constant(None, false) == binary32::nearest(1, 10),
        time_constant(None, true).below(time_constant(None, false)),
{
    let t = pow2(149);
    lemma_pow2_pos(149);
    let mid = binary32::nearest(1, 64);
    lemma2_to64();
    lemma_pow2_adds(6, 143);
    order::law_nearest_is_exact(1, 64, 1, 143);
    order::lemma_size_of_count(mid, 1, 143);
    order::law_rounding_keeps_sides(3 * t, 1000, mid.code());
    order::law_rounding_keeps_sides(1 * t, 10, mid.code() + 1);
    let low = binary32::nearest(3, 1000);
    let high = binary32::nearest(1, 10);
    let one = binary32::nearest(1, 1);
    order::law_nearest_is_exact(1, 1, 1, 149);
    order::lemma_size_of_count(one, 1, 149);
    order::law_rounding_keeps_sides(1 * t, 10, one.code());
    let next = binary32::nearest(1, 32);
    lemma_pow2_adds(5, 144);
    order::law_nearest_is_exact(1, 32, 1, 144);
    order::lemma_size_of_count(next, 1, 144);
    order::law_rounding_keeps_sides(1 * t, 10, next.code());
    lemma_pow2_adds(1, 143);
    binary32::lemma_units_order(mid.code(), next.code());
    binary32::lemma_units_order(low.code(), mid.code());
    binary32::lemma_units_order(low.code(), high.code());
}

/// What the options give as the persistence is what the picture fades by, frame by frame,
/// in whatever mode the window is: after `dt` seconds the exponent is `-dt` over the
/// seconds given. Nothing is left of the picture where they are not above zero.
pub proof fn law_fade_follows_the_options(
    opts: RenderOptions,
    segments: &[Segment],
    hw_hz: Binary32,
    state: FrameState,
    dt: Binary32,
    r: Option<Binary32>,
)
    requires
        call_ensures(FrameState::new, (&opts, segments, hw_hz), state),
        call_ensures(FrameState::fade, (&state, dt), r),
    ensures
        opts.persistence matches Some(seconds) ==> {
            &&& r is Some <==> binary32::signed(false, 0).below(seconds)
            &&& r matches Some(exponent) ==> exponent == dt.negated() / seconds
        },
        opts.persistence is None && opts.scan_enabled && opts.scene != Scene::Draw ==> r == Some(
            dt.negated() / binary32::nearest(3, 1000),
        ),
        opts.persistence is None && !(opts.scan_enabled && opts.scene != Scene::Draw) ==> r
            == Some(dt.negated() / binary32::nearest(1, 10)),
{
    law_given_persistence_counts(dt, true);
    lemma_default_trails_last();
}

proof fn lemma_default_trails_last()
    ensures
        binary32::signed(false, 0).below(binary32::nearest(3, 1000)),
        binary32::signed(false, 0).below(binary32::nearest(1, 10)),
{
    let t = pow2(149);
    lemma_pow2_pos(149);
    lemma2_to64();
    lemma_pow2_adds(10, 139);
    lemma_pow2_pos(139);
    order::law_rounding_keeps_sides(3 * t, 1000, 1);
    law_given_persistence_counts(binary32::nearest(1, 10), true);
    binary32::lemma_units_order(binary32::nearest(3, 1000).code(), 0);
    binary32::lemma_units_order(0, 0);
}

/// The exponent of the fade is below zero, and times the persistence it gives the span of
/// time back, within one part in two to the power 24 or half of a least magnitude.
pub proof fn law_exponent_is_span_over_persistence(dt: Binary32, persistence: Binary32)
    requires
        dt.finite(),
        dt.value() >= 0,
        persistence.finite(),
        persistence.value() > 0,
        fading(dt, persistence)->0.finite(),
    ensures
        fading(dt, persistence) is Some,
        ({
            let kept = -(fading(dt, persistence)->0.value() * persistence.value());
            let exact = dt.value() * pow2(149);
            &&& fading(dt, persistence)->0.value() <= 0
            &&& 0x100_0000 * (kept - exact) <= exact + 0x80_0000 * persistence.value()
            &&& 0x100_0000 * (exact - kept) <= exact + 0x80_0000 * persistence.value()
        }),
{
    lemma_exponent(dt, persistence);
    lemma_exponent_error(dt, persistence);
}

/// The gain makes up for a stroke being lit in one of `n` subframes only: a gain that is
/// given is taken, and else it is `n`, but 16 at most.
pub proof fn law_gain_makes_up_for_subframes(given: Binary32, n: u32)
    ensures
        gain(Some(given), n) == given,
        gain(None, n).finite(),
        n <= 16 ==> gain(None, n).value() == n * pow2(149),
        n >= 16 ==> gain(None, n).value() == 16 * pow2(149),
{
    let t = pow2(149);
    lemma_pow2_pos(149);
    order::lemma_whole_error(16);
    order::lemma_whole_error(n as nat);
    if n > 16 {
        assert(16 * t <= n * t) by (nonlinear_arith)
            requires
                n > 16,
        ;
        order::law_rounding_is_monotone(16 * t, n as nat * t, 1);
        binary32::lemma_units_order(
            binary32::nearest(16, 1).code(),
            binary32::nearest(n as nat, 1).code(),
        );
    } else {
        assert(n * t <= 16 * t) by (nonlinear_arith)
            requires
                n <= 16,
        ;
    }
}

/// The refresh rate is the one given; else a thousandth of what the monitor says, within
/// one part in two to the power 21; else 60.
pub proof fn law_refresh_rate(given: Binary32, monitor: Option<u32>, mhz: u32)
    ensures
        refresh_rate(Some(given), monitor) == given,
        refresh_rate(None, None).value() == 60 * pow2(149),
        ({
            let rate = refresh_rate(None, Some(mhz));
            &&& rate.finite()
            &&& !rate.negative()
            &&& 0x20_0000 * (1000 * rate.value() - mhz * pow2(149)) <= mhz * pow2(149)
            &&& 0x20_0000 * (mhz * pow2(149) - 1000 * rate.value()) <= mhz * pow2(149)
        }),
{
    order::lemma_whole_error(60);
    order::law_ratio_error(mhz as nat, 1000);
}

/// The ratio of the sides times the height is the width, within one part in two to the
/// power 21. That of a square is one.
pub proof fn law_ratio_of_sides(width: u32, height: u32)
    requires
        height > 0,
    ensures
        ({
            let ratio = ratio_of_sides(width, height);
            &&& ratio.finite()
            &&& !ratio.negative()
            &&& 0x20_0000 * (ratio.value() * height - width * pow2(149)) <= width * pow2(149)
            &&& 0x20_0000 * (width * pow2(149) - ratio.value() * height) <= width * pow2(149)
        }),
{
    order::law_ratio_error(width as nat, height as nat);
}

/// What the shader reads for a frame: the matrix as it is, the size in whole numbers,
/// strokes six wide, and brighter by the gain in scan mode only.
pub proof fn law_live_uniforms(
    mvp: [Binary32; 16],
    width: u32,
    height: u32,
    scanning: bool,
    gain: Binary32,
    r: BeamUniforms,
)
    requires
        call_ensures(live_uniforms, (mvp, width, height, scanning, gain), r),
    ensures
        r.mvp == mvp,
        r.base_width.value() == 6 * pow2(149),
        scanning ==> r.brightness == gain,
        !scanning ==> r.brightness.value() == pow2(149),
        width <= 0x100_0000 ==> r.resolution[0].value() == width * pow2(149),
        height <= 0x100_0000 ==> r.resolution[1].value() == height * pow2(149),
{
    order::lemma_whole_error(6);
    order::lemma_whole_error(1);
    order::lemma_whole_error(width as nat);
    order::lemma_whole_error(height as nat);
    assert(r.resolution[0] == r.resolution@[0]);
    assert(r.resolution[1] == r.resolution@[1]);
}

/// A picture is drawn as a frame without scan mode, with strokes eight wide.
pub proof fn law_still_uniforms(
    mvp: [Binary32; 16],
    width: u32,
    height: u32,
    gain: Binary32,
    still: BeamUniforms,
    live: BeamUniforms,
)
    requires
        call_ensures(still_uniforms, (mvp, width, height), still),
        call_ensures(live_uniforms, (mvp, width, height, false, gain), live),
    ensures
        still.mvp == live.mvp,
        still.resolution@ == live.resolution@,
        still.brightness == live.brightness,
        3 * still.base_width.value() == 4 * live.base_width.value(),
{
    order::lemma_whole_error(6);
    order::lemma_whole_error(8);
}

/// What is drawn of a ship after a step of the flight: the thrust changes its velocity,
/// and the velocity its place. A place within the edges, 0.15 outside of what is seen,
/// is kept as it is, whatever the shape of the window.
pub proof fn law_flight_follows_momentum(
    ship: &mut ShipState,
    input: InputState,
    dt: Binary32,
    aspect: Binary32,
    heading: Turn,
    tan: Binary32,
)
    requires
        call_ensures(ShipState::integrate, (ship, &input, dt, aspect, heading, tan), ()),
    ensures
        final(ship).angle == old(ship).angle,
        !input.thrust ==> final(ship).vel_x == old(ship).vel_x && final(ship).vel_y
            == old(ship).vel_y,
        input.thrust ==> final(ship).vel_y == old(ship).vel_y + heading.cos * binary32::nearest(
            9,
            5,
        ) * dt,
        input.thrust ==> final(ship).vel_x == old(ship).vel_x + heading.sin.negated()
            * binary32::nearest(9, 5) * dt,
        ({
            let x = old(ship).pos_x + final(ship).vel_x * dt;
            let wide = binary32::nearest(3, 1) * tan * aspect + binary32::nearest(15, 100);
            &&& wide.negated().at_most(x) && x.at_most(wide) ==> final(ship).pos_x == x
            &&& wide.below(x) ==> final(ship).pos_x == x - (wide + wide)
            &&& x.below(wide.negated()) && !wide.below(x) ==> final(ship).pos_x == x + (wide + wide)
        }),
        ({
            let y = old(ship).pos_y + final(ship).vel_y * dt;
            let tall = binary32::nearest(3, 1) * tan + binary32::nearest(15, 100);
            &&& tall.negated().at_most(y) && y.at_most(tall) ==> final(ship).pos_y == y
            &&& tall.below(y) ==> final(ship).pos_y == y - (tall + tall)
            &&& y.below(tall.negated()) && !tall.below(y) ==> final(ship).pos_y == y + (tall + tall)
        }),
{
    let pushed = old(ship).pushed(input, dt, heading);
    law_thrust_pushes_ahead(*old(ship), input, dt, heading);
    law_ship_wraps_at_the_edges(pushed, dt, aspect, tan);
}

/// The ship of a window is steered as any ship: by 3.5 radians a second to the side of the
/// key that is held.
pub proof fn law_keys_steer_the_ship(
    state: &mut FrameState,
    ship: &mut ShipState,
    input: InputState,
    dt: Binary32,
)
    requires
        call_ensures(FrameState::steer, (state, &input, dt), ()),
        call_ensures(ShipState::steer, (ship, &input, dt), ()),
        old(state)@.ship == *old(ship),
    ensures
        final(state)@.ship == *final(ship),
        final(state)@ == (Playing { ship: final(state)@.ship, ..old(state)@ }),
        old(ship).angle.finite() && dt.finite() ==> {
            let turn = binary32::nearest(7, 2) * dt;
            &&& input.turn_left && !input.turn_right ==> final(ship).angle == old(ship).angle + turn
            &&& input.turn_right && !input.turn_left ==> final(ship).angle == old(ship).angle
                + turn.negated()
            &&& input.turn_left == input.turn_right ==> final(ship).angle.value()
                == old(ship).angle.value()
        },
        final(ship).vel_x == old(ship).vel_x && final(ship).vel_y == old(ship).vel_y,
        final(ship).pos_x == old(ship).pos_x && final(ship).pos_y == old(ship).pos_y,
{
    if old(ship).angle.finite() && dt.finite() {
        law_ship_turns_evenly(*old(ship), input, dt);
    }
}

/// The ship of a window flies as any ship, and nothing else of the window changes.
pub proof fn law_window_flies_the_ship(
    state: &mut FrameState,
    ship: &mut ShipState,
    input: InputState,
    dt: Binary32,
    aspect: Binary32,
    heading: Turn,
    tan: Binary32,
)
    requires
        call_ensures(FrameState::fly, (state, &input, dt, aspect, heading, tan), ()),
        call_ensures(ShipState::integrate, (ship, &input, dt, aspect, heading, tan), ()),
        old(state)@.ship == *old(ship),
    ensures
        final(state)@.ship == *final(ship),
        final(state)@ == (Playing { ship: final(state)@.ship, ..old(state)@ }),
{
}

/// Scan mode is turned over, but never on for the board. The scan begins anew, and nothing
/// else changes.
pub proof fn law_scan_mode_is_turned_over(state: &mut FrameState)
    requires
        call_ensures(FrameState::toggle_scan, (state,), ()),
    ensures
        old(state)@.scene != Scene::Draw ==> final(state)@.scanning == !old(state)@.scanning
            && final(state)@.scan.last is None,
        old(state)@.scene == Scene::Draw ==> final(state)@ == old(state)@,
        final(state)@.scene == old(state)@.scene,
        final(state)@.ship == old(state)@.ship,
        final(state)@.gain == old(state)@.gain,
        final(state)@.persistence == old(state)@.persistence,
        final(state)@.count == old(state)@.count,
        final(state)@.scan.buckets == old(state)@.scan.buckets,
        final(state)@.scan.n == old(state)@.scan.n,
{
}

/// A frame without scan mode draws every instance once. One in scan mode draws none twice,
/// and nothing at all as long as its window was drawn before.
pub proof fn law_frames_draw_every_instance_once(
    state: &mut FrameState,
    elapsed: Binary32,
    r: Vec<Range<u32>>,
    i: u32,
)
    requires
        call_ensures(FrameState::ranges, (state, elapsed), r),
        old(state)@.wf(),
        i < old(state)@.count,
    ensures
        !old(state)@.scanning ==> scan::times_drawn(r@, i) == 1 && final(state)@ == old(state)@,
        old(state)@.scanning ==> scan::times_drawn(r@, i) <= 1,
        ({
            let v = old(state)@.scan;
            let current = binary32::product_whole(elapsed, v.scan_hz, v.n) as u64;
            old(state)@.scanning ==> {
                &&& v.last is Some && current <= v.last->0 ==> r@.len() == 0
                &&& !(v.last is Some && current <= v.last->0) ==> final(state)@.scan.last == Some(
                    current,
                )
            }
        }),
        forall|j: int| 0 <= j < r@.len() ==> (#[trigger] r@[j]).end <= old(state)@.count,
        final(state)@.count == old(state)@.count,
        final(state)@.scanning == old(state)@.scanning,
{
    let p = old(state)@;
    let v = p.scan;
    let current = binary32::product_whole(elapsed, v.scan_hz, v.n) as u64;
    reveal_with_fuel(scan::times_drawn, 2);
    if !p.scanning {
        let whole = seq![Range { start: 0u32, end: p.count }];
        assert(r@ == whole);
        assert(whole.drop_last() =~= Seq::<Range<u32>>::empty());
        assert(scan::times_drawn(whole, i) == 1);
    } else if v.last is Some && current <= v.last->0 {
        assert(r@ == Seq::<Range<u32>>::empty());
    } else {
        scan::law_frame_draws_at_most_once(v, p.count as nat, i, current);
    }
}

/// A window begins with what its options say: their scene, with the ship at rest in the
/// middle, at the given persistence and scan rate, brighter by the gain. The board does not
/// begin in scan mode.
pub proof fn law_windows_begin_with_their_options(
    opts: RenderOptions,
    segments: &[Segment],
    hw_hz: Binary32,
    state: FrameState,
)
    requires
        call_ensures(FrameState::new, (&opts, segments, hw_hz), state),
        segments@.len() <= u32::MAX,
    ensures
        state@.scene == opts.scene,
        state@.persistence == opts.persistence,
        state@.scanning <==> opts.scan_enabled && opts.scene != Scene::Draw,
        state@.scan.scan_hz == opts.scan_cfg.scan_hz,
        state@.scan.beams >= 1 && (opts.scan_cfg.beams > 0 ==> state@.scan.beams
            == opts.scan_cfg.beams),
        state@.scan.last is None,
        state@.count == segments@.len(),
        opts.beam_gain matches Some(given) ==> state@.gain == given,
        opts.beam_gain is None && state@.scan.n <= 16 ==> state@.gain.value() == state@.scan.n
            * pow2(149),
        state@.ship.pos_x.value() == 0 && state@.ship.pos_y.value() == 0,
        state@.ship.vel_x.value() == 0 && state@.ship.vel_y.value() == 0,
        state@.ship.angle.value() == 0,
{
    binary32::lemma_units_order(0, 0);
    law_gain_makes_up_for_subframes(hw_hz, state@.scan.n);
    assert(segments@.take(segments@.len() as int) =~= segments@);
}

/// The options of the live window follow the command line: what was read from it is passed
/// on, scan mode is on unless it is turned off or the board is shown, and the refresh rate
/// is the one given.
pub proof fn law_options_follow_the_command_line(
    cli: Cli,
    args: &[String],
    r: Result<RenderOptions, String>,
)
    requires
        call_ensures(RenderOptions::from_cli, (&cli, args), r),
    ensures
        r matches Ok(options) ==> {
            let words = cli::words(args@);
            let rate = cli::value_of(words, "--hw-hz"@);
            &&& options.persistence == cli.persistence
            &&& options.scene == cli.scene
            &&& options.present_mode == cli.present_mode
            &&& options.scan_enabled <==> !words.contains("--no-scan"@) && cli.scene != Scene::Draw
            &&& rate is None ==> options.hw_hz is None
            &&& rate matches Some(v) ==> options.hw_hz is Some && decimal::parsed(v)
                == options.hw_hz
            &&& options.scan_cfg.scan_hz.value() == 60 * pow2(149)
            &&& options.scan_cfg.beams == 1
            &&& options.beam_gain is None
        },
        r is Err ==> {
            let rate = cli::value_of(cli::words(args@), "--hw-hz"@);
            rate matches Some(v) && decimal::parsed(v) is None
        },
{
    order::lemma_whole_error(60);
}

/// The time constant in use, and the fade that follows from it: what is given counts, in
/// either mode.
pub proof fn law_given_seconds_are_faded_by(
    seconds: Binary32,
    scanning: bool,
    dt: Binary32,
    r: Binary32,
    exponent: Option<Binary32>,
)
    requires
        call_ensures(persistence, (Some(seconds), scanning), r),
        call_ensures(decay_exponent, (dt, r), exponent),
    ensures
        r == seconds,
        binary32::signed(false, 0).below(seconds) ==> exponent == Some(dt.negated() / seconds),
        !binary32::signed(false, 0).below(seconds) ==> exponent is None,
{
    law_given_persistence_counts(seconds, scanning);
}

/// A position between the edges is kept, and one beyond an edge is moved by the distance
/// of the edges.
pub proof fn law_wrap_moves_by_a_screen(x: Binary32, half: Binary32, r: Binary32)
    requires
        call_ensures(wrap, (x, half), r),
    ensures
        half.negated().at_most(x) && x.at_most(half) ==> r == x,
        half.below(x) ==> r == x - (half + half),
        x.below(half.negated()) && !half.below(x) ==> r == x + (half + half),
{
    lemma_twice(half);
}

/// The present mode that is chosen is the one asked for, where the surface offers it. Else
/// it is immediate where that is offered, else mailbox where that is, and else fifo.
pub proof fn law_chosen_mode(
    supported: &[wgpu::PresentMode],
    requested: Option<PresentModeArg>,
    r: wgpu::PresentMode,
)
    requires
        call_ensures(choose_present_mode, (supported, requested), r),
    ensures
        ({
            let asked = requested matches Some(request) && supported@.contains(request.mode());
            let first = supported@.contains(wgpu::PresentMode::Immediate);
            let second = supported@.contains(wgpu::PresentMode::Mailbox);
            &&& asked ==> r == requested->0.mode()
            &&& !asked && first ==> r == wgpu::PresentMode::Immediate
            &&& !asked && !first && second ==> r == wgpu::PresentMode::Mailbox
            &&& !asked && !first && !second ==> r == wgpu::PresentMode::Fifo
        }),
{
}

/// Gain, refresh rate and shape of the window: what is given is taken, and the defaults
/// follow from the subframes, the monitor and the sides.
pub proof fn law_rates_and_shapes(
    given: Option<Binary32>,
    n: u32,
    mhz: Option<u32>,
    width: u32,
    height: u32,
    gain: Binary32,
    rate: Binary32,
    ratio: Binary32,
)
    requires
        height > 0,
        call_ensures(beam_gain, (given, n), gain),
        call_ensures(hardware_rate, (given, mhz), rate),
        call_ensures(aspect, (width, height), ratio),
    ensures
        given matches Some(x) ==> gain == x && rate == x,
        given is None && n <= 16 ==> gain.value() == n * pow2(149),
        given is None && n > 16 ==> gain.value() == 16 * pow2(149),
        given is None && mhz is None ==> rate.value() == 60 * pow2(149),
        given is None ==> (mhz matches Some(m) ==> 0x20_0000 * (1000 * rate.value() - m * pow2(149))
            <= m * pow2(149) && 0x20_0000 * (m * pow2(149) - 1000 * rate.value()) <= m * pow2(149)),
        0x20_0000 * (ratio.value() * height - width * pow2(149)) <= width * pow2(149),
        0x20_0000 * (width * pow2(149) - ratio.value() * height) <= width * pow2(149),
{
    law_gain_makes_up_for_subframes(gain, n);
    law_ratio_of_sides(width, height);
    if mhz is Some {
        law_refresh_rate(gain, mhz, mhz->0);
    } else {
        law_refresh_rate(gain, mhz, 0);
    }
}

/// The scene of a picture is taken 2.6 seconds after its start, as near as can be.
pub proof fn law_capture_time(r: Binary32)
    requires
        call_ensures(capture_time, (), r),
    ensures
        0x200_0000 * (5 * r.value() - 13 * pow2(149)) <= 39 * pow2(149),
        0x200_0000 * (13 * pow2(149) - 5 * r.value()) <= 39 * pow2(149),
{
    lemma_pow2_pos(149);
    order::lemma_fraction_error(26, 10);
}

/// What the shader reads for a frame of the window: strokes are brighter by the gain in
/// scan mode, and only then.
pub proof fn law_window_uniforms(
    state: FrameState,
    mvp: [Binary32; 16],
    width: u32,
    height: u32,
    r: BeamUniforms,
)
    requires
        call_ensures(FrameState::uniforms, (&state, mvp, width, height), r),
    ensures
        r.mvp == mvp,
        r.base_width.value() == 6 * pow2(149),
        state@.scanning ==> r.brightness == state@.gain,
        !state@.scanning ==> r.brightness.value() == pow2(149),
        width <= 0x100_0000 ==> r.resolution[0].value() == width * pow2(149),
        height <= 0x100_0000 ==> r.resolution[1].value() == height * pow2(149),
{
    order::lemma_whole_error(6);
    order::lemma_whole_error(1);
    order::lemma_whole_error(width as nat);
    order::lemma_whole_error(height as nat);
    assert(r.resolution[0] == r.resolution@[0]);
    assert(r.resolution[1] == r.resolution@[1]);
}

/// Only the curve morphs, and only the ship is flown.
pub proof fn law_scenes_are_told_apart(state: FrameState, morphs: bool, flies: bool)
    requires
        call_ensures(FrameState::morphs, (&state,), morphs),
        call_ensures(FrameState::flies, (&state,), flies),
    ensures
        morphs <==> state@.scene == Scene::Lissajous,
        flies <==> state@.scene == Scene::Ship,
{
}

/// A key changes the controls of the input as it does in the mind of the pilot: its own
/// control, and no other.
pub proof fn law_keys_are_heard(
    input: &mut InputState,
    key: winit::keyboard::KeyCode,
    pressed: bool,
)
    requires
        call_ensures(InputState::key, (input, key, pressed), ()),
    ensures
        final(input).turn_left == (if key == winit::keyboard::KeyCode::ArrowLeft || key
            == winit::keyboard::KeyCode::KeyA {
            pressed
        } else {
            old(input).turn_left
        }),
        final(input).turn_right == (if key == winit::keyboard::KeyCode::ArrowRight || key
            == winit::keyboard::KeyCode::KeyD {
            pressed
        } else {
            old(input).turn_right
        }),
        final(input).thrust == (if key == winit::keyboard::KeyCode::ArrowUp || key
            == winit::keyboard::KeyCode::KeyW {
            pressed
        } else {
            old(input).thrust
        }),
{
}

/// The first format that encodes its values as sRGB is taken, and the first of all where
/// none does.
pub proof fn law_first_srgb_format_is_taken(srgb: &[bool], r: usize, i: int)
    requires
        call_ensures(preferred_format, (srgb,), r),
        0 <= i < srgb@.len(),
        srgb@[i],
    ensures
        r <= i,
        srgb@[r as int],
{
}

/// What a window tells of itself.
pub proof fn law_windows_tell_what_they_hold(
    state: FrameState,
    n: u32,
    count: u32,
    gain: Binary32,
    ship: ShipState,
)
    requires
        call_ensures(FrameState::subframes, (&state,), n),
        call_ensures(FrameState::instance_count, (&state,), count),
        call_ensures(FrameState::gain, (&state,), gain),
        call_ensures(FrameState::ship, (&state,), ship),
    ensures
        n == state@.scan.n && count == state@.count && gain == state@.gain && ship == state@.ship,
{
}

/// New segments of a scene that morphs are scheduled anew, and nothing else changes.
pub proof fn law_morphs_are_scheduled(state: &mut FrameState, segments: &[Segment])
    requires
        call_ensures(FrameState::morph, (state, segments), ()),
    ensures
        final(state)@.scan.slices(scan::scheduled(segments@)),
        final(state)@.scan.last == old(state)@.scan.last,
        final(state)@.scan.n == old(state)@.scan.n,
        final(state)@.scan.scan_hz == old(state)@.scan.scan_hz,
        final(state)@.scanning == old(state)@.scanning,
        final(state)@.persistence == old(state)@.persistence,
        final(state)@.gain == old(state)@.gain,
        final(state)@.ship == old(state)@.ship,
        final(state)@.scene == old(state)@.scene,
        final(state)@.count == old(state)@.count,
{
}

/// Whatever became of a window since it began, it fades by the persistence that was given;
/// where none was, by the default of the mode that it is in.
pub proof fn law_windows_fade_by_what_was_given(
    state: FrameState,
    dt: Binary32,
    r: Option<Binary32>,
)
    requires
        call_ensures(FrameState::fade, (&state, dt), r),
    ensures
        state@.persistence matches Some(seconds) ==> {
            &&& binary32::signed(false, 0).below(seconds) ==> r == Some(dt.negated() / seconds)
            &&& !binary32::signed(false, 0).below(seconds) ==> r is None
        },
        state@.persistence is None && state@.scanning ==> r == Some(
            dt.negated() / binary32::nearest(3, 1000),
        ),
        state@.persistence is None && !state@.scanning ==> r == Some(
            dt.negated() / binary32::nearest(1, 10),
        ),
{
    lemma_default_trails_last();
}

/// Without scan mode a frame draws all instances in one range and leaves the scheduler
/// alone. In scan mode it draws what the scheduler calls for.
pub proof fn law_frames_draw_all_or_a_slice(
    scanning: bool,
    scheduler: &mut ScanScheduler,
    elapsed: Binary32,
    count: u32,
    r: Vec<Range<u32>>,
    len: nat,
    i: u32,
)
    requires
        call_ensures(frame_ranges, (scanning, scheduler, elapsed, count), r),
        old(scheduler)@.covers(len),
        i < len,
    ensures
        !scanning ==> final(scheduler)@ == old(scheduler)@ && r@.len() == 1 && r@[0].start == 0
            && r@[0].end == count,
        scanning ==> scan::times_drawn(r@, i) <= 1,
        ({
            let v = old(scheduler)@;
            let current = binary32::product_whole(elapsed, v.scan_hz, v.n) as u64;
            scanning ==> (v.last matches Some(last) ==> {
                &&& current <= last ==> r@.len() == 0
                &&& current >= last + v.n ==> scan::times_drawn(r@, i) == 1
            })
        }),
{
    let v = old(scheduler)@;
    let current = binary32::product_whole(elapsed, v.scan_hz, v.n) as u64;
    if scanning {
        if v.last is Some && current <= v.last->0 {
            assert(scan::times_drawn(r@, i) == 0);
        } else {
            scan::law_frame_draws_at_most_once(v, len, i, current);
            if v.last is Some && current >= v.last->0 + v.n {
                let first = scan::first_window(v.last, current, v.n);
                scan::law_scan_draws_each_once(v, len, i, first);
            }
        }
    }
}

}
