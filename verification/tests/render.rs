use std::ops::Range;

use vector_beam::binary32::Binary32;
use vector_beam::bloom;
use vector_beam::bloom::{BloomUniforms, Stage, Texture};
use vector_beam::buffers::{instance_bytes, BeamUniforms};
use vector_beam::cli::{parse, PresentModeArg};
use vector_beam::geometry::{Scene, Segment, Turn};
use vector_beam::render::{
    aspect, beam_gain, capture_time, choose_present_mode, decay_exponent, frame_action,
    frame_ranges, hardware_rate, live_uniforms, persistence, preferred_format, resized,
    still_uniforms, surface_size, toggles_scan, wrap, FrameAction, FrameState, FrameStatus, InputState,
    RenderOptions, ShipState,
};
use vector_beam::scan::{ScanConfig, ScanScheduler};
use wgpu::PresentMode;
use winit::keyboard::KeyCode;

fn b(x: f32) -> Binary32 {
    Binary32 { bits: x.to_bits() }
}

fn f(x: Binary32) -> f32 {
    f32::from_bits(x.bits)
}

#[test]
fn the_fastest_mode_is_taken() {
    let (fifo, mailbox, immediate) =
        (PresentMode::Fifo, PresentMode::Mailbox, PresentMode::Immediate);
    assert_eq!(choose_present_mode(&[fifo, mailbox, immediate], None), immediate);
    assert_eq!(choose_present_mode(&[fifo, mailbox], None), mailbox);
    assert_eq!(choose_present_mode(&[fifo], None), fifo);
    let others = [PresentMode::AutoVsync, PresentMode::AutoNoVsync, PresentMode::FifoRelaxed];
    assert_eq!(choose_present_mode(&others, None), fifo);
    assert_eq!(choose_present_mode(&[], None), fifo);
}

#[test]
fn a_requested_mode_is_honoured_where_it_is_offered() {
    let (fifo, mailbox, immediate) =
        (PresentMode::Fifo, PresentMode::Mailbox, PresentMode::Immediate);
    let all = [fifo, mailbox, immediate];
    assert_eq!(choose_present_mode(&all, Some(PresentModeArg::Fifo)), fifo);
    assert_eq!(choose_present_mode(&all, Some(PresentModeArg::Mailbox)), mailbox);
    assert_eq!(choose_present_mode(&[fifo], Some(PresentModeArg::Immediate)), fifo);
    assert_eq!(choose_present_mode(&[fifo, immediate], Some(PresentModeArg::Mailbox)), immediate);
}

#[test]
fn keys_fly_the_ship() {
    let mut input = InputState::default();
    for (key, other) in [
        (KeyCode::ArrowLeft, KeyCode::KeyA),
        (KeyCode::ArrowRight, KeyCode::KeyD),
        (KeyCode::ArrowUp, KeyCode::KeyW),
    ] {
        input.key(key, true);
        let with_arrow = input;
        input.key(other, false);
        assert_eq!(input, InputState::default());
        input.key(other, true);
        assert_eq!(input, with_arrow);
        input.key(key, false);
    }
    input.key(KeyCode::Space, true);
    assert_eq!(input, InputState::default());
    input.key(KeyCode::KeyA, true);
    assert!(input.turn_left && !input.turn_right && !input.thrust);
}

/// One step of the ship with native arithmetic.
fn native_step(
    s: [f32; 5],
    input: &InputState,
    dt: f32,
    aspect: f32,
    tan: f32,
) -> [f32; 5] {
    let wrap = |x: f32, half: f32| {
        if x > half {
            x - 2.0 * half
        } else if x < -half {
            x + 2.0 * half
        } else {
            x
        }
    };
    let [mut angle, mut vx, mut vy, x, y] = s;
    let turn = input.turn_left as i32 - input.turn_right as i32;
    angle += turn as f32 * 3.5 * dt;
    if input.thrust {
        vx += -angle.sin() * 1.8 * dt;
        vy += angle.cos() * 1.8 * dt;
    }
    let half_h = 3.0 * tan + 0.15;
    let half_w = 3.0 * tan * aspect + 0.15;
    [angle, vx, vy, wrap(x + vx * dt, half_w), wrap(y + vy * dt, half_h)]
}

#[test]
fn the_ship_agrees_with_native_arithmetic() {
    let tan = (std::f32::consts::PI / 3.0 * 0.5).tan();
    let (dt, aspect) = (1.0f32 / 60.0, 4.0f32 / 3.0);
    let mut ship = ShipState::default();
    let mut native = [0.0f32; 5];
    for i in 0..1200u32 {
        let input = InputState {
            turn_left: i % 7 < 3,
            turn_right: i % 11 == 0,
            thrust: i % 3 != 0,
        };
        ship.steer(&input, b(dt));
        let angle = f(ship.angle);
        let heading = Turn { sin: b(angle.sin()), cos: b(angle.cos()) };
        ship.integrate(&input, b(dt), b(aspect), heading, b(tan));
        native = native_step(native, &input, dt, aspect, tan);
        let ours = [ship.angle, ship.vel_x, ship.vel_y, ship.pos_x, ship.pos_y].map(f);
        assert_eq!(ours, native, "step {i}");
    }
}

#[test]
fn wrapping_jumps_to_the_opposite_edge() {
    assert_eq!(f(wrap(b(1.25), b(1.0))), -0.75);
    assert_eq!(f(wrap(b(-1.25), b(1.0))), 0.75);
    assert_eq!(f(wrap(b(1.0), b(1.0))), 1.0);
    assert_eq!(f(wrap(b(-1.0), b(1.0))), -1.0);
    assert_eq!(f(wrap(b(3.0), b(1.0))), 1.0);
}

fn options(s: &[&str]) -> Result<RenderOptions, String> {
    let args: Vec<String> =
        std::iter::once("vector-beam").chain(s.iter().copied()).map(String::from).collect();
    RenderOptions::from_cli(&parse(&args).unwrap(), &args)
}

#[test]
fn options_follow_the_command_line() {
    let o = options(&[]).unwrap();
    let d = RenderOptions::default();
    assert_eq!((o.persistence, o.scene, o.hw_hz), (d.persistence, d.scene, d.hw_hz));
    assert!(o.scan_enabled && d.scan_enabled);
    assert_eq!(f(o.scan_cfg.scan_hz), 60.0);
    assert_eq!(o.scan_cfg.beams, 1);
    let o = options(&["--no-scan", "--hw-hz", "144", "--present-mode", "fifo"]).unwrap();
    assert!(!o.scan_enabled);
    assert_eq!(o.hw_hz, Some(b(144.0)));
    assert_eq!(o.present_mode, Some(PresentModeArg::Fifo));
    assert_eq!(
        options(&["--hw-hz", "fast"]).unwrap_err(),
        "--hw-hz expects hertz (got \"fast\")"
    );
}

#[test]
fn the_board_never_scans() {
    let o = options(&["--scene", "draw"]).unwrap();
    assert_eq!(o.scene, Scene::Draw);
    assert!(!o.scan_enabled);
    assert!(options(&["--scene", "ship"]).unwrap().scan_enabled);
}

#[test]
fn trails_depend_on_the_mode() {
    assert_eq!(f(persistence(None, true)), 0.003);
    assert_eq!(f(persistence(None, false)), 0.1);
    assert_eq!(f(persistence(Some(b(0.5)), true)), 0.5);
    assert_eq!(decay_exponent(b(0.016), b(0.1)), Some(b(-0.016 / 0.1)));
    assert_eq!(decay_exponent(b(0.016), b(0.0)), None);
    assert_eq!(decay_exponent(b(0.016), b(f32::NAN)), None);
}

#[test]
fn fading_does_not_depend_on_the_frame_rate() {
    for (a, c, p) in [
        (0.016f32, 0.017f32, 0.1f32),
        (0.0041, 0.0125, 0.003),
        (0.0, 0.02, 0.003),
        (-0.0, 0.02, 0.1),
        (3.7e-9, 11.0, 0.7),
        (0.5, 0.25, f32::INFINITY),
    ] {
        let exponent = |dt: f32| f(decay_exponent(b(dt), b(p)).unwrap()) as f64;
        let gap = exponent(a) + exponent(c) - exponent(a + c);
        let exact = (a as f64 + c as f64) / p as f64;
        let slack = 4.0 * exact / 16_777_216.0 + 1.5 * 2f64.powi(-149);
        assert!(gap.abs() <= slack, "{a} and {c}: {gap}");
    }
    // Two short frames fade as much as a long one.
    assert_eq!(decay_exponent(b(0.25), b(0.5)), Some(b(-0.5)));
    assert_eq!(decay_exponent(b(0.5), b(0.5)), Some(b(-1.0)));
}

#[test]
fn long_frames_fade_out_at_any_frame_rate() {
    let exponent = |dt: f32, p: f32| f(decay_exponent(b(dt), b(p)).unwrap());
    // The whole is finite, and its exponent is not.
    for (a, c, p) in [(1.0f32, 1.0f32, 2f32.powi(-127)), (2e30, 1e-3, 1e-9), (3e38, 1e37, 0.1)] {
        assert!((a + c).is_finite());
        assert_eq!(exponent(a + c, p), f32::NEG_INFINITY);
        assert!(exponent(a, p).min(exponent(c, p)) <= -(2f32.powi(126)));
        assert_eq!(exponent(a, p).exp() * exponent(c, p).exp(), 0.0);
    }
    // The whole is not finite either.
    for (a, c, p) in [(f32::MAX, f32::MAX, 0.1f32), (2f32.powi(127), 2f32.powi(127), 2f32.powi(120))] {
        assert_eq!(exponent(a + c, p), f32::NEG_INFINITY);
        assert!(exponent(a, p).min(exponent(c, p)) <= -104.0);
        assert_eq!(exponent(a, p).exp() * exponent(c, p).exp(), 0.0);
    }
    // Nothing persists.
    for dt in [0.0, 0.016, 1.0] {
        assert_eq!(decay_exponent(b(dt), b(0.0)), None);
    }
}

#[test]
fn rates_and_gains_have_defaults() {
    assert_eq!(f(beam_gain(None, 4)), 4.0);
    assert_eq!(f(beam_gain(None, 40)), 16.0);
    assert_eq!(f(beam_gain(Some(b(2.5)), 4)), 2.5);
    assert_eq!(f(hardware_rate(None, None)), 60.0);
    assert_eq!(f(hardware_rate(None, Some(143_998))), 143_998f32 / 1000.0);
    assert_eq!(f(hardware_rate(Some(b(120.0)), Some(60_000))), 120.0);
    assert_eq!(f(capture_time()), 2.6);
    assert_eq!(f(aspect(1280, 960)), 1280f32 / 960.0);
}

#[test]
fn surfaces_are_never_empty() {
    assert_eq!(surface_size(0, 0), (1, 1));
    assert_eq!(surface_size(960, 720), (960, 720));
    assert_eq!(resized(0, 720), None);
    assert_eq!(resized(960, 0), None);
    assert_eq!(resized(960, 720), Some((960, 720)));
    assert_eq!(preferred_format(&[false, true, true]), 1);
    assert_eq!(preferred_format(&[false, false]), 0);
}

#[test]
fn stale_frames_are_left_out() {
    assert_eq!(frame_action(FrameStatus::Success), FrameAction::Draw);
    assert_eq!(frame_action(FrameStatus::Suboptimal), FrameAction::Draw);
    assert_eq!(frame_action(FrameStatus::Outdated), FrameAction::Reconfigure);
    assert_eq!(frame_action(FrameStatus::Lost), FrameAction::Reconfigure);
    assert_eq!(frame_action(FrameStatus::Unavailable), FrameAction::Skip);
}

fn strokes(n: usize) -> Vec<Segment> {
    (0..n)
        .map(|i| {
            Segment::new(
                [b(i as f32), b(0.0), b(0.0)],
                [b(i as f32 + 1.0), b(0.0), b(0.0)],
                [b(0.25), b(0.5), b(0.75)],
            )
        })
        .collect()
}

#[test]
fn a_frame_draws_a_slice_or_all() {
    let mut s = ScanScheduler::new(&strokes(12), ScanConfig::default(), b(240.0));
    let all: Vec<Range<u32>> = vec![0..12];
    assert_eq!(frame_ranges(false, &mut s, b(0.002), 12), all);
    assert_eq!(frame_ranges(true, &mut s, b(0.002), 12), vec![0..3]);
    assert!(frame_ranges(true, &mut s, b(0.003), 12).is_empty());
    assert_eq!(frame_ranges(true, &mut s, b(0.0105), 12), vec![3..6, 6..9]);
}

#[test]
fn a_window_plays_its_scene() {
    let mut opts = RenderOptions::default();
    let mut state = FrameState::new(&opts, &strokes(12), b(240.0));
    assert_eq!((state.subframes(), state.instance_count()), (4, 12));
    assert_eq!(f(state.gain()), 4.0);
    assert_eq!(state.fade(b(0.006)), Some(b(-0.006 / 0.003)));
    assert!(!state.morphs() && !state.flies());
    assert_eq!(f(state.uniforms([b(0.0); 16], 960, 720).brightness), 4.0);
    assert_eq!(state.ranges(b(0.002)), vec![0..3]);
    assert!(state.ranges(b(0.003)).is_empty());
    assert_eq!(state.ranges(b(1.002)).len(), 4);

    opts.scene = Scene::Lissajous;
    let mut state = FrameState::new(&opts, &strokes(12), b(240.0));
    assert!(state.morphs());
    assert_eq!(state.ranges(b(0.002)), vec![0..3]);
    let mut longer = strokes(12);
    longer[11].p1[0] = b(100.0);
    state.morph(&longer);
    // The middle of the long one lies in the third of four buckets.
    assert_eq!(state.ranges(b(0.0105)), vec![11..12]);
    assert!(state.ranges(b(0.0147)).is_empty());
    assert_eq!(state.ranges(b(0.0188)), vec![0..11]);

    opts.scene = Scene::Ship;
    opts.scan_enabled = false;
    opts.persistence = Some(b(0.0));
    let mut state = FrameState::new(&opts, &strokes(5), b(60.0));
    assert!(state.flies());
    assert_eq!(state.fade(b(0.016)), None);
    assert_eq!(f(state.uniforms([b(0.0); 16], 960, 720).brightness), 1.0);
    assert_eq!(state.ranges(b(0.1)), vec![0..5]);
    let input = InputState { turn_left: true, turn_right: false, thrust: true };
    state.steer(&input, b(0.5));
    assert_eq!(f(state.ship().angle), 3.5 * 0.5);
    state.fly(&input, b(0.5), b(1.0), Turn { sin: b(0.0), cos: b(1.0) }, b(0.5));
    assert_eq!(f(state.ship().vel_y), 1.8 * 0.5);
    assert_eq!(f(state.ship().pos_y), 1.8 * 0.5 * 0.5);
}

#[test]
fn toggling_does_not_catch_up() {
    let opts = RenderOptions::default();
    let mut state = FrameState::new(&opts, &strokes(12), b(240.0));
    assert_eq!(state.ranges(b(0.002)), vec![0..3]);
    state.toggle_scan();
    assert_eq!(state.ranges(b(0.5)), vec![0..12]);
    state.toggle_scan();
    assert_eq!(state.ranges(b(1.0105)), vec![6..9]);
    assert!(toggles_scan(KeyCode::KeyS, true, false));
    assert!(!toggles_scan(KeyCode::KeyS, true, true));
    assert!(!toggles_scan(KeyCode::KeyS, false, false));
    assert!(!toggles_scan(KeyCode::KeyA, true, false));

    let board = RenderOptions { scene: Scene::Draw, ..opts };
    let mut state = FrameState::new(&board, &strokes(2), b(240.0));
    state.toggle_scan();
    assert_eq!(state.ranges(b(0.002)), vec![0..2]);
}

fn words(bytes: &[u8]) -> Vec<u32> {
    bytes.chunks(4).map(|c| u32::from_ne_bytes([c[0], c[1], c[2], c[3]])).collect()
}

#[test]
fn instances_lie_one_after_the_other() {
    let bytes = instance_bytes(&strokes(2));
    assert_eq!(bytes.len(), 72);
    let expected: Vec<u32> = [
        0.0f32, 0.0, 0.0, 1.0, 0.0, 0.0, 0.25, 0.5, 0.75, 1.0, 0.0, 0.0, 2.0, 0.0, 0.0, 0.25, 0.5,
        0.75,
    ]
    .iter()
    .map(|x| x.to_bits())
    .collect();
    assert_eq!(words(&bytes), expected);
    assert!(instance_bytes(&[]).is_empty());
}

#[test]
fn uniforms_have_eighty_bytes() {
    let mut mvp = [b(0.0); 16];
    for (i, m) in mvp.iter_mut().enumerate() {
        *m = b(i as f32);
    }
    let live: BeamUniforms = live_uniforms(mvp, 960, 720, true, b(4.0));
    let bytes = live.to_bytes();
    assert_eq!(bytes.len(), 80);
    let mut expected: Vec<u32> = (0..16).map(|i| (i as f32).to_bits()).collect();
    expected.extend([960.0f32, 720.0, 6.0, 4.0].map(|x| x.to_bits()));
    assert_eq!(words(&bytes), expected);
    assert_eq!(f(live_uniforms(mvp, 960, 720, false, b(4.0)).brightness), 1.0);
    let still = still_uniforms(mvp, 1280, 960);
    assert_eq!((f(still.base_width), f(still.brightness)), (8.0, 1.0));
    assert_eq!(still.mvp, mvp);
}

#[test]
fn bloom_works_at_a_quarter_of_the_size() {
    assert_eq!(bloom::texture_size(960, 720), (240, 180));
    assert_eq!(bloom::texture_size(3, 0), (1, 1));
    let passes = bloom::passes(960, 720);
    let ways: Vec<(Stage, Texture, Texture)> =
        passes.iter().map(|p| (p.stage, p.source, p.target)).collect();
    assert_eq!(
        ways,
        vec![
            (Stage::Downsample, Texture::Hdr, Texture::A),
            (Stage::Blur, Texture::A, Texture::B),
            (Stage::Blur, Texture::B, Texture::A),
        ]
    );
    assert_eq!(bloom::output(), Texture::A);
    let u: Vec<[f32; 4]> = passes
        .iter()
        .map(|p| {
            let BloomUniforms { texel_x, texel_y, direction_x, direction_y } = p.uniforms;
            [texel_x, texel_y, direction_x, direction_y].map(f)
        })
        .collect();
    assert_eq!(u[0], [1.0 / 960.0, 1.0 / 720.0, 0.0, 0.0]);
    assert_eq!(u[1], [1.0 / 240.0, 1.0 / 180.0, 1.0, 0.0]);
    assert_eq!(u[2], [1.0 / 240.0, 1.0 / 180.0, 0.0, 1.0]);
    assert_eq!(words(&passes[1].uniforms.to_bytes()), u[1].map(|x| x.to_bits()).to_vec());
}
