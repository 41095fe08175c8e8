use vector_beam::binary32::Binary32;
use vector_beam::cli::{
    flag_present, flag_value, parse, parse_size, Cli, PresentModeArg, Screenshot,
};
use vector_beam::geometry::Scene;

fn args(s: &[&str]) -> Vec<String> {
    std::iter::once("vector-beam")
        .chain(s.iter().copied())
        .map(String::from)
        .collect()
}

fn read(s: &[&str]) -> Cli {
    match parse(&args(s)) {
        Ok(cli) => cli,
        Err(message) => panic!("{message}"),
    }
}

fn message(s: &[&str]) -> String {
    match parse(&args(s)) {
        Ok(_) => panic!("accepted"),
        Err(message) => message,
    }
}

fn seconds(x: f32) -> Option<Binary32> {
    Some(Binary32 { bits: x.to_bits() })
}

#[test]
fn persistence_absent_is_none() {
    assert_eq!(read(&[]).persistence, None);
}

#[test]
fn persistence_given_is_some_and_clamped() {
    assert_eq!(read(&["--persistence", "0.25"]).persistence, seconds(0.25));
    assert_eq!(read(&["--persistence", "-1"]).persistence, seconds(0.0));
}

#[test]
fn persistence_bad_value_errors() {
    assert!(parse(&args(&["--persistence", "fast"])).is_err());
    assert!(read(&["--persistence"]).persistence.is_none());
}

#[test]
fn scene_parses_and_rejects_unknown() {
    assert_eq!(read(&["--scene", "lissajous"]).scene, Scene::Lissajous);
    assert!(parse(&args(&["--scene", "teapot"])).is_err());
}

#[test]
fn present_mode_parses_and_rejects_unknown() {
    assert_eq!(
        read(&["--present-mode", "mailbox"]).present_mode,
        Some(PresentModeArg::Mailbox)
    );
    assert!(parse(&args(&["--present-mode", "vsync"])).is_err());
}

#[test]
fn screenshot_positional_defaults() {
    let shot = |s: &[&str]| read(s).screenshot;
    assert_eq!(shot(&[]), None);
    assert_eq!(
        shot(&["--screenshot"]),
        Some(Screenshot { path: "docs/screenshot.png".into(), width: 1280, height: 960 })
    );
    assert_eq!(
        shot(&["--screenshot", "out.png", "640x480"]),
        Some(Screenshot { path: "out.png".into(), width: 640, height: 480 })
    );
    // Size without a path: WxH-shaped args are sizes, not paths.
    assert_eq!(
        shot(&["--screenshot", "640x480"]),
        Some(Screenshot { path: "docs/screenshot.png".into(), width: 640, height: 480 })
    );
    // A following flag is not a positional.
    assert_eq!(
        shot(&["--screenshot", "--fullscreen"]),
        Some(Screenshot { path: "docs/screenshot.png".into(), width: 1280, height: 960 })
    );
}

#[test]
fn fullscreen_flag() {
    assert!(!read(&[]).fullscreen);
    assert!(read(&["--fullscreen"]).fullscreen);
}

#[test]
fn messages_quote_what_was_given() {
    assert_eq!(
        message(&["--persistence", "fast"]),
        "--persistence expects seconds (got \"fast\")"
    );
    assert_eq!(
        message(&["--scene", "tea\tpot"]),
        "--scene expects one of: cube, lissajous (got \"tea\\tpot\")"
    );
    assert_eq!(
        message(&["--present-mode", "a \"b\""]),
        "--present-mode expects one of: immediate, mailbox, fifo (got \"a \\\"b\\\"\")"
    );
}

#[test]
fn errors_come_in_a_fixed_order() {
    let all = &["--present-mode", "x", "--scene", "y", "--persistence", "z"];
    assert!(message(all).starts_with("--persistence"));
    assert!(message(&all[..4]).starts_with("--scene"));
    assert!(message(&all[..2]).starts_with("--present-mode"));
}

#[test]
fn path_and_size_come_in_either_order() {
    let one = read(&["--screenshot", "out.png", "640x480"]).screenshot;
    let other = read(&["--screenshot", "640x480", "out.png"]).screenshot;
    assert_eq!(one, other);
    assert_eq!(one, Some(Screenshot { path: "out.png".into(), width: 640, height: 480 }));
}

#[test]
fn only_two_words_belong_to_the_screenshot() {
    let shot = read(&["--screenshot", "a.png", "b.png", "640x480"]).screenshot.unwrap();
    assert_eq!(shot.path, "a.png");
    assert_eq!((shot.width, shot.height), (1280, 960));
    let shot = read(&["--screenshot", "1x2", "3x4"]).screenshot.unwrap();
    assert_eq!((shot.width, shot.height), (3, 4));
}

#[test]
fn every_scene_and_mode_has_a_name() {
    assert_eq!(Scene::parse("cube"), Some(Scene::Cube));
    assert_eq!(Scene::parse("ship"), Some(Scene::Ship));
    assert_eq!(Scene::parse("ufo"), Some(Scene::Ufo));
    assert_eq!(Scene::parse("draw"), Some(Scene::Draw));
    assert_eq!(Scene::parse("Cube"), None);
    assert_eq!(PresentModeArg::parse("immediate"), Some(PresentModeArg::Immediate));
    assert_eq!(PresentModeArg::parse("fifo"), Some(PresentModeArg::Fifo));
    assert_eq!(PresentModeArg::parse(""), None);
    assert_eq!(PresentModeArg::Immediate.to_wgpu(), wgpu::PresentMode::Immediate);
    assert_eq!(PresentModeArg::Mailbox.to_wgpu(), wgpu::PresentMode::Mailbox);
    assert_eq!(PresentModeArg::Fifo.to_wgpu(), wgpu::PresentMode::Fifo);
}

#[test]
fn sizes_are_read_as_numbers_are() {
    for s in [
        "640x480", "0x0", "+1x+2", "x", "1x", "x2", "1x2x3", "-1x2", "4294967295x1",
        "4294967296x1", "00000000000000000001x2", "1X2", "1 x2", "+x1", "++1x2", "", "1é2",
    ] {
        let expected = s
            .split_once('x')
            .and_then(|(w, h)| Some((w.parse::<u32>().ok()?, h.parse::<u32>().ok()?)));
        assert_eq!(parse_size(s), expected, "{s:?}");
    }
}

#[test]
fn the_first_of_two_flags_counts() {
    let a = args(&["--scene", "ship", "--scene", "ufo"]);
    assert_eq!(flag_value(&a, "--scene"), Some("ship"));
    assert_eq!(flag_value(&a, "ufo"), None);
    assert_eq!(flag_value(&a, "--none"), None);
    assert!(flag_present(&a, "ufo"));
    assert!(!flag_present(&a, "cube"));
}

#[test]
fn persistence_is_never_negative() {
    for s in ["nan", "-inf", "-0", "-3e5", "inf", "1e-60", "-1e-60"] {
        let p = read(&["--persistence", s]).persistence.unwrap();
        assert!(f32::from_bits(p.bits) >= 0.0, "{s}");
    }
}
