use std::f32::consts::{PI, TAU};

use vector_beam::binary32::Binary32;
use vector_beam::geometry::{
    lissajous, lissajous_angles, ship, ufo, ufo_angles, wireframe_cube, Model, Scene, Segment,
    Turn,
};

const ALL: [Scene; 5] = [Scene::Cube, Scene::Lissajous, Scene::Ship, Scene::Ufo, Scene::Draw];

fn b(x: f32) -> Binary32 {
    Binary32 { bits: x.to_bits() }
}

fn f(x: Binary32) -> f32 {
    f32::from_bits(x.bits)
}

fn turns(angles: &[Binary32]) -> Vec<Turn> {
    angles.iter().map(|&a| Turn { sin: b(f(a).sin()), cos: b(f(a).cos()) }).collect()
}

fn segments(scene: Scene, time: f32) -> Vec<Segment> {
    scene.segments(&turns(&scene.angles(b(time))))
}

fn native(p: [Binary32; 3]) -> [f32; 3] {
    [f(p[0]), f(p[1]), f(p[2])]
}

#[test]
fn scenes_fill_their_buffers() {
    for scene in ALL {
        let n = segments(scene, 1.25).len();
        if scene == Scene::Draw {
            assert_eq!(n, 0);
        } else {
            assert_eq!(n, scene.max_segments());
        }
    }
    assert_eq!(Scene::Draw.max_segments(), 256);
    assert_eq!(Scene::default(), Scene::Cube);
}

#[test]
fn only_the_curve_is_animated() {
    for scene in ALL {
        assert_eq!(scene.animated(), scene == Scene::Lissajous);
        let same = segments(scene, 0.5)
            .iter()
            .zip(segments(scene, 1.5))
            .all(|(x, y)| x.p0 == y.p0 && x.p1 == y.p1);
        assert_eq!(same, scene != Scene::Lissajous);
    }
}

#[test]
fn strokes_are_continuous() {
    let lifts = |scene: Scene| {
        let s = segments(scene, 0.75);
        (1..s.len()).filter(|&i| s[i - 1].p1 != s[i].p0).collect::<Vec<_>>()
    };
    assert_eq!(lifts(Scene::Cube), vec![9, 10, 11]);
    assert_eq!(lifts(Scene::Ufo), vec![12]);
    assert!(lifts(Scene::Ship).is_empty());
    assert!(lifts(Scene::Lissajous).is_empty());
}

#[test]
fn a_cube_has_twelve_edges() {
    let edges = wireframe_cube(b(0.7));
    assert_eq!(edges.len(), 12);
    let mut seen = Vec::new();
    for e in &edges {
        let (p, q) = (native(e.p0), native(e.p1));
        let differing: Vec<usize> = (0..3).filter(|&a| p[a] != q[a]).collect();
        assert_eq!(differing.len(), 1);
        assert!(p.iter().chain(&q).all(|x| x.abs() == 0.7));
        let color = if differing[0] == 2 { [0.30, 0.95, 0.95] } else { [0.35, 1.0, 0.55] };
        assert_eq!(native(e.color), color);
        let key = if p < q { (e.p0, e.p1) } else { (e.p1, e.p0) };
        assert!(!seen.contains(&key));
        seen.push(key);
    }
    assert_eq!(native(edges[0].p0), [-0.7, -0.7, -0.7]);
    assert_eq!(native(edges[0].p1), [0.7, -0.7, -0.7]);
    assert_eq!(native(edges[11].p0), [-0.7, 0.7, -0.7]);
    assert_eq!(native(edges[11].p1), [-0.7, 0.7, 0.7]);
}

#[test]
fn the_ship_is_a_dart() {
    let path: Vec<[f32; 3]> = ship().iter().map(|s| native(s.p0)).collect();
    assert_eq!(
        path,
        vec![
            [0.0, 0.12, 0.0],
            [-0.08, -0.12, 0.0],
            [-0.04, -0.07, 0.0],
            [0.04, -0.07, 0.0],
            [0.08, -0.12, 0.0],
        ]
    );
    assert_eq!(native(ship()[4].p1), [0.0, 0.12, 0.0]);
    assert!(ship().iter().all(|s| native(s.color) == [0.35, 1.0, 0.55]));
}

#[test]
fn the_saucer_agrees_with_native_arithmetic() {
    let ours = ufo(&turns(&ufo_angles()));
    let hull = |t: f32| [0.35 * t.cos(), 0.10 * t.sin(), 0.0];
    let dome = |t: f32| [0.16 * t.cos(), 0.06 + 0.12 * t.sin(), 0.0];
    for i in 0..12 {
        assert_eq!(native(ours[i].p0), hull(TAU * i as f32 / 12.0));
        assert_eq!(native(ours[i].p1), hull(TAU * (i + 1) as f32 / 12.0));
    }
    for i in 0..6 {
        assert_eq!(native(ours[12 + i].p0), dome(PI * i as f32 / 6.0));
        assert_eq!(native(ours[12 + i].p1), dome(PI * (i + 1) as f32 / 6.0));
    }
    assert_eq!(ours.len(), 18);
}

#[test]
fn the_curve_agrees_with_native_arithmetic() {
    for (n, time) in [(600usize, 0.0f32), (600, 2.6), (7, -3.25), (1, 100.0)] {
        let ours = lissajous(n, &turns(&lissajous_angles(n, b(time))));
        assert_eq!(ours.len(), n);
        let phase = 0.5 * time;
        let point = |t: f32| {
            [
                (3.0 * t + phase).sin() * 0.8,
                (2.0 * t + 0.5).sin() * 0.8,
                (5.0 * t - 0.3 * phase).cos() * 0.4,
            ]
        };
        for i in 0..n {
            assert_eq!(native(ours[i].p0), point(TAU * i as f32 / n as f32));
            assert_eq!(native(ours[i].p1), point(TAU * (i + 1) as f32 / n as f32));
            assert_eq!(native(ours[i].color), [0.4, 1.0, 0.7]);
        }
    }
    assert!(lissajous(0, &[]).is_empty());
    assert!(lissajous_angles(0, b(1.0)).is_empty());
}

#[test]
fn scenes_move_as_they_should() {
    for time in [0.0f32, 0.1, 2.6, 17.3, 12345.678] {
        assert_eq!(
            Scene::Cube.model(b(time)),
            Model::Tumble { y: b(time * 0.7), x: b(time * 0.4) }
        );
        assert_eq!(Scene::Lissajous.model(b(time)), Model::Spin { y: b(time * 0.25) });
        assert_eq!(Scene::Ship.model(b(time)), Model::Still);
        assert_eq!(Scene::Draw.model(b(time)), Model::Still);
    }
}

#[test]
fn the_saucer_scrolls_and_begins_anew() {
    for i in -2000..2000 {
        let time = i as f32 * 0.37;
        let x = match Scene::Ufo.model(b(time)) {
            Model::Shift { x } => f(x),
            other => panic!("{other:?}"),
        };
        assert_eq!(x, (time * 1.2).rem_euclid(4.0) - 2.0, "at {time}");
        assert!((-2.0..=2.0).contains(&x));
    }
}
