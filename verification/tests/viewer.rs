use amitex_gui::double::Double;
use amitex_gui::postproc::vtkio::VtkGrid;
use amitex_gui::single::Single;
use amitex_gui::viewer::colors::{hsv_to_rgb, material_color};
use amitex_gui::viewer::mesh::build_boundary_mesh;
use amitex_gui::viewer::orbit::{Frame, Orbit, Repaint, Spin};
use amitex_gui::viewer::shader::{shader_sources, GlslVersion};
use amitex_gui::viewer::surface::{complete, find_surface, Side};

fn d(x: f64) -> Double {
    Double { bits: x.to_bits() }
}

fn f(s: Single) -> f32 {
    f32::from_bits(s.bits)
}

fn s(x: f32) -> Single {
    Single { bits: x.to_bits() }
}

fn grid(nx: usize, ny: usize, nz: usize, data: &[f64]) -> VtkGrid {
    VtkGrid {
        nx,
        ny,
        nz,
        dx: d(0.1),
        dy: d(0.2),
        dz: d(0.3),
        varname: "id".to_string(),
        datatype: "int".to_string(),
        data: data.iter().map(|&x| d(x)).collect(),
    }
}

#[test]
fn a_block_has_faces_on_its_outside() {
    let surface = find_surface(&grid(2, 3, 4, &[1.0; 24]));
    assert_eq!(surface.faces.len(), 2 * (2 * 3 + 3 * 4 + 2 * 4));
    assert_eq!(surface.legend, vec![d(1.0)]);
    assert!(surface.faces.iter().all(|face| face.ordinal == 0));
}

#[test]
fn materials_have_faces_between_them() {
    let surface = find_surface(&grid(2, 1, 1, &[5.0, 3.0]));
    assert_eq!(surface.faces.len(), 12);
    assert_eq!(surface.legend, vec![d(3.0), d(5.0)]);
    assert_eq!(surface.faces[0].ordinal, 1);
    assert_eq!(surface.faces[0].side, Side::East);
    assert_eq!(surface.faces[7].side, Side::West);
    assert_eq!(surface.faces[11].ordinal, 0);
    // Nothing lies between voxels of one material.
    let surface = find_surface(&grid(2, 1, 1, &[3.0, 3.0]));
    assert_eq!(surface.faces.len(), 10);
    assert!(find_surface(&grid(0, 1, 1, &[])).faces.is_empty());
}

#[test]
fn grids_may_be_incomplete() {
    assert!(complete(&grid(2, 2, 2, &[0.0; 8])));
    assert!(!complete(&grid(2, 2, 2, &[0.0; 7])));
    assert!(!complete(&grid(usize::MAX, 2, 2, &[0.0; 7])));
    assert!(complete(&grid(usize::MAX, 0, 2, &[])));
}

#[test]
fn sides_have_normals_and_corners() {
    assert_eq!(Side::South.normal(), [0, -1, 0]);
    assert_eq!(Side::East.corners(), [[1, 0, 0], [1, 1, 0], [1, 1, 1], [1, 0, 1]]);
    assert_eq!(
        Side::Bottom.triangles(),
        [[0, 0, 0], [0, 1, 0], [1, 1, 0], [0, 0, 0], [1, 1, 0], [1, 0, 0]]
    );
    for side in [Side::East, Side::West, Side::North, Side::South, Side::Top, Side::Bottom] {
        let (c, n) = (side.corners(), side.normal());
        let e = |i: usize| [0, 1, 2].map(|k| c[i][k] as i32 - c[0][k] as i32);
        let (u, v) = (e(1), e(2));
        let cross =
            [u[1] * v[2] - u[2] * v[1], u[2] * v[0] - u[0] * v[2], u[0] * v[1] - u[1] * v[0]];
        assert_eq!(cross, n.map(|x| x as i32));
    }
}

/// The vertices on the machine's own numbers.
fn vertices(nx: usize, ny: usize, nz: usize, data: &[f64], colors: &[[f32; 3]]) -> Vec<f32> {
    let spacing = [0.1f64 as f32, 0.2f64 as f32, 0.3f64 as f32];
    let origin = [
        -(nx as f32) * spacing[0] / 2.0,
        -(ny as f32) * spacing[1] / 2.0,
        -(nz as f32) * spacing[2] / 2.0,
    ];
    let mut out = Vec::new();
    for face in find_surface(&grid(nx, ny, nz, data)).faces {
        let normal = face.side.normal();
        for corner in face.side.triangles() {
            out.push(origin[0] + (face.x as f32 + corner[0] as f32) * spacing[0]);
            out.push(origin[1] + (face.y as f32 + corner[1] as f32) * spacing[1]);
            out.push(origin[2] + (face.z as f32 + corner[2] as f32) * spacing[2]);
            out.extend(normal.iter().map(|&n| n as f32));
            out.extend(colors[face.ordinal]);
        }
    }
    out
}

#[test]
fn vertices_are_those_of_the_machine() {
    let data: Vec<f64> = (0..60).map(|i| ((i * i) % 7) as f64).collect();
    let g = grid(3, 4, 5, &data);
    let mesh = build_boundary_mesh(&g);
    let colors: Vec<[f32; 3]> = mesh.legend.iter().map(|(_, c)| c.map(f)).collect();
    let expected: Vec<u32> =
        vertices(3, 4, 5, &data, &colors).iter().map(|x| x.to_bits()).collect();
    let found: Vec<u32> = mesh.vertices.iter().map(|v| v.bits).collect();
    assert_eq!(found, expected);
    assert_eq!(found.len() % 54, 0);
    let (x, y, z) = (3.0 * (0.1f64 as f32), 4.0 * (0.2f64 as f32), 5.0 * (0.3f64 as f32));
    assert_eq!(f(mesh.bounding_radius), 0.5 * (x * x + y * y + z * z).sqrt());
    let tiny = VtkGrid { dx: d(0.0), dy: d(0.0), dz: d(0.0), ..grid(1, 1, 1, &[1.0]) };
    assert_eq!(f(build_boundary_mesh(&tiny).bounding_radius), 1e-3);
}

fn rgb(h: f32, s: f32, v: f32) -> [f32; 3] {
    let h = h.fract().rem_euclid(1.0) * 6.0;
    let i = h.floor() as i32;
    let f = h - h.floor();
    let p = v * (1.0 - s);
    let q = v * (1.0 - s * f);
    let t = v * (1.0 - s * (1.0 - f));
    match i.rem_euclid(6) {
        0 => [v, t, p],
        1 => [q, v, p],
        2 => [p, v, t],
        3 => [p, q, v],
        4 => [t, p, v],
        _ => [v, p, q],
    }
}

#[test]
fn colors_are_those_of_the_machine() {
    for i in 0..500 {
        let expected = rgb(i as f32 * 0.618_034, 0.55, 0.85);
        assert_eq!(material_color(i).map(f), expected, "{i}");
    }
    for h in [-0.25, -3.7, 0.0, 1.0, 0.999_999_9, 17.5, -1e-9, 1e30] {
        assert_eq!(hsv_to_rgb(s(h), s(0.4), s(0.9)).map(f), rgb(h, 0.4, 0.9), "{h}");
    }
    assert!(hsv_to_rgb(s(f32::INFINITY), s(0.4), s(0.9)).map(f)[1].is_nan());
}

#[test]
fn shaders_follow_the_dialect() {
    let (vertex, fragment) = shader_sources(GlslVersion::Gl140);
    assert_eq!(vertex, "#version 140\nin vec3 a_pos;\nin vec3 a_normal;\nin vec3 a_color;\nuniform mat4 u_mvp;\nout vec3 v_normal;\nout vec3 v_color;\nvoid main() { v_normal = a_normal; v_color = a_color; gl_Position = u_mvp * vec4(a_pos, 1.0); }\n");
    assert_eq!(fragment, "#version 140\nin vec3 v_normal;\nin vec3 v_color;\nuniform vec3 u_light_dir;\nout vec4 out_color;\nvoid main() { float diffuse = max(dot(normalize(v_normal), u_light_dir), 0.0); vec3 lit = v_color * (0.35 + diffuse * 0.65); out_color = vec4(lit, 1.0); }\n");
    let (vertex, fragment) = shader_sources(GlslVersion::Es100);
    assert!(vertex.starts_with("#version 100\nattribute vec3 a_pos;\n"));
    assert!(fragment.starts_with("#version 100\nprecision mediump float;\nvarying vec3 v_normal;\n"));
    let (vertex, fragment) = shader_sources(GlslVersion::Gl120);
    assert!(vertex.starts_with("#version 120\nattribute vec3 a_pos;\n"));
    assert!(fragment.starts_with("#version 120\nvarying vec3 v_normal;\n"));
    assert!(fragment.ends_with("gl_FragColor = vec4(lit, 1.0); }\n"));
    assert!(shader_sources(GlslVersion::Es300).1.starts_with("#version 300 es\nin vec3 v_normal;\n"));
}

#[test]
fn the_view_turns_when_it_is_left_alone() {
    let mut spin = Spin::default();
    assert!(spin.spin_active);
    assert_eq!(spin.repaint(d(0.0)), Repaint::Now);
    spin.update(true, false, d(1.0));
    assert_eq!(spin, Spin { dragging: true, spin_active: false, idle_since: None });
    assert_eq!(spin.repaint(d(1.0)), Repaint::Now);
    spin.update(false, true, d(2.0));
    assert_eq!(spin, Spin { dragging: false, spin_active: false, idle_since: Some(d(2.0)) });
    assert_eq!(spin.repaint(d(5.0)), Repaint::After { seconds: d(7.0) });
    spin.update(false, false, d(11.5));
    assert!(!spin.spin_active);
    assert_eq!(spin.repaint(d(12.5)), Repaint::After { seconds: d(0.0) });
    spin.update(false, false, d(12.0));
    assert_eq!(spin, Spin::default());
    let still = Spin { dragging: false, spin_active: false, idle_since: None };
    assert_eq!(still.repaint(d(0.0)), Repaint::Never);
}

#[test]
fn the_view_turns_as_on_the_machine() {
    let mut orbit = Orbit::default();
    assert_eq!((f(orbit.yaw), f(orbit.pitch)), (0.0, 0.45));
    let (mut yaw, mut pitch) = (0.0f32, 0.45f32);
    let mut frame = Frame {
        dragged: false,
        stopped: false,
        dx: s(0.0),
        dy: s(0.0),
        now: d(0.0),
        dt: s(0.016),
    };
    for i in 0..2000 {
        frame.now = d(i as f64 * 0.016);
        frame.dragged = (500..520).contains(&i);
        frame.stopped = i == 520;
        frame.dx = s(i as f32 - 505.0);
        frame.dy = s(37.5);
        if frame.dragged {
            yaw -= f(frame.dx) * 0.008;
            pitch = (pitch + 37.5 * 0.008).clamp(-1.3, 1.3);
        }
        orbit.update(frame);
        if orbit.spin.spin_active {
            yaw = (yaw + 0.35 * 0.016f32).rem_euclid(std::f32::consts::TAU);
        }
        assert_eq!((f(orbit.yaw), f(orbit.pitch)), (yaw, pitch), "{i}");
        assert_eq!(orbit.spin.spin_active, i < 500 || i >= 520 + 625, "{i}");
    }
    // It was tilted as far as it can be.
    assert_eq!(pitch, 1.3);
}

#[test]
fn wide_grids_without_cells_have_no_faces() {
    let n = (1usize << 60) + (1 << 36) + 1;
    for (nx, ny, nz) in [(n, 0, 0), (n, n, 0)] {
        let mesh = build_boundary_mesh(&grid(nx, ny, nz, &[]));
        assert!(mesh.vertices.is_empty());
        assert!(mesh.legend.is_empty());
        let (x, y) = (nx as f32 * 0.1f64 as f32, ny as f32 * 0.2f64 as f32);
        assert_eq!(f(mesh.bounding_radius), 0.5 * (x * x + y * y + 0.0).sqrt());
    }
}

#[test]
fn faces_have_the_colour_of_their_voxel() {
    let data = [5.0, 3.0, 5.0, -2.5, 0.0, 3.0, 9.0, 5.0];
    let g = grid(2, 2, 2, &data);
    let surface = find_surface(&g);
    let mesh = build_boundary_mesh(&g);
    let ids: Vec<f64> = mesh.legend.iter().map(|e| f64::from_bits(e.0.bits)).collect();
    assert_eq!(ids, vec![-2.5, 0.0, 3.0, 5.0, 9.0]);
    for (k, face) in surface.faces.iter().enumerate() {
        let value = data[face.x + 2 * (face.y + 2 * face.z)];
        assert_eq!(ids[face.ordinal], value);
        for c in 0..6 {
            let at = 54 * k + 9 * c + 6;
            assert_eq!(mesh.vertices[at..at + 3], mesh.legend[face.ordinal].1);
            assert_eq!(mesh.legend[face.ordinal].1, material_color(face.ordinal));
        }
    }
    // The legend does not depend on the order of the data.
    let mut back = data;
    back.reverse();
    assert_eq!(build_boundary_mesh(&grid(2, 2, 2, &back)).legend, mesh.legend);
}

#[test]
fn tilts_stay_numbers() {
    let mut orbit = Orbit::default();
    for dy in [1e30, f32::NEG_INFINITY, 0.5, f32::INFINITY, -3.0] {
        orbit.update(Frame {
            dragged: true,
            stopped: false,
            dx: s(0.0),
            dy: s(dy),
            now: d(0.0),
            dt: s(0.0),
        });
        assert!(f(orbit.pitch).abs() <= 1.3, "{dy}");
    }
}
