use frey::icosphere::{generate_icosphere, icosahedron_faces, subdivide_icosphere, IcoVertex};

#[test]
fn level_zero_has_expected_topology() {
    let (positions, indices) = generate_icosphere(0);
    assert_eq!(positions.len(), 12);
    assert_eq!(indices.len(), 60);
}

#[test]
fn level_six_has_expected_counts() {
    let (positions, indices) = generate_icosphere(6);
    let expected_faces = 20 * 4_u32.pow(6);
    let expected_vertices = 10 * 4_u32.pow(6) + 2;
    assert_eq!(indices.len() as u32, expected_faces * 3);
    assert_eq!(positions.len() as u32, expected_vertices);
}

#[test]
fn icosphere_levels_follow_euler_counts() {
    for level in 0..5u32 {
        let (vertices, indices) = generate_icosphere(level);
        let faces = 20 * 4usize.pow(level);
        assert_eq!(indices.len(), 3 * faces);
        assert_eq!(vertices.len(), 10 * 4usize.pow(level) + 2);
        assert!(indices.iter().all(|&i| (i as usize) < vertices.len()));
    }
}

#[test]
fn icosphere_corners_come_first_and_midpoints_refer_back() {
    let (vertices, _) = generate_icosphere(2);
    for (i, v) in vertices.iter().enumerate() {
        if i < 12 {
            assert_eq!(*v, IcoVertex::Base(i as u32));
        } else {
            match v {
                IcoVertex::Midpoint(a, b) => assert!(a < b && (*b as usize) < i),
                IcoVertex::Base(_) => panic!("corner after the first twelve vertices"),
            }
        }
    }
}

#[test]
fn one_subdivision_splits_a_triangle_into_four() {
    let mut vertices = vec![IcoVertex::Base(0), IcoVertex::Base(1), IcoVertex::Base(2)];
    let faces = vec![0, 1, 2];
    let out = subdivide_icosphere(&mut vertices, &faces);
    assert_eq!(
        vertices,
        vec![
            IcoVertex::Base(0),
            IcoVertex::Base(1),
            IcoVertex::Base(2),
            IcoVertex::Midpoint(0, 1),
            IcoVertex::Midpoint(1, 2),
            IcoVertex::Midpoint(0, 2),
        ]
    );
    assert_eq!(out, vec![0, 3, 5, 1, 4, 3, 2, 5, 4, 3, 4, 5]);
}

#[test]
fn shared_edges_get_one_midpoint() {
    let mut vertices = vec![IcoVertex::Base(0), IcoVertex::Base(1), IcoVertex::Base(2), IcoVertex::Base(3)];
    let faces = vec![0, 1, 2, 2, 1, 3];
    let out = subdivide_icosphere(&mut vertices, &faces);
    assert_eq!(vertices.len(), 4 + 5);
    assert_eq!(out.len(), 24);
    assert_eq!(out[4], out[12 + 1]);
}

#[test]
fn icosahedron_has_twenty_faces_over_twelve_corners() {
    let faces = icosahedron_faces();
    assert_eq!(faces.len(), 60);
    assert_eq!(&faces[0..3], &[0, 11, 5]);
    for c in 0..12u32 {
        assert_eq!(faces.iter().filter(|&&f| f == c).count(), 5);
    }
}
