use topojson::api::wrap_neighbors;
use topojson::topology::{Geometry, TopoJSON, TopologyError};

type Pt = [f64; 2];

fn lines(list: Vec<Vec<i32>>) -> Vec<Geometry<Pt, ()>> {
    list.into_iter().map(|arcs| Geometry::LineString { arcs, meta: () }).collect()
}

fn polygons(list: Vec<Vec<Vec<i32>>>) -> Vec<Geometry<Pt, ()>> {
    list.into_iter().map(|arcs| Geometry::Polygon { arcs, meta: () }).collect()
}

#[test]
fn test_neighbors_1() {
    assert_eq!(wrap_neighbors::<Pt, ()>(&Vec::new()), Vec::<Vec<i32>>::new());
}

#[test]
fn test_neighbors_2() {
    assert_eq!(wrap_neighbors(&lines(vec![vec![0], vec![1]])), vec![Vec::<i32>::new(); 2]);
}

#[test]
fn test_neighbors_3() {
    assert_eq!(wrap_neighbors(&lines(vec![vec![0, 1], vec![1, 2]])), vec![vec![1], vec![0]]);
}

#[test]
fn test_neighbors_4() {
    assert_eq!(wrap_neighbors(&lines(vec![vec![0, 1], vec![2, -2]])), vec![vec![1], vec![0]]);
}

#[test]
fn test_neighbors_5() {
    let objects = lines(vec![
        vec![0, 1, 2],
        vec![1, 2, 3],
        vec![2, 3, 4],
        vec![-3, -2, -1],
        vec![-4, -3, -2],
        vec![-5, -4, -3],
    ]);
    assert_eq!(
        wrap_neighbors(&objects),
        vec![
            vec![1, 2, 3, 4, 5],
            vec![0, 2, 3, 4, 5],
            vec![0, 1, 3, 4, 5],
            vec![0, 1, 2, 4, 5],
            vec![0, 1, 2, 3, 5],
            vec![0, 1, 2, 3, 4]
        ]
    );
}

#[test]
fn test_neighbors_6() {
    let objects = polygons(vec![vec![vec![0, 1]], vec![vec![2, -1]], vec![vec![3]]]);
    assert_eq!(wrap_neighbors(&objects), vec![vec![1], vec![0], vec![]]);
}

#[test]
fn test_neighbors_7() {
    let objects = polygons(vec![vec![vec![0, 1, 2, 3]], vec![vec![4, -3, 5, -1]]]);
    assert_eq!(wrap_neighbors(&objects), vec![vec![1], vec![0]]);
}

#[test]
fn neighbors_chain_scenario() {
    assert_eq!(wrap_neighbors(&lines(vec![vec![0, 1], vec![1, 2]])), vec![vec![1], vec![0]]);
    assert_eq!(wrap_neighbors(&lines(vec![vec![0, 1], vec![2, !1]])), vec![vec![1], vec![0]]);
}

#[test]
fn neighbors_ignore_points_and_self_sharing() {
    let objects: Vec<Geometry<Pt, ()>> = vec![
        Geometry::Point { coordinates: [0., 0.], meta: () },
        Geometry::LineString { arcs: vec![0, !0], meta: () },
        Geometry::GeometryCollection { geometries: vec![Geometry::LineString { arcs: vec![0], meta: () }], meta: () },
    ];
    assert_eq!(wrap_neighbors(&objects), vec![vec![], vec![2], vec![1]]);
}

#[test]
fn neighbors_are_symmetric_on_a_fan() {
    let objects = lines(vec![vec![0], vec![0, 1], vec![1, 2], vec![2, 0]]);
    let n = wrap_neighbors(&objects);
    for i in 0..n.len() {
        for w in n[i].windows(2) {
            assert!(w[0] < w[1]);
        }
        for &j in &n[i] {
            assert!(n[j as usize].contains(&(i as i32)));
        }
    }
    assert_eq!(n, vec![vec![1, 3], vec![0, 2, 3], vec![1, 3], vec![0, 1, 2]]);
}

#[test]
fn neighbors_by_key_reports_missing_key_and_wrong_kind() {
    let t: TopoJSON<Pt, ()> = TopoJSON {
        arcs: vec![vec![(0, 0), (1, 0)], vec![(1, 0), (2, 0)]],
        delta_encoded: false,
        objects: vec![
            ("pair".to_string(), Geometry::GeometryCollection { geometries: lines(vec![vec![0, 1], vec![!1]]), meta: () }),
            ("single".to_string(), Geometry::LineString { arcs: vec![0], meta: () }),
        ],
    };
    assert_eq!(t.neighbors(&"pair".to_string()), Ok(vec![vec![1], vec![0]]));
    assert_eq!(t.neighbors(&"none".to_string()), Err(TopologyError::KeyNotFound));
    assert_eq!(t.neighbors(&"single".to_string()), Err(TopologyError::TypeMismatch));
}
