use topojson::api::wrap_merge;
use topojson::feature::FeatureGeometryType;
use topojson::topology::{Geometry, TopoJSON, TopologyError};

type Pt = [f64; 2];

fn planar(points: &[(i64, i64)]) -> Vec<Vec<f64>> {
    points.iter().map(|p| vec![p.0 as f64, p.1 as f64]).collect()
}

fn polygon(arcs: Vec<Vec<i32>>) -> Geometry<Pt, ()> {
    Geometry::Polygon { arcs, meta: () }
}

fn collection_topology(arcs: Vec<Vec<(i32, i32)>>, members: Vec<Geometry<Pt, ()>>) -> TopoJSON<Pt, ()> {
    TopoJSON {
        arcs,
        delta_encoded: false,
        objects: vec![("collection".to_string(), Geometry::GeometryCollection { geometries: members, meta: () })],
    }
}

fn merged(topology: &TopoJSON<Pt, ()>) -> Vec<Vec<Vec<Vec<f64>>>> {
    assert!(topology.is_valid());
    if let Geometry::GeometryCollection { geometries, meta: () } = &topology.objects[0].1 {
        match wrap_merge(topology, geometries) {
            FeatureGeometryType::MultiPolygon { coordinates } => coordinates
                .iter()
                .map(|p| p.iter().map(|r| planar(r)).collect())
                .collect(),
            _ => panic!("MultiPolygon"),
        }
    } else {
        panic!("TopoJSON must have a collection of geometries.")
    }
}

#[test]
fn test_merge_1() {
    let topology: TopoJSON<Pt, ()> = TopoJSON { arcs: Vec::new(), delta_encoded: false, objects: Vec::new() };
    assert_eq!(
        wrap_merge(&topology, &Vec::new()),
        FeatureGeometryType::MultiPolygon { coordinates: Vec::new() }
    );
}

#[test]
fn test_merge_2() {
    let topology = collection_topology(
        vec![
            vec![(1, 1), (1, 0)],
            vec![(1, 0), (0, 0), (0, 1), (1, 1)],
            vec![(1, 1), (2, 1), (2, 0), (1, 0)],
        ],
        vec![polygon(vec![vec![0, 1]]), polygon(vec![vec![-1, 2]])],
    );
    assert_eq!(
        merged(&topology),
        vec![vec![vec![
            vec![1., 0.],
            vec![0., 0.],
            vec![0., 1.],
            vec![1., 1.],
            vec![2., 1.],
            vec![2., 0.],
            vec![1., 0.]
        ]]]
    );
}

#[test]
fn test_merge_3() {
    let topology = collection_topology(
        vec![
            vec![(0, 0), (0, 1), (1, 1), (1, 0), (0, 0)],
            vec![(2, 0), (2, 1), (3, 1), (3, 0), (2, 0)],
        ],
        vec![polygon(vec![vec![0]]), polygon(vec![vec![1]])],
    );
    assert_eq!(
        merged(&topology),
        vec![
            vec![vec![vec![0., 0.], vec![0., 1.], vec![1., 1.], vec![1., 0.], vec![0., 0.]]],
            vec![vec![vec![2., 0.], vec![2., 1.], vec![3., 1.], vec![3., 0.], vec![2., 0.]]]
        ]
    );
}

#[test]
fn test_merge_4() {
    let topology = collection_topology(
        vec![
            vec![(0, 0), (0, 3), (3, 3), (3, 0), (0, 0)],
            vec![(1, 1), (2, 1), (2, 2), (1, 2), (1, 1)],
        ],
        vec![polygon(vec![vec![0], vec![1]]), polygon(vec![vec![-2]])],
    );
    assert_eq!(
        merged(&topology),
        vec![vec![vec![vec![0., 0.], vec![0., 3.], vec![3., 3.], vec![3., 0.], vec![0., 0.]]]]
    );
}

#[test]
fn test_merge_5() {
    let topology = collection_topology(
        vec![
            vec![(3, 3), (3, 0)],
            vec![(3, 0), (0, 0), (0, 3), (3, 3)],
            vec![(1, 1), (2, 1), (2, 2), (1, 2), (1, 1)],
            vec![(3, 3), (6, 3), (6, 0), (3, 0)],
            vec![(4, 1), (5, 1), (5, 2), (4, 2), (4, 1)],
        ],
        vec![polygon(vec![vec![0, 1], vec![2]]), polygon(vec![vec![-1, 3], vec![4]])],
    );
    assert_eq!(
        merged(&topology),
        vec![vec![
            vec![vec![3., 0.], vec![0., 0.], vec![0., 3.], vec![3., 3.], vec![6., 3.], vec![6., 0.], vec![3., 0.]],
            vec![vec![1., 1.], vec![2., 1.], vec![2., 2.], vec![1., 2.], vec![1., 1.]],
            vec![vec![4., 1.], vec![5., 1.], vec![5., 2.], vec![4., 2.], vec![4., 1.]]
        ]]
    );
}

fn square_ring_arcs() -> Vec<Vec<(i32, i32)>> {
    vec![
        vec![(2, 3), (2, 2)],
        vec![(2, 2), (1, 2), (1, 1), (2, 1)],
        vec![(2, 1), (2, 0)],
        vec![(2, 0), (0, 0), (0, 3), (2, 3)],
        vec![(2, 1), (3, 1), (3, 2), (2, 2)],
        vec![(2, 3), (4, 3), (4, 0), (2, 0)],
    ]
}

#[test]
fn test_merge_6() {
    let topology = collection_topology(
        square_ring_arcs(),
        vec![polygon(vec![vec![0, 1, 2, 3]]), polygon(vec![vec![-3, 4, -1, 5]])],
    );
    assert_eq!(
        merged(&topology),
        vec![vec![
            vec![vec![2., 0.], vec![0., 0.], vec![0., 3.], vec![2., 3.], vec![4., 3.], vec![4., 0.], vec![2., 0.]],
            vec![vec![2., 2.], vec![1., 2.], vec![1., 1.], vec![2., 1.], vec![3., 1.], vec![3., 2.], vec![2., 2.]]
        ]]
    );
}

#[test]
fn test_merge_7() {
    let mut arcs = square_ring_arcs();
    arcs.push(vec![(2, 2), (2, 1)]);
    let topology = collection_topology(
        arcs,
        vec![
            polygon(vec![vec![0, 1, 2, 3]]),
            polygon(vec![vec![-3, 4, -1, 5]]),
            polygon(vec![vec![6, -2]]),
            polygon(vec![vec![-7, -5]]),
        ],
    );
    assert_eq!(
        merged(&topology),
        vec![vec![vec![vec![2., 0.], vec![0., 0.], vec![0., 3.], vec![2., 3.], vec![4., 3.], vec![4., 0.], vec![2., 0.]]]]
    );
}

#[test]
fn merge_by_key_reports_missing_key_and_wrong_kind() {
    let topology = collection_topology(
        vec![vec![(0, 0), (0, 1), (1, 1), (1, 0), (0, 0)]],
        vec![polygon(vec![vec![0]])],
    );
    assert!(matches!(topology.merge(&"nothing".to_string()), Err(TopologyError::KeyNotFound)));
    let single: TopoJSON<Pt, ()> = TopoJSON {
        arcs: vec![vec![(0, 0), (0, 1), (1, 1), (1, 0), (0, 0)]],
        delta_encoded: false,
        objects: vec![("square".to_string(), polygon(vec![vec![0]]))],
    };
    assert!(matches!(single.merge(&"square".to_string()), Err(TopologyError::TypeMismatch)));
    assert!(matches!(
        topology.merge(&"collection".to_string()),
        Ok(FeatureGeometryType::MultiPolygon { .. })
    ));
}

#[test]
fn merge_puts_the_largest_ring_first() {
    // A small square inside a large one, both the boundary of one group.
    let topology = collection_topology(
        vec![
            vec![(1, 1), (2, 1), (2, 2), (1, 2), (1, 1)],
            vec![(0, 0), (0, 3), (3, 3), (3, 0), (0, 0)],
        ],
        vec![polygon(vec![vec![0], vec![1]])],
    );
    let m = merged(&topology);
    assert_eq!(m.len(), 1);
    assert_eq!(m[0].len(), 2);
    assert_eq!(m[0][0], vec![vec![0., 0.], vec![0., 3.], vec![3., 3.], vec![3., 0.], vec![0., 0.]]);
}

#[test]
fn ring_area_is_twice_the_planar_area() {
    let topology: TopoJSON<Pt, ()> = TopoJSON {
        arcs: vec![vec![(0, 0), (0, 3), (3, 3), (3, 0), (0, 0)]],
        delta_encoded: false,
        objects: Vec::new(),
    };
    assert_eq!(topology.ring_area(&vec![0]), 18);
    assert_eq!(topology.ring_area(&vec![!0]), 18);
}

#[test]
fn merge_keeps_separate_groups_apart() {
    let topology = collection_topology(
        vec![
            vec![(1, 1), (1, 0)],
            vec![(1, 0), (0, 0), (0, 1), (1, 1)],
            vec![(1, 1), (2, 1), (2, 0), (1, 0)],
            vec![(5, 5), (5, 6), (6, 6), (6, 5), (5, 5)],
        ],
        vec![polygon(vec![vec![0, 1]]), polygon(vec![vec![3]]), polygon(vec![vec![-1, 2]])],
    );
    assert_eq!(
        merged(&topology),
        vec![
            vec![vec![vec![1., 0.], vec![0., 0.], vec![0., 1.], vec![1., 1.], vec![2., 1.], vec![2., 0.], vec![1., 0.]]],
            vec![vec![vec![5., 5.], vec![5., 6.], vec![6., 6.], vec![6., 5.], vec![5., 5.]]]
        ]
    );
}

#[test]
fn merge_keeps_an_arc_named_twice_by_one_polygon() {
    let topology = collection_topology(vec![vec![(0, 0), (1, 0)]], vec![polygon(vec![vec![0, !0]])]);
    assert_eq!(merged(&topology), vec![vec![vec![vec![0., 0.], vec![1., 0.], vec![0., 0.], vec![0., 0.]]]]);
}

#[test]
fn merge_counts_polygons_not_references() {
    // Arc 0 is used twice by the first polygon and once by the second, arc 1
    // once by each: both are shared by two polygons, so both are dissolved.
    let topology = collection_topology(
        vec![vec![(0, 0), (1, 0)], vec![(1, 0), (1, 1), (0, 0)]],
        vec![polygon(vec![vec![0, !0], vec![0, 1]]), polygon(vec![vec![!0, !1]])],
    );
    assert_eq!(merged(&topology), Vec::<Vec<Vec<Vec<f64>>>>::new());
}
