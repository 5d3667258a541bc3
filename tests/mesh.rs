use topojson::api::wrap_mesh;
use topojson::feature::FeatureGeometryType;
use topojson::mesh::{leaves, mesh_records, ArcRecord};
use topojson::topology::{Geometry, TopoJSON};

type Pt = [f64; 2];

fn planar(points: &[(i64, i64)]) -> Vec<Vec<f64>> {
    points.iter().map(|p| vec![p.0 as f64, p.1 as f64]).collect()
}

fn two_lines(arcs: Vec<Vec<(i32, i32)>>) -> TopoJSON<Pt, ()> {
    TopoJSON {
        arcs,
        delta_encoded: false,
        objects: vec![(
            "collection".to_string(),
            Geometry::GeometryCollection {
                geometries: vec![Geometry::LineString { arcs: vec![0], meta: () }, Geometry::LineString { arcs: vec![1], meta: () }],
                meta: (),
            },
        )],
    }
}

fn lines_of(g: FeatureGeometryType<Pt>) -> Vec<Vec<Vec<f64>>> {
    match g {
        FeatureGeometryType::MultiLineString { coordinates } => coordinates.iter().map(|l| planar(l)).collect(),
        _ => panic!("Feature Geometry Type must be 'FeatureGeometryType::MultiLineString'"),
    }
}

#[test]
fn test_mesh_1() {
    let topology: TopoJSON<Pt, ()> = TopoJSON { arcs: Vec::new(), delta_encoded: false, objects: Vec::new() };
    assert_eq!(wrap_mesh(&topology, None), FeatureGeometryType::MultiLineString { coordinates: Vec::new() });
}

#[test]
fn test_mesh_2() {
    let topology = two_lines(vec![vec![(1, 0), (2, 0)], vec![(0, 0), (1, 0)]]);
    assert_eq!(lines_of(wrap_mesh(&topology, None)), vec![vec![vec![0., 0.], vec![1., 0.], vec![2., 0.]]]);
}

#[test]
fn test_mesh_3() {
    let topology = two_lines(vec![vec![(2, 0), (3, 0)], vec![(0, 0), (1, 0)]]);
    let coordinates = lines_of(wrap_mesh(&topology, None));
    for values in [vec![vec![2., 0.], vec![3., 0.]], vec![vec![0., 0.], vec![1., 0.]]] {
        assert!(coordinates.contains(&values));
    }
}

#[test]
fn mesh_of_an_object_uses_each_arc_once() {
    let topology: TopoJSON<Pt, ()> = TopoJSON {
        arcs: vec![vec![(0, 0), (1, 0)], vec![(1, 0), (2, 0)], vec![(5, 5), (6, 6)]],
        delta_encoded: false,
        objects: vec![(
            "lines".to_string(),
            Geometry::GeometryCollection {
                geometries: vec![
                    Geometry::LineString { arcs: vec![0, 1], meta: () },
                    Geometry::LineString { arcs: vec![!1], meta: () },
                ],
                meta: (),
            },
        )],
    };
    assert!(topology.is_valid());
    let lines = lines_of(wrap_mesh(&topology, Some(&topology.objects[0].1)));
    assert_eq!(lines, vec![vec![vec![0., 0.], vec![1., 0.], vec![2., 0.]]]);
}

#[test]
fn mesh_records_name_first_and_last_users() {
    let root: Geometry<Pt, ()> = Geometry::GeometryCollection {
        geometries: vec![
            Geometry::LineString { arcs: vec![0, 1], meta: () },
            Geometry::Point { coordinates: [0., 0.], meta: () },
            Geometry::LineString { arcs: vec![!1, 2], meta: () },
        ],
        meta: (),
    };
    let ls = leaves(&root);
    assert_eq!(ls.len(), 3);
    assert_eq!(
        mesh_records(&ls),
        vec![
            ArcRecord { arc: 0, first: 0, last: 0 },
            ArcRecord { arc: 1, first: 0, last: 2 },
            ArcRecord { arc: 2, first: 2, last: 2 },
        ]
    );
}

#[test]
fn mesh_select_keeps_only_chosen_arcs() {
    let topology: TopoJSON<Pt, ()> = TopoJSON {
        arcs: vec![vec![(0, 0), (1, 0)], vec![(1, 0), (2, 0)]],
        delta_encoded: false,
        objects: Vec::new(),
    };
    let records = vec![ArcRecord { arc: 0, first: 0, last: 0 }, ArcRecord { arc: 1, first: 0, last: 1 }];
    assert_eq!(topology.mesh_select(&records, &vec![true, false]), vec![vec![0]]);
    assert_eq!(topology.mesh_select(&records, &vec![false, true]), vec![vec![1]]);
    assert_eq!(topology.mesh_select(&records, &vec![true, true]), vec![vec![0, 1]]);
}

#[test]
fn mesh_by_key_reports_missing_key() {
    let topology = two_lines(vec![vec![(1, 0), (2, 0)], vec![(0, 0), (1, 0)]]);
    assert!(matches!(
        topology.mesh(Some(&"other".to_string())),
        Err(topojson::topology::TopologyError::KeyNotFound)
    ));
    let whole = lines_of(topology.mesh(None).unwrap());
    let keyed = lines_of(topology.mesh(Some(&"collection".to_string())).unwrap());
    assert_eq!(whole, keyed);
    assert_eq!(keyed, vec![vec![vec![0., 0.], vec![1., 0.], vec![2., 0.]]]);
}
