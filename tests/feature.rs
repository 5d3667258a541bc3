use topojson::feature::{Feature, FeatureGeometryType, FeatureItem};
use topojson::topology::{Geometry, TopoJSON};
use topojson::api::wrap_feature;

type Pt = [f64; 2];

/// The decoded grid positions under scale (1, 1) and translate (0, 0).
fn planar(points: &[(i64, i64)]) -> Vec<Vec<f64>> {
    points.iter().map(|p| vec![p.0 as f64 * 1. + 0., p.1 as f64 * 1. + 0.]).collect()
}

fn simple_topology(object: Geometry<Pt, ()>) -> TopoJSON<Pt, ()> {
    TopoJSON {
        arcs: vec![
            vec![(0, 0), (1, 0), (0, 1), (-1, 0), (0, -1)],
            vec![(0, 0), (1, 0), (0, 1)],
            vec![(1, 1), (-1, 0), (0, -1)],
            vec![(1, 1)],
            vec![(0, 0)],
        ],
        delta_encoded: true,
        objects: vec![("foo".to_string(), object)],
    }
}

fn item(t: &TopoJSON<Pt, ()>) -> FeatureGeometryType<Pt> {
    assert!(t.is_valid());
    match wrap_feature(t, &t.objects[0].1) {
        Feature::Item(g) => g.geometry,
        Feature::Collection(_) => panic!("Result should be variant of Feature::Item"),
    }
}

#[test]
fn test_feature_1() {
    let t = simple_topology(Geometry::Polygon { arcs: vec![vec![0]], meta: () });
    assert!(matches!(item(&t), FeatureGeometryType::Polygon { .. }));
}

#[test]
fn test_feature_2() {
    let t = simple_topology(Geometry::Point { coordinates: [0., 0.], meta: () });
    assert_eq!(item(&t), FeatureGeometryType::Point { coordinates: [0., 0.] });
}

#[test]
fn test_feature_3() {
    let t = simple_topology(Geometry::MultiPoint { coordinates: vec![[0., 0.]], meta: () });
    assert_eq!(item(&t), FeatureGeometryType::MultiPoint { coordinates: vec![[0., 0.]] });
}

#[test]
fn test_feature_4() {
    let t = simple_topology(Geometry::LineString { arcs: vec![0], meta: () });
    match item(&t) {
        FeatureGeometryType::LineString { coordinates } => assert_eq!(
            planar(&coordinates),
            vec![vec![0., 0.], vec![1., 0.], vec![1., 1.], vec![0., 1.], vec![0., 0.]]
        ),
        _ => panic!("Feature"),
    }
}

#[test]
fn test_feature_5() {
    let t = simple_topology(Geometry::MultiLineString { arcs: vec![vec![0]], meta: () });
    match item(&t) {
        FeatureGeometryType::MultiLineString { coordinates } => {
            assert_eq!(coordinates.len(), 1);
            assert_eq!(
                planar(&coordinates[0]),
                vec![vec![0., 0.], vec![1., 0.], vec![1., 1.], vec![0., 1.], vec![0., 0.]]
            );
        },
        _ => panic!("Feature"),
    }
}

#[test]
fn test_feature_6() {
    let t = simple_topology(Geometry::LineString { arcs: vec![3], meta: () });
    match item(&t) {
        FeatureGeometryType::LineString { coordinates } => {
            assert_eq!(planar(&coordinates), vec![vec![1., 1.], vec![1., 1.]])
        },
        _ => panic!("Feature"),
    }
    let t = simple_topology(Geometry::MultiLineString { arcs: vec![vec![3], vec![4]], meta: () });
    match item(&t) {
        FeatureGeometryType::MultiLineString { coordinates } => {
            assert_eq!(coordinates.len(), 2);
            assert_eq!(planar(&coordinates[0]), vec![vec![1., 1.], vec![1., 1.]]);
            assert_eq!(planar(&coordinates[1]), vec![vec![0., 0.], vec![0., 0.]]);
        },
        _ => panic!("MultiLineString"),
    }
}

#[test]
fn test_feature_7() {
    let t = simple_topology(Geometry::Polygon { arcs: vec![vec![0]], meta: () });
    match item(&t) {
        FeatureGeometryType::Polygon { coordinates } => {
            assert_eq!(coordinates.len(), 1);
            assert_eq!(
                planar(&coordinates[0]),
                vec![vec![0., 0.], vec![1., 0.], vec![1., 1.], vec![0., 1.], vec![0., 0.]]
            );
        },
        _ => panic!("Feature"),
    }
}

#[test]
fn test_feature_8() {
    let t = simple_topology(Geometry::MultiPolygon { arcs: vec![vec![vec![0]]], meta: () });
    match item(&t) {
        FeatureGeometryType::MultiPolygon { coordinates } => {
            assert_eq!(coordinates.len(), 1);
            assert_eq!(coordinates[0].len(), 1);
            assert_eq!(
                planar(&coordinates[0][0]),
                vec![vec![0., 0.], vec![1., 0.], vec![1., 1.], vec![0., 1.], vec![0., 0.]]
            );
        },
        _ => panic!("Feature"),
    }
}

#[test]
fn test_feature_9() {
    let topology: TopoJSON<Pt, ()> = TopoJSON {
        arcs: vec![vec![(0, 0), (1, 1)], vec![(1, 1), (-1, -1)]],
        delta_encoded: true,
        objects: vec![
            ("foo".to_string(), Geometry::Polygon { arcs: vec![vec![0]], meta: () }),
            ("bar".to_string(), Geometry::Polygon { arcs: vec![vec![0, 1]], meta: () }),
        ],
    };
    assert!(topology.is_valid());
    for (k, name) in [(0usize, "foo"), (1usize, "bar")] {
        match topology.feature(&name.to_string()) {
            Ok(Feature::Item(FeatureItem { geometry: FeatureGeometryType::Polygon { coordinates }, .. })) => {
                assert_eq!(coordinates.len(), 1);
                assert_eq!(
                    planar(&coordinates[0]),
                    vec![vec![0., 0.], vec![1., 1.], vec![0., 0.], vec![0., 0.]],
                    "FeatureGeometryType of '{}' must be variant of 'Polygon'.",
                    topology.objects[k].0
                );
            },
            _ => panic!("Feature of '{}' must be variant of 'Item'.", name),
        }
    }
}

#[test]
fn test_feature_10() {
    let t = simple_topology(Geometry::GeometryCollection {
        geometries: vec![Geometry::MultiPolygon { arcs: vec![vec![vec![0]]], meta: () }],
        meta: (),
    });
    assert!(t.is_valid());
    match wrap_feature(&t, &t.objects[0].1) {
        Feature::Collection(features) => {
            assert_eq!(features.len(), 1);
            match &features[0].geometry {
                FeatureGeometryType::MultiPolygon { coordinates } => assert_eq!(
                    planar(&coordinates[0][0]),
                    vec![vec![0., 0.], vec![1., 0.], vec![1., 1.], vec![0., 1.], vec![0., 0.]]
                ),
                _ => panic!("Feature"),
            }
        },
        _ => panic!("FeatureCollection"),
    }
}

#[test]
fn test_feature_11() {
    let t = simple_topology(Geometry::GeometryCollection {
        geometries: vec![Geometry::Point { coordinates: [0., 0.], meta: () }],
        meta: (),
    });
    assert!(t.is_valid());
    assert_eq!(
        wrap_feature(&t, &t.objects[0].1),
        Feature::Collection(vec![FeatureItem { geometry: FeatureGeometryType::Point { coordinates: [0., 0.] }, meta: () }])
    );
}

#[test]
fn test_feature_17() {
    let t = simple_topology(Geometry::Polygon { arcs: vec![vec![0]], meta: () });
    match item(&t) {
        FeatureGeometryType::Polygon { coordinates } => assert_eq!(
            planar(&coordinates[0]),
            vec![vec![0., 0.], vec![1., 0.], vec![1., 1.], vec![0., 1.], vec![0., 0.]]
        ),
        _ => panic!("Feature Geometry Type must be variant of 'Polygon'."),
    }
}

#[test]
fn test_feature_18() {
    let t = simple_topology(Geometry::Polygon { arcs: vec![vec![!0]], meta: () });
    match item(&t) {
        FeatureGeometryType::Polygon { coordinates } => assert_eq!(
            planar(&coordinates[0]),
            vec![vec![0., 0.], vec![0., 1.], vec![1., 1.], vec![1., 0.], vec![0., 0.]]
        ),
        _ => panic!("Feature Geometry Type must be variant of 'Polygon'."),
    }
}

#[test]
fn test_feature_19() {
    let t = simple_topology(Geometry::LineString { arcs: vec![1, 2], meta: () });
    match item(&t) {
        FeatureGeometryType::LineString { coordinates } => assert_eq!(
            planar(&coordinates),
            vec![vec![0., 0.], vec![1., 0.], vec![1., 1.], vec![0., 1.], vec![0., 0.]]
        ),
        _ => panic!("Feature"),
    }
}

#[test]
fn feature_of_missing_key_is_an_error() {
    let t = simple_topology(Geometry::Polygon { arcs: vec![vec![0]], meta: () });
    assert!(matches!(
        t.feature(&"bar".to_string()),
        Err(topojson::topology::TopologyError::KeyNotFound)
    ));
}

#[test]
fn ring_of_one_point_arc_is_padded_to_four() {
    let t = simple_topology(Geometry::Polygon { arcs: vec![vec![3]], meta: () });
    match item(&t) {
        FeatureGeometryType::Polygon { coordinates } => {
            assert_eq!(planar(&coordinates[0]), vec![vec![1., 1.]; 4]);
        },
        _ => panic!("Polygon"),
    }
}

/// The identifier and the property name of a geometry.
#[derive(Clone, Copy, Debug, PartialEq)]
struct Meta {
    id: Option<&'static str>,
    name: Option<&'static str>,
}

const NONE: Meta = Meta { id: None, name: None };

fn meta_topology(object: Geometry<Pt, Meta>) -> TopoJSON<Pt, Meta> {
    TopoJSON {
        arcs: simple_topology(Geometry::Point { coordinates: [0., 0.], meta: () }).arcs,
        delta_encoded: true,
        objects: vec![("foo".to_string(), object)],
    }
}

fn meta_feature(t: &TopoJSON<Pt, Meta>) -> Feature<Pt, Meta> {
    assert!(t.is_valid());
    t.feature(&"foo".to_string()).unwrap()
}

#[test]
fn test_feature_12() {
    let t = meta_topology(Geometry::GeometryCollection {
        geometries: vec![Geometry::Point { coordinates: [0., 0.], meta: Meta { id: Some("feature"), name: None } }],
        meta: Meta { id: Some("collection"), name: None },
    });
    assert_eq!(
        meta_feature(&t),
        Feature::Collection(vec![FeatureItem {
            geometry: FeatureGeometryType::Point { coordinates: [0., 0.] },
            meta: Meta { id: Some("feature"), name: None },
        }])
    );
}

#[test]
fn test_feature_13() {
    let t = meta_topology(Geometry::GeometryCollection {
        geometries: vec![Geometry::Point { coordinates: [0., 0.], meta: Meta { id: None, name: Some("feature") } }],
        meta: Meta { id: None, name: Some("collection") },
    });
    assert_eq!(
        meta_feature(&t),
        Feature::Collection(vec![FeatureItem {
            geometry: FeatureGeometryType::Point { coordinates: [0., 0.] },
            meta: Meta { id: None, name: Some("feature") },
        }])
    );
}

#[test]
fn test_feature_14() {
    let t = meta_topology(Geometry::Polygon { arcs: vec![vec![0]], meta: Meta { id: Some("foo"), name: None } });
    match meta_feature(&t) {
        Feature::Item(feature) => assert_eq!(feature.meta.id, Some("foo")),
        _ => panic!("Feature must be variant of 'Item'."),
    }
}

#[test]
fn test_feature_15() {
    let t = meta_topology(Geometry::Polygon { arcs: vec![vec![0]], meta: Meta { id: None, name: Some("property") } });
    match meta_feature(&t) {
        Feature::Item(feature) => assert_eq!(feature.meta.name, Some("property")),
        _ => panic!("Feature must be variant of 'Item'."),
    }
}

#[test]
fn test_feature_16() {
    let t = meta_topology(Geometry::Polygon { arcs: vec![vec![0]], meta: NONE });
    match meta_feature(&t) {
        Feature::Item(feature) => {
            assert_eq!(feature.meta.id, None);
            assert_eq!(feature.meta.name, None);
        },
        _ => panic!("Feature must be variant of 'Item'."),
    }
}
