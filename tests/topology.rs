use topojson::api::{wrap_feature, wrap_stich};
use topojson::bisect;
use topojson::feature::{Feature, FeatureGeometryType, FeatureItem};
use topojson::quantize::{compact_arc, compact_arcs};
use topojson::topology::{Geometry, TopoJSON, TopologyError};

type Pt = [f64; 2];

fn scenario_topology() -> TopoJSON<Pt, ()> {
    TopoJSON {
        arcs: vec![
            vec![(0, 0), (1, 0), (0, 1), (-1, 0), (0, -1)],
            vec![(0, 0), (1, 0), (0, 1)],
            vec![(1, 1), (-1, 0), (0, -1)],
            vec![(1, 1)],
            vec![(0, 0)],
        ],
        delta_encoded: true,
        objects: Vec::new(),
    }
}

fn line(t: &TopoJSON<Pt, ()>, arcs: Vec<i32>) -> Vec<(i64, i64)> {
    match wrap_feature(t, &Geometry::LineString { arcs, meta: () }) {
        Feature::Item(FeatureItem { geometry: FeatureGeometryType::LineString { coordinates }, .. }) => coordinates,
        _ => panic!("LineString"),
    }
}

#[test]
fn test_bbox_1() {
    let topology: TopoJSON<Pt, ()> = TopoJSON { arcs: Vec::new(), delta_encoded: false, objects: Vec::new() };
    let bbox = match topology.arcs_extent() {
        None => [f64::INFINITY, f64::INFINITY, -f64::INFINITY, -f64::INFINITY],
        Some((x0, y0, x1, y1)) => [x0 as f64, y0 as f64, x1 as f64, y1 as f64],
    };
    assert_eq!(bbox, [f64::INFINITY, f64::INFINITY, -f64::INFINITY, -f64::INFINITY]);
}

#[test]
fn extent_covers_every_decoded_position() {
    let t = scenario_topology();
    assert_eq!(t.arcs_extent(), Some((0, 0, 1, 1)));
    let shifted: TopoJSON<Pt, ()> = TopoJSON {
        arcs: vec![vec![(3, -2), (4, 7)], vec![(-5, 1)]],
        delta_encoded: true,
        objects: Vec::new(),
    };
    assert_eq!(shifted.arcs_extent(), Some((-5, -2, 7, 5)));
}

#[test]
fn extent_of_a_union_is_the_union_of_extents() {
    let a: TopoJSON<Pt, ()> = TopoJSON { arcs: vec![vec![(3, -2), (4, 7)]], delta_encoded: false, objects: Vec::new() };
    let b: TopoJSON<Pt, ()> = TopoJSON { arcs: vec![vec![(-5, 1), (0, 0)]], delta_encoded: false, objects: Vec::new() };
    let ab: TopoJSON<Pt, ()> = TopoJSON {
        arcs: vec![vec![(3, -2), (4, 7)], vec![(-5, 1), (0, 0)]],
        delta_encoded: false,
        objects: Vec::new(),
    };
    let (ea, eb) = (a.arcs_extent().unwrap(), b.arcs_extent().unwrap());
    assert_eq!(ab.arcs_extent(), Some((ea.0.min(eb.0), ea.1.min(eb.1), ea.2.max(eb.2), ea.3.max(eb.3))));
}

#[test]
fn reversed_two_arc_line_is_the_reverse() {
    let t = scenario_topology();
    let forward = line(&t, vec![1, 2]);
    let mut backward = line(&t, vec![!2, !1]);
    backward.reverse();
    assert_eq!(forward, backward);
    assert_eq!(forward, vec![(0, 0), (1, 0), (1, 1), (0, 1), (0, 0)]);
}

#[test]
fn rings_are_closed_and_long_enough() {
    let t = scenario_topology();
    for arcs in [vec![0], vec![!0], vec![1, 2], vec![3], vec![4]] {
        match wrap_feature(&t, &Geometry::Polygon { arcs: vec![arcs], meta: () }) {
            Feature::Item(FeatureItem { geometry: FeatureGeometryType::Polygon { coordinates }, .. }) => {
                let ring = &coordinates[0];
                assert!(ring.len() >= 4);
                assert_eq!(ring[0], ring[ring.len() - 1]);
            },
            _ => panic!("Polygon"),
        }
    }
}

#[test]
fn stitching_unrelated_point_arcs_gives_singletons() {
    let t = scenario_topology();
    assert_eq!(wrap_stich(&t, &vec![3, 4]), vec![vec![3], vec![4]]);
}

#[test]
fn stitching_joins_arcs_end_to_end() {
    let t = scenario_topology();
    assert_eq!(wrap_stich(&t, &vec![2, 1]), vec![vec![2, 1]]);
    assert_eq!(wrap_stich(&t, &vec![1, 2]), vec![vec![1, 2]]);
    assert_eq!(wrap_stich(&t, &vec![0]), vec![vec![0]]);
    assert_eq!(wrap_stich(&t, &Vec::new()), Vec::<Vec<i32>>::new());
}

#[test]
fn stitching_takes_empty_arcs_first() {
    let t: TopoJSON<Pt, ()> = TopoJSON {
        arcs: vec![vec![(0, 0), (1, 0)], vec![(1, 0), (0, 0)]],
        delta_encoded: true,
        objects: Vec::new(),
    };
    // Arc 1 has a zero second delta: its ends coincide at (1, 0), and arc 0
    // is prepended to it.
    assert_eq!(wrap_stich(&t, &vec![0, 1]), vec![vec![0, 1]]);
}

#[test]
fn bisect_finds_leftmost_insertion_point() {
    let a = [1, 3, 3, 5];
    assert_eq!(bisect(&a, &0), 0);
    assert_eq!(bisect(&a, &3), 1);
    assert_eq!(bisect(&a, &4), 3);
    assert_eq!(bisect(&a, &9), 4);
    assert_eq!(bisect(&[], &9), 0);
}

#[test]
fn validity_checks_arc_indices() {
    let mut t = scenario_topology();
    t.objects.push(("ok".to_string(), Geometry::LineString { arcs: vec![!4, 3], meta: () }));
    assert!(t.is_valid());
    t.objects.push(("bad".to_string(), Geometry::LineString { arcs: vec![5], meta: () }));
    assert!(!t.is_valid());
    let mut u = scenario_topology();
    u.objects.push(("bad".to_string(), Geometry::Polygon { arcs: vec![vec![!5]], meta: () }));
    assert!(!u.is_valid());
    let mut w = scenario_topology();
    w.objects.push(("empty".to_string(), Geometry::LineString { arcs: vec![], meta: () }));
    assert!(!w.is_valid());
}

#[test]
fn validity_checks_decoded_range() {
    let t: TopoJSON<Pt, ()> = TopoJSON {
        arcs: vec![vec![(i32::MAX, 0), (1, 0)]],
        delta_encoded: true,
        objects: Vec::new(),
    };
    assert!(!t.is_valid());
    let u: TopoJSON<Pt, ()> = TopoJSON { arcs: vec![vec![(i32::MAX, 0), (1, 0)]], delta_encoded: false, objects: Vec::new() };
    assert!(u.is_valid());
    let empty: TopoJSON<Pt, ()> = TopoJSON { arcs: vec![vec![]], delta_encoded: false, objects: Vec::new() };
    assert!(!empty.is_valid());
}

#[test]
fn quantize_rejects_quantized_topologies_and_small_resolutions() {
    let t = scenario_topology();
    assert_eq!(t.quantize_resolution(Some(10000)), Err(TopologyError::QuantizeAlreadyQuantized));
    let u: TopoJSON<Pt, ()> = TopoJSON { arcs: Vec::new(), delta_encoded: false, objects: Vec::new() };
    assert_eq!(u.quantize_resolution(Some(1)), Err(TopologyError::QuantizeBadN));
    assert_eq!(u.quantize_resolution(None), Err(TopologyError::QuantizeBadN));
    assert_eq!(u.quantize_resolution(Some(2)), Ok(2));
    assert_eq!(u.quantize_resolution(Some(10000)), Ok(10000));
}

#[test]
fn quantized_arcs_drop_still_deltas() {
    assert_eq!(compact_arc(&vec![(3, 4), (0, 0), (1, 0), (0, 0), (0, 2)]), vec![(3, 4), (1, 0), (0, 2)]);
    assert_eq!(compact_arc(&vec![(3, 4), (0, 0), (0, 0)]), vec![(3, 4), (0, 0)]);
    assert_eq!(compact_arc(&vec![(7, 7)]), vec![(7, 7), (0, 0)]);
    assert_eq!(compact_arcs(&vec![vec![(0, 0)], vec![(1, 1), (2, 2)]]), vec![vec![(0, 0), (0, 0)], vec![(1, 1), (2, 2)]]);
}

#[test]
fn reverse_turns_the_tail_around() {
    let mut points: Vec<(i64, i64)> = vec![(0, 0), (1, 0), (2, 0), (3, 0)];
    topojson::feature::reverse(&mut points, 3);
    assert_eq!(points, vec![(0, 0), (3, 0), (2, 0), (1, 0)]);
    topojson::feature::reverse(&mut points, 10);
    assert_eq!(points, vec![(1, 0), (2, 0), (3, 0), (0, 0)]);
    topojson::feature::reverse(&mut points, 0);
    assert_eq!(points, vec![(1, 0), (2, 0), (3, 0), (0, 0)]);
}

#[test]
fn quantize_scenario_round_trips_within_half_a_step() {
    // bbox [0, 0, 10, 10], no transform, n = 1e4.
    let n = 10000.0_f64;
    let plane: TopoJSON<Pt, ()> = TopoJSON {
        arcs: vec![vec![(0, 0), (0, 10), (10, 10), (10, 0), (0, 0)], vec![(3, 3), (3, 3), (7, 3)]],
        delta_encoded: false,
        objects: Vec::new(),
    };
    assert_eq!(plane.quantize_resolution(Some(n.floor() as i64)), Ok(10000));
    let (kx, ky) = ((10. - 0.) / (n - 1.), (10. - 0.) / (n - 1.));
    assert_eq!(kx, 10. / 9999.);
    let mut deltas = Vec::new();
    for arc in &plane.arcs {
        let (mut x0, mut y0) = (0., 0.);
        let mut d = Vec::new();
        for &(x, y) in arc {
            let (x1, y1) = ((x as f64 / kx + 0.5).floor(), (y as f64 / ky + 0.5).floor());
            d.push(((x1 - x0) as i32, (y1 - y0) as i32));
            x0 = x1;
            y0 = y1;
        }
        deltas.push(d);
    }
    let arcs = compact_arcs(&deltas);
    assert_eq!(arcs[1].len(), 2);
    let quantized: TopoJSON<Pt, ()> = TopoJSON { arcs, delta_encoded: true, objects: Vec::new() };
    assert!(quantized.is_valid());
    let decoded = line(&quantized, vec![0]);
    for (p, q) in decoded.iter().zip(&plane.arcs[0]) {
        assert!((p.0 as f64 * kx - q.0 as f64).abs() <= kx / 2.);
        assert!((p.1 as f64 * ky - q.1 as f64).abs() <= ky / 2.);
    }
}

#[test]
fn grid_cells_are_delta_encoded() {
    use_delta();
}

fn use_delta() {
    let cells: Vec<(i64, i64)> = vec![(3, 4), (3, 4), (5, 1), (i64::from(i32::MAX) + 10, 0)];
    assert_eq!(
        topojson::quantize::delta_encode(&cells),
        vec![(3, 4), (0, 0), (2, -3), (i32::MAX, -1)]
    );
}
