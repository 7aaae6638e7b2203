use std::collections::HashMap;

use trace_coverage::geometry::{line_locate, Coord};
use trace_coverage::osrm::{Annotation, Leg, Match, OsrmApi, OsrmResponse, Tracepoint};
use trace_coverage::segments::{project_segments, SegmentMatches};

fn c(x: i64, y: i64) -> Coord {
    Coord { x, y }
}

fn node_index(entries: &[(u64, Coord)]) -> HashMap<u64, Coord> {
    let mut m = HashMap::new();
    for (k, v) in entries {
        m.insert(*k, *v);
    }
    m
}

fn tp(matchings_index: usize, waypoint_index: usize, location: Coord) -> Tracepoint {
    Tracepoint {
        waypoint_index,
        matchings_index,
        name: String::new(),
        location,
    }
}

fn leg(nodes: &[u64]) -> Leg {
    Leg {
        annotation: Annotation {
            nodes: nodes.to_vec(),
        },
    }
}

#[test]
fn aggregator_attributes_to_every_leg_edge() {
    // one leg through three nodes: two edges, each receiving every
    // observation that resolves to the leg
    let resp = OsrmResponse {
        matchings: vec![Match {
            legs: vec![leg(&[10, 20, 30])],
        }],
        tracepoints: vec![
            Some(tp(0, 0, c(1, 0))),
            None,
            Some(tp(0, 0, c(2, 0))),
        ],
    };
    let sm = resp.get_segment_matches();
    assert_eq!(sm.0.len(), 2);
    assert_eq!(sm.0[0].0, (10, 20));
    assert_eq!(sm.0[0].1, vec![c(1, 0), c(2, 0)]);
    assert_eq!(sm.0[1].0, (20, 30));
    assert_eq!(sm.0[1].1, vec![c(1, 0), c(2, 0)]);
}

#[test]
fn aggregator_discards_out_of_range_references() {
    let resp = OsrmResponse {
        matchings: vec![Match {
            legs: vec![leg(&[10, 20])],
        }],
        tracepoints: vec![
            Some(tp(5, 0, c(1, 0))), // matching index out of range
            Some(tp(0, 7, c(2, 0))), // leg index out of range
            Some(tp(0, 0, c(3, 0))),
        ],
    };
    let sm = resp.get_segment_matches();
    assert_eq!(sm.0.len(), 1);
    assert_eq!(sm.0[0].0, (10, 20));
    assert_eq!(sm.0[0].1, vec![c(3, 0)]);
}

#[test]
fn aggregator_single_node_leg_contributes_nothing() {
    let resp = OsrmResponse {
        matchings: vec![Match {
            legs: vec![leg(&[10])],
        }],
        tracepoints: vec![Some(tp(0, 0, c(1, 0)))],
    };
    let sm = resp.get_segment_matches();
    assert_eq!(sm.0.len(), 0);
}

#[test]
fn aggregator_keeps_traversal_directions_distinct() {
    // the same node pair walked in opposite directions yields two keys
    let resp = OsrmResponse {
        matchings: vec![Match {
            legs: vec![leg(&[10, 20]), leg(&[20, 10])],
        }],
        tracepoints: vec![Some(tp(0, 0, c(1, 0))), Some(tp(0, 1, c(2, 0)))],
    };
    let sm = resp.get_segment_matches();
    assert_eq!(sm.0.len(), 2);
    assert_eq!(sm.0[0].0, (10, 20));
    assert_eq!(sm.0[0].1, vec![c(1, 0)]);
    assert_eq!(sm.0[1].0, (20, 10));
    assert_eq!(sm.0[1].1, vec![c(2, 0)]);
}

#[test]
fn aggregator_counts_a_repeated_window_twice() {
    // a path that walks the same adjacent pair twice appends the observation
    // once per walk
    let resp = OsrmResponse {
        matchings: vec![Match {
            legs: vec![leg(&[10, 20, 10, 20])],
        }],
        tracepoints: vec![Some(tp(0, 0, c(1, 0)))],
    };
    let sm = resp.get_segment_matches();
    assert_eq!(sm.0.len(), 2);
    assert_eq!(sm.0[0].0, (10, 20));
    assert_eq!(sm.0[0].1, vec![c(1, 0), c(1, 0)]);
    assert_eq!(sm.0[1].0, (20, 10));
    assert_eq!(sm.0[1].1, vec![c(1, 0)]);
}

#[test]
fn orderer_sorts_along_segment() {
    let mut sm = SegmentMatches(vec![((10, 20), vec![c(7, 0), c(2, 0), c(5, 0)])]);
    let nodes = node_index(&[(10, c(0, 0)), (20, c(10, 0))]);
    assert_eq!(sm.sort(&nodes), Ok(()));
    assert_eq!(sm.0[0].1, vec![c(2, 0), c(5, 0), c(7, 0)]);
}

#[test]
fn orderer_is_idempotent() {
    let mut sm = SegmentMatches(vec![
        ((10, 20), vec![c(9, 1), c(4, -1), c(6, 0), c(1, 1)]),
        ((20, 30), vec![c(15, 0), c(12, 0)]),
    ]);
    let nodes = node_index(&[(10, c(0, 0)), (20, c(10, 0)), (30, c(20, 0))]);
    assert_eq!(sm.sort(&nodes), Ok(()));
    let once: Vec<(_, Vec<Coord>)> = sm.0.clone();
    assert_eq!(sm.sort(&nodes), Ok(()));
    assert_eq!(sm.0, once);
}

#[test]
fn orderer_is_stable_on_tied_positions() {
    // three distinct locations projecting to the same position on the line
    // keep their input order, so the classifier's verdict is determined
    let mut sm = SegmentMatches(vec![(
        (10, 20),
        vec![c(5, 0), c(5, 4), c(5, 8), c(9, 0)],
    )]);
    let nodes = node_index(&[(10, c(0, 0)), (20, c(10, 0))]);
    assert_eq!(sm.sort(&nodes), Ok(()));
    assert_eq!(sm.0[0].1, vec![c(5, 0), c(5, 4), c(5, 8), c(9, 0)]);
    // in that order the last gap exceeds the threshold of six
    assert!(sm.get_complete_segments(&nodes, 6).unwrap().is_empty());
}

#[test]
fn orderer_keeps_order_on_degenerate_segment() {
    // coincident endpoints: no meaningful fraction exists, so the insertion
    // order is kept
    let obs = vec![c(9, 0), c(1, 0), c(4, 0)];
    let mut sm = SegmentMatches(vec![((10, 20), obs.clone())]);
    let nodes = node_index(&[(10, c(5, 5)), (20, c(5, 5))]);
    assert_eq!(sm.sort(&nodes), Ok(()));
    assert_eq!(sm.0[0].1, obs);
}

#[test]
fn orderer_clamps_positions_beyond_the_endpoints() {
    // a point before the from-node and one beyond the to-node clamp to the
    // ends and sort to the outside
    let mut sm = SegmentMatches(vec![((10, 20), vec![c(15, 0), c(-3, 0), c(5, 0)])]);
    let nodes = node_index(&[(10, c(0, 0)), (20, c(10, 0))]);
    assert_eq!(sm.sort(&nodes), Ok(()));
    assert_eq!(sm.0[0].1, vec![c(-3, 0), c(5, 0), c(15, 0)]);
}

#[test]
fn line_locate_projects_and_clamps() {
    let a = c(0, 0);
    let b = c(10, 0);
    // projection of (3, 4) onto the line: position 30 of 100
    assert_eq!(line_locate(&a, &b, &c(3, 4)), Some(30));
    // beyond the endpoints the position clamps to the ends
    assert_eq!(line_locate(&a, &b, &c(-5, 0)), Some(0));
    assert_eq!(line_locate(&a, &b, &c(25, 1)), Some(100));
}

#[test]
fn line_locate_refuses_a_degenerate_line() {
    let a = c(5, 5);
    assert_eq!(line_locate(&a, &a, &c(1, 2)), None);
}

#[test]
fn missing_node_is_a_fatal_error() {
    let mut sm = SegmentMatches(vec![
        ((10, 20), vec![c(1, 0)]),
        ((10, 99), vec![c(2, 0)]),
    ]);
    let nodes = node_index(&[(10, c(0, 0)), (20, c(10, 0))]);
    assert_eq!(sm.get_complete_segments(&nodes, 5), Err(99));
    // no partial result: the mapping is left untouched
    assert_eq!(sm.0[0].1, vec![c(1, 0)]);
    assert_eq!(sm.0[1].1, vec![c(2, 0)]);
}

#[test]
fn small_gaps_cover_and_empty_segment_is_vacuously_covered() {
    // observations one unit apart on one segment, none on the other
    let mut sm = SegmentMatches(vec![
        ((10, 20), vec![c(4, 0), c(3, 0)]),
        ((20, 30), vec![]),
    ]);
    let nodes = node_index(&[(10, c(0, 0)), (20, c(10, 0)), (30, c(20, 0))]);
    let complete = sm.get_complete_segments(&nodes, 5).unwrap();
    assert!(complete.contains(&(10, 20)));
    assert!(complete.contains(&(20, 30)));
    assert_eq!(complete.len(), 2);
}

#[test]
fn one_large_gap_excludes_a_segment() {
    // sorted gaps of two and seven units with a threshold of five
    let mut sm = SegmentMatches(vec![
        ((10, 20), vec![c(0, 0), c(2, 0), c(9, 0)]),
        ((20, 30), vec![]),
    ]);
    let nodes = node_index(&[(10, c(0, 0)), (20, c(10, 0)), (30, c(20, 0))]);
    let complete = sm.get_complete_segments(&nodes, 5).unwrap();
    assert!(!complete.contains(&(10, 20)));
    assert!(complete.contains(&(20, 30)));
    assert_eq!(complete.len(), 1);
}

#[test]
fn gap_exactly_at_threshold_still_covers() {
    let mut sm = SegmentMatches(vec![((10, 20), vec![c(0, 0), c(5, 0)])]);
    let nodes = node_index(&[(10, c(0, 0)), (20, c(10, 0))]);
    let complete = sm.get_complete_segments(&nodes, 5).unwrap();
    assert_eq!(complete, vec![(10, 20)]);
}

#[test]
fn gap_strictly_beyond_threshold_excludes() {
    let mut sm = SegmentMatches(vec![((10, 20), vec![c(0, 0), c(6, 0)])]);
    let nodes = node_index(&[(10, c(0, 0)), (20, c(10, 0))]);
    let complete = sm.get_complete_segments(&nodes, 5).unwrap();
    assert!(complete.is_empty());
}

#[test]
fn outlier_observation_turns_covered_into_excluded() {
    let nodes = node_index(&[(10, c(0, 0)), (20, c(200, 0))]);
    let mut before = SegmentMatches(vec![((10, 20), vec![c(0, 0), c(3, 0)])]);
    assert_eq!(
        before.get_complete_segments(&nodes, 5).unwrap(),
        vec![(10, 20)]
    );
    // one more observation far along the segment opens a gap
    let mut after = SegmentMatches(vec![((10, 20), vec![c(0, 0), c(3, 0), c(100, 0)])]);
    assert!(after.get_complete_segments(&nodes, 5).unwrap().is_empty());
}

#[test]
fn full_pipeline_from_response_to_complete_segments() {
    let resp = OsrmResponse {
        matchings: vec![Match {
            legs: vec![leg(&[10, 20, 30])],
        }],
        tracepoints: vec![
            Some(tp(0, 0, c(0, 0))),
            Some(tp(0, 0, c(4, 0))),
            Some(tp(0, 0, c(8, 0))),
            Some(tp(0, 0, c(12, 0))),
            Some(tp(0, 0, c(16, 0))),
            Some(tp(0, 0, c(20, 0))),
        ],
    };
    let nodes = node_index(&[(10, c(0, 0)), (20, c(10, 0)), (30, c(20, 0))]);
    let mut sm = resp.get_segment_matches();
    let complete = sm.get_complete_segments(&nodes, 5).unwrap();
    assert!(complete.contains(&(10, 20)));
    assert!(complete.contains(&(20, 30)));
    assert_eq!(complete.len(), 2);
}

#[test]
fn projector_maps_segments_to_endpoint_lines() {
    let nodes = node_index(&[(10, c(0, 0)), (20, c(10, 0)), (30, c(20, 5))]);
    let segs = vec![(10, 20), (20, 30)];
    let lines = project_segments(&segs, &nodes).unwrap();
    assert_eq!(lines, vec![(c(0, 0), c(10, 0)), (c(10, 0), c(20, 5))]);
}

#[test]
fn projector_reports_the_missing_node() {
    let nodes = node_index(&[(10, c(0, 0))]);
    let segs = vec![(10, 42)];
    assert_eq!(project_segments(&segs, &nodes), Err(42));
}

#[test]
fn match_query_renders_shortest_decimal_form() {
    let api = OsrmApi::new("d");
    let q = api.get_osrm_match_query(
        vec![Coord {
            x: 1_500_000,
            y: 2_500_000,
        }],
        vec![7],
    );
    assert_eq!(
        q,
        "d/match/v1/foot/1.5,2.5?geometries=geojson&timestamps=7&annotations=true"
    );
}

#[test]
fn match_query_renders_coordinates_and_timestamps() {
    let api = OsrmApi::new("http://localhost:5000");
    let q = api.get_osrm_match_query(
        vec![
            Coord {
                x: -1_500_000,
                y: 2_250_000,
            },
            Coord { x: 0, y: 40_000_007 },
        ],
        vec![1_650_000_000, -5],
    );
    assert_eq!(
        q,
        "http://localhost:5000/match/v1/foot/-1.5,2.25;0,40.000007\
         ?geometries=geojson&timestamps=1650000000;-5&annotations=true"
    );
}

#[test]
fn match_query_with_no_points_holds_empty_lists() {
    let api = OsrmApi::new("http://osrm");
    let q = api.get_osrm_match_query(vec![], vec![]);
    assert_eq!(
        q,
        "http://osrm/match/v1/foot/?geometries=geojson&timestamps=&annotations=true"
    );
}
