//! Data model for a map-matching result: matchings, their legs and the node
//! paths those legs traversed, and the per-input-point tracepoints, plus the
//! client-side query builder for the matching service.

use vstd::prelude::*;
use crate::decimal::{fixed6_str, int_str, push_fixed6, push_i64};
use crate::geometry::Coord;

verus! {

/// The ordered list of road-network node ids a matched leg passed through.
pub struct Annotation {
    pub nodes: Vec<u64>,
}

/// The matched path between two consecutive input trace points.
pub struct Leg {
    pub annotation: Annotation,
}

/// One input GPS point's resolution within the matching result: the snapped
/// location and which matching and leg it belongs to.
pub struct Tracepoint {
    pub waypoint_index: usize,
    pub matchings_index: usize,
    pub name: String,
    pub location: Coord,
}

impl Tracepoint {
    /// The snapped location is within coordinate limits.
    pub open spec fn wf(self) -> bool {
        self.location.wf()
    }
}

/// One matching: a contiguous portion of the input trace snapped onto the
/// road network, as a sequence of legs.
pub struct Match {
    pub legs: Vec<Leg>,
}

/// A complete map-matching result: the matchings and, aligned with the input
/// points, the optional tracepoints.
pub struct OsrmResponse {
    pub matchings: Vec<Match>,
    pub tracepoints: Vec<Option<Tracepoint>>,
}

impl OsrmResponse {
    /// Every present tracepoint carries an in-limit location.
    pub open spec fn wf(self) -> bool {
        forall|i: int|
            0 <= i < self.tracepoints@.len() ==> (#[trigger] self.tracepoints@[i] matches Some(t)
                ==> t.wf())
    }
}

/// Errors surfaced by the map-matching service layer.
pub enum OsrmError {
    MapMatchingJsonParseError,
    MapMatchingServiceError,
}

/// Client handle for a map-matching service instance.
pub struct OsrmApi {
    domain: String,
}

impl OsrmApi {
    /// The service base URL this handle points at.
    pub closed spec fn domain_view(self) -> Seq<char> {
        self.domain@
    }

    pub fn new(domain: &str) -> (api: Self)
        ensures
            api.domain_view() == domain@,
    {
        Self { domain: String::from_str(domain) }
    }

    /// Build the match-request URL for the service: the base URL, the
    /// longitude,latitude pairs and the unix timestamps, each list
    /// semicolon-separated, asking for GeoJSON geometry and node annotations.
    pub fn get_osrm_match_query(&self, points: Vec<Coord>, timestamps: Vec<i64>) -> (r: String)
        ensures
            r@ == match_query_str(self.domain_view(), points@, timestamps@),
    {
        let mut s = self.domain.clone();
        s.append("/match/v1/foot/");
        let ghost head = self.domain_view() + "/match/v1/foot/"@;
        let mut i: usize = 0;
        proof {
            assert(points@.take(0) =~= Seq::<Coord>::empty());
            assert(s@ =~= head + coords_str(points@.take(0)));
        }
        while i < points.len()
            invariant
                i <= points@.len(),
                s@ == head + coords_str(points@.take(i as int)),
            decreases points@.len() - i,
        {
            if i > 0 {
                proof {
                    reveal_strlit(";");
                }
                let ghost mid = s@;
                s.append(";");
                proof {
                    assert(s@ =~= mid + seq![';']);
                }
            }
            let p = points[i];
            push_fixed6(&mut s, p.x);
            proof {
                reveal_strlit(",");
            }
            let ghost mid = s@;
            s.append(",");
            proof {
                assert(s@ =~= mid + seq![',']);
            }
            push_fixed6(&mut s, p.y);
            proof {
                assert(points@.take(i + 1).drop_last() =~= points@.take(i as int));
                assert(points@.take(i + 1).last() == points@[i as int]);
                assert(s@ =~= head + coords_str(points@.take(i + 1)));
            }
            i = i + 1;
        }
        proof {
            assert(points@.take(points@.len() as int) =~= points@);
        }
        s.append("?geometries=geojson&timestamps=");
        let ghost head2 = head + coords_str(points@) + "?geometries=geojson&timestamps="@;
        proof {
            assert(s@ =~= head2 + stamps_str(timestamps@.take(0))) by {
                assert(timestamps@.take(0) =~= Seq::<i64>::empty());
            }
        }
        let mut j: usize = 0;
        while j < timestamps.len()
            invariant
                j <= timestamps@.len(),
                s@ == head2 + stamps_str(timestamps@.take(j as int)),
            decreases timestamps@.len() - j,
        {
            if j > 0 {
                proof {
                    reveal_strlit(";");
                }
                let ghost mid = s@;
                s.append(";");
                proof {
                    assert(s@ =~= mid + seq![';']);
                }
            }
            push_i64(&mut s, timestamps[j]);
            proof {
                assert(timestamps@.take(j + 1).drop_last() =~= timestamps@.take(j as int));
                assert(timestamps@.take(j + 1).last() == timestamps@[j as int]);
                assert(s@ =~= head2 + stamps_str(timestamps@.take(j + 1)));
            }
            j = j + 1;
        }
        proof {
            assert(timestamps@.take(timestamps@.len() as int) =~= timestamps@);
        }
        s.append("&annotations=true");
        proof {
            assert(s@ =~= match_query_str(self.domain_view(), points@, timestamps@));
        }
        s
    }
}

/// One coordinate as "longitude,latitude", six decimal places each.
pub open spec fn coord_str(c: Coord) -> Seq<char> {
    fixed6_str(c.x as int) + seq![','] + fixed6_str(c.y as int)
}

/// The trace's coordinates, semicolon-separated, in order.
pub open spec fn coords_str(points: Seq<Coord>) -> Seq<char>
    decreases points.len(),
{
    if points.len() == 0 {
        Seq::empty()
    } else if points.len() == 1 {
        coord_str(points[0])
    } else {
        coords_str(points.drop_last()) + seq![';'] + coord_str(points.last())
    }
}

/// The trace's unix timestamps, semicolon-separated, in order.
pub open spec fn stamps_str(ts: Seq<i64>) -> Seq<char>
    decreases ts.len(),
{
    if ts.len() == 0 {
        Seq::empty()
    } else if ts.len() == 1 {
        int_str(ts[0] as int)
    } else {
        stamps_str(ts.drop_last()) + seq![';'] + int_str(ts.last() as int)
    }
}

/// The whole match-request URL: base URL, profile path, coordinates, then the
/// query parameters with the timestamps.
pub open spec fn match_query_str(domain: Seq<char>, points: Seq<Coord>, ts: Seq<i64>) -> Seq<char> {
    domain + "/match/v1/foot/"@ + coords_str(points) + "?geometries=geojson&timestamps="@
        + stamps_str(ts) + "&annotations=true"@
}

} // verus!
