use crate::graph::{Connector, Router, Segment};
use vstd::prelude::*;

verus! {

/// What is wrong with a connector feature's geometry.
#[derive(Clone, Copy, Debug, PartialEq, Eq, Structural)]
pub enum GeometryProblem {
    /// The geometry is not made of points.
    NotPoints,
    /// The geometry holds no point.
    Empty,
}

/// Why a tile could not be read into a router.
#[derive(Clone, Debug, PartialEq, Eq)]
pub enum ParsingError {
    /// The tile bytes are not a vector tile.
    MVTError,
    /// A connector feature has an unusable geometry.
    InvalidConnector { connector_id: String, problem: GeometryProblem },
    /// A segment feature lacks a readable list of connector ids.
    InvalidSegment { segment_id: String },
    /// A connector feature has no id.
    InvalidID,
}

/// The point geometry of a connector feature, as the decoder handed it over.
pub enum FeaturePoint<P> {
    /// The geometry is not made of points.
    NotPoints,
    /// The geometry is made of points but holds none.
    Empty,
    /// The first point of the geometry, in map coordinates.
    First(P),
}

/// The strings of a JSON array of strings, as JSON decoding gives them for
/// the text `s`, or `None` where `s` is not such an array.
pub uninterp spec fn json_string_array(s: Seq<char>) -> Option<Seq<Seq<char>>>;

/// Relies on serde_json::from_str into `Vec<String>`: `Some` with the decoded
/// strings exactly when the text is a JSON array of strings; the result
/// depends on the text alone.
#[verifier::external_body]
fn decode_string_array(s: &str) -> (r: Option<Vec<String>>)
    ensures
        r.is_some() == json_string_array(s@).is_some(),
        r.is_some() ==> r.unwrap()@.map_values(|x: String| x@) == json_string_array(s@).unwrap(),
{
    serde_json::from_str::<Vec<String>>(s).ok()
}

/// What reading one connector feature gives: the connector, `None` for a
/// feature skipped in lax mode, or the error that stops a strict read.
pub open spec fn connector_result<P>(id: Option<String>, point: FeaturePoint<P>, strict: bool) -> Result<
    Option<Connector<P>>,
    ParsingError,
> {
    match id {
        None => if strict {
            Err(ParsingError::InvalidID)
        } else {
            Ok(None)
        },
        Some(id) => match point {
            FeaturePoint::First(p) => Ok(Some(Connector { id, point: p })),
            FeaturePoint::NotPoints => if strict {
                Err(ParsingError::InvalidConnector { connector_id: id, problem: GeometryProblem::NotPoints })
            } else {
                Ok(None)
            },
            FeaturePoint::Empty => if strict {
                Err(ParsingError::InvalidConnector { connector_id: id, problem: GeometryProblem::Empty })
            } else {
                Ok(None)
            },
        },
    }
}

/// Reading the connector features `fs` in order: the connectors read before
/// the first error, and that error if there is one.
pub open spec fn read_connectors<P>(fs: Seq<(Option<String>, FeaturePoint<P>)>, strict: bool) -> (Seq<
    Connector<P>,
>, Option<ParsingError>)
    decreases fs.len(),
{
    if fs.len() == 0 {
        (Seq::empty(), None)
    } else {
        let (p, e) = read_connectors(fs.drop_last(), strict);
        if e.is_some() {
            (p, e)
        } else {
            match connector_result(fs.last().0, fs.last().1, strict) {
                Err(x) => (p, Some(x)),
                Ok(None) => (p, None),
                Ok(Some(c)) => (p.push(c), None),
            }
        }
    }
}

proof fn lemma_read_connectors_stops<P>(fs: Seq<(Option<String>, FeaturePoint<P>)>, strict: bool, i: int)
    requires
        0 <= i <= fs.len(),
        read_connectors(fs.take(i), strict).1.is_some(),
    ensures
        read_connectors(fs, strict) == read_connectors(fs.take(i), strict),
    decreases fs.len() - i,
{
    if i < fs.len() {
        assert(fs.take(i + 1).drop_last() =~= fs.take(i));
        lemma_read_connectors_stops(fs, strict, i + 1);
    } else {
        assert(fs.take(i) =~= fs);
    }
}

/// Reads one connector feature: its id and the first point of its geometry.
/// A feature without an id, or with a geometry without a point, fails in
/// strict mode and is skipped (`Ok(None)`) otherwise.
pub fn connector_from_feature<P>(id: Option<String>, point: FeaturePoint<P>, strict: bool) -> (r: Result<
    Option<Connector<P>>,
    ParsingError,
>)
    ensures
        r == connector_result(id, point, strict),
        id.is_none() ==> r == if strict {
            Err::<Option<Connector<P>>, ParsingError>(ParsingError::InvalidID)
        } else {
            Ok::<Option<Connector<P>>, ParsingError>(None)
        },
        id.is_some() ==> match point {
            FeaturePoint::First(p) => r == Ok::<Option<Connector<P>>, ParsingError>(
                Some(Connector { id: id.unwrap(), point: p }),
            ),
            FeaturePoint::NotPoints => if strict {
                r == Err::<Option<Connector<P>>, ParsingError>(
                    ParsingError::InvalidConnector { connector_id: id.unwrap(), problem: GeometryProblem::NotPoints },
                )
            } else {
                r == Ok::<Option<Connector<P>>, ParsingError>(None)
            },
            FeaturePoint::Empty => if strict {
                r == Err::<Option<Connector<P>>, ParsingError>(
                    ParsingError::InvalidConnector { connector_id: id.unwrap(), problem: GeometryProblem::Empty },
                )
            } else {
                r == Ok::<Option<Connector<P>>, ParsingError>(None)
            },
        },
{
    match id {
        None => if strict {
            Err(ParsingError::InvalidID)
        } else {
            Ok(None)
        },
        Some(id) => match point {
            FeaturePoint::First(p) => Ok(Some(Connector { id, point: p })),
            FeaturePoint::NotPoints => if strict {
                Err(ParsingError::InvalidConnector { connector_id: id, problem: GeometryProblem::NotPoints })
            } else {
                Ok(None)
            },
            FeaturePoint::Empty => if strict {
                Err(ParsingError::InvalidConnector { connector_id: id, problem: GeometryProblem::Empty })
            } else {
                Ok(None)
            },
        },
    }
}

/// Builds a segment from its id, geometry and its decoded connector ids;
/// fails where the ids could not be decoded.
pub fn segment_from_ids<G>(id: String, geometry: G, connector_ids: Option<Vec<String>>) -> (r: Result<
    Segment<G>,
    ParsingError,
>)
    ensures
        connector_ids.is_none() ==> r == Err::<Segment<G>, ParsingError>(
            ParsingError::InvalidSegment { segment_id: id },
        ),
        connector_ids.is_some() ==> r == Ok::<Segment<G>, ParsingError>(
            Segment { id, geometry, connectors: connector_ids.unwrap() },
        ),
{
    match connector_ids {
        None => Err(ParsingError::InvalidSegment { segment_id: id }),
        Some(c) => Ok(Segment { id, geometry, connectors: c }),
    }
}

/// Reads one segment feature: its id, its geometry and the text of its
/// `connector_ids` property, a JSON array of strings. Fails where the
/// property is missing or is not such an array.
pub fn segment_from_feature<G>(id: String, geometry: G, connector_ids: Option<String>) -> (r: Result<
    Segment<G>,
    ParsingError,
>)
    ensures
        r.is_ok() <==> connector_ids.is_some() && json_string_array(connector_ids.unwrap()@).is_some(),
        r.is_err() ==> r == Err::<Segment<G>, ParsingError>(ParsingError::InvalidSegment { segment_id: id }),
        r.is_ok() ==> {
            let s = r.unwrap();
            &&& s.id == id
            &&& s.geometry == geometry
            &&& s.connector_ids() == json_string_array(connector_ids.unwrap()@).unwrap()
        },
{
    match connector_ids {
        None => Err(ParsingError::InvalidSegment { segment_id: id }),
        Some(text) => segment_from_ids(id, geometry, decode_string_array(text.as_str())),
    }
}

impl<G, P> Router<G, P> {
    /// Reads the features of a connector layer in order and appends the
    /// connectors they give. Stops at the first error, keeping what was
    /// appended before it.
    pub fn push_connector_features(&mut self, features: Vec<(Option<String>, FeaturePoint<P>)>, strict: bool) -> (r:
        Result<(), ParsingError>)
        ensures
            final(self).spec_segments() == old(self).spec_segments(),
            final(self).spec_connectors() == old(self).spec_connectors() + read_connectors(features@, strict).0,
            r == match read_connectors(features@, strict).1 {
                None => Ok::<(), ParsingError>(()),
                Some(e) => Err(e),
            },
    {
        let ghost f = features@;
        let ghost c0 = self.spec_connectors();
        let mut rest = features;
        let mut items: Vec<(Option<String>, FeaturePoint<P>)> = Vec::new();
        while rest.len() > 0
            invariant
                items@.len() + rest@.len() == f.len(),
                forall|j: int| 0 <= j < items@.len() ==> #[trigger] items@[j] == f[f.len() - 1 - j],
                forall|j: int| 0 <= j < rest@.len() ==> #[trigger] rest@[j] == f[j],
            decreases rest@.len(),
        {
            let x = rest.pop().unwrap();
            items.push(x);
        }
        proof {
            assert(f.take(0) =~= Seq::<(Option<String>, FeaturePoint<P>)>::empty());
            assert(c0 + Seq::<Connector<P>>::empty() =~= c0);
        }
        while items.len() > 0
            invariant
                items@.len() <= f.len(),
                f == features@,
                forall|j: int| 0 <= j < items@.len() ==> #[trigger] items@[j] == f[f.len() - 1 - j],
                self.spec_segments() == old(self).spec_segments(),
                c0 == old(self).spec_connectors(),
                self.spec_connectors() == c0 + read_connectors(f.take(f.len() - items@.len()), strict).0,
                read_connectors(f.take(f.len() - items@.len()), strict).1.is_none(),
            decreases items@.len(),
        {
            let ghost i = f.len() - items@.len();
            let (id, point) = items.pop().unwrap();
            let ghost res = connector_result(id, point, strict);
            proof {
                assert(f.take(i + 1).drop_last() =~= f.take(i));
                assert(f.take(i + 1).last() == f[i]);
                assert(f[i] == (id, point));
            }
            match connector_from_feature(id, point, strict) {
                Err(e) => {
                    proof {
                        assert(res == Err::<Option<Connector<P>>, ParsingError>(e));
                        assert(read_connectors(f.take(i + 1), strict) == (read_connectors(f.take(i), strict).0, Some(e)));
                        lemma_read_connectors_stops(f, strict, i + 1);
                        assert(read_connectors(f, strict).1 == Some(e));
                        assert(read_connectors(f, strict).0 == read_connectors(f.take(i), strict).0);
                    }
                    return Err(e);
                },
                Ok(None) => {},
                Ok(Some(c)) => {
                    let ghost before = self.spec_connectors();
                    self.push_connector(c);
                    proof {
                        assert(c0 + read_connectors(f.take(i), strict).0.push(c) =~= before.push(c));
                    }
                },
            }
        }
        proof {
            assert(f.take(f.len() as int) =~= f);
        }
        Ok(())
    }
}

} // verus!
