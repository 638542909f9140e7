use ibre::graph::Router;
use ibre::features::{
    connector_from_feature, segment_from_feature, segment_from_ids, FeaturePoint, GeometryProblem, ParsingError,
};

#[test]
fn connector_needs_an_id() {
    let r = connector_from_feature::<(i32, i32)>(None, FeaturePoint::First((0, 0)), true);
    assert_eq!(r.err(), Some(ParsingError::InvalidID));
    let lax = connector_from_feature::<(i32, i32)>(None, FeaturePoint::First((0, 0)), false);
    assert!(matches!(lax, Ok(None)));
}

#[test]
fn connector_takes_first_point() {
    let r = connector_from_feature(Some("foo".to_string()), FeaturePoint::First((3, 4)), true).unwrap().unwrap();
    assert_eq!(r.get_id(), "foo");
    assert_eq!(*r.get_point(), (3, 4));
}

#[test]
fn bad_connector_geometry_depends_on_strictness() {
    let lax = connector_from_feature::<()>(Some("c".to_string()), FeaturePoint::NotPoints, false);
    assert!(matches!(lax, Ok(None)));
    let strict = connector_from_feature::<()>(Some("c".to_string()), FeaturePoint::NotPoints, true);
    assert_eq!(
        strict.err(),
        Some(ParsingError::InvalidConnector { connector_id: "c".to_string(), problem: GeometryProblem::NotPoints })
    );
    let empty = connector_from_feature::<()>(Some("c".to_string()), FeaturePoint::Empty, true);
    assert_eq!(
        empty.err(),
        Some(ParsingError::InvalidConnector { connector_id: "c".to_string(), problem: GeometryProblem::Empty })
    );
    let empty_lax = connector_from_feature::<()>(Some("c".to_string()), FeaturePoint::Empty, false);
    assert!(matches!(empty_lax, Ok(None)));
}

#[test]
fn segment_reads_json_connector_ids() {
    let s = segment_from_feature("foo".to_string(), 7u8, Some("[\"foo\", \"bar\"]".to_string())).unwrap();
    assert_eq!(s.get_id(), "foo");
    assert_eq!(*s.get_geometry(), 7u8);
    assert_eq!(s.get_connectors(), &vec!["foo".to_string(), "bar".to_string()]);
}

#[test]
fn segment_rejects_bad_connector_ids() {
    let bad = segment_from_feature("s".to_string(), (), Some("foo".to_string()));
    assert_eq!(bad.err(), Some(ParsingError::InvalidSegment { segment_id: "s".to_string() }));
    let not_strings = segment_from_feature("s".to_string(), (), Some("[1, 2]".to_string()));
    assert!(not_strings.is_err());
    let missing = segment_from_feature("s".to_string(), (), None);
    assert_eq!(missing.err(), Some(ParsingError::InvalidSegment { segment_id: "s".to_string() }));
    let none = segment_from_ids("s".to_string(), (), None);
    assert!(none.is_err());
    let empty = segment_from_feature("s".to_string(), (), Some("[]".to_string())).unwrap();
    assert!(empty.get_connectors().is_empty());
}

fn features() -> Vec<(Option<String>, FeaturePoint<u8>)> {
    vec![
        (Some("a".to_string()), FeaturePoint::First(1)),
        (None, FeaturePoint::First(2)),
        (Some("c".to_string()), FeaturePoint::Empty),
        (Some("d".to_string()), FeaturePoint::First(4)),
    ]
}

#[test]
fn connector_layer_reads_in_order_and_stops_at_first_error() {
    let mut lax: Router<(), u8> = Router::new();
    assert!(lax.push_connector_features(features(), false).is_ok());
    let ids: Vec<String> = lax.connectors().iter().map(|c| c.get_id()).collect();
    assert_eq!(ids, vec!["a".to_string(), "d".to_string()]);
    let mut strict: Router<(), u8> = Router::new();
    assert_eq!(strict.push_connector_features(features(), true).err(), Some(ParsingError::InvalidID));
    assert_eq!(strict.connectors_len(), 1);
}
