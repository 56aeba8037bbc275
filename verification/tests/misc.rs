use auto_palette::error::Error;
use auto_palette::graph::WeightedEdge;
use auto_palette::metrics::DistanceMetric;
use auto_palette::point::Point;
use auto_palette::theme::Theme;
use std::cmp::Ordering;
use std::str::FromStr;

#[test]
fn test_weighted_edge() {
    let edge = WeightedEdge::new(0, 1, 5);
    assert_eq!(edge.u(), 0);
    assert_eq!(edge.v(), 1);
    assert_eq!(edge.weight(), 5);
}

#[test]
fn test_eq() {
    let edge1 = WeightedEdge::new(0, 1, 5);
    let edge2 = WeightedEdge::new(0, 1, 5);
    assert_eq!(edge1.eq(&edge2), true);

    let edge1 = WeightedEdge::new(0, 1, 5);
    let edge2 = WeightedEdge::new(0, 2, 5);
    assert_eq!(edge1.eq(&edge2), false);
}

#[test]
fn test_cmp() {
    let edge1 = WeightedEdge::new(0, 1, 50);
    let edge2 = WeightedEdge::new(1, 2, 25);
    assert_eq!(edge1.cmp(&edge2), Ordering::Greater);

    let edge1 = WeightedEdge::new(0, 1, 50);
    let edge2 = WeightedEdge::new(1, 2, 75);
    assert_eq!(edge1.cmp(&edge2), Ordering::Less);

    let edge1 = WeightedEdge::new(0, 1, 50);
    let edge2 = WeightedEdge::new(1, 2, 50);
    assert_eq!(edge1.cmp(&edge2), Ordering::Equal);
}

#[test]
fn test_point_creation() {
    let point_2d: Point<f32, 2> = [1.0, 2.0];
    assert_eq!(point_2d[0], 1.0);
    assert_eq!(point_2d[1], 2.0);

    let point_3d: Point<f64, 3> = [1.0, 2.0, 3.0];
    assert_eq!(point_3d[0], 1.0);
    assert_eq!(point_3d[1], 2.0);
    assert_eq!(point_3d[2], 3.0);

    let point_5d: Point<f32, 5> = [10.0, 20.0, 30.0, 100.0, 200.0];
    assert_eq!(point_5d.len(), 5);
}

#[test]
fn test_point_modification() {
    let mut point: Point<f32, 3> = [0.0; 3];

    point[0] = 1.0;
    point[1] = 2.0;
    point[2] = 3.0;

    assert_eq!(point, [1.0, 2.0, 3.0]);
}

#[test]
fn test_point_iteration() {
    let point: Point<f32, 3> = [1.0, 2.0, 3.0];

    let sum: f32 = point.iter().sum();
    assert_eq!(sum, 6.0);

    let squared: Vec<f32> = point.iter().map(|&x| x * x).collect();
    assert_eq!(squared, vec![1.0, 4.0, 9.0]);
}

#[test]
fn test_distance_metric_default() {
    assert_eq!(DistanceMetric::default(), DistanceMetric::Euclidean);
}

#[test]
fn test_from_str_cases() {
    let cases = [
        ("basic", Theme::Basic),
        ("colorful", Theme::Colorful),
        ("vivid", Theme::Vivid),
        ("muted", Theme::Muted),
        ("light", Theme::Light),
        ("dark", Theme::Dark),
        ("BASIC", Theme::Basic),
        ("COLORFUL", Theme::Colorful),
        ("VIVID", Theme::Vivid),
        ("MUTED", Theme::Muted),
        ("LIGHT", Theme::Light),
        ("DARK", Theme::Dark),
        ("Basic", Theme::Basic),
        ("Colorful", Theme::Colorful),
        ("Vivid", Theme::Vivid),
        ("Muted", Theme::Muted),
        ("Light", Theme::Light),
        ("Dark", Theme::Dark),
    ];
    for (name, expected) in cases {
        let actual = Theme::from_str(name);
        assert!(actual.is_ok());
        assert_eq!(actual.unwrap(), expected);
    }
}

#[test]
fn test_from_str_error_cases() {
    for name in ["", "unknown"] {
        let actual = Theme::from_str(name);
        assert!(actual.is_err());
        assert_eq!(
            actual.unwrap_err().to_string(),
            format!("Unsupported theme specified: '{}'", name),
        );
    }
}

#[test]
fn test_from_str_keeps_given_case_in_error() {
    let actual = Theme::from_name("Neon");
    assert_eq!(actual, Err(Error::UnsupportedTheme { name: "Neon".to_string() }));
}

#[test]
fn test_from_lowercase_name() {
    assert_eq!(Theme::from_lowercase_name("vivid"), Some(Theme::Vivid));
    assert_eq!(Theme::from_lowercase_name("dark"), Some(Theme::Dark));
    // The name must already be in lower case.
    assert_eq!(Theme::from_lowercase_name("VIVID"), None);
    assert_eq!(Theme::from_lowercase_name("neon"), None);
}
