use dining_sim::geometry::Circle;
use dining_sim::geometry::Point;
use dining_sim::geometry::Polygon;
use dining_sim::geometry::Shape;

#[test]
fn test_point_add() {
    let p1 = Point::new(16, 16);
    let p2 = p1.add(Point::new(-4, 3));
    assert_eq!(p2, Point::new(12, 19));
}

#[test]
fn test_polygon_left_most_point() {
    let p1 = Point::new(12, 13);
    let p2 = Point::new(16, 16);

    let mut poly = Polygon::new();
    poly.add_point(p1);
    poly.add_point(p2);
    assert_eq!(poly.left_most_point(), Some(p1));
}

#[test]
fn test_polygon_iter() {
    let p1 = Point::new(12, 13);
    let p2 = Point::new(16, 16);

    let mut poly = Polygon::new();
    poly.add_point(p1);
    poly.add_point(p2);

    let points = poly.iter();
    assert_eq!(points, vec![Point::new(12, 13), Point::new(16, 16)]);
}

#[test]
fn left_most_point_of_empty_polygon_is_none() {
    let poly = Polygon::new();
    assert_eq!(poly.left_most_point(), None);
}

#[test]
fn left_most_point_tie_returns_first_added() {
    let mut poly = Polygon::new();
    poly.add_point(Point::new(5, 1));
    poly.add_point(Point::new(5, 9));
    poly.add_point(Point::new(7, 0));
    assert_eq!(poly.left_most_point(), Some(Point::new(5, 1)));
}

#[test]
fn point_components_are_kept() {
    let p = Point::new(-3, 44);
    assert_eq!(p.x, -3);
    assert_eq!(p.y, 44);
}

#[test]
fn circle_keeps_centre_and_radius() {
    let c = Circle::new(Point::new(10, 20), 5);
    assert_eq!(c.centre, Point::new(10, 20));
    assert_eq!(c.radius, 5);
}

#[test]
fn shape_from_wraps_each_kind() {
    let mut poly = Polygon::new();
    poly.add_point(Point::new(1, 2));
    let s1 = Shape::from(poly);
    assert!(matches!(s1, Shape::Polygon(_)));
    let s2 = Shape::from(Circle::new(Point::new(0, 0), 3));
    assert!(matches!(s2, Shape::Circle(_)));
}
