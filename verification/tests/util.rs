use crowd_sim::scalar::Scalar;
use crowd_sim::util::{nearest_point_on_line_segment, nearest_point_on_path, Projection};
use glam::{dvec2, DVec2};

/// The projection in binary64.
struct Plane;

impl Projection for Plane {
    fn parameter(&self, offset: DVec2, seg: DVec2, seg_len_sq: Scalar) -> Scalar {
        Scalar::from_bits((offset.dot(seg) / f64::from_bits(seg_len_sq.to_bits())).to_bits())
    }

    fn interpolate(&self, p0: DVec2, seg: DVec2, t: Scalar) -> DVec2 {
        p0 + seg * f64::from_bits(t.to_bits())
    }
}

#[test]
fn test_nearest_point_on_line_segment() {
    let line = [dvec2(0.0, 0.0), dvec2(1.0, 1.0)];
    let point = dvec2(1.0, 0.0);
    let nearest_point = nearest_point_on_line_segment(point, line, &Plane);
    assert!((nearest_point - dvec2(0.5, 0.5)).length() < 1e-10);
}

#[test]
fn test_nearest_point_on_path() {
    let path = vec![dvec2(0.0, 0.0), dvec2(1.0, 1.0), dvec2(0.0, 2.0)];
    let point = dvec2(0.1, 1.1);
    let nearest_point = nearest_point_on_path(point, &path, &Plane);
    assert!((nearest_point - dvec2(0.5, 1.5)).length() < 1e-10);
}

#[test]
fn a_segment_without_length_is_its_point() {
    let p = dvec2(2.0, -3.0);
    let nearest_point = nearest_point_on_line_segment(dvec2(10.0, 10.0), [p, p], &Plane);
    assert_eq!(nearest_point, p);
}

#[test]
fn the_projection_is_clamped_to_the_ends() {
    let line = [dvec2(0.0, 0.0), dvec2(2.0, 0.0)];
    assert_eq!(nearest_point_on_line_segment(dvec2(-1.0, 1.0), line, &Plane), dvec2(0.0, 0.0));
    assert_eq!(nearest_point_on_line_segment(dvec2(5.0, 1.0), line, &Plane), dvec2(2.0, 0.0));
    assert_eq!(nearest_point_on_line_segment(dvec2(0.5, 1.0), line, &Plane), dvec2(0.5, 0.0));
}

#[test]
fn the_projection_is_orthogonal_inside_the_segment() {
    let line = [dvec2(1.0, 1.0), dvec2(4.0, 5.0)];
    let point = dvec2(3.0, 2.0);
    let foot = nearest_point_on_line_segment(point, line, &Plane);
    let seg = line[1] - line[0];
    assert!((point - foot).dot(seg).abs() < 1e-12);
    let t = (foot - line[0]).dot(seg) / seg.length_squared();
    assert!(0.0 < t && t < 1.0);
}

#[test]
fn a_path_of_one_vertex_is_that_vertex() {
    let path = vec![dvec2(3.0, 4.0)];
    assert_eq!(nearest_point_on_path(dvec2(0.0, 0.0), &path, &Plane), dvec2(3.0, 4.0));
}

#[test]
fn a_path_passes_over_segments_without_length() {
    let path = vec![dvec2(0.0, 0.0), dvec2(0.0, 0.0), dvec2(4.0, 0.0), dvec2(4.0, 0.0)];
    assert_eq!(nearest_point_on_path(dvec2(1.0, 3.0), &path, &Plane), dvec2(1.0, 0.0));
    let point_path = vec![dvec2(1.0, 1.0), dvec2(1.0, 1.0), dvec2(1.0, 1.0)];
    assert_eq!(nearest_point_on_path(dvec2(9.0, 9.0), &point_path, &Plane), dvec2(1.0, 1.0));
}

#[test]
fn of_equally_near_points_the_earliest_is_taken() {
    // The first vertex and the foot on the second segment are equally near.
    let path = vec![dvec2(0.0, 1.0), dvec2(-5.0, 1.0), dvec2(-5.0, -1.0), dvec2(5.0, -1.0)];
    assert_eq!(nearest_point_on_path(dvec2(0.0, 0.0), &path, &Plane), dvec2(0.0, 1.0));
}

#[test]
fn the_nearest_point_of_a_path_is_never_farther_than_its_first_vertex() {
    let path = vec![dvec2(0.0, 0.0), dvec2(10.0, 0.0), dvec2(10.0, 10.0)];
    for point in [dvec2(-3.0, 2.0), dvec2(4.0, 1.0), dvec2(12.0, 7.0), dvec2(0.0, 0.0)] {
        let nearest = nearest_point_on_path(point, &path, &Plane);
        assert!((point - nearest).length_squared() <= (point - path[0]).length_squared());
    }
    assert_eq!(nearest_point_on_path(dvec2(12.0, 7.0), &path, &Plane), dvec2(10.0, 7.0));
}

#[test]
fn a_point_that_is_no_number_is_nearest_to_the_first_vertex() {
    let path = vec![dvec2(0.0, 0.0), dvec2(1.0, 1.0), dvec2(0.0, 2.0)];
    let nowhere = dvec2(f64::NAN, 1.0);
    assert_eq!(nearest_point_on_path(nowhere, &path, &Plane), dvec2(0.0, 0.0));
    let foot = nearest_point_on_line_segment(nowhere, [path[0], path[1]], &Plane);
    assert!(foot.is_nan());
}

#[test]
fn a_segment_whose_length_is_no_number_is_not_passed_over() {
    // The square of the length is a NaN, which is not zero: the projection is asked for.
    let path = vec![dvec2(0.0, 0.0), dvec2(f64::INFINITY, 0.0), dvec2(f64::INFINITY, 1.0)];
    let nearest = nearest_point_on_path(dvec2(1.0, 1.0), &path, &Plane);
    // No projection is a number, so none is nearer than the first vertex.
    assert_eq!(nearest, dvec2(0.0, 0.0));
}
