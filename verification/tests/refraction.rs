use ray_tracer::intersection::{Intersection, Intersections};

fn at(t: f64, shape: usize) -> Intersection {
    Intersection::new(t.to_bits(), shape)
}

fn index_of(medium: Option<usize>, indices: &[f64]) -> f64 {
    match medium {
        Some(shape) => indices[shape],
        None => 1.0,
    }
}

#[test]
fn finding_n1_and_n2_at_various_intersections() {
    let cases = vec![
        (1.0, 1.5),
        (1.5, 2.0),
        (2.0, 2.5),
        (2.5, 2.5),
        (2.5, 1.5),
        (1.5, 1.0),
    ];

    let a = 0;
    let b = 1;
    let c = 2;
    let refractive_index = [1.5, 2.0, 2.5];
    let intersections = vec![
        at(2.0, a),
        at(2.75, b),
        at(3.25, c),
        at(4.75, b),
        at(5.25, c),
        at(6.0, a),
    ];
    for (idx, x) in intersections.iter().enumerate() {
        let comps = x.prepare_computations(&Intersections::new(intersections.clone()));
        let (n1, n2) = comps.n;
        assert_eq!(index_of(n1, &refractive_index), cases[idx].0);
        assert_eq!(index_of(n2, &refractive_index), cases[idx].1);
    }
}

#[test]
fn media_of_nested_spheres_are_their_handles() {
    let xs = vec![at(2.0, 0), at(2.75, 1), at(3.25, 2), at(4.75, 1), at(5.25, 2), at(6.0, 0)];
    let want = [
        (None, Some(0)),
        (Some(0), Some(1)),
        (Some(1), Some(2)),
        (Some(2), Some(2)),
        (Some(2), Some(0)),
        (Some(0), None),
    ];
    for (k, x) in xs.iter().enumerate() {
        let comps = x.prepare_computations(&Intersections::new(xs.clone()));
        assert_eq!(comps.n, want[k]);
        assert!(comps.i == *x);
    }
}

#[test]
fn a_single_surface_separates_empty_space_from_its_shape() {
    let i = at(4.0, 7);
    let comps = i.prepare_computations(&Intersections::new(vec![i]));
    assert_eq!(comps.n, (None, Some(7)));
}

#[test]
fn leaving_a_shape_from_inside_leads_to_empty_space() {
    let xs = vec![at(-1.0, 5), at(1.0, 5)];
    let comps = xs[1].prepare_computations(&Intersections::new(xs.clone()));
    assert_eq!(comps.n, (Some(5), None));
}

#[test]
fn overlapping_shapes_leave_in_the_order_they_are_left() {
    // The ray enters 0, enters 1, leaves 0 while still inside 1, leaves 1.
    let xs = vec![at(1.0, 0), at(2.0, 1), at(3.0, 0), at(4.0, 1)];
    let want = [
        (None, Some(0)),
        (Some(0), Some(1)),
        (Some(1), Some(1)),
        (Some(1), None),
    ];
    for (k, x) in xs.iter().enumerate() {
        let comps = x.prepare_computations(&Intersections::new(xs.clone()));
        assert_eq!(comps.n, want[k]);
    }
}

#[test]
fn leaving_an_outer_shape_uncovers_the_one_entered_before() {
    // Enter 0, enter 1, enter 2, leave 2: the innermost is 1 again.
    let xs = vec![at(1.0, 0), at(2.0, 1), at(3.0, 2), at(4.0, 2), at(5.0, 0)];
    let comps = xs[3].prepare_computations(&Intersections::new(xs.clone()));
    assert_eq!(comps.n, (Some(2), Some(1)));
    // Leaving 0 from under 1 leaves 1 innermost on both sides.
    let comps = xs[4].prepare_computations(&Intersections::new(xs.clone()));
    assert_eq!(comps.n, (Some(1), Some(1)));
}

#[test]
fn an_intersection_that_is_not_listed_lies_in_empty_space() {
    let xs = vec![at(1.0, 0), at(2.0, 1)];
    let stranger = at(1.5, 0);
    let comps = stranger.prepare_computations(&Intersections::new(xs));
    assert_eq!(comps.n, (None, None));
    let comps = stranger.prepare_computations(&Intersections::new_none());
    assert_eq!(comps.n, (None, None));
}

#[test]
fn the_first_of_two_equal_entries_is_the_query() {
    // The same crossing listed twice: the walk stops at the first.
    let xs = vec![at(1.0, 0), at(2.0, 1), at(2.0, 1), at(3.0, 0)];
    let comps = xs[2].prepare_computations(&Intersections::new(xs.clone()));
    assert_eq!(comps.n, (Some(0), Some(1)));
}

#[test]
fn the_query_is_found_by_number_not_by_bit_pattern() {
    let xs = vec![at(-0.0, 3), at(1.0, 3)];
    let comps = at(0.0, 3).prepare_computations(&Intersections::new(xs));
    assert_eq!(comps.n, (None, Some(3)));
}
