use pestr::AcceptAll;
use pestr::ConserveNodes;
use pestr::Geometry;
use pestr::Reservation;

#[test]
fn alternates_are_filled_and_in_range() {
    // base job 24 x 4 on 36-core nodes, searched with task radius 0.25 and
    // thread radius 0.5: deltas floor(0.25 * 24) = 6 and floor(0.5 * 4) = 2
    let g = Geometry::new(36, false, 24, 4).unwrap();
    let alternates = g.alternates(6, 2, &AcceptAll);
    assert!(!alternates.is_empty());
    for (cand, res) in &alternates {
        assert!(res.is_filled);
        assert!(18 <= cand.tasks && cand.tasks <= 30);
        assert!(2 <= cand.threads && cand.threads <= 6);
        assert_eq!(*res, Reservation::from_geometry(*cand));
    }
}

#[test]
fn alternates_order_is_stable_by_node_count() {
    let g = Geometry::new(36, false, 24, 4).unwrap();
    let alternates = g.alternates(6, 2, &AcceptAll);
    let shapes: Vec<(u32, u32, u64)> =
        alternates.iter().map(|&(c, r)| (c.tasks, c.threads, r.nodes)).collect();
    // sorted ascending by node count; ties keep enumeration order
    // (task count ascending, then thread count ascending)
    assert_eq!(
        shapes,
        vec![
            (18, 2, 1),
            (18, 4, 2),
            (24, 3, 2),
            (18, 6, 3),
            (27, 4, 3),
            (24, 6, 4),
            (30, 6, 5),
        ]
    );
}

#[test]
fn alternates_reproduce_a_filled_reservation_exactly() {
    // a filled geometry inside the searched range comes back with exactly
    // the reservation computed from that geometry directly
    let base = Geometry::new(36, false, 118, 6).unwrap();
    let alternates = base.alternates(2, 0, &AcceptAll);
    assert_eq!(alternates.len(), 1);
    let (cand, res) = alternates[0];
    let expected_geom = Geometry::new(36, false, 120, 6).unwrap();
    assert_eq!(cand, expected_geom);
    assert_eq!(res, Reservation::from_geometry(expected_geom));
    assert_eq!(res.nodes, 20);
}

#[test]
fn conserve_nodes_restricts_to_same_node_count() {
    let g = Geometry::new(36, false, 24, 4).unwrap();
    let base_res = Reservation::from_geometry(g);
    assert_eq!(base_res.nodes, 3);
    let conserved = g.alternates(6, 2, &ConserveNodes { nodes: base_res.nodes });
    assert!(!conserved.is_empty());
    for (_, res) in &conserved {
        assert_eq!(res.nodes, 3);
    }
    // exactly the unrestricted alternates with that node count
    let all = g.alternates(6, 2, &AcceptAll);
    let same: Vec<(Geometry, Reservation)> =
        all.into_iter().filter(|&(_, r)| r.nodes == 3).collect();
    assert_eq!(conserved, same);
}

#[test]
fn alternates_are_deterministic() {
    let g = Geometry::new(36, true, 100, 7).unwrap();
    let first = g.alternates(25, 3, &AcceptAll);
    let second = g.alternates(25, 3, &AcceptAll);
    assert_eq!(first, second);
}

#[test]
fn zero_deltas_keep_only_the_base_shape() {
    // the base job does not fill its reservation, so nothing qualifies
    let unfilled = Geometry::new(36, false, 24, 4).unwrap();
    assert!(unfilled.alternates(0, 0, &AcceptAll).is_empty());
    // a filled base job is its own alternate
    let filled = Geometry::new(36, false, 120, 6).unwrap();
    let alternates = filled.alternates(0, 0, &AcceptAll);
    assert_eq!(alternates.len(), 1);
    assert_eq!(alternates[0].0, filled);
    assert_eq!(alternates[0].1.nodes, 20);
}

#[test]
fn candidate_counts_below_one_are_skipped() {
    // deltas larger than the base counts must not underflow; candidates
    // with zero or negative counts are skipped, not errors
    let g = Geometry::new(4, false, 2, 2).unwrap();
    let alternates = g.alternates(10, 10, &AcceptAll);
    for (cand, res) in &alternates {
        assert!(cand.tasks >= 1);
        assert!(1 <= cand.threads && cand.threads <= 4);
        assert!(res.is_filled);
    }
    // a single 4-thread task fills one node; four 1-thread tasks do too
    assert!(alternates.iter().any(|&(c, _)| c.tasks == 1 && c.threads == 4));
    assert!(alternates.iter().any(|&(c, _)| c.tasks == 4 && c.threads == 1));
    assert!(alternates.iter().any(|&(c, _)| c.tasks == 12 && c.threads == 4));
}
