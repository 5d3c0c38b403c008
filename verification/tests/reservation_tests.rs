use pestr::Geometry;
use pestr::Reservation;

#[test]
fn partial_reservation_of_base_job() {
    let g = Geometry::new(36, false, 24, 4).unwrap();
    assert_eq!(g.logical_cpus, 36);
    let r = Reservation::from_geometry(g);
    assert_eq!(r.nodes, 3);
    assert_eq!(r.cpus, 108);
    assert_eq!(r.used_cpus, 96);
    assert_eq!(r.idle_cpus, 12);
    assert_eq!(r.partial_nodes, 1);
    assert!(!r.is_filled);
}

#[test]
fn filled_reservation_divides_exactly() {
    let g = Geometry::new(36, false, 120, 6).unwrap();
    let r = Reservation::from_geometry(g);
    assert_eq!(r.nodes, 20);
    assert_eq!(r.cpus, 720);
    assert_eq!(r.used_cpus, 720);
    assert_eq!(r.idle_cpus, 0);
    assert_eq!(r.partial_nodes, 0);
    assert!(r.is_filled);
}

#[test]
fn zero_cpus_per_node_is_rejected() {
    let e = Geometry::new(0, false, 10, 2).unwrap_err();
    assert_eq!(e.message(), "CPUs per node must be > 0");
}

#[test]
fn threads_beyond_logical_cpus_are_rejected() {
    let e = Geometry::new(36, false, 24, 40).unwrap_err();
    assert_eq!(e.message(), "threads cannot exceed CPUs per node");
}

#[test]
fn zero_tasks_or_threads_are_rejected() {
    let e = Geometry::new(36, false, 0, 4).unwrap_err();
    assert_eq!(e.message(), "tasks and threads must be > 0");
    let e = Geometry::new(36, false, 24, 0).unwrap_err();
    assert_eq!(e.message(), "tasks and threads must be > 0");
}

#[test]
fn zero_cpus_per_node_reported_first() {
    let e = Geometry::new(0, false, 0, 0).unwrap_err();
    assert_eq!(e.message(), "CPUs per node must be > 0");
}

#[test]
fn hyperthreading_doubles_logical_cpus() {
    let g = Geometry::new(36, true, 24, 40).unwrap();
    assert_eq!(g.logical_cpus, 72);
    let r = Reservation::from_geometry(g);
    // one 40-thread task per node: every node is partially occupied
    assert_eq!(r.nodes, 24);
    assert_eq!(r.cpus, 24 * 72);
    assert_eq!(r.used_cpus, 24 * 40);
    assert_eq!(r.idle_cpus, 24 * 32);
    assert_eq!(r.partial_nodes, 24);
    assert!(!r.is_filled);
}

#[test]
fn threads_matching_logical_cpus_fill_each_node() {
    let g = Geometry::new(36, false, 5, 36).unwrap();
    let r = Reservation::from_geometry(g);
    assert_eq!(r.nodes, 5);
    assert_eq!(r.cpus, 180);
    assert_eq!(r.used_cpus, 180);
    assert_eq!(r.partial_nodes, 0);
    assert!(r.is_filled);
}

#[test]
fn uneven_thread_count_leaves_idle_cores() {
    // threads do not divide the logical CPUs: even a task count that fits
    // the per-node capacity exactly cannot fill the reservation
    let g = Geometry::new(36, false, 7, 5).unwrap();
    let r = Reservation::from_geometry(g);
    assert_eq!(r.nodes, 1);
    assert_eq!(r.cpus, 36);
    assert_eq!(r.used_cpus, 35);
    assert_eq!(r.idle_cpus, 1);
    assert_eq!(r.partial_nodes, 1);
    assert!(!r.is_filled);
}

#[test]
fn single_task_single_thread() {
    let g = Geometry::new(128, false, 1, 1).unwrap();
    let r = Reservation::from_geometry(g);
    assert_eq!(r.nodes, 1);
    assert_eq!(r.cpus, 128);
    assert_eq!(r.used_cpus, 1);
    assert_eq!(r.idle_cpus, 127);
    assert_eq!(r.partial_nodes, 1);
    assert!(!r.is_filled);
}

#[test]
fn used_and_idle_always_account_for_all_cores() {
    for tasks in 1..50u32 {
        for threads in 1..=36u32 {
            let g = Geometry::new(36, false, tasks, threads).unwrap();
            let r = Reservation::from_geometry(g);
            assert!(r.used_cpus <= r.cpus);
            assert_eq!(r.idle_cpus + r.used_cpus, r.cpus);
            assert_eq!(r.used_cpus, (tasks * threads) as u64);
            assert!(r.nodes >= 1);
            assert_eq!(r.is_filled, r.partial_nodes == 0);
        }
    }
}
