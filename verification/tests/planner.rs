use lane_agg::affinity::{set_cpu_affinity, CpuSet, CPU_SET};
use lane_agg::planner::find_record_start;

#[test]
fn boundary_at_zero_stays() {
    assert_eq!(find_record_start(b"aa;1.2\nbb;3.4\n", 0), 0);
}

#[test]
fn boundary_advances_to_after_separator() {
    let data = b"aa;1.2\nbb;3.4\n";
    for raw in 1..=7 {
        assert_eq!(find_record_start(data, raw), 7);
    }
    for raw in 8..=14 {
        assert_eq!(find_record_start(data, raw), 14);
    }
}

#[test]
fn boundary_adjustment_never_splits_a_record() {
    let data = b"alpha;1.0\nbeta;-2.5\ngamma;33.3\n";
    let record_starts = [0usize, 10, 20, data.len()];
    for raw in 0..=data.len() {
        let adjusted = find_record_start(data, raw);
        // The adjusted boundary is a true record start (or the end).
        assert!(record_starts.contains(&adjusted));
        // And it is the first one at or after the raw boundary.
        assert!(adjusted >= raw);
        assert!(record_starts.iter().all(|&s| s < raw || s >= adjusted));
    }
}

#[test]
fn boundary_without_separator_runs_to_end() {
    assert_eq!(find_record_start(b"aaaaaa", 2), 6);
}

#[test]
fn cpu_set_raises_one_bit() {
    let mut set = CpuSet::new();
    CPU_SET(5, &mut set);
    assert_eq!(set.word(0), 1u64 << 5);
    for w in 1..16 {
        assert_eq!(set.word(w), 0);
    }
    CPU_SET(64, &mut set);
    assert_eq!(set.word(0), 1u64 << 5);
    assert_eq!(set.word(1), 1);
}

#[test]
fn affinity_hint_reports_no_binding() {
    assert!(!set_cpu_affinity(0));
    assert!(!set_cpu_affinity(31));
}
