use lru_evict::candidate::Candidate;
use lru_evict::executor::bytes_freed;
use lru_evict::plan::age_floor_from;
use lru_evict::plan::plan_evictions;
use lru_evict::plan::required_bytes;
use lru_evict::reconciler::reconcile;
use lru_evict::selector::select;
use lru_evict::selector::select_step;

fn cand(path: &str, size: u64, accessed: i64) -> Candidate {
    Candidate::new(String::from(path), size, accessed)
}

fn drained_paths(set: &mut lru_evict::set::CandidateSet) -> Vec<String> {
    let mut out: Vec<String> = Vec::new();
    for c in set.drain_most_recent_first() {
        out.push(c.path);
    }
    out
}

// Three files A(100 bytes, accessed T-10m), B(50, T-5m), C(200, T-20m), an
// age floor of T-1m and a 250-byte deficit: the selection must be {C, A}
// (300 bytes), never B alone and never all three.
#[test]
fn scenario_oldest_cover() {
    let t: i64 = 100_000;
    let files = vec![
        cand("a", 100, t - 600),
        cand("b", 50, t - 300),
        cand("c", 200, t - 1200),
    ];
    let mut set = select(&files, 250, t - 60);
    assert_eq!(set.total_size(), 300);
    let paths = drained_paths(&mut set);
    assert_eq!(paths, vec![String::from("a"), String::from("c")]);
}

// An age floor behind every file leaves the selection empty no matter how
// large the deficit is.
#[test]
fn scenario_nothing_eligible() {
    let t: i64 = 100_000;
    let files = vec![
        cand("a", 100, t - 600),
        cand("b", 50, t - 300),
        cand("c", 200, t - 1200),
    ];
    let mut set = select(&files, 100, t - 1800);
    assert!(set.is_empty());
    assert_eq!(set.total_size(), 0);
    assert_eq!(drained_paths(&mut set).len(), 0);
}

// A scanned set of 500 bytes against a 400-byte deficit, reconciled against
// a fresh 100-byte deficit, keeps only the oldest files summing to the
// smallest amount at or above 100.
#[test]
fn scenario_reconcile_prunes_to_fresh_deficit() {
    let files = vec![
        cand("old", 200, 10),
        cand("mid", 150, 20),
        cand("new", 150, 30),
    ];
    let mut set = select(&files, 400, 1_000);
    assert_eq!(set.total_size(), 500);
    reconcile(&mut set, 100);
    assert_eq!(set.total_size(), 200);
    let paths = drained_paths(&mut set);
    assert_eq!(paths, vec![String::from("old")]);
}

// Every member of the final selection was last accessed strictly before the
// age floor, also under size pressure that the eligible files cannot cover.
#[test]
fn age_floor_is_absolute() {
    let floor: i64 = 500;
    let files = vec![
        cand("young1", 400, 500),
        cand("old1", 10, 499),
        cand("young2", 900, 700),
        cand("old2", 20, 100),
    ];
    let mut set = select(&files, 1_000_000, floor);
    assert_eq!(set.total_size(), 30);
    let drained = set.drain_most_recent_first();
    assert_eq!(drained.len(), 2);
    for c in &drained {
        assert!(c.accessed < floor);
    }
}

// The near-minimal cover invariant holds after every single step of the
// pass: the total less the newest member's size never exceeds the deficit.
#[test]
fn near_minimal_cover_after_every_step() {
    let required: u64 = 300;
    let floor: i64 = 10_000;
    let files = vec![
        cand("a", 120, 90),
        cand("b", 250, 10),
        cand("c", 80, 50),
        cand("d", 200, 20),
        cand("e", 60, 70),
    ];
    let mut set = lru_evict::set::CandidateSet::new();
    for f in &files {
        select_step(&mut set, f, required, floor);
        if !set.is_empty() {
            let newest = set.peek_most_recent().unwrap().size;
            assert!(set.total_size() - newest <= required);
        }
    }
}

// A file newer than the newest member of a set already at its target is
// skipped outright, never admitted and then evicted.
#[test]
fn newer_file_skipped_outright() {
    let required: u64 = 100;
    let floor: i64 = 10_000;
    let mut set = lru_evict::set::CandidateSet::new();
    select_step(&mut set, &cand("old", 120, 10), required, floor);
    assert_eq!(set.len(), 1);
    assert_eq!(set.total_size(), 120);
    select_step(&mut set, &cand("newer", 10, 20), required, floor);
    assert_eq!(set.len(), 1);
    assert_eq!(set.total_size(), 120);
    assert_eq!(set.peek_most_recent().unwrap().path, "old");
}

// A file accessed at the same second as the newest member of a set already
// at its target ends up dropped again: the step leaves the set as it was.
#[test]
fn tie_with_newest_at_target() {
    let required: u64 = 10;
    let floor: i64 = 10_000;
    let mut set = lru_evict::set::CandidateSet::new();
    select_step(&mut set, &cand("a", 8, 5), required, floor);
    select_step(&mut set, &cand("b", 8, 7), required, floor);
    assert_eq!(set.total_size(), 16);
    select_step(&mut set, &cand("tie", 1, 7), required, floor);
    assert_eq!(set.len(), 2);
    assert_eq!(set.total_size(), 16);
    assert_eq!(set.peek_most_recent().unwrap().path, "b");
}

// An adversarial stream ordered newest-first: each older file displaces the
// newer ones it makes unnecessary, and the pass ends on the oldest cover.
#[test]
fn newest_first_stream() {
    let required: u64 = 60;
    let floor: i64 = 10_000;
    let files = vec![cand("n30", 50, 30), cand("n20", 50, 20), cand("n10", 50, 10)];
    let mut set = select(&files, required, floor);
    assert_eq!(set.total_size(), 100);
    let paths = drained_paths(&mut set);
    assert_eq!(paths, vec![String::from("n20"), String::from("n10")]);
}

// Reconciling against a smaller deficit yields a subset, by path, of the
// scanned set, and reconciling against zero drains it entirely.
#[test]
fn reconcile_never_grows() {
    let files = vec![
        cand("p", 100, 1),
        cand("q", 100, 2),
        cand("r", 100, 3),
        cand("s", 100, 4),
    ];
    let mut scanned = select(&files, 400, 1_000);
    let scanned_paths = drained_paths(&mut select(&files, 400, 1_000));
    reconcile(&mut scanned, 150);
    let kept = drained_paths(&mut scanned);
    assert!(kept.len() <= scanned_paths.len());
    for p in &kept {
        assert!(scanned_paths.contains(p));
    }

    let mut drained = select(&files, 400, 1_000);
    reconcile(&mut drained, 0);
    assert!(drained.is_empty());
    assert_eq!(drained.total_size(), 0);
}

// Two dry runs over the same observations report the same files in the same
// order and the same byte total.
#[test]
fn dry_run_idempotent() {
    let files = vec![
        cand("a", 300, 5),
        cand("b", 200, 9),
        cand("c", 100, 2),
        cand("d", 400, 7),
    ];
    let first = plan_evictions(&files, 1_000, 400, 500, 100);
    let second = plan_evictions(&files, 1_000, 400, 500, 100);
    assert_eq!(first.len(), second.len());
    for (x, y) in first.iter().zip(second.iter()) {
        assert_eq!(x.path, y.path);
        assert_eq!(x.size, y.size);
        assert_eq!(x.accessed, y.accessed);
    }
    let all_first = vec![true; first.len()];
    let all_second = vec![true; second.len()];
    assert_eq!(bytes_freed(&first, &all_first), bytes_freed(&second, &all_second));
}

// The full pipeline hands the plan out most recently accessed first.
#[test]
fn plan_orders_newest_first() {
    let files = vec![cand("a", 100, 5), cand("b", 100, 9), cand("c", 100, 2)];
    let plan = plan_evictions(&files, 300, 100, 100, 100);
    let paths: Vec<&str> = plan.iter().map(|c| c.path.as_str()).collect();
    assert_eq!(paths, vec!["b", "a", "c"]);
}

// Space freed by others between the probes: the recomputed deficit clamps
// at zero instead of underflowing, and nothing is deleted.
#[test]
fn available_space_grew_between_probes() {
    assert_eq!(required_bytes(100, 150), 0);
    assert_eq!(required_bytes(100, 100), 0);
    assert_eq!(required_bytes(100, 40), 60);
    let files = vec![cand("a", 100, 5), cand("b", 100, 9)];
    let plan = plan_evictions(&files, 100, 40, 150, 100);
    assert!(plan.is_empty());
}

// No deficit at the first probe: nothing is planned at all.
#[test]
fn no_deficit_no_plan() {
    let files = vec![cand("a", 100, 5)];
    let plan = plan_evictions(&files, 100, 100, 0, 100);
    assert!(plan.is_empty());
}

// The age floor is now minus the configured minutes, saturating instead of
// overflowing at the ends of the representable range.
#[test]
fn age_floor_arithmetic() {
    assert_eq!(age_floor_from(1_000, 2), 880);
    assert_eq!(age_floor_from(1_000, 0), 1_000);
    assert_eq!(age_floor_from(1_000, -2), 1_120);
    assert_eq!(age_floor_from(i64::MIN, 1), i64::MIN);
    assert_eq!(age_floor_from(0, i64::MIN), i64::MAX);
}

// A single file as large as the counter allows is handled without overflow.
#[test]
fn largest_file_size() {
    let files = vec![cand("huge", u64::MAX, 1)];
    let mut set = select(&files, u64::MAX, 100);
    assert_eq!(set.total_size(), u64::MAX);
    assert_eq!(drained_paths(&mut set), vec![String::from("huge")]);
}

// Empty input: an empty selection, whatever the deficit.
#[test]
fn empty_input() {
    let files: Vec<Candidate> = Vec::new();
    let mut set = select(&files, u64::MAX, i64::MAX);
    assert!(set.is_empty());
    assert_eq!(drained_paths(&mut set).len(), 0);
}
