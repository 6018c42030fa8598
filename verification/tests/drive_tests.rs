use fdedup::governor::Governor;
use fdedup::visited::plan_wave;
use fdedup::visited::VisitedDirs;

#[test]
fn a_wave_scans_each_fresh_directory_once() {
    let mut visited = VisitedDirs::new();
    let frontier = vec![
        b"/root/a".to_vec(),
        b"/root/b".to_vec(),
        b"/root/a".to_vec(),
    ];
    let to_scan = plan_wave(&mut visited, &frontier);
    assert_eq!(to_scan, vec![b"/root/a".to_vec(), b"/root/b".to_vec()]);
}

#[test]
fn a_cycle_refeeding_the_frontier_adds_no_work() {
    // A symlink cycle keeps re-offering an already-visited directory: the
    // next wave plans nothing, so the loop converges instead of hanging.
    let mut visited = VisitedDirs::new();
    let frontier = vec![b"/root/a".to_vec()];
    let first = plan_wave(&mut visited, &frontier);
    assert_eq!(first.len(), 1);
    let second = plan_wave(&mut visited, &frontier);
    assert!(second.is_empty());
}

#[test]
fn deep_nesting_is_visited_completely() {
    // Fifty nested directories arrive over fifty waves; every one is
    // scanned exactly once.
    let mut visited = VisitedDirs::new();
    let mut scanned: Vec<Vec<u8>> = Vec::new();
    let mut frontier = vec![b"/d0".to_vec()];
    let mut depth = 0;
    while !frontier.is_empty() {
        let to_scan = plan_wave(&mut visited, &frontier);
        frontier = Vec::new();
        for dir in to_scan {
            scanned.push(dir);
            depth += 1;
            if depth < 50 {
                frontier.push(format!("/d{}", depth).into_bytes());
            }
        }
    }
    assert_eq!(scanned.len(), 50);
}

#[test]
fn the_governor_admits_at_most_its_limit() {
    let mut g = Governor::new(2);
    assert!(g.try_acquire());
    assert!(g.try_acquire());
    assert!(!g.try_acquire());
    assert!(!g.try_acquire());
}

#[test]
fn a_released_permit_can_be_reacquired() {
    let mut g = Governor::new(2);
    assert!(g.try_acquire());
    assert!(g.try_acquire());
    g.release();
    assert!(g.try_acquire());
    assert!(!g.try_acquire());
}

#[test]
fn a_zero_capacity_governor_admits_nothing() {
    let mut g = Governor::new(0);
    assert!(!g.try_acquire());
}
