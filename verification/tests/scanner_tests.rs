use fdedup::config::Opt;
use fdedup::scanner::classify_step;
use fdedup::scanner::plan_directory;
use fdedup::scanner::resolve_entry;
use fdedup::scanner::EntryKind;
use fdedup::scanner::Observation;
use fdedup::scanner::RawEntry;
use fdedup::scanner::Resolution;
use fdedup::scanner::StepAction;

fn cfg_with(ignore_symlinks: bool, max_links: usize) -> Opt {
    Opt {
        ignore_symlinks,
        max_links,
        keep_shortest: false,
        pretend: false,
        exec_program: None,
        path: b"/".to_vec(),
    }
}

#[test]
fn empty_file_is_skipped() {
    let cfg = cfg_with(false, 128);
    let a = classify_step(&cfg, 0, &EntryKind::RegularFile { size: 0 });
    assert_eq!(a, StepAction::SkipEmptyFile);
}

#[test]
fn regular_file_is_hashed() {
    let cfg = cfg_with(false, 128);
    let a = classify_step(&cfg, 0, &EntryKind::RegularFile { size: 42 });
    assert_eq!(a, StepAction::HashFile);
}

#[test]
fn directory_is_enqueued() {
    let cfg = cfg_with(false, 128);
    assert_eq!(classify_step(&cfg, 0, &EntryKind::Directory), StepAction::EnqueueDirectory);
}

#[test]
fn other_kinds_are_skipped() {
    let cfg = cfg_with(false, 128);
    assert_eq!(classify_step(&cfg, 0, &EntryKind::Other), StepAction::SkipOtherKind);
}

#[test]
fn symlink_is_followed_within_the_guard() {
    let cfg = cfg_with(false, 2);
    assert_eq!(classify_step(&cfg, 0, &EntryKind::Symlink), StepAction::FollowLink);
    assert_eq!(classify_step(&cfg, 2, &EntryKind::Symlink), StepAction::FollowLink);
}

#[test]
fn symlink_beyond_the_guard_is_skipped() {
    let cfg = cfg_with(false, 2);
    assert_eq!(classify_step(&cfg, 3, &EntryKind::Symlink), StepAction::SkipLinkDepth);
}

#[test]
fn symlink_skipped_outright_when_disabled() {
    let cfg = cfg_with(true, 128);
    assert_eq!(classify_step(&cfg, 0, &EntryKind::Symlink), StepAction::SkipSymlinkIgnored);
}

#[test]
fn symlink_cycle_resolution_terminates_with_a_depth_skip() {
    // An unrolled symlink cycle: every observation shows another symlink.
    // With max_links = 3, resolution must return (not hang) and abandon
    // the entry.
    let cfg = cfg_with(false, 3);
    let chain: Vec<Observation> = vec![Observation::Found(EntryKind::Symlink); 1000];
    assert_eq!(resolve_entry(&cfg, &chain), Resolution::SkippedDepth);
}

#[test]
fn chain_within_the_guard_resolves_to_its_target() {
    let cfg = cfg_with(false, 3);
    let chain = vec![
        Observation::Found(EntryKind::Symlink),
        Observation::Found(EntryKind::Symlink),
        Observation::Found(EntryKind::Directory),
    ];
    assert_eq!(resolve_entry(&cfg, &chain), Resolution::Directory);
}

#[test]
fn broken_link_target_skips_the_entry() {
    let cfg = cfg_with(false, 128);
    let chain = vec![Observation::Found(EntryKind::Symlink), Observation::Broken];
    assert_eq!(resolve_entry(&cfg, &chain), Resolution::SkippedBroken);
}

#[test]
fn link_to_file_resolves_to_the_file() {
    let cfg = cfg_with(false, 128);
    let chain = vec![
        Observation::Found(EntryKind::Symlink),
        Observation::Found(EntryKind::RegularFile { size: 7 }),
    ];
    assert_eq!(resolve_entry(&cfg, &chain), Resolution::File { size: 7 });
}

#[test]
fn deep_chain_abandons_that_entry_only() {
    // One entry trips the depth guard; the directory's other entries are
    // still dispatched.
    let cfg = cfg_with(false, 1);
    let entries = vec![
        RawEntry {
            path: b"/a/cycle".to_vec(),
            chain: vec![Observation::Found(EntryKind::Symlink); 10],
        },
        RawEntry {
            path: b"/a/file".to_vec(),
            chain: vec![Observation::Found(EntryKind::RegularFile { size: 5 })],
        },
        RawEntry {
            path: b"/a/dir".to_vec(),
            chain: vec![Observation::Found(EntryKind::Directory)],
        },
    ];
    let plan = plan_directory(&cfg, &entries);
    assert_eq!(plan.directories, vec![b"/a/dir".to_vec()]);
    assert_eq!(plan.files, vec![b"/a/file".to_vec()]);
    assert_eq!(plan.skipped, 1);
}

#[test]
fn a_listing_of_only_empty_files_dispatches_nothing() {
    let cfg = cfg_with(false, 128);
    let entries = vec![
        RawEntry {
            path: b"/t/a".to_vec(),
            chain: vec![Observation::Found(EntryKind::RegularFile { size: 0 })],
        },
        RawEntry {
            path: b"/t/b".to_vec(),
            chain: vec![Observation::Found(EntryKind::RegularFile { size: 0 })],
        },
    ];
    let plan = plan_directory(&cfg, &entries);
    assert!(plan.directories.is_empty());
    assert!(plan.files.is_empty());
    assert_eq!(plan.skipped, 2);
}

#[test]
fn an_exhausted_chain_asks_for_another_observation() {
    let cfg = cfg_with(false, 128);
    let chain: Vec<Observation> = Vec::new();
    assert_eq!(resolve_entry(&cfg, &chain), Resolution::NeedsObservation);
}

#[test]
fn a_zero_guard_allows_one_follow() {
    let cfg = cfg_with(false, 0);
    let chain = vec![
        Observation::Found(EntryKind::Symlink),
        Observation::Found(EntryKind::Directory),
    ];
    assert_eq!(resolve_entry(&cfg, &chain), Resolution::Directory);
    let deep = vec![Observation::Found(EntryKind::Symlink); 3];
    assert_eq!(resolve_entry(&cfg, &deep), Resolution::SkippedDepth);
}
