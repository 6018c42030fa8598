use fdedup::config::Opt;
use fdedup::report::keep_le_exec;
use fdedup::report::plan_group_action;
use fdedup::report::plan_keep_shortest;
use fdedup::report::GroupAction;

fn cfg(keep_shortest: bool, exec_program: Option<Vec<u8>>, pretend: bool) -> Opt {
    Opt {
        ignore_symlinks: false,
        max_links: 128,
        keep_shortest,
        pretend,
        exec_program,
        path: b"/".to_vec(),
    }
}

#[test]
fn keep_shortest_keeps_the_shortest_name() {
    let group = vec![
        b"/a/bb.txt".to_vec(),
        b"/a/b.txt".to_vec(),
        b"/a/ccc.txt".to_vec(),
    ];
    let plan = plan_keep_shortest(group);
    assert_eq!(plan.keep, b"/a/b.txt".to_vec());
    let mut deleted = plan.delete;
    deleted.sort();
    assert_eq!(deleted, vec![b"/a/bb.txt".to_vec(), b"/a/ccc.txt".to_vec()]);
}

#[test]
fn keep_shortest_breaks_length_ties_lexicographically() {
    let group = vec![b"/a/b".to_vec(), b"/a/a".to_vec(), b"/a/c".to_vec()];
    let plan = plan_keep_shortest(group);
    assert_eq!(plan.keep, b"/a/a".to_vec());
    assert_eq!(plan.delete.len(), 2);
}

#[test]
fn shorter_name_comes_first() {
    assert!(keep_le_exec(&b"/a/b.txt".to_vec(), &b"/a/bb.txt".to_vec()));
    assert!(!keep_le_exec(&b"/a/bb.txt".to_vec(), &b"/a/b.txt".to_vec()));
}

#[test]
fn equal_length_names_compare_lexicographically() {
    assert!(keep_le_exec(&b"/a/a".to_vec(), &b"/a/b".to_vec()));
    assert!(!keep_le_exec(&b"/a/b".to_vec(), &b"/a/a".to_vec()));
    assert!(keep_le_exec(&b"/a/a".to_vec(), &b"/a/a".to_vec()));
}

#[test]
fn keep_shortest_action_reports_the_exact_split() {
    // The dry run and the real run act on the same plan; only performing
    // it differs.
    let group = vec![
        b"/a/bb.txt".to_vec(),
        b"/a/b.txt".to_vec(),
        b"/a/ccc.txt".to_vec(),
    ];
    let action = plan_group_action(&cfg(true, None, true), group);
    match action {
        GroupAction::KeepShortest { keep, delete } => {
            assert_eq!(keep, b"/a/b.txt".to_vec());
            let mut delete = delete;
            delete.sort();
            assert_eq!(delete, vec![b"/a/bb.txt".to_vec(), b"/a/ccc.txt".to_vec()]);
        }
        _ => panic!("expected the keep-shortest action"),
    }
}

#[test]
fn exec_action_carries_every_path_of_the_group_once() {
    let group = vec![b"/x".to_vec(), b"/y".to_vec(), b"/z".to_vec()];
    let action = plan_group_action(&cfg(false, Some(b"/bin/prog".to_vec()), false), group.clone());
    match action {
        GroupAction::RunProgram { program, args } => {
            assert_eq!(program, b"/bin/prog".to_vec());
            assert_eq!(args, group);
        }
        _ => panic!("expected the run-program action"),
    }
}

#[test]
fn default_action_is_a_report() {
    let group = vec![b"/x".to_vec(), b"/y".to_vec()];
    let action = plan_group_action(&cfg(false, None, false), group);
    assert!(matches!(action, GroupAction::Report));
}

#[test]
fn a_group_of_one_keeps_its_only_path() {
    let plan = plan_keep_shortest(vec![b"/only".to_vec()]);
    assert_eq!(plan.keep, b"/only".to_vec());
    assert!(plan.delete.is_empty());
}
