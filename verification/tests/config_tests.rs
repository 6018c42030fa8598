use fdedup::config::Opt;
use fdedup::config::ValidateError;

fn base_opt() -> Opt {
    Opt {
        ignore_symlinks: false,
        max_links: 128,
        keep_shortest: false,
        pretend: false,
        exec_program: None,
        path: b"/tmp".to_vec(),
    }
}

#[test]
fn validate_accepts_defaults() {
    let opt = base_opt();
    assert!(opt.validate().is_ok());
}

#[test]
fn validate_accepts_keep_shortest_alone() {
    let mut opt = base_opt();
    opt.keep_shortest = true;
    assert!(opt.validate().is_ok());
}

#[test]
fn validate_accepts_exec_alone() {
    let mut opt = base_opt();
    opt.exec_program = Some(b"/bin/true".to_vec());
    assert!(opt.validate().is_ok());
}

#[test]
fn validate_accepts_pretend_with_keep_shortest() {
    let mut opt = base_opt();
    opt.keep_shortest = true;
    opt.pretend = true;
    assert!(opt.validate().is_ok());
}

#[test]
fn validate_accepts_pretend_with_exec() {
    let mut opt = base_opt();
    opt.exec_program = Some(b"/bin/true".to_vec());
    opt.pretend = true;
    assert!(opt.validate().is_ok());
}

#[test]
fn validate_rejects_keep_shortest_with_exec() {
    let mut opt = base_opt();
    opt.keep_shortest = true;
    opt.exec_program = Some(b"/bin/true".to_vec());
    assert_eq!(opt.validate(), Err(ValidateError::KeepShortestWithExec));
}

#[test]
fn validate_rejects_keep_shortest_with_exec_even_pretending() {
    let mut opt = base_opt();
    opt.keep_shortest = true;
    opt.exec_program = Some(b"/bin/true".to_vec());
    opt.pretend = true;
    assert_eq!(opt.validate(), Err(ValidateError::KeepShortestWithExec));
}

#[test]
fn validate_rejects_lone_pretend() {
    let mut opt = base_opt();
    opt.pretend = true;
    assert_eq!(opt.validate(), Err(ValidateError::PretendWithoutAction));
}
