use bakefile::execute::run_outcome;
use bakefile::execute::step_verdict;
use bakefile::Bash;
use bakefile::ExitKind;
use bakefile::Sh;
use bakefile::Shell;

#[test]
fn test_step_verdict_zero_continues() {
    assert_eq!(step_verdict(&ExitKind::Code(0)), None);
}

#[test]
fn test_step_verdict_nonzero_stops_with_that_code() {
    assert_eq!(step_verdict(&ExitKind::Code(2)), Some(2));
    assert_eq!(step_verdict(&ExitKind::Code(-7)), Some(-7));
}

#[test]
fn test_step_verdict_abnormal_stops_with_sentinel() {
    assert_eq!(step_verdict(&ExitKind::Abnormal), Some(3));
}

#[test]
fn test_run_stops_at_first_failing_step() {
    // a step exiting with code 2 stops the run at once with code 2
    let statuses = vec![ExitKind::Code(0), ExitKind::Code(2), ExitKind::Code(0)];
    assert_eq!(run_outcome(&statuses), (2, Some(2)));
}

#[test]
fn test_run_of_all_zero_steps_completes() {
    let statuses = vec![ExitKind::Code(0), ExitKind::Code(0)];
    assert_eq!(run_outcome(&statuses), (2, None));
}

#[test]
fn test_run_stops_on_abnormal_end() {
    let statuses = vec![ExitKind::Code(0), ExitKind::Abnormal, ExitKind::Code(0)];
    assert_eq!(run_outcome(&statuses), (2, Some(3)));
}

#[test]
fn test_sh_invocation() {
    let sh = Sh::new(None);
    assert_eq!(sh.get_path(), "sh");
    assert_eq!(sh.command(), "sh");
    assert_eq!(sh.get_cwd(), ".");
    assert_eq!(sh.exec_params(), vec!["-c".to_string()]);
}

#[test]
fn test_bash_invocation() {
    let bash = Bash::new(Some("/tmp".to_string()));
    assert_eq!(bash.get_path(), "bash");
    assert_eq!(bash.command(), "bash");
    assert_eq!(bash.get_cwd(), "/tmp");
    assert_eq!(bash.exec_params(), vec!["-c".to_string()]);
}
