use kerbal_kalculator::modules::input::{is_exit, menu_action, yes_no, MenuAction};

#[test]
fn exit_answer() {
    assert!(is_exit("exit"));
    assert!(!is_exit("Exit"));
    assert!(!is_exit("exit "));
    assert!(!is_exit(""));
}

#[test]
fn yes_no_answers() {
    assert_eq!(yes_no("y"), Some(true));
    assert_eq!(yes_no("Y"), Some(true));
    assert_eq!(yes_no("n"), Some(false));
    assert_eq!(yes_no("N"), Some(false));
    assert_eq!(yes_no("yes"), None);
    assert_eq!(yes_no(""), None);
    assert_eq!(yes_no("x"), None);
}

#[test]
fn menu_answers() {
    assert_eq!(menu_action("1"), Some(MenuAction::ChangeTargetDeltaV));
    assert_eq!(menu_action("2"), Some(MenuAction::ChangeMass));
    assert_eq!(menu_action("3"), Some(MenuAction::ChangeMinimumTwr));
    assert_eq!(menu_action("4"), Some(MenuAction::ChangeMaximumTwr));
    assert_eq!(menu_action("5"), None);
    assert_eq!(menu_action("12"), None);
}
