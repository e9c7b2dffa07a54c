use oracle::autostart::{
    command_line, is_enabled, launched_hidden, needs_write, removal_outcome, Removal,
    StartupChange, HIDDEN_FLAG,
};

#[test]
fn the_executable_path_is_always_quoted() {
    let line = command_line(r"C:\Program Files\Oracle\oracle.exe", false);
    assert_eq!(line, "\"C:\\Program Files\\Oracle\\oracle.exe\"");
}

#[test]
fn the_hidden_flag_is_appended_outside_the_quotes() {
    let line = command_line(r"C:\Apps\oracle.exe", true);
    assert_eq!(line, "\"C:\\Apps\\oracle.exe\" --hidden");
}

#[test]
fn a_path_with_spaces_survives_quoting() {
    let line = command_line(r"C:\Users\Jean Dupont\oracle.exe", true);
    assert!(line.starts_with("\"C:\\Users\\Jean Dupont\\oracle.exe\""));
    assert!(line.ends_with(HIDDEN_FLAG));
}

#[test]
fn disabling_clears_and_enabling_writes_the_command() {
    assert!(matches!(oracle::autostart::set(false, true, r"C:\o.exe"), StartupChange::Clear));
    match oracle::autostart::set(true, false, r"C:\o.exe") {
        StartupChange::Register(command) => assert_eq!(command, "\"C:\\o.exe\""),
        StartupChange::Clear => panic!("enabling must register"),
    }
}

#[test]
fn removing_an_entry_that_is_not_there_is_success() {
    assert!(removal_outcome(Removal::Removed).is_ok());
    assert!(removal_outcome(Removal::NotFound).is_ok());
    let err = removal_outcome(Removal::Failed("access denied".to_string())).unwrap_err();
    assert_eq!(err.message(), "cannot clear the startup entry: access denied");
}

#[test]
fn the_entry_is_rewritten_whenever_autostart_is_or_was_on() {
    assert!(needs_write(true, false));
    assert!(needs_write(false, true));
    assert!(needs_write(true, true));
    assert!(!needs_write(false, false));
    assert!(is_enabled(Some("\"C:\\o.exe\"")));
    assert!(!is_enabled(None));
}

#[test]
fn an_autostarted_launch_is_recognised_by_its_flag() {
    assert!(launched_hidden(&vec!["oracle.exe".to_string(), "--hidden".to_string()]));
    assert!(!launched_hidden(&vec!["oracle.exe".to_string()]));
}
