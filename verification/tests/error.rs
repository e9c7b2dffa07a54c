use oracle::error::OracleError;

#[test]
fn serialises_with_code_and_detail() {
    let err = OracleError::Config { cause: "access denied".to_string() };

    assert_eq!(err.code(), "config_io");
    assert_eq!(err.message(), "could not read or write the configuration");
    assert_eq!(err.detail().as_deref(), Some("access denied"));
}

#[test]
fn errors_without_a_source_have_no_detail() {
    let err = OracleError::EmptyCommand;
    assert_eq!(err.code(), "empty_command");
    assert!(err.detail().is_none());
}

#[test]
fn every_error_names_what_went_wrong() {
    assert_eq!(OracleError::ProjectNotFound("x".to_string()).message(), "no project with id x");
    assert_eq!(
        OracleError::MissingWorkingDir("/gone".to_string()).message(),
        "working directory does not exist: /gone"
    );
    let busy = OracleError::PortInUse { port: 3000, holder: "Shop".to_string(), suggestion: Some(3001) };
    assert_eq!(busy.code(), "port_in_use");
    assert!(busy.message().contains("3000"));
    assert!(busy.message().contains("Shop"));
    assert_eq!(OracleError::GitMissing.code(), "git_missing");
    assert_eq!(OracleError::Other("plain".to_string()).message(), "plain");
}

#[test]
fn only_a_port_conflict_carries_data() {
    let err = OracleError::PortInUse { port: 3000, holder: "Promethee".to_string(), suggestion: Some(3001) };
    assert_eq!(err.data(), Some((3000, Some(3001))));
    assert_eq!(OracleError::EmptyCommand.data(), None);
}
