use rustify_ts::parser::backend::deno::{check_exit, deno_availability, interpret_response, DenoBackend, DenoBackendConfig};
use rustify_ts::parser::error::ParseError;

#[test]
fn test_error_constructors() {
    let err = ParseError::invalid_ast("missing field".to_string());
    assert!(matches!(err, ParseError::InvalidAst(_)));

    let err = ParseError::serialization_error("test error".to_string());
    assert!(matches!(err, ParseError::SerializationError(_)));

    let err = ParseError::deserialization_error("test error".to_string());
    assert!(matches!(err, ParseError::DeserializationError(_)));

    let err = ParseError::generic("something went wrong".to_string());
    assert!(matches!(err, ParseError::Generic(_)));
}

#[test]
fn test_io_error_conversion() {
    let io_err = std::io::Error::new(std::io::ErrorKind::NotFound, "test");
    let parse_err = ParseError::from(io_err);
    assert!(matches!(parse_err, ParseError::Io(_)));
}

#[test]
fn test_json_error_conversion() {
    let json_err: Result<serde_json::Value, serde_json::Error> = serde_json::from_str("invalid json");
    if let Err(json_err) = json_err {
        let parse_err = ParseError::from(json_err);
        assert!(matches!(parse_err, ParseError::JsonError(_)));
    }
}

#[test]
fn deno_config_defaults() {
    let config = DenoBackendConfig::default();
    assert_eq!(config.deno_path, "deno");
    assert_eq!(config.script_path, "deno-bridge/deno_parser.ts");
    assert_eq!(config.timeout, 30);
    assert_eq!(config.deno_args, vec!["run".to_string(), "--allow-read".to_string(), "--allow-env".to_string()]);
}

#[test]
fn backend_needs_its_script() {
    match DenoBackend::new(false) {
        Err(ParseError::FileNotFound(p)) => assert_eq!(p, std::path::PathBuf::from("deno-bridge/deno_parser.ts")),
        _ => panic!("expected FileNotFound"),
    }
    let mut config = DenoBackendConfig::default();
    config.timeout = 5;
    let backend = DenoBackend::with_config(config, true).unwrap();
    assert_eq!(backend.config().timeout, 5);
    assert!(DenoBackend::new(true).is_ok());
}

#[test]
fn deno_availability_outcomes() {
    assert!(deno_availability(Ok(true)).is_ok());
    assert!(matches!(deno_availability(Ok(false)), Err(ParseError::DenoNotFound)));
    assert!(matches!(deno_availability(Err(None)), Err(ParseError::DenoNotFound)));
    match deno_availability(Err(Some("denied".to_string()))) {
        Err(ParseError::DenoStartFailed(m)) => assert_eq!(m, "denied"),
        _ => panic!("expected DenoStartFailed"),
    }
}

#[test]
fn exit_status_outcomes() {
    assert!(check_exit(true, Some(0), String::new()).is_ok());
    match check_exit(false, Some(2), "boom".to_string()) {
        Err(ParseError::DenoNonZeroExit { code, message }) => {
            assert_eq!(code, 2);
            assert_eq!(message, "boom");
        }
        _ => panic!("expected DenoNonZeroExit"),
    }
    match check_exit(false, None, "killed".to_string()) {
        Err(ParseError::DenoExecutionError(m)) => assert_eq!(m, "Process terminated by signal: killed"),
        _ => panic!("expected DenoExecutionError"),
    }
}

#[test]
fn response_outcomes() {
    assert_eq!(interpret_response(true, Some(7u8), vec![], None).unwrap(), 7);
    match interpret_response::<u8>(false, None, vec![], None) {
        Err(ParseError::DenoExecutionError(m)) => assert_eq!(m, "Unknown error from Deno parser"),
        _ => panic!("expected DenoExecutionError"),
    }
    match interpret_response::<u8>(false, Some(1), vec![], Some("bad".to_string())) {
        Err(ParseError::DenoExecutionError(m)) => assert_eq!(m, "bad"),
        _ => panic!("expected DenoExecutionError"),
    }
    match interpret_response::<u8>(true, Some(1), vec!["e1".to_string(), "e2".to_string()], None) {
        Err(ParseError::SyntaxError { line, column, message }) => {
            assert_eq!((line, column), (1, 1));
            assert_eq!(message, "e1\ne2");
        }
        _ => panic!("expected SyntaxError"),
    }
    match interpret_response::<u8>(true, None, vec![], None) {
        Err(ParseError::InvalidAst(m)) => assert_eq!(m, "Missing AST in response"),
        _ => panic!("expected InvalidAst"),
    }
}

#[test]
fn test_deno_backend_creation() {
    let script = DenoBackendConfig::default().script_path;
    let backend = DenoBackend::new(std::path::Path::new(&script).exists());
    // The bridge script may be absent here; then creation reports it.
    assert!(backend.is_ok() || matches!(backend.err(), Some(ParseError::FileNotFound(_))));
}
