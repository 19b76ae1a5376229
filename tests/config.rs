use c_lexer::{Config, ConfigError};

#[test]
fn config_takes_the_argument_after_the_program_name() {
    let args = vec!["compiler".to_string(), "main.c".to_string()];
    let config = Config::new(args).unwrap();
    assert_eq!(config.filename, "main.c");
}

#[test]
fn config_ignores_further_arguments() {
    let args = vec!["compiler".to_string(), "a.c".to_string(), "b.c".to_string()];
    assert_eq!(Config::new(args).unwrap().filename, "a.c");
}

#[test]
fn config_without_a_file_is_an_error() {
    assert_eq!(
        Config::new(vec!["compiler".to_string()]).unwrap_err(),
        ConfigError::MissingFilename
    );
    assert_eq!(
        Config::new(vec![]).unwrap_err(),
        ConfigError::MissingFilename
    );
    assert_eq!(ConfigError::MissingFilename.message(), "No file was given");
}
