use minigrep::config::{Argument, Config, ConfigError};

#[test]
fn config_constructor_returns_error() {
    let empty: Vec<String> = vec!();

    assert!(Config::new(&empty, false).is_err());
}

#[test]
fn can_construct_config() {
    let args = &[String::from("some/path/minigrep"), String::from("query"), String::from("filename")];
    let expected = Ok(Config {
        query: String::from("query"),
        filename: String::from("filename"),
        case_sensitive: true,
    });
    let actual = Config::new(args, false);

    assert_eq!(expected, actual);
}

#[test]
fn program_name_alone_misses_the_query() {
    let args = vec![String::from("minigrep")];
    let err = Config::new(&args, false).unwrap_err();
    assert_eq!(err, ConfigError::MissingArgument(Argument::Query));
    assert_eq!(err.message(), "Didn't get a query string");
}

#[test]
fn query_alone_misses_the_file_name() {
    let args = vec![String::from("minigrep"), String::from("query")];
    let err = Config::new(&args, false).unwrap_err();
    assert_eq!(err, ConfigError::MissingArgument(Argument::Filename));
    assert_eq!(err.message(), "Didn't get a file name");
}

#[test]
fn case_insensitive_flag_clears_case_sensitivity() {
    let args = vec![String::from("minigrep"), String::from("to"), String::from("poem.txt")];
    let config = Config::new(&args, true).unwrap();
    assert_eq!(config.query, "to");
    assert_eq!(config.filename, "poem.txt");
    assert!(!config.case_sensitive);
}

#[test]
fn extra_arguments_are_ignored() {
    let args = vec![
        String::from("minigrep"),
        String::from("a"),
        String::from("b"),
        String::from("c"),
    ];
    let config = Config::new(&args, false).unwrap();
    assert_eq!(config.query, "a");
    assert_eq!(config.filename, "b");
    assert!(config.case_sensitive);
}
