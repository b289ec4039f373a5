use rust_grep::config::Resolution;
use rust_grep::config::parameters::Parameters;
use rust_grep::BuildOutcome;
use rust_grep::Config;
use rust_grep::ConfigError;

#[test]
fn config_build() {
    let args = vec![
        String::from("target/debug/rust_grep"),
        String::from("query"),
        String::from("path"),
        String::from("-ic"),
    ];

    let config = match Config::build(args.clone(), None, false).unwrap() {
        BuildOutcome::Search(c) => c,
        _ => panic!("expected a search configuration"),
    };

    assert_eq!(config.query, args[1]);
    assert_eq!(config.path, args[2]);

    let args = vec![
        String::from("target/debug/rust_grep"),
        String::from("43244dgdsd"),
        String::from("243rewfdd"),
    ];

    let config = match Config::build(args.clone(), None, false).unwrap() {
        BuildOutcome::Search(c) => c,
        _ => panic!("expected a search configuration"),
    };

    assert_eq!(config.query, args[1]);
    assert_eq!(config.path, args[2]);
}

#[test]
fn config_build_not_enough_args() {
    let args = vec![String::from("target/debug/rust_grep")];

    let config = Config::build(args, None, false);

    assert!(config.is_err());

    let args = vec![
        String::from("target/debug/rust_grep"),
        String::from("query"),
    ];

    let config = Config::build(args, None, false);

    assert!(config.is_err());
}

#[test]
fn not_enough_args_error_kind() {
    let args = vec![String::from("prog")];
    let r = Config::build(args, None, false);
    assert!(matches!(r, Err(ConfigError::NotEnoughArguments)));

    let args = vec![String::from("prog"), String::from("query")];
    let r = Config::build(args, None, false);
    assert!(matches!(r, Err(ConfigError::NotEnoughArguments)));

    // A missing query fails even when piped content is available.
    let args = vec![String::from("prog")];
    let r = Config::build(args, Some(String::from("x")), false);
    assert!(matches!(r, Err(ConfigError::NotEnoughArguments)));
}

#[test]
fn query_and_path_succeed_with_or_without_content() {
    let args = vec![
        String::from("prog"),
        String::from("query"),
        String::from("path"),
    ];
    assert!(Config::build(args.clone(), None, false).is_ok());
    assert!(Config::build(args, Some(String::from("x")), false).is_ok());
}

#[test]
fn preloaded_content_makes_path_optional() {
    let args = vec![String::from("prog"), String::from("query")];
    let config = match Config::build(args, Some(String::from("x")), false).unwrap() {
        BuildOutcome::Search(c) => c,
        _ => panic!("expected a search configuration"),
    };
    assert_eq!(config.query, "query");
    assert_eq!(config.path, "");
    assert_eq!(config.content, Some(String::from("x")));
}

#[test]
fn invalid_flag_fails_anywhere() {
    let expected = String::from("-x");

    let args = vec![
        String::from("prog"),
        String::from("-x"),
        String::from("query"),
        String::from("path"),
    ];
    match Config::build(args, None, false) {
        Err(ConfigError::InvalidParameter(t)) => assert_eq!(t, expected),
        _ => panic!("expected an invalid-parameter error"),
    }

    let args = vec![
        String::from("prog"),
        String::from("query"),
        String::from("-x"),
        String::from("path"),
    ];
    match Config::build(args, None, false) {
        Err(ConfigError::InvalidParameter(t)) => assert_eq!(t, expected),
        _ => panic!("expected an invalid-parameter error"),
    }

    let args = vec![
        String::from("prog"),
        String::from("query"),
        String::from("path"),
        String::from("-ic"),
        String::from("-x"),
    ];
    match Config::build(args, None, false) {
        Err(ConfigError::InvalidParameter(t)) => assert_eq!(t, expected),
        _ => panic!("expected an invalid-parameter error"),
    }
}

#[test]
fn invalid_flag_beats_help() {
    let args = vec![
        String::from("prog"),
        String::from("-x"),
        String::from("--help"),
    ];
    assert!(matches!(
        Config::build(args, None, false),
        Err(ConfigError::InvalidParameter(_))
    ));
}

#[test]
fn help_and_version_short_circuit() {
    // Help and version bypass the not-enough-arguments check entirely.
    let args = vec![String::from("prog"), String::from("--help")];
    assert!(matches!(
        Config::build(args, None, false),
        Ok(BuildOutcome::Help)
    ));

    let args = vec![String::from("prog"), String::from("-h")];
    assert!(matches!(
        Config::build(args, None, false),
        Ok(BuildOutcome::Help)
    ));

    let args = vec![String::from("prog"), String::from("--version")];
    assert!(matches!(
        Config::build(args, None, false),
        Ok(BuildOutcome::Version)
    ));

    let args = vec![
        String::from("prog"),
        String::from("-v"),
        String::from("query"),
    ];
    assert!(matches!(
        Config::build(args, None, false),
        Ok(BuildOutcome::Version)
    ));
}

#[test]
fn ignore_case_flag_spellings() {
    for flag in ["--ignore_case", "-ic"] {
        let args = vec![
            String::from("prog"),
            String::from(flag),
            String::from("query"),
            String::from("path"),
        ];
        let config = match Config::build(args, None, false).unwrap() {
            BuildOutcome::Search(c) => c,
            _ => panic!("expected a search configuration"),
        };
        assert!(config.params.ignore_case);
    }
}

#[test]
fn environment_override_sets_ignore_case() {
    // The environment override alone enables case-insensitive search.
    let args = vec![
        String::from("prog"),
        String::from("query"),
        String::from("path"),
    ];
    let config = match Config::build(args, None, true).unwrap() {
        BuildOutcome::Search(c) => c,
        _ => panic!("expected a search configuration"),
    };
    assert!(config.params.ignore_case);
}

#[test]
fn resolver_partitions_positional_tokens_in_order() {
    let args = vec![
        String::from("prog"),
        String::from("-ic"),
        String::from("query"),
        String::from("-ic"),
        String::from("path"),
    ];
    match Parameters::build(&args, false).unwrap() {
        Resolution::Options(params, positional) => {
            assert!(params.ignore_case);
            assert_eq!(positional, vec![String::from("query"), String::from("path")]);
        }
        _ => panic!("expected resolved options"),
    }
}

#[test]
fn resolver_environment_override_without_flag() {
    let args = vec![
        String::from("prog"),
        String::from("query"),
        String::from("path"),
    ];
    match Parameters::build(&args, true).unwrap() {
        Resolution::Options(params, _) => assert!(params.ignore_case),
        _ => panic!("expected resolved options"),
    }
    match Parameters::build(&args, false).unwrap() {
        Resolution::Options(params, _) => assert!(!params.ignore_case),
        _ => panic!("expected resolved options"),
    }
}
