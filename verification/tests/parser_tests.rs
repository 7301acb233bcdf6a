use prompt::parser::{identifier, parse, serialize};
use prompt::token::{Color, Component, Condition, Options, Token};

#[test]
fn it_parses_a_component() {
    assert_eq!(
        parse("{cwd}").unwrap(),
        vec![Token::Component { name: Component::Cwd, options: Options::new() }]
    );
}

#[test]
fn it_parses_a_component_and_static() {
    assert_eq!(
        parse("{cwd} $").unwrap(),
        vec![
            Token::Component { name: Component::Cwd, options: Options::new() },
            Token::Static(" $".to_string()),
        ]
    );
}

#[test]
fn it_parses_a_component_with_options() {
    let mut options = Options::new();
    options.insert("style".to_string(), "default".to_string());
    assert_eq!(
        parse("{cwd style=default}").unwrap(),
        vec![Token::Component { name: Component::Cwd, options }]
    );

    let mut options = Options::new();
    options.insert("style".to_string(), "short".to_string());
    assert_eq!(
        parse("{cwd style=short}").unwrap(),
        vec![Token::Component { name: Component::Cwd, options }]
    );

    let mut options = Options::new();
    options.insert("style".to_string(), "long".to_string());
    assert_eq!(
        parse("{cwd style=long}").unwrap(),
        vec![Token::Component { name: Component::Cwd, options }]
    );
}

#[test]
fn it_parses_identifiers() {
    assert_eq!(identifier("cwd", 0).unwrap().1, "cwd".to_string());
    assert_eq!(identifier("git_branch", 0).unwrap().1, "git_branch".to_string());

    assert!(identifier("end", 0).is_none());
}

#[test]
fn it_allows_escaped_braces_as_char() {
    assert_eq!(
        parse("{{cwd").unwrap(),
        vec![Token::Static("{{".to_string()), Token::Static("cwd".to_string())]
    );

    assert_eq!(
        parse("{{cwd{cwd}").unwrap(),
        vec![
            Token::Static("{{".to_string()),
            Token::Static("cwd".to_string()),
            Token::Component { name: Component::Cwd, options: Options::new() },
        ]
    );
}

#[test]
fn it_parses_components_and_options_with_spaces() {
    let mut options = Options::new();
    options.insert("a".to_string(), "bc".to_string());
    options.insert("d".to_string(), "12".to_string());

    assert_eq!(
        parse("{  git_branch a=bc   d=12  }  { git_commit }").unwrap(),
        vec![
            Token::Component { name: Component::GitBranch, options },
            Token::Static("  ".to_string()),
            Token::Component { name: Component::GitCommit, options: Options::new() },
        ]
    );
}

#[test]
fn it_parses_options() {
    let mut options = Options::new();
    options.insert("a".to_string(), "bc".to_string());
    options.insert("d".to_string(), "12".to_string());

    assert_eq!(
        parse("{git_branch a=bc d=12}").unwrap(),
        vec![Token::Component { name: Component::GitBranch, options }]
    );
}

#[test]
fn it_parses_conditionals() {
    assert_eq!(
        parse("{if last_command_status}left{end}").unwrap(),
        vec![Token::Conditional {
            condition: Condition::LastCommandStatus,
            left: vec![Token::Static("left".to_string())],
            right: None,
        }]
    );
}

#[test]
fn it_parses_conditionals_with_else_branch() {
    assert_eq!(
        parse("{if last_command_status}left{else}right{end}").unwrap(),
        vec![Token::Conditional {
            condition: Condition::LastCommandStatus,
            left: vec![Token::Static("left".to_string())],
            right: Some(vec![Token::Static("right".to_string())]),
        }]
    );
}

#[test]
fn it_parses_styles_and_env_conditions() {
    assert_eq!(
        parse("{green}x{reset}").unwrap(),
        vec![Token::Color(Color::Green), Token::Static("x".to_string()), Token::Reset]
    );
    assert_eq!(
        parse("{if SSH_TTY}s{end}").unwrap(),
        vec![Token::Conditional {
            condition: Condition::EnvironmentVariable("SSH_TTY".to_string()),
            left: vec![Token::Static("s".to_string())],
            right: None,
        }]
    );
}

#[test]
fn unparsable_input_reports_the_unconsumed_suffix() {
    let err = parse("{cwd} {oops}").unwrap_err();
    assert_eq!(err.remainder, "{oops}".to_string());
    assert_eq!(err.message(), "parse error: {oops}".to_string());

    let err = parse("{oops}").unwrap_err();
    assert_eq!(err.remainder, "{oops}".to_string());
}

#[test]
fn reserved_identifiers_fail_everywhere() {
    assert!(parse("{end}").is_err());
    assert!(parse("{else}").is_err());
    assert!(parse("{if end}x{end}").is_err());
    assert!(parse("{if else}x{end}").is_err());
    assert!(identifier("else", 0).is_none());
}

#[test]
fn unmatched_if_without_end_fails() {
    assert!(parse("{if last_command_status}left").is_err());
    assert!(parse("{if SSH}a{else}b").is_err());
    assert!(parse("{if last_command_status}{end}").is_err());
}

#[test]
fn empty_template_fails_to_parse() {
    let err = parse("").unwrap_err();
    assert_eq!(err.remainder, "".to_string());
}

#[test]
fn repeated_option_keys_keep_the_last_value_in_first_position() {
    let mut options = Options::new();
    options.insert("a".to_string(), "c".to_string());
    assert_eq!(
        parse("{git_branch a=b a=c}").unwrap(),
        vec![Token::Component { name: Component::GitBranch, options }]
    );
}

#[test]
fn round_trip_reparses_for_all_small_piece_combinations() {
    let pieces = [
        "{cwd}", "{green}", "x", "=", " ", "{", "}", "{{", "a=b", "{if w}", "{end}", "{else}",
        "{reset}", "{cwd a=b}", "{ cwd }", "{git_stash}",
    ];
    let mut parsed: usize = 0;
    for a in pieces {
        for b in pieces {
            for c in pieces {
                let template = format!("{}{}{}", a, b, c);
                if let Ok(tokens) = parse(&template) {
                    parsed += 1;
                    let reparsed = parse(serialize(&tokens).as_str());
                    assert_eq!(reparsed, Ok(tokens), "template: {:?}", template);
                }
            }
        }
    }
    assert!(parsed > 500);
}

#[test]
fn round_trip_reparses_to_the_same_tokens() {
    let templates = [
        "{cwd} {git_branch} $ ",
        "{{cwd",
        "{green}{git_stash}{reset} plain",
        "{if last_command_status}ok{else}bad{end}",
        "{if SSH_TTY}{cyan}remote{reset}{end}",
        "{cwd style=short} {jobs}",
        "{  git_branch a=bc   d=12  }  { git_commit }",
        "{if last_command_status}{if OK}x{end}y{end}",
    ];
    for template in templates {
        let tokens = parse(template).unwrap();
        let reparsed = parse(serialize(&tokens).as_str()).unwrap();
        assert_eq!(reparsed, tokens);
    }
}
