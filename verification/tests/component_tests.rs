use prompt::component::{components_from_tokens, into_groups, should_keep_group, squash, Component,
    Context, EvalError};
use prompt::token::{Component as Name, Options, Token};
use prompt::Shell;

#[test]
fn test_squash_keep_1() {
    let components = vec![
        // Group 1
        Some(Component::Static("a keep".to_string())),
        Some(Component::Computed("b keep".to_string())),
        // Group 2 (Squash)
        Some(Component::Color("red".to_string())),
        None,
        Some(Component::Static("c squash".to_string())),
        Some(Component::ColorReset("reset".to_string())),
        // Group 3
        Some(Component::Color("green".to_string())),
        Some(Component::Static("d keep".to_string())),
        // Group 4
        Some(Component::Color("blue".to_string())),
        Some(Component::Static("e keep".to_string())),
        Some(Component::Computed("f keep".to_string())),
    ];
    let expected = vec![
        // Group 1
        Component::Static("a keep".to_string()),
        Component::Computed("b keep".to_string()),
        // Group 3
        Component::Color("green".to_string()),
        Component::Static("d keep".to_string()),
        // Group 4
        Component::Color("blue".to_string()),
        Component::Static("e keep".to_string()),
        Component::Computed("f keep".to_string()),
    ];
    assert_eq!(squash(components), expected);
}

#[test]
fn test_squash_keep_empty_end() {
    let components = vec![
        // Group 1
        Some(Component::Static("a keep".to_string())),
        Some(Component::Computed("b keep".to_string())),
        // Group 2
        Some(Component::Color("blue".to_string())),
        Some(Component::Static("c squash".to_string())),
        None,
    ];
    let expected = vec![
        // Group 1
        Component::Static("a keep".to_string()),
        Component::Computed("b keep".to_string()),
    ];
    assert_eq!(squash(components), expected);
}

#[test]
fn test_filter_just_static() {
    let group = vec![Some(Component::Static("a keep".to_string()))];
    assert!(should_keep_group(&group));
}

#[test]
fn test_filter_just_static_ignores_color() {
    let group = vec![
        Some(Component::Color("green".to_string())),
        Some(Component::Static("a keep".to_string())),
        Some(Component::ColorReset("reset".to_string())),
    ];
    assert!(should_keep_group(&group));
}

#[test]
fn test_filter_static_and_cwd() {
    let group = vec![
        Some(Component::Static("a keep".to_string())),
        Some(Component::Computed("b keep".to_string())),
    ];
    assert!(should_keep_group(&group));
}

#[test]
fn test_filter_static_and_cwd_ignores_color() {
    let group = vec![
        Some(Component::Color("green".to_string())),
        Some(Component::Static("a keep".to_string())),
        Some(Component::Computed("b keep".to_string())),
        Some(Component::ColorReset("reset".to_string())),
    ];
    assert!(should_keep_group(&group));
}

#[test]
fn test_filter_static_and_empty() {
    let group = vec![Some(Component::Static("a keep".to_string())), None];
    assert!(!should_keep_group(&group));
}

#[test]
fn test_filter_static_and_empty_removes_colors() {
    let group = vec![
        Some(Component::Color("green".to_string())),
        Some(Component::Static("a keep".to_string())),
        None,
        Some(Component::ColorReset("reset".to_string())),
    ];
    assert!(!should_keep_group(&group));
}

#[test]
fn test_filter_static_cwd_and_empty() {
    let group = vec![
        Some(Component::Color("green".to_string())),
        Some(Component::Static("a keep".to_string())),
        Some(Component::Computed("b keep".to_string())),
        None,
        Some(Component::ColorReset("reset".to_string())),
    ];
    assert!(should_keep_group(&group));
}

#[test]
fn test_components_from_tokens() {
    let mut options = Options::new();
    options.insert("foo".to_string(), "bar".to_string());

    let context = Context::default();
    let result = components_from_tokens(
        &vec![Token::Component { name: Name::Jobs, options }],
        &context,
        &Shell::Zsh,
        None,
        0,
    );

    assert_eq!(result.unwrap_err().message(), "error: invalid options: foo=bar");
}

#[test]
fn test_into_groups_single_group() {
    let components = vec![
        Some(Component::Color("green".to_string())),
        Some(Component::Static("a".to_string())),
        Some(Component::Static("b".to_string())),
        None,
        Some(Component::ColorReset("reset".to_string())),
    ];

    let groups = into_groups(components);

    assert_eq!(
        groups,
        vec![vec![
            Some(Component::Color("green".to_string())),
            Some(Component::Static("a".to_string())),
            Some(Component::Static("b".to_string())),
            None,
            Some(Component::ColorReset("reset".to_string())),
        ]]
    );
}

#[test]
fn test_into_groups_two_groups() {
    let components = vec![
        Some(Component::Color("green".to_string())),
        Some(Component::Static("a".to_string())),
        Some(Component::Static("b".to_string())),
        None,
        Some(Component::ColorReset("reset".to_string())),
        Some(Component::Color("green".to_string())),
        Some(Component::Static("a".to_string())),
    ];

    let groups = into_groups(components);

    assert_eq!(
        groups,
        vec![
            vec![
                Some(Component::Color("green".to_string())),
                Some(Component::Static("a".to_string())),
                Some(Component::Static("b".to_string())),
                None,
                Some(Component::ColorReset("reset".to_string())),
            ],
            vec![
                Some(Component::Color("green".to_string())),
                Some(Component::Static("a".to_string())),
            ],
        ]
    );
}

#[test]
fn test_into_groups_two_groups_no_reset() {
    let components = vec![
        Some(Component::Color("green".to_string())),
        Some(Component::Static("a".to_string())),
        Some(Component::Static("b".to_string())),
        None,
        Some(Component::Color("green".to_string())),
        Some(Component::Static("a".to_string())),
    ];

    let groups = into_groups(components);

    assert_eq!(
        groups,
        vec![
            vec![
                Some(Component::Color("green".to_string())),
                Some(Component::Static("a".to_string())),
                Some(Component::Static("b".to_string())),
                None,
            ],
            vec![
                Some(Component::Color("green".to_string())),
                Some(Component::Static("a".to_string())),
            ],
        ]
    );
}

#[test]
fn test_into_groups_two_groups_no_color() {
    let components = vec![
        Some(Component::Static("a".to_string())),
        Some(Component::ColorReset("reset".to_string())),
        Some(Component::Static("b".to_string())),
    ];

    let groups = into_groups(components);

    assert_eq!(
        groups,
        vec![
            vec![
                Some(Component::Static("a".to_string())),
                Some(Component::ColorReset("reset".to_string())),
            ],
            vec![Some(Component::Static("b".to_string()))],
        ]
    );
}

#[test]
fn squash_is_idempotent_on_concrete_values() {
    let components = vec![
        Some(Component::Static("a".to_string())),
        Some(Component::Color("c".to_string())),
        None,
        Some(Component::ColorReset("r".to_string())),
        Some(Component::Color("c".to_string())),
        Some(Component::Computed("x".to_string())),
        Some(Component::ColorReset("r".to_string())),
    ];
    let once = squash(components);
    let again = squash(once.iter().map(|c| Some(c.clone())).collect());
    assert_eq!(again, once);
}

#[test]
fn squash_of_nothing_is_nothing() {
    assert_eq!(squash(vec![]), vec![]);
    assert_eq!(squash(vec![None]), vec![]);
}

#[test]
fn invalid_options_message_lists_every_pair_in_order() {
    let mut options = Options::new();
    options.insert("foo".to_string(), "bar".to_string());
    options.insert("baz".to_string(), "qux".to_string());
    let err = EvalError::InvalidOptions(options);
    assert_eq!(err.message(), "error: invalid options: foo=bar, baz=qux");
}
