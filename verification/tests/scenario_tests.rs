use prompt::component::{components_from_tokens, git_stash, jobs, render, squash, Component,
    Context};
use prompt::parser::parse;
use prompt::{Run, Shell};

fn context_with(current_dir: &str, git_branch: Option<&str>) -> Context {
    let mut context = Context::default();
    context.current_dir = current_dir.to_string();
    context.git_branch = git_branch.map(|b| b.to_string());
    context
}

#[test]
fn scenario_cwd_and_missing_branch() {
    let tokens = parse("{cwd} {git_branch} $ ").unwrap();
    let context = context_with("/home/alice", None);
    let fragments = components_from_tokens(&tokens, &context, &Shell::Zsh, None, 0).unwrap();
    assert_eq!(
        fragments,
        vec![
            Some(Component::Computed("/home/alice".to_string())),
            Some(Component::Static(" ".to_string())),
            None,
            Some(Component::Static(" $ ".to_string())),
        ]
    );
    let out = render(&squash(fragments));
    assert_eq!(out, "/home/alice  $ ".to_string());
}

#[test]
fn scenario_colored_block_vanishes_without_branch() {
    let tokens = parse("{green}{git_branch}{reset}").unwrap();
    let context = context_with("/home/alice", None);
    let fragments = components_from_tokens(&tokens, &context, &Shell::Zsh, None, 0).unwrap();
    assert_eq!(
        fragments,
        vec![
            Some(Component::Color("%{\u{1b}[32m%}".to_string())),
            None,
            Some(Component::ColorReset("%{\u{1b}[0m%}".to_string())),
        ]
    );
    let out = render(&squash(fragments));
    assert_eq!(out, "".to_string());
}

#[test]
fn scenario_colored_block_survives_with_branch() {
    let tokens = parse("{green}{git_branch}{reset}").unwrap();
    let context = context_with("/home/alice", Some("main"));
    let fragments = components_from_tokens(&tokens, &context, &Shell::Zsh, None, 0).unwrap();
    let out = render(&squash(fragments));
    assert_eq!(out, "%{\u{1b}[32m%}main%{\u{1b}[0m%}".to_string());
}

#[test]
fn scenario_partially_absent_segment_is_kept() {
    let fragments = vec![
        Some(Component::Color("start".to_string())),
        Some(Component::Computed("3+".to_string())),
        None,
        Some(Component::ColorReset("stop".to_string())),
    ];
    let out = squash(fragments);
    assert_eq!(
        out,
        vec![
            Component::Color("start".to_string()),
            Component::Computed("3+".to_string()),
            Component::ColorReset("stop".to_string()),
        ]
    );
    assert_eq!(render(&out), "start3+stop".to_string());
}

#[test]
fn scenario_stash_next_to_missing_branch() {
    let tokens = parse("{green}{git_stash}{git_branch}{reset}").unwrap();
    let mut context = context_with("/home/alice", None);
    context.git_stash_count = Some(3);
    let fragments = components_from_tokens(&tokens, &context, &Shell::Bash, None, 0).unwrap();
    let out = render(&squash(fragments));
    assert_eq!(out, "\\[\u{1b}[32m\\]3+\\[\u{1b}[0m\\]".to_string());
}

#[test]
fn unknown_option_key_fails_with_exact_message() {
    let tokens = parse("{jobs foo=bar}").unwrap();
    let context = Context::default();
    let err = components_from_tokens(&tokens, &context, &Shell::Zsh, None, 0).unwrap_err();
    assert_eq!(err.message(), "error: invalid options: foo=bar".to_string());
}

#[test]
fn bad_cwd_style_value_is_reported_unconsumed() {
    let tokens = parse("{cwd style=fancy}").unwrap();
    let context = context_with("/home/alice", None);
    let err = components_from_tokens(&tokens, &context, &Shell::Zsh, None, 0).unwrap_err();
    assert_eq!(err.message(), "error: invalid options: style=fancy".to_string());
}

#[test]
fn git_status_error_aborts_the_render() {
    let tokens = parse("{git_status}").unwrap();
    let mut context = Context::default();
    context.git_status = Err("status walk failed".to_string());
    let err = components_from_tokens(&tokens, &context, &Shell::Zsh, None, 0).unwrap_err();
    assert_eq!(err.message(), "status walk failed".to_string());
}

#[test]
fn conditionals_pick_branches_by_status_and_environment() {
    let context = Context::default();
    let tokens = parse("{if last_command_status}ok{else}bad{end}").unwrap();
    let ok = components_from_tokens(&tokens, &context, &Shell::Zsh, None, 0).unwrap();
    assert_eq!(render(&squash(ok)), "ok".to_string());
    let bad = components_from_tokens(&tokens, &context, &Shell::Zsh, None, 1).unwrap();
    assert_eq!(render(&squash(bad)), "bad".to_string());

    let tokens = parse("{if SSH_TTY}remote{end}").unwrap();
    let absent = components_from_tokens(&tokens, &context, &Shell::Zsh, None, 0).unwrap();
    assert_eq!(render(&squash(absent)), "".to_string());
    let mut with_env = Context::default();
    with_env.env_vars = vec!["SSH_TTY".to_string()];
    let present = components_from_tokens(&tokens, &with_env, &Shell::Zsh, None, 0).unwrap();
    assert_eq!(render(&squash(present)), "remote".to_string());
}

#[test]
fn jobs_and_stash_handlers_format_their_values() {
    assert_eq!(jobs::display(Some("2".to_string())), Some(Component::Computed("2".to_string())));
    assert_eq!(jobs::display(None), None);
    assert_eq!(git_stash::display(None), None);
    assert_eq!(git_stash::display(Some(0)), None);
    assert_eq!(git_stash::display(Some(3)), Some(Component::Computed("3+".to_string())));
    assert_eq!(git_stash::u64_to_string(0), "0".to_string());
    assert_eq!(git_stash::u64_to_string(1234567890), "1234567890".to_string());
}

#[test]
fn run_jobs_maps_placeholders_to_absence() {
    let run = Run { jobs: "".to_string(), shell: Shell::Zsh, config: "{cwd}".to_string() };
    assert_eq!(run.jobs(), None);
    let run = Run { jobs: "__empty__".to_string(), shell: Shell::Bash, config: "".to_string() };
    assert_eq!(run.jobs(), None);
    let run = Run { jobs: "2".to_string(), shell: Shell::Zsh, config: "".to_string() };
    assert_eq!(run.jobs(), Some("2".to_string()));
}

#[test]
fn shell_names_parse() {
    assert_eq!("zsh".parse::<Shell>(), Ok(Shell::Zsh));
    assert_eq!("bash".parse::<Shell>(), Ok(Shell::Bash));
    assert_eq!("fish".parse::<Shell>(), Err("valid options are: bash, zsh"));
}
