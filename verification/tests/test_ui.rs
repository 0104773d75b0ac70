use vcs_core::colocate::{
    git_repo_paths, path_inside, plan_colocate, plan_uncolocate, ColocateError, ColocatePlan,
    GitColocateArgs, COLOCATED_GIT_TARGET, GITIGNORE_CONTENT, UNCOLOCATED_GIT_TARGET,
};
use vcs_core::ui::{
    can_prompt, check_choice, finish_prompt_line, format_error_with_sources, formatter_kind,
    holds_text, is_yes, pager_config, pager_request, parse_columns, resolve_term_width,
    term_width_or_default, use_progress_indicator, wrapping_mode, yes_no_default_choice,
    yes_no_hint, ChoiceOutcome, ColorChoice, FormatterKind, InterfaceMode, OutputKind,
    PagerConfig, PagerRequest, PaginationChoice, ProgressOutput, PromptError,
    StreampagerAlternateScreenMode, StreampagerConfig, StreampagerWrappingMode, WrappingMode,
    BUILTIN_PAGER_NAME,
};

fn streampager() -> StreampagerConfig {
    StreampagerConfig {
        interface: StreampagerAlternateScreenMode::QuitIfOnePage,
        wrapping: StreampagerWrappingMode::Word,
    }
}

#[test]
fn color_choice_names_round_trip() {
    for (choice, name) in [
        (ColorChoice::Always, "always"),
        (ColorChoice::Never, "never"),
        (ColorChoice::Debug, "debug"),
        (ColorChoice::Auto, "auto"),
    ] {
        assert_eq!(choice.as_str(), name);
        assert_eq!(ColorChoice::from_name(name), Some(choice));
    }
    assert_eq!(ColorChoice::from_name("Always"), None);
    assert_eq!(ColorChoice::from_name(""), None);
}

#[test]
fn formatter_follows_color_choice_and_terminal() {
    assert_eq!(formatter_kind(ColorChoice::Always, false), FormatterKind::Color { debug: false });
    assert_eq!(formatter_kind(ColorChoice::Debug, false), FormatterKind::Color { debug: true });
    assert_eq!(formatter_kind(ColorChoice::Auto, true), FormatterKind::Color { debug: false });
    assert_eq!(formatter_kind(ColorChoice::Auto, false), FormatterKind::PlainText);
    assert_eq!(formatter_kind(ColorChoice::Never, true), FormatterKind::Sanitized);
    assert_eq!(formatter_kind(ColorChoice::Never, false), FormatterKind::PlainText);
}

#[test]
fn pager_is_chosen_from_the_configuration() {
    assert_eq!(
        pager_config(PaginationChoice::Never, Some(":builtin"), streampager()),
        PagerConfig::Disabled
    );
    assert_eq!(
        pager_config(PaginationChoice::Auto, Some(BUILTIN_PAGER_NAME), streampager()),
        PagerConfig::Builtin(streampager())
    );
    assert_eq!(
        pager_config(PaginationChoice::Auto, Some("less"), streampager()),
        PagerConfig::External
    );
    assert_eq!(pager_config(PaginationChoice::Auto, None, streampager()), PagerConfig::External);
}

#[test]
fn pager_starts_only_on_a_terminal() {
    let builtin = PagerConfig::Builtin(streampager());
    assert_eq!(
        pager_request(OutputKind::Terminal, true, builtin),
        PagerRequest::StartBuiltin(streampager())
    );
    assert_eq!(
        pager_request(OutputKind::Terminal, true, PagerConfig::External),
        PagerRequest::StartExternal
    );
    assert_eq!(
        pager_request(OutputKind::Terminal, true, PagerConfig::Disabled),
        PagerRequest::Keep
    );
    assert_eq!(pager_request(OutputKind::Terminal, false, builtin), PagerRequest::Keep);
    for output in [OutputKind::Paged, OutputKind::BuiltinPaged, OutputKind::Null] {
        assert_eq!(pager_request(output, true, builtin), PagerRequest::Keep);
        assert!(!use_progress_indicator(output, true, true));
    }
    assert!(use_progress_indicator(OutputKind::Terminal, true, true));
    assert!(!use_progress_indicator(OutputKind::Terminal, false, true));
    assert!(!use_progress_indicator(OutputKind::Terminal, true, false));
}

#[test]
fn streampager_modes_are_mapped() {
    let config = |interface| StreampagerConfig { interface, wrapping: StreampagerWrappingMode::Off };
    assert_eq!(
        config(StreampagerAlternateScreenMode::FullScreenClearOutput).streampager_interface_mode(),
        InterfaceMode::FullScreen
    );
    assert_eq!(
        config(StreampagerAlternateScreenMode::QuitIfOnePage).streampager_interface_mode(),
        InterfaceMode::Hybrid
    );
    assert_eq!(
        config(StreampagerAlternateScreenMode::QuitQuicklyOrClearOutput)
            .streampager_interface_mode(),
        InterfaceMode::Delayed { seconds: 2 }
    );
    assert_eq!(wrapping_mode(StreampagerWrappingMode::Off), WrappingMode::Unwrapped);
    assert_eq!(wrapping_mode(StreampagerWrappingMode::Word), WrappingMode::WordBoundary);
    assert_eq!(wrapping_mode(StreampagerWrappingMode::Anywhere), WrappingMode::GraphemeBoundary);
}

#[test]
fn prompting_needs_a_terminal_or_the_environment() {
    assert!(can_prompt(true, None));
    assert!(can_prompt(false, Some("1")));
    assert!(!can_prompt(false, Some("0")));
    assert!(!can_prompt(false, Some("11")));
    assert!(!can_prompt(false, None));
}

#[test]
fn prompt_lines_lose_one_newline() {
    assert_eq!(finish_prompt_line("yes\n"), Ok("yes".to_string()));
    assert_eq!(finish_prompt_line("yes"), Ok("yes".to_string()));
    assert_eq!(finish_prompt_line("a\n\n"), Ok("a\n".to_string()));
    assert_eq!(finish_prompt_line("\n"), Ok(String::new()));
    assert_eq!(finish_prompt_line("h\u{e9}\n"), Ok("h\u{e9}".to_string()));
    assert_eq!(finish_prompt_line(""), Err(PromptError::UnexpectedEof));
}

#[test]
fn choices_are_checked_against_the_list() {
    let choices: Vec<String> = ["y", "n", "yes", "no"].iter().map(|c| c.to_string()).collect();
    let accepted = |outcome: ChoiceOutcome| match outcome {
        ChoiceOutcome::Accepted(answer) => Some(answer),
        ChoiceOutcome::Unrecognized => None,
    };
    assert_eq!(accepted(check_choice("yes", &choices, None)), Some("yes".to_string()));
    assert_eq!(accepted(check_choice("", &choices, Some("N"))), Some("N".to_string()));
    assert_eq!(accepted(check_choice("", &choices, None)), None);
    assert_eq!(accepted(check_choice("maybe", &choices, Some("N"))), None);
    assert_eq!(accepted(check_choice("Y", &choices, None)), None);
    assert!(holds_text(&choices, "no"));
    assert!(!holds_text(&choices, "nope"));
    assert_eq!(yes_no_hint(Some(true)), "(Yn)");
    assert_eq!(yes_no_hint(Some(false)), "(yN)");
    assert_eq!(yes_no_hint(None), "(yn)");
    assert_eq!(yes_no_default_choice(Some(true)), Some("Y"));
    assert_eq!(yes_no_default_choice(Some(false)), Some("N"));
    assert_eq!(yes_no_default_choice(None), None);
    assert!(is_yes("y"));
    assert!(is_yes("Yes"));
    assert!(!is_yes("no"));
    assert!(!is_yes(""));
}

#[test]
fn columns_parse_like_an_unsigned_number() {
    assert_eq!(parse_columns("80"), Some(80));
    assert_eq!(parse_columns("+120"), Some(120));
    assert_eq!(parse_columns("0"), Some(0));
    assert_eq!(parse_columns("007"), Some(7));
    assert_eq!(parse_columns("65535"), Some(65535));
    assert_eq!(parse_columns("65536"), None);
    assert_eq!(parse_columns("99999999999999999999"), None);
    assert_eq!(parse_columns(""), None);
    assert_eq!(parse_columns("+"), None);
    assert_eq!(parse_columns("-1"), None);
    assert_eq!(parse_columns("8 0"), None);
    assert_eq!(parse_columns("80\n"), None);
    assert_eq!(parse_columns("++1"), None);
    for text in ["80", "+120", "65536", "", "x", "12a"] {
        assert_eq!(parse_columns(text), text.parse::<u16>().ok(), "{text}");
    }
}

#[test]
fn terminal_width_prefers_the_environment() {
    assert_eq!(resolve_term_width(Some("100"), Some(50)), Some(100));
    assert_eq!(resolve_term_width(Some("wide"), Some(50)), Some(50));
    assert_eq!(resolve_term_width(None, Some(50)), Some(50));
    assert_eq!(resolve_term_width(None, None), None);
    assert_eq!(term_width_or_default(Some(132)), 132);
    assert_eq!(term_width_or_default(None), 80);
    let fixed = ProgressOutput::for_test(Vec::<u8>::new(), 25);
    assert_eq!(fixed.term_width(Some(90)), Some(25));
    assert_eq!(fixed.term_width(None), Some(25));
    let live = ProgressOutput::for_output(Vec::<u8>::new());
    assert_eq!(live.term_width(Some(90)), Some(90));
    assert_eq!(live.term_width(None), None);
    assert!(live.output().is_empty());
    assert!(fixed.into_output().is_empty());
}

#[test]
fn error_sources_are_joined_with_colons() {
    let messages = |list: &[&str]| list.iter().map(|m| m.to_string()).collect::<Vec<String>>();
    assert_eq!(format_error_with_sources(&messages(&[])), "");
    assert_eq!(format_error_with_sources(&messages(&["outer"])), "outer");
    assert_eq!(
        format_error_with_sources(&messages(&["outer", "middle", "inner"])),
        "outer: middle: inner"
    );
    assert_eq!(format_error_with_sources(&messages(&["", ""])), ": ");
}

#[test]
fn colocation_plans_follow_what_is_on_disk() {
    assert_eq!(plan_colocate(false, false, false), Err(ColocateError::NotGitBacked));
    assert_eq!(plan_colocate(false, true, true), Err(ColocateError::NotGitBacked));
    assert_eq!(plan_colocate(true, true, false), Err(ColocateError::AlreadyColocated));
    assert_eq!(plan_colocate(true, false, false), Ok(ColocatePlan { write_gitignore: true }));
    assert_eq!(plan_colocate(true, false, true), Ok(ColocatePlan { write_gitignore: false }));
    assert_eq!(plan_uncolocate(false, true), Err(ColocateError::NotGitBacked));
    assert_eq!(plan_uncolocate(true, false), Err(ColocateError::NotColocated));
    assert_eq!(plan_uncolocate(true, true), Ok(()));
    assert_eq!(ColocateError::NotGitBacked.message(), "The repo is not backed by a git repo");
    assert_eq!(ColocateError::AlreadyColocated.message(), "The repo is already colocated");
    assert_eq!(ColocateError::NotColocated.message(), "The repo is not colocated");
    assert_eq!(COLOCATED_GIT_TARGET, "../../../.git");
    assert_eq!(UNCOLOCATED_GIT_TARGET, "git");
    assert_eq!(GITIGNORE_CONTENT, "/*\n");
    assert!(!GitColocateArgs { undo: false }.undo);
}

#[test]
fn colocation_paths_are_derived_from_the_workspace() {
    let paths = git_repo_paths("/work/repo", "/work/repo/.jj/repo");
    assert_eq!(paths.colocated, "/work/repo/.git");
    assert_eq!(paths.uncolocated, "/work/repo/.jj/repo/store/git");
    assert_eq!(paths.git_target, "/work/repo/.jj/repo/store/git_target");
    assert_eq!(paths.gitignore, "/work/repo/.jj/.gitignore");
    assert_eq!(path_inside("a", "b"), "a/b");
}
