use flamingo::config::{FlamingoConfig, GitConfig, PathConfig, TruncateStrategy};
use flamingo::context::FlamingoContext;
use flamingo::git::{
    ahead_behind_of, format_git_info, git, remote_of, stash_count_of, state_of, CommandOutput,
    GitAction, GitError, GitInfo, GitQuery, GitReadings, GitState, StateMarkers,
};
#[test]
fn test_format() {
    let pathcfg = PathConfig {
        truncate: TruncateStrategy::Tail { size: 2 },
        shorten_home: false,
    };

    let gitcfg = GitConfig {
        format: "$branch$dirty".to_string(),
        ..Default::default()
    };

    let config = FlamingoConfig {
        path: pathcfg,
        git: gitcfg,
        ..Default::default()
    };

    let cwd = "/home/user/projects/flamingo";
    let git = Some(Ok("main*".to_string()));
    let res = flamingo::context::format(
        &config,
        FlamingoContext::path().union(FlamingoContext::git()),
        cwd,
        git,
    );
    println!("{res}");
    assert_eq!(res, "projects/flamingo main*");
}

fn config_with(format: &str) -> GitConfig {
    GitConfig {
        format: format.to_string(),
        ..Default::default()
    }
}

#[test]
fn command_that_cannot_run_is_reported() {
    let mut r = GitReadings::new();
    r.record_output(GitQuery::InsideWorkTree, Err("no git".to_string()));
    match git(&GitConfig::default(), &r) {
        GitAction::Done(Err(e)) => assert_eq!(e.message(), "Git command failed: no git"),
        other => panic!("unexpected {other:?}"),
    }
}

fn ok(text: &str) -> CommandOutput {
    CommandOutput {
        success: true,
        stdout: text.as_bytes().to_vec(),
    }
}

#[test]
fn queries_are_asked_in_order() {
    let config = config_with("$branch $ahead $behind");
    let mut r = GitReadings::new();
    let expected = [
        GitQuery::InsideWorkTree,
        GitQuery::CurrentBranch,
        GitQuery::AheadBehind,
        GitQuery::Status,
        GitQuery::StashList,
        GitQuery::Remotes,
    ];
    let answers = ["true\n", "main\n", "3\t1\n", "", "", ""];
    for (q, a) in expected.iter().zip(answers.iter()) {
        match git(&config, &r) {
            GitAction::Run(asked) => assert_eq!(asked, *q),
            other => panic!("unexpected {other:?}"),
        }
        r.record_output(*q, Ok(ok(a)));
    }
    match git(&config, &r) {
        GitAction::Run(GitQuery::StateMarkers) => {}
        other => panic!("unexpected {other:?}"),
    }
    r.record_markers(StateMarkers {
        merge_head: false,
        rebase_head: false,
        rebase_apply: false,
        rebase_merge: false,
        cherry_pick_head: false,
        revert_head: false,
        bisect_log: false,
    });
    match git(&config, &r) {
        GitAction::Done(Ok(s)) => assert_eq!(s, "main \u{2191}3 \u{2193}1"),
        other => panic!("unexpected {other:?}"),
    }
}

#[test]
fn parsing_of_command_output() {
    assert_eq!(ahead_behind_of(&ok("  4\t7 \n")), (4, 7));
    assert_eq!(ahead_behind_of(&ok("4 x")), (4, 0));
    assert_eq!(ahead_behind_of(&ok("1 2 3")), (0, 0));
    assert_eq!(ahead_behind_of(&ok("+5 99999999999999999999999")), (5, 0));
    assert_eq!(
        ahead_behind_of(&CommandOutput {
            success: false,
            stdout: b"1 2".to_vec()
        }),
        (0, 0)
    );
    assert_eq!(stash_count_of(&ok("a\nb\r\nc")), 3);
    assert_eq!(stash_count_of(&ok("a\nb\n")), 2);
    assert_eq!(stash_count_of(&ok("")), 0);
    assert_eq!(remote_of(&ok("upstream\r\norigin\n")), Some("upstream".to_string()));
    assert_eq!(remote_of(&ok("")), None);
}

#[test]
fn state_follows_marker_priority() {
    let none = StateMarkers {
        merge_head: false,
        rebase_head: false,
        rebase_apply: false,
        rebase_merge: false,
        cherry_pick_head: false,
        revert_head: false,
        bisect_log: false,
    };
    assert_eq!(state_of(&none), GitState::Clean);
    assert_eq!(
        state_of(&StateMarkers { bisect_log: true, revert_head: true, ..none }),
        GitState::Reverting
    );
    assert_eq!(
        state_of(&StateMarkers { rebase_merge: true, merge_head: true, ..none }),
        GitState::Merging
    );
    assert_eq!(state_of(&StateMarkers { rebase_apply: true, ..none }), GitState::Rebasing);
    assert_eq!(state_of(&StateMarkers { cherry_pick_head: true, ..none }), GitState::CherryPicking);
    assert_eq!(state_of(&StateMarkers { bisect_log: true, ..none }), GitState::Bisecting);
}

#[test]
fn format_fills_placeholders_in_order() {
    let config = GitConfig::default();
    let info = GitInfo {
        branch: "main".to_string(),
        ahead: 2,
        behind: 10,
        is_dirty: true,
        stash_count: 3,
        remote: Some("origin".to_string()),
        state: GitState::Rebasing,
    };
    assert_eq!(
        format_git_info(&info, &config),
        "REBASE main ($3:*:\u{2191}2:\u{2193}10)"
    );
    // a branch name holding a placeholder is itself filled in
    let info = GitInfo {
        branch: "x$dirty".to_string(),
        ahead: 0,
        behind: 0,
        is_dirty: true,
        stash_count: 0,
        remote: None,
        state: GitState::Clean,
    };
    assert_eq!(format_git_info(&info, &config_with("$branch$remote")), "x*");
    // a format without placeholders is unchanged
    assert_eq!(format_git_info(&info, &config_with("plain text")), "plain text");
}

#[test]
fn error_messages() {
    assert_eq!(GitError::NotARepository.message(), "Not a git repository");
    assert_eq!(
        GitError::ParseError("bad".to_string()).message(),
        "Failed to parse git output: bad"
    );
}

fn failed_run() -> CommandOutput {
    CommandOutput {
        success: false,
        stdout: Vec::new(),
    }
}

#[test]
fn not_a_repository_outcomes() {
    let config = GitConfig::default();
    // outside a work tree, whatever else is known
    let mut r = GitReadings::new();
    r.record_output(GitQuery::InsideWorkTree, Ok(failed_run()));
    r.record_output(GitQuery::CurrentBranch, Ok(ok("main")));
    assert!(matches!(git(&config, &r), GitAction::Done(Err(GitError::NotARepository))));
    // the branch query fails
    let mut r = GitReadings::new();
    r.record_output(GitQuery::InsideWorkTree, Ok(ok("true\n")));
    r.record_output(GitQuery::CurrentBranch, Ok(failed_run()));
    assert!(matches!(git(&config, &r), GitAction::Done(Err(GitError::NotARepository))));
    // no branch and no commit
    let mut r = GitReadings::new();
    r.record_output(GitQuery::InsideWorkTree, Ok(ok("true\n")));
    r.record_output(GitQuery::CurrentBranch, Ok(ok("\n")));
    assert!(matches!(git(&config, &r), GitAction::Run(GitQuery::ShortHead)));
    r.record_output(GitQuery::ShortHead, Ok(failed_run()));
    assert!(matches!(git(&config, &r), GitAction::Done(Err(GitError::NotARepository))));
}

#[test]
fn detached_head_is_shown_with_its_commit() {
    let config = config_with("$branch");
    let mut r = GitReadings::new();
    r.record_output(GitQuery::InsideWorkTree, Ok(ok("true\n")));
    r.record_output(GitQuery::CurrentBranch, Ok(ok("")));
    r.record_output(GitQuery::ShortHead, Ok(ok("abc1234\n")));
    for q in [GitQuery::AheadBehind, GitQuery::Status, GitQuery::StashList, GitQuery::Remotes] {
        r.record_output(q, Ok(failed_run()));
    }
    r.record_markers(StateMarkers {
        merge_head: false,
        rebase_head: false,
        rebase_apply: false,
        rebase_merge: false,
        cherry_pick_head: false,
        revert_head: false,
        bisect_log: false,
    });
    match git(&config, &r) {
        GitAction::Done(Ok(s)) => assert_eq!(s, "HEAD@abc1234"),
        other => panic!("unexpected {other:?}"),
    }
}

#[test]
fn later_command_failure_is_reported() {
    let config = GitConfig::default();
    let mut r = GitReadings::new();
    r.record_output(GitQuery::InsideWorkTree, Ok(ok("true\n")));
    r.record_output(GitQuery::CurrentBranch, Ok(ok("main\n")));
    r.record_output(GitQuery::AheadBehind, Ok(ok("0\t0\n")));
    r.record_output(GitQuery::Status, Err("broken pipe".to_string()));
    match git(&config, &r) {
        GitAction::Done(Err(GitError::CommandFailed(m))) => assert_eq!(m, "broken pipe"),
        other => panic!("unexpected {other:?}"),
    }
}

#[test]
fn invalid_utf8_output_is_decoded_lossily() {
    let out = CommandOutput {
        success: true,
        stdout: vec![b'o', 0xff, b'\n', b'x', b'\n'],
    };
    assert_eq!(remote_of(&out), Some("o\u{fffd}".to_string()));
    assert_eq!(stash_count_of(&out), 2);
}

fn info_with(branch: &str, stash_count: usize, state: GitState) -> GitInfo {
    GitInfo {
        branch: branch.to_string(),
        ahead: 0,
        behind: 0,
        is_dirty: false,
        stash_count,
        remote: None,
        state,
    }
}

#[test]
fn stash_uses_its_symbol() {
    let mut config = config_with("$stash");
    config.symbols.stash = "S".to_string();
    assert_eq!(format_git_info(&info_with("main", 2, GitState::Clean), &config), "S2");
    assert_eq!(format_git_info(&info_with("main", 0, GitState::Clean), &config), "");
}

#[test]
fn state_uses_its_symbols() {
    let config = config_with("$state");
    assert_eq!(format_git_info(&info_with("m", 0, GitState::Merging), &config), "MERGE");
    assert_eq!(format_git_info(&info_with("m", 0, GitState::CherryPicking), &config), "CHERRY-PICK");
    assert_eq!(format_git_info(&info_with("m", 0, GitState::Reverting), &config), "REVERT");
    assert_eq!(format_git_info(&info_with("m", 0, GitState::Bisecting), &config), "BISECT");
    assert_eq!(format_git_info(&info_with("m", 0, GitState::Clean), &config), "");
    let mut config = config_with("[$state]");
    config.symbols.merging = "M".to_string();
    assert_eq!(format_git_info(&info_with("m", 0, GitState::Merging), &config), "[M]");
}

#[test]
fn branch_is_cut_to_max_branch_chars() {
    let mut config = config_with("$branch");
    config.max_branch_chars = Some(3);
    assert_eq!(format_git_info(&info_with("feature", 0, GitState::Clean), &config), "fea");
    assert_eq!(format_git_info(&info_with("ab", 0, GitState::Clean), &config), "ab");
    config.max_branch_chars = None;
    assert_eq!(format_git_info(&info_with("feature", 0, GitState::Clean), &config), "feature");
}
