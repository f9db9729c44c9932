use flamingo::config::{PathConfig, Side, TruncateStrategy};
use flamingo::path::{
    apply_truncation_strategy, format_path, shorten_home, substitute_home_dir, truncate_length,
    truncate_smart, truncate_tail,
};
use std::path::PathBuf;

fn create_test_config(truncate: TruncateStrategy, shorten_home: bool) -> PathConfig {
    PathConfig {
        truncate,
        shorten_home,
    }
}

fn s(p: &PathBuf) -> &str {
    p.to_str().unwrap()
}

#[test]
fn test_smart_truncation() {
    let path = PathBuf::from("/very/long/path/to/some/deep/directory/structure");
    let result = truncate_smart(s(&path), 2, 1);
    assert_eq!(result, "/v/l/p/t/s/d/directory/structure");

    let short_path = PathBuf::from("/home/user");
    let result = truncate_smart(s(&short_path), 2, 1);
    assert_eq!(result, "/home/user");

    let equal_path = PathBuf::from("/home/user");
    let result = truncate_smart(s(&equal_path), 2, 1);
    assert_eq!(result, "/home/user");
}

#[test]
fn test_tail_truncation() {
    let path = PathBuf::from("/very/long/path/to/some/directory");
    let result = truncate_tail(s(&path), 3);
    assert_eq!(result, "to/some/directory");

    let short_path = PathBuf::from("/home/user");
    let result = truncate_tail(s(&short_path), 3);
    assert_eq!(result, "/home/user");

    let single_path = PathBuf::from("/");
    let result = truncate_tail(s(&single_path), 3);
    assert_eq!(result, "/");
}

#[test]
fn test_length_truncation_right() {
    let long_path = "/very/long/path/to/directory";
    let result = truncate_length(long_path, 20, &Side::Right, "…");
    assert_eq!(result, "/very/long/…/directory");

    let short_path = "/short";
    let result = truncate_length(short_path, 10, &Side::Right, "…");
    assert_eq!(result, "/short");

    let exact_path = "/exactly/20/chars";
    assert_eq!(exact_path.len(), 17);
    let result = truncate_length(exact_path, 17, &Side::Right, "…");
    assert_eq!(result, "/exactly/20/chars");
}

#[test]
fn test_length_truncation_left() {
    let long_path = "/very/long/path/to/directory";
    let result = truncate_length(long_path, 20, &Side::Left, "…");
    assert_eq!(result, "…/path/to/directory");
}

#[test]
fn test_home_shortening() {
    if let Some(home_dir) = dirs::home_dir() {
        let home = home_dir.to_str().unwrap();
        let home_subpath = home_dir.join("Documents").join("projects");
        let result = substitute_home_dir(home_subpath.to_str().unwrap());
        assert_eq!(PathBuf::from(result), PathBuf::from("~/Documents/projects"));

        let other_path = PathBuf::from("/usr/local/bin");
        let result = substitute_home_dir(s(&other_path));
        assert_eq!(PathBuf::from(result), other_path);

        let result = substitute_home_dir(home);
        assert_eq!(PathBuf::from(result), PathBuf::from("~"));
    }
}

#[test]
fn test_adaptive_truncation() {
    let short_strategy = TruncateStrategy::Full;
    let long_strategy = TruncateStrategy::Tail { size: 2 };

    let config = create_test_config(
        TruncateStrategy::Adaptive {
            threshold: 15,
            short: Box::new(short_strategy),
            long: Box::new(long_strategy),
        },
        false,
    );

    let short_path = PathBuf::from("/short/path");
    let result = apply_truncation_strategy(s(&short_path), &config.truncate);
    assert_eq!(result, "/short/path");

    let long_path = PathBuf::from("/very/long/path/to/some/directory");
    let result = apply_truncation_strategy(s(&long_path), &config.truncate);
    assert_eq!(result, "some/directory");
}

#[test]
fn test_no_truncation() {
    let config = create_test_config(TruncateStrategy::Full, false);
    let path = PathBuf::from("/very/long/path/to/directory");
    let result = apply_truncation_strategy(s(&path), &config.truncate);
    assert_eq!(result, "/very/long/path/to/directory");
}

#[test]
fn test_edge_cases() {
    let config = create_test_config(
        TruncateStrategy::Smart {
            tail_size: 1,
            dir_chars: 1,
        },
        false,
    );

    let root_path = PathBuf::from("/");
    let result = apply_truncation_strategy(s(&root_path), &config.truncate);
    assert_eq!(result, "/");

    let empty_path = PathBuf::from("");
    let result = apply_truncation_strategy(s(&empty_path), &config.truncate);
    assert_eq!(result, "");

    let single_path = PathBuf::from("directory");
    let result = apply_truncation_strategy(s(&single_path), &config.truncate);
    assert_eq!(result, "directory");
}

#[test]
fn test_length_truncation_edge_cases() {
    let short_path = "/test";
    let result = truncate_length(short_path, 2, &Side::Right, "...");
    assert_eq!(result, "");

    let empty_path = "";
    let result = truncate_length(empty_path, 10, &Side::Right, "…");
    assert_eq!(result, "");
}

#[test]
fn test_smart_truncation_edge_cases() {
    let path = PathBuf::from("/very/long/path/to/directory");
    let result = truncate_smart(s(&path), 2, 0);
    assert_eq!(result, "////to/directory");
}

// The examples of the strategies' documentation.

#[test]
fn smart_documented_example() {
    assert_eq!(truncate_smart("~/path/to/my/files", 1, 1), "~/p/t/m/files");
}

#[test]
fn tail_documented_example() {
    assert_eq!(truncate_tail("~/path/to/my/files", 2), "my/files");
}

#[test]
fn adaptive_documented_example() {
    let strategy = TruncateStrategy::Adaptive {
        threshold: 10,
        short: Box::new(TruncateStrategy::Tail { size: 2 }),
        long: Box::new(TruncateStrategy::Smart {
            tail_size: 1,
            dir_chars: 1,
        }),
    };
    assert_eq!(apply_truncation_strategy("~/path/to", &strategy), "path/to");
    assert_eq!(
        apply_truncation_strategy("~/path/to/my/files", &strategy),
        "~/p/t/m/files"
    );
}

#[test]
fn nested_adaptive_shows_whole_path() {
    let inner = TruncateStrategy::Adaptive {
        threshold: 1,
        short: Box::new(TruncateStrategy::Tail { size: 1 }),
        long: Box::new(TruncateStrategy::Tail { size: 1 }),
    };
    let strategy = TruncateStrategy::Adaptive {
        threshold: 100,
        short: Box::new(inner),
        long: Box::new(TruncateStrategy::Full),
    };
    assert_eq!(apply_truncation_strategy("/a/b/c", &strategy), "/a/b/c");
}

#[test]
fn components_are_normalized() {
    // repeated separators, `.` pieces and a trailing separator are not components
    assert_eq!(truncate_tail("/a//b/./c/", 2), "b/c");
    assert_eq!(truncate_tail("./a/b", 5), "./a/b");
    assert_eq!(truncate_tail("./a/b", 2), "a/b");
    assert_eq!(truncate_smart("./abc/def", 1, 1), "./a/def");
    assert_eq!(truncate_tail("a/../b", 2), "../b");
}

#[test]
fn smart_counts_bytes_but_keeps_characters() {
    // "ééé" is 6 bytes: longer than 4 bytes, so it is cut to 4 characters, which is all of it
    assert_eq!(truncate_smart("/ééé/x", 1, 4), "/ééé/x");
    assert_eq!(truncate_smart("/ééé/x", 1, 2), "/éé/x");
    assert_eq!(truncate_smart("/ab/x", 1, 2), "/ab/x");
}

#[test]
fn length_left_keeps_the_longest_fitting_suffix() {
    // the kept text is the longest suffix starting with `/` under 9 characters
    assert_eq!(truncate_length("a/bbbbbbbb/cc/dd", 9, &Side::Left, "<"), "</cc/dd");
    // a path under the limit is unchanged
    assert_eq!(truncate_length("a/b", 3, &Side::Left, "<"), "a/b");
    // no suffix starting with `/` fits: the last piece when it fits, else nothing
    assert_eq!(truncate_length("abcdef/xy", 3, &Side::Left, "<"), "<xy");
    assert_eq!(truncate_length("abcdefgh", 3, &Side::Left, "<"), "<");
}

#[test]
fn length_documented_examples() {
    assert_eq!(
        truncate_length("~/path/to/my/files", 10, &Side::Left, "\u{2026}"),
        "\u{2026}/my/files"
    );
    assert_eq!(
        truncate_length("~/path/to/my/files", 15, &Side::Right, "\u{2026}"),
        "~/path/\u{2026}/files"
    );
}

#[test]
fn length_counts_characters() {
    assert_eq!(truncate_length("/\u{e9}", 2, &Side::Right, "\u{2026}"), "/\u{e9}");
    assert_eq!(truncate_length("/\u{e9}", 2, &Side::Left, "\u{2026}"), "/\u{e9}");
    let strategy = TruncateStrategy::Adaptive {
        threshold: 1,
        short: Box::new(TruncateStrategy::Full),
        long: Box::new(TruncateStrategy::Tail { size: 0 }),
    };
    assert_eq!(apply_truncation_strategy("\u{e9}", &strategy), "\u{e9}");
}

#[test]
fn length_right_leaves_a_component_out() {
    assert_eq!(truncate_length("/ab/cd", 5, &Side::Right, "\u{2026}"), "/\u{2026}/cd");
    assert_eq!(truncate_length("ab/cd/ef", 7, &Side::Right, ""), "ab//ef");
    // a symbol longer than the room left keeps no leading piece
    assert_eq!(truncate_length("ab/cd/ef", 6, &Side::Right, "...."), "/..../ef");
}

#[test]
fn length_right_stops_at_first_piece_that_does_not_fit() {
    assert_eq!(
        truncate_length("aa/bbbbbbbb/c/dd", 10, &Side::Right, "~"),
        "aa/~/dd"
    );
}

#[test]
fn home_replacement_keeps_the_rest_of_the_path() {
    assert_eq!(shorten_home("/home/user/a//b", Some("/home/user")), "~/a//b");
    assert_eq!(shorten_home("/home/user//a", Some("/home/user/")), "~/a");
    assert_eq!(
        PathBuf::from(shorten_home("/home/user", Some("/home/user"))),
        PathBuf::from("~")
    );
}

#[test]
fn home_directory_itself_becomes_tilde_slash() {
    assert_eq!(shorten_home("/home/user", Some("/home/user")), "~/");
    assert_eq!(shorten_home("/home/user/", Some("/home/user")), "~/");
    assert_eq!(shorten_home("/home//user", Some("/home/user/")), "~/");
}

#[test]
fn home_is_replaced_by_whole_components() {
    assert_eq!(
        PathBuf::from(shorten_home("/home/user/src", Some("/home/user"))),
        PathBuf::from("~/src")
    );
    assert_eq!(shorten_home("/home/username", Some("/home/user")), "/home/username");
    assert_eq!(shorten_home("/home/user/src", None), "/home/user/src");
}

#[test]
fn format_path_applies_home_then_strategy() {
    let config = create_test_config(TruncateStrategy::Tail { size: 2 }, true);
    assert_eq!(
        format_path(&config, "/home/user/a/b/c", Some("/home/user")),
        "b/c"
    );
    let config = create_test_config(TruncateStrategy::Full, true);
    assert_eq!(
        format_path(&config, "/home/user/a", Some("/home/user")),
        "~/a"
    );
    let config = create_test_config(TruncateStrategy::Full, false);
    assert_eq!(
        format_path(&config, "/home/user/a", Some("/home/user")),
        "/home/user/a"
    );
}

fn std_components(s: &str) -> Vec<String> {
    std::path::Path::new(s)
        .components()
        .map(|c| c.as_os_str().to_string_lossy().into_owned())
        .collect()
}

#[test]
fn components_match_std() {
    for s in [
        "", "/", "//", "/a", "a", "a/", "a//b", "./a", ".", "./", "../a", "a/./b", "a/b/.",
        "/./a", "/../a", "a/..", ".a/b", "..", "./.", "/a/b/c/", "~/x", "a/.b/.",
    ] {
        let chars: Vec<char> = s.chars().collect();
        let mine: Vec<String> = flamingo::path::components_of(&chars)
            .into_iter()
            .map(|c| c.into_iter().collect())
            .collect();
        assert_eq!(mine, std_components(s), "{s:?}");
    }
}

#[test]
fn tail_result_has_the_last_components() {
    let path = "/usr/./local//share/doc/";
    for size in 0..4 {
        let out = truncate_tail(path, size);
        let all = std_components(path);
        let expected: Vec<String> = all[all.len() - size..].to_vec();
        assert_eq!(std_components(&out), expected);
    }
}
