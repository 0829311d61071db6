use rcat::gitignore::{GitignoreManager, GitignoreMatcher};

fn parts(path: &str) -> Vec<Vec<char>> {
    path.split('/').filter(|s| !s.is_empty()).map(|s| s.chars().collect()).collect()
}

#[test]
fn test_parse_gitignore() {
    let content = "
# Comment
*.tmp
/build/
!important.tmp
node_modules/
**/*.log
        ";

    let patterns = GitignoreMatcher::parse_gitignore(content);
    assert_eq!(patterns.len(), 5);

    assert_eq!(patterns[0].pattern, "*.tmp");
    assert!(!patterns[0].is_negation);
    assert!(!patterns[0].is_directory_only);

    assert_eq!(patterns[1].pattern, "build");
    assert!(patterns[1].is_absolute);
    assert!(patterns[1].is_directory_only);

    assert_eq!(patterns[2].pattern, "important.tmp");
    assert!(patterns[2].is_negation);
}

#[test]
fn parse_yields_five_patterns_in_file_order() {
    let patterns = GitignoreMatcher::parse_gitignore(
        "# c\n*.tmp\n/build/\n!important.tmp\nnode_modules/\n**/*.log\n",
    );
    assert_eq!(patterns.len(), 5);
    assert_eq!(patterns[0].pattern, "*.tmp");
    assert!(!patterns[0].is_negation);
    assert!(!patterns[0].is_directory_only);
    assert!(!patterns[0].is_absolute);
    assert_eq!(patterns[1].pattern, "build");
    assert!(patterns[1].is_absolute);
    assert!(patterns[1].is_directory_only);
    assert!(!patterns[1].is_negation);
    assert_eq!(patterns[2].pattern, "important.tmp");
    assert!(patterns[2].is_negation);
    assert_eq!(patterns[3].pattern, "node_modules");
    assert!(patterns[3].is_directory_only);
    assert!(!patterns[3].is_absolute);
    assert_eq!(patterns[4].pattern, "**/*.log");
    assert!(!patterns[4].is_absolute);
}

#[test]
fn parse_skips_blank_lines_and_comments() {
    assert_eq!(GitignoreMatcher::parse_gitignore("").len(), 0);
    assert_eq!(GitignoreMatcher::parse_gitignore("\n\n   \n\t\n# x\n  # y\n").len(), 0);
    let patterns = GitignoreMatcher::parse_gitignore("a\r\n  b  \r\n");
    assert_eq!(patterns.len(), 2);
    assert_eq!(patterns[0].pattern, "a");
    assert_eq!(patterns[1].pattern, "b");
}

#[test]
fn parse_takes_each_marker_off_once() {
    let patterns = GitignoreMatcher::parse_gitignore("!/dist/\n!!x\n/\n!\na//\n");
    assert_eq!(patterns.len(), 5);
    assert_eq!(patterns[0].pattern, "dist");
    assert!(patterns[0].is_negation && patterns[0].is_directory_only && patterns[0].is_absolute);
    assert_eq!(patterns[1].pattern, "!x");
    assert!(patterns[1].is_negation);
    assert_eq!(patterns[2].pattern, "");
    assert!(patterns[2].is_directory_only && !patterns[2].is_absolute);
    assert_eq!(patterns[3].pattern, "");
    assert!(patterns[3].is_negation && !patterns[3].is_directory_only);
    assert_eq!(patterns[4].pattern, "a/");
    assert!(patterns[4].is_directory_only);
}

#[test]
fn unanchored_pattern_matches_any_segment() {
    assert!(GitignoreMatcher::matches_pattern("src/target/debug", "target", false));
    assert!(GitignoreMatcher::matches_pattern("a/b/c.tmp", "*.tmp", false));
    assert!(!GitignoreMatcher::matches_pattern("a/b/c.txt", "*.tmp", false));
    assert!(GitignoreMatcher::matches_pattern("anything/at/all", "*", false));
    assert!(GitignoreMatcher::matches_pattern("", "*", true));
}

#[test]
fn anchored_pattern_matches_from_the_start() {
    assert!(GitignoreMatcher::matches_pattern("build", "build", true));
    assert!(GitignoreMatcher::matches_pattern("build/out.o", "build", true));
    assert!(!GitignoreMatcher::matches_pattern("src/build", "build", true));
    assert!(GitignoreMatcher::matches_pattern("src/build", "src/build", false));
    assert!(!GitignoreMatcher::matches_pattern("x/src/build", "src/build", false));
    assert!(GitignoreMatcher::matches_pattern("src//build", "src/build", false));
}

#[test]
fn double_star_stands_for_any_number_of_segments() {
    assert!(GitignoreMatcher::matches_pattern("a/b/c.log", "**/*.log", false));
    assert!(GitignoreMatcher::matches_pattern("c.log", "**/*.log", false));
    assert!(!GitignoreMatcher::matches_pattern("a/b/c.txt", "**/*.log", false));
    assert!(GitignoreMatcher::matches_pattern("a/x/y/b", "a/**/b", false));
    assert!(GitignoreMatcher::matches_pattern("a/b", "a/**/b", false));
    assert!(!GitignoreMatcher::matches_pattern("a/x/y/c", "a/**/b", false));
    assert!(GitignoreMatcher::matches_pattern("a/x", "a/**", false));
    assert!(!GitignoreMatcher::matches_pattern("a", "a/**", false));
    assert!(GitignoreMatcher::matches_pattern("a/b/a/c", "**/a/c", false));
    assert!(GitignoreMatcher::matches_pattern("x/y", "**/**/y", false));
}

#[test]
fn match_parts_from_a_start_index() {
    let path = parts("root/a/b");
    let pattern = parts("a/b");
    assert!(!GitignoreMatcher::match_parts(&path, &pattern, 0));
    assert!(GitignoreMatcher::match_parts(&path, &pattern, 1));
    assert!(!GitignoreMatcher::match_parts(&path, &pattern, 2));
    assert!(!GitignoreMatcher::match_parts(&path, &pattern, 7));
    assert!(GitignoreMatcher::match_parts(&path, &Vec::new(), 7));
}

#[test]
fn last_matching_rule_decides() {
    let matcher = GitignoreMatcher::new("*.tmp\n!important.tmp\n", "/repo");
    assert!(matcher.should_ignore("/repo/a.tmp", false));
    assert!(!matcher.should_ignore("/repo/important.tmp", false));
    assert!(matcher.should_ignore("/repo/sub/dir/a.tmp", false));
    assert!(!matcher.should_ignore("/repo/a.txt", false));
    let reversed = GitignoreMatcher::new("!important.tmp\n*.tmp\n", "/repo");
    assert!(reversed.should_ignore("/repo/important.tmp", false));
}

#[test]
fn base_directory_and_outside_paths_are_never_ignored() {
    let matcher = GitignoreMatcher::new("*\n", "/repo");
    assert!(!matcher.should_ignore("/repo", true));
    assert!(!matcher.should_ignore("/repo/", true));
    assert!(!matcher.should_ignore("/other/file", false));
    assert!(!matcher.should_ignore("repo/file", false));
    assert!(!matcher.should_ignore("/repository/file", false));
    assert!(matcher.should_ignore("/repo/file", false));
}

#[test]
fn directory_only_rule_needs_a_directory() {
    let matcher = GitignoreMatcher::new("/build/\nnode_modules/\n", "proj");
    assert!(matcher.should_ignore("proj/build", true));
    assert!(!matcher.should_ignore("proj/build", false));
    assert!(!matcher.should_ignore("proj/src/build", true));
    assert!(matcher.should_ignore("proj/web/node_modules", true));
    assert!(!matcher.should_ignore("proj/web/node_modules", false));
}

#[test]
fn relative_base_with_leading_dot() {
    let matcher = GitignoreMatcher::new("*.o\n", ".");
    assert!(matcher.should_ignore("./a.o", false));
    assert!(matcher.should_ignore("./src/a.o", false));
    assert!(!matcher.should_ignore("a.o", false));
    assert!(!matcher.should_ignore(".", true));
}

#[test]
fn manager_registers_root_ignore_file() {
    let manager = GitignoreManager::new("/repo", Some("*.log\n"));
    assert!(manager.has_active_gitignores());
    assert_eq!(manager.active_gitignores(), vec!["/repo/.gitignore".to_string()]);
    assert!(manager.has_matcher("/repo"));
    assert!(manager.has_matcher("/repo/"));
    assert!(!manager.has_matcher("/repo/sub"));
    assert!(manager.should_ignore("/repo/x.log", false));
    assert!(!manager.should_ignore("/repo/x.txt", false));
    assert_eq!(manager.root_path(), "/repo");

    let none = GitignoreManager::new("/repo", None);
    assert!(!none.has_active_gitignores());
    assert!(none.active_gitignores().is_empty());
    assert!(!none.should_ignore("/repo/x.log", false));
}

#[test]
fn manager_keeps_first_ignore_file_of_a_directory() {
    let mut manager = GitignoreManager::new("/repo", None);
    manager.check_directory("/repo/sub", Some("*.a\n"));
    manager.check_directory("/repo/sub", Some("*.b\n"));
    manager.check_directory("/repo/other", None);
    assert_eq!(manager.active_gitignores(), vec!["/repo/sub/.gitignore".to_string()]);
    assert!(manager.should_ignore("/repo/sub/x.a", false));
    assert!(!manager.should_ignore("/repo/sub/x.b", false));
    assert!(!manager.should_ignore("/repo/x.a", false));
}

#[test]
fn deeper_negation_cannot_take_back_in() {
    let mut manager = GitignoreManager::new("/repo", Some("*.log\n"));
    manager.check_directory("/repo/sub", Some("!keep.log\n"));
    assert!(manager.should_ignore("/repo/sub/keep.log", false));
    assert!(manager.should_ignore("/repo/sub/other.log", false));
}

#[test]
fn manager_ignores_matchers_outside_its_root() {
    let mut manager = GitignoreManager::new("/a", None);
    manager.check_directory("/b", Some("*\n"));
    assert!(manager.has_matcher("/b"));
    assert!(!manager.should_ignore("/b/file", false));
    manager.check_directory("/a/x", Some("*\n"));
    assert!(manager.should_ignore("/a/x/file", false));
    assert!(!manager.should_ignore("/a/y/file", false));
}
