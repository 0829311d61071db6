use rcat::config::Config;
use rcat::walk_model::PathKind;
use rcat::walker::{
    DirEntry, DirectoryWalker, PathInfo, WalkAction, WalkEvent, WalkOptions, WalkResult,
};

/// What a path of the tree in memory leads to.
#[derive(Clone)]
enum Node {
    File(Vec<u8>),
    Dir,
    Link(String),
}

/// A tree in memory that stands for a file system.
struct Tree {
    nodes: Vec<(String, Node)>,
}

impl Tree {
    fn new() -> Tree {
        Tree { nodes: Vec::new() }
    }

    fn dir(&mut self, path: &str) {
        self.nodes.push((path.to_string(), Node::Dir));
    }

    fn file(&mut self, path: &str, content: &str) {
        self.nodes.push((path.to_string(), Node::File(content.as_bytes().to_vec())));
    }

    fn bytes(&mut self, path: &str, content: &[u8]) {
        self.nodes.push((path.to_string(), Node::File(content.to_vec())));
    }

    fn link(&mut self, path: &str, target: &str) {
        self.nodes.push((path.to_string(), Node::Link(target.to_string())));
    }

    fn lookup(&self, path: &str) -> Option<&Node> {
        self.nodes.iter().find(|(p, _)| p == path).map(|(_, n)| n)
    }

    /// Follows links, in every component, to the path that holds the node.
    fn canonical(&self, path: &str) -> Option<String> {
        let mut current = String::new();
        for part in path.split('/').filter(|s| !s.is_empty()) {
            let next = if current.is_empty() { part.to_string() } else { format!("{}/{}", current, part) };
            let mut resolved = next;
            let mut hops = 0;
            loop {
                match self.lookup(&resolved) {
                    Some(Node::Link(target)) => {
                        resolved = target.clone();
                        hops += 1;
                        if hops > 16 {
                            return None;
                        }
                    }
                    Some(_) => break,
                    None => return None,
                }
            }
            current = resolved;
        }
        Some(current)
    }

    fn stat(&self, path: &str) -> (PathKind, Option<usize>) {
        match self.canonical(path).and_then(|c| self.lookup(&c).cloned()) {
            Some(Node::File(content)) => (PathKind::File, Some(content.len())),
            Some(Node::Dir) => (PathKind::Directory, None),
            _ => (PathKind::Other, None),
        }
    }

    fn content(&self, path: &str) -> Option<Vec<u8>> {
        match self.canonical(path).and_then(|c| self.lookup(&c).cloned()) {
            Some(Node::File(content)) => Some(content),
            _ => None,
        }
    }

    /// The entries of a directory, last name first, so that the walker has
    /// to put them in order.
    fn entries(&self, dir: &str) -> Vec<DirEntry> {
        let real = match self.canonical(dir) {
            Some(real) => real,
            None => return Vec::new(),
        };
        let prefix = format!("{}/", real);
        let mut names: Vec<String> = self
            .nodes
            .iter()
            .filter(|(p, _)| p.starts_with(&prefix) && !p[prefix.len()..].contains('/'))
            .map(|(p, _)| p[prefix.len()..].to_string())
            .collect();
        names.sort();
        names.reverse();
        names
            .into_iter()
            .map(|name| {
                let path = format!("{}/{}", dir, name);
                let (kind, size) = self.stat(&path);
                DirEntry { path, kind, size }
            })
            .collect()
    }

    fn ignore_file(&self, dir: &str) -> Option<String> {
        self.content(&format!("{}/.gitignore", dir)).and_then(|b| String::from_utf8(b).ok())
    }

    /// Drives a walker over the tree and counts the steps.
    fn walk(&self, roots: &[&str], options: WalkOptions) -> (WalkResult, usize) {
        let (result, steps, _) = self.walk_counting(roots, options);
        (result, steps)
    }

    /// Drives a walker over the tree and counts the steps and the entries
    /// listed.
    fn walk_counting(&self, roots: &[&str], options: WalkOptions) -> (WalkResult, usize, usize) {
        let mut walker = DirectoryWalker::new(options);
        for root in roots {
            let ignore = self.ignore_file(root);
            walker.add_root(root, ignore.as_deref());
        }
        let mut steps = 0;
        let mut listed = 0;
        let mut action = walker.step(WalkEvent::Start);
        loop {
            steps += 1;
            assert!(steps < 100_000, "the walk does not end");
            let event = match action {
                WalkAction::Finished => break,
                WalkAction::Inspect(path) => WalkEvent::Inspected(self.canonical(&path).map(|canonical| {
                    let (kind, size) = self.stat(&path);
                    PathInfo { canonical, kind, size }
                })),
                WalkAction::ReadDirectory { path, read_ignore_file } => {
                    let entries = self.entries(&path);
                    listed += entries.len();
                    WalkEvent::Directory {
                        ignore_file: if read_ignore_file { self.ignore_file(&path) } else { None },
                        entries,
                    }
                }
                WalkAction::ReadPrefix { path, limit } => WalkEvent::Prefix(
                    self.content(&path).map(|b| b[..b.len().min(limit)].to_vec()),
                ),
                WalkAction::ReadText(path) => {
                    WalkEvent::Text(self.content(&path).and_then(|b| String::from_utf8(b).ok()))
                }
            };
            action = walker.step(event);
        }
        (walker.finish(), steps, listed)
    }
}

fn walk_and_collect(tree: &Tree, roots: &[&str], options: WalkOptions) -> WalkResult {
    tree.walk(roots, options).0
}

fn include_all() -> WalkOptions {
    WalkOptions {
        include_all: true,
        max_size: Config::DEFAULT_MAX_SIZE,
        max_file_size: Config::DEFAULT_MAX_FILE_SIZE,
        exclude_patterns: Vec::new(),
    }
}

#[test]
fn test_walk_and_collect_single_file() {
    let mut tree = Tree::new();
    tree.dir("test_single");
    tree.file("test_single/test.txt", "test content");

    let result = walk_and_collect(&tree, &["test_single"], WalkOptions::default());

    assert!(result.content.contains("test content"));
    assert!(result.content.contains("test.txt"));
    assert_eq!(result.content, "--- test_single/test.txt ---\ntest content");
    assert!(!result.truncated);
}

#[test]
fn test_walk_and_collect_binary_file() {
    let mut tree = Tree::new();
    tree.dir("test_walk_binary");
    tree.bytes("test_walk_binary/binary.dat", &[0u8; 100]);

    let result = walk_and_collect(&tree, &["test_walk_binary"], WalkOptions::default());
    assert!(!result.content.contains("<BINARY_FILE>"));
    assert_eq!(result.stats.binary_files(), 1);
    assert_eq!(result.stats.files_processed(), 1);

    let result = walk_and_collect(&tree, &["test_walk_binary"], include_all());
    assert!(result.content.contains("<BINARY_FILE>"));
    assert!(result.content.contains("binary.dat"));
    assert_eq!(result.content, "--- test_walk_binary/binary.dat ---\n<BINARY_FILE>");
    assert_eq!(result.stats.binary_files(), 1);
}

#[test]
fn test_walk_and_collect_nested_directories() {
    let mut tree = Tree::new();
    tree.dir("test_nested");
    tree.dir("test_nested/subdir1");
    tree.dir("test_nested/subdir1/subdir2");
    tree.file("test_nested/root.txt", "root file");
    tree.file("test_nested/subdir1/level1.txt", "level 1");
    tree.file("test_nested/subdir1/subdir2/level2.txt", "level 2");

    let result = walk_and_collect(&tree, &["test_nested"], WalkOptions::default());

    assert!(result.content.contains("root file"));
    assert!(result.content.contains("level 1"));
    assert!(result.content.contains("level 2"));
    assert_eq!(result.stats.directories_processed(), 3);
    assert_eq!(result.stats.text_files(), 3);
}

#[test]
fn test_walk_and_collect_empty_directory() {
    let mut tree = Tree::new();
    tree.dir("test_empty");

    let result = walk_and_collect(&tree, &["test_empty"], WalkOptions::default());

    assert_eq!(result.content, "");
    assert_eq!(result.stats.directories_processed(), 1);
    assert_eq!(result.stats.files_processed(), 0);
}

#[test]
fn test_size_limit_enforcement() {
    let mut tree = Tree::new();
    tree.dir("test_size_limit");
    for i in 0..20 {
        let content = "x".repeat(300_000);
        tree.file(&format!("test_size_limit/file_{:02}.txt", i), &content);
    }

    let result = walk_and_collect(&tree, &["test_size_limit"], WalkOptions::default());

    assert!(result.content.len() <= Config::DEFAULT_MAX_SIZE + 1000);
    assert!(result.truncated, "Expected truncation");
    assert!(result.content.contains("TRUNCATED"));
    assert_eq!(result.content.matches("--- TRUNCATED").count(), 1);
    assert!(result.content.ends_with(
        "\n--- TRUNCATED: Size limit of 5MB reached ---\n--- 4.86 MB collected, 5.15 MB would exceed limit ---"
    ));
}

#[test]
fn test_skip_hidden_files_and_directories() {
    let mut tree = Tree::new();
    tree.dir("test_hidden");
    tree.file("test_hidden/.env", "secret=value");
    tree.file("test_hidden/.hidden_file", "hidden content");
    tree.file("test_hidden/visible.txt", "visible content");
    tree.dir("test_hidden/.git");
    tree.file("test_hidden/.git/config", "git config");

    let result = walk_and_collect(&tree, &["test_hidden"], WalkOptions::default());
    assert!(!result.content.contains("secret=value"));
    assert!(!result.content.contains("hidden content"));
    assert!(!result.content.contains("git config"));
    assert!(result.content.contains("visible content"));
    assert_eq!(result.stats.skipped_files(), 2);
    assert_eq!(result.stats.skipped_directories(), 1);

    let result = walk_and_collect(&tree, &["test_hidden"], include_all());
    assert!(result.content.contains("secret=value"));
    assert!(result.content.contains("hidden content"));
    assert!(result.content.contains("git config"));
    assert!(result.content.contains("visible content"));
    assert_eq!(result.stats.skipped_files(), 0);
    assert_eq!(result.stats.skipped_directories(), 0);
}

#[test]
fn test_breadth_first_order() {
    let mut tree = Tree::new();
    tree.dir("test_bfs");
    tree.file("test_bfs/a_root.txt", "root_a");
    tree.file("test_bfs/b_root.txt", "root_b");
    tree.dir("test_bfs/dir1");
    tree.file("test_bfs/dir1/a_level1.txt", "level1_a");
    tree.file("test_bfs/dir1/b_level1.txt", "level1_b");
    tree.dir("test_bfs/dir2");
    tree.file("test_bfs/dir2/c_level1.txt", "level1_c");
    tree.dir("test_bfs/dir1/subdir");
    tree.file("test_bfs/dir1/subdir/deep.txt", "deep_file");

    let result = walk_and_collect(&tree, &["test_bfs"], WalkOptions::default());

    let pos_root_a = result.content.find("root_a").unwrap();
    let pos_root_b = result.content.find("root_b").unwrap();
    let pos_level1_a = result.content.find("level1_a").unwrap();
    let pos_level1_b = result.content.find("level1_b").unwrap();
    let pos_level1_c = result.content.find("level1_c").unwrap();
    let pos_deep = result.content.find("deep_file").unwrap();

    assert!(pos_root_a < pos_level1_a, "Root files should come before level 1");
    assert!(pos_root_b < pos_level1_a, "Root files should come before level 1");
    assert!(pos_level1_a < pos_deep, "Level 1 should come before deeper levels");
    assert!(pos_level1_b < pos_deep, "Level 1 should come before deeper levels");
    assert!(pos_level1_c < pos_deep, "Level 1 should come before deeper levels");
    assert_eq!(
        result.content,
        "--- test_bfs/a_root.txt ---\nroot_a\n\n--- test_bfs/b_root.txt ---\nroot_b\n\n\
         --- test_bfs/dir1/a_level1.txt ---\nlevel1_a\n\n--- test_bfs/dir1/b_level1.txt ---\nlevel1_b\n\n\
         --- test_bfs/dir2/c_level1.txt ---\nlevel1_c\n\n--- test_bfs/dir1/subdir/deep.txt ---\ndeep_file"
    );
}

#[test]
fn test_overlapping_paths_deduplication() {
    let mut tree = Tree::new();
    tree.dir("test_overlapping");
    tree.dir("test_overlapping/subdir");
    tree.file("test_overlapping/file1.txt", "content1");
    tree.file("test_overlapping/subdir/file2.txt", "content2");

    let result = walk_and_collect(
        &tree,
        &["test_overlapping", "test_overlapping/subdir"],
        WalkOptions::default(),
    );

    let content1_count = result.content.matches("content1").count();
    let content2_count = result.content.matches("content2").count();

    assert_eq!(content1_count, 1, "file1.txt should appear exactly once");
    assert_eq!(content2_count, 1, "file2.txt should appear exactly once despite overlapping paths");
}

#[test]
fn test_skip_large_files() {
    let mut tree = Tree::new();
    tree.dir("test_large_files");
    tree.file("test_large_files/small.txt", "small content");
    let large_content = "x".repeat(600_000);
    tree.file("test_large_files/large.txt", &large_content);

    let result = walk_and_collect(&tree, &["test_large_files"], WalkOptions::default());
    assert!(result.content.contains("small content"));
    assert!(!result.content.contains(&large_content));
    assert_eq!(result.stats.skipped_large_files(), 1);
    assert_eq!(result.stats.files_processed(), 1);

    let result = walk_and_collect(
        &tree,
        &["test_large_files"],
        WalkOptions {
            include_all: false,
            max_size: Config::DEFAULT_MAX_SIZE,
            max_file_size: 1024 * 1024,
            exclude_patterns: Vec::new(),
        },
    );
    assert!(result.content.contains("small content"));
    assert!(result.content.contains(&large_content[..100]));
    assert_eq!(result.stats.skipped_large_files(), 0);
}

#[test]
fn directory_symlink_cycle_ends_and_does_not_repeat() {
    let mut tree = Tree::new();
    tree.dir("top");
    tree.file("top/a.txt", "alpha");
    tree.dir("top/sub");
    tree.file("top/sub/b.txt", "beta");
    tree.link("top/sub/up", "top");
    tree.link("top/again", "top/sub");

    let (result, steps) = tree.walk(&["top"], WalkOptions::default());
    assert_eq!(result.content.matches("alpha").count(), 1);
    assert_eq!(result.content.matches("beta").count(), 1);
    assert_eq!(result.stats.directories_processed(), 2);
    assert!(steps < 50);
}

#[test]
fn broken_symlink_leaves_no_trace() {
    let mut tree = Tree::new();
    tree.dir("top");
    tree.file("top/a.txt", "alpha");
    tree.link("top/gone", "nowhere");

    let result = walk_and_collect(&tree, &["top", "missing"], WalkOptions::default());
    assert_eq!(result.content, "--- top/a.txt ---\nalpha");
    assert_eq!(result.stats.files_processed(), 1);
    assert_eq!(result.stats.directories_processed(), 1);
    assert_eq!(result.stats.skipped_files(), 0);
}

#[test]
fn two_walks_of_one_tree_agree() {
    let mut tree = Tree::new();
    tree.dir("p");
    tree.file("p/.gitignore", "*.log\n");
    tree.file("p/a.rs", "fn a() {}");
    tree.file("p/b.log", "noise");
    tree.dir("p/src");
    tree.file("p/src/c.rs", "fn c() {}");
    tree.bytes("p/src/d.bin", &[1, 0, 2]);

    let first = walk_and_collect(&tree, &["p"], WalkOptions::default());
    let second = walk_and_collect(&tree, &["p"], WalkOptions::default());
    assert_eq!(first.content, second.content);
    assert_eq!(first.truncated, second.truncated);
    assert_eq!(first.stats.format_stats_after(0), second.stats.format_stats_after(0));
    assert_eq!(first.content, "--- p/a.rs ---\nfn a() {}\n\n--- p/src/c.rs ---\nfn c() {}");
    assert_eq!(first.stats.gitignored_files(), 1);
    assert_eq!(first.stats.binary_files(), 1);
    assert_eq!(first.stats.skipped_files(), 1);
    assert_eq!(first.stats.gitignore_files(), vec!["p/.gitignore".to_string()]);
}

#[test]
fn listing_order_does_not_matter() {
    let entry = |path: &str, kind: PathKind, size: Option<usize>| DirEntry {
        path: path.to_string(),
        kind,
        size,
    };
    let run = |entries: Vec<DirEntry>| {
        let mut walker = DirectoryWalker::new(WalkOptions::default());
        walker.add_root("d", None);
        let mut seen = Vec::new();
        let mut action = walker.step(WalkEvent::Start);
        loop {
            let event = match action {
                WalkAction::Finished => break,
                WalkAction::Inspect(path) => {
                    seen.push(format!("inspect {}", path));
                    WalkEvent::Inspected(Some(PathInfo {
                        canonical: format!("/real/{}", path),
                        kind: PathKind::Directory,
                        size: None,
                    }))
                }
                WalkAction::ReadDirectory { path, .. } => {
                    seen.push(format!("list {}", path));
                    if path == "d" {
                        WalkEvent::Directory {
                            ignore_file: None,
                            entries: entries
                                .iter()
                                .map(|e| entry(&e.path, e.kind, e.size))
                                .collect(),
                        }
                    } else {
                        WalkEvent::Directory { ignore_file: None, entries: Vec::new() }
                    }
                }
                WalkAction::ReadPrefix { path, .. } => {
                    seen.push(format!("prefix {}", path));
                    WalkEvent::Prefix(Some(b"text".to_vec()))
                }
                WalkAction::ReadText(path) => {
                    seen.push(format!("text {}", path));
                    WalkEvent::Text(Some(format!("<{}>", path)))
                }
            };
            action = walker.step(event);
        }
        (walker.finish().content, seen)
    };
    let one = run(vec![
        entry("d/b", PathKind::File, Some(4)),
        entry("d/z", PathKind::Directory, None),
        entry("d/a", PathKind::File, Some(4)),
        entry("d/m", PathKind::Directory, None),
    ]);
    let other = run(vec![
        entry("d/m", PathKind::Directory, None),
        entry("d/a", PathKind::File, Some(4)),
        entry("d/z", PathKind::Directory, None),
        entry("d/b", PathKind::File, Some(4)),
    ]);
    assert_eq!(one, other);
    assert_eq!(one.0, "--- d/a ---\n<d/a>\n\n--- d/b ---\n<d/b>");
    assert_eq!(
        one.1,
        vec![
            "inspect d", "list d", "prefix d/a", "text d/a", "prefix d/b", "text d/b",
            "inspect d/m", "list d/m", "inspect d/z", "list d/z",
        ]
    );
}

#[test]
fn truncation_marker_names_limit_and_sizes() {
    let mut tree = Tree::new();
    tree.dir("t");
    tree.file("t/a.txt", "0123456789");
    tree.file("t/b.txt", "0123456789");
    tree.file("t/c.txt", "0123456789");
    let options = WalkOptions {
        include_all: false,
        max_size: 50,
        max_file_size: 1000,
        exclude_patterns: Vec::new(),
    };
    // Each block takes 16 + 10 = 26 bytes.
    let result = walk_and_collect(&tree, &["t"], options);
    assert!(result.truncated);
    assert_eq!(
        result.content,
        "--- t/a.txt ---\n0123456789\n\n\n--- TRUNCATED: Size limit of 50 bytes reached ---\n\
         --- 26 B collected, 52 B would exceed limit ---"
    );
    assert_eq!(result.stats.text_files(), 2);
}

#[test]
fn block_that_fills_the_limit_exactly_is_taken() {
    let mut tree = Tree::new();
    tree.dir("t");
    tree.file("t/a.txt", "0123456789");
    let options = |max_size| WalkOptions {
        include_all: false,
        max_size,
        max_file_size: 1000,
        exclude_patterns: Vec::new(),
    };
    let exact = walk_and_collect(&tree, &["t"], options(26));
    assert!(!exact.truncated);
    assert_eq!(exact.content, "--- t/a.txt ---\n0123456789");
    let short = walk_and_collect(&tree, &["t"], options(25));
    assert!(short.truncated);
    assert!(short.content.starts_with("\n--- TRUNCATED: Size limit of 25 bytes reached ---"));
}

#[test]
fn nothing_is_read_after_truncation() {
    let mut tree = Tree::new();
    tree.dir("t");
    tree.file("t/a.txt", "0123456789");
    tree.file("t/b.txt", "0123456789");
    tree.dir("t/sub");
    tree.file("t/sub/c.txt", "x");
    let options = WalkOptions {
        include_all: false,
        max_size: 10,
        max_file_size: 1000,
        exclude_patterns: Vec::new(),
    };
    let (result, steps) = tree.walk(&["t"], options);
    assert!(result.truncated);
    // Start, inspect t, list t, prefix and text of a.txt, then the end.
    assert_eq!(steps, 5);
    assert_eq!(result.stats.directories_processed(), 1);
}

#[test]
fn file_over_the_limit_is_counted_once_and_not_read() {
    let mut tree = Tree::new();
    tree.dir("t");
    tree.file("t/big.txt", &"y".repeat(101));
    tree.file("t/fits.txt", &"y".repeat(100));
    let options = WalkOptions {
        include_all: false,
        max_size: 10_000,
        max_file_size: 100,
        exclude_patterns: Vec::new(),
    };
    let (result, steps) = tree.walk(&["t"], options);
    assert_eq!(result.stats.skipped_large_files(), 1);
    assert_eq!(result.stats.files_processed(), 1);
    assert!(!result.content.contains("big.txt"));
    assert!(result.content.contains("fits.txt"));
    assert_eq!(steps, 5);
}

#[test]
fn unreadable_file_is_counted_and_adds_nothing() {
    let mut tree = Tree::new();
    tree.dir("t");
    tree.bytes("t/latin1.txt", &[0xE9, 0x20, 0x41]);
    let result = walk_and_collect(&tree, &["t"], WalkOptions::default());
    assert_eq!(result.content, "");
    assert_eq!(result.stats.unreadable_files(), 1);
    assert_eq!(result.stats.files_processed(), 1);
}

#[test]
fn zero_byte_beyond_the_prefix_does_not_make_binary() {
    let mut tree = Tree::new();
    tree.dir("t");
    let mut late = vec![b'a'; 8192];
    late.push(0);
    tree.bytes("t/late.txt", &late);
    let mut early = vec![b'a'; 8191];
    early.push(0);
    tree.bytes("t/early.txt", &early);
    let result = walk_and_collect(&tree, &["t"], WalkOptions::default());
    assert_eq!(result.stats.binary_files(), 1);
    assert_eq!(result.stats.text_files(), 1);
    assert!(result.content.contains("late.txt"));
    assert!(!result.content.contains("early.txt"));
}

#[test]
fn ignore_files_apply_below_their_directory() {
    let mut tree = Tree::new();
    tree.dir("r");
    tree.file("r/.gitignore", "/build/\n*.tmp\n!keep.tmp\n");
    tree.file("r/a.tmp", "A");
    tree.file("r/keep.tmp", "K");
    tree.dir("r/build");
    tree.file("r/build/out.txt", "O");
    tree.dir("r/src");
    tree.file("r/src/.gitignore", "gen_*\n");
    tree.file("r/src/gen_x.rs", "G");
    tree.file("r/src/main.rs", "M");
    tree.dir("r/src/build");
    tree.file("r/src/build/b.txt", "B");

    let result = walk_and_collect(&tree, &["r"], WalkOptions::default());
    assert_eq!(
        result.content,
        "--- r/keep.tmp ---\nK\n\n--- r/src/main.rs ---\nM\n\n--- r/src/build/b.txt ---\nB"
    );
    assert_eq!(result.stats.gitignored_files(), 2);
    assert_eq!(result.stats.gitignored_directories(), 1);
    assert_eq!(result.stats.skipped_files(), 2);
    assert_eq!(result.stats.gitignore_files(), vec!["r/.gitignore".to_string(), "r/src/.gitignore".to_string()]);

    let all = walk_and_collect(&tree, &["r"], include_all());
    assert!(all.content.contains("--- r/a.tmp ---\nA"));
    assert!(all.content.contains("--- r/build/out.txt ---\nO"));
    assert!(all.content.contains("--- r/src/gen_x.rs ---\nG"));
    assert_eq!(all.stats.gitignored_files(), 0);
}

#[test]
fn exclude_patterns_match_path_components() {
    let mut tree = Tree::new();
    tree.dir("r");
    tree.file("r/a.log", "A");
    tree.file("r/b.txt", "B");
    tree.dir("r/test_data");
    tree.file("r/test_data/c.txt", "C");
    let options = WalkOptions {
        include_all: false,
        max_size: Config::DEFAULT_MAX_SIZE,
        max_file_size: Config::DEFAULT_MAX_FILE_SIZE,
        exclude_patterns: vec!["*.log".to_string(), "test_*".to_string()],
    };
    let result = walk_and_collect(&tree, &["r"], options);
    assert_eq!(result.content, "--- r/b.txt ---\nB");
    assert_eq!(result.stats.gitignored_files(), 1);
    assert_eq!(result.stats.gitignored_directories(), 1);
}

#[test]
fn root_given_as_dot_is_not_hidden() {
    let mut tree = Tree::new();
    tree.dir(".");
    tree.file("./a.txt", "A");
    tree.file("./.secret", "S");
    let result = walk_and_collect(&tree, &["."], WalkOptions::default());
    assert_eq!(result.content, "--- ./a.txt ---\nA");
    assert_eq!(result.stats.skipped_files(), 1);
    assert_eq!(result.stats.skipped_directories(), 0);
}

#[test]
fn file_given_as_root_is_read() {
    let mut tree = Tree::new();
    tree.dir("r");
    tree.file("r/a.txt", "A");
    tree.file("r/.hidden", "H");
    let result = walk_and_collect(&tree, &["r/a.txt", "r/.hidden"], WalkOptions::default());
    assert_eq!(result.content, "--- r/a.txt ---\nA");
    assert_eq!(result.stats.skipped_files(), 1);
}

#[test]
fn event_that_is_not_awaited_changes_nothing() {
    let mut walker = DirectoryWalker::new(WalkOptions::default());
    walker.add_root("r", None);
    assert!(matches!(walker.step(WalkEvent::Text(None)), WalkAction::Finished));
    let action = walker.step(WalkEvent::Start);
    assert!(matches!(&action, WalkAction::Inspect(p) if p == "r"));
    let again = walker.step(WalkEvent::Prefix(None));
    assert!(matches!(&again, WalkAction::Inspect(p) if p == "r"));
    let again = walker.step(WalkEvent::Start);
    assert!(matches!(&again, WalkAction::Inspect(p) if p == "r"));
    let next = walker.step(WalkEvent::Inspected(Some(PathInfo {
        canonical: "/r".to_string(),
        kind: PathKind::Directory,
        size: None,
    })));
    assert!(matches!(
        &next,
        WalkAction::ReadDirectory { path, read_ignore_file: true } if path == "r"
    ));
    let result = walker.finish();
    assert_eq!(result.content, "");
}

#[test]
fn blocks_are_separated_by_a_blank_line() {
    let mut tree = Tree::new();
    tree.dir("s");
    tree.file("s/a", "one");
    tree.file("s/b", "two\n");
    tree.file("s/c", "three");
    let result = walk_and_collect(&tree, &["s"], WalkOptions::default());
    assert_eq!(result.content, "--- s/a ---\none\n\n--- s/b ---\ntwo\n\n\n--- s/c ---\nthree");
    let mut single = Tree::new();
    single.dir("s");
    single.file("s/a", "one");
    assert_eq!(walk_and_collect(&single, &["s"], WalkOptions::default()).content, "--- s/a ---\none");
}

#[test]
fn walk_takes_no_more_steps_than_it_owes() {
    let mut tree = Tree::new();
    tree.dir("w");
    tree.file("w/.gitignore", "skip*\n");
    tree.file("w/a.txt", "A");
    tree.file("w/skip.txt", "S");
    tree.bytes("w/b.bin", &[0]);
    tree.file("w/big.txt", &"x".repeat(2000));
    tree.dir("w/d1");
    tree.file("w/d1/c.txt", "C");
    tree.dir("w/d1/d2");
    tree.link("w/d1/d2/back", "w");
    tree.link("w/d1/again", "w/d1");
    tree.dir("w/.hidden");
    tree.file("w/.hidden/h.txt", "H");
    for include_all in [false, true] {
        let options = WalkOptions {
            include_all,
            max_size: 10_000,
            max_file_size: 1000,
            exclude_patterns: Vec::new(),
        };
        let roots = ["w", "w/d1", "w/a.txt", "nowhere"];
        let (result, steps, listed) = tree.walk_counting(&roots, options);
        // The last step says that the walk is over; the others are under way.
        assert!(steps - 1 <= 4 * roots.len() + 4 * listed, "{} {}", steps, listed);
        assert!(result.stats.directories_processed() <= 4);
        assert_eq!(result.content.matches("--- w/d1/c.txt ---").count(), 1);
    }
}

#[test]
fn default_options() {
    let options = WalkOptions::default();
    assert!(!options.include_all);
    assert_eq!(options.max_size, 5 * 1024 * 1024);
    assert_eq!(options.max_file_size, 500 * 1024);
    assert!(options.exclude_patterns.is_empty());
}
