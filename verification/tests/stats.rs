use rcat::stats::StatsCollector;

#[test]
fn new_collector_has_counted_nothing() {
    let stats = StatsCollector::new();
    assert_eq!(stats.files_processed(), 0);
    assert_eq!(stats.directories_processed(), 0);
    assert_eq!(stats.binary_files(), 0);
    assert_eq!(stats.text_files(), 0);
    assert_eq!(stats.unreadable_files(), 0);
    assert_eq!(stats.skipped_files(), 0);
    assert_eq!(stats.skipped_directories(), 0);
    assert_eq!(stats.skipped_large_files(), 0);
    assert_eq!(stats.gitignored_files(), 0);
    assert_eq!(stats.gitignored_directories(), 0);
    assert_eq!(stats.total_bytes(), 0);
    assert!(stats.gitignore_files().is_empty());
    assert_eq!(stats.format_stats_after(0), "Processed 0 files and 0 directories in 0.00s");
    let by_default = StatsCollector::default();
    assert_eq!(by_default.files_processed(), 0);
}

#[test]
fn each_record_raises_its_counter() {
    let mut stats = StatsCollector::new();
    stats.record_text_file("a/b.RS", 10);
    stats.record_text_file("a/c.rs", 5);
    stats.record_binary_file("a/d.PNG");
    stats.record_unreadable_file();
    stats.record_directory();
    stats.record_directory();
    stats.record_skipped_file();
    stats.record_skipped_directory();
    stats.record_gitignored_file();
    stats.record_gitignored_file();
    stats.record_gitignored_directory();
    stats.record_skipped_large_file();
    assert_eq!(stats.files_processed(), 4);
    assert_eq!(stats.text_files(), 2);
    assert_eq!(stats.binary_files(), 1);
    assert_eq!(stats.unreadable_files(), 1);
    assert_eq!(stats.directories_processed(), 2);
    assert_eq!(stats.skipped_files(), 1);
    assert_eq!(stats.skipped_directories(), 1);
    assert_eq!(stats.gitignored_files(), 2);
    assert_eq!(stats.gitignored_directories(), 1);
    assert_eq!(stats.skipped_large_files(), 1);
    assert_eq!(stats.total_bytes(), 15);
    assert_eq!(stats.extension_count("rs"), 2);
    assert_eq!(stats.extension_count("png"), 1);
    assert_eq!(stats.extension_count("RS"), 0);
    assert_eq!(stats.extension_count("txt"), 0);
}

#[test]
fn extension_is_what_follows_the_last_dot() {
    let mut stats = StatsCollector::new();
    stats.record_text_file("x/archive.tar.GZ", 1);
    stats.record_text_file("x/.bashrc", 1);
    stats.record_text_file("x/Makefile", 1);
    stats.record_text_file("x.d/noext", 1);
    stats.record_text_file("x/trailing.", 1);
    stats.record_text_file("..", 1);
    assert_eq!(stats.extension_count("gz"), 1);
    assert_eq!(stats.extension_count("bashrc"), 0);
    assert_eq!(stats.extension_count("d/noext"), 0);
    assert_eq!(stats.extension_count(""), 1);
    assert_eq!(stats.text_files(), 6);
    assert_eq!(stats.format_stats_after(0).lines().last().unwrap(), "Top extensions: .gz (1), . (1)");
}

#[test]
fn counters_stop_at_the_largest_number() {
    let mut stats = StatsCollector::new();
    stats.record_text_file("a.txt", usize::MAX - 1);
    stats.record_text_file("b.txt", 5);
    assert_eq!(stats.total_bytes(), usize::MAX);
    assert_eq!(stats.text_files(), 2);
}

#[test]
fn summary_names_every_part() {
    let mut stats = StatsCollector::new();
    stats.set_gitignore_active(vec!["r/.gitignore".to_string(), "r/s/.gitignore".to_string()]);
    for _ in 0..3 {
        stats.record_text_file("r/a.rs", 1024 * 1024);
    }
    stats.record_text_file("r/b.TXT", 0);
    stats.record_binary_file("r/c.png");
    stats.record_unreadable_file();
    stats.record_directory();
    stats.record_skipped_file();
    stats.record_skipped_directory();
    stats.record_gitignored_file();
    stats.record_gitignored_directory();
    stats.record_skipped_large_file();
    let text = stats.format_stats_after(1_500_000_000);
    assert_eq!(
        text,
        "Processed 6 files and 1 directories in 1.50s\n\
         Using .gitignore: r/.gitignore, r/s/.gitignore\n\
         Files: 4 text, 1 binary, 1 unreadable\n\
         Skipped: 4 files, 2 directories (2 hidden/binary, 1 too large, 2 gitignored)\n\
         Top extensions: .rs (3), .txt (1), .png (1)\n\
         Speed: 4 files/sec, 2.00 MB/sec"
    );
}

#[test]
fn summary_leaves_out_what_is_empty() {
    let mut stats = StatsCollector::new();
    stats.record_directory();
    assert_eq!(stats.format_stats_after(0), "Processed 0 files and 1 directories in 0.00s");
    assert_eq!(
        stats.format_stats_after(12_345_678),
        "Processed 0 files and 1 directories in 0.01s\nSpeed: 0 files/sec, 0.00 MB/sec"
    );
    stats.record_skipped_large_file();
    assert_eq!(
        stats.format_stats_after(0),
        "Processed 0 files and 1 directories in 0.00s\nSkipped: 1 files, 0 directories (1 too large)"
    );
}

#[test]
fn top_extensions_are_ten_most_frequent_first_seen_first() {
    let mut stats = StatsCollector::new();
    let names = ["a", "b", "c", "d", "e", "f", "g", "h", "i", "j", "k", "l"];
    for name in names {
        stats.record_text_file(&format!("x.{}", name), 1);
    }
    stats.record_text_file("y.k", 1);
    stats.record_text_file("y.c", 1);
    stats.record_text_file("z.k", 1);
    let text = stats.format_stats_after(0);
    assert_eq!(
        text.lines().last().unwrap(),
        "Top extensions: .k (3), .c (2), .a (1), .b (1), .d (1), .e (1), .f (1), .g (1), .h (1), .i (1)"
    );
}

#[test]
fn speed_is_rounded_to_the_nearest_digit() {
    let mut stats = StatsCollector::new();
    for _ in 0..7 {
        stats.record_text_file("a", 1_000_000);
    }
    // 7 files and 7,000,000 bytes in 2 s: 3.5 files and 3.338 MB a second.
    let text = stats.format_stats_after(2_000_000_000);
    assert_eq!(text.lines().last().unwrap(), "Speed: 4 files/sec, 3.34 MB/sec");
    // In 4 s: 1.75 files and 1.669 MB a second.
    let text = stats.format_stats_after(4_000_000_000);
    assert_eq!(text.lines().last().unwrap(), "Speed: 2 files/sec, 1.67 MB/sec");
    let text = stats.format_stats_after(u128::MAX);
    assert_eq!(text.lines().last().unwrap(), "Speed: 0 files/sec, 0.00 MB/sec");
}

#[test]
fn summary_of_now_starts_like_the_summary_after_a_time() {
    let mut stats = StatsCollector::new();
    stats.record_directory();
    let text = stats.format_stats();
    assert!(text.starts_with("Processed 0 files and 1 directories in "));
    let _ = stats.elapsed();
}

#[test]
fn record_extension_counts_what_it_is_given() {
    let mut stats = StatsCollector::new();
    stats.record_extension("rs".to_string());
    stats.record_extension("RS".to_string());
    stats.record_extension("rs".to_string());
    stats.record_extension(String::new());
    assert_eq!(stats.extension_count("rs"), 2);
    assert_eq!(stats.extension_count("RS"), 1);
    assert_eq!(stats.extension_count(""), 1);
    assert_eq!(stats.files_processed(), 0);
    assert_eq!(
        stats.format_stats_after(0).lines().last().unwrap(),
        "Top extensions: .rs (2), .RS (1), . (1)"
    );
}
