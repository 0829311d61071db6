use rcat::config::Config;
use rcat::file_processor::{FileContent, FileProcessor};

#[test]
fn zero_byte_in_prefix_makes_binary() {
    assert!(FileProcessor::is_binary(&[1, 2, 0, 3]));
    assert!(FileProcessor::is_binary(&[0]));
    assert!(!FileProcessor::is_binary(&[]));
    assert!(!FileProcessor::is_binary(b"plain text"));
    let mut long = vec![b'a'; Config::BINARY_CHECK_BUFFER_SIZE];
    long.push(0);
    assert!(!FileProcessor::is_binary(&long));
    long[Config::BINARY_CHECK_BUFFER_SIZE - 1] = 0;
    assert!(FileProcessor::is_binary(&long));
}

#[test]
fn process_classifies() {
    assert!(matches!(FileProcessor::process(&[0], Some("x".to_string())), FileContent::Binary));
    assert!(matches!(FileProcessor::process(&[0], None), FileContent::Binary));
    assert!(matches!(FileProcessor::process(b"ab", None), FileContent::Unreadable));
    match FileProcessor::process(b"ab", Some("abc".to_string())) {
        FileContent::Text(text) => assert_eq!(text, "abc"),
        _ => panic!("not text"),
    }
    assert!(matches!(FileProcessor::text_content(None), FileContent::Unreadable));
}

#[test]
fn format_content_heads_each_block() {
    assert_eq!(
        FileProcessor::format_content("src/main.rs", FileContent::Text("fn main() {}\n".to_string())),
        Some("--- src/main.rs ---\nfn main() {}\n".to_string())
    );
    assert_eq!(
        FileProcessor::format_content("a b/\u{e9}.bin", FileContent::Binary),
        Some("--- a b/\u{e9}.bin ---\n<BINARY_FILE>".to_string())
    );
    assert_eq!(FileProcessor::format_content("x", FileContent::Unreadable), None);
    assert_eq!(
        FileProcessor::format_content("", FileContent::Text(String::new())),
        Some("---  ---\n".to_string())
    );
}

#[test]
fn config_limits() {
    assert_eq!(Config::DEFAULT_MAX_SIZE, 5 * 1024 * 1024);
    assert_eq!(Config::DEFAULT_MAX_FILE_SIZE, 500 * 1024);
    assert_eq!(Config::BINARY_CHECK_BUFFER_SIZE, 8192);
}
