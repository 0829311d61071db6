//! What a file is taken for, and the block that it adds to the output.

use vstd::prelude::*;
use vstd::string::StringExecFns;
use crate::config::Config;

verus! {

/// What a file was found to be.
pub enum FileContent {
    /// A text file, with its content.
    Text(String),
    /// A binary file.
    Binary,
    /// A file that could not be read as text.
    Unreadable,
}

/// What a `FileContent` stands for.
pub ghost enum ContentSpec {
    Text(Seq<char>),
    Binary,
    Unreadable,
}

impl View for FileContent {
    type V = ContentSpec;

    open spec fn view(&self) -> ContentSpec {
        match self {
            FileContent::Text(text) => ContentSpec::Text(text@),
            FileContent::Binary => ContentSpec::Binary,
            FileContent::Unreadable => ContentSpec::Unreadable,
        }
    }
}

/// Whether the start of a file marks it as binary: a zero byte stands among
/// the first 8192 bytes.
pub open spec fn binary_prefix(prefix: Seq<u8>) -> bool {
    exists|i: int| 0 <= i < prefix.len() && i < 8192 && #[trigger] prefix[i] == 0
}

/// What a file is taken for, given the bytes at its start and what reading
/// it as text gave: binary where the start says so, else text where it
/// could be read as text, else unreadable.
pub open spec fn classification(prefix: Seq<u8>, text: Option<Seq<char>>) -> ContentSpec {
    if binary_prefix(prefix) {
        ContentSpec::Binary
    } else {
        match text {
            Some(content) => ContentSpec::Text(content),
            None => ContentSpec::Unreadable,
        }
    }
}

/// The line that heads the block of a file.
pub open spec fn block_header(path: Seq<char>) -> Seq<char> {
    "--- "@ + path + " ---\n"@
}

/// The block that a file adds to the output, if it adds one.
pub open spec fn formatted_block(path: Seq<char>, content: ContentSpec) -> Option<Seq<char>> {
    match content {
        ContentSpec::Text(text) => Some(block_header(path) + text),
        ContentSpec::Binary => Some(block_header(path) + "<BINARY_FILE>"@),
        ContentSpec::Unreadable => None,
    }
}

/// Classifies files and formats their blocks.
pub struct FileProcessor;

impl FileProcessor {
    /// Classifies a file from the bytes at its start and from what reading
    /// it as text gave, `None` where that failed.
    pub fn process(prefix: &[u8], text: Option<String>) -> (content: FileContent)
        ensures
            content@ == classification(prefix@, match text {
                Some(t) => Some(t@),
                None => None,
            }),
    {
        if Self::is_binary(prefix) {
            FileContent::Binary
        } else {
            Self::text_content(text)
        }
    }

    /// What a file that does not start like a binary one is taken for.
    pub fn text_content(text: Option<String>) -> (content: FileContent)
        ensures
            content@ == (match text {
                Some(t) => ContentSpec::Text(t@),
                None => ContentSpec::Unreadable,
            }),
    {
        match text {
            Some(t) => FileContent::Text(t),
            None => FileContent::Unreadable,
        }
    }

    /// Tells whether the bytes at the start of a file mark it as binary.
    pub fn is_binary(prefix: &[u8]) -> (binary: bool)
        ensures
            binary == binary_prefix(prefix@),
    {
        let mut i: usize = 0;
        while i < prefix.len() && i < Config::BINARY_CHECK_BUFFER_SIZE
            invariant
                i <= prefix.len(),
                i <= 8192,
                forall|k: int| 0 <= k < i ==> prefix@[k] != 0,
            decreases prefix.len() - i,
        {
            if prefix[i] == 0 {
                return true;
            }
            i += 1;
        }
        false
    }

    /// Formats the block of a file: a header line with the path, then the
    /// text, or a marker for a binary file. An unreadable file has none.
    pub fn format_content(path: &str, content: FileContent) -> (block: Option<String>)
        ensures
            block is Some == formatted_block(path@, content@) is Some,
            block matches Some(b) ==> Some(b@) == formatted_block(path@, content@),
    {
        match content {
            FileContent::Text(text) => {
                let mut block = Self::header(path);
                block.append(text.as_str());
                Some(block)
            },
            FileContent::Binary => {
                let mut block = Self::header(path);
                block.append("<BINARY_FILE>");
                Some(block)
            },
            FileContent::Unreadable => None,
        }
    }

    /// The header line of a block.
    fn header(path: &str) -> (line: String)
        ensures
            line@ == block_header(path@),
    {
        let mut line = String::from_str("--- ");
        line.append(path);
        line.append(" ---\n");
        line
    }
}

} // verus!
