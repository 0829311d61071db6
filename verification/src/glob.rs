//! Wildcard matching of one path segment against one pattern.
//!
//! A pattern is a sequence of characters in which `*` stands for any run of
//! characters, the empty one included, `?` stands for exactly one character,
//! and every other character stands for itself.

use vstd::prelude::*;
use crate::text::{chars_equal, chars_of};

verus! {

/// Whether `text` from index `i` on matches `pattern` from index `j` on.
pub open spec fn matches_from(text: Seq<char>, pattern: Seq<char>, i: int, j: int) -> bool
    recommends
        0 <= i <= text.len(),
        0 <= j <= pattern.len(),
    decreases pattern.len() - j, text.len() - i,
{
    if j >= pattern.len() {
        i >= text.len()
    } else if pattern[j] == '*' {
        matches_from(text, pattern, i, j + 1) || (i < text.len() && matches_from(
            text,
            pattern,
            i + 1,
            j,
        ))
    } else {
        i < text.len() && (pattern[j] == '?' || pattern[j] == text[i]) && matches_from(
            text,
            pattern,
            i + 1,
            j + 1,
        )
    }
}

/// Whether the whole of `text` matches the whole of `pattern`.
pub open spec fn glob_matches(text: Seq<char>, pattern: Seq<char>) -> bool {
    matches_from(text, pattern, 0, 0)
}

/// Whether `pattern` holds a wildcard character.
pub open spec fn has_wildcard(pattern: Seq<char>) -> bool {
    exists|k: int| 0 <= k < pattern.len() && (#[trigger] pattern[k] == '*' || pattern[k] == '?')
}

/// Whether `pattern[from..to]` holds no `*` and agrees with the text of the
/// same length that starts at `at`.
pub open spec fn segment_agrees(
    text: Seq<char>,
    pattern: Seq<char>,
    at: int,
    from: int,
    to: int,
) -> bool {
    &&& 0 <= at
    &&& 0 <= from <= to <= pattern.len()
    &&& at + (to - from) <= text.len()
    &&& forall|d: int|
        0 <= d < to - from ==> #[trigger] pattern[from + d] != '*' && (pattern[from + d] == '?'
            || pattern[from + d] == text[at + d])
}

/// Whether `pattern[from..to]` holds no `*`.
pub open spec fn star_free(pattern: Seq<char>, from: int, to: int) -> bool {
    &&& 0 <= from <= to <= pattern.len()
    &&& forall|d: int| from <= d < to ==> #[trigger] pattern[d] != '*'
}

/// A `*` at `j` lets the match resume at any later place of the text.
proof fn lemma_star_skips(text: Seq<char>, pattern: Seq<char>, i: int, k: int, j: int)
    requires
        0 <= i <= k <= text.len(),
        0 <= j < pattern.len(),
        pattern[j] == '*',
        matches_from(text, pattern, k, j + 1),
    ensures
        matches_from(text, pattern, i, j),
    decreases k - i,
{
    if i < k {
        lemma_star_skips(text, pattern, i + 1, k, j);
    }
}

/// A match that starts at a `*` resumes behind it at some later place.
proof fn lemma_star_resumes(text: Seq<char>, pattern: Seq<char>, i: int, j: int) -> (k: int)
    requires
        0 <= i <= text.len(),
        0 <= j < pattern.len(),
        pattern[j] == '*',
        matches_from(text, pattern, i, j),
    ensures
        i <= k <= text.len(),
        matches_from(text, pattern, k, j + 1),
    decreases text.len() - i,
{
    if matches_from(text, pattern, i, j + 1) {
        i
    } else {
        lemma_star_resumes(text, pattern, i + 1, j)
    }
}

/// Over a stretch that agrees with the text, matching before it and behind
/// it come to the same.
proof fn lemma_segment_agrees(text: Seq<char>, pattern: Seq<char>, at: int, from: int, to: int)
    requires
        segment_agrees(text, pattern, at, from, to),
    ensures
        matches_from(text, pattern, at, from) == matches_from(text, pattern, at + (to - from), to),
    decreases to - from,
{
    if from < to {
        assert(pattern[from + 0] != '*');
        assert forall|d: int| 0 <= d < to - (from + 1) implies #[trigger] pattern[from + 1 + d]
            != '*' && (pattern[from + 1 + d] == '?' || pattern[from + 1 + d] == text[at + 1
            + d]) by {
            assert(pattern[from + (d + 1)] != '*');
        }
        lemma_segment_agrees(text, pattern, at + 1, from + 1, to);
    }
}

/// A stretch without `*` takes up exactly as many characters as it is long.
proof fn lemma_star_free_consumes(text: Seq<char>, pattern: Seq<char>, at: int, from: int, to: int)
    requires
        0 <= at <= text.len(),
        star_free(pattern, from, to),
        matches_from(text, pattern, at, from),
    ensures
        at + (to - from) <= text.len(),
        matches_from(text, pattern, at + (to - from), to),
    decreases to - from,
{
    if from < to {
        assert(pattern[from] != '*');
        lemma_star_free_consumes(text, pattern, at + 1, from + 1, to);
    }
}

/// The pattern `*` matches every text, the empty one too.
pub proof fn lemma_star_matches_all(text: Seq<char>)
    ensures
        glob_matches(text, seq!['*']),
{
    let pattern = seq!['*'];
    assert(matches_from(text, pattern, text.len() as int, 1));
    lemma_star_skips(text, pattern, 0, text.len() as int, 0);
}

/// A pattern without wildcards matches exactly the text that equals it.
pub proof fn lemma_literal_pattern(text: Seq<char>, pattern: Seq<char>)
    requires
        !has_wildcard(pattern),
    ensures
        glob_matches(text, pattern) <==> text == pattern,
{
    lemma_literal_from(text, pattern, 0);
    assert(text.skip(0) == text);
    assert(pattern.skip(0) == pattern);
}

proof fn lemma_literal_from(text: Seq<char>, pattern: Seq<char>, i: int)
    requires
        !has_wildcard(pattern),
        0 <= i <= pattern.len(),
        i <= text.len(),
    ensures
        matches_from(text, pattern, i, i) <==> text.skip(i) == pattern.skip(i),
    decreases pattern.len() - i,
{
    if i < pattern.len() {
        assert(pattern[i] != '*' && pattern[i] != '?');
        if i < text.len() {
            lemma_literal_from(text, pattern, i + 1);
            if pattern[i] == text[i] && text.skip(i + 1) == pattern.skip(i + 1) {
                assert(text.skip(i) =~= seq![text[i]] + text.skip(i + 1));
                assert(pattern.skip(i) =~= seq![pattern[i]] + pattern.skip(i + 1));
            }
            if text.skip(i) == pattern.skip(i) {
                assert(text.skip(i)[0] == pattern.skip(i)[0]);
                assert(text.skip(i + 1) =~= text.skip(i).skip(1));
                assert(pattern.skip(i + 1) =~= pattern.skip(i).skip(1));
            }
        } else {
            assert(text.skip(i).len() != pattern.skip(i).len());
        }
    } else {
        if i < text.len() {
            assert(text.skip(i).len() != pattern.skip(i).len());
        } else {
            assert(text.skip(i) =~= pattern.skip(i));
        }
    }
}

/// Matcher for wildcard patterns.
pub struct GlobMatcher;

impl GlobMatcher {
    /// Tells whether `text` matches `pattern`, in which `*` stands for any
    /// run of characters and `?` for exactly one.
    pub fn matches(text: &str, pattern: &str) -> (matched: bool)
        ensures
            matched == glob_matches(text@, pattern@),
            pattern@ == seq!['*'] ==> matched,
    {
        let text_chars = chars_of(text);
        let pattern_chars = chars_of(pattern);
        proof {
            if pattern@ == seq!['*'] {
                lemma_star_matches_all(text@);
            }
        }
        Self::matches_chars(text_chars.as_slice(), pattern_chars.as_slice())
    }

    /// Tells whether `pattern` holds `*` or `?`.
    pub fn contains_wildcard(pattern: &[char]) -> (found: bool)
        ensures
            found == has_wildcard(pattern@),
    {
        let mut k: usize = 0;
        while k < pattern.len()
            invariant
                k <= pattern.len(),
                forall|d: int| 0 <= d < k ==> pattern@[d] != '*' && pattern@[d] != '?',
            decreases pattern.len() - k,
        {
            if pattern[k] == '*' || pattern[k] == '?' {
                return true;
            }
            k += 1;
        }
        false
    }

    /// The matcher on characters: one scan of the text that, on a mismatch,
    /// goes back to the latest `*` and lets it take one character more.
    pub fn matches_chars(text: &[char], pattern: &[char]) -> (matched: bool)
        ensures
            matched == glob_matches(text@, pattern@),
    {
        if pattern.len() == 1 && pattern[0] == '*' {
            proof {
                assert(pattern@ =~= seq!['*']);
                lemma_star_matches_all(text@);
            }
            return true;
        }
        if !Self::contains_wildcard(pattern) {
            proof {
                lemma_literal_pattern(text@, pattern@);
            }
            return chars_equal(text, pattern);
        }
        let mut text_idx: usize = 0;
        let mut pattern_idx: usize = 0;
        let mut star_idx: Option<usize> = None;
        let mut star_match: Option<usize> = None;
        // The stretch of the pattern behind the latest `*` (behind its start,
        // where there was none yet) and the place of the text it is tried at.
        let ghost mut seg_from: int = 0;
        let ghost mut seg_at: int = 0;

        while text_idx < text.len()
            invariant
                text_idx <= text.len(),
                pattern_idx <= pattern.len(),
                star_idx is Some <==> star_match is Some,
                star_idx matches Some(s) ==> s < pattern.len() && pattern@[s as int] == '*'
                    && seg_from == s + 1,
                star_match matches Some(k) ==> seg_at == k,
                star_idx is None ==> seg_from == 0 && seg_at == 0,
                segment_agrees(text@, pattern@, seg_at, seg_from, pattern_idx as int),
                text_idx == seg_at + (pattern_idx - seg_from),
                star_idx is None ==> glob_matches(text@, pattern@) == matches_from(
                    text@,
                    pattern@,
                    seg_at,
                    seg_from,
                ),
                star_idx is Some ==> (glob_matches(text@, pattern@) <==> exists|k: int|
                    seg_at <= k <= text.len() && #[trigger] matches_from(
                        text@,
                        pattern@,
                        k,
                        seg_from,
                    )),
            decreases text.len() - seg_at, pattern.len() - pattern_idx,
        {
            proof {
                lemma_segment_agrees(text@, pattern@, seg_at, seg_from, pattern_idx as int);
            }
            let mut backtrack = false;
            if pattern_idx < pattern.len() {
                let c = pattern[pattern_idx];
                if c == '*' {
                    proof {
                        lemma_new_star(
                            text@,
                            pattern@,
                            seg_at,
                            seg_from,
                            pattern_idx as int,
                            star_idx is Some,
                        );
                        seg_from = pattern_idx + 1;
                        seg_at = text_idx as int;
                    }
                    star_idx = Some(pattern_idx);
                    star_match = Some(text_idx);
                    pattern_idx += 1;
                } else if c == '?' || c == text[text_idx] {
                    proof {
                        let to = pattern_idx as int;
                        assert forall|d: int| 0 <= d < to + 1 - seg_from implies #[trigger] pattern@[seg_from
                            + d] != '*' && (pattern@[seg_from + d] == '?' || pattern@[seg_from + d]
                            == text@[seg_at + d]) by {
                            if d < to - seg_from {
                            } else {
                                assert(seg_from + d == to);
                                assert(seg_at + d == text_idx);
                            }
                        }
                    }
                    text_idx += 1;
                    pattern_idx += 1;
                } else {
                    backtrack = true;
                }
            } else {
                backtrack = true;
            }
            if backtrack {
                assert(!matches_from(text@, pattern@, text_idx as int, pattern_idx as int));
                assert(!matches_from(text@, pattern@, seg_at, seg_from));
                match (star_idx, star_match) {
                    (Some(s_idx), Some(s_match)) => {
                        proof {
                            seg_at = seg_at + 1;
                        }
                        pattern_idx = s_idx + 1;
                        star_match = Some(s_match + 1);
                        text_idx = s_match + 1;
                    },
                    _ => {
                        return false;
                    },
                }
            }
        }

        proof {
            lemma_segment_agrees(text@, pattern@, seg_at, seg_from, pattern_idx as int);
            if star_idx is Some {
                if glob_matches(text@, pattern@) {
                    let k = choose|k: int|
                        seg_at <= k <= text.len() && #[trigger] matches_from(
                            text@,
                            pattern@,
                            k,
                            seg_from,
                        );
                    assert(star_free(pattern@, seg_from, pattern_idx as int)) by {
                        assert forall|d: int| seg_from <= d < pattern_idx implies #[trigger] pattern@[d]
                            != '*' by {
                            assert(pattern@[seg_from + (d - seg_from)] != '*');
                        }
                    }
                    lemma_star_free_consumes(text@, pattern@, k, seg_from, pattern_idx as int);
                    assert(k == seg_at);
                }
            }
        }
        let ghost rest = pattern_idx as int;
        while pattern_idx < pattern.len() && pattern[pattern_idx] == '*'
            invariant
                rest <= pattern_idx <= pattern.len(),
                text_idx == text.len(),
                matches_from(text@, pattern@, text_idx as int, rest) == matches_from(
                    text@,
                    pattern@,
                    text_idx as int,
                    pattern_idx as int,
                ),
            decreases pattern.len() - pattern_idx,
        {
            pattern_idx += 1;
        }
        pattern_idx == pattern.len()
    }
}

/// Moving the anchor of the scan to a newly met `*` keeps what the scan
/// is to decide.
proof fn lemma_new_star(
    text: Seq<char>,
    pattern: Seq<char>,
    seg_at: int,
    seg_from: int,
    star: int,
    behind_star: bool,
)
    requires
        segment_agrees(text, pattern, seg_at, seg_from, star),
        star < pattern.len(),
        pattern[star] == '*',
    ensures
        !behind_star ==> (matches_from(text, pattern, seg_at, seg_from) <==> exists|k: int|
            seg_at + (star - seg_from) <= k <= text.len() && #[trigger] matches_from(
                text,
                pattern,
                k,
                star + 1,
            )),
        behind_star ==> ((exists|k: int|
            seg_at <= k <= text.len() && #[trigger] matches_from(text, pattern, k, seg_from))
            <==> exists|k: int|
            seg_at + (star - seg_from) <= k <= text.len() && #[trigger] matches_from(
                text,
                pattern,
                k,
                star + 1,
            )),
{
    let here = seg_at + (star - seg_from);
    lemma_segment_agrees(text, pattern, seg_at, seg_from, star);
    // From a resumption behind the new star back to the old anchor.
    if exists|k: int| here <= k <= text.len() && #[trigger] matches_from(text, pattern, k, star + 1) {
        let k = choose|k: int|
            here <= k <= text.len() && #[trigger] matches_from(text, pattern, k, star + 1);
        lemma_star_skips(text, pattern, here, k, star);
        assert(matches_from(text, pattern, seg_at, seg_from));
    }
    if !behind_star {
        if matches_from(text, pattern, seg_at, seg_from) {
            let k = lemma_star_resumes(text, pattern, here, star);
            assert(matches_from(text, pattern, k, star + 1));
        }
    } else {
        if exists|k: int|
            seg_at <= k <= text.len() && #[trigger] matches_from(text, pattern, k, seg_from) {
            let k0 = choose|k: int|
                seg_at <= k <= text.len() && #[trigger] matches_from(text, pattern, k, seg_from);
            assert(star_free(pattern, seg_from, star)) by {
                assert forall|d: int| seg_from <= d < star implies #[trigger] pattern[d] != '*' by {
                    assert(pattern[seg_from + (d - seg_from)] != '*');
                }
            }
            lemma_star_free_consumes(text, pattern, k0, seg_from, star);
            let k = lemma_star_resumes(text, pattern, k0 + (star - seg_from), star);
            assert(matches_from(text, pattern, k, star + 1));
        }
    }
}

} // verus!
