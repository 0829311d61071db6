//! Paths as text.
//!
//! A path is a string whose components are separated by `/`. Empty
//! components count for nothing, and neither does a component `.` unless it
//! leads a relative path. Nothing here touches a file system.

use vstd::prelude::*;
use crate::text::{chars_equal, copy_chars, joined_with, string_of, texts};

verus! {

/// The pieces of `s` between the occurrences of `sep`: one piece more than
/// there are separators, empty pieces included.
pub open spec fn split(s: Seq<char>, sep: char) -> Seq<Seq<char>>
    decreases s.len(),
{
    if s.len() == 0 {
        seq![Seq::empty()]
    } else {
        let before = split(s.drop_last(), sep);
        if s.last() == sep {
            before.push(Seq::empty())
        } else {
            before.drop_last().push(before.last().push(s.last()))
        }
    }
}

/// What `split` gives: pieces that do not hold the separator and that,
/// put in a row with the separator between each two, give the text back.
pub proof fn lemma_split(s: Seq<char>, sep: char)
    ensures
        split(s, sep).len() >= 1,
        joined_with(split(s, sep), seq![sep]) == s,
        forall|i: int, k: int|
            0 <= i < split(s, sep).len() && 0 <= k < split(s, sep)[i].len() ==> #[trigger] split(
                s,
                sep,
            )[i][k] != sep,
    decreases s.len(),
{
    let pieces = split(s, sep);
    let by = seq![sep];
    if s.len() == 0 {
        assert(joined_with(pieces, by) =~= s);
    } else {
        let before = split(s.drop_last(), sep);
        lemma_split(s.drop_last(), sep);
        let c = s.last();
        assert(s =~= s.drop_last().push(c));
        if c == sep {
            assert(pieces.drop_last() =~= before);
            assert(pieces.last() =~= Seq::<char>::empty());
            assert(joined_with(pieces, by) =~= joined_with(before, by) + by);
            assert forall|i: int, k: int|
                0 <= i < pieces.len() && 0 <= k < pieces[i].len() implies #[trigger] pieces[i][k]
                != sep by {
                assert(pieces[i] == before[i]);
            }
        } else {
            let last = before.last().push(c);
            assert(pieces.last() == last);
            assert(pieces.drop_last() =~= before.drop_last());
            if before.len() == 1 {
                assert(joined_with(before, by) == before[0]);
                assert(joined_with(pieces, by) =~= joined_with(before, by).push(c));
            } else {
                assert(joined_with(before, by) == joined_with(before.drop_last(), by) + by
                    + before.last());
                assert(joined_with(pieces, by) =~= joined_with(before, by).push(c));
            }
            assert forall|i: int, k: int|
                0 <= i < pieces.len() && 0 <= k < pieces[i].len() implies #[trigger] pieces[i][k]
                != sep by {
                if i < pieces.len() - 1 {
                    assert(pieces[i] == before[i]);
                } else if k < before.last().len() {
                    assert(pieces[i][k] == before[before.len() - 1][k]);
                }
            }
        }
    }
}

/// Whether a path starts at the root.
pub open spec fn is_absolute(path: Seq<char>) -> bool {
    path.len() > 0 && path[0] == '/'
}

/// Whether a piece between separators counts as a component, given whether
/// the path is absolute and whether a component stands before the piece.
pub open spec fn is_component(piece: Seq<char>, absolute: bool, first: bool) -> bool {
    piece.len() > 0 && !(piece == seq!['.'] && (absolute || !first))
}

/// The pieces that count as components, in order.
pub open spec fn kept_pieces(pieces: Seq<Seq<char>>, absolute: bool) -> Seq<Seq<char>>
    decreases pieces.len(),
{
    if pieces.len() == 0 {
        Seq::empty()
    } else {
        let before = kept_pieces(pieces.drop_last(), absolute);
        if is_component(pieces.last(), absolute, before.len() == 0) {
            before.push(pieces.last())
        } else {
            before
        }
    }
}

/// The components of a path.
pub open spec fn components(path: Seq<char>) -> Seq<Seq<char>> {
    kept_pieces(split(path, '/'), is_absolute(path))
}

/// What is left of `path` below the directory `base`: the components of
/// `path` behind those of `base`, if `path` starts with them.
pub open spec fn relative_to(path: Seq<char>, base: Seq<char>) -> Option<Seq<Seq<char>>> {
    if is_absolute(path) == is_absolute(base) && components(base).is_prefix_of(components(path)) {
        Some(components(path).skip(components(base).len() as int))
    } else {
        None
    }
}

/// The final component of a path, unless there is none or it is `.` or `..`.
pub open spec fn file_name(path: Seq<char>) -> Option<Seq<char>> {
    let parts = components(path);
    if parts.len() == 0 || parts.last() == seq!['.'] || parts.last() == seq!['.', '.'] {
        None
    } else {
        Some(parts.last())
    }
}

/// Whether the path names a hidden entry: its file name starts with a dot.
pub open spec fn is_hidden(path: Seq<char>) -> bool {
    file_name(path) matches Some(name) && name.len() > 0 && name[0] == '.'
}

/// The place of the last dot of `name`, or -1.
pub open spec fn last_dot(name: Seq<char>) -> int
    decreases name.len(),
{
    if name.len() == 0 {
        -1
    } else if name.last() == '.' {
        name.len() - 1
    } else {
        last_dot(name.drop_last())
    }
}

/// The extension of a path: what follows the last dot of its file name,
/// unless the name has no dot or only a leading one.
pub open spec fn extension(path: Seq<char>) -> Option<Seq<char>> {
    match file_name(path) {
        Some(name) => if last_dot(name) > 0 {
            Some(name.skip(last_dot(name) + 1))
        } else {
            None
        },
        None => None,
    }
}

/// The path of the entry `name` of the directory `dir`.
pub open spec fn joined(dir: Seq<char>, name: Seq<char>) -> Seq<char> {
    if dir.len() == 0 {
        name
    } else if dir.last() == '/' {
        dir + name
    } else {
        dir + seq!['/'] + name
    }
}

/// The name of an ignore file.
pub open spec fn ignore_file_name() -> Seq<char> {
    seq!['.', 'g', 'i', 't', 'i', 'g', 'n', 'o', 'r', 'e']
}

/// Splits `s` at every occurrence of `sep`.
pub fn split_chars(s: &[char], sep: char) -> (pieces: Vec<Vec<char>>)
    ensures
        texts(pieces@) == split(s@, sep),
{
    let mut pieces: Vec<Vec<char>> = Vec::new();
    let mut current: Vec<char> = Vec::new();
    let mut i: usize = 0;
    assert(texts(pieces@).push(current@) =~= split(s@.take(0), sep));
    while i < s.len()
        invariant
            i <= s.len(),
            texts(pieces@).push(current@) == split(s@.take(i as int), sep),
        decreases s.len() - i,
    {
        let c = s[i];
        proof {
            assert(s@.take(i + 1).drop_last() =~= s@.take(i as int));
            assert(s@.take(i + 1).last() == c);
        }
        let ghost before = texts(pieces@).push(current@);
        if c == sep {
            pieces.push(current);
            current = Vec::new();
            assert(texts(pieces@) =~= before);
        } else {
            current.push(c);
            assert(texts(pieces@).push(current@) =~= before.drop_last().push(
                before.last().push(c),
            ));
        }
        i += 1;
    }
    assert(s@.take(s.len() as int) =~= s@);
    let ghost before = texts(pieces@).push(current@);
    pieces.push(current);
    assert(texts(pieces@) =~= before);
    pieces
}

/// Tells whether `piece` is the single character `.`.
fn is_dot(piece: &Vec<char>) -> (dot: bool)
    ensures
        dot == (piece@ == seq!['.']),
{
    if piece.len() == 1 && piece[0] == '.' {
        assert(piece@ =~= seq!['.']);
        true
    } else {
        false
    }
}

/// Tells whether `piece` is `..`.
fn is_dot_dot(piece: &Vec<char>) -> (dots: bool)
    ensures
        dots == (piece@ == seq!['.', '.']),
{
    if piece.len() == 2 && piece[0] == '.' && piece[1] == '.' {
        assert(piece@ =~= seq!['.', '.']);
        true
    } else {
        false
    }
}

/// Splits a path into its components.
pub fn components_of(path: &[char]) -> (parts: Vec<Vec<char>>)
    ensures
        texts(parts@) == components(path@),
{
    let absolute = path.len() > 0 && path[0] == '/';
    let pieces = split_chars(path, '/');
    let mut parts: Vec<Vec<char>> = Vec::new();
    let mut i: usize = 0;
    assert(texts(pieces@.take(0)) =~= Seq::<Seq<char>>::empty());
    while i < pieces.len()
        invariant
            i <= pieces.len(),
            texts(parts@) == kept_pieces(texts(pieces@.take(i as int)), absolute),
        decreases pieces.len() - i,
    {
        let ghost old_parts = parts@;
        let piece = &pieces[i];
        proof {
            assert(texts(pieces@.take(i + 1)).drop_last() =~= texts(pieces@.take(i as int)));
            assert(texts(pieces@.take(i + 1)).last() == piece@);
        }
        let first = parts.len() == 0;
        if piece.len() > 0 && !(is_dot(piece) && (absolute || !first)) {
            parts.push(copy_chars(piece.as_slice()));
            assert(texts(parts@) =~= texts(old_parts).push(piece@));
        }
        i += 1;
    }
    assert(pieces@.take(pieces.len() as int) =~= pieces@);
    parts
}

/// Tells whether the first components of `parts` are those of `prefix`.
pub fn starts_with_parts(parts: &Vec<Vec<char>>, prefix: &Vec<Vec<char>>) -> (starts: bool)
    ensures
        starts == texts(prefix@).is_prefix_of(texts(parts@)),
{
    if prefix.len() > parts.len() {
        return false;
    }
    let mut i: usize = 0;
    while i < prefix.len()
        invariant
            i <= prefix.len() <= parts.len(),
            forall|k: int| 0 <= k < i ==> parts@[k]@ == prefix@[k]@,
        decreases prefix.len() - i,
    {
        if !chars_equal(parts[i].as_slice(), prefix[i].as_slice()) {
            assert(texts(prefix@)[i as int] != texts(parts@)[i as int]);
            return false;
        }
        i += 1;
    }
    assert(texts(prefix@) =~= texts(parts@).subrange(0, prefix.len() as int));
    true
}

/// Tells whether the path's file name starts with a dot.
pub fn is_hidden_path(path: &[char]) -> (hidden: bool)
    ensures
        hidden == is_hidden(path@),
{
    let parts = components_of(path);
    if parts.len() == 0 {
        return false;
    }
    let name = &parts[parts.len() - 1];
    assert(name@ == texts(parts@).last());
    if is_dot(name) || is_dot_dot(name) {
        return false;
    }
    name.len() > 0 && name[0] == '.'
}

/// The path's extension, if it has one.
pub fn extension_of(path: &[char]) -> (ext: Option<Vec<char>>)
    ensures
        ext is Some == extension(path@) is Some,
        ext matches Some(e) ==> Some(e@) == extension(path@),
{
    let parts = components_of(path);
    if parts.len() == 0 {
        return None;
    }
    let name = &parts[parts.len() - 1];
    assert(name@ == texts(parts@).last());
    if is_dot(name) || is_dot_dot(name) {
        return None;
    }
    let mut end: usize = name.len();
    assert(name@.take(name.len() as int) =~= name@);
    while end > 0 && name[end - 1] != '.'
        invariant
            end <= name.len(),
            last_dot(name@) == last_dot(name@.take(end as int)),
        decreases end,
    {
        assert(name@.take(end as int).drop_last() =~= name@.take(end - 1));
        end -= 1;
    }
    assert(name@.take(name.len() as int) =~= name@);
    if end <= 1 {
        assert(last_dot(name@) <= 0);
        return None;
    }
    assert(last_dot(name@) == end - 1);
    let mut ext: Vec<char> = Vec::new();
    let mut i: usize = end;
    while i < name.len()
        invariant
            end <= i <= name.len(),
            ext@ == name@.subrange(end as int, i as int),
        decreases name.len() - i,
    {
        ext.push(name[i]);
        assert(ext@ =~= name@.subrange(end as int, i + 1));
        i += 1;
    }
    assert(ext@ =~= name@.skip(end as int));
    Some(ext)
}

/// Tells whether a path starts at the root.
pub fn path_starts_at_root(path: &[char]) -> (absolute: bool)
    ensures
        absolute == is_absolute(path@),
{
    path.len() > 0 && path[0] == '/'
}

/// The path of the ignore file of the directory `dir`.
pub fn ignore_file_in(dir: &[char]) -> (file: String)
    ensures
        file@ == joined(dir@, ignore_file_name()),
{
    let mut chars = copy_chars(dir);
    if dir.len() > 0 && dir[dir.len() - 1] != '/' {
        chars.push('/');
    }
    chars.push('.');
    chars.push('g');
    chars.push('i');
    chars.push('t');
    chars.push('i');
    chars.push('g');
    chars.push('n');
    chars.push('o');
    chars.push('r');
    chars.push('e');
    assert(chars@ =~= joined(dir@, ignore_file_name()));
    string_of(chars.as_slice())
}

} // verus!
