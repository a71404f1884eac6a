//! Which entries of a directory are drawings: the files, not the
//! directories, whose name has the extension `dxf`, in small or capital
//! letters.

use crate::chars::chars_of;
use crate::rows::{lemma_filter_push, lemma_map_push};
use vstd::prelude::*;

verus! {

/// Whether the last dot of `name` stands at position `at`.
pub open spec fn is_last_dot(name: Seq<char>, at: int) -> bool {
    &&& 0 <= at < name.len()
    &&& name[at] == '.'
    &&& forall|j: int| at < j < name.len() ==> name[j] != '.'
}

/// Whether `name` has an extension that begins behind position `at`: its
/// last dot stands there, and not at the very front of the name.
pub open spec fn splits_at(name: Seq<char>, at: int) -> bool {
    0 < at && is_last_dot(name, at) && name != seq!['.', '.']
}

/// The extension of a file name: what follows its last dot. A name without
/// a dot has none, nor has one whose only dot stands at its front, nor the
/// name `..` of the parent directory.
pub open spec fn extension_of(name: Seq<char>) -> Option<Seq<char>> {
    if exists|at: int| splits_at(name, at) {
        Some(name.skip((choose|at: int| splits_at(name, at)) + 1))
    } else {
        None
    }
}

/// The small letter for a capital letter of the Latin alphabet; any other
/// character as it is.
pub open spec fn lower(c: char) -> char {
    if 'A' <= c && c <= 'Z' {
        (c as int + 32) as char
    } else {
        c
    }
}

/// `s` with small letters for its capital letters.
pub open spec fn lowercase(s: Seq<char>) -> Seq<char> {
    s.map_values(|c: char| lower(c))
}

/// Whether `name` is the name of a drawing: its extension, in small
/// letters, is `dxf`.
pub open spec fn is_dxf_name(name: Seq<char>) -> bool {
    match extension_of(name) {
        Some(extension) => lowercase(extension) == seq!['d', 'x', 'f'],
        None => false,
    }
}

/// A name has its last dot in one place only.
pub proof fn lemma_last_dot_is_unique(name: Seq<char>, a: int, b: int)
    requires
        is_last_dot(name, a),
        is_last_dot(name, b),
    ensures
        a == b,
{
}

/// The extension of a name whose last dot is known.
pub proof fn lemma_extension_at(name: Seq<char>, at: int)
    requires
        is_last_dot(name, at),
    ensures
        extension_of(name) == if 0 < at && name != seq!['.', '.'] {
            Some(name.skip(at + 1))
        } else {
            None
        },
{
    if 0 < at && name != seq!['.', '.'] {
        assert(splits_at(name, at));
        let chosen = choose|at: int| splits_at(name, at);
        lemma_last_dot_is_unique(name, at, chosen);
    } else {
        assert forall|other: int| !splits_at(name, other) by {
            if is_last_dot(name, other) {
                lemma_last_dot_is_unique(name, at, other);
            }
        }
    }
}

/// A name is a drawing's exactly if it ends in a dot and the letters
/// `d`, `x`, `f`, each small or capital, with something before the dot.
pub proof fn lemma_dxf_name_shape(name: Seq<char>)
    ensures
        is_dxf_name(name) <==> {
            let n = name.len() as int;
            &&& n >= 5
            &&& name[n - 4] == '.'
            &&& (name[n - 3] == 'd' || name[n - 3] == 'D')
            &&& (name[n - 2] == 'x' || name[n - 2] == 'X')
            &&& (name[n - 1] == 'f' || name[n - 1] == 'F')
        },
{
    let n = name.len() as int;
    let dxf = seq!['d', 'x', 'f'];
    if is_dxf_name(name) {
        let at = choose|at: int| splits_at(name, at);
        let extension = name.skip(at + 1);
        assert(lowercase(extension).len() == 3);
    }
    if n >= 5 && name[n - 4] == '.' && (name[n - 3] == 'd' || name[n - 3] == 'D') && (name[n - 2]
        == 'x' || name[n - 2] == 'X') && (name[n - 1] == 'f' || name[n - 1] == 'F') {
        lemma_extension_at(name, n - 4);
        let extension = name.skip(n - 3);
        assert(lowercase(extension) =~= dxf);
    }
}

/// Whether `name` is the name of a drawing: its extension is `dxf`, in
/// small or capital letters.
pub fn has_dxf_extension(name: &str) -> (is_drawing: bool)
    ensures
        is_drawing == is_dxf_name(name@),
{
    let chars = chars_of(name);
    let n = chars.len();
    proof {
        lemma_dxf_name_shape(name@);
    }
    n >= 5 && chars[n - 4] == '.' && (chars[n - 3] == 'd' || chars[n - 3] == 'D') && (chars[n - 2]
        == 'x' || chars[n - 2] == 'X') && (chars[n - 1] == 'f' || chars[n - 1] == 'F')
}

/// Whether a file name, if there is one, is that of a drawing.
pub open spec fn names_drawing(name: Option<String>) -> bool {
    match name {
        Some(name) => is_dxf_name(name@),
        None => false,
    }
}

/// Whether an entry of a directory is a drawing: it is no directory, and
/// it has a name with the extension `dxf`.
pub open spec fn is_dxf_entry<P>(entry: (P, Option<String>, bool)) -> bool {
    !entry.2 && names_drawing(entry.1)
}

/// The path of an entry and its name, without the mark of a directory.
pub open spec fn path_and_name<P>(entry: (P, Option<String>, bool)) -> (P, Option<String>) {
    (entry.0, entry.1)
}

/// Whether an entry of a directory is a drawing, given its file name, if
/// it has one, and whether it is a directory: a drawing is no directory and
/// has a name with the extension `dxf`, in small or capital letters.
pub fn is_dxf_file(name: &Option<String>, is_dir: bool) -> (is_drawing: bool)
    ensures
        is_drawing == (!is_dir && names_drawing(*name)),
{
    if is_dir {
        false
    } else {
        match name {
            Some(name) => has_dxf_extension(name.as_str()),
            None => false,
        }
    }
}

/// The drawings among the entries of a directory.
///
/// An entry is given as whatever stands for its path, its file name if it
/// has one, and whether it is a directory. The result holds exactly the
/// entries that are no directory and whose name has the extension `dxf`,
/// in the order in which they were given, each as its path and name.
pub fn list_dxf_files<P>(entries: Vec<(P, Option<String>, bool)>) -> (dxf_files: Vec<
    (P, Option<String>),
>)
    ensures
        dxf_files@ == entries@.filter(|entry: (P, Option<String>, bool)| is_dxf_entry(entry))
            .map_values(|entry: (P, Option<String>, bool)| path_and_name(entry)),
{
    let ghost keep = |entry: (P, Option<String>, bool)| is_dxf_entry(entry);
    let ghost strip = |entry: (P, Option<String>, bool)| path_and_name(entry);
    let mut dxf_files: Vec<(P, Option<String>)> = Vec::new();
    proof {
        reveal(Seq::filter);
        assert(entries@.take(0).filter(keep).map_values(strip) =~= dxf_files@);
    }
    for entry in it: entries.into_iter()
        invariant
            it.seq() == entries@,
            keep == |entry: (P, Option<String>, bool)| is_dxf_entry(entry),
            strip == |entry: (P, Option<String>, bool)| path_and_name(entry),
            dxf_files@ == entries@.take(it.index() as int).filter(keep).map_values(strip),
    {
        proof {
            let k = it.index() as int;
            assert(entries@.take(k + 1) == entries@.take(k).push(entry));
            lemma_filter_push(entries@.take(k), entry, keep);
            lemma_map_push(entries@.take(k).filter(keep), entry, strip);
        }
        let (path, name, is_dir) = entry;
        if is_dxf_file(&name, is_dir) {
            dxf_files.push((path, name));
        }
    }
    proof {
        assert(entries@.take(entries@.len() as int) == entries@);
    }
    dxf_files
}

} // verus!
