//! File-name extensions: the text after the final dot of a file name.

use vstd::prelude::*;

verus! {

/// Index of the final `.` in `name`, or `-1` when `name` holds none.
pub open spec fn last_dot(name: Seq<char>) -> int
    decreases name.len(),
{
    if name.len() == 0 {
        -1
    } else if name.last() == '.' {
        name.len() - 1
    } else {
        last_dot(name.drop_last())
    }
}

/// The extension of a file name: what follows its final `.`, provided that
/// there is a `.` and that something follows it.
pub open spec fn extension_of(name: Seq<char>) -> Option<Seq<char>> {
    let dot = last_dot(name);
    if 0 <= dot && dot + 1 < name.len() {
        Some(name.skip(dot + 1))
    } else {
        None
    }
}

/// `last_dot` points at a `.` with no `.` behind it, and is `-1` exactly when
/// the name has no `.` at all.
pub proof fn lemma_last_dot(name: Seq<char>)
    ensures
        -1 <= last_dot(name) < name.len(),
        last_dot(name) >= 0 ==> name[last_dot(name)] == '.',
        forall|j: int| last_dot(name) < j < name.len() ==> name[j] != '.',
    decreases name.len(),
{
    if name.len() > 0 && name.last() != '.' {
        let init = name.drop_last();
        lemma_last_dot(init);
        assert forall|j: int| last_dot(name) < j < name.len() implies name[j] != '.' by {
            if j < init.len() {
                assert(init[j] != '.');
            }
        }
    }
}

/// `ext` is a final dot-suffix of `name`: it is not empty, holds no `.`, and
/// `name` ends in a `.` followed by `ext`.
pub open spec fn is_final_suffix(name: Seq<char>, ext: Seq<char>) -> bool {
    &&& ext.len() > 0
    &&& !ext.contains('.')
    &&& name.len() > ext.len()
    &&& name[name.len() - ext.len() - 1] == '.'
    &&& name.skip(name.len() - ext.len()) == ext
}

/// A name has the extension `ext` exactly when `ext` is its final dot-suffix.
/// So a name has at most one extension, and that extension never spans a dot:
/// of `a.tar.gz` only `gz` qualifies, neither `tar` nor `tar.gz`.
pub proof fn lemma_extension_is_final_suffix(name: Seq<char>, ext: Seq<char>)
    ensures
        extension_of(name) == Some(ext) <==> is_final_suffix(name, ext),
{
    lemma_last_dot(name);
    let dot = last_dot(name);
    if is_final_suffix(name, ext) {
        // A final dot behind the one before `ext` would lie inside `ext`.
        let at = name.len() - ext.len() - 1;
        if dot > at {
            assert(ext[dot - at - 1] == name[dot]);
        }
    }
}

/// The extension under which a file of this name is counted: its extension,
/// if that is one of `extensions` (compared exactly, case included).
pub open spec fn media_extension(name: Seq<char>, extensions: Seq<Seq<char>>) -> Option<
    Seq<char>,
> {
    match extension_of(name) {
        Some(ext) => if extensions.contains(ext) {
            Some(ext)
        } else {
            None
        },
        None => None,
    }
}

/// Extracts the extension of `name`.
pub fn file_extension(name: &str) -> (ext: Option<String>)
    ensures
        match ext {
            Some(e) => extension_of(name@) == Some(e@),
            None => extension_of(name@) is None,
        },
{
    let len = name.unicode_len();
    let mut dot: Option<usize> = None;
    let mut n: usize = 0;
    for c in it: name.chars()
        invariant
            it.seq() == name@,
            name@.len() == len,
            n == it.index(),
            match dot {
                Some(d) => d == last_dot(name@.take(n as int)),
                None => last_dot(name@.take(n as int)) == -1,
            },
    {
        assert(name@.take(n + 1).drop_last() == name@.take(n as int));
        if c == '.' {
            dot = Some(n);
        }
        n = n + 1;
    }
    proof {
        assert(name@.take(n as int) == name@);
        lemma_last_dot(name@);
    }
    match dot {
        Some(d) => {
            if d + 1 < n {
                Some(name.substring_char(d + 1, n).to_owned())
            } else {
                None
            }
        },
        None => None,
    }
}

/// Whether `ext` is one of `extensions`.
pub fn is_listed(ext: &String, extensions: &Vec<String>) -> (listed: bool)
    ensures
        listed == extensions.deep_view().contains(ext@),
{
    let mut i: usize = 0;
    while i < extensions.len()
        invariant
            i <= extensions.len(),
            forall|j: int| 0 <= j < i ==> extensions.deep_view()[j] != ext@,
        decreases extensions.len() - i,
    {
        if extensions[i] == *ext {
            assert(extensions.deep_view()[i as int] == ext@);
            return true;
        }
        i = i + 1;
    }
    false
}

/// Classifies a file by its name: the extension under which it is counted,
/// or `None` when the file is not a media file.
pub fn classify(name: &str, extensions: &Vec<String>) -> (found: Option<String>)
    ensures
        match found {
            Some(ext) => media_extension(name@, extensions.deep_view()) == Some(ext@),
            None => media_extension(name@, extensions.deep_view()) is None,
        },
{
    match file_extension(name) {
        Some(ext) => if is_listed(&ext, extensions) {
            Some(ext)
        } else {
            None
        },
        None => None,
    }
}

} // verus!
