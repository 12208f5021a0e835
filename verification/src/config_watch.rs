//! Which file events call for a reload of the configuration.

use vstd::prelude::*;

use crate::text::{same, separators_part_the_pieces, split, split_char, texts};

verus! {

/// The last component of a path.
pub open spec fn file_name(path: Seq<char>) -> Seq<char> {
    split(path, '/').last()
}

/// Whether an event for a path is about the configuration file: its last
/// component is exactly the name of the file, so that hidden files and backups
/// beside it do not count.
pub fn is_relevant_path(path: &str, name: &str) -> (r: bool)
    ensures
        r == (file_name(path@) == name@),
{
    let parts = split_char(path, '/');
    let n: usize = parts.len();
    proof {
        assert(texts(parts@).len() == n);
        assert(texts(parts@).last() == parts@[n - 1]@);
    }
    same(parts[n - 1].as_str(), name)
}

/// A configuration after an attempt to load it anew: the new one where that
/// succeeded, else the one before.
pub fn reloaded<T>(current: T, loaded: Result<T, crate::error::Error>) -> (r: T)
    ensures
        r == (match loaded {
            Ok(c) => c,
            Err(_) => current,
        }),
{
    match loaded {
        Ok(c) => c,
        Err(_) => current,
    }
}

/// A file event is about the configuration exactly if the path is the name of
/// the file, alone or behind a separator.
pub proof fn events_are_told_by_the_last_component(
    dir: Seq<char>,
    last: Seq<char>,
    name: Seq<char>,
)
    requires
        !last.contains('/'),
    ensures
        file_name(dir.push('/') + last) == name <==> last == name,
        file_name(last) == name <==> last == name,
{
    separators_part_the_pieces(last, '/', last);
    separators_part_the_pieces(dir, '/', last);
}

} // verus!
