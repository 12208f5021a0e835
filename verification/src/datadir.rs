//! Persistent data root resolution.
//!
//! Priority: `DATA_DIR` (absolute only), then `/data` (hub default).

use vstd::prelude::*;

use crate::text::{ends_with, starts_with};

verus! {

/// The root where the environment names none.
pub const DEFAULT_ROOT: &'static str = "/data";

/// The name of the environment variable that sets the root.
pub const ENV_DATA_DIR: &'static str = "DATA_DIR";

/// The data root: the configured directory if it is absolute, else the default.
pub open spec fn root_of(data_dir: Option<Seq<char>>) -> Seq<char> {
    match data_dir {
        Some(d) if d.len() > 0 && d[0] == '/' => d,
        _ => DEFAULT_ROOT@,
    }
}

/// A path below a directory: one separator between the two.
pub open spec fn below(dir: Seq<char>, part: Seq<char>) -> Seq<char> {
    if dir.len() == 0 || dir.last() == '/' {
        dir + part
    } else {
        dir + "/"@ + part
    }
}

/// The data root, given the value of `DATA_DIR`.
pub fn root(data_dir: Option<&str>) -> (r: String)
    ensures
        r@ == root_of(
            match data_dir {
                Some(d) => Some(d@),
                None => None,
            },
        ),
{
    proof {
        reveal_strlit("/");
    }
    match data_dir {
        Some(d) => {
            if starts_with(d, "/") {
                proof {
                    assert(d@.take(1)[0] == '/');
                }
                return d.to_owned();
            }
            proof {
                if d@.len() > 0 && d@[0] == '/' {
                    assert(d@.take(1) =~= "/"@);
                }
            }
        },
        None => {},
    }
    DEFAULT_ROOT.to_owned()
}

/// A path below a directory.
pub fn join(dir: &str, part: &str) -> (r: String)
    ensures
        r@ == below(dir@, part@),
{
    proof {
        reveal_strlit("/");
    }
    let mut out = dir.to_owned();
    if dir.is_empty() {
    } else if ends_with(dir, "/") {
        proof {
            assert(dir@.skip(dir@.len() - 1)[0] == '/');
        }
    } else {
        proof {
            if dir@.last() == '/' {
                assert(dir@.skip(dir@.len() - 1) =~= "/"@);
            }
        }
        out.append("/");
    }
    out.append(part);
    out
}

/// The path of a file in a directory of the data root.
pub fn path(root: &str, dir: &str, file: &str) -> (r: String)
    ensures
        r@ == below(below(root@, dir@), file@),
{
    join(join(root, dir).as_str(), file)
}

/// The root is the configured directory where that is absolute, and `/data`
/// otherwise.
pub proof fn root_is_absolute(dir: Seq<char>)
    ensures
        root_of(Some(seq!['/'] + dir)) == seq!['/'] + dir,
        dir.len() > 0 && dir[0] != '/' ==> root_of(Some(dir)) == "/data"@,
        root_of(Some(Seq::empty())) == "/data"@,
        root_of(None) == "/data"@,
{
}

/// There is exactly one separator between a directory and what is below it.
pub proof fn paths_have_one_separator(dir: Seq<char>, part: Seq<char>)
    requires
        dir.len() > 0,
        dir.last() != '/',
    ensures
        below(dir, part) == dir + seq!['/'] + part,
        below(dir.push('/'), part) == dir + seq!['/'] + part,
{
    reveal_strlit("/");
    assert(below(dir, part) =~= dir + seq!['/'] + part);
    assert(below(dir.push('/'), part) =~= dir + seq!['/'] + part);
}

} // verus!
