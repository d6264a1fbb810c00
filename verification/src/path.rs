//! Paths as texts, with slashes between their components.

use vstd::prelude::*;
use vstd::string::*;

use crate::text::chars_of;

verus! {

/// `name` below `dir`: a slash goes between them unless `dir` is empty or
/// ends in one. An absolute name stands alone.
pub open spec fn joined(dir: Seq<char>, name: Seq<char>) -> Seq<char> {
    if name.len() > 0 && name[0] == '/' {
        name
    } else if dir.len() == 0 || dir.last() == '/' {
        dir + name
    } else {
        dir.push('/') + name
    }
}

/// Puts `name` below `dir`.
pub fn join(dir: &str, name: &str) -> (path: String)
    ensures
        path@ == joined(dir@, name@),
{
    let d = chars_of(dir);
    let n = chars_of(name);
    if n.len() > 0 && n[0] == '/' {
        return name.to_owned();
    }
    let mut path = dir.to_owned();
    if d.len() > 0 && d[d.len() - 1] != '/' {
        path.push('/');
    }
    path.append(name);
    assert(path@ =~= joined(dir@, name@));
    path
}

/// A relative name below a directory begins with the directory and ends with
/// the name, with a slash before the name and no second one put in. It does
/// not matter whether the directory was written with a slash at its end. An
/// absolute name leads away from the directory.
pub proof fn law_joining(dir: Seq<char>, name: Seq<char>)
    ensures
        ({
            let path = joined(dir, name);
            let n = path.len() - name.len();
            &&& n >= 0
            &&& path.skip(n) == name
            &&& name.len() > 0 && name[0] == '/' ==> path == name
            &&& name.len() == 0 || name[0] != '/' ==> {
                &&& dir.len() == 0 ==> n == 0
                &&& dir.len() > 0 ==> dir.len() <= n <= dir.len() + 1 && path.take(dir.len() as int) == dir && path[n - 1]
                    == '/' && (dir.last() == '/' ==> n == dir.len())
                &&& dir.len() > 0 && dir.last() != '/' ==> joined(dir.push('/'), name) == path
            }
        }),
{
    let path = joined(dir, name);
    let n = path.len() - name.len();
    assert(path.skip(n) =~= name);
    if name.len() == 0 || name[0] != '/' {
        if dir.len() > 0 {
            assert(path.take(dir.len() as int) =~= dir);
            if dir.last() == '/' {
                assert(path[n - 1] == dir[n - 1]);
            }
        }
    }
}

} // verus!
