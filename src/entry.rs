//! What the tree walk reports of each entry, and the name rules of the index.

use vstd::prelude::*;
use vstd::string::StrSliceExecFns;

verus! {

/// One entry reported by the tree walk.
pub struct WalkEntry {
    /// The full path of the entry.
    pub path: String,
    /// Its final path component.
    pub name: String,
    /// Whether it is a regular file.
    pub is_file: bool,
}

/// `i` is the position of the last `.` in `name`.
pub open spec fn is_last_dot(name: Seq<char>, i: int) -> bool {
    &&& 0 <= i < name.len()
    &&& name[i] == '.'
    &&& forall|j: int| i < j < name.len() ==> name[j] != '.'
}

/// The extension of a file name: what follows its last `.`, where that is
/// present and not empty.
pub open spec fn extension_of(name: Seq<char>) -> Option<Seq<char>> {
    if exists|i: int| is_last_dot(name, i) {
        let i = choose|i: int| is_last_dot(name, i);
        if i + 1 < name.len() {
            Some(name.subrange(i + 1, name.len() as int))
        } else {
            None
        }
    } else {
        None
    }
}

pub proof fn lemma_last_dot_unique(name: Seq<char>, i: int, j: int)
    requires
        is_last_dot(name, i),
        is_last_dot(name, j),
    ensures
        i == j,
{
    if i < j {
        assert(name[j] != '.');
    } else if j < i {
        assert(name[i] != '.');
    }
}

/// The extension of the file name `name`, without its dot.
pub fn extension(name: &str) -> (r: Option<String>)
    ensures
        match r {
            Some(e) => extension_of(name@) == Some(e@),
            None => extension_of(name@) is None,
        },
{
    let n = name.unicode_len();
    let mut i: usize = n;
    while i > 0
        invariant
            n == name@.len(),
            i <= n,
            forall|j: int| i <= j < n ==> name@[j] != '.',
        decreases i,
    {
        if name.get_char(i - 1) == '.' {
            proof {
                assert(is_last_dot(name@, i - 1));
                let c = choose|c: int| is_last_dot(name@, c);
                lemma_last_dot_unique(name@, c, i - 1);
            }
            if i < n {
                let e = name.substring_char(i, n);
                return Some(e.to_owned());
            } else {
                return None;
            }
        }
        i = i - 1;
    }
    assert(!exists|j: int| is_last_dot(name@, j));
    None
}

} // verus!
