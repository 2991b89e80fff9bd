//! Finding the repository that a directory belongs to.
use vstd::prelude::*;

verus! {

/// Walks up from a directory to the root of its repository. `dirs` holds the
/// directory and its ancestors, nearest first; `has_git` tells whether one holds
/// a `.git`. Gives the place in `dirs` of the nearest one that does.
pub fn find_repo_root_from<T, F: Fn(&T) -> bool>(dirs: &Vec<T>, has_git: F) -> (r: Option<usize>)
    requires
        forall|dir: &T| call_requires(has_git, (dir,)),
    ensures
        match r {
            Some(k) => {
                &&& k < dirs@.len()
                &&& call_ensures(has_git, (&dirs@[k as int],), true)
                &&& forall|j: int| 0 <= j < k ==> call_ensures(has_git, (&#[trigger] dirs@[j],), false)
            },
            None => forall|j: int| 0 <= j < dirs@.len() ==> call_ensures(has_git, (&#[trigger] dirs@[j],), false),
        },
{
    let n = dirs.len();
    let mut i: usize = 0;
    while i < n
        invariant
            i <= n,
            n == dirs@.len(),
            forall|dir: &T| call_requires(has_git, (dir,)),
            forall|j: int| 0 <= j < i ==> call_ensures(has_git, (&#[trigger] dirs@[j],), false),
        decreases n - i,
    {
        if has_git(&dirs[i]) {
            return Some(i);
        }
        i = i + 1;
    }
    None
}

} // verus!
