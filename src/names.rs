//! File names: the extension and the stem, split at the last dot as
//! `std::path::Path` does for a file name.

use vstd::prelude::*;

verus! {

/// Index of the last `'.'` in `s`, or -1 when there is none.
pub open spec fn last_dot(s: Seq<char>) -> int
    decreases s.len(),
{
    if s.len() == 0 {
        -1
    } else if s.last() == '.' {
        s.len() - 1
    } else {
        last_dot(s.drop_last())
    }
}

/// Where the name splits into stem and extension: after the last dot, unless
/// that dot opens the name or the name is `..`.
pub open spec fn ext_dot(name: Seq<char>) -> Option<int> {
    let k = last_dot(name);
    if k <= 0 || name == seq!['.', '.'] {
        None
    } else {
        Some(k)
    }
}

/// The extension of a file name, without its dot.
pub open spec fn ext_of(name: Seq<char>) -> Option<Seq<char>> {
    match ext_dot(name) {
        None => None,
        Some(k) => Some(name.subrange(k + 1, name.len() as int)),
    }
}

/// The file name without its extension and the dot before it.
pub open spec fn stem_of(name: Seq<char>) -> Seq<char> {
    match ext_dot(name) {
        None => name,
        Some(k) => name.subrange(0, k),
    }
}

proof fn lemma_last_dot(s: Seq<char>, k: int)
    requires
        -1 <= k < s.len(),
        k >= 0 ==> s[k] == '.',
        forall|j: int| k < j < s.len() ==> s[j] != '.',
    ensures
        last_dot(s) == k,
    decreases s.len(),
{
    if s.len() > 0 && k < s.len() - 1 {
        let t = s.drop_last();
        assert forall|j: int| k < j < t.len() implies t[j] != '.' by {
            assert(t[j] == s[j]);
        }
        lemma_last_dot(t, k);
    }
}

fn find_ext_dot(name: &str) -> (r: Option<usize>)
    ensures
        match r {
            None => ext_dot(name@) is None,
            Some(k) => ext_dot(name@) == Some(k as int) && k < name@.len(),
        },
{
    let n = name.unicode_len();
    let mut i: usize = n;
    while i > 0 && name.get_char(i - 1) != '.'
        invariant
            i <= n,
            n == name@.len(),
            forall|j: int| i <= j < n ==> name@[j] != '.',
        decreases i,
    {
        i = i - 1;
    }
    proof {
        lemma_last_dot(name@, i - 1);
    }
    if i <= 1 {
        return None;
    }
    if n == 2 {
        if name.get_char(0) == '.' {
            assert(name@ =~= seq!['.', '.']);
            return None;
        }
    }
    proof {
        if name@ == seq!['.', '.'] {
            assert(name@[0] == '.');
        }
    }
    Some(i - 1)
}

/// The extension of `name`, as `Path::extension` splits a file name.
pub fn extension_of(name: &str) -> (r: Option<String>)
    ensures
        match r {
            None => ext_of(name@) is None,
            Some(e) => ext_of(name@) == Some(e@),
        },
{
    match find_ext_dot(name) {
        None => None,
        Some(k) => {
            let n = name.unicode_len();
            Some(String::from_str(name.substring_char(k + 1, n)))
        },
    }
}

/// The stem of `name`, as `Path::file_stem` splits a file name.
pub fn file_stem(name: &str) -> (r: String)
    ensures
        r@ == stem_of(name@),
{
    match find_ext_dot(name) {
        None => String::from_str(name),
        Some(k) => String::from_str(name.substring_char(0, k)),
    }
}

} // verus!
