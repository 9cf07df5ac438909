//! Ordering by text keys: lexicographic comparison of characters (the order
//! of `String`'s `Ord`), and a stable sort that breaks ties by position.

use vstd::prelude::*;

verus! {

/// `a` sorts no later than `b`: character by character, a prefix first.
pub open spec fn chars_le(a: Seq<char>, b: Seq<char>) -> bool
    decreases a.len(),
{
    if a.len() == 0 {
        true
    } else if b.len() == 0 {
        false
    } else if a[0] != b[0] {
        a[0] < b[0]
    } else {
        chars_le(a.drop_first(), b.drop_first())
    }
}

/// Item `i` comes before item `j` when sorted stably by the keys `ks`: a
/// smaller key, or an equal key and an earlier position.
pub open spec fn ranks_before(ks: Seq<Seq<char>>, i: int, j: int) -> bool {
    ||| chars_le(ks[i], ks[j]) && ks[i] != ks[j]
    ||| ks[i] == ks[j] && i < j
}

/// Position `i` occurs in `order`.
pub open spec fn lists(order: Seq<usize>, i: int) -> bool {
    exists|k: int| 0 <= k < order.len() && order[k] == i
}

/// `order` lists the first `n` positions of `ks`, each once, in stable
/// sorted order of their keys.
pub open spec fn is_stable_order(ks: Seq<Seq<char>>, order: Seq<usize>, n: int) -> bool {
    &&& order.len() == n
    &&& forall|k: int| 0 <= k < n ==> order[k] < n
    &&& forall|i: int| 0 <= i < n ==> #[trigger] lists(order, i)
    &&& forall|a: int, b: int|
        0 <= a < b < n ==> ranks_before(ks, #[trigger] order[a] as int, #[trigger] order[b] as int)
}

pub open spec fn key_views(keys: Seq<Vec<char>>) -> Seq<Seq<char>> {
    keys.map_values(|k: Vec<char>| k@)
}

pub proof fn lemma_chars_le_refl(a: Seq<char>)
    ensures
        chars_le(a, a),
    decreases a.len(),
{
    if a.len() > 0 {
        lemma_chars_le_refl(a.drop_first());
    }
}

pub proof fn lemma_chars_le_total(a: Seq<char>, b: Seq<char>)
    ensures
        chars_le(a, b) || chars_le(b, a),
    decreases a.len(),
{
    if a.len() > 0 && b.len() > 0 && a[0] == b[0] {
        lemma_chars_le_total(a.drop_first(), b.drop_first());
    }
}

pub proof fn lemma_chars_le_antisym(a: Seq<char>, b: Seq<char>)
    requires
        chars_le(a, b),
        chars_le(b, a),
    ensures
        a == b,
    decreases a.len(),
{
    if a.len() > 0 {
        lemma_chars_le_antisym(a.drop_first(), b.drop_first());
        assert(a =~= seq![a[0]] + a.drop_first());
        assert(b =~= seq![b[0]] + b.drop_first());
    }
}

pub proof fn lemma_chars_le_trans(a: Seq<char>, b: Seq<char>, c: Seq<char>)
    requires
        chars_le(a, b),
        chars_le(b, c),
    ensures
        chars_le(a, c),
    decreases a.len(),
{
    if a.len() > 0 && b.len() > 0 && c.len() > 0 && a[0] == b[0] && b[0] == c[0] {
        lemma_chars_le_trans(a.drop_first(), b.drop_first(), c.drop_first());
    }
}

/// No item ranks before itself, and of two items at most one ranks first.
pub proof fn lemma_ranks_before_asym(ks: Seq<Seq<char>>, i: int, j: int)
    requires
        ranks_before(ks, i, j),
    ensures
        !ranks_before(ks, j, i),
{
    if ranks_before(ks, j, i) && ks[i] != ks[j] {
        lemma_chars_le_antisym(ks[i], ks[j]);
    }
}

/// The characters of a string, one element each.
pub fn chars_of(s: &str) -> (r: Vec<char>)
    ensures
        r@ == s@,
{
    let n = s.unicode_len();
    let mut r: Vec<char> = Vec::new();
    let mut i: usize = 0;
    while i < n
        invariant
            i <= n,
            n == s@.len(),
            r@ == s@.subrange(0, i as int),
        decreases n - i,
    {
        r.push(s.get_char(i));
        i = i + 1;
        assert(r@ =~= s@.subrange(0, i as int));
    }
    assert(r@ =~= s@);
    r
}

/// Whether `a` sorts no later than `b`.
pub fn chars_le_exec(a: &Vec<char>, b: &Vec<char>) -> (r: bool)
    ensures
        r == chars_le(a@, b@),
{
    let mut i: usize = 0;
    assert(a@.skip(0) =~= a@ && b@.skip(0) =~= b@);
    while i < a.len() && i < b.len() && a[i] == b[i]
        invariant
            i <= a.len(),
            i <= b.len(),
            chars_le(a@, b@) == chars_le(a@.skip(i as int), b@.skip(i as int)),
        decreases a.len() - i,
    {
        assert(a@.skip(i as int).drop_first() =~= a@.skip(i + 1));
        assert(b@.skip(i as int).drop_first() =~= b@.skip(i + 1));
        i = i + 1;
    }
    if i == a.len() {
        true
    } else if i == b.len() {
        false
    } else {
        a[i] < b[i]
    }
}

/// The positions of `keys` in stable sorted order: by key, and among equal
/// keys by position.
pub fn stable_order(keys: &Vec<Vec<char>>) -> (order: Vec<usize>)
    ensures
        is_stable_order(key_views(keys@), order@, keys@.len() as int),
{
    let ghost ks = key_views(keys@);
    let n = keys.len();
    let mut order: Vec<usize> = Vec::new();
    let ghost mut pos: Seq<int> = Seq::empty();
    let mut m: usize = 0;
    while m < n
        invariant
            m <= n,
            n == keys@.len(),
            ks == key_views(keys@),
            order@.len() == m,
            pos.len() == m,
            forall|k: int| 0 <= k < m ==> order@[k] < m,
            forall|i: int| 0 <= i < m ==> 0 <= #[trigger] pos[i] < m && order@[pos[i]] == i,
            forall|a: int, b: int|
                0 <= a < b < m ==> ranks_before(ks, #[trigger] order@[a] as int, #[trigger] order@[b] as int),
        decreases n - m,
    {
        let key = &keys[m];
        let mut p: usize = m;
        while p > 0 && !chars_le_exec(&keys[order[p - 1]], key)
            invariant
                p <= m,
                m < n,
                n == keys@.len(),
                ks == key_views(keys@),
                key@ == ks[m as int],
                order@.len() == m,
                forall|k: int| 0 <= k < m ==> order@[k] < m,
                forall|q: int| p <= q < m ==> !chars_le(ks[#[trigger] order@[q] as int], ks[m as int]),
            decreases p,
        {
            p = p - 1;
        }
        let ghost old_order = order@;
        proof {
            assert forall|a: int| 0 <= a < p implies chars_le(ks[old_order[a] as int], ks[m as int]) by {
                let last = old_order[p - 1] as int;
                if a < p - 1 {
                    let x = old_order[a] as int;
                    assert(ranks_before(ks, x, last));
                    if ks[x] != ks[last] {
                        lemma_chars_le_trans(ks[x], ks[last], ks[m as int]);
                    }
                }
            }
        }
        order.insert(p, m);
        proof {
            let new_order = order@;
            assert(new_order == old_order.insert(p as int, m));
            assert forall|a: int, b: int| 0 <= a < b < m + 1 implies ranks_before(
                ks,
                #[trigger] new_order[a] as int,
                #[trigger] new_order[b] as int,
            ) by {
                if b < p {
                    assert(new_order[a] == old_order[a] && new_order[b] == old_order[b]);
                } else if a > p {
                    assert(new_order[a] == old_order[a - 1] && new_order[b] == old_order[b - 1]);
                } else if a < p && b > p {
                    assert(new_order[a] == old_order[a] && new_order[b] == old_order[b - 1]);
                } else if b == p {
                    assert(new_order[a] == old_order[a]);
                    assert(chars_le(ks[old_order[a] as int], ks[m as int]));
                } else {
                    let y = old_order[b - 1] as int;
                    assert(new_order[b] == y);
                    assert(!chars_le(ks[y], ks[m as int]));
                    lemma_chars_le_total(ks[y], ks[m as int]);
                    lemma_chars_le_refl(ks[m as int]);
                }
            }
            let new_pos = Seq::new(
                (m + 1) as nat,
                |i: int|
                    if i == m {
                        p as int
                    } else if pos[i] < p {
                        pos[i]
                    } else {
                        pos[i] + 1
                    },
            );
            assert forall|i: int| 0 <= i < m + 1 implies 0 <= #[trigger] new_pos[i] < m + 1
                && new_order[new_pos[i]] == i by {
                if i < m {
                    assert(old_order[pos[i]] == i);
                }
            }
            pos = new_pos;
        }
        m = m + 1;
    }
    proof {
        assert forall|i: int| 0 <= i < n implies #[trigger] lists(order@, i) by {
            assert(order@[pos[i]] == i);
        }
    }
    order
}

} // verus!
