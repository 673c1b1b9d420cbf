use vstd::prelude::*;

use crate::tree::{tree_wf, Tree, TreeModel};

verus! {

/// `q` occurs in `s` as a contiguous run.
pub open spec fn contains(s: Seq<u8>, q: Seq<u8>) -> bool {
    exists|i: int| 0 <= i && i + q.len() <= s.len() && #[trigger] s.subrange(i, i + q.len()) == q
}

/// A node name is kept by a query when the query is empty or occurs in the name; case counts.
pub open spec fn name_matches(name: Seq<u8>, q: Seq<u8>) -> bool {
    q.len() == 0 || contains(name, q)
}

/// Node `a` is node `j` or one of its ancestors.
pub open spec fn ancestor_or_self(t: TreeModel, a: int, j: int) -> bool
    decreases j,
{
    j == a || (0 <= j < t.nodes.len() && t.nodes[j].parent is Some && 0 <= t.nodes[j].parent->0 < j
        && ancestor_or_self(t, a, t.nodes[j].parent->0))
}

/// A node is visible when a node of its subtree, itself included, matches the query.
pub open spec fn visible(t: TreeModel, q: Seq<u8>, m: int) -> bool {
    exists|j: int|
        0 <= j < t.nodes.len() && #[trigger] ancestor_or_self(t, m, j) && name_matches(
            t.nodes[j].name,
            q,
        )
}

proof fn lemma_ancestor_of_parent(t: TreeModel, c: int, m: int, j: int)
    requires
        tree_wf(t),
        0 < c < t.nodes.len(),
        t.nodes[c].parent == Some(m),
        ancestor_or_self(t, c, j),
    ensures
        ancestor_or_self(t, m, j),
    decreases j,
{
    assert(t.nodes[c].parent->0 < c);
    assert(ancestor_or_self(t, m, m));
    if j != c {
        lemma_ancestor_of_parent(t, c, m, t.nodes[j].parent->0);
    }
}

proof fn lemma_child_on_path(t: TreeModel, m: int, j: int) -> (c: int)
    requires
        tree_wf(t),
        0 <= m,
        ancestor_or_self(t, m, j),
        j != m,
    ensures
        m < c <= j < t.nodes.len(),
        t.nodes[c].parent == Some(m),
        ancestor_or_self(t, c, j),
    decreases j,
{
    let p = t.nodes[j].parent->0;
    if p == m {
        j
    } else {
        let c = lemma_child_on_path(t, m, p);
        assert(ancestor_or_self(t, c, j));
        c
    }
}

/// Within a tree, a node is visible exactly when its own name matches the query or one of its
/// children is visible.
pub proof fn lemma_visible_unfold(t: TreeModel, q: Seq<u8>, m: int)
    requires
        tree_wf(t),
        0 <= m < t.nodes.len(),
    ensures
        visible(t, q, m) == (name_matches(t.nodes[m].name, q) || exists|c: int|
            m < c < t.nodes.len() && t.nodes[c].parent == Some(m) && #[trigger] visible(t, q, c)),
{
    if name_matches(t.nodes[m].name, q) {
        assert(ancestor_or_self(t, m, m));
    }
    if visible(t, q, m) && !name_matches(t.nodes[m].name, q) {
        let j = choose|j: int|
            0 <= j < t.nodes.len() && #[trigger] ancestor_or_self(t, m, j) && name_matches(
                t.nodes[j].name,
                q,
            );
        let c = lemma_child_on_path(t, m, j);
        assert(visible(t, q, c));
    }
    if exists|c: int|
        m < c < t.nodes.len() && t.nodes[c].parent == Some(m) && #[trigger] visible(t, q, c) {
        let c = choose|c: int|
            m < c < t.nodes.len() && t.nodes[c].parent == Some(m) && #[trigger] visible(t, q, c);
        let j = choose|j: int|
            0 <= j < t.nodes.len() && #[trigger] ancestor_or_self(t, c, j) && name_matches(
                t.nodes[j].name,
                q,
            );
        lemma_ancestor_of_parent(t, c, m, j);
    }
}

/// Whether `q` occurs in `s` at position `i`.
fn occurs_at(s: &Vec<u8>, q: &Vec<u8>, i: usize) -> (r: bool)
    requires
        i + q@.len() <= s@.len(),
    ensures
        r == (s@.subrange(i as int, i + q@.len()) == q@),
{
    let n = q.len();
    let sl = s.len();
    let mut j: usize = 0;
    while j < n
        invariant
            n == q@.len(),
            sl == s@.len(),
            i + n <= s@.len(),
            j <= n,
            forall|l: int| 0 <= l < j ==> s@[i + l] == q@[l],
        decreases n - j,
    {
        if s[i + j] != q[j] {
            assert(s@.subrange(i as int, i + q@.len())[j as int] != q@[j as int]);
            return false;
        }
        j = j + 1;
    }
    assert(s@.subrange(i as int, i + q@.len()) =~= q@);
    true
}

/// Whether `q` occurs in `s`.
pub fn contains_bytes(s: &Vec<u8>, q: &Vec<u8>) -> (r: bool)
    ensures
        r == contains(s@, q@),
{
    let n = s.len();
    let k = q.len();
    if k > n {
        return false;
    }
    if k == 0 {
        assert(s@.subrange(0, 0 + q@.len() as int) =~= q@);
        return true;
    }
    let mut i: usize = 0;
    while i <= n - k
        invariant
            n == s@.len(),
            k == q@.len(),
            1 <= k <= n,
            i <= n - k + 1,
            forall|p: int| 0 <= p < i ==> #[trigger] s@.subrange(p, p + k) != q@,
        decreases n - i,
    {
        if occurs_at(s, q, i) {
            return true;
        }
        i = i + 1;
    }
    false
}

/// Whether a node name is kept by a query.
pub fn name_matches_query(name: &Vec<u8>, query: &Vec<u8>) -> (r: bool)
    ensures
        r == name_matches(name@, query@),
{
    query.len() == 0 || contains_bytes(name, query)
}

/// The visibility of every node of a tree under a query, indexed like the nodes.
pub fn compute_visibility(tree: &Tree, query: &Vec<u8>) -> (r: Vec<bool>)
    requires
        tree.wf(),
    ensures
        r@.len() == tree@.nodes.len(),
        forall|m: int| 0 <= m < r@.len() ==> r@[m] == visible(tree@, query@, m),
{
    let ghost t = tree@;
    let ghost q = query@;
    let n = tree.nodes.len();
    let mut vis: Vec<bool> = Vec::new();
    let mut k: usize = 0;
    while k < n
        invariant
            t == tree@,
            n == t.nodes.len(),
            k <= n,
            q == query@,
            vis@.len() == k,
            forall|m: int| 0 <= m < k ==> vis@[m] == name_matches(t.nodes[m].name, q),
        decreases n - k,
    {
        let b = name_matches_query(&tree.nodes[k].name, query);
        vis.push(b);
        k = k + 1;
    }
    let mut i: usize = n;
    while i > 0
        invariant
            t == tree@,
            q == query@,
            tree_wf(t),
            n == t.nodes.len(),
            i <= n,
            vis@.len() == n,
            forall|m: int| i <= m < n ==> vis@[m] == visible(t, q, m),
            forall|m: int|
                0 <= m < i ==> vis@[m] == (name_matches(t.nodes[m].name, q) || exists|c: int|
                    i <= c < n && t.nodes[c].parent == Some(m) && #[trigger] visible(t, q, c)),
        decreases i,
    {
        i = i - 1;
        let ghost old_vis = vis@;
        proof {
            let ii = i as int;
            lemma_visible_unfold(t, q, ii);
            if vis@[ii] && !name_matches(t.nodes[ii].name, q) {
                let c = choose|c: int|
                    ii + 1 <= c < n && t.nodes[c].parent == Some(ii) && #[trigger] visible(t, q, c);
                assert(ii < c);
            }
            if visible(t, q, ii) && !name_matches(t.nodes[ii].name, q) {
                let c = choose|c: int|
                    ii < c < n && t.nodes[c].parent == Some(ii) && #[trigger] visible(t, q, c);
                assert(ii + 1 <= c);
            }
        }
        if vis[i] {
            match tree.nodes[i].parent {
                Some(p) => {
                    vis.set(p, true);
                    assert(t.nodes[i as int].parent == Some(p as int));
                },
                None => {},
            }
        }
        assert forall|m: int| 0 <= m < i implies vis@[m] == (name_matches(t.nodes[m].name, q)
            || exists|c: int|
            i <= c < n && t.nodes[c].parent == Some(m) && #[trigger] visible(t, q, c)) by {
            if vis@[m] != old_vis[m] {
                assert(t.nodes[i as int].parent == Some(m));
                assert(visible(t, q, i as int));
            }
            if exists|c: int| i <= c < n && t.nodes[c].parent == Some(m) && #[trigger] visible(t, q, c) {
                let c = choose|c: int| i <= c < n && t.nodes[c].parent == Some(m) && #[trigger] visible(t, q, c);
                if c == i {
                    assert(vis@[m]);
                }
            }
        }
        assert forall|m: int| i <= m < n implies vis@[m] == visible(t, q, m) by {
            if m > i {
                assert(vis@[m] == old_vis[m]);
            }
        }
    }
    vis
}

proof fn lemma_contains_trans(s: Seq<u8>, q2: Seq<u8>, q1: Seq<u8>)
    requires
        contains(s, q2),
        contains(q2, q1),
    ensures
        contains(s, q1),
{
    let i = choose|i: int| 0 <= i && i + q2.len() <= s.len() && #[trigger] s.subrange(i, i + q2.len()) == q2;
    let k = choose|k: int| 0 <= k && k + q1.len() <= q2.len() && #[trigger] q2.subrange(k, k + q1.len()) == q1;
    assert(s.subrange(i + k, i + k + q1.len()) =~= q2.subrange(k, k + q1.len()));
}

/// Under the empty query every node is visible.
pub proof fn lemma_empty_query_shows_all(t: TreeModel, q: Seq<u8>, m: int)
    requires
        q.len() == 0,
        0 <= m < t.nodes.len(),
    ensures
        visible(t, q, m),
{
    assert(ancestor_or_self(t, m, m));
}

/// The parent of a visible node is visible, so the whole chain up to the root is.
pub proof fn lemma_visible_parent(t: TreeModel, q: Seq<u8>, c: int)
    requires
        tree_wf(t),
        0 < c < t.nodes.len(),
        visible(t, q, c),
    ensures
        visible(t, q, t.nodes[c].parent->0),
{
    let m = t.nodes[c].parent->0;
    lemma_visible_unfold(t, q, m);
    assert(m < c && t.nodes[c].parent == Some(m));
}

/// A node none of whose subtree matches the query is hidden.
pub proof fn lemma_no_match_hidden(t: TreeModel, q: Seq<u8>, m: int)
    requires
        forall|j: int|
            0 <= j < t.nodes.len() && #[trigger] ancestor_or_self(t, m, j) ==> !name_matches(
                t.nodes[j].name,
                q,
            ),
    ensures
        !visible(t, q, m),
{
}

/// Narrowing a query hides, never shows: a node visible under a query is visible under every
/// query that occurs within it.
pub proof fn lemma_narrower_query(t: TreeModel, q1: Seq<u8>, q2: Seq<u8>, m: int)
    requires
        contains(q2, q1),
        visible(t, q2, m),
    ensures
        visible(t, q1, m),
{
    let j = choose|j: int|
        0 <= j < t.nodes.len() && #[trigger] ancestor_or_self(t, m, j) && name_matches(
            t.nodes[j].name,
            q2,
        );
    if q2.len() == 0 {
        let i = choose|i: int| 0 <= i && i + q1.len() <= q2.len() && #[trigger] q2.subrange(i, i + q1.len()) == q1;
        assert(q1.len() == 0);
    } else if q1.len() > 0 {
        lemma_contains_trans(t.nodes[j].name, q2, q1);
    }
    assert(name_matches(t.nodes[j].name, q1));
}

} // verus!
