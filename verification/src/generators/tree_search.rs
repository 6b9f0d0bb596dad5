use vstd::prelude::*;

verus! {

/// Adjacency lists over the nodes `1..=n` (list 0 unused): every entry is a
/// node other than the list's owner, no list repeats an entry, and no list
/// is longer than `cap`.
pub open spec fn lists_ok(adj: Seq<Seq<usize>>, n: nat, cap: nat) -> bool {
    &&& adj.len() == n + 1
    &&& forall|u: int, k: int| 0 <= u <= n && 0 <= k < adj[u].len() ==>
        1 <= #[trigger] adj[u][k] <= n && adj[u][k] != u
    &&& forall|u: int| 0 <= u <= n ==> (#[trigger] adj[u]).no_duplicates()
    &&& forall|u: int| 0 <= u <= n ==> (#[trigger] adj[u]).len() <= cap
}

/// The contents of each list.
pub open spec fn list_views(adj: Seq<Vec<usize>>) -> Seq<Seq<usize>> {
    Seq::new(adj.len(), |u: int| adj[u]@)
}

/// Step `i` of `p` follows a list entry: `p[i + 1]` is in the list of `p[i]`.
pub open spec fn list_step(adj: Seq<Seq<usize>>, p: Seq<usize>, i: int) -> bool {
    &&& p[i] < adj.len()
    &&& adj[p[i] as int].contains(p[i + 1])
}

/// `p` is a walk along the lists.
pub open spec fn is_list_walk(adj: Seq<Seq<usize>>, p: Seq<usize>) -> bool {
    &&& p.len() >= 1
    &&& forall|i: int| 0 <= i < p.len() - 1 ==> #[trigger] list_step(adj, p, i)
}

/// Node `b` can be reached from node `a` along the lists.
pub open spec fn list_reaches(adj: Seq<Seq<usize>>, a: usize, b: usize) -> bool {
    exists|p: Seq<usize>| #[trigger] is_list_walk(adj, p) && p[0] == a && p.last() == b
}

pub(crate) proof fn lemma_list_reaches_refl(adj: Seq<Seq<usize>>, a: usize)
    ensures
        list_reaches(adj, a, a),
{
    assert(is_list_walk(adj, seq![a]));
}

pub(crate) proof fn lemma_list_reaches_step(adj: Seq<Seq<usize>>, a: usize, b: usize, c: usize)
    requires
        list_reaches(adj, a, b),
        b < adj.len(),
        adj[b as int].contains(c),
    ensures
        list_reaches(adj, a, c),
{
    let p = choose|p: Seq<usize>| #[trigger] is_list_walk(adj, p) && p[0] == a && p.last() == b;
    let q = p.push(c);
    assert forall|i: int| 0 <= i < q.len() - 1 implies #[trigger] list_step(adj, q, i) by {
        if i < p.len() - 1 {
            assert(list_step(adj, p, i));
        }
    }
    assert(is_list_walk(adj, q));
}

pub(crate) proof fn lemma_list_reaches_trans(adj: Seq<Seq<usize>>, a: usize, b: usize, c: usize)
    requires
        list_reaches(adj, a, b),
        list_reaches(adj, b, c),
    ensures
        list_reaches(adj, a, c),
{
    let p = choose|p: Seq<usize>| #[trigger] is_list_walk(adj, p) && p[0] == a && p.last() == b;
    let r = choose|r: Seq<usize>| #[trigger] is_list_walk(adj, r) && r[0] == b && r.last() == c;
    let q = p + r.skip(1);
    assert forall|i: int| 0 <= i < q.len() - 1 implies #[trigger] list_step(adj, q, i) by {
        if i < p.len() - 1 {
            assert(list_step(adj, p, i));
        } else {
            let j = i - (p.len() - 1);
            assert(list_step(adj, r, j));
            if j == 0 {
                assert(q[i] == p.last());
            } else {
                assert(q[i] == r[j]);
            }
            assert(q[i + 1] == r[j + 1]);
        }
    }
    if r.len() == 1 {
        assert(q.last() == p.last());
    } else {
        assert(q.last() == r.last());
    }
    assert(is_list_walk(adj, q));
}

/// Lists that only gained entries keep every walk.
pub(crate) proof fn lemma_list_reaches_grow(adj: Seq<Seq<usize>>, more: Seq<Seq<usize>>, a: usize, b: usize)
    requires
        list_reaches(adj, a, b),
        adj.len() == more.len(),
        forall|x: int, y: usize| 0 <= x < adj.len() && #[trigger] adj[x].contains(y) ==> more[x].contains(y),
    ensures
        list_reaches(more, a, b),
{
    let p = choose|p: Seq<usize>| #[trigger] is_list_walk(adj, p) && p[0] == a && p.last() == b;
    assert forall|i: int| 0 <= i < p.len() - 1 implies #[trigger] list_step(more, p, i) by {
        assert(list_step(adj, p, i));
    }
    assert(is_list_walk(more, p));
}

/// Number of entries in all the lists together.
pub open spec fn entry_count(ls: Seq<Seq<usize>>) -> nat
    decreases ls.len(),
{
    if ls.len() == 0 {
        0
    } else {
        entry_count(ls.drop_last()) + ls.last().len()
    }
}

pub(crate) proof fn lemma_entry_count_update(ls: Seq<Seq<usize>>, i: int, x: Seq<usize>)
    requires
        0 <= i < ls.len(),
    ensures
        entry_count(ls.update(i, x)) + ls[i].len() == entry_count(ls) + x.len(),
    decreases ls.len(),
{
    let u = ls.update(i, x);
    if i == ls.len() - 1 {
        assert(u.drop_last() =~= ls.drop_last());
    } else {
        lemma_entry_count_update(ls.drop_last(), i, x);
        assert(u.drop_last() =~= ls.drop_last().update(i, x));
    }
}

pub(crate) proof fn lemma_entry_count_lens(a: Seq<Seq<usize>>, b: Seq<Seq<usize>>)
    requires
        a.len() == b.len(),
        forall|i: int| 0 <= i < a.len() ==> (#[trigger] a[i]).len() == b[i].len(),
    ensures
        entry_count(a) == entry_count(b),
    decreases a.len(),
{
    if a.len() > 0 {
        lemma_entry_count_lens(a.drop_last(), b.drop_last());
    }
}

pub(crate) proof fn lemma_entry_count_empty(ls: Seq<Seq<usize>>)
    requires
        forall|i: int| 0 <= i < ls.len() ==> (#[trigger] ls[i]).len() == 0,
    ensures
        entry_count(ls) == 0,
    decreases ls.len(),
{
    if ls.len() > 0 {
        lemma_entry_count_empty(ls.drop_last());
    }
}

/// The lists of a tree on the nodes `1..=m` that grew by attaching each
/// node `x >= 2` to an earlier node `parent[x]`: `u` lists `v` exactly when
/// one of them is the other's parent. Nodes above `m` have empty lists.
pub open spec fn tree_of_parents(ls: Seq<Seq<usize>>, parent: Seq<usize>, m: nat) -> bool {
    &&& parent.len() == ls.len()
    &&& m < ls.len()
    &&& parent[0] == 0
    &&& (m >= 1 ==> parent[1] == 0)
    &&& forall|x: int| 2 <= x <= m ==> 1 <= #[trigger] parent[x] < x
    &&& forall|u: int, v: usize| 0 <= u < ls.len() ==>
        (#[trigger] ls[u].contains(v) <==> (
            (1 <= u <= m && 2 <= v <= m && parent[v as int] == u)
            || (2 <= u <= m && parent[u] == v)))
}

/// `a` lies on the way from `x` up the parents (`x` itself included).
pub open spec fn is_ancestor(parent: Seq<usize>, a: usize, x: usize) -> bool
    decreases x,
{
    if x == a {
        true
    } else if 2 <= x < parent.len() && parent[x as int] < x {
        is_ancestor(parent, a, parent[x as int])
    } else {
        false
    }
}

/// The node whose parent is `a` on the way up from `x` to `a`.
pub open spec fn child_toward(parent: Seq<usize>, a: usize, x: usize) -> usize
    decreases x,
{
    if 2 <= x < parent.len() && parent[x as int] < x {
        if parent[x as int] == a {
            x
        } else {
            child_toward(parent, a, parent[x as int])
        }
    } else {
        0
    }
}

/// The parent of `u` once the tree hangs from `root` (0 for the root).
pub open spec fn tree_parent(parent: Seq<usize>, root: usize, u: usize) -> usize {
    if u == root {
        0
    } else if is_ancestor(parent, u, root) {
        child_toward(parent, u, root)
    } else {
        parent[u as int]
    }
}

/// Keeps the entries other than `p`.
pub open spec fn other_than(p: usize) -> spec_fn(usize) -> bool {
    |v: usize| v != p
}

/// The tree hung from `root`: each node keeps, in list order, its
/// neighbours other than its parent. A depth-first search from `root` that
/// takes neighbours in list order finds exactly these children.
pub open spec fn oriented_lists(ls: Seq<Seq<usize>>, parent: Seq<usize>, root: usize) -> Seq<Seq<usize>> {
    Seq::new(ls.len(), |u: int| ls[u].filter(other_than(tree_parent(parent, root, u as usize))))
}

pub(crate) proof fn lemma_filter_without(s: Seq<usize>, p: usize)
    requires
        s.no_duplicates(),
    ensures
        s.filter(other_than(p)).len() + (if s.contains(p) { 1int } else { 0int }) == s.len(),
        s.filter(other_than(p)).no_duplicates(),
        forall|x: usize| #[trigger] s.filter(other_than(p)).contains(x) <==> (s.contains(x) && x != p),
    decreases s.len(),
{
    let f = other_than(p);
    if s.len() == 0 {
        reveal(Seq::filter);
        assert(s.filter(f) =~= s);
    } else {
        let t = s.drop_last();
        let x = s.last();
        assert(t.push(x) =~= s);
        assert(t.no_duplicates());
        lemma_filter_without(t, p);
        t.lemma_filter_push(x, f);
        assert(!t.contains(x)) by {
            if t.contains(x) {
                let k = choose|k: int| 0 <= k < t.len() && t[k] == x;
                assert(s[k] == s[s.len() - 1]);
            }
        }
        assert(s.contains(p) <==> (t.contains(p) || x == p)) by {
            if s.contains(p) && x != p {
                let k = choose|k: int| 0 <= k < s.len() && s[k] == p;
                assert(t[k] == p);
            }
            if t.contains(p) {
                let k = choose|k: int| 0 <= k < t.len() && t[k] == p;
                assert(s[k] == p);
            }
        }
        assert forall|y: usize| #[trigger] s.filter(f).contains(y) <==> (s.contains(y) && y != p) by {
            if s.contains(y) && y != x {
                let k = choose|k: int| 0 <= k < s.len() && s[k] == y;
                assert(t[k] == y);
            }
            if t.contains(y) {
                let k = choose|k: int| 0 <= k < t.len() && t[k] == y;
                assert(s[k] == y);
            }
            if f(x) {
                assert(t.filter(f).push(x).last() == x);
                if t.filter(f).push(x).contains(y) && y != x {
                    let k = choose|k: int| 0 <= k < t.filter(f).push(x).len() && t.filter(f).push(x)[k] == y;
                    assert(t.filter(f)[k] == y);
                }
                if t.filter(f).contains(y) {
                    let k = choose|k: int| 0 <= k < t.filter(f).len() && t.filter(f)[k] == y;
                    assert(t.filter(f).push(x)[k] == y);
                }
            }
        }
        if f(x) {
            let g = t.filter(f).push(x);
            assert(!t.filter(f).contains(x));
            assert forall|a: int, b: int| 0 <= a < g.len() && 0 <= b < g.len() && a != b implies g[a] != g[b] by {
                if a < g.len() - 1 && b < g.len() - 1 {
                    assert(g[a] == t.filter(f)[a] && g[b] == t.filter(f)[b]);
                } else if a < g.len() - 1 {
                    assert(g[a] == t.filter(f)[a]);
                    assert(t.filter(f).contains(g[a]));
                } else {
                    assert(g[b] == t.filter(f)[b]);
                    assert(t.filter(f).contains(g[b]));
                }
            }
        }
    }
}

pub(crate) proof fn lemma_ancestor_step(parent: Seq<usize>, x: usize)
    requires
        2 <= x < parent.len(),
        parent[x as int] < x,
    ensures
        is_ancestor(parent, parent[x as int], x),
{
    assert(is_ancestor(parent, parent[x as int], parent[x as int]));
}

pub(crate) proof fn lemma_ancestor_trans(parent: Seq<usize>, a: usize, b: usize, c: usize)
    requires
        is_ancestor(parent, a, b),
        is_ancestor(parent, b, c),
    ensures
        is_ancestor(parent, a, c),
    decreases c,
{
    if c != b {
        lemma_ancestor_trans(parent, a, b, parent[c as int]);
    }
}

pub(crate) proof fn lemma_ancestor_below(parent: Seq<usize>, a: usize, x: usize)
    requires
        is_ancestor(parent, a, x),
    ensures
        a <= x,
    decreases x,
{
    if x != a {
        lemma_ancestor_below(parent, a, parent[x as int]);
    }
}

pub(crate) proof fn lemma_child_toward(parent: Seq<usize>, a: usize, x: usize)
    requires
        is_ancestor(parent, a, x),
        a != x,
    ensures
        2 <= child_toward(parent, a, x) < parent.len(),
        parent[child_toward(parent, a, x) as int] == a,
        a < child_toward(parent, a, x),
        is_ancestor(parent, child_toward(parent, a, x), x),
    decreases x,
{
    if parent[x as int] != a {
        lemma_child_toward(parent, a, parent[x as int]);
        let y = child_toward(parent, a, parent[x as int]);
        lemma_ancestor_step(parent, x);
        lemma_ancestor_trans(parent, y, parent[x as int], x);
    }
}

/// Going up one step from a node `c` on the way up from `x`.
pub(crate) proof fn lemma_child_toward_parent(parent: Seq<usize>, c: usize, x: usize)
    requires
        is_ancestor(parent, c, x),
        2 <= c < parent.len(),
        parent[c as int] < c,
    ensures
        is_ancestor(parent, parent[c as int], x),
        child_toward(parent, parent[c as int], x) == c,
    decreases x,
{
    lemma_ancestor_step(parent, c);
    lemma_ancestor_trans(parent, parent[c as int], c, x);
    if x != c {
        lemma_child_toward_parent(parent, c, parent[x as int]);
        lemma_ancestor_below(parent, c, parent[x as int]);
    }
}

pub(crate) proof fn lemma_one_is_ancestor(ls: Seq<Seq<usize>>, parent: Seq<usize>, n: nat, x: usize)
    requires
        tree_of_parents(ls, parent, n),
        1 <= x <= n,
    ensures
        is_ancestor(parent, 1, x),
    decreases x,
{
    if x >= 2 {
        lemma_one_is_ancestor(ls, parent, n, parent[x as int]);
    }
}

/// What the parent of each node is, once the tree hangs from `root`.
pub(crate) proof fn lemma_tree_parent_facts(ls: Seq<Seq<usize>>, parent: Seq<usize>, n: nat, root: usize, u: usize)
    requires
        tree_of_parents(ls, parent, n),
        ls.len() == n + 1,
        1 <= root <= n,
        1 <= u <= n,
    ensures
        u != root ==> ls[u as int].contains(tree_parent(parent, root, u)),
        u == root ==> !ls[u as int].contains(tree_parent(parent, root, u)),
        u >= 2 && is_ancestor(parent, u, root) ==> ls[u as int].contains(parent[u as int])
            && tree_parent(parent, root, u) != parent[u as int],
        u >= 2 && !is_ancestor(parent, u, root) ==> ls[parent[u as int] as int].contains(u)
            && tree_parent(parent, root, parent[u as int]) != u,
{
    if u != root {
        if is_ancestor(parent, u, root) {
            lemma_child_toward(parent, u, root);
            let y = child_toward(parent, u, root);
            assert(ls[u as int].contains(y));
        } else {
            if u == 1 {
                lemma_one_is_ancestor(ls, parent, n, root);
            }
            assert(ls[u as int].contains(parent[u as int]));
        }
    } else {
        if ls[u as int].contains(0) {
        }
    }
    if u >= 2 && is_ancestor(parent, u, root) {
        assert(ls[u as int].contains(parent[u as int]));
        if u != root {
            lemma_child_toward(parent, u, root);
        }
    }
    if u >= 2 && !is_ancestor(parent, u, root) {
        let p = parent[u as int];
        assert(ls[p as int].contains(u));
        if p == root {
        } else if is_ancestor(parent, p, root) {
            lemma_child_toward(parent, p, root);
            let y = child_toward(parent, p, root);
            if y == u {
                assert(is_ancestor(parent, u, root));
            }
        } else {
            if p == 1 {
                lemma_one_is_ancestor(ls, parent, n, root);
            }
        }
    }
}

/// Each node `u` keeps its neighbours other than its parent.
pub open spec fn keeps_children(o: Seq<Seq<usize>>, ls: Seq<Seq<usize>>, parent: Seq<usize>, root: usize, u: int) -> bool {
    forall|v: usize| #[trigger] o[u].contains(v) <==> (ls[u].contains(v) && v != tree_parent(parent, root, u as usize))
}

/// Every node can be reached from the root in the hung tree.
pub(crate) proof fn lemma_oriented_reach_chain(ls: Seq<Seq<usize>>, parent: Seq<usize>, o: Seq<Seq<usize>>, n: nat, root: usize, y: usize)
    requires
        tree_of_parents(ls, parent, n),
        ls.len() == n + 1,
        o.len() == ls.len(),
        forall|u: int| 0 <= u < ls.len() ==> #[trigger] keeps_children(o, ls, parent, root, u),
        1 <= root <= n,
        1 <= y <= n,
        is_ancestor(parent, y, root),
        list_reaches(o, root, y),
    ensures
        forall|a: usize| #[trigger] is_ancestor(parent, a, y) ==> list_reaches(o, root, a),
    decreases y,
{
    if y >= 2 {
        let p = parent[y as int];
        lemma_tree_parent_facts(ls, parent, n, root, y);
        assert(keeps_children(o, ls, parent, root, y as int));
        assert(o[y as int].contains(p));
        lemma_list_reaches_step(o, root, y, p);
        lemma_ancestor_step(parent, y);
        lemma_ancestor_trans(parent, p, y, root);
        lemma_oriented_reach_chain(ls, parent, o, n, root, p);
        assert forall|a: usize| #[trigger] is_ancestor(parent, a, y) implies list_reaches(o, root, a) by {
            if a != y {
                assert(is_ancestor(parent, a, p));
            }
        }
    } else {
        assert forall|a: usize| #[trigger] is_ancestor(parent, a, y) implies list_reaches(o, root, a) by {
            assert(a == y);
        }
    }
}

pub(crate) proof fn lemma_oriented_reach(ls: Seq<Seq<usize>>, parent: Seq<usize>, o: Seq<Seq<usize>>, n: nat, root: usize, x: usize)
    requires
        tree_of_parents(ls, parent, n),
        ls.len() == n + 1,
        o.len() == ls.len(),
        forall|u: int| 0 <= u < ls.len() ==> #[trigger] keeps_children(o, ls, parent, root, u),
        1 <= root <= n,
        1 <= x <= n,
    ensures
        list_reaches(o, root, x),
    decreases x,
{
    if is_ancestor(parent, x, root) {
        lemma_list_reaches_refl(o, root);
        lemma_oriented_reach_chain(ls, parent, o, n, root, root);
    } else {
        if x == 1 {
            lemma_one_is_ancestor(ls, parent, n, root);
        }
        let p = parent[x as int];
        lemma_oriented_reach(ls, parent, o, n, root, p);
        lemma_tree_parent_facts(ls, parent, n, root, x);
        assert(keeps_children(o, ls, parent, root, p as int));
        lemma_list_reaches_step(o, root, p, x);
    }
}

/// All lists but the root's lose one entry.
pub(crate) proof fn lemma_entry_count_less_one(a: Seq<Seq<usize>>, b: Seq<Seq<usize>>, r: int)
    requires
        a.len() == b.len(),
        a.len() >= 1,
        1 <= r,
        a[0].len() == b[0].len(),
        forall|u: int| 1 <= u < a.len() && u != r ==> (#[trigger] a[u]).len() + 1 == b[u].len(),
        r < a.len() ==> a[r].len() == b[r].len(),
    ensures
        entry_count(a) + (a.len() - 1) - (if r < a.len() { 1int } else { 0int }) == entry_count(b),
    decreases a.len(),
{
    let a2 = a.drop_last();
    let b2 = b.drop_last();
    let l = a.len() - 1;
    assert(entry_count(a) == entry_count(a2) + a[l].len());
    assert(entry_count(b) == entry_count(b2) + b[l].len());
    if a.len() > 1 {
        assert forall|u: int| 1 <= u < a2.len() && u != r implies (#[trigger] a2[u]).len() + 1 == b2[u].len() by {
            assert(a2[u] == a[u] && b2[u] == b[u]);
        }
        assert(a2[0] == a[0] && b2[0] == b[0]);
        if r < a2.len() {
            assert(a2[r] == a[r] && b2[r] == b[r]);
        }
        lemma_entry_count_less_one(a2, b2, r);
    } else {
        assert(entry_count(a2) == 0);
        assert(entry_count(b2) == 0);
    }
}

/// Hangs the tree from `root`: the list of each node keeps, in order, its
/// neighbours other than its parent on the way to `root`. The parents on
/// the way from `root` up to node 1 are turned around first; every other
/// node keeps the node it was attached to as its parent.
pub(crate) fn orient_tree(adj: &Vec<Vec<usize>>, parent: &Vec<usize>, n: usize, root: usize, Ghost(cap): Ghost<nat>) -> (out: Vec<Vec<usize>>)
    requires
        lists_ok(list_views(adj@), n as nat, cap),
        tree_of_parents(list_views(adj@), parent@, n as nat),
        entry_count(list_views(adj@)) + 2 == 2 * n,
        1 <= root <= n,
        n < usize::MAX,
    ensures
        list_views(out@) == oriented_lists(list_views(adj@), parent@, root),
        out@.len() == n + 1,
        lists_ok(list_views(out@), n as nat, cap),
        forall|v: usize| 1 <= v <= n ==> #[trigger] list_reaches(list_views(out@), root, v),
        entry_count(list_views(out@)) == n - 1,
        out@[0]@.len() == 0,
{
    let ghost ls = list_views(adj@);
    let ghost bp = parent@;
    let mut par: Vec<usize> = Vec::new();
    let mut i: usize = 0;
    while i <= n
        invariant
            i <= n + 1,
            n < usize::MAX,
            bp == parent@,
            bp.len() == n + 1,
            par@ == bp.take(i as int),
        decreases n + 1 - i,
    {
        par.push(parent[i]);
        assert(par@ =~= bp.take(i + 1));
        i = i + 1;
    }
    assert(par@ =~= bp);
    let mut prev: usize = 0;
    let mut cur: usize = root;
    while cur != 0
        invariant
            tree_of_parents(ls, bp, n as nat),
            bp == parent@,
            1 <= root <= n,
            n < usize::MAX,
            par@.len() == n + 1,
            cur <= n,
            cur != 0 ==> is_ancestor(bp, cur, root),
            cur != 0 ==> prev == tree_parent(bp, root, cur),
            forall|x: int| 0 <= x <= n ==> #[trigger] par@[x] == if is_ancestor(bp, x as usize, root)
                && !(cur != 0 && is_ancestor(bp, x as usize, cur)) {
                tree_parent(bp, root, x as usize)
            } else {
                bp[x]
            },
        decreases cur,
    {
        let next = if cur >= 2 { parent[cur] } else { 0 };
        let ghost par0 = par@;
        par.set(cur, prev);
        proof {
            if cur >= 2 {
                lemma_child_toward_parent(bp, cur, root);
                assert(tree_parent(bp, root, next) == cur) by {
                    lemma_ancestor_below(bp, cur, root);
                }
            }
            assert forall|x: int| 0 <= x <= n implies #[trigger] par@[x] == if is_ancestor(bp, x as usize, root)
                && !(next != 0 && is_ancestor(bp, x as usize, next)) {
                tree_parent(bp, root, x as usize)
            } else {
                bp[x]
            } by {
                if x != cur {
                    assert(par@[x] == par0[x]);
                    if next != 0 && is_ancestor(bp, x as usize, cur) {
                        assert(is_ancestor(bp, x as usize, next));
                    }
                    if next != 0 && is_ancestor(bp, x as usize, next) {
                        assert(is_ancestor(bp, x as usize, cur));
                    }
                    if next == 0 && is_ancestor(bp, x as usize, cur) {
                        assert(false);
                    }
                } else {
                    if next != 0 && is_ancestor(bp, x as usize, next) {
                        lemma_ancestor_below(bp, x as usize, next);
                    }
                }
            }
        }
        prev = cur;
        cur = next;
    }
    proof {
        assert forall|x: int| 0 <= x <= n implies #[trigger] par@[x] == tree_parent(bp, root, x as usize) by {
            if !is_ancestor(bp, x as usize, root) {
                assert(x != root);
            }
        }
    }
    let ghost target = oriented_lists(ls, bp, root);
    let mut out: Vec<Vec<usize>> = Vec::new();
    let mut u: usize = 0;
    while u <= n
        invariant
            u <= n + 1,
            n < usize::MAX,
            ls == list_views(adj@),
            ls.len() == n + 1,
            par@.len() == n + 1,
            target == oriented_lists(ls, bp, root),
            forall|x: int| 0 <= x <= n ==> #[trigger] par@[x] == tree_parent(bp, root, x as usize),
            out@.len() == u,
            forall|x: int| 0 <= x < u ==> (#[trigger] out@[x])@ == target[x],
        decreases n + 1 - u,
    {
        let p = par[u];
        let ghost f = other_than(p);
        let mut list: Vec<usize> = Vec::new();
        let mut k: usize = 0;
        while k < adj[u].len()
            invariant
                u <= n,
                adj@.len() == n + 1,
                f == other_than(p),
                k <= adj@[u as int]@.len(),
                list@ == adj@[u as int]@.take(k as int).filter(f),
            decreases adj@[u as int]@.len() - k,
        {
            let v = adj[u][k];
            proof {
                let s = adj@[u as int]@;
                assert(s.take(k + 1) =~= s.take(k as int).push(v));
                s.take(k as int).lemma_filter_push(v, f);
            }
            if v != p {
                list.push(v);
            }
            k = k + 1;
        }
        assert(adj@[u as int]@.take(k as int) =~= adj@[u as int]@);
        out.push(list);
        proof {
            assert(target[u as int] == ls[u as int].filter(other_than(tree_parent(bp, root, u))));
        }
        u = u + 1;
    }
    proof {
        let o = list_views(out@);
        assert(o =~= target);
        assert forall|x: int| 0 <= x < ls.len() implies #[trigger] keeps_children(o, ls, bp, root, x) by {
            assert(ls[x].no_duplicates());
            lemma_filter_without(ls[x], tree_parent(bp, root, x as usize));
        }
        assert forall|x: int, k: int| 0 <= x <= n && 0 <= k < o[x].len() implies
            1 <= #[trigger] o[x][k] <= n && o[x][k] != x by {
            assert(keeps_children(o, ls, bp, root, x));
            assert(o[x].contains(o[x][k]));
            let j = choose|j: int| 0 <= j < ls[x].len() && ls[x][j] == o[x][k];
        }
        assert forall|x: int| 0 <= x <= n implies (#[trigger] o[x]).no_duplicates() && o[x].len() <= cap by {
            lemma_filter_without(ls[x], tree_parent(bp, root, x as usize));
        }
        assert(o[0].len() == 0) by {
            lemma_filter_without(ls[0], tree_parent(bp, root, 0));
            if ls[0].len() > 0 {
                assert(ls[0].contains(ls[0][0]));
            }
        }
        assert forall|v: usize| 1 <= v <= n implies #[trigger] list_reaches(o, root, v) by {
            lemma_oriented_reach(ls, bp, o, n as nat, root, v);
        }
        assert forall|x: int| 1 <= x < o.len() && x != root implies (#[trigger] o[x]).len() + 1 == ls[x].len() by {
            lemma_filter_without(ls[x], tree_parent(bp, root, x as usize));
            lemma_tree_parent_facts(ls, bp, n as nat, root, x as usize);
        }
        assert(o[root as int].len() == ls[root as int].len()) by {
            lemma_filter_without(ls[root as int], tree_parent(bp, root, root));
            lemma_tree_parent_facts(ls, bp, n as nat, root, root);
        }
        assert(ls[0].len() == 0) by {
            if ls[0].len() > 0 {
                assert(ls[0].contains(ls[0][0]));
            }
        }
        lemma_entry_count_less_one(o, ls, root as int);
    }
    out
}

/// The label of node `x` once `root` and node 1 trade labels.
pub open spec fn swap_label(x: usize, root: usize) -> usize {
    if x == root {
        1
    } else if x == 1 {
        root
    } else {
        x
    }
}

/// Lets `root` and node 1 trade labels: the list of node `u` becomes the
/// relabelled list of the node that now carries label `u`.
pub(crate) fn relabel(adj: &Vec<Vec<usize>>, n: usize, root: usize, Ghost(cap): Ghost<nat>) -> (out: Vec<Vec<usize>>)
    requires
        lists_ok(list_views(adj@), n as nat, cap),
        1 <= root <= n,
        n < usize::MAX,
    ensures
        lists_ok(list_views(out@), n as nat, cap),
        forall|u: int| 0 <= u <= n ==> (#[trigger] out@[u])@.len() == adj@[swap_label(u as usize, root) as int]@.len(),
        forall|u: int, k: int| 0 <= u <= n && 0 <= k < out@[u]@.len() ==>
            #[trigger] out@[u]@[k] == swap_label(adj@[swap_label(u as usize, root) as int]@[k], root),
        entry_count(list_views(out@)) == entry_count(list_views(adj@)),
        out@.len() == n + 1,
{
    let ghost views = list_views(adj@);
    let mut out: Vec<Vec<usize>> = Vec::new();
    let mut u: usize = 0;
    while u <= n
        invariant
            views == list_views(adj@),
            lists_ok(views, n as nat, cap),
            1 <= root <= n,
            n < usize::MAX,
            u <= n + 1,
            out@.len() == u,
            forall|x: int| 0 <= x < u ==> (#[trigger] out@[x])@.len() == adj@[swap_label(x as usize, root) as int]@.len(),
            forall|x: int, k: int| 0 <= x < u && 0 <= k < out@[x]@.len() ==>
                #[trigger] out@[x]@[k] == swap_label(adj@[swap_label(x as usize, root) as int]@[k], root),
        decreases n + 1 - u,
    {
        let src = if u == root { 1 } else if u == 1 { root } else { u };
        let mut list: Vec<usize> = Vec::new();
        let mut k: usize = 0;
        while k < adj[src].len()
            invariant
                src <= n,
                adj@.len() == n + 1,
                k <= adj@[src as int]@.len(),
                list@.len() == k,
                forall|m: int| 0 <= m < k ==> #[trigger] list@[m] == swap_label(adj@[src as int]@[m], root),
            decreases adj@[src as int]@.len() - k,
        {
            let x = adj[src][k];
            let y = if x == root { 1 } else if x == 1 { root } else { x };
            list.push(y);
            k = k + 1;
        }
        out.push(list);
        u = u + 1;
    }
    proof {
        let o = list_views(out@);
        assert forall|x: int, k: int| 0 <= x <= n && 0 <= k < o[x].len() implies
            1 <= #[trigger] o[x][k] <= n && o[x][k] != x by {
            let sx = swap_label(x as usize, root) as int;
            assert(o[x][k] == swap_label(views[sx][k], root));
        }
        assert forall|x: int| 0 <= x <= n implies (#[trigger] o[x]).no_duplicates() by {
            let sx = swap_label(x as usize, root) as int;
            let t = o[x];
            assert forall|a: int, b: int| 0 <= a < t.len() && 0 <= b < t.len() && a != b implies t[a] != t[b] by {
                assert(t[a] == swap_label(views[sx][a], root));
                assert(t[b] == swap_label(views[sx][b], root));
                assert(views[sx][a] != views[sx][b]);
            }
        }
        assert forall|x: int| 0 <= x <= n implies (#[trigger] o[x]).len() <= cap by {
            let sx = swap_label(x as usize, root) as int;
            assert(views[sx].len() <= cap);
        }
        let r = root as int;
        let sw = views.update(1, views[r]).update(r, views[1]);
        lemma_entry_count_update(views, 1, views[r]);
        lemma_entry_count_update(views.update(1, views[r]), r, views[1]);
        assert forall|x: int| 0 <= x < o.len() implies (#[trigger] o[x]).len() == sw[x].len() by {
            assert(o[x].len() == views[swap_label(x as usize, root) as int].len());
        }
        lemma_entry_count_lens(o, sw);
    }
    out
}

/// Trading the labels of `root` and node 1 carries every walk from `root`
/// over to a walk from node 1.
pub(crate) proof fn lemma_relabel_reach(adj: Seq<Vec<usize>>, out: Seq<Vec<usize>>, n: nat, root: usize)
    requires
        1 <= root <= n,
        adj.len() == n + 1,
        out.len() == n + 1,
        forall|u: int| 0 <= u <= n ==> (#[trigger] out[u])@.len() == adj[swap_label(u as usize, root) as int]@.len(),
        forall|u: int, k: int| 0 <= u <= n && 0 <= k < out[u]@.len() ==>
            #[trigger] out[u]@[k] == swap_label(adj[swap_label(u as usize, root) as int]@[k], root),
        forall|v: usize| 1 <= v <= n ==> #[trigger] list_reaches(list_views(adj), root, v),
    ensures
        forall|w: usize| 1 <= w <= n ==> #[trigger] list_reaches(list_views(out), 1, w),
{
    let a = list_views(adj);
    let o = list_views(out);
    assert forall|w: usize| 1 <= w <= n implies #[trigger] list_reaches(o, 1, w) by {
        let v = swap_label(w, root);
        assert(list_reaches(a, root, v));
        let p = choose|p: Seq<usize>| #[trigger] is_list_walk(a, p) && p[0] == root && p.last() == v;
        let q = Seq::new(p.len(), |i: int| swap_label(p[i], root));
        assert forall|i: int| 0 <= i < q.len() - 1 implies #[trigger] list_step(o, q, i) by {
            assert(list_step(a, p, i));
            let x = p[i];
            let y = p[i + 1];
            let k = choose|k: int| 0 <= k < a[x as int].len() && a[x as int][k] == y;
            let sx = swap_label(x, root);
            assert(swap_label(sx, root) == x);
            assert(o[sx as int][k] == swap_label(y, root));
        }
        assert(is_list_walk(o, q));
    }
}

} // verus!
