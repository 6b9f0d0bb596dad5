use vstd::prelude::*;

verus! {

/// The node reached from `x` by following `k` predecessor links, or `None`
/// once a node without a recorded predecessor is met.
pub open spec fn walk(pred: Seq<Option<usize>>, x: usize, k: nat) -> Option<usize>
    decreases k,
{
    if k == 0 {
        Some(x)
    } else {
        match walk(pred, x, (k - 1) as nat) {
            Some(y) => if y < pred.len() { pred[y as int] } else { None },
            None => None,
        }
    }
}

/// Following predecessors from `target` eventually meets `source` or a node
/// without a predecessor, so the backward walk stops.
pub open spec fn walk_stops(pred: Seq<Option<usize>>, source: usize, target: usize) -> bool {
    exists|k: nat| #[trigger] walk(pred, target, k) == Some(source) || walk(pred, target, k) is None
}

/// Following predecessors from `target` meets `source`.
pub open spec fn walk_meets(pred: Seq<Option<usize>>, source: usize, target: usize) -> bool {
    exists|k: nat| #[trigger] walk(pred, target, k) == Some(source)
}

/// `path` runs from `source` to `target`, each node being the recorded
/// predecessor of the next, and `source` occurs only at its start.
pub open spec fn is_predecessor_path(
    pred: Seq<Option<usize>>,
    source: usize,
    target: usize,
    path: Seq<usize>,
) -> bool {
    &&& path.len() >= 1
    &&& path[0] == source
    &&& path.last() == target
    &&& forall|j: int| 0 <= j < path.len() - 1 ==>
        (path[j + 1] as int) < pred.len() && #[trigger] pred[path[j + 1] as int] == Some(path[j])
    &&& forall|j: int| 1 <= j < path.len() ==> #[trigger] path[j] != source
}

proof fn lemma_walk_none_stays(pred: Seq<Option<usize>>, x: usize, i: nat, k: nat)
    requires
        i <= k,
        walk(pred, x, i) is None,
    ensures
        walk(pred, x, k) is None,
    decreases k - i,
{
    if i < k {
        lemma_walk_none_stays(pred, x, i, (k - 1) as nat);
    }
}

/// The path from `source` to `target` along recorded predecessors, as in a
/// shortest-path tree. `None` when `target` was not reached, or when the
/// walk back from `target` meets a node without a predecessor before it
/// meets `source`.
pub fn reconstruct_path(
    reached: &Vec<bool>,
    predecessors: &Vec<Option<usize>>,
    source: usize,
    target: usize,
) -> (res: Option<Vec<usize>>)
    requires
        walk_stops(predecessors@, source, target),
    ensures
        res is Some <==> ((target as int) < reached@.len() && reached@[target as int]
            && walk_meets(predecessors@, source, target)),
        res matches Some(path) ==> is_predecessor_path(predecessors@, source, target, path@),
{
    if target >= reached.len() || !reached[target] {
        return None;
    }
    let ghost pred = predecessors@;
    let ghost bound: nat = choose|k: nat|
        #[trigger] walk(pred, target, k) == Some(source) || walk(pred, target, k) is None;
    let mut back: Vec<usize> = Vec::new();
    back.push(target);
    let mut current = target;
    let ghost mut steps: nat = 0;
    while current != source
        invariant
            pred == predecessors@,
            walk(pred, target, bound) == Some(source) || walk(pred, target, bound) is None,
            steps <= bound,
            walk(pred, target, steps) == Some(current),
            back@.len() == steps + 1,
            back@[0] == target,
            back@[steps as int] == current,
            forall|j: int| 0 <= j < steps ==> #[trigger] back@[j] != source,
            forall|j: nat| j <= steps ==> #[trigger] walk(pred, target, j) == Some(back@[j as int]),
        decreases bound - steps,
    {
        assert(steps < bound);
        if current >= predecessors.len() {
            proof {
                assert(walk(pred, target, steps + 1) is None);
                assert forall|k: nat| walk(pred, target, k) != Some(source) by {
                    if k <= steps {
                        assert(walk(pred, target, k) == Some(back@[k as int]));
                    } else {
                        lemma_walk_none_stays(pred, target, steps + 1, k);
                    }
                }
            }
            return None;
        }
        let c = current;
        match predecessors[c] {
            Some(p) => {
                let ghost old_back = back@;
                back.push(p);
                current = p;
                proof {
                    assert(pred[c as int] == Some(p));
                    assert(back@ == old_back.push(p));
                    steps = steps + 1;
                    assert(walk(pred, target, steps) == Some(p));
                }
            },
            None => {
                proof {
                    assert(walk(pred, target, steps + 1) is None);
                    assert forall|k: nat| walk(pred, target, k) != Some(source) by {
                        if k <= steps {
                            assert(walk(pred, target, k) == Some(back@[k as int]));
                        } else {
                            lemma_walk_none_stays(pred, target, steps + 1, k);
                        }
                    }
                }
                return None;
            },
        }
    }
    assert(walk(pred, target, steps) == Some(source));
    let ghost rev = back@;
    let mut path: Vec<usize> = Vec::new();
    let mut i: usize = back.len();
    while i > 0
        invariant
            back@ == rev,
            i <= rev.len(),
            path@.len() == rev.len() - i,
            forall|j: int| 0 <= j < path@.len() ==> #[trigger] path@[j] == rev[rev.len() - 1 - j],
        decreases i,
    {
        i = i - 1;
        path.push(back[i]);
    }
    proof {
        let n = rev.len() as int;
        assert forall|j: int| 0 <= j < n - 1 implies (path@[j + 1] as int) < pred.len()
            && #[trigger] pred[path@[j + 1] as int] == Some(path@[j]) by {
            let r = n - 2 - j;
            assert(0 <= r < steps);
            assert(walk(pred, target, r as nat) == Some(rev[r]));
            assert(walk(pred, target, (r + 1) as nat) == Some(rev[r + 1]));
            assert(path@[j + 1] == rev[r]);
            assert(path@[j] == rev[r + 1]);
        }
        assert forall|j: int| 1 <= j < n implies #[trigger] path@[j] != source by {
            assert(path@[j] == rev[n - 1 - j]);
        }
    }
    Some(path)
}

/// Whether the backward walk from `target` meets `source`, or a node
/// without a predecessor, within `limit` steps; when it does, the walk
/// stops and `reconstruct_path` may be called.
pub fn walk_stops_within(predecessors: &Vec<Option<usize>>, source: usize, target: usize, limit: usize) -> (b: bool)
    ensures
        b ==> walk_stops(predecessors@, source, target),
        b <==> exists|k: nat| k <= limit && (#[trigger] walk(predecessors@, target, k) == Some(source)
            || walk(predecessors@, target, k) is None),
{
    let ghost pred = predecessors@;
    let mut current: Option<usize> = Some(target);
    let mut k: usize = 0;
    loop
        invariant
            pred == predecessors@,
            k <= limit,
            current == walk(pred, target, k as nat),
            forall|j: nat| j < k ==> !(#[trigger] walk(pred, target, j) == Some(source) || walk(pred, target, j) is None),
        decreases limit - k,
    {
        match current {
            None => {
                return true;
            },
            Some(c) => {
                if c == source {
                    return true;
                }
                if k == limit {
                    proof {
                        assert forall|j: nat| j <= limit implies !(#[trigger] walk(pred, target, j) == Some(source)
                            || walk(pred, target, j) is None) by {
                            if j == k {
                                assert(walk(pred, target, j) == Some(c));
                            }
                        }
                    }
                    return false;
                }
                current = if c < predecessors.len() { predecessors[c] } else { None };
                proof {
                    assert(walk(pred, target, (k + 1) as nat) == current);
                }
                k = k + 1;
            },
        }
    }
}

} // verus!
