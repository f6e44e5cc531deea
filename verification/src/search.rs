//! Breadth-first search over successor lists, and what it finds: exactly the
//! nodes reachable from its start, in breadth-first order.
use vstd::prelude::*;
use crate::graph::adj_wf;

verus! {

/// `p` is a walk along wires: every step goes from a node to one of its successors.
pub open spec fn is_walk(adj: Seq<Seq<usize>>, p: Seq<usize>) -> bool {
    &&& p.len() >= 1
    &&& forall|k: int| 0 <= k < p.len() ==> #[trigger] p[k] < adj.len()
    &&& forall|k: int| 0 <= k < p.len() - 1 ==> adj[#[trigger] p[k] as int].contains(p[k + 1])
}

/// Node `b` can be reached from node `a` by following wires (every node reaches itself).
pub open spec fn reachable(adj: Seq<Seq<usize>>, a: usize, b: usize) -> bool {
    exists|p: Seq<usize>| #[trigger] is_walk(adj, p) && p[0] == a && p.last() == b
}

/// A search state: the nodes found so far, in order, without repetition, all valid.
pub open spec fn search_ok(adj: Seq<Seq<usize>>, order: Seq<usize>) -> bool {
    &&& adj_wf(adj)
    &&& order.no_duplicates()
    &&& forall|k: int| 0 <= k < order.len() ==> #[trigger] order[k] < adj.len()
}

/// The search from state (`order`, `head`, `j`): `order[head]` is the node being
/// expanded and `j` the index of its next successor to look at.
pub open spec fn search_from(adj: Seq<Seq<usize>>, order: Seq<usize>, head: int, j: int) -> Seq<usize>
    decreases adj.len() - order.len(), order.len() - head, adj[order[head] as int].len() - j,
{
    if !search_ok(adj, order) || head < 0 || j < 0 || head >= order.len() {
        order
    } else {
        let u = order[head];
        if j >= adj[u as int].len() {
            search_from(adj, order, head + 1, 0)
        } else {
            let v = adj[u as int][j];
            if order.contains(v) {
                search_from(adj, order, head, j + 1)
            } else {
                proof {
                    lemma_distinct_bound(order.push(v), adj.len() as int);
                }
                search_from(adj, order.push(v), head, j + 1)
            }
        }
    }
}

/// The breadth-first order of the nodes found from `start`.
pub open spec fn bfs(adj: Seq<Seq<usize>>, start: usize) -> Seq<usize> {
    search_from(adj, seq![start], 0, 0)
}

/// A sequence of distinct values below `n` has at most `n` elements.
pub proof fn lemma_distinct_bound(s: Seq<usize>, n: int)
    requires
        0 <= n,
        s.no_duplicates(),
        forall|k: int| 0 <= k < s.len() ==> 0 <= #[trigger] s[k] < n,
    ensures
        s.len() <= n,
{
    let t = s.map_values(|x: usize| x as int);
    assert(t.no_duplicates()) by {
        assert forall|a: int, b: int| 0 <= a < t.len() && 0 <= b < t.len() && a != b implies t[a] != t[b] by {
            assert(s[a] != s[b]);
        }
    }
    t.unique_seq_to_set();
    {
        vstd::set_lib::lemma_int_range(0, n);
        assert(t.to_set().subset_of(vstd::set_lib::set_int_range(0, n))) by {
            assert forall|x: int| t.to_set().contains(x) implies vstd::set_lib::set_int_range(0, n).contains(x) by {
                let k = choose|k: int| 0 <= k < t.len() && t[k] == x;
                assert(s[k] < n);
            }
        }
        vstd::set_lib::lemma_len_subset(t.to_set(), vstd::set_lib::set_int_range(0, n));
        assert(t.len() == s.len());
    }
}

/// Every node expanded so far has all its successors among the found nodes.
pub open spec fn closed_upto(adj: Seq<Seq<usize>>, order: Seq<usize>, head: int, j: int) -> bool {
    &&& forall|k: int, m: int|
        0 <= k < head && k < order.len() && 0 <= m < adj[order[k] as int].len()
            ==> order.contains(#[trigger] adj[order[k] as int][m])
    &&& (0 <= head < order.len() ==> forall|m: int|
        0 <= m < j && m < adj[order[head] as int].len() ==> order.contains(
            #[trigger] adj[order[head] as int][m],
        ))
}

/// The search keeps the found nodes as a prefix, stays valid, and ends closed under successors.
pub proof fn lemma_search_from(adj: Seq<Seq<usize>>, order: Seq<usize>, head: int, j: int)
    requires
        search_ok(adj, order),
        0 <= head <= order.len(),
        0 <= j,
        closed_upto(adj, order, head, j),
    ensures
        ({
            let r = search_from(adj, order, head, j);
            &&& search_ok(adj, r)
            &&& order.len() <= r.len()
            &&& r.subrange(0, order.len() as int) == order
            &&& closed_upto(adj, r, r.len() as int, 0)
        }),
    decreases adj.len() - order.len(), order.len() - head, adj[order[head] as int].len() - j,
{
    if head >= order.len() {
        assert(order.subrange(0, order.len() as int) =~= order);
    } else {
        let u = order[head];
        if j >= adj[u as int].len() {
            lemma_search_from(adj, order, head + 1, 0);
        } else {
            let v = adj[u as int][j];
            if order.contains(v) {
                lemma_search_from(adj, order, head, j + 1);
            } else {
                lemma_distinct_bound(order.push(v), adj.len() as int);
                let o2 = order.push(v);
                assert(search_ok(adj, o2));
                assert(closed_upto(adj, o2, head, j + 1)) by {
                    assert forall|k: int, m: int|
                        0 <= k < head && k < o2.len() && 0 <= m < adj[o2[k] as int].len()
                        implies o2.contains(#[trigger] adj[o2[k] as int][m]) by {
                        assert(o2[k] == order[k]);
                        assert(order.contains(adj[order[k] as int][m]));
                        let w = choose|w: int| 0 <= w < order.len() && order[w] == adj[order[k] as int][m];
                        assert(o2[w] == order[w]);
                    }
                    assert forall|m: int| 0 <= m < j + 1 && m < adj[o2[head] as int].len()
                        implies o2.contains(#[trigger] adj[o2[head] as int][m]) by {
                        assert(o2[head] == u);
                        if m < j {
                            assert(order.contains(adj[order[head] as int][m]));
                            let w = choose|w: int| 0 <= w < order.len() && order[w] == adj[order[head] as int][m];
                            assert(o2[w] == order[w]);
                        } else {
                            assert(o2[order.len() as int] == v);
                        }
                    }
                }
                lemma_search_from(adj, o2, head, j + 1);
                let r = search_from(adj, o2, head, j + 1);
                assert(r.subrange(0, order.len() as int) =~= o2.subrange(0, order.len() as int));
                assert(o2.subrange(0, order.len() as int) =~= order);
            }
        }
    }
}

/// Extending a walk by one more step along a wire.
pub proof fn lemma_walk_step(adj: Seq<Seq<usize>>, a: usize, b: usize, c: usize)
    requires
        adj_wf(adj),
        reachable(adj, a, b),
        0 <= b < adj.len(),
        adj[b as int].contains(c),
    ensures
        reachable(adj, a, c),
{
    let p = choose|p: Seq<usize>| #[trigger] is_walk(adj, p) && p[0] == a && p.last() == b;
    let q = p.push(c);
    let k = choose|k: int| 0 <= k < adj[b as int].len() && adj[b as int][k] == c;
    assert(c < adj.len());
    assert(is_walk(adj, q)) by {
        assert forall|i: int| 0 <= i < q.len() - 1 implies adj[#[trigger] q[i] as int].contains(q[i + 1]) by {
            if i < p.len() - 1 {
                assert(q[i] == p[i] && q[i + 1] == p[i + 1]);
            } else {
                assert(q[i] == b && q[i + 1] == c);
            }
        }
    }
    assert(q[0] == a && q.last() == c);
}

/// Every node the search finds is reachable from `s`, if those found so far are.
pub proof fn lemma_search_sound(adj: Seq<Seq<usize>>, order: Seq<usize>, head: int, j: int, s: usize)
    requires
        search_ok(adj, order),
        forall|k: int| 0 <= k < order.len() ==> reachable(adj, s, #[trigger] order[k]),
    ensures
        ({
            let r = search_from(adj, order, head, j);
            forall|k: int| 0 <= k < r.len() ==> reachable(adj, s, #[trigger] r[k])
        }),
    decreases adj.len() - order.len(), order.len() - head, adj[order[head] as int].len() - j,
{
    if head < 0 || j < 0 || head >= order.len() {
        assert(search_from(adj, order, head, j) == order);
    } else {
        let u = order[head];
        if j >= adj[u as int].len() {
            lemma_search_sound(adj, order, head + 1, 0, s);
            assert(search_from(adj, order, head, j) == search_from(adj, order, head + 1, 0));
        } else {
            let v = adj[u as int][j];
            if order.contains(v) {
                lemma_search_sound(adj, order, head, j + 1, s);
                assert(search_from(adj, order, head, j) == search_from(adj, order, head, j + 1));
            } else {
                lemma_distinct_bound(order.push(v), adj.len() as int);
                let o2 = order.push(v);
                assert(reachable(adj, s, u));
                assert(adj[u as int].contains(v));
                lemma_walk_step(adj, s, u, v);
                assert forall|k: int| 0 <= k < o2.len() implies reachable(adj, s, #[trigger] o2[k]) by {
                    if k < order.len() {
                        assert(o2[k] == order[k]);
                    }
                }
                lemma_search_sound(adj, o2, head, j + 1, s);
                assert(search_from(adj, order, head, j) == search_from(adj, o2, head, j + 1));
            }
        }
    }
}

/// A set of found nodes closed under successors holds everything reachable from its members.
pub proof fn lemma_closed_walk(adj: Seq<Seq<usize>>, r: Seq<usize>, p: Seq<usize>)
    requires
        closed_upto(adj, r, r.len() as int, 0),
        is_walk(adj, p),
        r.contains(p[0]),
    ensures
        r.contains(p.last()),
    decreases p.len(),
{
    if p.len() > 1 {
        let q = p.drop_last();
        assert(is_walk(adj, q)) by {
            assert forall|i: int| 0 <= i < q.len() - 1 implies adj[#[trigger] q[i] as int].contains(q[i + 1]) by {
                assert(q[i] == p[i] && q[i + 1] == p[i + 1]);
                assert(adj[p[i] as int].contains(p[i + 1]));
            }
        }
        lemma_closed_walk(adj, r, q);
        let x = q.last();
        let w = choose|w: int| 0 <= w < r.len() && r[w] == x;
        let i = p.len() - 2;
        assert(p[i] == x);
        assert(adj[p[i] as int].contains(p[i + 1]));
        let m = choose|m: int| 0 <= m < adj[x as int].len() && adj[x as int][m] == p.last();
        assert(r.contains(adj[r[w] as int][m]));
    }
}

/// The breadth-first search from `start` finds exactly the nodes reachable from `start`,
/// each once, beginning with `start`.
pub proof fn lemma_bfs(adj: Seq<Seq<usize>>, start: usize)
    requires
        adj_wf(adj),
        start < adj.len(),
    ensures
        search_ok(adj, bfs(adj, start)),
        bfs(adj, start).len() >= 1,
        bfs(adj, start)[0] == start,
        forall|v: usize| #[trigger] bfs(adj, start).contains(v) <==> reachable(adj, start, v),
{
    let o = seq![start];
    assert(search_ok(adj, o));
    lemma_search_from(adj, o, 0, 0);
    let r = bfs(adj, start);
    assert(r[0] == r.subrange(0, 1)[0]);
    let p0 = seq![start];
    assert(is_walk(adj, p0));
    assert(reachable(adj, start, start));
    lemma_search_sound(adj, o, 0, 0, start);
    assert forall|v: usize| #[trigger] r.contains(v) <==> reachable(adj, start, v) by {
        if r.contains(v) {
            let k = choose|k: int| 0 <= k < r.len() && r[k] == v;
            assert(reachable(adj, start, r[k]));
        }
        if reachable(adj, start, v) {
            let p = choose|p: Seq<usize>| #[trigger] is_walk(adj, p) && p[0] == start && p.last() == v;
            assert(r.contains(p[0]));
            lemma_closed_walk(adj, r, p);
        }
    }
}

/// The successor lists of `adj` as plain sequences.
pub open spec fn rows(adj: Seq<Vec<usize>>) -> Seq<Seq<usize>> {
    adj.map_values(|r: Vec<usize>| r@)
}

/// Breadth-first search from `start`: the nodes found, in the order they are found,
/// and for each node whether it was found.
pub fn breadth_first(adj: &Vec<Vec<usize>>, start: usize) -> (res: (Vec<usize>, Vec<bool>))
    requires
        adj_wf(rows(adj@)),
        start < adj@.len(),
    ensures
        res.0@ == bfs(rows(adj@), start),
        res.1@.len() == adj@.len(),
        forall|v: int| 0 <= v < adj@.len() ==> #[trigger] res.1@[v] == res.0@.contains(v as usize),
{
    let ghost a = rows(adj@);
    let n = adj.len();
    let mut order: Vec<usize> = Vec::new();
    order.push(start);
    let mut seen: Vec<bool> = vec![false; n];
    seen.set(start, true);
    let mut head: usize = 0;
    let mut j: usize = 0;
    assert(order@ =~= seq![start]);
    assert(forall|v: int| 0 <= v < n ==> #[trigger] seen@[v] == order@.contains(v as usize)) by {
        assert forall|v: int| 0 <= v < n implies #[trigger] seen@[v] == order@.contains(v as usize) by {
            if v == start as int {
                assert(order@[0] == start);
            }
        }
    }
    while head < order.len()
        invariant
            a == rows(adj@),
            adj_wf(a),
            n == a.len(),
            search_ok(a, order@),
            head <= order@.len(),
            search_from(a, order@, head as int, j as int) == bfs(a, start),
            seen@.len() == n,
            forall|v: int| 0 <= v < n ==> #[trigger] seen@[v] == order@.contains(v as usize),
        decreases n - order@.len(), order@.len() - head, a[order@[head as int] as int].len() - j,
    {
        proof {
            lemma_distinct_bound(order@, n as int);
        }
        let u = order[head];
        assert(a[u as int] == adj@[u as int]@);
        if j >= adj[u].len() {
            head = head + 1;
            j = 0;
        } else {
            let v = adj[u][j];
            assert(v == a[u as int][j as int]);
            if seen[v] {
                j = j + 1;
            } else {
                let ghost o = order@;
                proof {
                    lemma_distinct_bound(o.push(v), n as int);
                }
                seen.set(v, true);
                order.push(v);
                assert(order@ == o.push(v));
                assert forall|w: int| 0 <= w < n implies #[trigger] seen@[w] == order@.contains(w as usize) by {
                    if w == v as int {
                        assert(order@[o.len() as int] == v);
                    } else if o.contains(w as usize) {
                        let k = choose|k: int| 0 <= k < o.len() && o[k] == w as usize;
                        assert(order@[k] == o[k]);
                    } else {
                        if order@.contains(w as usize) {
                            let k = choose|k: int| 0 <= k < order@.len() && order@[k] == w as usize;
                            if k < o.len() {
                                assert(o[k] == order@[k]);
                            }
                        }
                    }
                }
                j = j + 1;
            }
        }
    }
    (order, seen)
}

/// Reachability is transitive.
pub proof fn lemma_reach_trans(adj: Seq<Seq<usize>>, a: usize, b: usize, c: usize)
    requires
        reachable(adj, a, b),
        reachable(adj, b, c),
    ensures
        reachable(adj, a, c),
{
    let p = choose|p: Seq<usize>| #[trigger] is_walk(adj, p) && p[0] == a && p.last() == b;
    let q = choose|q: Seq<usize>| #[trigger] is_walk(adj, q) && q[0] == b && q.last() == c;
    let r = p + q.drop_first();
    assert(is_walk(adj, r)) by {
        assert forall|k: int| 0 <= k < r.len() implies #[trigger] r[k] < adj.len() by {
            if k < p.len() {
                assert(r[k] == p[k]);
            } else {
                assert(r[k] == q[k - p.len() + 1]);
            }
        }
        assert forall|k: int| 0 <= k < r.len() - 1 implies adj[#[trigger] r[k] as int].contains(r[k + 1]) by {
            if k < p.len() - 1 {
                assert(r[k] == p[k] && r[k + 1] == p[k + 1]);
            } else if k == p.len() - 1 {
                assert(r[k] == q[0]);
                assert(r[k + 1] == q[1]);
            } else {
                assert(r[k] == q[k - p.len() + 1]);
                assert(r[k + 1] == q[k - p.len() + 2]);
            }
        }
    }
    if q.len() > 1 {
        assert(r.last() == q.last());
    } else {
        assert(r =~= p);
    }
}

} // verus!
