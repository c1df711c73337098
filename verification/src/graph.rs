//! Directed graphs over `0..n`: reachability, strongly connected components, and orders in which
//! every node follows the nodes it depends on.
use vstd::prelude::*;

verus! {

// REACHABILITY
// ================================================================================================

/// The lists that a list of vectors holds. A graph is the list of successors of each of its nodes.
pub open spec fn rows(lists: Seq<Vec<usize>>) -> Seq<Seq<usize>> {
    lists.map_values(|list: Vec<usize>| list@)
}

/// Every successor is a node.
pub open spec fn well_formed(g: Seq<Seq<usize>>) -> bool {
    &&& g.len() <= usize::MAX
    &&& forall|a: int, k: int| 0 <= a < g.len() && 0 <= k < g[a].len() ==> #[trigger] g[a][k] < g.len()
}

/// There is an edge from `a` to `b`.
pub open spec fn edge(g: Seq<Seq<usize>>, a: usize, b: usize) -> bool {
    a < g.len() && g[a as int].contains(b)
}

/// `p` walks along edges from `a` to `b`.
pub open spec fn path(g: Seq<Seq<usize>>, p: Seq<usize>, a: usize, b: usize) -> bool {
    &&& p.len() >= 1
    &&& p[0] == a
    &&& p[p.len() - 1] == b
    &&& forall|i: int| 0 <= i < p.len() - 1 ==> edge(g, #[trigger] p[i], p[i + 1])
}

/// `b` can be reached from `a` along zero or more edges.
pub open spec fn reach(g: Seq<Seq<usize>>, a: usize, b: usize) -> bool {
    exists|p: Seq<usize>| path(g, p, a, b)
}

/// `b` can be reached from `a` along one or more edges.
pub open spec fn leads_to(g: Seq<Seq<usize>>, a: usize, b: usize) -> bool {
    exists|p: usize| #[trigger] edge(g, p, b) && reach(g, a, p)
}

/// Some node can be reached from itself along one or more edges.
pub open spec fn has_cycle(g: Seq<Seq<usize>>) -> bool {
    exists|a: usize| #[trigger] leads_to(g, a, a)
}

pub proof fn reach_refl(g: Seq<Seq<usize>>, a: usize)
    ensures
        reach(g, a, a),
{
    assert(path(g, seq![a], a, a));
}

pub proof fn reach_edge(g: Seq<Seq<usize>>, a: usize, b: usize)
    requires
        edge(g, a, b),
    ensures
        reach(g, a, b),
{
    assert(path(g, seq![a, b], a, b));
}

pub proof fn reach_trans(g: Seq<Seq<usize>>, a: usize, b: usize, c: usize)
    requires
        reach(g, a, b),
        reach(g, b, c),
    ensures
        reach(g, a, c),
{
    let p = choose|p: Seq<usize>| path(g, p, a, b);
    let q = choose|q: Seq<usize>| path(g, q, b, c);
    let r = p + q.skip(1);
    assert forall|i: int| 0 <= i < r.len() - 1 implies edge(g, #[trigger] r[i], r[i + 1]) by {
        if i < p.len() - 1 {
            assert(r[i] == p[i] && r[i + 1] == p[i + 1]);
        } else {
            assert(r[i] == q[i - p.len() + 1]);
            assert(r[i + 1] == q[i - p.len() + 2]);
        }
    }
    assert(path(g, r, a, c));
}

/// A set that no edge leaves holds whatever can be reached from its elements.
pub proof fn reach_closed(g: Seq<Seq<usize>>, within: spec_fn(usize) -> bool, a: usize, b: usize)
    requires
        reach(g, a, b),
        within(a),
        forall|x: usize, y: usize| within(x) && #[trigger] edge(g, x, y) ==> within(y),
    ensures
        within(b),
{
    let p = choose|p: Seq<usize>| path(g, p, a, b);
    path_closed(g, within, p, p.len() - 1);
}

proof fn path_closed(g: Seq<Seq<usize>>, within: spec_fn(usize) -> bool, p: Seq<usize>, i: int)
    requires
        0 <= i < p.len(),
        forall|k: int| 0 <= k < p.len() - 1 ==> edge(g, #[trigger] p[k], p[k + 1]),
        within(p[0]),
        forall|x: usize, y: usize| within(x) && #[trigger] edge(g, x, y) ==> within(y),
    ensures
        within(p[i]),
    decreases i,
{
    if i > 0 {
        path_closed(g, within, p, i - 1);
        assert(edge(g, p[i - 1], p[i - 1 + 1]));
    }
}

// STRONGLY CONNECTED COMPONENTS
// ================================================================================================

/// `component` holds exactly the nodes that reach each of its members and are reached by them.
pub open spec fn is_component(g: Seq<Seq<usize>>, component: Seq<usize>) -> bool {
    &&& component.len() >= 1
    &&& component.no_duplicates()
    &&& forall|i: int| 0 <= i < component.len() ==> #[trigger] component[i] < g.len()
    &&& forall|a: usize, b: usize|
        component.contains(a) && b < g.len() ==> (#[trigger] component.contains(b) <==> #[trigger] reach(
            g,
            a,
            b,
        ) && reach(g, b, a))
}

/// No edge leads from one of the components to a node that stands in none of them or in a later
/// one.
pub open spec fn dependencies_first(g: Seq<Seq<usize>>, components: Seq<Seq<usize>>) -> bool {
    forall|i: int, a: usize, b: usize|
        0 <= i < components.len() && #[trigger] components[i].contains(a) && #[trigger] edge(g, a, b)
            ==> exists|j: int| 0 <= j <= i && #[trigger] components[j].contains(b)
}

/// No node stands in two of the components.
pub open spec fn disjoint(components: Seq<Seq<usize>>) -> bool {
    forall|i: int, j: int, a: usize|
        0 <= i < components.len() && 0 <= j < components.len() && #[trigger] components[i].contains(a)
            && #[trigger] components[j].contains(a) ==> i == j
}

/// `a` stands in one of the components.
pub open spec fn placed(components: Seq<Seq<usize>>, a: usize) -> bool {
    exists|i: int| 0 <= i < components.len() && #[trigger] components[i].contains(a)
}

/// Every node stands in one of the components.
pub open spec fn covers(g: Seq<Seq<usize>>, components: Seq<Seq<usize>>) -> bool {
    forall|a: usize| a < g.len() ==> #[trigger] placed(components, a)
}

/// `components` are the strongly connected components of `g`, each behind those it depends on.
#[verifier::opaque]
pub open spec fn is_decomposition(g: Seq<Seq<usize>>, components: Seq<Seq<usize>>) -> bool {
    &&& forall|i: int| 0 <= i < components.len() ==> is_component(g, #[trigger] components[i])
    &&& disjoint(components)
    &&& covers(g, components)
    &&& dependencies_first(g, components)
}

/// What a depth-first walk knows of a node it has met.
#[derive(Clone, Copy)]
struct Visit {
    index: usize,
    lowlink: usize,
    on_stack: bool,
}

/// A depth-first walk in progress.
struct Walk {
    /// What is known of each node.
    state: Seq<Option<Visit>>,
    /// The nodes met so far, in the order in which they were met.
    order: Seq<usize>,
    /// The nodes met that stand in no component yet.
    stack: Seq<usize>,
    /// The nodes whose successors are being visited, each with the number of those looked at.
    calls: Seq<(usize, usize)>,
    /// The components found.
    components: Seq<Seq<usize>>,
}

impl Walk {
    spec fn met(self, a: usize) -> bool {
        a < self.state.len() && self.state[a as int] is Some
    }

    spec fn stacked(self, a: usize) -> bool {
        self.met(a) && self.state[a as int]->0.on_stack
    }

    spec fn done(self, a: usize) -> bool {
        self.met(a) && !self.state[a as int]->0.on_stack
    }

    spec fn index(self, a: usize) -> int {
        self.state[a as int]->0.index as int
    }

    spec fn lowlink(self, a: usize) -> int {
        self.state[a as int]->0.lowlink as int
    }

    /// The successors of `a` that have been looked at are those before this position.
    spec fn looked_at(self, g: Seq<Seq<usize>>, a: usize, k: int) -> bool {
        &&& 0 <= k < g[a as int].len()
        &&& forall|c: int| 0 <= c < self.calls.len() && (#[trigger] self.calls[c]).0 == a ==> k < self.calls[c].1
    }

    #[verifier::opaque]
    spec fn shape(self, g: Seq<Seq<usize>>) -> bool {
        &&& well_formed(g)
        &&& self.state.len() == g.len()
        &&& self.order.no_duplicates()
        &&& forall|i: int|
            0 <= i < self.order.len() ==> self.met(#[trigger] self.order[i]) && self.index(self.order[i]) == i
        &&& forall|a: usize| #[trigger]
            self.met(a) ==> 0 <= self.index(a) < self.order.len() && self.order[self.index(a)] == a
        &&& forall|i: int| 0 <= i < self.stack.len() ==> self.stacked(#[trigger] self.stack[i])
        &&& forall|i: int, j: int|
            0 <= i < j < self.stack.len() ==> self.index(#[trigger] self.stack[i]) < self.index(
                #[trigger] self.stack[j],
            )
        &&& forall|a: usize| #[trigger] self.stacked(a) ==> self.stack.contains(a)
        &&& forall|c: int|
            0 <= c < self.calls.len() ==> self.stacked((#[trigger] self.calls[c]).0) && self.calls[c].1
                <= g[self.calls[c].0 as int].len()
        &&& forall|c: int, d: int|
            0 <= c < d < self.calls.len() ==> self.index((#[trigger] self.calls[c]).0) < self.index(
                (#[trigger] self.calls[d]).0,
            )
    }

    /// Every successor looked at has been met, and none of those of a node that is done is left.
    #[verifier::opaque]
    spec fn explored(self, g: Seq<Seq<usize>>) -> bool {
        &&& forall|a: usize, k: int|
            self.met(a) && #[trigger] self.looked_at(g, a, k) ==> self.met(g[a as int][k])
        &&& forall|a: usize, b: usize| self.done(a) && #[trigger] edge(g, a, b) ==> self.done(b)
    }

    /// The active nodes reach what was met after them, and every node on the stack reaches an
    /// active node that was met before it.
    #[verifier::opaque]
    spec fn connected(self, g: Seq<Seq<usize>>) -> bool {
        &&& forall|c: int, a: usize|
            0 <= c < self.calls.len() && #[trigger] self.stacked(a) && self.index((#[trigger] self.calls[c]).0)
                <= self.index(a) ==> reach(g, self.calls[c].0, a)
        &&& forall|a: usize| self.stacked(a) ==> #[trigger] self.anchored(g, a)
    }

    spec fn anchored(self, g: Seq<Seq<usize>>, a: usize) -> bool {
        exists|c: int|
            0 <= c < self.calls.len() && self.index((#[trigger] self.calls[c]).0) <= self.index(a) && reach(
                g,
                a,
                self.calls[c].0,
            )
    }

    /// A low link is the index of a stacked node that can be reached.
    #[verifier::opaque]
    spec fn links_reached(self, g: Seq<Seq<usize>>) -> bool {
        forall|c: int|
            0 <= c < self.calls.len() ==> {
                let a = (#[trigger] self.calls[c]).0;
                &&& self.lowlink(a) <= self.index(a)
                &&& self.linked(g, a)
            }
    }

    spec fn linked(self, g: Seq<Seq<usize>>, a: usize) -> bool {
        exists|w: usize| #[trigger] self.stacked(w) && self.index(w) == self.lowlink(a) && reach(g, a, w)
    }

    /// The node was met while the `c`-th active node was active, and before the next became so.
    spec fn in_segment(self, c: int, a: usize) -> bool {
        &&& self.stacked(a)
        &&& self.index(self.calls[c].0) <= self.index(a)
        &&& c + 1 < self.calls.len() ==> self.index(a) < self.index(self.calls[c + 1].0)
    }

    /// No edge looked at leads from the segment of an active node to a stacked node below its low
    /// link.
    #[verifier::opaque]
    spec fn links_low(self, g: Seq<Seq<usize>>) -> bool {
        forall|c: int, a: usize, k: int|
            0 <= c < self.calls.len() && #[trigger] self.in_segment(c, a) && #[trigger] self.looked_at(g, a, k)
                && self.stacked(g[a as int][k]) ==> self.lowlink(self.calls[c].0) <= self.index(
                g[a as int][k],
            )
    }

    #[verifier::opaque]
    spec fn collected(self, g: Seq<Seq<usize>>) -> bool {
        &&& forall|i: int| 0 <= i < self.components.len() ==> is_component(g, #[trigger] self.components[i])
        &&& disjoint(self.components)
        &&& dependencies_first(g, self.components)
        &&& forall|a: usize| #[trigger] self.done(a) ==> placed(self.components, a)
        &&& forall|i: int, a: usize|
            0 <= i < self.components.len() && #[trigger] self.components[i].contains(a) ==> self.done(a)
    }

    spec fn inv(self, g: Seq<Seq<usize>>) -> bool {
        &&& self.shape(g)
        &&& self.explored(g)
        &&& self.connected(g)
        &&& self.links_reached(g)
        &&& self.links_low(g)
        &&& self.collected(g)
    }

    /// The walk after it has met `a`, a node not met before.
    spec fn meet(self, a: usize) -> Walk {
        let index = self.order.len() as usize;
        Walk {
            state: self.state.update(a as int, Some(Visit { index, lowlink: index, on_stack: true })),
            order: self.order.push(a),
            stack: self.stack.push(a),
            calls: self.calls.push((a, 0usize)),
            components: self.components,
        }
    }

    /// The walk after the innermost active node has looked at one more successor.
    spec fn look(self) -> Walk {
        let c = self.calls.len() - 1;
        Walk {
            calls: self.calls.update(c, (self.calls[c].0, (self.calls[c].1 + 1) as usize)),
            ..self
        }
    }

    /// The walk after the low link of `a` was lowered to at most `link`.
    spec fn lower(self, a: usize, link: usize) -> Walk {
        let visit = self.state[a as int]->0;
        let lowlink = if visit.lowlink <= link { visit.lowlink } else { link };
        Walk { state: self.state.update(a as int, Some(Visit { lowlink, ..visit })), ..self }
    }

    /// The walk after the innermost active node has been left.
    spec fn leave(self) -> Walk {
        Walk { calls: self.calls.drop_last(), ..self }
    }

    /// The walk after the innermost active node has been left, and what lies above it on the stack
    /// has become a component.
    spec fn collect(self, m: int) -> Walk {
        let index = self.index(self.stack[m]);
        Walk {
            state: Seq::new(
                self.state.len(),
                |i: int|
                    match self.state[i] {
                        Some(visit) if visit.on_stack && visit.index >= index => Some(
                            Visit { on_stack: false, ..visit },
                        ),
                        other => other,
                    },
            ),
            stack: self.stack.take(m),
            calls: self.calls.drop_last(),
            components: self.components.push(self.stack.skip(m).reverse()),
            ..self
        }
    }
}

/// Nodes listed without repetition are at most as many as the graph has.
pub proof fn order_fits(order: Seq<usize>, n: int)
    requires
        order.no_duplicates(),
        0 <= n,
        forall|i: int| 0 <= i < order.len() ==> #[trigger] order[i] < n,
    ensures
        order.len() <= n,
{
    let ints = order.map_values(|a: usize| a as int);
    assert(ints.no_duplicates()) by {
        assert forall|i: int, j: int| 0 <= i < ints.len() && 0 <= j < ints.len() && i != j implies ints[i]
            != ints[j] by {
            assert(order[i] != order[j]);
        }
    }
    ints.unique_seq_to_set();
    let all = vstd::set_lib::set_int_range(0, n);
    vstd::set_lib::lemma_int_range(0, n);
    assert(ints.to_set().subset_of(all)) by {
        assert forall|x: int| ints.to_set().contains(x) implies all.contains(x) by {
            let i = choose|i: int| 0 <= i < ints.len() && ints[i] == x;
            assert(order[i] < n);
        }
    }
    vstd::set_lib::lemma_len_subset(ints.to_set(), all);
}

/// How the walk `n`, which has just met `a`, differs from `w`.
spec fn grown(w: Walk, n: Walk, g: Seq<Seq<usize>>, a: usize) -> bool {
    let last = n.calls.len() - 1;
    &&& a < g.len()
    &&& last == w.calls.len()
    &&& n.calls[last] == (a, 0usize)
    &&& forall|x: usize| #[trigger] n.met(x) <==> w.met(x) || x == a
    &&& forall|x: usize| #[trigger] n.stacked(x) <==> w.stacked(x) || x == a
    &&& forall|x: usize| #[trigger] n.done(x) <==> w.done(x)
    &&& forall|x: usize| w.met(x) ==> #[trigger] n.index(x) == w.index(x)
    &&& forall|x: usize| w.met(x) ==> #[trigger] n.lowlink(x) == w.lowlink(x)
    &&& forall|x: usize| #[trigger] w.met(x) ==> w.index(x) < n.index(a)
    &&& n.lowlink(a) == n.index(a)
    &&& forall|c: int| 0 <= c < last ==> (#[trigger] n.calls[c]).0 == w.calls[c].0
    &&& forall|c: int| 0 <= c < last ==> w.stacked((#[trigger] w.calls[c]).0)
    &&& forall|c: int, d: int|
        0 <= c <= d < last ==> w.index((#[trigger] w.calls[c]).0) <= w.index((#[trigger] w.calls[d]).0)
    &&& forall|k: int| !n.looked_at(g, a, k)
    &&& forall|x: usize, k: int| #[trigger]
        n.looked_at(g, x, k) && x != a ==> w.looked_at(g, x, k) || (last > 0 && x == w.calls[last - 1].0
            && k == w.calls[last - 1].1)
    &&& last > 0 ==> edge(g, w.calls[last - 1].0, a) && g[w.calls[last - 1].0 as int][w.calls[last - 1].1 as int]
        == a
    &&& n.components == w.components
}

proof fn meet_shape(w: Walk, g: Seq<Seq<usize>>, a: usize)
    requires
        w.shape(g),
        a < g.len(),
        !w.met(a),
        w.calls.len() > 0 ==> {
            let top = w.calls[w.calls.len() - 1];
            top.1 < g[top.0 as int].len() && g[top.0 as int][top.1 as int] == a
        },
    ensures
        ({
            let n = if w.calls.len() > 0 { w.look().meet(a) } else { w.meet(a) };
            n.shape(g) && grown(w, n, g, a)
        }),
        w.order.len() < g.len(),
{
    reveal(Walk::shape);
    assert(w.order.push(a).len() <= g.len()) by {
        let order = w.order.push(a);
        assert forall|i: int| 0 <= i < order.len() implies #[trigger] order[i] < g.len() by {
            if i < w.order.len() {
                assert(w.met(w.order[i]));
            }
        }
        assert(order.no_duplicates()) by {
            assert forall|i: int| 0 <= i < w.order.len() implies w.order[i] != a by {
                assert(w.met(w.order[i]));
            }
        }
        order_fits(order, g.len() as int);
    }
    let v = if w.calls.len() > 0 { w.look() } else { w };
    let n = v.meet(a);
    let last = n.calls.len() - 1;
    assert(n.calls[last] == (a, 0usize));
    assert(forall|c: int| 0 <= c < last ==> (#[trigger] n.calls[c]).0 == w.calls[c].0);
    assert(n.shape(g)) by {
        assert forall|x: usize| #[trigger] n.stacked(x) implies n.stack.contains(x) by {
            if x == a {
                assert(n.stack[n.stack.len() - 1] == a);
            } else {
                assert(w.stacked(x));
                let i = choose|i: int| 0 <= i < w.stack.len() && w.stack[i] == x;
                assert(n.stack[i] == x);
            }
        }
        assert forall|x: usize| #[trigger] n.met(x) implies 0 <= n.index(x) < n.order.len()
            && n.order[n.index(x)] == x by {
            if x != a {
                assert(w.met(x));
            }
        }
        assert forall|i: int, j: int| 0 <= i < j < n.stack.len() implies n.index(#[trigger] n.stack[i])
            < n.index(#[trigger] n.stack[j]) by {
            assert(w.stacked(w.stack[i]));
        }
        assert forall|c: int, d: int| 0 <= c < d < n.calls.len() implies n.index((#[trigger] n.calls[c]).0)
            < n.index((#[trigger] n.calls[d]).0) by {
            assert(w.stacked(w.calls[c].0));
        }
    }
    assert forall|x: usize, k: int| #[trigger] n.looked_at(g, x, k) && x != a implies w.looked_at(g, x, k)
        || (last > 0 && x == w.calls[last - 1].0 && k == w.calls[last - 1].1) by {
        if !w.looked_at(g, x, k) {
            let c = choose|c: int| 0 <= c < w.calls.len() && (#[trigger] w.calls[c]).0 == x && k >= w.calls[c].1;
            assert(n.calls[c].0 == x);
        }
    }
    assert forall|k: int| !n.looked_at(g, a, k) by {
        assert(n.calls[last].0 == a);
    }
}

proof fn meet_explored(w: Walk, n: Walk, g: Seq<Seq<usize>>, a: usize)
    requires
        w.explored(g),
        w.collected(g),
        grown(w, n, g, a),
    ensures
        n.explored(g),
        n.collected(g),
{
    reveal(Walk::explored);
    reveal(Walk::collected);
    assert forall|x: usize, k: int| n.met(x) && #[trigger] n.looked_at(g, x, k) implies n.met(g[x as int][k]) by {
        if !w.looked_at(g, x, k) {
            assert(g[x as int][k] == a);
        } else {
            assert(w.met(g[x as int][k]));
        }
    }
}

proof fn meet_connected(w: Walk, n: Walk, g: Seq<Seq<usize>>, a: usize)
    requires
        w.connected(g),
        grown(w, n, g, a),
    ensures
        n.connected(g),
{
    reveal(Walk::connected);
    let last = n.calls.len() - 1;
    reach_refl(g, a);
    assert forall|c: int, x: usize|
        0 <= c < n.calls.len() && #[trigger] n.stacked(x) && n.index((#[trigger] n.calls[c]).0) <= n.index(
            x,
        ) implies reach(g, n.calls[c].0, x) by {
        if c == last {
            if x != a {
                assert(w.met(x));
            }
        } else {
            assert(w.stacked(w.calls[c].0));
            if x == a {
                let top = w.calls[last - 1].0;
                assert(w.stacked(top));
                reach_edge(g, top, a);
                assert(w.index(w.calls[c].0) <= w.index(top));
                reach_trans(g, w.calls[c].0, top, a);
            } else {
                assert(w.stacked(x));
            }
        }
    }
    assert forall|x: usize| n.stacked(x) implies #[trigger] n.anchored(g, x) by {
        if x == a {
            assert(n.calls[last].0 == a);
        } else {
            assert(w.stacked(x) && w.anchored(g, x));
            let c = choose|c: int|
                0 <= c < w.calls.len() && w.index((#[trigger] w.calls[c]).0) <= w.index(x) && reach(
                    g,
                    x,
                    w.calls[c].0,
                );
            assert(w.stacked(w.calls[c].0));
            assert(n.calls[c].0 == w.calls[c].0);
        }
    }
}

proof fn meet_links(w: Walk, n: Walk, g: Seq<Seq<usize>>, a: usize)
    requires
        w.links_reached(g),
        w.links_low(g),
        grown(w, n, g, a),
    ensures
        n.links_reached(g),
        n.links_low(g),
{
    reveal(Walk::links_reached);
    reveal(Walk::links_low);
    let last = n.calls.len() - 1;
    reach_refl(g, a);
    assert forall|c: int| 0 <= c < n.calls.len() implies {
        let x = (#[trigger] n.calls[c]).0;
        &&& n.lowlink(x) <= n.index(x)
        &&& n.linked(g, x)
    } by {
        if c == last {
            assert(n.stacked(a));
        } else {
            let x = w.calls[c].0;
            assert(w.stacked(x));
            assert(w.linked(g, x));
            let y = choose|y: usize| #[trigger]
                w.stacked(y) && w.index(y) == w.lowlink(x) && reach(g, x, y);
            assert(n.stacked(y));
        }
    }
    assert forall|c: int, x: usize, k: int|
        0 <= c < n.calls.len() && #[trigger] n.in_segment(c, x) && #[trigger] n.looked_at(g, x, k)
            && n.stacked(g[x as int][k]) implies n.lowlink(n.calls[c].0) <= n.index(g[x as int][k]) by {
        if c == last {
            assert(x == a);
        } else {
            assert(n.stacked(x));
            assert(w.stacked(w.calls[c].0));
            if c + 1 < last {
                assert(w.stacked(w.calls[c + 1].0));
                assert(n.calls[c + 1].0 == w.calls[c + 1].0);
                assert(w.index(w.calls[c + 1].0) < n.index(a));
            }
            assert(x != a);
            assert(w.in_segment(c, x));
            let y = g[x as int][k];
            let top = w.calls[c].0;
            assert(w.lowlink(top) <= w.index(top));
            if y != a {
                assert(w.stacked(y));
                assert(w.looked_at(g, x, k));
            }
        }
    }
}

proof fn meet_keeps(w: Walk, g: Seq<Seq<usize>>, a: usize)
    requires
        w.inv(g),
        a < g.len(),
        !w.met(a),
        w.calls.len() > 0 ==> {
            let top = w.calls[w.calls.len() - 1];
            top.1 < g[top.0 as int].len() && g[top.0 as int][top.1 as int] == a
        },
    ensures
        (if w.calls.len() > 0 { w.look().meet(a) } else { w.meet(a) }).inv(g),
        w.order.len() < g.len(),
{
    let n = if w.calls.len() > 0 { w.look().meet(a) } else { w.meet(a) };
    meet_shape(w, g, a);
    meet_explored(w, n, g, a);
    meet_connected(w, n, g, a);
    meet_links(w, n, g, a);
}

/// The innermost active node looks at a successor that has been met before.
proof fn look_keeps(w: Walk, g: Seq<Seq<usize>>)
    requires
        w.inv(g),
        w.calls.len() > 0,
        ({
            let top = w.calls[w.calls.len() - 1];
            top.1 < g[top.0 as int].len() && w.met(g[top.0 as int][top.1 as int])
        }),
    ensures
        ({
            let top = w.calls[w.calls.len() - 1];
            let b = g[top.0 as int][top.1 as int];
            let n = if w.stacked(b) { w.look().lower(top.0, w.state[b as int]->0.index) } else { w.look() };
            n.inv(g)
        }),
{
    let last = w.calls.len() - 1;
    let top = w.calls[last].0;
    let b = g[top as int][w.calls[last].1 as int];
    let n = if w.stacked(b) { w.look().lower(top, w.state[b as int]->0.index) } else { w.look() };
    assert(w.stacked(top)) by {
        reveal(Walk::shape);
    }
    assert(w.state.len() == g.len()) by {
        reveal(Walk::shape);
    }
    assert(edge(g, top, b));
    reach_edge(g, top, b);
    assert(forall|x: usize| #[trigger] n.met(x) <==> w.met(x));
    assert(forall|x: usize| #[trigger] n.stacked(x) <==> w.stacked(x));
    assert(forall|x: usize| #[trigger] n.done(x) <==> w.done(x));
    assert(forall|x: usize| w.met(x) ==> #[trigger] n.index(x) == w.index(x));
    assert(forall|x: usize| w.met(x) && x != top ==> #[trigger] n.lowlink(x) == w.lowlink(x));
    assert(n.lowlink(top) <= w.lowlink(top));
    assert(forall|c: int| 0 <= c <= last ==> (#[trigger] n.calls[c]).0 == w.calls[c].0);
    assert(forall|c: int| 0 <= c < last ==> #[trigger] n.calls[c] == w.calls[c]);
    assert(forall|c: int| 0 <= c < last ==> (#[trigger] w.calls[c]).0 != top && w.stacked(w.calls[c].0)) by {
        reveal(Walk::shape);
    }
    assert(n.shape(g)) by {
        reveal(Walk::shape);
    }
    assert forall|x: usize, k: int| #[trigger] n.looked_at(g, x, k) implies w.looked_at(g, x, k) || (x == top
        && k == w.calls[last].1) by {
        if !w.looked_at(g, x, k) {
            let c = choose|c: int| 0 <= c < w.calls.len() && (#[trigger] w.calls[c]).0 == x && k >= w.calls[c].1;
            assert(n.calls[c].0 == x);
        }
    }
    assert(n.explored(g)) by {
        reveal(Walk::explored);
    }
    assert(n.collected(g)) by {
        reveal(Walk::collected);
    }
    assert(n.connected(g)) by {
        reveal(Walk::connected);
        assert forall|c: int, x: usize|
            0 <= c < n.calls.len() && #[trigger] n.stacked(x) && n.index((#[trigger] n.calls[c]).0) <= n.index(
                x,
            ) implies reach(g, n.calls[c].0, x) by {
            assert(w.stacked(x) && w.met(w.calls[c].0));
        }
        assert forall|x: usize| n.stacked(x) implies #[trigger] n.anchored(g, x) by {
            assert(w.stacked(x) && w.anchored(g, x));
            let c = choose|c: int|
                0 <= c < w.calls.len() && w.index((#[trigger] w.calls[c]).0) <= w.index(x) && reach(
                    g,
                    x,
                    w.calls[c].0,
                );
            assert(n.calls[c].0 == w.calls[c].0);
        }
    }
    assert(n.links_reached(g)) by {
        reveal(Walk::links_reached);
        assert forall|c: int| 0 <= c < n.calls.len() implies {
            let x = (#[trigger] n.calls[c]).0;
            &&& n.lowlink(x) <= n.index(x)
            &&& n.linked(g, x)
        } by {
            let x = w.calls[c].0;
            assert(w.linked(g, x));
            let y = choose|y: usize| #[trigger]
                w.stacked(y) && w.index(y) == w.lowlink(x) && reach(g, x, y);
            assert(n.stacked(y));
            if x == top && n.lowlink(top) != w.lowlink(top) {
                assert(n.stacked(b));
            }
        }
    }
    assert(n.links_low(g)) by {
        reveal(Walk::links_low);
        assert forall|c: int, x: usize, k: int|
            0 <= c < n.calls.len() && #[trigger] n.in_segment(c, x) && #[trigger] n.looked_at(g, x, k)
                && n.stacked(g[x as int][k]) implies n.lowlink(n.calls[c].0) <= n.index(g[x as int][k]) by {
            assert(w.stacked(x));
            assert(w.met(w.calls[c].0));
            if c + 1 < w.calls.len() {
                assert(n.calls[c + 1].0 == w.calls[c + 1].0);
                assert(w.met(w.calls[c + 1].0));
            }
            assert(w.in_segment(c, x));
            let y = g[x as int][k];
            assert(w.stacked(y));
            if !w.looked_at(g, x, k) {
                assert(y == b);
                if c < last {
                    assert(w.index(top) < w.index(w.calls[c + 1].0));
                    assert(false) by {
                        reveal(Walk::shape);
                        if c + 1 < last {
                            assert(w.index(w.calls[c + 1].0) < w.index(w.calls[last].0));
                        }
                    }
                }
                assert(n.lowlink(top) <= n.index(b));
            } else {
                assert(w.lowlink(w.calls[c].0) <= w.index(y));
            }
        }
    }
}

/// How the walk `n`, which has just left its innermost active node, differs from `w`.
spec fn left(w: Walk, n: Walk, g: Seq<Seq<usize>>) -> bool {
    let last = w.calls.len() - 1;
    let top = w.calls[last].0;
    let parent = w.calls[last - 1].0;
    &&& last > 0
    &&& n.calls.len() == last
    &&& forall|c: int| 0 <= c < last ==> #[trigger] n.calls[c] == w.calls[c]
    &&& forall|c: int| 0 <= c <= last ==> w.stacked((#[trigger] w.calls[c]).0)
    &&& w.stacked(parent) && w.stacked(top) && w.index(parent) < w.index(top)
    &&& forall|x: usize| #[trigger] n.met(x) <==> w.met(x)
    &&& forall|x: usize| #[trigger] n.stacked(x) <==> w.stacked(x)
    &&& forall|x: usize| #[trigger] n.done(x) <==> w.done(x)
    &&& forall|x: usize| w.met(x) ==> #[trigger] n.index(x) == w.index(x)
    &&& forall|x: usize| w.met(x) && x != parent ==> #[trigger] n.lowlink(x) == w.lowlink(x)
    &&& n.lowlink(parent) <= w.lowlink(parent)
    &&& n.lowlink(parent) <= w.lowlink(top)
    &&& n.lowlink(parent) == w.lowlink(parent) || n.lowlink(parent) == w.lowlink(top)
    &&& forall|x: usize, k: int| #[trigger] n.looked_at(g, x, k) ==> w.looked_at(g, x, k)
    &&& n.components == w.components
}

proof fn leave_shape(w: Walk, g: Seq<Seq<usize>>)
    requires
        w.shape(g),
        w.calls.len() > 1,
        ({
            let top = w.calls[w.calls.len() - 1];
            top.1 == g[top.0 as int].len()
        }),
    ensures
        ({
            let n = w.leave().lower(
                w.calls[w.calls.len() - 2].0,
                w.state[w.calls[w.calls.len() - 1].0 as int]->0.lowlink,
            );
            n.shape(g) && left(w, n, g)
        }),
{
    reveal(Walk::shape);
    let last = w.calls.len() - 1;
    let top = w.calls[last].0;
    let parent = w.calls[last - 1].0;
    assert(w.stacked(w.calls[last].0) && w.stacked(w.calls[last - 1].0));
    let n = w.leave().lower(parent, w.state[top as int]->0.lowlink);
    assert(w.index(parent) < w.index(top));
    assert forall|x: usize, k: int| #[trigger] n.looked_at(g, x, k) implies w.looked_at(g, x, k) by {
        if !w.looked_at(g, x, k) {
            let c = choose|c: int| 0 <= c < w.calls.len() && (#[trigger] w.calls[c]).0 == x && k >= w.calls[c].1;
            if c < last {
                assert(n.calls[c].0 == x);
            }
        }
    }
    assert(left(w, n, g));
    assert(n.shape(g));
}

proof fn leave_explored(w: Walk, n: Walk, g: Seq<Seq<usize>>)
    requires
        w.explored(g),
        w.collected(g),
        left(w, n, g),
    ensures
        n.explored(g),
        n.collected(g),
{
    reveal(Walk::explored);
    reveal(Walk::collected);
}

proof fn leave_connected(w: Walk, n: Walk, g: Seq<Seq<usize>>, back: int)
    requires
        w.connected(g),
        left(w, n, g),
        0 <= back < n.calls.len(),
        reach(g, w.calls[w.calls.len() - 1].0, w.calls[back].0),
        w.index(w.calls[back].0) <= w.index(w.calls[w.calls.len() - 1].0),
    ensures
        n.connected(g),
{
    reveal(Walk::connected);
    let last = w.calls.len() - 1;
    let top = w.calls[last].0;
    assert forall|c: int, x: usize|
        0 <= c < n.calls.len() && #[trigger] n.stacked(x) && n.index((#[trigger] n.calls[c]).0) <= n.index(
            x,
        ) implies reach(g, n.calls[c].0, x) by {
        assert(w.stacked(x) && w.stacked(w.calls[c].0));
    }
    assert forall|x: usize| n.stacked(x) implies #[trigger] n.anchored(g, x) by {
        assert(w.stacked(x) && w.anchored(g, x));
        let c = choose|c: int|
            0 <= c < w.calls.len() && w.index((#[trigger] w.calls[c]).0) <= w.index(x) && reach(
                g,
                x,
                w.calls[c].0,
            );
        assert(w.stacked(w.calls[c].0));
        if c < last {
            assert(n.calls[c].0 == w.calls[c].0);
        } else {
            reach_trans(g, x, top, w.calls[back].0);
            assert(n.calls[back].0 == w.calls[back].0);
            assert(w.stacked(w.calls[back].0));
        }
    }
}

proof fn leave_links(w: Walk, n: Walk, g: Seq<Seq<usize>>, low: usize)
    requires
        w.links_reached(g),
        w.links_low(g),
        left(w, n, g),
        w.stacked(low),
        w.index(low) == w.lowlink(w.calls[w.calls.len() - 1].0),
        reach(g, w.calls[w.calls.len() - 2].0, low),
    ensures
        n.links_reached(g),
        n.links_low(g),
{
    reveal(Walk::links_reached);
    reveal(Walk::links_low);
    let last = w.calls.len() - 1;
    let top = w.calls[last].0;
    let parent = w.calls[last - 1].0;
    assert forall|c: int| 0 <= c < n.calls.len() implies {
        let x = (#[trigger] n.calls[c]).0;
        &&& n.lowlink(x) <= n.index(x)
        &&& n.linked(g, x)
    } by {
        let x = w.calls[c].0;
        assert(w.stacked(x));
        assert(w.lowlink(x) <= w.index(x));
        if x == parent && n.lowlink(parent) != w.lowlink(parent) {
            assert(n.stacked(low));
        } else {
            assert(w.linked(g, x));
            let y = choose|y: usize| #[trigger]
                w.stacked(y) && w.index(y) == w.lowlink(x) && reach(g, x, y);
            assert(n.stacked(y));
        }
    }
    assert forall|c: int, x: usize, k: int|
        0 <= c < n.calls.len() && #[trigger] n.in_segment(c, x) && #[trigger] n.looked_at(g, x, k)
            && n.stacked(g[x as int][k]) implies n.lowlink(n.calls[c].0) <= n.index(g[x as int][k]) by {
        assert(w.stacked(x));
        assert(w.stacked(w.calls[c].0));
        if c + 1 < last {
            assert(n.calls[c + 1].0 == w.calls[c + 1].0);
            assert(w.stacked(w.calls[c + 1].0));
            assert(w.in_segment(c, x));
        } else {
            if w.index(x) < w.index(top) {
                assert(w.in_segment(c, x));
            } else {
                assert(w.in_segment(last, x));
            }
        }
        assert(w.stacked(g[x as int][k]));
    }
}

/// The low link of a node, when it lies below its index, leads back to an active node met before
/// it.
proof fn link_leads_back(w: Walk, g: Seq<Seq<usize>>) -> (found: (usize, int))
    requires
        w.inv(g),
        w.calls.len() > 0,
        w.lowlink(w.calls[w.calls.len() - 1].0) != w.index(w.calls[w.calls.len() - 1].0),
    ensures
        w.calls.len() > 1,
        ({
            let top = w.calls[w.calls.len() - 1].0;
            let (low, back) = found;
            &&& w.stacked(low)
            &&& w.index(low) == w.lowlink(top)
            &&& reach(g, w.calls[w.calls.len() - 2].0, low)
            &&& 0 <= back < w.calls.len() - 1
            &&& reach(g, top, w.calls[back].0)
            &&& w.index(w.calls[back].0) <= w.index(top)
        }),
{
    let last = w.calls.len() - 1;
    let top = w.calls[last].0;
    assert(w.linked(g, top)) by {
        reveal(Walk::links_reached);
        assert(w.calls[last].0 == top);
    }
    let low = choose|y: usize| #[trigger]
        w.stacked(y) && w.index(y) == w.lowlink(top) && reach(g, top, y);
    assert(w.lowlink(top) < w.index(top) && w.stacked(low) && w.index(low) == w.lowlink(top) && reach(
        g,
        top,
        low,
    )) by {
        reveal(Walk::links_reached);
        assert(w.calls[last].0 == top);
    }
    assert(w.anchored(g, low)) by {
        reveal(Walk::connected);
    }
    let back = choose|c: int|
        0 <= c < w.calls.len() && w.index((#[trigger] w.calls[c]).0) <= w.index(low) && reach(
            g,
            low,
            w.calls[c].0,
        );
    reach_trans(g, top, low, w.calls[back].0);
    let parent = w.calls[last - 1].0;
    assert(reach(g, parent, top)) by {
        reveal(Walk::connected);
        reveal(Walk::shape);
        assert(w.calls[last - 1].0 == parent);
        assert(w.stacked(top));
    }
    reach_trans(g, parent, top, low);
    (low, back)
}

/// The innermost active node has looked at all its successors and belongs to the component of a
/// node met before it.
proof fn leave_keeps(w: Walk, g: Seq<Seq<usize>>)
    requires
        w.inv(g),
        w.calls.len() > 0,
        ({
            let top = w.calls[w.calls.len() - 1];
            top.1 == g[top.0 as int].len() && w.lowlink(top.0) != w.index(top.0)
        }),
    ensures
        w.calls.len() > 1,
        w.leave().lower(
            w.calls[w.calls.len() - 2].0,
            w.state[w.calls[w.calls.len() - 1].0 as int]->0.lowlink,
        ).inv(g),
{
    let (low, back) = link_leads_back(w, g);
    let n = w.leave().lower(
        w.calls[w.calls.len() - 2].0,
        w.state[w.calls[w.calls.len() - 1].0 as int]->0.lowlink,
    );
    leave_shape(w, g);
    leave_explored(w, n, g);
    leave_connected(w, n, g, back);
    leave_links(w, n, g, low);
}

/// The innermost active node has looked at all its successors, and `m` is its place on the stack.
spec fn finished(w: Walk, g: Seq<Seq<usize>>, m: int) -> bool {
    let last = w.calls.len() - 1;
    let top = w.calls[last].0;
    &&& last >= 0
    &&& 0 <= m < w.stack.len()
    &&& w.stack[m] == top
    &&& w.calls[last].1 == g[top as int].len()
    &&& w.lowlink(top) == w.index(top)
}

/// The node was met with the innermost active node or after it, and is still on the stack.
spec fn above(w: Walk, m: int, x: usize) -> bool {
    w.stacked(x) && w.index(x) >= w.index(w.stack[m])
}

proof fn above_is_suffix(w: Walk, g: Seq<Seq<usize>>, m: int)
    requires
        w.shape(g),
        finished(w, g, m),
    ensures
        forall|x: usize| #[trigger] above(w, m, x) <==> w.stack.skip(m).reverse().contains(x),
        w.stack.skip(m).reverse().no_duplicates(),
{
    reveal(Walk::shape);
    let c = w.stack.skip(m).reverse();
    assert forall|x: usize| #[trigger] above(w, m, x) implies c.contains(x) by {
        assert(w.stack.contains(x));
        let i = choose|i: int| 0 <= i < w.stack.len() && w.stack[i] == x;
        if i < m {
            assert(w.index(w.stack[i]) < w.index(w.stack[m]));
        }
        assert(c[w.stack.len() - 1 - i] == x);
    }
    assert forall|x: usize| c.contains(x) implies above(w, m, x) by {
        let j = choose|j: int| 0 <= j < c.len() && c[j] == x;
        let i = w.stack.len() - 1 - j;
        assert(w.stack[i] == x);
        assert(w.stacked(w.stack[i]));
        if m < i {
            assert(w.index(w.stack[m]) < w.index(w.stack[i]));
        }
    }
    assert forall|i: int, j: int| 0 <= i < c.len() && 0 <= j < c.len() && i != j implies c[i] != c[j] by {
        let a = w.stack.len() - 1 - i;
        let b = w.stack.len() - 1 - j;
        assert(c[i] == w.stack[a] && c[j] == w.stack[b]);
        if a < b {
            assert(w.index(w.stack[a]) < w.index(w.stack[b]));
        } else {
            assert(w.index(w.stack[b]) < w.index(w.stack[a]));
        }
    }
}

/// No edge leads from the nodes above the innermost active node to the others on the stack.
proof fn above_is_closed(w: Walk, g: Seq<Seq<usize>>, m: int)
    requires
        w.shape(g),
        w.explored(g),
        w.links_low(g),
        finished(w, g, m),
    ensures
        forall|x: usize, y: usize|
            above(w, m, x) && #[trigger] edge(g, x, y) ==> above(w, m, y) || w.done(y),
        forall|x: usize, y: usize| w.done(x) && #[trigger] edge(g, x, y) ==> w.done(y),
{
    let last = w.calls.len() - 1;
    let top = w.calls[last].0;
    assert forall|x: usize, y: usize| above(w, m, x) && #[trigger] edge(g, x, y) implies above(w, m, y)
        || w.done(y) by {
        let k = choose|k: int| 0 <= k < g[x as int].len() && g[x as int][k] == y;
        assert(w.looked_at(g, x, k)) by {
            reveal(Walk::shape);
            assert forall|c: int| 0 <= c < w.calls.len() && (#[trigger] w.calls[c]).0 == x implies k
                < w.calls[c].1 by {
                if c < last {
                    assert(w.index(w.calls[c].0) < w.index(w.calls[last].0));
                }
            }
        }
        assert(w.met(y)) by {
            reveal(Walk::explored);
        }
        if w.stacked(y) {
            assert(w.in_segment(last, x));
            reveal(Walk::links_low);
        }
    }
    reveal(Walk::explored);
}

proof fn above_is_component(w: Walk, g: Seq<Seq<usize>>, m: int)
    requires
        w.shape(g),
        w.explored(g),
        w.links_low(g),
        w.connected(g),
        finished(w, g, m),
    ensures
        is_component(g, w.stack.skip(m).reverse()),
        forall|x: usize| #[trigger] above(w, m, x) <==> w.stack.skip(m).reverse().contains(x),
{
    above_is_suffix(w, g, m);
    above_is_closed(w, g, m);
    let last = w.calls.len() - 1;
    let top = w.calls[last].0;
    let component = w.stack.skip(m).reverse();
    assert(w.stacked(top)) by {
        reveal(Walk::shape);
        assert(w.stacked(w.calls[last].0));
    }
    assert forall|x: usize| #[trigger] above(w, m, x) implies reach(g, x, top) && reach(g, top, x) by {
        assert(w.anchored(g, x) && reach(g, top, x)) by {
            reveal(Walk::connected);
            assert(w.calls[last].0 == top);
        }
        let c = choose|c: int|
            0 <= c < w.calls.len() && w.index((#[trigger] w.calls[c]).0) <= w.index(x) && reach(
                g,
                x,
                w.calls[c].0,
            );
        reach_closed(g, |z: usize| above(w, m, z) || w.done(z), x, w.calls[c].0);
        assert(w.stacked(w.calls[c].0)) by {
            reveal(Walk::shape);
        }
        if c < last {
            assert(w.index(w.calls[c].0) < w.index(w.calls[last].0)) by {
                reveal(Walk::shape);
            }
        }
    }
    assert forall|a: usize, b: usize| component.contains(a) && b < g.len() implies (#[trigger] component.contains(
        b,
    ) <==> #[trigger] reach(g, a, b) && reach(g, b, a)) by {
        assert(above(w, m, a));
        if component.contains(b) {
            assert(above(w, m, b));
            reach_trans(g, a, top, b);
            reach_trans(g, b, top, a);
        }
        if reach(g, a, b) && reach(g, b, a) {
            reach_closed(g, |z: usize| above(w, m, z) || w.done(z), a, b);
            if w.done(b) {
                reach_closed(g, |z: usize| w.done(z), b, a);
            }
            assert(above(w, m, b));
        }
    }
    assert(component[component.len() - 1] == top);
    assert forall|i: int| 0 <= i < component.len() implies #[trigger] component[i] < g.len() by {
        assert(component.contains(component[i]));
        assert(above(w, m, component[i]));
        reveal(Walk::shape);
    }
}

/// How the walk `n`, which has just turned the top of its stack into a component, differs from `w`.
spec fn gathered(w: Walk, n: Walk, g: Seq<Seq<usize>>, m: int) -> bool {
    let last = w.calls.len() - 1;
    &&& n.calls.len() == last
    &&& forall|c: int| 0 <= c < last ==> #[trigger] n.calls[c] == w.calls[c]
    &&& forall|c: int| 0 <= c < last ==> n.stacked((#[trigger] w.calls[c]).0)
    &&& forall|c: int| 0 <= c < last ==> w.index((#[trigger] w.calls[c]).0) < w.index(w.stack[m])
    &&& forall|x: usize| #[trigger] n.met(x) <==> w.met(x)
    &&& forall|x: usize| #[trigger] n.stacked(x) <==> w.stacked(x) && !above(w, m, x)
    &&& forall|x: usize| #[trigger] n.done(x) <==> w.done(x) || above(w, m, x)
    &&& forall|x: usize| w.met(x) ==> #[trigger] n.index(x) == w.index(x)
    &&& forall|x: usize| w.met(x) ==> #[trigger] n.lowlink(x) == w.lowlink(x)
    &&& forall|x: usize, k: int| #[trigger] n.looked_at(g, x, k) ==> w.looked_at(g, x, k)
    &&& n.components == w.components.push(w.stack.skip(m).reverse())
}

proof fn collect_shape(w: Walk, g: Seq<Seq<usize>>, m: int)
    requires
        w.shape(g),
        finished(w, g, m),
    ensures
        w.collect(m).shape(g),
        gathered(w, w.collect(m), g, m),
{
    reveal(Walk::shape);
    let n = w.collect(m);
    let last = w.calls.len() - 1;
    let top = w.calls[last].0;
    assert(w.stacked(w.calls[last].0));
    assert forall|x: usize| #[trigger] n.met(x) <==> w.met(x) by {}
    assert forall|x: usize| w.met(x) implies #[trigger] n.index(x) == w.index(x) by {}
    assert forall|x: usize| #[trigger] n.stacked(x) <==> w.stacked(x) && !above(w, m, x) by {}
    assert forall|x: usize| #[trigger] n.stacked(x) implies n.stack.contains(x) by {
        assert(w.stacked(x));
        let i = choose|i: int| 0 <= i < w.stack.len() && w.stack[i] == x;
        if m < i {
            assert(w.index(w.stack[m]) < w.index(w.stack[i]));
        }
        assert(n.stack[i] == x);
    }
    assert forall|i: int| 0 <= i < n.stack.len() implies n.stacked(#[trigger] n.stack[i]) by {
        assert(w.stacked(w.stack[i]));
        assert(w.index(w.stack[i]) < w.index(w.stack[m]));
    }
    assert forall|c: int| 0 <= c < last implies w.index((#[trigger] w.calls[c]).0) < w.index(w.stack[m]) by {
        assert(w.index(w.calls[c].0) < w.index(w.calls[last].0));
    }
    assert forall|x: usize, k: int| #[trigger] n.looked_at(g, x, k) implies w.looked_at(g, x, k) by {
        if !w.looked_at(g, x, k) {
            let c = choose|c: int| 0 <= c < w.calls.len() && (#[trigger] w.calls[c]).0 == x && k >= w.calls[c].1;
            if c < last {
                assert(n.calls[c].0 == x);
            }
        }
    }
    assert forall|i: int, j: int| 0 <= i < j < n.stack.len() implies n.index(#[trigger] n.stack[i]) < n.index(
        #[trigger] n.stack[j],
    ) by {
        assert(w.stacked(w.stack[i]) && w.stacked(w.stack[j]));
    }
    assert forall|i: int| 0 <= i < n.order.len() implies n.met(#[trigger] n.order[i]) && n.index(n.order[i]) == i by {
        assert(w.met(w.order[i]));
    }
    assert forall|c: int| 0 <= c < n.calls.len() implies n.stacked((#[trigger] n.calls[c]).0) && n.calls[c].1
        <= g[n.calls[c].0 as int].len() by {
        assert(w.stacked(w.calls[c].0));
    }
    assert forall|c: int, d: int| 0 <= c < d < n.calls.len() implies n.index((#[trigger] n.calls[c]).0) < n.index(
        (#[trigger] n.calls[d]).0,
    ) by {
        assert(w.stacked(w.calls[c].0) && w.stacked(w.calls[d].0));
    }
    assert(n.shape(g));
}

proof fn collect_links(w: Walk, n: Walk, g: Seq<Seq<usize>>, m: int)
    requires
        w.links_reached(g),
        w.links_low(g),
        gathered(w, n, g, m),
        finished(w, g, m),
        w.stacked(w.stack[m]),
    ensures
        n.links_reached(g),
        n.links_low(g),
{
    reveal(Walk::links_reached);
    reveal(Walk::links_low);
    let last = w.calls.len() - 1;
    assert forall|c: int| 0 <= c < n.calls.len() implies {
        let x = (#[trigger] n.calls[c]).0;
        &&& n.lowlink(x) <= n.index(x)
        &&& n.linked(g, x)
    } by {
        let x = w.calls[c].0;
        assert(n.stacked(x));
        assert(w.linked(g, x));
        let y = choose|y: usize| #[trigger]
            w.stacked(y) && w.index(y) == w.lowlink(x) && reach(g, x, y);
        assert(n.stacked(y));
    }
    assert forall|c: int, x: usize, k: int|
        0 <= c < n.calls.len() && #[trigger] n.in_segment(c, x) && #[trigger] n.looked_at(g, x, k)
            && n.stacked(g[x as int][k]) implies n.lowlink(n.calls[c].0) <= n.index(g[x as int][k]) by {
        assert(w.stacked(x) && !above(w, m, x));
        assert(n.stacked(w.calls[c].0));
        if c + 1 < last {
            assert(n.calls[c + 1] == w.calls[c + 1]);
            assert(n.stacked(w.calls[c + 1].0));
        }
        assert(w.in_segment(c, x));
        assert(w.stacked(g[x as int][k]));
    }
}

proof fn collect_connected(w: Walk, n: Walk, g: Seq<Seq<usize>>, m: int)
    requires
        w.connected(g),
        gathered(w, n, g, m),
        finished(w, g, m),
    ensures
        n.connected(g),
{
    reveal(Walk::connected);
    let last = w.calls.len() - 1;
    assert forall|c: int, x: usize|
        0 <= c < n.calls.len() && #[trigger] n.stacked(x) && n.index((#[trigger] n.calls[c]).0) <= n.index(
            x,
        ) implies reach(g, n.calls[c].0, x) by {
        assert(w.stacked(x) && n.stacked(w.calls[c].0));
    }
    assert forall|x: usize| n.stacked(x) implies #[trigger] n.anchored(g, x) by {
        assert(w.stacked(x) && w.anchored(g, x));
        let c = choose|c: int|
            0 <= c < w.calls.len() && w.index((#[trigger] w.calls[c]).0) <= w.index(x) && reach(
                g,
                x,
                w.calls[c].0,
            );
        if c < last {
            assert(n.calls[c] == w.calls[c]);
            assert(n.stacked(w.calls[c].0));
        } else {
            assert(above(w, m, x));
        }
    }
}

proof fn collect_collected(w: Walk, n: Walk, g: Seq<Seq<usize>>, m: int)
    requires
        w.collected(g),
        gathered(w, n, g, m),
        is_component(g, w.stack.skip(m).reverse()),
        forall|x: usize| #[trigger] above(w, m, x) <==> w.stack.skip(m).reverse().contains(x),
        forall|x: usize, y: usize|
            above(w, m, x) && #[trigger] edge(g, x, y) ==> above(w, m, y) || w.done(y),
    ensures
        n.collected(g),
{
    reveal(Walk::collected);
    let k = w.components.len() as int;
    let component = w.stack.skip(m).reverse();
    assert(n.components[k] == component);
    assert forall|i: int, a: usize| 0 <= i < n.components.len() && #[trigger] n.components[i].contains(
        a,
    ) implies n.done(a) by {
        if i < k {
            assert(w.components[i].contains(a));
        } else {
            assert(above(w, m, a));
        }
    }
    assert forall|a: usize| #[trigger] n.done(a) implies placed(n.components, a) by {
        if w.done(a) {
            assert(placed(w.components, a));
            let i = choose|i: int| 0 <= i < w.components.len() && #[trigger] w.components[i].contains(a);
            assert(n.components[i].contains(a));
        } else {
            assert(n.components[k].contains(a));
        }
    }
    assert forall|i: int, j: int, a: usize|
        0 <= i < n.components.len() && 0 <= j < n.components.len() && #[trigger] n.components[i].contains(a)
            && #[trigger] n.components[j].contains(a) implies i == j by {
        if i < k {
            assert(w.components[i].contains(a));
        } else {
            assert(above(w, m, a));
        }
        if j < k {
            assert(w.components[j].contains(a));
        } else {
            assert(above(w, m, a));
        }
    }
    assert forall|i: int, a: usize, b: usize|
        0 <= i < n.components.len() && #[trigger] n.components[i].contains(a) && #[trigger] edge(
            g,
            a,
            b,
        ) implies exists|j: int| 0 <= j <= i && #[trigger] n.components[j].contains(b) by {
        if i < k {
            assert(w.components[i].contains(a));
            let j = choose|j: int| 0 <= j <= i && #[trigger] w.components[j].contains(b);
            assert(n.components[j].contains(b));
        } else {
            assert(above(w, m, a));
            if above(w, m, b) {
                assert(n.components[k].contains(b));
            } else {
                assert(w.done(b));
                assert(placed(w.components, b));
                let j = choose|j: int| 0 <= j < w.components.len() && #[trigger] w.components[j].contains(b);
                assert(n.components[j].contains(b));
            }
        }
    }
    assert forall|i: int| 0 <= i < n.components.len() implies is_component(g, #[trigger] n.components[i]) by {
        if i < k {
            assert(n.components[i] == w.components[i]);
        }
    }
}

/// The innermost active node and what lies above it on the stack become a component.
proof fn collect_keeps(w: Walk, g: Seq<Seq<usize>>, m: int)
    requires
        w.inv(g),
        finished(w, g, m),
    ensures
        w.collect(m).inv(g),
{
    let n = w.collect(m);
    above_is_component(w, g, m);
    above_is_closed(w, g, m);
    collect_shape(w, g, m);
    assert(w.stacked(w.stack[m])) by {
        reveal(Walk::shape);
    }
    collect_links(w, n, g, m);
    collect_connected(w, n, g, m);
    collect_collected(w, n, g, m);
    assert(n.explored(g)) by {
        reveal(Walk::explored);
    }
}

/// A walk with no active node has met nothing that is not done.
proof fn idle_is_done(w: Walk, g: Seq<Seq<usize>>)
    requires
        w.inv(g),
        w.calls.len() == 0,
    ensures
        w.stack.len() == 0,
        forall|a: usize| #[trigger] w.met(a) ==> w.done(a),
{
    reveal(Walk::connected);
    assert forall|a: usize| #[trigger] w.met(a) implies w.done(a) by {
        if w.stacked(a) {
            assert(w.anchored(g, a));
        }
    }
    if w.stack.len() > 0 {
        assert(w.stacked(w.stack[0])) by {
            reveal(Walk::shape);
        }
        assert(w.anchored(g, w.stack[0]));
    }
}

/// The work left to the active nodes: what each has to look at, and leaving it.
spec fn pending(g: Seq<Seq<usize>>, calls: Seq<(usize, usize)>) -> nat
    decreases calls.len(),
{
    if calls.len() == 0 {
        0
    } else {
        let (node, seen) = calls.last();
        let left = g[node as int].len() - seen;
        pending(g, calls.drop_last()) + 1 + if left > 0 {
            left as nat
        } else {
            0
        }
    }
}

// THE ORDER OF A WALK
// ================================================================================================

/// A depth-first walk: the nodes that it has met, and those that it has left, in order.
#[verifier::ext_equal]
pub struct Tour {
    pub met: Set<usize>,
    pub left: Seq<usize>,
}

/// The walk after it has gone to `node`, unless it has met it before, and from there along paths of
/// up to `depth` nodes.
pub open spec fn tour_of(g: Seq<Seq<usize>>, t: Tour, node: usize, depth: nat) -> Tour
    decreases depth, 0nat,
{
    if t.met.contains(node) || depth == 0 {
        t
    } else {
        let inner = tour_from(
            g,
            Tour { met: t.met.insert(node), left: t.left },
            g[node as int],
            0,
            (depth - 1) as nat,
        );
        Tour { met: inner.met, left: inner.left.push(node) }
    }
}

/// The walk after it has gone to each of some nodes in turn, from the `k`-th on.
pub open spec fn tour_from(g: Seq<Seq<usize>>, t: Tour, nodes: Seq<usize>, k: nat, depth: nat) -> Tour
    decreases depth, nodes.len() - k + 1,
{
    if k >= nodes.len() {
        t
    } else {
        tour_from(g, tour_of(g, t, nodes[k as int], depth), nodes, k + 1, depth)
    }
}

/// The nodes of a graph.
pub open spec fn nodes_of(g: Seq<Seq<usize>>) -> Seq<usize> {
    Seq::new(g.len(), |i: int| i as usize)
}

/// The nodes of a graph in the order in which a depth-first walk leaves them.
pub open spec fn leaving_order(g: Seq<Seq<usize>>) -> Seq<usize> {
    tour_from(g, Tour { met: Set::empty(), left: Seq::empty() }, nodes_of(g), 0, g.len()).left
}

/// `ends` are the places in `order` of the last members of the components: each stands behind the
/// other members of its component, and behind the last member of the component before.
pub open spec fn ends_at(order: Seq<usize>, components: Seq<Seq<usize>>, ends: Seq<int>) -> bool {
    &&& order.no_duplicates()
    &&& ends.len() == components.len()
    &&& forall|i: int|
        0 <= i < ends.len() ==> 0 <= #[trigger] ends[i] < order.len() && components[i].contains(order[ends[i]])
    &&& forall|i: int, j: int| 0 <= i < j < ends.len() ==> #[trigger] ends[i] < #[trigger] ends[j]
    &&& forall|i: int, a: usize|
        0 <= i < components.len() && #[trigger] components[i].contains(a) ==> stands_by(order, a, ends[i])
}

/// `a` stands at `end` or before it.
pub open spec fn stands_by(order: Seq<usize>, a: usize, end: int) -> bool {
    exists|p: int| 0 <= p <= end && p < order.len() && #[trigger] order[p] == a
}

/// The components stand in the order in which a depth-first walk leaves the last member of each.
pub open spec fn in_leaving_order(g: Seq<Seq<usize>>, components: Seq<Seq<usize>>) -> bool {
    exists|ends: Seq<int>| #[trigger] ends_at(leaving_order(g), components, ends)
}

/// The walk after the active nodes, each of which has gone to some of its successors, have been
/// left.
spec fn resumed(g: Seq<Seq<usize>>, t: Tour, calls: Seq<(usize, usize)>, depth: nat) -> Tour
    decreases calls.len(),
{
    if calls.len() == 0 {
        t
    } else {
        let (node, seen) = calls.last();
        let inner = tour_from(g, t, g[node as int], seen as nat, (depth - calls.len()) as nat);
        resumed(g, Tour { met: inner.met, left: inner.left.push(node) }, calls.drop_last(), depth)
    }
}

/// Going to a node met before changes nothing.
proof fn resumed_looks(g: Seq<Seq<usize>>, t: Tour, calls: Seq<(usize, usize)>, depth: nat)
    requires
        calls.len() > 0,
        calls.last().1 < g[calls.last().0 as int].len(),
        calls.last().1 < usize::MAX,
        t.met.contains(g[calls.last().0 as int][calls.last().1 as int]),
    ensures
        ({
            let (node, seen) = calls.last();
            resumed(g, t, calls, depth) == resumed(
                g,
                t,
                calls.drop_last().push((node, (seen + 1) as usize)),
                depth,
            )
        }),
{
    let (node, seen) = calls.last();
    let looked = calls.drop_last().push((node, (seen + 1) as usize));
    assert(looked.drop_last() =~= calls.drop_last());
    let d = (depth - calls.len()) as nat;
    assert(tour_of(g, t, g[node as int][seen as int], d) == t);
    assert(tour_from(g, t, g[node as int], seen as nat, d) == tour_from(g, t, g[node as int], seen as nat + 1, d));
}

/// Going to a new node makes it the innermost active node.
proof fn resumed_meets(g: Seq<Seq<usize>>, t: Tour, calls: Seq<(usize, usize)>, depth: nat)
    requires
        calls.len() > 0,
        calls.len() < depth,
        calls.last().1 < g[calls.last().0 as int].len(),
        calls.last().1 < usize::MAX,
        !t.met.contains(g[calls.last().0 as int][calls.last().1 as int]),
    ensures
        ({
            let (node, seen) = calls.last();
            let next = g[node as int][seen as int];
            resumed(g, t, calls, depth) == resumed(
                g,
                Tour { met: t.met.insert(next), left: t.left },
                calls.drop_last().push((node, (seen + 1) as usize)).push((next, 0usize)),
                depth,
            )
        }),
{
    let (node, seen) = calls.last();
    let next = g[node as int][seen as int];
    let looked = calls.drop_last().push((node, (seen + 1) as usize));
    let longer = looked.push((next, 0usize));
    assert(longer.drop_last() =~= looked);
    assert(looked.drop_last() =~= calls.drop_last());
    let d = (depth - calls.len()) as nat;
    let met = Tour { met: t.met.insert(next), left: t.left };
    let inner = tour_from(g, met, g[next as int], 0, (d - 1) as nat);
    let back = Tour { met: inner.met, left: inner.left.push(next) };
    assert(tour_of(g, t, next, d) == back);
    assert(tour_from(g, t, g[node as int], seen as nat, d) == tour_from(g, back, g[node as int], seen as nat + 1, d));
    assert(resumed(g, met, longer, depth) == resumed(g, back, looked, depth));
}

/// A node all of whose successors have been gone to is left.
proof fn resumed_leaves(g: Seq<Seq<usize>>, t: Tour, calls: Seq<(usize, usize)>, depth: nat)
    requires
        calls.len() > 0,
        calls.last().1 >= g[calls.last().0 as int].len(),
    ensures
        resumed(g, t, calls, depth) == resumed(
            g,
            Tour { met: t.met, left: t.left.push(calls.last().0) },
            calls.drop_last(),
            depth,
        ),
{
}

/// `a` is active.
spec fn called(calls: Seq<(usize, usize)>, a: usize) -> bool {
    exists|c: int| 0 <= c < calls.len() && (#[trigger] calls[c]).0 == a
}

/// The walk has met what the tour has met; the tour has left what the walk has met and is not
/// active; and the components found so far stand in the order in which they were left.
#[verifier::opaque]
spec fn in_step(w: Walk, t: Tour, ends: Seq<int>) -> bool {
    &&& forall|a: usize| #[trigger] t.met.contains(a) <==> w.met(a)
    &&& forall|a: usize| #[trigger] t.left.contains(a) <==> w.met(a) && !called(w.calls, a)
    &&& ends_at(t.left, w.components, ends)
}

proof fn in_step_met(w: Walk, t: Tour, ends: Seq<int>, a: usize)
    requires
        in_step(w, t, ends),
    ensures
        t.met.contains(a) <==> w.met(a),
{
    reveal(in_step);
}

/// The active nodes are no more than the nodes met.
proof fn calls_fit(w: Walk, g: Seq<Seq<usize>>, c: int)
    requires
        w.shape(g),
        0 <= c < w.calls.len(),
    ensures
        c <= w.index(w.calls[c].0) < w.order.len(),
    decreases c,
{
    reveal(Walk::shape);
    assert(w.stacked(w.calls[c].0));
    if c > 0 {
        calls_fit(w, g, c - 1);
        assert(w.index(w.calls[c - 1].0) < w.index(w.calls[c].0));
    }
}

proof fn in_step_meets(w: Walk, n: Walk, t: Tour, ends: Seq<int>, a: usize)
    requires
        in_step(w, t, ends),
        !w.met(a),
        forall|x: usize| #[trigger] n.met(x) <==> w.met(x) || x == a,
        forall|x: usize| #[trigger] called(n.calls, x) <==> called(w.calls, x) || x == a,
        n.components == w.components,
    ensures
        in_step(n, Tour { met: t.met.insert(a), left: t.left }, ends),
{
    reveal(in_step);
}

proof fn in_step_looks(w: Walk, n: Walk, t: Tour, ends: Seq<int>)
    requires
        in_step(w, t, ends),
        forall|x: usize| #[trigger] n.met(x) <==> w.met(x),
        forall|x: usize| #[trigger] called(n.calls, x) <==> called(w.calls, x),
        n.components == w.components,
    ensures
        in_step(n, t, ends),
{
    reveal(in_step);
}

/// What stands in an order stands in a longer one.
proof fn ends_stay(order: Seq<usize>, components: Seq<Seq<usize>>, ends: Seq<int>, a: usize)
    requires
        ends_at(order, components, ends),
        !order.contains(a),
    ensures
        ends_at(order.push(a), components, ends),
{
    let longer = order.push(a);
    assert forall|i: int, b: usize| 0 <= i < components.len() && #[trigger] components[i].contains(b) implies stands_by(
        longer,
        b,
        ends[i],
    ) by {
        assert(stands_by(order, b, ends[i]));
        let p = choose|p: int| 0 <= p <= ends[i] && p < order.len() && #[trigger] order[p] == b;
        assert(longer[p] == b);
    }
    assert forall|i: int| 0 <= i < ends.len() implies 0 <= #[trigger] ends[i] < longer.len() && components[i].contains(
        longer[ends[i]],
    ) by {
        assert(longer[ends[i]] == order[ends[i]]);
    }
}

proof fn in_step_leaves(w: Walk, n: Walk, t: Tour, ends: Seq<int>, a: usize)
    requires
        in_step(w, t, ends),
        w.met(a),
        called(w.calls, a),
        forall|x: usize| #[trigger] n.met(x) <==> w.met(x),
        forall|x: usize| #[trigger] called(n.calls, x) <==> called(w.calls, x) && x != a,
        n.components == w.components,
    ensures
        in_step(n, Tour { met: t.met, left: t.left.push(a) }, ends),
{
    reveal(in_step);
    assert(!t.left.contains(a));
    ends_stay(t.left, w.components, ends, a);
    push_contains(t.left, a);
}

proof fn push_contains(order: Seq<usize>, a: usize)
    ensures
        forall|x: usize| #[trigger] order.push(a).contains(x) <==> order.contains(x) || x == a,
{
    let longer = order.push(a);
    assert forall|x: usize| #[trigger] longer.contains(x) <==> order.contains(x) || x == a by {
        if order.contains(x) {
            let p = choose|p: int| 0 <= p < order.len() && order[p] == x;
            assert(longer[p] == x);
        }
        if x == a {
            assert(longer[order.len() as int] == x);
        }
    }
}

/// A component becomes complete when the innermost active node is left.
proof fn in_step_collects(w: Walk, n: Walk, t: Tour, ends: Seq<int>, a: usize, component: Seq<usize>)
    requires
        in_step(w, t, ends),
        w.met(a),
        called(w.calls, a),
        forall|x: usize| #[trigger] n.met(x) <==> w.met(x),
        forall|x: usize| #[trigger] called(n.calls, x) <==> called(w.calls, x) && x != a,
        n.components == w.components.push(component),
        component.contains(a),
        forall|x: usize| #[trigger] component.contains(x) ==> w.met(x) && (x == a || !called(w.calls, x)),
    ensures
        in_step(n, Tour { met: t.met, left: t.left.push(a) }, ends.push(t.left.len() as int)),
{
    reveal(in_step);
    let longer = t.left.push(a);
    let later = ends.push(t.left.len() as int);
    assert(!t.left.contains(a));
    ends_stay(t.left, w.components, ends, a);
    push_contains(t.left, a);
    assert forall|i: int, b: usize| 0 <= i < n.components.len() && #[trigger] n.components[i].contains(
        b,
    ) implies stands_by(longer, b, later[i]) by {
        if i < w.components.len() {
            assert(w.components[i].contains(b));
        } else {
            assert(component.contains(b));
            assert(longer.contains(b));
            let p = choose|p: int| 0 <= p < longer.len() && longer[p] == b;
            assert(longer[p] == b);
        }
    }
    assert forall|i: int| 0 <= i < later.len() implies 0 <= #[trigger] later[i] < longer.len() && n.components[i].contains(
        longer[later[i]],
    ) by {
        if i < ends.len() {
            assert(later[i] == ends[i]);
        }
    }
}

/// A node that has not been met is not among those met.
proof fn fewer_than_all(w: Walk, g: Seq<Seq<usize>>, a: usize)
    requires
        w.shape(g),
        a < g.len(),
        !w.met(a),
    ensures
        w.order.len() < g.len(),
{
    reveal(Walk::shape);
    let more = w.order.push(a);
    assert(more.no_duplicates()) by {
        assert forall|i: int, j: int| 0 <= i < more.len() && 0 <= j < more.len() && i != j implies more[i]
            != more[j] by {
            if i < w.order.len() {
                assert(w.met(w.order[i]));
            }
            if j < w.order.len() {
                assert(w.met(w.order[j]));
            }
        }
    }
    assert forall|i: int| 0 <= i < more.len() implies #[trigger] more[i] < g.len() by {
        if i < w.order.len() {
            assert(w.met(w.order[i]));
        }
    }
    order_fits(more, g.len() as int);
}

/// Looking at one more successor keeps the active nodes active.
proof fn looked(w: Walk, v: Walk, top: int)
    requires
        top == w.calls.len() - 1,
        top >= 0,
        v.calls.len() == w.calls.len(),
        forall|c: int| 0 <= c < w.calls.len() ==> (#[trigger] v.calls[c]).0 == w.calls[c].0,
    ensures
        forall|x: usize| #[trigger] called(v.calls, x) <==> called(w.calls, x),
{
    assert forall|x: usize| #[trigger] called(v.calls, x) <==> called(w.calls, x) by {
        if called(v.calls, x) {
            let c = choose|c: int| 0 <= c < v.calls.len() && (#[trigger] v.calls[c]).0 == x;
            assert(w.calls[c].0 == x);
        }
        if called(w.calls, x) {
            let c = choose|c: int| 0 <= c < w.calls.len() && (#[trigger] w.calls[c]).0 == x;
            assert(v.calls[c].0 == x);
        }
    }
}

/// Meeting a node makes it active.
proof fn looked_and_met(w: Walk, v: Walk, top: int, call: (usize, usize))
    requires
        top == w.calls.len() - 1,
        top >= 0,
        v.calls.len() == w.calls.len() + 1,
        forall|c: int| 0 <= c < w.calls.len() ==> (#[trigger] v.calls[c]).0 == w.calls[c].0,
        v.calls[top + 1] == call,
    ensures
        forall|x: usize| #[trigger] called(v.calls, x) <==> called(w.calls, x) || x == call.0,
{
    assert forall|x: usize| #[trigger] called(v.calls, x) <==> called(w.calls, x) || x == call.0 by {
        if called(v.calls, x) {
            let c = choose|c: int| 0 <= c < v.calls.len() && (#[trigger] v.calls[c]).0 == x;
            if c <= top {
                assert(w.calls[c].0 == x);
            }
        }
        if called(w.calls, x) {
            let c = choose|c: int| 0 <= c < w.calls.len() && (#[trigger] w.calls[c]).0 == x;
            assert(v.calls[c].0 == x);
        }
        if x == call.0 {
            assert(v.calls[top + 1].0 == x);
        }
    }
}

/// Leaving the innermost active node leaves the others active.
proof fn left_behind(w: Walk, v: Walk, g: Seq<Seq<usize>>)
    requires
        w.shape(g),
        w.calls.len() > 0,
        v.calls == w.calls.drop_last(),
    ensures
        called(w.calls, w.calls.last().0),
        forall|x: usize| #[trigger] called(v.calls, x) <==> called(w.calls, x) && x != w.calls.last().0,
{
    reveal(Walk::shape);
    let top = w.calls.len() - 1;
    assert(w.calls[top].0 == w.calls.last().0);
    assert forall|x: usize| #[trigger] called(v.calls, x) <==> called(w.calls, x) && x != w.calls.last().0 by {
        if called(v.calls, x) {
            let c = choose|c: int| 0 <= c < v.calls.len() && (#[trigger] v.calls[c]).0 == x;
            assert(w.calls[c].0 == x);
            assert(w.index(w.calls[c].0) < w.index(w.calls[top].0));
        }
        if called(w.calls, x) {
            let c = choose|c: int| 0 <= c < w.calls.len() && (#[trigger] w.calls[c]).0 == x;
            if c < top {
                assert(v.calls[c].0 == x);
            }
        }
    }
}

/// Takes the nodes from the top of the stack down to `node`, which no component holds any longer.
fn take_component(state: &mut Vec<Option<Visit>>, stack: &mut Vec<usize>, node: usize, Ghost(m): Ghost<int>) -> (component:
    Vec<usize>)
    requires
        0 <= m < old(stack)@.len(),
        old(stack)@[m] == node,
        forall|i: int, j: int| 0 <= i < j < old(stack)@.len() ==> old(stack)@[i] != old(stack)@[j],
        forall|i: int|
            0 <= i < old(stack)@.len() ==> #[trigger] old(stack)@[i] < old(state)@.len() && old(state)@[old(
                stack,
            )@[i] as int] is Some,
    ensures
        final(stack)@ == old(stack)@.take(m),
        component@ == old(stack)@.skip(m).reverse(),
        final(state)@.len() == old(state)@.len(),
        forall|x: usize|
            x < old(state)@.len() ==> #[trigger] final(state)@[x as int] == if old(stack)@.skip(m).contains(
                x,
            ) {
                Some(Visit { on_stack: false, ..old(state)@[x as int]->0 })
            } else {
                old(state)@[x as int]
            },
{
    let ghost stack0 = stack@;
    let ghost state0 = state@;
    let mut component: Vec<usize> = Vec::new();
    let mut closed = false;
    while !closed
        invariant
            0 <= m <= stack@.len() <= stack0.len(),
            m < stack0.len(),
            stack0[m] == node,
            forall|i: int, j: int| 0 <= i < j < stack0.len() ==> stack0[i] != stack0[j],
            forall|i: int|
                0 <= i < stack0.len() ==> #[trigger] stack0[i] < state0.len() && state0[stack0[i] as int] is Some,
            closed <==> stack@.len() == m,
            stack@ == stack0.take(stack@.len() as int),
            component@ == stack0.skip(stack@.len() as int).reverse(),
            state@.len() == state0.len(),
            forall|x: usize|
                x < state0.len() ==> #[trigger] state@[x as int] == if stack0.skip(stack@.len() as int).contains(
                    x,
                ) {
                    Some(Visit { on_stack: false, ..state0[x as int]->0 })
                } else {
                    state0[x as int]
                },
        decreases stack@.len(),
    {
        let ghost k = stack@.len() - 1;
        let ghost before = state@;
        let member: usize = stack.pop().unwrap();
        assert(member == stack0[k]);
        assert(stack@ =~= stack0.take(k));
        let visit = state[member].unwrap();
        state.set(member, Some(Visit { index: visit.index, lowlink: visit.lowlink, on_stack: false }));
        component.push(member);
        closed = member == node;
        proof {
            let all = stack0.skip(k);
            let rest = stack0.skip(k + 1);
            assert(all =~= seq![member] + rest);
            assert(component@ =~= all.reverse());
            assert(!rest.contains(member)) by {
                if rest.contains(member) {
                    let i = choose|i: int| 0 <= i < rest.len() && rest[i] == member;
                    assert(stack0[k] != stack0[k + 1 + i]);
                }
            }
            assert forall|x: usize| x < state0.len() implies #[trigger] state@[x as int] == if all.contains(x) {
                Some(Visit { on_stack: false, ..state0[x as int]->0 })
            } else {
                state0[x as int]
            } by {
                assert(before[x as int] == before[x as int]);
                assert(all[0] == member);
                if rest.contains(x) {
                    let i = choose|i: int| 0 <= i < rest.len() && rest[i] == x;
                    assert(all[i + 1] == x);
                } else if x != member && all.contains(x) {
                    let i = choose|i: int| 0 <= i < all.len() && all[i] == x;
                    assert(rest[i - 1] == x);
                }
            }
            if k != m {
                if m < k {
                    assert(stack0[m] != stack0[k]);
                } else {
                    assert(stack0[k] != stack0[m]);
                }
            }
        }
    }
    component
}

/// Partitions the nodes into strongly connected components, in an order where every component
/// appears after the components it depends on.
///
/// This is an iterative form of Tarjan's algorithm, which yields components in reverse topological
/// order, i.e. dependencies first.
pub fn strongly_connected_components(edges: &Vec<Vec<usize>>) -> (components: Vec<Vec<usize>>)
    requires
        well_formed(rows(edges@)),
    ensures
        is_decomposition(rows(edges@), rows(components@)),
        in_leaving_order(rows(edges@), rows(components@)),
{
    let ghost g = rows(edges@);
    let n: usize = edges.len();
    let mut state: Vec<Option<Visit>> = Vec::new();
    while state.len() < n
        invariant
            state@.len() <= n,
            forall|i: int| 0 <= i < state@.len() ==> #[trigger] state@[i] is None,
        decreases n - state@.len(),
    {
        state.push(None);
    }
    let mut stack: Vec<usize> = Vec::new();
    let mut components: Vec<Vec<usize>> = Vec::new();
    let mut next_index: usize = 0;
    let ghost mut order: Seq<usize> = Seq::empty();
    let ghost nobody: Seq<(usize, usize)> = Seq::empty();
    let ghost mut t = Tour { met: Set::empty(), left: Seq::empty() };
    let ghost mut ends: Seq<int> = Seq::empty();
    proof {
        let w = Walk { state: state@, order, stack: stack@, calls: nobody, components: rows(components@) };
        reveal(Walk::shape);
        reveal(Walk::explored);
        reveal(Walk::connected);
        reveal(Walk::links_reached);
        reveal(Walk::links_low);
        reveal(Walk::collected);
        assert(w.inv(g));
        assert(in_step(w, t, ends)) by {
            reveal(in_step);
        }
    }

    let mut root: usize = 0;
    while root < n
        invariant
            in_step(
                Walk { state: state@, order, stack: stack@, calls: nobody, components: rows(components@) },
                t,
                ends,
            ),
            leaving_order(g) == tour_from(g, t, nodes_of(g), root as nat, n as nat).left,
            root <= n,
            g == rows(edges@),
            n == edges@.len(),
            nobody.len() == 0,
            next_index == order.len(),
            (Walk { state: state@, order, stack: stack@, calls: nobody, components: rows(components@) }).inv(g),
            state@.len() == n,
            forall|a: usize| a < root ==> #[trigger] state@[a as int] is Some,
        decreases n - root,
    {
        let ghost t0 = t;
        proof {
            let w = Walk { state: state@, order, stack: stack@, calls: nobody, components: rows(components@) };
            in_step_met(w, t, ends, root);
            assert(nodes_of(g)[root as int] == root);
        }
        if state[root].is_none() {
            let mut calls: Vec<(usize, usize)> = Vec::new();
            let ghost w0 = Walk { state: state@, order, stack: stack@, calls: calls@, components: rows(components@) };
            proof {
                assert(calls@ =~= nobody);
                meet_keeps(w0, g, root);
            }
            calls.push((root, 0));
            state.set(root, Some(Visit { index: next_index, lowlink: next_index, on_stack: true }));
            next_index += 1;
            stack.push(root);
            proof {
                order = order.push(root);
                let w = Walk { state: state@, order, stack: stack@, calls: calls@, components: rows(components@) };
                assert(w == w0.meet(root));
                assert(calls@.drop_last() =~= nobody);
                assert(calls@[0].0 == root);
                assert forall|x: usize| #[trigger] called(w.calls, x) <==> called(w0.calls, x) || x == root by {
                    if x == root {
                        assert(w.calls[0].0 == x);
                    }
                }
                in_step_meets(w0, w, t, ends, root);
                t = Tour { met: t.met.insert(root), left: t.left };
                let inner = tour_from(g, t, g[root as int], 0, (n - 1) as nat);
                let back = Tour { met: inner.met, left: inner.left.push(root) };
                assert(resumed(g, back, nobody, n as nat) == back);
                assert(tour_of(g, t0, root, n as nat) == back);
                assert(resumed(g, t, calls@, n as nat) == back);
            }

            while calls.len() > 0
                invariant
                    in_step(
                        Walk { state: state@, order, stack: stack@, calls: calls@, components: rows(components@) },
                        t,
                        ends,
                    ),
                    resumed(g, t, calls@, n as nat) == tour_of(g, t0, root, n as nat),
                    g == rows(edges@),
                    n == edges@.len(),
                    next_index == order.len(),
                    (Walk { state: state@, order, stack: stack@, calls: calls@, components: rows(components@) }).inv(
                        g,
                    ),
                    state@.len() == n,
                    root < n,
                    forall|a: usize| a <= root ==> #[trigger] state@[a as int] is Some,
                    order.len() <= n,
                decreases n - order.len(), pending(g, calls@),
            {
                let ghost w = Walk { state: state@, order, stack: stack@, calls: calls@, components: rows(components@) };
                let top: usize = calls.len() - 1;
                let node: usize = calls[top].0;
                let seen: usize = calls[top].1;
                proof {
                    reveal(Walk::shape);
                    assert(w.stacked(w.calls[top as int].0));
                    assert(g[node as int] == edges@[node as int]@);
                    calls_fit(w, g, top as int);
                }
                if seen < edges[node].len() {
                    let successor: usize = edges[node][seen];
                    assert(g[node as int][seen as int] == successor);
                    assert(w.look().calls.drop_last() =~= w.calls.drop_last());
                    calls.set(top, (node, seen + 1));
                    match state[successor] {
                        None => {
                            proof {
                                meet_keeps(w, g, successor);
                            }
                            state.set(
                                successor,
                                Some(Visit { index: next_index, lowlink: next_index, on_stack: true }),
                            );
                            next_index += 1;
                            stack.push(successor);
                            calls.push((successor, 0));
                            proof {
                                order = order.push(successor);
                                let v = Walk {
                                    state: state@,
                                    order,
                                    stack: stack@,
                                    calls: calls@,
                                    components: rows(components@),
                                };
                                assert(v == w.look().meet(successor));
                                order_fits(w.order, n as int);
                                in_step_met(w, t, ends, successor);
                                fewer_than_all(w, g, successor);
                                resumed_meets(g, t, w.calls, n as nat);
                                looked_and_met(w, v, top as int, (successor, 0usize));
                                in_step_meets(w, v, t, ends, successor);
                                t = Tour { met: t.met.insert(successor), left: t.left };
                                assert(calls@ =~= w.calls.drop_last().push((node, (seen + 1) as usize)).push(
                                    (successor, 0usize),
                                ));
                            }
                        },
                        Some(visit) => {
                            proof {
                                look_keeps(w, g);
                            }
                            if visit.on_stack {
                                let own = state[node].unwrap();
                                let lowlink: usize = if own.lowlink <= visit.index { own.lowlink } else { visit.index };
                                state.set(node, Some(Visit { index: own.index, lowlink, on_stack: own.on_stack }));
                                assert(state@ == w.look().lower(node, visit.index).state);
                            }
                            proof {
                                let v = Walk {
                                    state: state@,
                                    order,
                                    stack: stack@,
                                    calls: calls@,
                                    components: rows(components@),
                                };
                                in_step_met(w, t, ends, successor);
                                resumed_looks(g, t, w.calls, n as nat);
                                looked(w, v, top as int);
                                in_step_looks(w, v, t, ends);
                                assert(calls@ =~= w.calls.drop_last().push((node, (seen + 1) as usize)));
                            }
                        },
                    }
                } else {
                    let own = state[node].unwrap();
                    let ghost before = calls@;
                    if own.lowlink == own.index {
                        let ghost m = choose|m: int| 0 <= m < stack@.len() && stack@[m] == node;
                        proof {
                            assert(stack@.contains(node));
                            assert(finished(w, g, m));
                            collect_keeps(w, g, m);
                            above_is_suffix(w, g, m);
                            assert forall|i: int, j: int| 0 <= i < j < stack@.len() implies stack@[i] != stack@[j] by {
                                assert(w.index(w.stack[i]) < w.index(w.stack[j]));
                            }
                            assert forall|i: int| 0 <= i < stack@.len() implies #[trigger] stack@[i] < state@.len()
                                && state@[stack@[i] as int] is Some by {
                                assert(w.stacked(w.stack[i]));
                            }
                        }
                        let component = take_component(&mut state, &mut stack, node, Ghost(m));
                        calls.pop();
                        components.push(component);
                        proof {
                            assert(rows(components@) =~= w.components.push(w.stack.skip(m).reverse()));
                            assert forall|x: int| 0 <= x < state@.len() implies #[trigger] state@[x] == w.collect(
                                m,
                            ).state[x] by {
                                let a = x as usize;
                                assert(state@[a as int] == state@[x]);
                                let upper = w.stack.skip(m);
                                let turned = upper.reverse();
                                assert(above(w, m, a) <==> turned.contains(a));
                                if upper.contains(a) {
                                    let i = choose|i: int| 0 <= i < upper.len() && upper[i] == a;
                                    assert(turned[upper.len() - 1 - i] == a);
                                } else if turned.contains(a) {
                                    let i = choose|i: int|
                                        0 <= i < upper.len() && turned[i] == a;
                                    assert(upper[upper.len() - 1 - i] == a);
                                }
                            }
                            assert(state@ =~= w.collect(m).state);
                            let v = Walk {
                                state: state@,
                                order,
                                stack: stack@,
                                calls: calls@,
                                components: rows(components@),
                            };
                            assert(v == w.collect(m));
                            left_behind(w, v, g);
                            let component = w.stack.skip(m).reverse();
                            assert forall|x: usize| #[trigger] component.contains(x) implies w.met(x) && (x == node
                                || !called(w.calls, x)) by {
                                assert(above(w, m, x));
                                if called(w.calls, x) {
                                    let c = choose|c: int| 0 <= c < w.calls.len() && (#[trigger] w.calls[c]).0 == x;
                                    if c < top {
                                        assert(w.index(w.calls[c].0) < w.index(w.calls[top as int].0));
                                    }
                                }
                            }
                            assert(above(w, m, node));
                            assert(component.contains(node));
                            resumed_leaves(g, t, w.calls, n as nat);
                            in_step_collects(w, v, t, ends, node, component);
                            ends = ends.push(t.left.len() as int);
                            t = Tour { met: t.met, left: t.left.push(node) };
                        }
                        if calls.len() > 0 {
                            let parent: usize = calls[calls.len() - 1].0;
                            proof {
                                let c = calls@.len() - 1;
                                assert(w.calls[c].0 == parent);
                                assert(w.index(w.calls[c].0) < w.index(w.calls[c + 1].0));
                                assert(w.stacked(parent));
                                assert(w.lowlink(parent) <= w.index(parent)) by {
                                    reveal(Walk::links_reached);
                                }
                                assert(state@[parent as int] == w.collect(m).state[parent as int]);
                            }
                            let visit = state[parent].unwrap();
                            let lowlink: usize = if visit.lowlink <= own.lowlink { visit.lowlink } else { own.lowlink };
                            assert(lowlink == visit.lowlink);
                            let ghost kept = state@;
                            state.set(parent, Some(Visit { index: visit.index, lowlink, on_stack: visit.on_stack }));
                            assert(state@ =~= kept);
                        }
                    } else {
                        proof {
                            leave_keeps(w, g);
                        }
                        calls.pop();
                        let parent: usize = calls[calls.len() - 1].0;
                        assert(w.stacked(w.calls[calls@.len() - 1].0));
                        let visit = state[parent].unwrap();
                        let lowlink: usize = if visit.lowlink <= own.lowlink { visit.lowlink } else { own.lowlink };
                        state.set(parent, Some(Visit { index: visit.index, lowlink, on_stack: visit.on_stack }));
                        proof {
                            assert(state@ == w.leave().lower(parent, own.lowlink).state);
                            let v = Walk {
                                state: state@,
                                order,
                                stack: stack@,
                                calls: calls@,
                                components: rows(components@),
                            };
                            left_behind(w, v, g);
                            resumed_leaves(g, t, w.calls, n as nat);
                            in_step_leaves(w, v, t, ends, node);
                            t = Tour { met: t.met, left: t.left.push(node) };
                        }
                    }
                    assert(calls@ =~= before.drop_last());
                }
            }
            proof {
                assert(calls@ =~= nobody);
                assert(t == tour_of(g, t0, root, n as nat));
            }
        }
        proof {
            assert(t == tour_of(g, t0, root, n as nat));
            assert(tour_from(g, t0, nodes_of(g), root as nat, n as nat) == tour_from(
                g,
                t,
                nodes_of(g),
                root as nat + 1,
                n as nat,
            ));
        }
        root += 1;
    }
    proof {
        let w = Walk { state: state@, order, stack: stack@, calls: nobody, components: rows(components@) };
        idle_is_done(w, g);
        reveal(Walk::collected);
        reveal(is_decomposition);
        assert forall|a: usize| a < g.len() implies #[trigger] placed(rows(components@), a) by {
            assert(state@[a as int] is Some);
            assert(w.met(a));
            assert(w.done(a));
        }
        reveal(in_step);
        assert(leaving_order(g) == t.left);
        assert(ends_at(leaving_order(g), rows(components@), ends));
    }
    components
}

// TOPOLOGICAL ORDER
// ================================================================================================

/// Each node of `order` stands behind all its successors, and none stands there twice.
pub open spec fn successors_first(g: Seq<Seq<usize>>, order: Seq<usize>) -> bool {
    &&& order.no_duplicates()
    &&& forall|i: int| 0 <= i < order.len() ==> #[trigger] order[i] < g.len()
    &&& forall|i: int, b: usize|
        0 <= i < order.len() && #[trigger] edge(g, order[i], b) ==> exists|j: int|
            0 <= j < i && #[trigger] order[j] == b
}

/// `order` lists every node once, behind all its successors.
pub open spec fn is_topological(g: Seq<Seq<usize>>, order: Seq<usize>) -> bool {
    &&& successors_first(g, order)
    &&& forall|a: usize| a < g.len() ==> #[trigger] order.contains(a)
}

/// `order`, continued by what can be reached from `node` along paths of up to `depth` nodes and is
/// not in it, each node behind its successors, which come in turn.
pub open spec fn post_order(g: Seq<Seq<usize>>, order: Seq<usize>, node: usize, depth: nat) -> Seq<usize>
    decreases depth, 0nat,
{
    if order.contains(node) || depth == 0 {
        order
    } else {
        post_orders(g, order, g[node as int], g[node as int].len(), (depth - 1) as nat).push(node)
    }
}

/// `order`, continued from the first `n` of some nodes in turn.
pub open spec fn post_orders(g: Seq<Seq<usize>>, order: Seq<usize>, nodes: Seq<usize>, n: nat, depth: nat) -> Seq<
    usize,
>
    decreases depth, n + 1,
{
    if n == 0 {
        order
    } else {
        post_order(g, post_orders(g, order, nodes, (n - 1) as nat, depth), nodes[n - 1], depth)
    }
}

/// The nodes of a graph, each behind its successors: what can be reached from the first node, what
/// else can be reached from the second, and so on.
pub open spec fn depth_first(g: Seq<Seq<usize>>) -> Seq<usize> {
    post_orders(g, Seq::empty(), Seq::new(g.len(), |i: int| i as usize), g.len(), g.len())
}

/// What can be reached from a node stands before it.
proof fn reached_stands_before(g: Seq<Seq<usize>>, order: Seq<usize>, i: int, b: usize)
    requires
        successors_first(g, order),
        0 <= i < order.len(),
        reach(g, order[i], b),
    ensures
        exists|j: int| 0 <= j <= i && #[trigger] order[j] == b,
{
    let within = |x: usize| exists|j: int| 0 <= j <= i && #[trigger] order[j] == x;
    assert(within(order[i]));
    assert forall|x: usize, y: usize| within(x) && #[trigger] edge(g, x, y) implies within(y) by {
        let j = choose|j: int| 0 <= j <= i && #[trigger] order[j] == x;
        assert(edge(g, order[j], y));
        let k = choose|k: int| 0 <= k < j && #[trigger] order[k] == y;
        assert(order[k] == y);
    }
    reach_closed(g, within, order[i], b);
}

/// A graph whose nodes can be listed behind their successors has no cycle.
pub proof fn topological_has_no_cycle(g: Seq<Seq<usize>>, order: Seq<usize>)
    requires
        is_topological(g, order),
    ensures
        !has_cycle(g),
{
    if has_cycle(g) {
        let a = choose|a: usize| #[trigger] leads_to(g, a, a);
        let p = choose|p: usize| #[trigger] edge(g, p, a) && reach(g, a, p);
        if a < g.len() {
            assert(order.contains(a));
            let i = choose|i: int| 0 <= i < order.len() && order[i] == a;
            reached_stands_before(g, order, i, p);
            let j = choose|j: int| 0 <= j <= i && #[trigger] order[j] == p;
            assert(edge(g, order[j], a));
            let k = choose|k: int| 0 <= k < j && #[trigger] order[k] == a;
            assert(order[k] == order[i]);
        } else {
            // A node outside the graph has no successor, so nothing but itself can be reached.
            reach_closed(g, |x: usize| x == a, a, p);
        }
    }
}

/// How far a search for an order has come with a node.
#[derive(Clone, Copy, PartialEq, Eq, Structural)]
enum Mark {
    Unseen,
    Active,
    Placed,
}

/// The number of nodes before `n` that the search has not come to.
spec fn unseen(marks: Seq<Mark>, n: nat) -> nat
    decreases n,
{
    if n == 0 {
        0
    } else {
        unseen(marks, (n - 1) as nat) + if marks[n - 1] is Unseen {
            1nat
        } else {
            0nat
        }
    }
}

proof fn unseen_drops(marks: Seq<Mark>, later: Seq<Mark>, n: nat)
    requires
        n <= marks.len(),
        later.len() == marks.len(),
        forall|i: int| 0 <= i < n && #[trigger] later[i] is Unseen ==> marks[i] is Unseen,
    ensures
        unseen(later, n) <= unseen(marks, n),
        (exists|i: int| 0 <= i < n && #[trigger] marks[i] is Unseen && !(later[i] is Unseen)) ==> unseen(
            later,
            n,
        ) < unseen(marks, n),
    decreases n,
{
    if n > 0 {
        unseen_drops(marks, later, (n - 1) as nat);
        assert(later[n - 1] is Unseen ==> marks[n - 1] is Unseen);
        if exists|i: int| 0 <= i < n && #[trigger] marks[i] is Unseen && !(later[i] is Unseen) {
            let i = choose|i: int| 0 <= i < n && #[trigger] marks[i] is Unseen && !(later[i] is Unseen);
            if i < n - 1 {
                assert(marks[i] is Unseen);
            }
        }
    }
}

proof fn unseen_is_bounded(marks: Seq<Mark>, n: nat)
    ensures
        unseen(marks, n) <= n,
    decreases n,
{
    if n > 0 {
        unseen_is_bounded(marks, (n - 1) as nat);
    }
}

/// The nodes of `order` are those placed.
spec fn search(g: Seq<Seq<usize>>, marks: Seq<Mark>, order: Seq<usize>) -> bool {
    &&& well_formed(g)
    &&& marks.len() == g.len()
    &&& successors_first(g, order)
    &&& forall|i: int| 0 <= i < order.len() ==> marks[#[trigger] order[i] as int] is Placed
    &&& forall|a: usize| a < g.len() && marks[a as int] is Placed ==> #[trigger] order.contains(a)
}

/// Nothing placed is taken back, and the active nodes are the same.
spec fn advanced(marks: Seq<Mark>, later: Seq<Mark>) -> bool {
    &&& later.len() == marks.len()
    &&& forall|i: int|
        0 <= i < marks.len() ==> match marks[i] {
            Mark::Unseen => !(#[trigger] later[i] is Active),
            mark => later[i] == mark,
        }
}

/// Places `node` behind everything that can be reached from it, or finds a cycle.
fn visit(
    node: usize,
    edges: &Vec<Vec<usize>>,
    marks: &mut Vec<Mark>,
    order: &mut Vec<usize>,
    Ghost(depth): Ghost<nat>,
) -> (acyclic: bool)
    requires
        unseen(old(marks)@, old(marks)@.len()) <= depth,
        search(rows(edges@), old(marks)@, old(order)@),
        node < edges@.len(),
        forall|a: usize|
            a < edges@.len() && #[trigger] old(marks)@[a as int] is Active ==> leads_to(rows(edges@), a, node),
    ensures
        acyclic ==> {
            &&& search(rows(edges@), final(marks)@, final(order)@)
            &&& advanced(old(marks)@, final(marks)@)
            &&& final(marks)@[node as int] is Placed
            &&& final(order)@ == post_order(rows(edges@), old(order)@, node, depth)
        },
        !acyclic ==> has_cycle(rows(edges@)),
    decreases unseen(old(marks)@, old(marks)@.len()),
{
    let ghost g = rows(edges@);
    let ghost before = marks@;
    let ghost order0 = order@;
    match marks[node] {
        Mark::Placed => {
            assert(order0.contains(node));
            true
        },
        Mark::Active => {
            assert(leads_to(g, node, node));
            false
        },
        Mark::Unseen => {
            marks.set(node, Mark::Active);
            let ghost started = marks@;
            assert(g[node as int] == edges@[node as int]@);
            proof {
                unseen_drops(before, started, before.len());
                assert(before[node as int] is Unseen && !(started[node as int] is Unseen));
            }
            let count: usize = edges[node].len();
            let mut k: usize = 0;
            while k < count
                invariant
                    unseen(started, started.len()) < depth,
                    order@ == post_orders(g, order0, g[node as int], k as nat, (depth - 1) as nat),
                    g == rows(edges@),
                    node < g.len(),
                    count == g[node as int].len(),
                    g[node as int] == edges@[node as int]@,
                    k <= count,
                    before.len() == g.len(),
                    started == before.update(node as int, Mark::Active),
                    before[node as int] is Unseen,
                    unseen(started, started.len()) < unseen(before, before.len()),
                    search(g, marks@, order@),
                    advanced(started, marks@),
                    forall|a: usize|
                        a < g.len() && #[trigger] before[a as int] is Active ==> leads_to(g, a, node),
                    forall|j: int| 0 <= j < k ==> marks@[#[trigger] g[node as int][j] as int] is Placed,
                    before == old(marks)@,
                decreases count - k,
            {
                let successor: usize = edges[node][k];
                proof {
                    assert(g[node as int][k as int] == successor);
                    assert(edge(g, node, successor));
                    assert forall|a: usize| a < g.len() && #[trigger] marks@[a as int] is Active implies leads_to(
                        g,
                        a,
                        successor,
                    ) by {
                        assert(started[a as int] is Active);
                        if a == node {
                            reach_refl(g, node);
                        } else {
                            assert(before[a as int] is Active);
                            let p = choose|p: usize| #[trigger] edge(g, p, node) && reach(g, a, p);
                            reach_edge(g, p, node);
                            reach_trans(g, a, p, node);
                        }
                    }
                    unseen_drops(started, marks@, started.len());
                }
                let ghost earlier = marks@;
                if !visit(successor, edges, marks, order, Ghost((depth - 1) as nat)) {
                    return false;
                }
                assert forall|j: int| 0 <= j < k implies marks@[#[trigger] g[node as int][j] as int] is Placed by {
                    assert(earlier[g[node as int][j] as int] is Placed);
                }
                assert(advanced(started, marks@)) by {
                    assert forall|i: int| 0 <= i < started.len() implies match started[i] {
                        Mark::Unseen => !(#[trigger] marks@[i] is Active),
                        mark => marks@[i] == mark,
                    } by {
                        assert(earlier[i] == earlier[i]);
                    }
                }
                k += 1;
            }
            proof {
                assert(started[node as int] is Active);
                assert(marks@[node as int] is Active);
            }
            let ghost marks1 = marks@;
            let ghost order1 = order@;
            marks.set(node, Mark::Placed);
            order.push(node);
            proof {
                assert(!order0.contains(node)) by {
                    if order0.contains(node) {
                        let i = choose|i: int| 0 <= i < order0.len() && order0[i] == node;
                        assert(before[order0[i] as int] is Placed);
                    }
                }
                assert(!order1.contains(node)) by {
                    if order1.contains(node) {
                        let i = choose|i: int| 0 <= i < order1.len() && order1[i] == node;
                        assert(marks1[order1[i] as int] is Placed);
                    }
                }
                assert(successors_first(g, order@)) by {
                    assert forall|i: int, b: usize|
                        0 <= i < order@.len() && #[trigger] edge(g, order@[i], b) implies exists|j: int|
                        0 <= j < i && #[trigger] order@[j] == b by {
                        if i < order1.len() {
                            assert(edge(g, order1[i], b));
                            let j = choose|j: int| 0 <= j < i && #[trigger] order1[j] == b;
                            assert(order@[j] == b);
                        } else {
                            let j = choose|j: int| 0 <= j < g[node as int].len() && g[node as int][j] == b;
                            assert(marks1[g[node as int][j] as int] is Placed);
                            assert(order1.contains(b));
                            let m = choose|m: int| 0 <= m < order1.len() && order1[m] == b;
                            assert(order@[m] == b);
                        }
                    }
                }
                assert forall|a: usize| a < g.len() && marks@[a as int] is Placed implies #[trigger] order@.contains(
                    a,
                ) by {
                    if a == node {
                        assert(order@[order1.len() as int] == node);
                    } else {
                        assert(order1.contains(a));
                        let m = choose|m: int| 0 <= m < order1.len() && order1[m] == a;
                        assert(order@[m] == a);
                    }
                }
                assert(search(g, marks@, order@));
                assert forall|i: int| 0 <= i < before.len() implies match before[i] {
                    Mark::Unseen => !(#[trigger] marks@[i] is Active),
                    mark => marks@[i] == mark,
                } by {
                    assert(marks1[i] == marks1[i]);
                    assert(started[i] == started[i]);
                }
            }
            true
        },
    }
}

/// Orders the nodes so that every node appears after its successors, or `None` if the graph has a
/// cycle.
pub fn topological_order(edges: &Vec<Vec<usize>>) -> (result: Option<Vec<usize>>)
    requires
        well_formed(rows(edges@)),
    ensures
        match result {
            Some(order) => {
                &&& order@ == depth_first(rows(edges@))
                &&& is_topological(rows(edges@), order@)
                &&& !has_cycle(rows(edges@))
            },
            None => has_cycle(rows(edges@)),
        },
{
    let ghost g = rows(edges@);
    let n: usize = edges.len();
    let mut marks: Vec<Mark> = Vec::new();
    while marks.len() < n
        invariant
            marks@.len() <= n,
            forall|i: int| 0 <= i < marks@.len() ==> #[trigger] marks@[i] is Unseen,
        decreases n - marks@.len(),
    {
        marks.push(Mark::Unseen);
    }
    let ghost all = Seq::new(g.len(), |i: int| i as usize);
    let mut order: Vec<usize> = Vec::new();
    let mut node: usize = 0;
    while node < n
        invariant
            g == rows(edges@),
            n == g.len(),
            all == Seq::new(g.len(), |i: int| i as usize),
            order@ == post_orders(g, Seq::empty(), all, node as nat, n as nat),
            node <= n,
            search(g, marks@, order@),
            forall|a: int| 0 <= a < n ==> !(#[trigger] marks@[a] is Active),
            forall|a: int| 0 <= a < node ==> #[trigger] marks@[a] is Placed,
        decreases n - node,
    {
        let ghost before = marks@;
        proof {
            unseen_is_bounded(before, before.len());
            assert(all[node as int] == node);
        }
        if !visit(node, edges, &mut marks, &mut order, Ghost(n as nat)) {
            return None;
        }
        assert forall|a: int| 0 <= a < n implies !(#[trigger] marks@[a] is Active) by {
            assert(!(before[a] is Active));
        }
        assert forall|a: int| 0 <= a < node implies #[trigger] marks@[a] is Placed by {
            assert(before[a] is Placed);
        }
        node += 1;
    }
    proof {
        assert(is_topological(g, order@));
        topological_has_no_cycle(g, order@);
    }
    Some(order)
}

}
