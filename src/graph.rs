//! The dependency graph: one node per definition, edges from provider to
//! consumer, with consumers of an intercepted provider redirected through
//! the chain of its interceptors.

use vstd::prelude::*;
use crate::text::{contains_str, str_eq};
use crate::types::{
    scope_of, ComponentDefinition, EnableScope, RuntimeFeatureDefinition, parse_enables,
};

verus! {

/// A node of the graph.
#[derive(Debug)]
pub enum Node {
    Component(ComponentDefinition),
    RuntimeFeature(RuntimeFeatureDefinition),
}

/// What an edge stands for.
#[derive(Clone, Copy, Debug, PartialEq, Eq, Structural)]
pub enum Edge {
    Dependency,
    /// A link of an interceptor chain, with the precedence of its target.
    Interceptor(i32),
}

/// An edge from the node at `source` (the provider) to the node at `target`.
#[derive(Clone, Copy, Debug, PartialEq, Eq, Structural)]
pub struct GraphEdge {
    pub source: usize,
    pub target: usize,
    pub kind: Edge,
}

/// Why a graph could not be built.
#[derive(Debug)]
pub enum GraphError {
    /// Two definitions share this name.
    DuplicateName(String),
    /// The redirected graph has a cycle through the node of this name.
    CircularDependency(String),
}

/// The graph of definitions, with an order in which every provider comes
/// before its consumers.
#[derive(Debug)]
pub struct ComponentGraph {
    nodes: Vec<Node>,
    edges: Vec<GraphEdge>,
    order: Vec<usize>,
}

pub open spec fn node_name(n: Node) -> Seq<char> {
    match n {
        Node::Component(d) => d.name@,
        Node::RuntimeFeature(d) => d.name@,
    }
}

pub open spec fn is_component(n: Node) -> bool {
    n is Component
}

pub open spec fn component_of(n: Node) -> ComponentDefinition
    recommends
        n is Component,
{
    match n {
        Node::Component(d) => d,
        _ => arbitrary(),
    }
}

pub open spec fn names_unique(nodes: Seq<Node>) -> bool {
    forall|i: int, j: int|
        0 <= i < nodes.len() && 0 <= j < nodes.len() && i != j ==> node_name(#[trigger] nodes[i])
            != node_name(#[trigger] nodes[j])
}

/// Whether a list of strings holds `name`.
pub open spec fn lists(v: Seq<String>, name: Seq<char>) -> bool {
    exists|k: int| 0 <= k < v.len() && v[k]@ == name
}

/// Whether a component names `name` among what it expects or intercepts.
pub open spec fn wants(d: ComponentDefinition, name: Seq<char>) -> bool {
    lists(d.base.expects@, name) || lists(d.base.intercepts@, name)
}

/// The edges that the definitions ask for before any redirection.
pub open spec fn dependency_edge(nodes: Seq<Node>, p: int, c: int) -> bool {
    &&& 0 <= p < nodes.len()
    &&& 0 <= c < nodes.len()
    &&& is_component(nodes[c])
    &&& wants(component_of(nodes[c]), node_name(nodes[p]))
}

/// Whether an interceptor's scope lets it stand in front of `consumer`.
/// Package and namespace scopes are let through here and decided once
/// component metadata is known.
pub open spec fn interceptor_enabled(i: ComponentDefinition, consumer: ComponentDefinition) -> bool {
    match scope_of(i.enables_view()) {
        Some(EnableScope::Nobody) => false,
        Some(EnableScope::Any) => true,
        Some(EnableScope::Exposed) => consumer.base.exposed,
        Some(EnableScope::Unexposed) => !consumer.base.exposed,
        Some(EnableScope::Package) => true,
        Some(EnableScope::Namespace) => true,
        None => false,
    }
}

/// Whether node `x` intercepts provider `p` on the way to consumer `c`.
pub open spec fn intercepts_for(nodes: Seq<Node>, x: int, p: int, c: int) -> bool {
    &&& 0 <= x < nodes.len()
    &&& 0 <= p < nodes.len()
    &&& 0 <= c < nodes.len()
    &&& is_component(nodes[x])
    &&& is_component(nodes[c])
    &&& lists(component_of(nodes[x]).base.intercepts@, node_name(nodes[p]))
    &&& interceptor_enabled(component_of(nodes[x]), component_of(nodes[c]))
}

pub open spec fn precedence_of(nodes: Seq<Node>, x: int) -> i32 {
    component_of(nodes[x]).base.precedence
}

/// `chain` lists exactly the interceptors of `p` for `c`, once each, by
/// ascending precedence.
pub open spec fn is_interceptor_chain(nodes: Seq<Node>, p: int, c: int, chain: Seq<usize>) -> bool {
    &&& chain.no_duplicates()
    &&& forall|k: int| 0 <= k < chain.len() ==> intercepts_for(nodes, #[trigger] chain[k] as int, p, c)
    &&& forall|x: int| #![trigger intercepts_for(nodes, x, p, c)]
        intercepts_for(nodes, x, p, c) ==> chain.contains(x as usize)
    &&& forall|i: int, j: int|
        0 <= i < j < chain.len() ==> precedence_of(nodes, #[trigger] chain[i] as int)
            <= precedence_of(nodes, #[trigger] chain[j] as int)
}

pub open spec fn has_edge(edges: Seq<GraphEdge>, a: int, b: int) -> bool {
    exists|k: int| 0 <= k < edges.len() && edges[k].source == a && edges[k].target == b
}

/// The edges `p → chain[0] → … → chain[last] → c` are all present.
pub open spec fn chain_linked(edges: Seq<GraphEdge>, p: int, chain: Seq<usize>, c: int) -> bool {
    &&& chain.len() > 0
    &&& has_edge(edges, p, chain[0] as int)
    &&& forall|k: int| 0 <= k < chain.len() - 1 ==> has_edge(edges, #[trigger] chain[k] as int, chain[k + 1] as int)
    &&& has_edge(edges, chain[chain.len() - 1] as int, c)
}

/// `path` follows edges from its first node to its last.
pub open spec fn is_path(edges: Seq<GraphEdge>, path: Seq<int>) -> bool {
    &&& path.len() > 0
    &&& forall|k: int| 0 <= k < path.len() - 1 ==> has_edge(edges, #[trigger] path[k], path[k + 1])
}


/// `order` lists each of the `n` nodes once, and no edge leads from a node
/// back to itself or to one listed before it.
pub open spec fn is_topological_order(order: Seq<usize>, n: nat, edges: Seq<GraphEdge>) -> bool {
    &&& order.len() == n
    &&& order.no_duplicates()
    &&& forall|k: int| 0 <= k < order.len() ==> #[trigger] order[k] < n
    &&& forall|i: int, j: int|
        0 <= i <= j < order.len() ==> !has_edge(edges, #[trigger] order[j] as int, #[trigger] order[i] as int)
}

pub open spec fn edges_in_range(edges: Seq<GraphEdge>, nodes: Seq<Node>) -> bool {
    forall|k: int|
        0 <= k < edges.len() ==> (#[trigger] edges[k]).source < nodes.len() && edges[k].target
            < nodes.len() && is_component(nodes[edges[k].target as int])
}


/// Some edge before position `k` leads from `x` to `index`.
pub open spec fn source_before(edges: Seq<GraphEdge>, index: usize, k: int, x: usize) -> bool {
    exists|w: int| 0 <= w < k && edges[w].target == index && edges[w].source == x
}

impl ComponentGraph {
    pub closed spec fn node_seq(&self) -> Seq<Node> {
        self.nodes@
    }

    pub closed spec fn edge_seq(&self) -> Seq<GraphEdge> {
        self.edges@
    }

    pub closed spec fn order_seq(&self) -> Seq<usize> {
        self.order@
    }

    /// What holds of every graph the builder produces.
    pub open spec fn wf(&self) -> bool {
        &&& names_unique(self.node_seq())
        &&& is_final_graph(self.node_seq(), self.edge_seq())
        &&& edges_in_range(self.edge_seq(), self.node_seq())
        &&& is_topological_order(self.order_seq(), self.node_seq().len(), self.edge_seq())
    }
}


/// The name of a node.
pub fn node_name_ref(n: &Node) -> (r: &String)
    ensures
        r@ == node_name(*n),
{
    match n {
        Node::Component(d) => &d.name,
        Node::RuntimeFeature(d) => &d.name,
    }
}

/// Whether `interceptor` may stand in front of `consumer`.
pub fn is_interceptor_enabled(
    interceptor: &ComponentDefinition,
    consumer: &ComponentDefinition,
) -> (r: bool)
    ensures
        r == interceptor_enabled(*interceptor, *consumer),
{
    match parse_enables(interceptor.base.base.enables.as_str()) {
        Some(EnableScope::Nobody) => false,
        Some(EnableScope::Any) => true,
        Some(EnableScope::Exposed) => consumer.base.exposed,
        Some(EnableScope::Unexposed) => !consumer.base.exposed,
        Some(EnableScope::Package) => true,
        Some(EnableScope::Namespace) => true,
        None => false,
    }
}

/// The index of the first node named `name`.
fn find_node(nodes: &Vec<Node>, name: &str) -> (r: Option<usize>)
    ensures
        match r {
            Some(i) => i < nodes@.len() && node_name(nodes@[i as int]) == name@,
            None => forall|i: int| 0 <= i < nodes@.len() ==> node_name(#[trigger] nodes@[i]) != name@,
        },
{
    let mut i: usize = 0;
    while i < nodes.len()
        invariant
            i <= nodes@.len(),
            forall|k: int| 0 <= k < i ==> node_name(#[trigger] nodes@[k]) != name@,
        decreases nodes@.len() - i,
    {
        if str_eq(node_name_ref(&nodes[i]).as_str(), name) {
            return Some(i);
        }
        i = i + 1;
    }
    None
}

/// The index of a node whose name an earlier node has too, if there is one.
fn find_duplicate(nodes: &Vec<Node>) -> (r: Option<usize>)
    ensures
        match r {
            Some(i) => i < nodes@.len() && !names_unique(nodes@),
            None => names_unique(nodes@),
        },
{
    let mut j: usize = 0;
    while j < nodes.len()
        invariant
            j <= nodes@.len(),
            forall|a: int, b: int|
                0 <= a < j && 0 <= b < j && a != b ==> node_name(#[trigger] nodes@[a])
                    != node_name(#[trigger] nodes@[b]),
        decreases nodes@.len() - j,
    {
        let mut i: usize = 0;
        while i < j
            invariant
                i <= j < nodes@.len(),
                forall|a: int| 0 <= a < i ==> node_name(#[trigger] nodes@[a]) != node_name(nodes@[j as int]),
            decreases j - i,
        {
            if str_eq(node_name_ref(&nodes[i]).as_str(), node_name_ref(&nodes[j]).as_str()) {
                assert(node_name(nodes@[i as int]) == node_name(nodes@[j as int]));
                return Some(j);
            }
            i = i + 1;
        }
        j = j + 1;
    }
    None
}

/// Whether an edge leads from `a` to `b`.
fn edge_exists(edges: &Vec<GraphEdge>, a: usize, b: usize) -> (r: bool)
    ensures
        r == has_edge(edges@, a as int, b as int),
{
    let mut k: usize = 0;
    while k < edges.len()
        invariant
            k <= edges@.len(),
            forall|m: int| 0 <= m < k ==> !((#[trigger] edges@[m]).source == a && edges@[m].target == b),
        decreases edges@.len() - k,
    {
        if edges[k].source == a && edges[k].target == b {
            return true;
        }
        k = k + 1;
    }
    false
}

/// The edges the definitions ask for: one from each expected or intercepted
/// definition to the component that names it.
fn dependency_edges(nodes: &Vec<Node>) -> (r: Vec<GraphEdge>)
    requires
        names_unique(nodes@),
    ensures
        forall|k: int| 0 <= k < r@.len() ==> dependency_edge(nodes@, (#[trigger] r@[k]).source as int, r@[k].target as int),
        forall|p: int, c: int| #[trigger] dependency_edge(nodes@, p, c) ==> has_edge(r@, p, c),
{
    let mut edges: Vec<GraphEdge> = Vec::new();
    let mut c: usize = 0;
    while c < nodes.len()
        invariant
            c <= nodes@.len(),
            names_unique(nodes@),
            forall|k: int| 0 <= k < edges@.len() ==> dependency_edge(nodes@, (#[trigger] edges@[k]).source as int, edges@[k].target as int),
            forall|p: int, c2: int| 0 <= c2 < c && #[trigger] dependency_edge(nodes@, p, c2) ==> has_edge(edges@, p, c2),
        decreases nodes@.len() - c,
    {
        if let Node::Component(def) = &nodes[c] {
            let ghost d = component_of(nodes@[c as int]);
            // `intercepts` implies `expects`: an interceptor is composed with
            // what it intercepts.
            let mut round: usize = 0;
            while round < 2
                invariant
                    c < nodes@.len(),
                    names_unique(nodes@),
                    nodes@[c as int] == Node::Component(*def),
                    d == *def,
                    round <= 2,
                    forall|k: int| 0 <= k < edges@.len() ==> dependency_edge(nodes@, (#[trigger] edges@[k]).source as int, edges@[k].target as int),
                    forall|p: int, c2: int| 0 <= c2 < c && #[trigger] dependency_edge(nodes@, p, c2) ==> has_edge(edges@, p, c2),
                    forall|p: int| 0 <= p < nodes@.len() && round >= 1 && lists(d.base.expects@, node_name(#[trigger] nodes@[p])) ==> has_edge(edges@, p, c as int),
                    forall|p: int| 0 <= p < nodes@.len() && round >= 2 && lists(d.base.intercepts@, node_name(#[trigger] nodes@[p])) ==> has_edge(edges@, p, c as int),
                decreases 2 - round,
            {
                let names = if round == 0 { &def.base.expects } else { &def.base.intercepts };
                let mut k: usize = 0;
                while k < names.len()
                    invariant
                        c < nodes@.len(),
                        names_unique(nodes@),
                        nodes@[c as int] == Node::Component(*def),
                        d == *def,
                        round < 2,
                        names@ == (if round == 0 { d.base.expects@ } else { d.base.intercepts@ }),
                        k <= names@.len(),
                        forall|m: int| 0 <= m < edges@.len() ==> dependency_edge(nodes@, (#[trigger] edges@[m]).source as int, edges@[m].target as int),
                        forall|p: int, c2: int| 0 <= c2 < c && #[trigger] dependency_edge(nodes@, p, c2) ==> has_edge(edges@, p, c2),
                        forall|p: int| 0 <= p < nodes@.len() && round >= 1 && lists(d.base.expects@, node_name(#[trigger] nodes@[p])) ==> has_edge(edges@, p, c as int),
                        forall|p: int, m: int| #![trigger names@[m], nodes@[p]] 0 <= p < nodes@.len() && 0 <= m < k && names@[m]@ == node_name(nodes@[p]) ==> has_edge(edges@, p, c as int),
                    decreases names@.len() - k,
                {
                    let found = find_node(nodes, names[k].as_str());
                    if let Some(p) = found {
                        assert(lists(names@, node_name(nodes@[p as int])));
                        assert(dependency_edge(nodes@, p as int, c as int));
                        if !edge_exists(&edges, p, c) {
                            let ghost old_edges = edges@;
                            edges.push(GraphEdge { source: p, target: c, kind: Edge::Dependency });
                            assert forall|a: int, b: int| has_edge(old_edges, a, b) implies has_edge(edges@, a, b) by {
                                let w = choose|w: int| 0 <= w < old_edges.len() && old_edges[w].source == a && old_edges[w].target == b;
                                assert(edges@[w] == old_edges[w]);
                            }
                            assert(edges@[old_edges.len() as int].source == p);
                        }
                    }
                    proof {
                        assert forall|p2: int| 0 <= p2 < nodes@.len() && names@[k as int]@ == node_name(#[trigger] nodes@[p2]) implies has_edge(edges@, p2, c as int) by {
                            if found is None {
                            } else {
                                let p = found->0 as int;
                                if p != p2 {
                                    assert(node_name(nodes@[p]) == node_name(nodes@[p2]));
                                }
                            }
                        }
                    }
                    k = k + 1;
                }
                proof {
                    assert forall|p: int| 0 <= p < nodes@.len() && round + 1 >= 1 && lists(d.base.expects@, node_name(#[trigger] nodes@[p])) implies has_edge(edges@, p, c as int) by {
                        if round == 0 {
                            let m = choose|m: int| 0 <= m < d.base.expects@.len() && d.base.expects@[m]@ == node_name(nodes@[p]);
                        }
                    }
                    assert forall|p: int| 0 <= p < nodes@.len() && round + 1 >= 2 && lists(d.base.intercepts@, node_name(#[trigger] nodes@[p])) implies has_edge(edges@, p, c as int) by {
                        if round == 1 {
                            let m = choose|m: int| 0 <= m < d.base.intercepts@.len() && d.base.intercepts@[m]@ == node_name(nodes@[p]);
                        }
                    }
                }
                round = round + 1;
            }
            assert forall|p: int, c2: int| 0 <= c2 < c + 1 && #[trigger] dependency_edge(nodes@, p, c2) implies has_edge(edges@, p, c2) by {
                if c2 == c {
                    assert(wants(d, node_name(nodes@[p])));
                }
            }
        }
        c = c + 1;
    }
    edges
}


/// Where an interceptor of precedence `prec` goes in `s`: after every
/// interceptor whose precedence is not greater.
pub open spec fn insert_pos(nodes: Seq<Node>, s: Seq<usize>, prec: i32) -> int
    decreases s.len(),
{
    if s.len() == 0 {
        0
    } else if precedence_of(nodes, s[0] as int) > prec {
        0
    } else {
        1 + insert_pos(nodes, s.drop_first(), prec)
    }
}

/// The interceptors of `p` for `c` among the first `x` nodes, stably
/// sorted by ascending precedence.
pub open spec fn chain_upto(nodes: Seq<Node>, p: int, c: int, x: nat) -> Seq<usize>
    decreases x,
{
    if x == 0 {
        Seq::empty()
    } else {
        let prev = chain_upto(nodes, p, c, (x - 1) as nat);
        let y = x - 1;
        if intercepts_for(nodes, y, p, c) {
            prev.insert(insert_pos(nodes, prev, precedence_of(nodes, y)), y as usize)
        } else {
            prev
        }
    }
}

/// The interceptors of `p` for `c`, stably sorted by ascending precedence.
pub open spec fn chain_of(nodes: Seq<Node>, p: int, c: int) -> Seq<usize> {
    chain_upto(nodes, p, c, nodes.len())
}

proof fn lemma_insert_pos_bounds(nodes: Seq<Node>, s: Seq<usize>, prec: i32)
    ensures
        0 <= insert_pos(nodes, s, prec) <= s.len(),
    decreases s.len(),
{
    if s.len() > 0 {
        lemma_insert_pos_bounds(nodes, s.drop_first(), prec);
    }
}

/// The precedence of a component node.
fn precedence_at(nodes: &Vec<Node>, x: usize) -> (r: i32)
    requires
        x < nodes@.len(),
        is_component(nodes@[x as int]),
    ensures
        r == precedence_of(nodes@, x as int),
{
    match &nodes[x] {
        Node::Component(d) => d.base.precedence,
        Node::RuntimeFeature(_) => 0,
    }
}

/// The interceptors of provider `p` that stand in front of consumer `c`,
/// by ascending precedence; among equal precedences, in definition order.
proof fn lemma_chain_empty(nodes: Seq<Node>, p: int, c: int, x: nat)
    requires
        0 <= c < nodes.len(),
        !is_component(nodes[c]),
    ensures
        chain_upto(nodes, p, c, x) == Seq::<usize>::empty(),
    decreases x,
{
    if x > 0 {
        lemma_chain_empty(nodes, p, c, (x - 1) as nat);
    }
}

#[verifier::rlimit(80)]
fn interceptor_chain(nodes: &Vec<Node>, p: usize, c: usize) -> (r: Vec<usize>)
    requires
        p < nodes@.len(),
        c < nodes@.len(),
    ensures
        is_interceptor_chain(nodes@, p as int, c as int, r@),
        forall|k: int| 0 <= k < r@.len() ==> #[trigger] r@[k] < nodes@.len(),
        r@ == chain_of(nodes@, p as int, c as int),
{
    let mut chain: Vec<usize> = Vec::new();
    let consumer = match &nodes[c] {
        Node::Component(d) => d,
        Node::RuntimeFeature(_) => {
            proof {
                assert forall|x: nat| x <= nodes@.len() implies chain_upto(nodes@, p as int, c as int, x) == Seq::<usize>::empty() by {
                    lemma_chain_empty(nodes@, p as int, c as int, x);
                }
            }
            return chain;
        },
    };
    let provider_name = node_name_ref(&nodes[p]);
    let mut x: usize = 0;
    while x < nodes.len()
        invariant
            p < nodes@.len(),
            c < nodes@.len(),
            nodes@[c as int] == Node::Component(*consumer),
            provider_name@ == node_name(nodes@[p as int]),
            x <= nodes@.len(),
            chain@.no_duplicates(),
            forall|k: int| 0 <= k < chain@.len() ==> #[trigger] chain@[k] < x && intercepts_for(nodes@, chain@[k] as int, p as int, c as int),
            forall|y: int| 0 <= y < x && #[trigger] intercepts_for(nodes@, y, p as int, c as int) ==> chain@.contains(y as usize),
            forall|i: int, j: int|
                0 <= i < j < chain@.len() ==> precedence_of(nodes@, #[trigger] chain@[i] as int)
                    <= precedence_of(nodes@, #[trigger] chain@[j] as int),
            chain@ == chain_upto(nodes@, p as int, c as int, x as nat),
        decreases nodes@.len() - x,
    {
        let ghost before = chain@;
        if let Node::Component(def) = &nodes[x] {
            if contains_str(&def.base.intercepts, provider_name.as_str()) && is_interceptor_enabled(def, consumer) {
                assert(intercepts_for(nodes@, x as int, p as int, c as int));
                let prec = def.base.precedence;
                let mut k: usize = 0;
                proof {
                    lemma_insert_pos_bounds(nodes@, chain@, prec);
                    assert(chain@.subrange(0, chain@.len() as int) =~= chain@);
                }
                while k < chain.len() && precedence_at(nodes, chain[k]) <= prec
                    invariant
                        k + insert_pos(nodes@, chain@.subrange(k as int, chain@.len() as int), prec) == insert_pos(nodes@, chain@, prec),
                        x < nodes@.len(),
                        nodes@[x as int] == Node::Component(*def),
                        prec == precedence_of(nodes@, x as int),
                        k <= chain@.len(),
                        forall|m: int| 0 <= m < chain@.len() ==> #[trigger] chain@[m] < x && intercepts_for(nodes@, chain@[m] as int, p as int, c as int),
                        forall|m: int| 0 <= m < k ==> precedence_of(nodes@, #[trigger] chain@[m] as int) <= prec,
                    decreases chain@.len() - k,
                {
                    assert(chain@.subrange(k as int, chain@.len() as int).drop_first() =~= chain@.subrange(k + 1, chain@.len() as int));
                    k = k + 1;
                }
                proof {
                    if k < chain@.len() {
                        assert(chain@.subrange(k as int, chain@.len() as int)[0] == chain@[k as int]);
                    } else {
                        assert(chain@.subrange(k as int, chain@.len() as int).len() == 0);
                    }
                    assert(k == insert_pos(nodes@, chain@, prec));
                }
                let ghost old_chain = chain@;
                chain.insert(k, x);
                assert(chain@ == before.insert(insert_pos(nodes@, before, prec), x));
                proof {
                    old_chain.insert_ensures(k as int, x);
                    assert forall|m: int| 0 <= m < chain@.len() implies #[trigger] chain@[m] < x + 1 && intercepts_for(nodes@, chain@[m] as int, p as int, c as int) by {
                        if m < k {
                        } else if m > k {
                            assert(chain@[m] == old_chain[m - 1]);
                        }
                    }
                    assert forall|i: int, j: int| 0 <= i < j < chain@.len() implies precedence_of(nodes@, #[trigger] chain@[i] as int)
                        <= precedence_of(nodes@, #[trigger] chain@[j] as int) by {
                        if j < k {
                        } else if j == k {
                        } else if i < k {
                            assert(chain@[j] == old_chain[j - 1]);
                            if k < old_chain.len() {
                                assert(precedence_of(nodes@, old_chain[k as int] as int) > prec);
                                if j - 1 > k {
                                    assert(precedence_of(nodes@, old_chain[k as int] as int) <= precedence_of(nodes@, old_chain[j - 1] as int));
                                }
                            }
                        } else if i == k {
                            assert(chain@[j] == old_chain[j - 1]);
                            assert(precedence_of(nodes@, old_chain[k as int] as int) > prec);
                            if j - 1 > k {
                                assert(precedence_of(nodes@, old_chain[k as int] as int) <= precedence_of(nodes@, old_chain[j - 1] as int));
                            }
                        } else {
                            assert(chain@[j] == old_chain[j - 1]);
                            assert(chain@[i] == old_chain[i - 1]);
                        }
                    }
                    assert forall|a: int, b: int| 0 <= a < chain@.len() && 0 <= b < chain@.len() && a != b implies chain@[a] != chain@[b] by {
                        if a != k as int && b != k as int {
                            let a2 = if a < k { a } else { a - 1 };
                            let b2 = if b < k { b } else { b - 1 };
                            assert(chain@[a] == old_chain[a2]);
                            assert(chain@[b] == old_chain[b2]);
                        } else if a == k {
                            let b2 = if b < k { b } else { b - 1 };
                            assert(chain@[b] == old_chain[b2]);
                        } else {
                            let a2 = if a < k { a } else { a - 1 };
                            assert(chain@[a] == old_chain[a2]);
                        }
                    }
                    assert forall|y: int| 0 <= y < x + 1 && #[trigger] intercepts_for(nodes@, y, p as int, c as int) implies chain@.contains(y as usize) by {
                        if y == x {
                            assert(chain@[k as int] == x);
                        } else {
                            assert(old_chain.contains(y as usize));
                            let w = choose|w: int| 0 <= w < old_chain.len() && old_chain[w] == y as usize;
                            if w < k {
                                assert(chain@[w] == y as usize);
                            } else {
                                assert(chain@[w + 1] == y as usize);
                            }
                        }
                    }
                }
            }
        }
        proof {
            if intercepts_for(nodes@, x as int, p as int, c as int) {
                assert(chain@ == before.insert(insert_pos(nodes@, before, precedence_of(nodes@, x as int)), x));
            } else {
                assert(chain@ == before);
            }
            assert(chain@ == chain_upto(nodes@, p as int, c as int, (x + 1) as nat));
        }
        x = x + 1;
    }
    chain
}


/// Every edge of `a` is an edge of `b`.
pub open spec fn edges_within(a: Seq<GraphEdge>, b: Seq<GraphEdge>) -> bool {
    forall|u: int, v: int| #[trigger] has_edge(a, u, v) ==> has_edge(b, u, v)
}

proof fn lemma_push_edge(s: Seq<GraphEdge>, e: GraphEdge)
    ensures
        edges_within(s, s.push(e)),
        has_edge(s.push(e), e.source as int, e.target as int),
{
    assert forall|u: int, v: int| #[trigger] has_edge(s, u, v) implies has_edge(s.push(e), u, v) by {
        let w = choose|w: int| 0 <= w < s.len() && s[w].source == u && s[w].target == v;
        assert(s.push(e)[w] == s[w]);
    }
    assert(s.push(e)[s.len() as int] == e);
}





fn contains_index(v: &Vec<usize>, x: usize) -> (r: bool)
    ensures
        r == v@.contains(x),
{
    let mut k: usize = 0;
    while k < v.len()
        invariant
            k <= v@.len(),
            forall|m: int| 0 <= m < k ==> v@[m] != x,
        decreases v@.len() - k,
    {
        if v[k] == x {
            return true;
        }
        k = k + 1;
    }
    false
}

/// Whether `p → c` is redirected through a chain of interceptors.
pub open spec fn redirected(nodes: Seq<Node>, p: int, c: int) -> bool {
    !intercepts_for(nodes, c, p, c) && exists|x: int| intercepts_for(nodes, x, p, c)
}

/// `p → c` is a dependency edge that goes through interceptors.
pub open spec fn redirected_pair(nodes: Seq<Node>, p: int, c: int) -> bool {
    dependency_edge(nodes, p, c) && redirected(nodes, p, c)
}

/// `a → b` links provider `p` to the first interceptor of `ch`, or one
/// interceptor of `ch` to the next.
pub open spec fn chain_link_in(ch: Seq<usize>, p: int, a: int, b: int) -> bool {
    ch.len() > 0 && ((a == p && b == ch[0] as int)
        || exists|k: int| 0 <= k < ch.len() - 1 && a == ch[k] as int && b == #[trigger] ch[k + 1] as int)
}

/// `a → b` links the last interceptor of `ch` to consumer `c`.
pub open spec fn final_link_in(ch: Seq<usize>, c: int, a: int, b: int) -> bool {
    ch.len() > 0 && a == ch[ch.len() - 1] as int && b == c
}

/// `a → b` gives way to the chain `ch` of `p → c`: the direct edge, or an
/// edge from `p` to an interceptor after the first.
pub open spec fn removed_in(ch: Seq<usize>, p: int, c: int, a: int, b: int) -> bool {
    a == p && (b == c || exists|k: int| 1 <= k < ch.len() && b == #[trigger] ch[k] as int)
}

pub open spec fn is_removed(nodes: Seq<Node>, a: int, b: int) -> bool {
    exists|p: int, c: int| #[trigger] redirected_pair(nodes, p, c) && removed_in(chain_of(nodes, p, c), p, c, a, b)
}

pub open spec fn is_added(nodes: Seq<Node>, a: int, b: int) -> bool {
    exists|p: int, c: int| #[trigger] redirected_pair(nodes, p, c)
        && (chain_link_in(chain_of(nodes, p, c), p, a, b) || final_link_in(chain_of(nodes, p, c), c, a, b))
}

pub open spec fn is_linked(nodes: Seq<Node>, a: int, b: int) -> bool {
    exists|p: int, c: int| #[trigger] redirected_pair(nodes, p, c) && chain_link_in(chain_of(nodes, p, c), p, a, b)
}

/// The edges of the built graph: every dependency edge that does not give
/// way to an interceptor chain, and every link of every chain.
pub open spec fn in_final(nodes: Seq<Node>, a: int, b: int) -> bool {
    (dependency_edge(nodes, a, b) && !is_removed(nodes, a, b)) || is_added(nodes, a, b)
}

/// An edge into an interceptor of a chain carries that interceptor's
/// precedence; every other edge is a dependency.
pub open spec fn label_final(nodes: Seq<Node>, a: int, b: int) -> Edge {
    if is_linked(nodes, a, b) { Edge::Interceptor(precedence_of(nodes, b)) } else { Edge::Dependency }
}

pub open spec fn pairs_unique(edges: Seq<GraphEdge>) -> bool {
    forall|i: int, j: int| 0 <= i < j < edges.len() ==> !((#[trigger] edges[i]).source == (#[trigger] edges[j]).source
        && edges[i].target == edges[j].target)
}

/// `edges` are exactly the edges of the graph built on `nodes`, once each,
/// with their labels.
pub open spec fn is_final_graph(nodes: Seq<Node>, edges: Seq<GraphEdge>) -> bool {
    &&& forall|a: int, b: int| #[trigger] has_edge(edges, a, b) <==> in_final(nodes, a, b)
    &&& forall|k: int| 0 <= k < edges.len() ==> (#[trigger] edges[k]).kind == label_final(nodes, edges[k].source as int, edges[k].target as int)
    &&& pairs_unique(edges)
}

/// The dependency edges, once each.
pub open spec fn is_dependency_list(nodes: Seq<Node>, e0: Seq<GraphEdge>) -> bool {
    &&& forall|k: int| 0 <= k < e0.len() ==> dependency_edge(nodes, (#[trigger] e0[k]).source as int, e0[k].target as int)
    &&& forall|p: int, c: int| #[trigger] dependency_edge(nodes, p, c) ==> has_edge(e0, p, c)
}

fn contains_at_from(v: &Vec<usize>, from: usize, x: usize) -> (r: bool)
    ensures
        r == exists|k: int| from <= k < v@.len() && x == #[trigger] v@[k],
{
    let mut k: usize = from;
    while k < v.len()
        invariant
            from <= k,
            forall|m: int| from <= m < k ==> x != v@[m],
        decreases v@.len() - k,
    {
        if v[k] == x {
            return true;
        }
        k = k + 1;
    }
    proof {
        assert forall|m: int| from <= m < v@.len() implies x != #[trigger] v@[m] by {
            if m >= k {
            }
        }
    }
    false
}

fn links_in(ch: &Vec<usize>, p: usize, a: usize, b: usize) -> (r: bool)
    ensures
        r == chain_link_in(ch@, p as int, a as int, b as int),
{
    if ch.len() == 0 {
        return false;
    }
    if a == p && b == ch[0] {
        return true;
    }
    let mut k: usize = 0;
    while k < ch.len() - 1
        invariant
            ch@.len() > 0,
            k <= ch@.len() - 1,
            forall|m: int| 0 <= m < k ==> !(a as int == ch@[m] as int && b as int == #[trigger] ch@[m + 1] as int),
        decreases ch@.len() - k,
    {
        if ch[k] == a && ch[k + 1] == b {
            return true;
        }
        k = k + 1;
    }
    false
}

/// What the chains of the dependency edges say of the pair `a → b`: whether
/// it gives way to a chain, is added by one, and links into an interceptor.
fn classify_pair(nodes: &Vec<Node>, e0: &Vec<GraphEdge>, a: usize, b: usize) -> (r: (bool, bool, bool))
    requires
        is_dependency_list(nodes@, e0@),
    ensures
        r.0 == is_removed(nodes@, a as int, b as int),
        r.1 == is_added(nodes@, a as int, b as int),
        r.2 == is_linked(nodes@, a as int, b as int),
{
    let ghost ns = nodes@;
    let mut rem = false;
    let mut add = false;
    let mut link = false;
    let mut m: usize = 0;
    while m < e0.len()
        invariant
            ns == nodes@,
            is_dependency_list(nodes@, e0@),
            m <= e0@.len(),
            rem == exists|j: int| 0 <= j < m && redirected(ns, (#[trigger] e0@[j]).source as int, e0@[j].target as int)
                && removed_in(chain_of(ns, e0@[j].source as int, e0@[j].target as int), e0@[j].source as int, e0@[j].target as int, a as int, b as int),
            add == exists|j: int| 0 <= j < m && redirected(ns, (#[trigger] e0@[j]).source as int, e0@[j].target as int)
                && (chain_link_in(chain_of(ns, e0@[j].source as int, e0@[j].target as int), e0@[j].source as int, a as int, b as int)
                || final_link_in(chain_of(ns, e0@[j].source as int, e0@[j].target as int), e0@[j].target as int, a as int, b as int)),
            link == exists|j: int| 0 <= j < m && redirected(ns, (#[trigger] e0@[j]).source as int, e0@[j].target as int)
                && chain_link_in(chain_of(ns, e0@[j].source as int, e0@[j].target as int), e0@[j].source as int, a as int, b as int),
        decreases e0@.len() - m,
    {
        let p = e0[m].source;
        let c = e0[m].target;
        assert(dependency_edge(ns, p as int, c as int));
        let ch = interceptor_chain(nodes, p, c);
        let redir = ch.len() > 0 && !contains_index(&ch, c);
        proof {
            if ch@.len() > 0 {
                assert(intercepts_for(ns, ch@[0] as int, p as int, c as int));
            } else {
                assert forall|x: int| !intercepts_for(ns, x, p as int, c as int) by {
                    if intercepts_for(ns, x, p as int, c as int) {
                        assert(ch@.contains(x as usize));
                    }
                }
            }
            if ch@.contains(c) {
                let w = choose|w: int| 0 <= w < ch@.len() && ch@[w] == c;
                assert(intercepts_for(ns, ch@[w] as int, p as int, c as int));
            }
            if intercepts_for(ns, c as int, p as int, c as int) {
                assert(ch@.contains(c));
            }
            assert(redir == redirected(ns, p as int, c as int));
        }
        if redir {
            let r_m = a == p && (b == c || contains_at_from(&ch, 1, b));
            let l_m = links_in(&ch, p, a, b);
            let f_m = ch.len() > 0 && a == ch[ch.len() - 1] && b == c;
            rem = rem || r_m;
            add = add || l_m || f_m;
            link = link || l_m;
        }
        m = m + 1;
    }
    proof {
        if rem {
            let j = choose|j: int| 0 <= j < e0@.len() && redirected(ns, (#[trigger] e0@[j]).source as int, e0@[j].target as int)
                && removed_in(chain_of(ns, e0@[j].source as int, e0@[j].target as int), e0@[j].source as int, e0@[j].target as int, a as int, b as int);
            assert(redirected_pair(ns, e0@[j].source as int, e0@[j].target as int));
        }
        if is_removed(ns, a as int, b as int) {
            let (p, c) = choose|p: int, c: int| #[trigger] redirected_pair(ns, p, c) && removed_in(chain_of(ns, p, c), p, c, a as int, b as int);
            let j = choose|j: int| 0 <= j < e0@.len() && e0@[j].source == p && e0@[j].target == c;
            assert(redirected(ns, (e0@[j]).source as int, e0@[j].target as int));
        }
        if add {
            let j = choose|j: int| 0 <= j < e0@.len() && redirected(ns, (#[trigger] e0@[j]).source as int, e0@[j].target as int)
                && (chain_link_in(chain_of(ns, e0@[j].source as int, e0@[j].target as int), e0@[j].source as int, a as int, b as int)
                || final_link_in(chain_of(ns, e0@[j].source as int, e0@[j].target as int), e0@[j].target as int, a as int, b as int));
            assert(redirected_pair(ns, e0@[j].source as int, e0@[j].target as int));
        }
        if is_added(ns, a as int, b as int) {
            let (p, c) = choose|p: int, c: int| #[trigger] redirected_pair(ns, p, c)
                && (chain_link_in(chain_of(ns, p, c), p, a as int, b as int) || final_link_in(chain_of(ns, p, c), c, a as int, b as int));
            let j = choose|j: int| 0 <= j < e0@.len() && e0@[j].source == p && e0@[j].target == c;
            assert(redirected(ns, (e0@[j]).source as int, e0@[j].target as int));
        }
        if link {
            let j = choose|j: int| 0 <= j < e0@.len() && redirected(ns, (#[trigger] e0@[j]).source as int, e0@[j].target as int)
                && chain_link_in(chain_of(ns, e0@[j].source as int, e0@[j].target as int), e0@[j].source as int, a as int, b as int);
            assert(redirected_pair(ns, e0@[j].source as int, e0@[j].target as int));
        }
        if is_linked(ns, a as int, b as int) {
            let (p, c) = choose|p: int, c: int| #[trigger] redirected_pair(ns, p, c) && chain_link_in(chain_of(ns, p, c), p, a as int, b as int);
            let j = choose|j: int| 0 <= j < e0@.len() && e0@[j].source == p && e0@[j].target == c;
            assert(redirected(ns, (e0@[j]).source as int, e0@[j].target as int));
        }
    }
    (rem, add, link)
}

proof fn lemma_chain_members(nodes: Seq<Node>, p: int, c: int, x: nat)
    requires
        x <= nodes.len() <= usize::MAX,
    ensures
        forall|k: int| 0 <= k < chain_upto(nodes, p, c, x).len() ==>
            intercepts_for(nodes, #[trigger] chain_upto(nodes, p, c, x)[k] as int, p, c)
                && chain_upto(nodes, p, c, x)[k] < x,
    decreases x,
{
    if x > 0 {
        let prev = chain_upto(nodes, p, c, (x - 1) as nat);
        lemma_chain_members(nodes, p, c, (x - 1) as nat);
        let y = x - 1;
        if intercepts_for(nodes, y, p, c) {
            let pos = insert_pos(nodes, prev, precedence_of(nodes, y));
            lemma_insert_pos_bounds(nodes, prev, precedence_of(nodes, y));
            prev.insert_ensures(pos, y as usize);
            let cur = chain_upto(nodes, p, c, x);
            assert(cur == prev.insert(pos, y as usize));
            assert forall|k: int| 0 <= k < cur.len() implies intercepts_for(nodes, #[trigger] cur[k] as int, p, c) && cur[k] < x by {
                if k < pos {
                    assert(cur[k] == prev[k]);
                    assert(intercepts_for(nodes, prev[k] as int, p, c));
                } else if k > pos {
                    assert(cur[(k - 1) + 1] == prev[k - 1]);
                    assert(intercepts_for(nodes, prev[k - 1] as int, p, c));
                } else {
                    assert(cur[k] == y as usize);
                }
            }
        }
    }
}

/// Both ends of a final edge are nodes, and it ends at a component.
proof fn lemma_final_in_range(nodes: Seq<Node>, a: int, b: int)
    requires
        in_final(nodes, a, b),
        nodes.len() <= usize::MAX,
    ensures
        0 <= a < nodes.len(),
        0 <= b < nodes.len(),
        is_component(nodes[b]),
{
    if !(dependency_edge(nodes, a, b) && !is_removed(nodes, a, b)) {
        let (p, c) = choose|p: int, c: int| #[trigger] redirected_pair(nodes, p, c)
            && (chain_link_in(chain_of(nodes, p, c), p, a, b) || final_link_in(chain_of(nodes, p, c), c, a, b));
        let ch = chain_of(nodes, p, c);
        lemma_chain_members(nodes, p, c, nodes.len());
        if chain_link_in(ch, p, a, b) {
            if a == p && b == ch[0] as int {
                assert(intercepts_for(nodes, ch[0] as int, p, c));
            } else {
                let k = choose|k: int| 0 <= k < ch.len() - 1 && a == ch[k] as int && b == #[trigger] ch[k + 1] as int;
                assert(intercepts_for(nodes, ch[k] as int, p, c));
                assert(intercepts_for(nodes, ch[k + 1] as int, p, c));
            }
        } else {
            assert(intercepts_for(nodes, ch[ch.len() - 1] as int, p, c));
        }
    }
}

/// A linked pair ends at an interceptor, a component.
proof fn lemma_linked_target(nodes: Seq<Node>, a: int, b: int)
    requires
        is_linked(nodes, a, b),
        nodes.len() <= usize::MAX,
    ensures
        0 <= b < nodes.len(),
        is_component(nodes[b]),
{
    let (p, c) = choose|p: int, c: int| #[trigger] redirected_pair(nodes, p, c) && chain_link_in(chain_of(nodes, p, c), p, a, b);
    assert(is_added(nodes, a, b));
    lemma_final_in_range(nodes, a, b);
}

/// The edges of the built graph, pair by pair.
fn final_edges(nodes: &Vec<Node>, e0: &Vec<GraphEdge>) -> (r: Vec<GraphEdge>)
    requires
        is_dependency_list(nodes@, e0@),
    ensures
        is_final_graph(nodes@, r@),
        edges_in_range(r@, nodes@),
{
    let n = nodes.len();
    let mut out: Vec<GraphEdge> = Vec::new();
    let mut a: usize = 0;
    while a < n
        invariant
            n == nodes@.len(),
            a <= n,
            is_dependency_list(nodes@, e0@),
            forall|x: int, y: int| #[trigger] has_edge(out@, x, y) <==> (in_final(nodes@, x, y) && x < a),
            forall|k: int| 0 <= k < out@.len() ==> (#[trigger] out@[k]).kind == label_final(nodes@, out@[k].source as int, out@[k].target as int),
            pairs_unique(out@),
            edges_in_range(out@, nodes@),
        decreases n - a,
    {
        let mut b: usize = 0;
        while b < n
            invariant
                n == nodes@.len(),
                a < n,
                b <= n,
                is_dependency_list(nodes@, e0@),
                forall|x: int, y: int| #[trigger] has_edge(out@, x, y) <==> (in_final(nodes@, x, y) && (x < a || (x == a && y < b))),
                forall|k: int| 0 <= k < out@.len() ==> (#[trigger] out@[k]).kind == label_final(nodes@, out@[k].source as int, out@[k].target as int),
                pairs_unique(out@),
                edges_in_range(out@, nodes@),
            decreases n - b,
        {
            let dep = edge_exists(e0, a, b);
            proof {
                if dependency_edge(nodes@, a as int, b as int) {
                    assert(has_edge(e0@, a as int, b as int));
                }
                if has_edge(e0@, a as int, b as int) {
                    let k = choose|k: int| 0 <= k < e0@.len() && e0@[k].source == a && e0@[k].target == b;
                    assert(dependency_edge(nodes@, e0@[k].source as int, e0@[k].target as int));
                }
            }
            let (rem, add, link) = classify_pair(nodes, e0, a, b);
            if (dep && !rem) || add {
                let kind = if link {
                    proof {
                        lemma_linked_target(nodes@, a as int, b as int);
                    }
                    Edge::Interceptor(precedence_at(nodes, b))
                } else {
                    Edge::Dependency
                };
                let ghost before = out@;
                proof {
                    lemma_final_in_range(nodes@, a as int, b as int);
                    assert(!has_edge(before, a as int, b as int));
                }
                out.push(GraphEdge { source: a, target: b, kind });
                proof {
                    lemma_push_edge(before, out@.last());
                    assert forall|x: int, y: int| #[trigger] has_edge(out@, x, y) <==> (in_final(nodes@, x, y) && (x < a || (x == a && y < b + 1))) by {
                        if has_edge(out@, x, y) && !(x == a && y == b) {
                            let w = choose|w: int| 0 <= w < out@.len() && out@[w].source == x && out@[w].target == y;
                            assert(w < before.len());
                            assert(has_edge(before, x, y));
                        }
                        if in_final(nodes@, x, y) && (x < a || (x == a && y < b)) {
                            assert(has_edge(before, x, y));
                        }
                    }
                    assert forall|i: int, j: int| 0 <= i < j < out@.len() implies !((#[trigger] out@[i]).source == (#[trigger] out@[j]).source
                        && out@[i].target == out@[j].target) by {
                        if j == before.len() {
                            assert(out@[i] == before[i]);
                            if out@[i].source == a && out@[i].target == b {
                                assert(has_edge(before, a as int, b as int));
                            }
                        } else {
                            assert(out@[i] == before[i]);
                            assert(out@[j] == before[j]);
                        }
                    }
                    assert forall|k: int| 0 <= k < out@.len() implies (#[trigger] out@[k]).kind == label_final(nodes@, out@[k].source as int, out@[k].target as int) by {
                        if k < before.len() {
                            assert(out@[k] == before[k]);
                        }
                    }
                    assert forall|k: int| 0 <= k < out@.len() implies (#[trigger] out@[k]).source < nodes@.len() && out@[k].target
                        < nodes@.len() && is_component(nodes@[out@[k].target as int]) by {
                        if k < before.len() {
                            assert(out@[k] == before[k]);
                        }
                    }
                }
            } else {
                proof {
                    assert forall|x: int, y: int| #[trigger] has_edge(out@, x, y) <==> (in_final(nodes@, x, y) && (x < a || (x == a && y < b + 1))) by {
                        if x == a && y == b {
                            assert(!in_final(nodes@, x, y));
                        }
                    }
                }
            }
            b = b + 1;
        }
        proof {
            assert forall|x: int, y: int| #[trigger] has_edge(out@, x, y) <==> (in_final(nodes@, x, y) && x < a + 1) by {
                if in_final(nodes@, x, y) && x == a {
                    lemma_final_in_range(nodes@, x, y);
                }
            }
        }
        a = a + 1;
    }
    proof {
        assert forall|x: int, y: int| #[trigger] has_edge(out@, x, y) <==> in_final(nodes@, x, y) by {
            if in_final(nodes@, x, y) {
                lemma_final_in_range(nodes@, x, y);
            }
        }
    }
    out
}



/// Relies on `petgraph::algo::toposort`: on an acyclic graph it lists every
/// node once, each before its successors; on a graph with a cycle (a self
/// loop included) it fails and names a node of the graph.
#[verifier::external_body]
fn toposort(n: usize, edges: &Vec<GraphEdge>) -> (r: Result<Vec<usize>, usize>)
    requires
        forall|k: int| 0 <= k < edges@.len() ==> (#[trigger] edges@[k]).source < n && edges@[k].target < n,
    ensures
        match r {
            Ok(order) => is_topological_order(order@, n as nat, edges@),
            Err(v) => v < n && !exists|order: Seq<usize>| is_topological_order(order, n as nat, edges@),
        },
{
    let mut g = petgraph::Graph::<(), (), petgraph::Directed, usize>::with_capacity(n, edges.len());
    g.extend_with_edges(edges.iter().map(|e| (e.source, e.target)));
    while g.node_count() < n {
        g.add_node(());
    }
    match petgraph::algo::toposort(&g, None) {
        Ok(order) => Ok(order.into_iter().map(|i| i.index()).collect()),
        Err(cycle) => Err(cycle.node_id().index()),
    }
}

impl ComponentGraph {
    /// Builds the graph: one node per runtime feature, then one per
    /// component; an edge from each definition a component expects or
    /// intercepts to that component; then each such edge redirected through
    /// the chain of its provider's interceptors, and the result checked for
    /// cycles.
    pub fn build(
        component_definitions: Vec<ComponentDefinition>,
        runtime_feature_definitions: Vec<RuntimeFeatureDefinition>,
    ) -> (r: Result<Self, GraphError>)
        ensures
            r is Ok <==> ({
                let nodes = runtime_feature_definitions@.map_values(|d| Node::RuntimeFeature(d))
                    + component_definitions@.map_values(|d| Node::Component(d));
                names_unique(nodes) && exists|edges: Seq<GraphEdge>, order: Seq<usize>|
                    is_final_graph(nodes, edges) && is_topological_order(order, nodes.len(), edges)
            }),
            match r {
                Ok(g) => {
                    &&& g.wf()
                    &&& g.node_seq() == runtime_feature_definitions@.map_values(|d| Node::RuntimeFeature(d))
                        + component_definitions@.map_values(|d| Node::Component(d))
                },
                Err(GraphError::DuplicateName(name)) => {
                    let nodes = runtime_feature_definitions@.map_values(|d| Node::RuntimeFeature(d))
                        + component_definitions@.map_values(|d| Node::Component(d));
                    !names_unique(nodes) && exists|i: int| 0 <= i < nodes.len() && node_name(nodes[i]) == name@
                },
                Err(GraphError::CircularDependency(name)) => {
                    let nodes = runtime_feature_definitions@.map_values(|d| Node::RuntimeFeature(d))
                        + component_definitions@.map_values(|d| Node::Component(d));
                    &&& names_unique(nodes)
                    &&& exists|i: int| 0 <= i < nodes.len() && node_name(nodes[i]) == name@
                    &&& forall|edges: Seq<GraphEdge>| is_final_graph(nodes, edges)
                        ==> !exists|order: Seq<usize>| is_topological_order(order, nodes.len(), edges)
                },
            },
    {
        let ghost expected = runtime_feature_definitions@.map_values(|d| Node::RuntimeFeature(d))
            + component_definitions@.map_values(|d| Node::Component(d));
        let mut features = runtime_feature_definitions;
        let mut components = component_definitions;
        let ghost features0 = features@;
        let ghost components0 = components@;
        let mut nodes: Vec<Node> = Vec::new();
        while features.len() > 0
            invariant
                nodes@.len() + features@.len() == features0.len(),
                nodes@ == features0.subrange(0, nodes@.len() as int).map_values(|d| Node::RuntimeFeature(d)),
                features@ == features0.subrange(nodes@.len() as int, features0.len() as int),
            decreases features@.len(),
        {
            let d = features.remove(0);
            nodes.push(Node::RuntimeFeature(d));
            assert(nodes@ =~= features0.subrange(0, nodes@.len() as int).map_values(|d| Node::RuntimeFeature(d)));
            assert(features@ =~= features0.subrange(nodes@.len() as int, features0.len() as int));
        }
        let nf = nodes.len();
        assert(nodes@ =~= features0.map_values(|d| Node::RuntimeFeature(d)));
        while components.len() > 0
            invariant
                nf == features0.len(),
                nodes@.len() + components@.len() == nf + components0.len(),
                nodes@ == features0.map_values(|d| Node::RuntimeFeature(d))
                    + components0.subrange(0, nodes@.len() - nf).map_values(|d| Node::Component(d)),
                components@ == components0.subrange(nodes@.len() - nf, components0.len() as int),
            decreases components@.len(),
        {
            let d = components.remove(0);
            nodes.push(Node::Component(d));
            assert(nodes@ =~= features0.map_values(|d| Node::RuntimeFeature(d))
                + components0.subrange(0, nodes@.len() - nf).map_values(|d| Node::Component(d)));
            assert(components@ =~= components0.subrange(nodes@.len() - nf, components0.len() as int));
        }
        assert(nodes@ =~= expected);
        if let Some(i) = find_duplicate(&nodes) {
            return Err(GraphError::DuplicateName(node_name_ref(&nodes[i]).clone()));
        }
        let initial = dependency_edges(&nodes);
        let edges = final_edges(&nodes, &initial);
        match toposort(nodes.len(), &edges) {
            Ok(order) => {
                assert(is_final_graph(nodes@, edges@) && is_topological_order(order@, nodes@.len(), edges@));
                Ok(ComponentGraph { nodes, edges, order })
            },
            Err(v) => {
                proof {
                    assert forall|other: Seq<GraphEdge>| is_final_graph(nodes@, other)
                        implies !exists|order: Seq<usize>| is_topological_order(order, nodes@.len(), other) by {
                        if exists|order: Seq<usize>| is_topological_order(order, nodes@.len(), other) {
                            let order = choose|order: Seq<usize>| is_topological_order(order, nodes@.len(), other);
                            assert forall|i: int, j: int| 0 <= i <= j < order.len()
                                implies !has_edge(edges@, #[trigger] order[j] as int, #[trigger] order[i] as int) by {
                                if has_edge(edges@, order[j] as int, order[i] as int) {
                                    assert(has_edge(other, order[j] as int, order[i] as int));
                                }
                            }
                            assert(is_topological_order(order, nodes@.len(), edges@));
                        }
                    }
                }
                Err(GraphError::CircularDependency(node_name_ref(&nodes[v]).clone()))
            },
        }
    }

    /// The nodes, runtime features first.
    pub fn nodes(&self) -> (r: &Vec<Node>)
        ensures
            r@ == self.node_seq(),
    {
        &self.nodes
    }

    /// The edges, each from provider to consumer.
    pub fn edges(&self) -> (r: &Vec<GraphEdge>)
        ensures
            r@ == self.edge_seq(),
    {
        &self.edges
    }

    /// The node at `index`.
    pub fn node(&self, index: usize) -> (r: &Node)
        requires
            index < self.node_seq().len(),
        ensures
            *r == self.node_seq()[index as int],
    {
        &self.nodes[index]
    }

    /// Every node index, each provider before its consumers.
    pub fn get_build_order(&self) -> (r: Vec<usize>)
        ensures
            r@ == self.order_seq(),
    {
        let mut r: Vec<usize> = Vec::new();
        let mut i: usize = 0;
        while i < self.order.len()
            invariant
                i <= self.order@.len(),
                r@ == self.order@.subrange(0, i as int),
            decreases self.order@.len() - i,
        {
            r.push(self.order[i]);
            i = i + 1;
            assert(r@ =~= self.order@.subrange(0, i as int));
        }
        assert(r@ =~= self.order@);
        r
    }

    /// The index of the node named `name`.
    pub fn get_node_index(&self, name: &str) -> (r: Option<usize>)
        ensures
            match r {
                Some(i) => i < self.node_seq().len() && node_name(self.node_seq()[i as int]) == name@,
                None => forall|i: int| 0 <= i < self.node_seq().len() ==> node_name(#[trigger] self.node_seq()[i]) != name@,
            },
    {
        find_node(&self.nodes, name)
    }

    /// The providers of the node at `index`, in edge order.
    pub fn get_dependencies(&self, index: usize) -> (r: Vec<usize>)
        ensures
            forall|k: int| 0 <= k < r@.len() ==> has_edge(self.edge_seq(), #[trigger] r@[k] as int, index as int),
            forall|p: int| has_edge(self.edge_seq(), p, index as int) ==> r@.contains(p as usize),
            pairs_unique(self.edge_seq()) ==> r@.no_duplicates(),
    {
        let mut r: Vec<usize> = Vec::new();
        let mut k: usize = 0;
        while k < self.edges.len()
            invariant
                k <= self.edges@.len(),
                forall|m: int| 0 <= m < r@.len() ==> has_edge(self.edges@, #[trigger] r@[m] as int, index as int),
                forall|m: int| 0 <= m < k && (#[trigger] self.edges@[m]).target == index ==> r@.contains(self.edges@[m].source),
                forall|m: int| 0 <= m < r@.len() ==> #[trigger] source_before(self.edges@, index, k as int, r@[m]),
                pairs_unique(self.edges@) ==> r@.no_duplicates(),
            decreases self.edges@.len() - k,
        {
            let e = self.edges[k];
            let ghost before = r@;
            proof {
                assert forall|x: usize| #[trigger] source_before(self.edges@, index, k as int, x)
                    implies source_before(self.edges@, index, k + 1, x) by {
                    let w = choose|w: int| 0 <= w < k && self.edges@[w].target == index && self.edges@[w].source == x;
                }
            }
            if e.target == index {
                r.push(e.source);
                proof {
                    assert(source_before(self.edges@, index, k + 1, e.source)) by {
                        assert(self.edges@[k as int].source == e.source);
                    }
                    assert forall|m: int| 0 <= m < r@.len() implies #[trigger] source_before(self.edges@, index, k + 1, r@[m]) by {
                        if m < before.len() {
                            assert(r@[m] == before[m]);
                            assert(source_before(self.edges@, index, k as int, before[m]));
                        }
                    }
                    if pairs_unique(self.edges@) {
                        assert forall|a: int, b: int| 0 <= a < r@.len() && 0 <= b < r@.len() && a != b implies r@[a] != r@[b] by {
                            if a < before.len() && b < before.len() {
                                assert(r@[a] == before[a] && r@[b] == before[b]);
                            } else {
                                let o = if a < before.len() { a } else { b };
                                assert(r@[o] == before[o]);
                                assert(source_before(self.edges@, index, k as int, before[o]));
                                let w = choose|w: int| 0 <= w < k && self.edges@[w].target == index && self.edges@[w].source == before[o];
                                assert(!((#[trigger] self.edges@[w]).source == (#[trigger] self.edges@[k as int]).source
                                    && self.edges@[w].target == self.edges@[k as int].target));
                            }
                        }
                    }
                    assert forall|m: int| 0 <= m < k + 1 && (#[trigger] self.edges@[m]).target == index implies r@.contains(self.edges@[m].source) by {
                        if m < k {
                            let w = choose|w: int| 0 <= w < before.len() && before[w] == self.edges@[m].source;
                            assert(r@[w] == before[w]);
                        } else {
                            assert(r@[r@.len() - 1] == e.source);
                        }
                    }
                }
            } else {
                proof {
                    assert forall|m: int| 0 <= m < r@.len() implies #[trigger] source_before(self.edges@, index, k + 1, r@[m]) by {
                        assert(source_before(self.edges@, index, k as int, r@[m]));
                    }
                }
            }
            k = k + 1;
        }
        proof {
            assert forall|p: int| has_edge(self.edges@, p, index as int) implies r@.contains(p as usize) by {
                let m = choose|m: int| 0 <= m < self.edges@.len() && self.edges@[m].source == p && self.edges@[m].target == index;
                assert(self.edges@[m].target == index);
            }
        }
        r
    }

}


/// The shape a node is drawn with.
#[derive(Clone, Copy, Debug, PartialEq, Eq, Structural)]
pub enum DotShape {
    DoubleOctagon,
    Box,
    Ellipse,
}

/// The fill colour a node is drawn with.
#[derive(Clone, Copy, Debug, PartialEq, Eq, Structural)]
pub enum DotColor {
    LightGreen,
    Yellow,
    LightBlue,
    Orange,
}

/// How a node is drawn.
#[derive(Clone, Copy, Debug, PartialEq, Eq, Structural)]
pub struct NodeStyle {
    pub shape: DotShape,
    pub fill: DotColor,
}

/// Exposed components are double octagons, other components boxes and
/// runtime features ellipses; exposed components are light green,
/// interceptors yellow, other components light blue, features orange.
pub open spec fn style_of(n: Node) -> NodeStyle {
    match n {
        Node::Component(d) => NodeStyle {
            shape: if d.base.exposed { DotShape::DoubleOctagon } else { DotShape::Box },
            fill: if d.base.exposed {
                DotColor::LightGreen
            } else if d.base.intercepts@.len() > 0 {
                DotColor::Yellow
            } else {
                DotColor::LightBlue
            },
        },
        Node::RuntimeFeature(_) => NodeStyle { shape: DotShape::Ellipse, fill: DotColor::Orange },
    }
}

/// How a node is drawn in an exported graph.
pub fn node_style(n: &Node) -> (r: NodeStyle)
    ensures
        r == style_of(*n),
{
    match n {
        Node::Component(d) => {
            let shape = if d.base.exposed { DotShape::DoubleOctagon } else { DotShape::Box };
            let fill = if d.base.exposed {
                DotColor::LightGreen
            } else if d.base.intercepts.len() > 0 {
                DotColor::Yellow
            } else {
                DotColor::LightBlue
            };
            NodeStyle { shape, fill }
        },
        Node::RuntimeFeature(_) => NodeStyle { shape: DotShape::Ellipse, fill: DotColor::Orange },
    }
}

/// A built graph has no cycle: some order lists every node once, each
/// provider before its consumers.
pub proof fn lemma_built_graph_is_acyclic(g: &ComponentGraph)
    requires
        g.wf(),
    ensures
        exists|order: Seq<usize>| is_topological_order(order, g.node_seq().len(), g.edge_seq()),
{
    assert(is_topological_order(g.order_seq(), g.node_seq().len(), g.edge_seq()));
}

/// Both ends of every edge of a built graph are nodes of it.
pub proof fn lemma_edges_join_nodes(g: &ComponentGraph)
    requires
        g.wf(),
    ensures
        forall|k: int| 0 <= k < g.edge_seq().len() ==> (#[trigger] g.edge_seq()[k]).source < g.node_seq().len()
            && g.edge_seq()[k].target < g.node_seq().len(),
{
}

pub open spec fn chain_sorted(nodes: Seq<Node>, s: Seq<usize>) -> bool {
    forall|i: int, j: int| 0 <= i < j < s.len() ==> precedence_of(nodes, #[trigger] s[i] as int)
        <= precedence_of(nodes, #[trigger] s[j] as int)
}

proof fn lemma_insert_pos_props(nodes: Seq<Node>, s: Seq<usize>, prec: i32)
    requires
        chain_sorted(nodes, s),
    ensures
        0 <= insert_pos(nodes, s, prec) <= s.len(),
        forall|m: int| 0 <= m < insert_pos(nodes, s, prec) ==> precedence_of(nodes, #[trigger] s[m] as int) <= prec,
        forall|m: int| insert_pos(nodes, s, prec) <= m < s.len() ==> precedence_of(nodes, #[trigger] s[m] as int) > prec,
    decreases s.len(),
{
    if s.len() > 0 {
        if precedence_of(nodes, s[0] as int) > prec {
            assert forall|m: int| 0 <= m < s.len() implies precedence_of(nodes, #[trigger] s[m] as int) > prec by {
                if m > 0 {
                    assert(precedence_of(nodes, s[0] as int) <= precedence_of(nodes, s[m] as int));
                }
            }
        } else {
            let t = s.drop_first();
            assert forall|i: int, j: int| 0 <= i < j < t.len() implies precedence_of(nodes, #[trigger] t[i] as int)
                <= precedence_of(nodes, #[trigger] t[j] as int) by {
                assert(t[i] == s[i + 1] && t[j] == s[j + 1]);
            }
            lemma_insert_pos_props(nodes, t, prec);
            assert forall|m: int| 0 <= m < insert_pos(nodes, s, prec) implies precedence_of(nodes, #[trigger] s[m] as int) <= prec by {
                if m > 0 {
                    assert(s[m] == t[m - 1]);
                }
            }
            assert forall|m: int| insert_pos(nodes, s, prec) <= m < s.len() implies precedence_of(nodes, #[trigger] s[m] as int) > prec by {
                assert(s[m] == t[m - 1]);
            }
        }
    }
}

/// The chain lists exactly the interceptors, once each, by ascending precedence.
pub proof fn lemma_chain_of_is_chain(nodes: Seq<Node>, p: int, c: int, x: nat)
    requires
        x <= nodes.len() <= usize::MAX,
    ensures
        chain_upto(nodes, p, c, x).no_duplicates(),
        chain_sorted(nodes, chain_upto(nodes, p, c, x)),
        forall|y: int| 0 <= y < x && #[trigger] intercepts_for(nodes, y, p, c) ==> chain_upto(nodes, p, c, x).contains(y as usize),
    decreases x,
{
    lemma_chain_members(nodes, p, c, x);
    if x > 0 {
        let prev = chain_upto(nodes, p, c, (x - 1) as nat);
        lemma_chain_of_is_chain(nodes, p, c, (x - 1) as nat);
        lemma_chain_members(nodes, p, c, (x - 1) as nat);
        let y = x - 1;
        let cur = chain_upto(nodes, p, c, x);
        if intercepts_for(nodes, y, p, c) {
            let prec = precedence_of(nodes, y);
            let pos = insert_pos(nodes, prev, prec);
            lemma_insert_pos_props(nodes, prev, prec);
            prev.insert_ensures(pos, y as usize);
            assert(cur == prev.insert(pos, y as usize));
            assert forall|i: int, j: int| 0 <= i < j < cur.len() implies precedence_of(nodes, #[trigger] cur[i] as int)
                <= precedence_of(nodes, #[trigger] cur[j] as int) by {
                let i2 = if i < pos { i } else { i - 1 };
                let j2 = if j < pos { j } else { j - 1 };
                if i < pos { assert(cur[i] == prev[i]); } else if i > pos { assert(cur[(i - 1) + 1] == prev[i - 1]); }
                if j < pos { assert(cur[j] == prev[j]); } else if j > pos { assert(cur[(j - 1) + 1] == prev[j - 1]); }
            }
            assert forall|a: int, b: int| 0 <= a < cur.len() && 0 <= b < cur.len() && a != b implies cur[a] != cur[b] by {
                if a < pos { assert(cur[a] == prev[a]); } else if a > pos { assert(cur[(a - 1) + 1] == prev[a - 1]); }
                if b < pos { assert(cur[b] == prev[b]); } else if b > pos { assert(cur[(b - 1) + 1] == prev[b - 1]); }
            }
            assert forall|z: int| 0 <= z < x && #[trigger] intercepts_for(nodes, z, p, c) implies cur.contains(z as usize) by {
                if z == y {
                    assert(cur[pos] == y as usize);
                } else {
                    let w = choose|w: int| 0 <= w < prev.len() && prev[w] == z as usize;
                    if w < pos { assert(cur[w] == prev[w]); } else { assert(cur[w + 1] == prev[w]); }
                }
            }
        } else {
            assert(cur == prev);
        }
    }
}

proof fn lemma_chain_links_present(g: &ComponentGraph, p: int, c: int)
    requires
        g.wf(),
        redirected_pair(g.node_seq(), p, c),
    ensures
        chain_of(g.node_seq(), p, c).len() > 0,
        chain_linked(g.edge_seq(), p, chain_of(g.node_seq(), p, c), c),
{
    let nodes = g.node_seq();
    let ch = chain_of(nodes, p, c);
    assert(nodes.len() <= usize::MAX) by {
        lemma_node_count(g);
    }
    lemma_chain_of_is_chain(nodes, p, c, nodes.len());
    let x = choose|x: int| intercepts_for(nodes, x, p, c);
    lemma_chain_members(nodes, p, c, nodes.len());
    assert(ch.contains(x as usize));
    assert(chain_link_in(ch, p, p, ch[0] as int));
    assert(is_added(nodes, p, ch[0] as int));
    assert(has_edge(g.edge_seq(), p, ch[0] as int));
    assert forall|k: int| 0 <= k < ch.len() - 1 implies has_edge(g.edge_seq(), #[trigger] ch[k] as int, ch[k + 1] as int) by {
        assert(chain_link_in(ch, p, ch[k] as int, ch[k + 1] as int));
        assert(is_added(nodes, ch[k] as int, ch[k + 1] as int));
    }
    assert(final_link_in(ch, c, ch[ch.len() - 1] as int, c));
    assert(is_added(nodes, ch[ch.len() - 1] as int, c));
}

proof fn lemma_node_count(g: &ComponentGraph)
    ensures
        g.node_seq().len() <= usize::MAX,
{
    assert(g.nodes@.len() == g.nodes.len());
}

/// Every step of `path` follows a chain link, or is the direct edge `x → c`.
pub open spec fn chain_path(nodes: Seq<Node>, path: Seq<int>, x: int, c: int) -> bool {
    forall|k: int| 0 <= k < path.len() - 1 ==> is_added(nodes, #[trigger] path[k], path[k + 1])
        || (path[k] == x && path[k + 1] == c)
}

proof fn lemma_added_edge(nodes: Seq<Node>, edges: Seq<GraphEdge>, a: int, b: int)
    requires
        is_final_graph(nodes, edges),
        is_added(nodes, a, b),
    ensures
        has_edge(edges, a, b),
{
    assert(in_final(nodes, a, b));
}

/// The path from `p` along the chain of `p → c2` up to position `stop`
/// (the consumer `c2` when `stop` is the chain's length).
proof fn lemma_chain_prefix_path(nodes: Seq<Node>, edges: Seq<GraphEdge>, p: int, c2: int, stop: int, c: int)
    requires
        is_final_graph(nodes, edges),
        redirected_pair(nodes, p, c2),
        chain_of(nodes, p, c2).len() > 0,
        (c == c2 && stop == chain_of(nodes, p, c2).len()) || (1 <= stop < chain_of(nodes, p, c2).len() && c == chain_of(nodes, p, c2)[stop] as int),
    ensures
        exists|path: Seq<int>| is_path(edges, path) && path[0] == p && path[path.len() - 1] == c
            && chain_path(nodes, path, p, c),
{
    let ch = chain_of(nodes, p, c2);
    let path = Seq::new((stop + 2) as nat, |i: int| if i == 0 { p } else if i <= stop && i - 1 < ch.len() { ch[i - 1] as int } else { c });
    assert forall|k: int| 0 <= k < path.len() - 1 implies is_added(nodes, #[trigger] path[k], path[k + 1]) by {
        if k == 0 {
            assert(chain_link_in(ch, p, p, ch[0] as int));
        } else if k < stop {
            assert(ch[(k - 1) + 1] == ch[k]);
            assert(chain_link_in(ch, p, ch[k - 1] as int, ch[k] as int));
        } else if c == c2 {
            assert(final_link_in(ch, c2, ch[ch.len() - 1] as int, c));
        } else {
            assert(ch[(stop - 1) + 1] == ch[stop]);
            assert(chain_link_in(ch, p, ch[stop - 1] as int, ch[stop] as int));
        }
    }
    assert forall|k: int| 0 <= k < path.len() - 1 implies has_edge(edges, #[trigger] path[k], path[k + 1]) by {
        lemma_added_edge(nodes, edges, path[k], path[k + 1]);
    }
    assert(is_path(edges, path));
    assert(chain_path(nodes, path, p, c));
}

/// A component that intercepts `x` is reachable from `x` along interceptor
/// chain edges: through its own dependency edge, or through a chain of
/// interceptors that reaches it.
pub proof fn lemma_interceptor_reachable(g: &ComponentGraph, c: int, x: int)
    requires
        g.wf(),
        0 <= c < g.node_seq().len(),
        0 <= x < g.node_seq().len(),
        is_component(g.node_seq()[c]),
        lists(component_of(g.node_seq()[c]).base.intercepts@, node_name(g.node_seq()[x])),
    ensures
        wants(component_of(g.node_seq()[c]), node_name(g.node_seq()[x])),
        exists|path: Seq<int>| is_path(g.edge_seq(), path) && path[0] == x && path[path.len() - 1] == c
            && chain_path(g.node_seq(), path, x, c),
{
    let nodes = g.node_seq();
    let edges = g.edge_seq();
    assert(dependency_edge(nodes, x, c));
    if !is_removed(nodes, x, c) {
        assert(in_final(nodes, x, c));
        let path = seq![x, c];
        assert(is_path(edges, path));
        assert(chain_path(nodes, path, x, c));
    } else {
        let (p, c2) = choose|p: int, c2: int| #[trigger] redirected_pair(nodes, p, c2) && removed_in(chain_of(nodes, p, c2), p, c2, x, c);
        let ch = chain_of(nodes, p, c2);
        lemma_chain_links_present(g, p, c2);
        if c == c2 {
            lemma_chain_prefix_path(nodes, edges, p, c2, ch.len() as int, c);
        } else {
            let k = choose|k: int| 1 <= k < ch.len() && c == #[trigger] ch[k] as int;
            lemma_chain_prefix_path(nodes, edges, p, c2, k, c);
        }
    }
}

/// A consumer `c` of `p` that has interceptors of `p` in front of it (and
/// is not one of them) is reached through all of them, in ascending order
/// of precedence: `p → i0 → i1 → … → c`. The links into interceptors carry
/// their precedence, and the direct edge `p → c` is gone (an edge `p → c`
/// remains only as a link of some chain).
pub proof fn lemma_interceptors_in_precedence_order(g: &ComponentGraph, p: int, c: int)
    requires
        g.wf(),
        redirected_pair(g.node_seq(), p, c),
    ensures
        is_interceptor_chain(g.node_seq(), p, c, chain_of(g.node_seq(), p, c)),
        chain_linked(g.edge_seq(), p, chain_of(g.node_seq(), p, c), c),
        forall|j: int| 0 <= j < g.edge_seq().len()
            && chain_link_in(chain_of(g.node_seq(), p, c), p, (#[trigger] g.edge_seq()[j]).source as int, g.edge_seq()[j].target as int)
            ==> g.edge_seq()[j].kind == Edge::Interceptor(precedence_of(g.node_seq(), g.edge_seq()[j].target as int)),
        has_edge(g.edge_seq(), p, c) ==> is_added(g.node_seq(), p, c),
{
    let nodes = g.node_seq();
    lemma_node_count(g);
    lemma_chain_of_is_chain(nodes, p, c, nodes.len());
    lemma_chain_members(nodes, p, c, nodes.len());
    lemma_chain_links_present(g, p, c);
    let ch = chain_of(nodes, p, c);
    assert forall|x: int| #![trigger intercepts_for(nodes, x, p, c)] intercepts_for(nodes, x, p, c) implies ch.contains(x as usize) by {}
    assert forall|j: int| 0 <= j < g.edge_seq().len()
        && chain_link_in(ch, p, (#[trigger] g.edge_seq()[j]).source as int, g.edge_seq()[j].target as int)
        implies g.edge_seq()[j].kind == Edge::Interceptor(precedence_of(nodes, g.edge_seq()[j].target as int)) by {
        assert(is_linked(nodes, g.edge_seq()[j].source as int, g.edge_seq()[j].target as int));
    }
    if has_edge(g.edge_seq(), p, c) {
        assert(in_final(nodes, p, c));
        assert(removed_in(ch, p, c, p, c));
        assert(is_removed(nodes, p, c));
    }
}

} // verus!
