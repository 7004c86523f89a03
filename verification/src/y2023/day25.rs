use crate::util;
use crate::Solution;
use vstd::multiset::Multiset;
use vstd::prelude::*;
use vstd::string::StrSliceExecFns;

verus! {

pub struct Day25;

/// The component wiring diagram, kept in an outside undirected graph.
#[verifier::external_body]
pub struct Wiring {
    inner: petgraph::graph::UnGraph<(), ()>,
}

/// The wires the diagram holds, as (smaller, larger) node-id pairs.
pub uninterp spec fn wiring_edges(w: Wiring) -> Multiset<(nat, nat)>;

/// How many components the diagram holds.
pub uninterp spec fn wiring_nodes(w: Wiring) -> nat;

/// A node pair in canonical order.
pub open spec fn norm_pair(u: nat, v: nat) -> (nat, nat) {
    if u <= v {
        (u, v)
    } else {
        (v, u)
    }
}

/// The edges with one occurrence of the pair taken out, if any.
pub open spec fn remove_one(es: Multiset<(nat, nat)>, p: (nat, nat)) -> Multiset<(nat, nat)> {
    if es.count(p) > 0 {
        es.remove(p)
    } else {
        es
    }
}

pub open spec fn spec_adjacent(es: Multiset<(nat, nat)>, x: nat, y: nat) -> bool {
    es.count(norm_pair(x, y)) > 0
}

/// Whether a chain of wires joins `a` to `b`.
pub open spec fn spec_connected(es: Multiset<(nat, nat)>, a: nat, b: nat) -> bool {
    exists|path: Seq<nat>|
        path.len() >= 1 && path[0] == a && path.last() == b && forall|i: int|
            0 <= i < path.len() - 1 ==> spec_adjacent(es, #[trigger] path[i], path[i + 1])
}

/// Connectivity after cutting one occurrence of each of three wires.
pub open spec fn spec_cut_connected(
    es: Multiset<(nat, nat)>,
    a: nat,
    b: nat,
    c1: (nat, nat),
    c2: (nat, nat),
    c3: (nat, nat),
) -> bool {
    spec_connected(remove_one(remove_one(remove_one(es, c1), c2), c3), a, b)
}

impl Wiring {
    /// Relies on petgraph's `Graph::new_undirected`: an empty graph.
    #[verifier::external_body]
    pub fn new() -> (r: Wiring)
        ensures
            wiring_nodes(r) == 0,
            wiring_edges(r) == Multiset::<(nat, nat)>::empty(),
    {
        Wiring { inner: petgraph::graph::UnGraph::new_undirected() }
    }

    /// Relies on petgraph's `Graph::add_node`: appends a node and returns
    /// its index, the count before the call.
    #[verifier::external_body]
    pub fn add_node(&mut self) -> (r: u32)
        requires
            wiring_nodes(*old(self)) < 0xffff_0000,
        ensures
            wiring_nodes(*final(self)) == wiring_nodes(*old(self)) + 1,
            wiring_edges(*final(self)) == wiring_edges(*old(self)),
            r as nat == wiring_nodes(*old(self)),
    {
        self.inner.add_node(()).index() as u32
    }

    /// Relies on petgraph's `Graph::add_edge`: records one more wire
    /// between two existing nodes.
    #[verifier::external_body]
    pub fn add_edge(&mut self, u: u32, v: u32)
        requires
            (u as nat) < wiring_nodes(*old(self)),
            (v as nat) < wiring_nodes(*old(self)),
            wiring_edges(*old(self)).len() < 0xffff_0000,
        ensures
            wiring_nodes(*final(self)) == wiring_nodes(*old(self)),
            wiring_edges(*final(self)) == wiring_edges(*old(self)).insert(
                norm_pair(u as nat, v as nat),
            ),
    {
        self.inner.add_edge(
            petgraph::graph::NodeIndex::new(u as usize),
            petgraph::graph::NodeIndex::new(v as usize),
            (),
        );
    }

    /// Relies on petgraph's `edge_indices` and `edge_endpoints`: every
    /// wire once, endpoints put in canonical order.
    #[verifier::external_body]
    pub fn edge_list(&self) -> (r: Vec<(u32, u32)>)
        ensures
            r@.map_values(|p: (u32, u32)| (p.0 as nat, p.1 as nat)).to_multiset() == wiring_edges(
                *self,
            ),
            forall|i: int|
                0 <= i < r@.len() ==> (#[trigger] r@[i]).0 <= r@[i].1 && (r@[i].1 as nat)
                    < wiring_nodes(*self),
    {
        self.inner
            .edge_indices()
            .filter_map(|e| self.inner.edge_endpoints(e))
            .map(|(a, b)| {
                let (x, y) = (a.index() as u32, b.index() as u32);
                if x <= y {
                    (x, y)
                } else {
                    (y, x)
                }
            })
            .collect()
    }

    /// Relies on petgraph's `find_edge`, `remove_edge` and
    /// `algo::has_path_connecting`: whether `a` still reaches `b` after
    /// one occurrence of each of the three wires is cut.
    #[verifier::external_body]
    pub fn connected_without(
        &self,
        a: u32,
        b: u32,
        c1: (u32, u32),
        c2: (u32, u32),
        c3: (u32, u32),
    ) -> (r: bool)
        requires
            (a as nat) < wiring_nodes(*self),
            (b as nat) < wiring_nodes(*self),
        ensures
            r == spec_cut_connected(
                wiring_edges(*self),
                a as nat,
                b as nat,
                norm_pair(c1.0 as nat, c1.1 as nat),
                norm_pair(c2.0 as nat, c2.1 as nat),
                norm_pair(c3.0 as nat, c3.1 as nat),
            ),
    {
        let mut cut = self.inner.clone();
        for (u, v) in [c1, c2, c3] {
            if let Some(e) = cut.find_edge(
                petgraph::graph::NodeIndex::new(u as usize),
                petgraph::graph::NodeIndex::new(v as usize),
            ) {
                cut.remove_edge(e);
            }
        }
        petgraph::algo::has_path_connecting(
            &cut,
            petgraph::graph::NodeIndex::new(a as usize),
            petgraph::graph::NodeIndex::new(b as usize),
            None,
        )
    }
}

/// How many of the nodes `0..upto` the cut diagram still joins to `a`.
pub open spec fn spec_count_conn(
    es: Multiset<(nat, nat)>,
    a: nat,
    c1: (nat, nat),
    c2: (nat, nat),
    c3: (nat, nat),
    upto: int,
) -> int
    decreases upto,
{
    if upto <= 0 {
        0
    } else {
        spec_count_conn(es, a, c1, c2, c3, upto - 1) + if spec_cut_connected(
            es,
            a,
            (upto - 1) as nat,
            c1,
            c2,
            c3,
        ) {
            1int
        } else {
            0
        }
    }
}

/// Whether cutting the listed wires at positions `i`, `j` and `k` leaves
/// the endpoints of wire `i` joined.
pub open spec fn triple_ok(es: Multiset<(nat, nat)>, el: Seq<(u32, u32)>, i: int, j: int, k: int) -> bool {
    spec_cut_connected(
        es,
        el[i].0 as nat,
        el[i].1 as nat,
        norm_pair(el[i].0 as nat, el[i].1 as nat),
        norm_pair(el[j].0 as nat, el[j].1 as nat),
        norm_pair(el[k].0 as nat, el[k].1 as nat),
    )
}

/// Whether `el` lists the diagram's wires and no tried triple of them
/// disconnects its first wire's endpoints.
pub open spec fn all_triples_ok(es: Multiset<(nat, nat)>, el: Seq<(u32, u32)>) -> bool {
    &&& el.map_values(|p: (u32, u32)| (p.0 as nat, p.1 as nat)).to_multiset() == es
    &&& forall|i: int, j: int, k: int|
        0 <= i < j < k < el.len() ==> #[trigger] triple_ok(es, el, i, j, k)
}

/// Whether three wires of the diagram split it into sides of `x` and `y`
/// nodes, counted from the first wire's lower endpoint.
pub open spec fn split_report(es: Multiset<(nat, nat)>, n: nat, x: u64, y: u64) -> bool {
    exists|c1: (nat, nat), c2: (nat, nat), c3: (nat, nat)|
        {
            &&& es.count(c1) > 0
            &&& es.count(c2) > 0
            &&& es.count(c3) > 0
            &&& !#[trigger] spec_cut_connected(es, c1.0, c1.1, c1, c2, c3)
            &&& x as int == spec_count_conn(es, c1.0, c1, c2, c3, n as int)
            &&& x + y == n
        }
}

impl Day25 {
    /// Hunts for three wires whose removal splits the diagram, trying
    /// every triple of listed wires; on success, how many nodes each side
    /// of the split holds; on failure, no tried triple disconnects its
    /// first wire's endpoints.
    #[verifier::loop_isolation(false)]
    pub fn find_component_sizes(w: &Wiring) -> (r: Option<(u64, u64)>)
        requires
            wiring_nodes(*w) <= 0x10000,
        ensures
            match r {
                Some(p) => exists|c1: (nat, nat), c2: (nat, nat), c3: (nat, nat)|
                    {
                        &&& wiring_edges(*w).count(c1) > 0
                        &&& wiring_edges(*w).count(c2) > 0
                        &&& wiring_edges(*w).count(c3) > 0
                        &&& !#[trigger] spec_cut_connected(
                            wiring_edges(*w),
                            c1.0,
                            c1.1,
                            c1,
                            c2,
                            c3,
                        )
                        &&& p.0 as int == spec_count_conn(
                            wiring_edges(*w),
                            c1.0,
                            c1,
                            c2,
                            c3,
                            wiring_nodes(*w) as int,
                        )
                        &&& p.0 + p.1 == wiring_nodes(*w)
                    },
                None => exists|el: Seq<(u32, u32)>| all_triples_ok(wiring_edges(*w), el),
            },
    {
        let edges = w.edge_list();
        let m = edges.len();
        let nodes64 = nodes_of(w);
        let mut a: usize = 0;
        while a < m
            invariant
                m == edges@.len(),
                forall|i: int, j: int, k: int|
                    0 <= i < j < k < m && i < a ==> #[trigger] triple_ok(
                        wiring_edges(*w),
                        edges@,
                        i,
                        j,
                        k,
                    ),
            decreases m - a,
        {
            let mut b = a + 1;
            while b < m
                invariant
                    m == edges@.len(),
                    a < m,
                    a < b,
                    forall|i: int, j: int, k: int|
                        0 <= i < j < k < m && (i < a || (i == a && j < b)) ==> #[trigger] triple_ok(
                            wiring_edges(*w),
                            edges@,
                            i,
                            j,
                            k,
                        ),
                decreases m - b,
            {
                let mut c = b + 1;
                while c < m
                    invariant
                        m == edges@.len(),
                        a < m,
                        b < m,
                        a < b < c,
                        forall|i: int, j: int, k: int|
                            0 <= i < j < k < m && (i < a || (i == a && j < b) || (i == a && j == b
                                && k < c)) ==> #[trigger] triple_ok(
                                wiring_edges(*w),
                                edges@,
                                i,
                                j,
                                k,
                            ),
                    decreases m - c,
                {
                    let e1 = edges[a];
                    let e2 = edges[b];
                    let e3 = edges[c];
                    if !w.connected_without(e1.0, e1.1, e1, e2, e3) {
                        // a split: count the side that keeps e1's first end
                        let ghost g1 = norm_pair(e1.0 as nat, e1.1 as nat);
                        let ghost g2 = norm_pair(e2.0 as nat, e2.1 as nat);
                        let ghost g3 = norm_pair(e3.0 as nat, e3.1 as nat);
                        proof {
                            lemma_edge_in(edges@, wiring_edges(*w), a as int);
                            lemma_edge_in(edges@, wiring_edges(*w), b as int);
                            lemma_edge_in(edges@, wiring_edges(*w), c as int);
                            assert(e1.0 <= e1.1 && e2.0 <= e2.1 && e3.0 <= e3.1);
                            assert(g1 == (e1.0 as nat, e1.1 as nat));
                            assert(g1.0 == e1.0 as nat && g1.1 == e1.1 as nat);
                        }
                        let mut count: u64 = 0;
                        let mut node: u32 = 0;
                        let n32 = nodes64 as u32;
                        while node < n32
                            invariant
                                node <= n32,
                                n32 as nat == wiring_nodes(*w),
                                count as int == spec_count_conn(
                                    wiring_edges(*w),
                                    e1.0 as nat,
                                    g1,
                                    g2,
                                    g3,
                                    node as int,
                                ),
                                count <= node,
                                (e1.0 as nat) < wiring_nodes(*w),
                                (e1.1 as nat) < wiring_nodes(*w),
                            decreases n32 - node,
                        {
                            if w.connected_without(e1.0, node, e1, e2, e3) {
                                count += 1;
                            }
                            node += 1;
                        }
                        proof {
                            assert(count <= nodes64);
                            assert(wiring_edges(*w).count(g1) > 0 && wiring_edges(*w).count(g2)
                                > 0 && wiring_edges(*w).count(g3) > 0 && !spec_cut_connected(
                                wiring_edges(*w),
                                g1.0,
                                g1.1,
                                g1,
                                g2,
                                g3,
                            ) && count as int == spec_count_conn(
                                wiring_edges(*w),
                                g1.0,
                                g1,
                                g2,
                                g3,
                                wiring_nodes(*w) as int,
                            ));
                        }
                        return Some((count, nodes64 - count));
                    }
                    proof {
                        assert(triple_ok(wiring_edges(*w), edges@, a as int, b as int, c as int));
                    }
                    c += 1;
                }
                b += 1;
            }
            a += 1;
        }
        proof {
            assert(all_triples_ok(wiring_edges(*w), edges@));
        }
        None
    }
}

/// Relies on petgraph's `Graph::node_count`.
#[verifier::external_body]
fn nodes_of(w: &Wiring) -> (r: u64)
    requires
        wiring_nodes(*w) <= 0x10000,
    ensures
        r as nat == wiring_nodes(*w),
{
    w.inner.node_count() as u64
}

/// A listed wire is one of the diagram's edges.
proof fn lemma_edge_in(el: Seq<(u32, u32)>, es: Multiset<(nat, nat)>, i: int)
    requires
        0 <= i < el.len(),
        el.map_values(|p: (u32, u32)| (p.0 as nat, p.1 as nat)).to_multiset() == es,
        el[i].0 <= el[i].1,
    ensures
        es.count(norm_pair(el[i].0 as nat, el[i].1 as nat)) > 0,
{
    let mapped = el.map_values(|p: (u32, u32)| (p.0 as nat, p.1 as nat));
    mapped.to_multiset_ensures();
    assert(mapped[i] == (el[i].0 as nat, el[i].1 as nat));
    assert(mapped.contains(mapped[i]));
    assert(mapped.to_multiset().count(mapped[i]) > 0);
    assert(norm_pair(el[i].0 as nat, el[i].1 as nat) == mapped[i]);
}

impl Solution for Day25 {
    type ParsedInput = Wiring;

    fn parse_input(input_lines: &str) -> Wiring {
        let bytes = input_lines.as_bytes_vec();
        let ls = util::lines(&bytes);
        let mut w = Wiring::new();
        // node names, interned in first-seen order as graph indices
        let mut names: Vec<Vec<u8>> = Vec::new();
        let mut i: usize = 0;
        while i < ls.len()
            invariant
                names@.len() == wiring_nodes(w),
                wiring_nodes(w) <= 0xffff,
            decreases ls@.len() - i,
        {
            let line = &ls[i];
            let colon = util::find_from(line, 0, 58);
            if colon < line.len() {
                let mut head: Vec<u8> = Vec::new();
                let mut k: usize = 0;
                while k < colon
                    invariant
                        colon < line@.len(),
                    decreases colon - k,
                {
                    head.push(line[k]);
                    k += 1;
                }
                let mut rest: Vec<u8> = Vec::new();
                let mut k2 = colon + 1;
                while k2 < line.len()
                    decreases line@.len() - k2,
                {
                    rest.push(line[k2]);
                    k2 += 1;
                }
                let toks = util::tokens(&rest);
                let u = intern(&mut w, &mut names, head);
                let mut t: usize = 0;
                while t < toks.len()
                    invariant
                        names@.len() == wiring_nodes(w),
                        wiring_nodes(w) <= 0xffff,
                        (u as nat) < wiring_nodes(w),
                    decreases toks@.len() - t,
                {
                    let mut name: Vec<u8> = Vec::new();
                    let mut k3: usize = 0;
                    while k3 < toks[t].len()
                        invariant
                            t < toks@.len(),
                        decreases toks@[t as int]@.len() - k3,
                    {
                        name.push(toks[t][k3]);
                        k3 += 1;
                    }
                    let v = intern(&mut w, &mut names, name);
                    if edge_budget(&w) {
                        w.add_edge(u, v);
                    }
                    t += 1;
                }
            }
            i += 1;
        }
        w
    }

    fn part_one(parsed_input: &mut Wiring) -> (res: String)
        ensures
            wiring_nodes(*old(parsed_input)) > 0x10000 ==> res@ == "0"@,
            wiring_nodes(*old(parsed_input)) <= 0x10000 ==> ((exists|x: u64, y: u64|
                #[trigger] split_report(
                    wiring_edges(*old(parsed_input)),
                    wiring_nodes(*old(parsed_input)),
                    x,
                    y,
                ) && res@ == util::spec_u64_chars(util::spec_cap_u64(x * y))) || ((exists|
                el: Seq<(u32, u32)>,
            |
                all_triples_ok(wiring_edges(*old(parsed_input)), el)) && res@ == "0"@)),
    {
        let w = parsed_input;
        if nodes_over(w) {
            return "0".to_owned();
        }
        match Day25::find_component_sizes(w) {
            Some((x, y)) => {
                proof {
                    assert(split_report(wiring_edges(*w), wiring_nodes(*w), x, y));
                }
                util::u64_to_string(util::sat_mul(x, y))
            },
            None => "0".to_owned(),
        }
    }

    fn part_two(parsed_input: &mut Wiring) -> (res: String)
        ensures
            res@ == "0"@,
    {
        "0".to_owned()
    }
}

/// The id of the named node, adding it to the diagram when new; full
/// diagrams hand back node 0.
fn intern(w: &mut Wiring, names: &mut Vec<Vec<u8>>, name: Vec<u8>) -> (r: u32)
    requires
        old(names)@.len() == wiring_nodes(*old(w)),
        wiring_nodes(*old(w)) <= 0xffff,
    ensures
        final(names)@.len() == wiring_nodes(*final(w)),
        wiring_nodes(*final(w)) <= 0xffff,
        wiring_nodes(*final(w)) >= 1,
        wiring_nodes(*final(w)) >= wiring_nodes(*old(w)),
        (r as nat) < wiring_nodes(*final(w)),
{
    let mut i: usize = 0;
    while i < names.len()
        invariant
            names@.len() == wiring_nodes(*w),
            wiring_nodes(*w) <= 0xffff,
            w == old(w),
            names == old(names),
        decreases names@.len() - i,
    {
        if eq_name(&names[i], &name) {
            return i as u32;
        }
        i += 1;
    }
    if names.len() >= 0xffff {
        return 0;
    }
    let id = w.add_node();
    names.push(name);
    id
}

/// Relies on petgraph's `Graph::edge_count`: how many wires the diagram
/// holds.
#[verifier::external_body]
fn edges_len(w: &Wiring) -> (r: usize)
    ensures
        r as nat == wiring_edges(*w).len(),
{
    w.inner.edge_count()
}

/// Whether another wire still fits the edge-count budget.
fn edge_budget(w: &Wiring) -> (r: bool)
    ensures
        r == (wiring_edges(*w).len() < 0xffff_0000),
{
    edges_len(w) < 0xffff_0000
}

/// Whether the diagram is too large for the split search.
#[verifier::external_body]
fn nodes_over(w: &Wiring) -> (r: bool)
    ensures
        r == (wiring_nodes(*w) > 0x10000),
{
    w.inner.node_count() > 0x10000
}

fn eq_name(a: &Vec<u8>, b: &Vec<u8>) -> (r: bool)
    ensures
        r == (a@ == b@),
{
    if a.len() != b.len() {
        proof {
            assert(a@.len() != b@.len());
        }
        return false;
    }
    let mut i: usize = 0;
    while i < a.len()
        invariant
            i <= a@.len(),
            a@.len() == b@.len(),
            forall|k: int| 0 <= k < i ==> a@[k] == b@[k],
        decreases a@.len() - i,
    {
        if a[i] != b[i] {
            return false;
        }
        i += 1;
    }
    proof {
        assert(a@ =~= b@);
    }
    true
}

} // verus!
