//! The node graph of a network and the decaying wave that spreads a
//! transaction's agreement signal across it.

use vstd::prelude::*;

verus! {

/// How the nodes of a network are connected. Nodes are numbered `0..n`.
#[derive(Clone, Debug, PartialEq, Eq)]
pub enum NetworkTopology {
    /// Every node is connected to every other node.
    FullMesh,
    /// Node `i` is connected to node `(i + 1) % n`.
    Ring,
    /// Every node is connected to the central node.
    Star { central_node: usize },
    /// Each entry `(node, neighbours)` connects `node` with each of `neighbours`.
    Custom { connections: Vec<(usize, Vec<usize>)> },
}

/// The view of a custom connection list.
pub open spec fn custom_view(c: Seq<(usize, Vec<usize>)>) -> Seq<(usize, Seq<usize>)> {
    c.map_values(|e: (usize, Vec<usize>)| (e.0, e.1@))
}

/// Some entry of a custom list connects `u` to `v` in the direction given.
pub open spec fn custom_links(c: Seq<(usize, Seq<usize>)>, u: int, v: int) -> bool {
    exists|k: int| 0 <= k < c.len() && c[k].0 == u && (#[trigger] c[k]).1.contains(v as usize)
}

/// Whether `u` and `v` are connected in a network of `n` nodes (both below `n`).
pub open spec fn topology_edge(t: NetworkTopology, n: int, u: int, v: int) -> bool {
    &&& 0 <= u < n
    &&& 0 <= v < n
    &&& match t {
        NetworkTopology::FullMesh => u != v,
        NetworkTopology::Ring => v == (u + 1) % n || u == (v + 1) % n,
        NetworkTopology::Star { central_node } => (u == central_node && v != central_node) || (v
            == central_node && u != central_node),
        NetworkTopology::Custom { connections } => custom_links(custom_view(connections@), u, v)
            || custom_links(custom_view(connections@), v, u),
    }
}

/// `v` is within `k` hops of `start`.
pub open spec fn reached(adj: Seq<Seq<usize>>, start: int, k: nat, v: int) -> bool
    decreases k,
{
    if k == 0 {
        v == start
    } else {
        reached(adj, start, (k - 1) as nat, v) || exists|u: int, j: int|
            0 <= u < adj.len() && 0 <= j < adj[u].len() && reached(adj, start, (k - 1) as nat, u)
                && #[trigger] adj[u][j] == v
    }
}

/// The number of nodes `v < m` within `k` hops of `start`.
pub open spec fn count_reached(adj: Seq<Seq<usize>>, start: int, k: nat, m: int) -> int
    decreases m,
{
    if m <= 0 {
        0
    } else {
        count_reached(adj, start, k, m - 1) + if reached(adj, start, k, m - 1) {
            1int
        } else {
            0int
        }
    }
}

proof fn lemma_count_reached_bound(adj: Seq<Seq<usize>>, start: int, k: nat, m: int)
    requires
        m >= 0,
    ensures
        0 <= count_reached(adj, start, k, m) <= m,
    decreases m,
{
    if m > 0 {
        lemma_count_reached_bound(adj, start, k, m - 1);
    }
}

/// A node with no neighbours reaches only itself, however far the wave may go.
pub proof fn lemma_isolated_reaches_itself(adj: Seq<Seq<usize>>, start: int, k: nat, v: int)
    requires
        0 <= start < adj.len(),
        adj[start].len() == 0,
    ensures
        reached(adj, start, k, v) <==> v == start,
    decreases k,
{
    if k > 0 {
        lemma_isolated_reaches_itself(adj, start, (k - 1) as nat, v);
        assert forall|u: int, j: int|
            0 <= u < adj.len() && 0 <= j < adj[u].len() && reached(adj, start, (k - 1) as nat, u)
                implies #[trigger] adj[u][j] != v by {
            lemma_isolated_reaches_itself(adj, start, (k - 1) as nat, u);
        }
    }
}

/// The wave started at a node with no neighbours counts that node alone.
pub proof fn lemma_isolated_wave(adj: Seq<Seq<usize>>, start: int, k: nat)
    requires
        0 <= start < adj.len(),
        adj[start].len() == 0,
    ensures
        count_reached(adj, start, k, adj.len() as int) == 1,
{
    lemma_isolated_count(adj, start, k, adj.len() as int);
}

proof fn lemma_isolated_count(adj: Seq<Seq<usize>>, start: int, k: nat, m: int)
    requires
        0 <= start < adj.len(),
        adj[start].len() == 0,
        0 <= m <= adj.len(),
    ensures
        count_reached(adj, start, k, m) == if start < m {
            1int
        } else {
            0int
        },
    decreases m,
{
    if m > 0 {
        lemma_isolated_count(adj, start, k, m - 1);
        lemma_isolated_reaches_itself(adj, start, k, m - 1);
    }
}

/// Some node `u < u_lim` marked in `vis` lists `v` as a neighbour.
pub open spec fn hit_by(adj: Seq<Seq<usize>>, vis: Seq<bool>, u_lim: int, v: int) -> bool {
    exists|u: int, j: int|
        0 <= u < u_lim && 0 <= j < adj[u].len() && vis[u] && #[trigger] adj[u][j] == v
}

/// One of the first `j_lim` neighbours of `u` is `v`.
pub open spec fn hit_row(adj: Seq<Seq<usize>>, u: int, j_lim: int, v: int) -> bool {
    exists|j: int| 0 <= j < j_lim && #[trigger] adj[u][j] == v
}

proof fn lemma_hit_by_next(adj: Seq<Seq<usize>>, vis: Seq<bool>, u: int, v: int)
    requires
        0 <= u,
    ensures
        hit_by(adj, vis, u + 1, v) == (hit_by(adj, vis, u, v) || (vis[u] && hit_row(
            adj,
            u,
            adj[u].len() as int,
            v,
        ))),
{
    if hit_by(adj, vis, u + 1, v) {
        let (a, b) = choose|a: int, b: int|
            0 <= a < u + 1 && 0 <= b < adj[a].len() && vis[a] && #[trigger] adj[a][b] == v;
        if a == u {
            assert(hit_row(adj, u, adj[u].len() as int, v));
        } else {
            assert(hit_by(adj, vis, u, v));
        }
    }
    if vis[u] && hit_row(adj, u, adj[u].len() as int, v) {
        let b = choose|b: int| 0 <= b < adj[u].len() && #[trigger] adj[u][b] == v;
        assert(0 <= u < u + 1 && 0 <= b < adj[u].len() && vis[u] && adj[u][b] == v);
    }
}

/// Only nodes of the graph, or `start` itself, are ever reached.
proof fn lemma_reached_in_range(adj: Seq<Seq<usize>>, start: int, k: nat, v: int)
    requires
        0 <= start < adj.len(),
        forall|u: int, j: int|
            0 <= u < adj.len() && 0 <= j < adj[u].len() ==> #[trigger] adj[u][j] < adj.len(),
    ensures
        reached(adj, start, k, v) ==> 0 <= v < adj.len(),
    decreases k,
{
    if k > 0 {
        lemma_reached_in_range(adj, start, (k - 1) as nat, v);
    }
}

/// When one more hop adds nothing, no number of further hops does.
proof fn lemma_stable(adj: Seq<Seq<usize>>, start: int, k: nat, j: nat)
    requires
        forall|v: int| reached(adj, start, k + 1, v) == reached(adj, start, k, v),
    ensures
        forall|v: int| reached(adj, start, k + j, v) == reached(adj, start, k, v),
    decreases j,
{
    if j > 0 {
        lemma_stable(adj, start, k, (j - 1) as nat);
        let p = (k + j - 1) as nat;
        assert forall|v: int| reached(adj, start, k + j, v) == reached(adj, start, k, v) by {
            assert(reached(adj, start, k + j, v) == (reached(adj, start, p, v) || exists|u: int, jj: int|
                0 <= u < adj.len() && 0 <= jj < adj[u].len() && reached(adj, start, p, u)
                    && #[trigger] adj[u][jj] == v));
            if reached(adj, start, k + j, v) && !reached(adj, start, p, v) {
                let (u, jj) = choose|u: int, jj: int|
                    0 <= u < adj.len() && 0 <= jj < adj[u].len() && reached(adj, start, p, u)
                        && #[trigger] adj[u][jj] == v;
                assert(reached(adj, start, k, u));
                assert(reached(adj, start, k + 1, v));
            }
        }
    }
}

/// Two connected nodes with a wave that does not decay (as many hops as
/// nodes): both nodes are reached, so both agree.
pub proof fn lemma_two_node_mesh_agrees(adj: Seq<Seq<usize>>)
    requires
        adj.len() == 2,
        adj[0].contains(1usize),
    ensures
        count_reached(adj, 0, 2, 2) == 2,
{
    let j = choose|j: int| 0 <= j < adj[0].len() && adj[0][j] == 1usize;
    assert(reached(adj, 0, 0, 0));
    assert(reached(adj, 0, 1, 0));
    assert(reached(adj, 0, 2, 0));
    assert(adj[0][j] == 1);
    assert(reached(adj, 0, 1, 1));
    assert(reached(adj, 0, 2, 1));
    reveal_with_fuel(count_reached, 3);
}

/// The undirected graph of a network: `adjacency[u]` lists the neighbours of `u`.
pub struct NetworkGraph {
    adjacency: Vec<Vec<usize>>,
}

/// Whether `x` occurs in `l`.
fn list_contains(l: &Vec<usize>, x: usize) -> (r: bool)
    ensures
        r == l@.contains(x),
{
    let mut i: usize = 0;
    while i < l.len()
        invariant
            i <= l@.len(),
            forall|j: int| 0 <= j < i ==> l@[j] != x,
        decreases l@.len() - i,
    {
        if l[i] == x {
            assert(l@[i as int] == x);
            return true;
        }
        i = i + 1;
    }
    false
}

/// Decides `custom_links`.
fn custom_has_link(c: &Vec<(usize, Vec<usize>)>, u: usize, v: usize) -> (r: bool)
    ensures
        r == custom_links(custom_view(c@), u as int, v as int),
{
    let ghost cv = custom_view(c@);
    let mut k: usize = 0;
    while k < c.len()
        invariant
            cv == custom_view(c@),
            k <= c@.len(),
            forall|m: int| 0 <= m < k ==> !(cv[m].0 == u && (#[trigger] cv[m]).1.contains(v)),
        decreases c@.len() - k,
    {
        assert(cv[k as int] == (c@[k as int].0, c@[k as int].1@));
        if c[k].0 == u && list_contains(&c[k].1, v) {
            return true;
        }
        k = k + 1;
    }
    false
}

/// Decides `topology_edge`.
pub fn is_edge(t: &NetworkTopology, n: usize, u: usize, v: usize) -> (r: bool)
    ensures
        r == topology_edge(*t, n as int, u as int, v as int),
{
    if u >= n || v >= n {
        return false;
    }
    match t {
        NetworkTopology::FullMesh => u != v,
        NetworkTopology::Ring => v == (u + 1) % n || u == (v + 1) % n,
        NetworkTopology::Star { central_node } => (u == *central_node && v != *central_node) || (v
            == *central_node && u != *central_node),
        NetworkTopology::Custom { connections } => custom_has_link(connections, u, v)
            || custom_has_link(connections, v, u),
    }
}

impl NetworkGraph {
    /// `adj()[u]` lists the neighbours of node `u`.
    pub closed spec fn adj(&self) -> Seq<Seq<usize>> {
        self.adjacency@.map_values(|l: Vec<usize>| l@)
    }

    pub open spec fn wf(&self) -> bool {
        forall|u: int, j: int|
            0 <= u < self.adj().len() && 0 <= j < self.adj()[u].len() ==> #[trigger] self.adj()[u][j]
                < self.adj().len()
    }

    /// The graph of `node_count` nodes connected as `topology` says.
    pub fn setup_topology(node_count: usize, topology: &NetworkTopology) -> (r: Self)
        ensures
            r.wf(),
            r.adj().len() == node_count,
            forall|u: int, v: int|
                0 <= u < node_count && 0 <= v < node_count ==> (r.adj()[u].contains(v as usize)
                    <==> topology_edge(*topology, node_count as int, u, v)),
    {
        let mut rows: Vec<Vec<usize>> = Vec::new();
        let mut u: usize = 0;
        while u < node_count
            invariant
                u <= node_count,
                rows@.len() == u,
                forall|a: int, j: int|
                    0 <= a < u && 0 <= j < rows@[a]@.len() ==> #[trigger] rows@[a]@[j] < node_count,
                forall|a: int, b: int|
                    0 <= a < u && 0 <= b < node_count ==> (#[trigger] rows@[a]@.contains(b as usize)
                        <==> topology_edge(*topology, node_count as int, a, b)),
            decreases node_count - u,
        {
            let mut row: Vec<usize> = Vec::new();
            let mut v: usize = 0;
            while v < node_count
                invariant
                    u < node_count,
                    v <= node_count,
                    forall|j: int| 0 <= j < row@.len() ==> #[trigger] row@[j] < v,
                    forall|b: int|
                        0 <= b < node_count ==> (#[trigger] row@.contains(b as usize) <==> (b < v
                            && topology_edge(*topology, node_count as int, u as int, b))),
                decreases node_count - v,
            {
                if is_edge(topology, node_count, u, v) {
                    let ghost before = row@;
                    row.push(v);
                    proof {
                        assert(row@ == before.push(v));
                        assert(row@[before.len() as int] == v);
                        assert forall|b: int| 0 <= b < node_count implies (#[trigger] row@.contains(
                            b as usize,
                        ) <==> (b < v + 1 && topology_edge(
                            *topology,
                            node_count as int,
                            u as int,
                            b,
                        ))) by {
                            if row@.contains(b as usize) && b != v {
                                let j = choose|j: int| 0 <= j < row@.len() && row@[j] == b as usize;
                                assert(before[j] == b as usize);
                                assert(before.contains(b as usize));
                            }
                            if b < v && topology_edge(*topology, node_count as int, u as int, b) {
                                assert(before.contains(b as usize));
                                let j = choose|j: int| 0 <= j < before.len() && before[j] == b as usize;
                                assert(row@[j] == b as usize);
                            }
                            if b == v {
                                assert(row@[before.len() as int] == b as usize);
                            }
                        }
                    }
                } else {
                    proof {
                        assert forall|b: int| 0 <= b < node_count implies (#[trigger] row@.contains(
                            b as usize,
                        ) <==> (b < v + 1 && topology_edge(
                            *topology,
                            node_count as int,
                            u as int,
                            b,
                        ))) by {
                            if row@.contains(b as usize) {
                                let j = choose|j: int| 0 <= j < row@.len() && row@[j] == b as usize;
                            }
                        }
                    }
                }
                v = v + 1;
            }
            rows.push(row);
            u = u + 1;
        }
        let r = NetworkGraph { adjacency: rows };
        proof {
            assert forall|a: int, j: int|
                0 <= a < r.adj().len() && 0 <= j < r.adj()[a].len() implies #[trigger] r.adj()[a][j]
                < r.adj().len() by {
                assert(r.adj()[a] == rows@[a]@);
            }
            assert forall|a: int, b: int|
                0 <= a < node_count && 0 <= b < node_count implies (r.adj()[a].contains(b as usize)
                <==> topology_edge(*topology, node_count as int, a, b)) by {
                assert(r.adj()[a] == rows@[a]@);
            }
        }
        r
    }
    /// The number of nodes.
    pub fn node_count(&self) -> (r: usize)
        ensures
            r == self.adj().len(),
    {
        self.adjacency.len()
    }

    /// The neighbours of node `u`.
    pub fn neighbors(&self, u: usize) -> (r: &Vec<usize>)
        requires
            u < self.adj().len(),
        ensures
            r@ == self.adj()[u as int],
    {
        &self.adjacency[u]
    }

    /// Marks every node one hop from a node of `vis`.
    fn step(&self, vis: &Vec<bool>) -> (next: Vec<bool>)
        requires
            self.wf(),
            vis@.len() == self.adj().len(),
        ensures
            next@.len() == vis@.len(),
            forall|v: int|
                0 <= v < vis@.len() ==> #[trigger] next@[v] == (vis@[v] || hit_by(
                    self.adj(),
                    vis@,
                    vis@.len() as int,
                    v,
                )),
    {
        let ghost adj = self.adj();
        let n = self.adjacency.len();
        let mut next: Vec<bool> = Vec::new();
        let mut i: usize = 0;
        while i < n
            invariant
                n == vis@.len(),
                i <= n,
                next@.len() == i,
                forall|v: int| 0 <= v < i ==> next@[v] == vis@[v],
            decreases n - i,
        {
            next.push(vis[i]);
            i = i + 1;
        }
        let mut u: usize = 0;
        while u < n
            invariant
                self.wf(),
                adj == self.adj(),
                n == vis@.len(),
                n == adj.len(),
                u <= n,
                next@.len() == n,
                forall|v: int|
                    0 <= v < n ==> #[trigger] next@[v] == (vis@[v] || hit_by(adj, vis@, u as int, v)),
            decreases n - u,
        {
            if vis[u] {
                let row = &self.adjacency[u];
                assert(row@ == adj[u as int]);
                let mut j: usize = 0;
                while j < row.len()
                    invariant
                        self.wf(),
                        adj == self.adj(),
                        row@ == adj[u as int],
                        u < n,
                        vis@[u as int],
                        n == vis@.len(),
                        n == adj.len(),
                        j <= row@.len(),
                        next@.len() == n,
                        forall|v: int|
                            0 <= v < n ==> #[trigger] next@[v] == (vis@[v] || hit_by(
                                adj,
                                vis@,
                                u as int,
                                v,
                            ) || hit_row(adj, u as int, j as int, v)),
                    decreases row@.len() - j,
                {
                    let w = row[j];
                    assert(adj[u as int][j as int] == w);
                    assert(w < n);
                    next.set(w, true);
                    proof {
                        assert forall|v: int| 0 <= v < n implies #[trigger] next@[v] == (vis@[v]
                            || hit_by(adj, vis@, u as int, v) || hit_row(
                            adj,
                            u as int,
                            j + 1,
                            v,
                        )) by {
                            if v == w {
                                assert(hit_row(adj, u as int, j + 1, v));
                            } else if hit_row(adj, u as int, j + 1, v) {
                                let jj = choose|jj: int| 0 <= jj < j + 1 && #[trigger] adj[u as int][jj] == v;
                                assert(jj != j);
                                assert(hit_row(adj, u as int, j as int, v));
                            }
                        }
                    }
                    j = j + 1;
                }
            }
            proof {
                assert forall|v: int| 0 <= v < n implies #[trigger] next@[v] == (vis@[v] || hit_by(
                    adj,
                    vis@,
                    u + 1,
                    v,
                )) by {
                    lemma_hit_by_next(adj, vis@, u as int, v);
                }
            }
            u = u + 1;
        }
        next
    }

    /// Spreads a wave from `start` for at most `max_hops` hops (`None`: as
    /// many hops as there are nodes) and counts the nodes it reaches.
    /// The wave loses a fixed share of its amplitude at each hop, so the
    /// nodes whose amplitude stays above the agreement threshold are exactly
    /// those within the number of hops the caller derives from the decay.
    pub fn propagate_wave(&self, start: usize, max_hops: Option<usize>) -> (r: usize)
        requires
            self.wf(),
            start < self.adj().len(),
        ensures
            r == count_reached(
                self.adj(),
                start as int,
                match max_hops {
                    Some(h) => h as nat,
                    None => self.adj().len(),
                },
                self.adj().len() as int,
            ),
    {
        let ghost adj = self.adj();
        let n = self.adjacency.len();
        let h = match max_hops {
            Some(h) => h,
            None => n,
        };
        let mut vis: Vec<bool> = Vec::new();
        let mut i: usize = 0;
        while i < n
            invariant
                i <= n,
                vis@.len() == i,
                forall|v: int| 0 <= v < i ==> vis@[v] == (v == start),
            decreases n - i,
        {
            vis.push(i == start);
            i = i + 1;
        }
        let mut level: usize = 0;
        let mut changed = true;
        while level < h && changed
            invariant
                self.wf(),
                adj == self.adj(),
                n == adj.len(),
                start < n,
                vis@.len() == n,
                level <= h,
                forall|v: int| 0 <= v < n ==> vis@[v] == reached(adj, start as int, level as nat, v),
                !changed ==> forall|v: int|
                    reached(adj, start as int, (level + 1) as nat, v) == reached(
                        adj,
                        start as int,
                        level as nat,
                        v,
                    ),
            decreases h - level, if changed { 1int } else { 0int },
        {
            let next = self.step(&vis);
            proof {
                assert forall|v: int| 0 <= v < n implies #[trigger] next@[v] == reached(
                    adj,
                    start as int,
                    (level + 1) as nat,
                    v,
                ) by {
                    if hit_by(adj, vis@, n as int, v) {
                        let (a, b) = choose|a: int, b: int|
                            0 <= a < n && 0 <= b < adj[a].len() && vis@[a] && #[trigger] adj[a][b] == v;
                        assert(reached(adj, start as int, level as nat, a));
                    }
                    if reached(adj, start as int, (level + 1) as nat, v) && !reached(adj, start as int, level as nat, v) {
                        let (a, b) = choose|a: int, b: int|
                            0 <= a < adj.len() && 0 <= b < adj[a].len() && reached(adj, start as int, level as nat, a)
                                && #[trigger] adj[a][b] == v;
                        assert(vis@[a]);
                        assert(hit_by(adj, vis@, n as int, v));
                    }
                }
            }
            let mut same = true;
            let mut k: usize = 0;
            while k < n
                invariant
                    n == vis@.len(),
                    n == next@.len(),
                    k <= n,
                    same == (forall|v: int| 0 <= v < k ==> next@[v] == vis@[v]),
                decreases n - k,
            {
                if next[k] != vis[k] {
                    same = false;
                }
                k = k + 1;
            }
            if same {
                changed = false;
                proof {
                    assert forall|v: int| reached(adj, start as int, (level + 1) as nat, v) == reached(
                        adj,
                        start as int,
                        level as nat,
                        v,
                    ) by {
                        if 0 <= v < n {
                            assert(next@[v] == vis@[v]);
                        } else {
                            lemma_reached_in_range(adj, start as int, (level + 1) as nat, v);
                            lemma_reached_in_range(adj, start as int, level as nat, v);
                        }
                    }
                }
            } else {
                vis = next;
                level = level + 1;
            }
        }
        proof {
            if !changed {
                lemma_stable(adj, start as int, level as nat, (h - level) as nat);
            }
        }
        let mut count: usize = 0;
        let mut v: usize = 0;
        while v < n
            invariant
                adj == self.adj(),
                n == adj.len(),
                vis@.len() == n,
                v <= n,
                count <= v,
                forall|x: int| 0 <= x < n ==> vis@[x] == reached(adj, start as int, h as nat, x),
                count == count_reached(adj, start as int, h as nat, v as int),
            decreases n - v,
        {
            if vis[v] {
                count = count + 1;
            }
            v = v + 1;
        }
        count
    }
    /// Spreads the wave as `propagate_wave` does and decides agreement: the
    /// network agrees when at least half of its nodes are reached.
    pub fn wave_consensus(&self, start: usize, max_hops: Option<usize>) -> (r: (usize, bool))
        requires
            self.wf(),
            start < self.adj().len(),
        ensures
            r.0 == count_reached(
                self.adj(),
                start as int,
                match max_hops {
                    Some(h) => h as nat,
                    None => self.adj().len(),
                },
                self.adj().len() as int,
            ),
            r.1 == (2 * r.0 >= self.adj().len()),
    {
        let count = self.propagate_wave(start, max_hops);
        let n = self.adjacency.len();
        proof {
            lemma_count_reached_bound(self.adj(), start as int, match max_hops {
                Some(h) => h as nat,
                None => self.adj().len(),
            }, n as int);
        }
        (count, count >= n - count)
    }
}

} // verus!
