//! The state of one emulation instance: the precomputed graphs, one per
//! age of the experiment, the age in use, and the paths this instance sent
//! traffic on during the current cycle.
use vstd::prelude::*;
use crate::elements::{Service, Path, Link, Flowu16};
use crate::graph::{Graph, copy_of, bandwidths_set};

verus! {

/// The state of the emulation of one service.
pub struct State {
    /// Which graph is in use; every dynamic event that changes paths
    /// starts a new age.
    pub age: usize,
    /// The precomputed graphs, one per age.
    pub graphs: Vec<Graph>,
    /// Number of graphs.
    pub graph_counter: usize,
    /// Ids of the paths this instance sent bytes on.
    pub active_paths_ids: Vec<u32>,
    pub name: String,
    pub id: String,
    pub link_count: u32,
    pub max_age: u32,
    pub ec_cycle: u16,
}

/// The nodes after the byte counts of the addresses `ips` are carried, one
/// address after the other, from the services of `old_g` to those of
/// `new_g`.
pub open spec fn usages_moved(nodes: Seq<Service>, old_g: Graph, new_g: Graph, ips: Seq<u32>) -> Seq<Service>
    decreases ips.len(),
{
    if ips.len() == 0 {
        nodes
    } else {
        let prev = usages_moved(nodes, old_g, new_g, ips.drop_last());
        let ip = ips.last();
        if old_g.services@.dom().contains(ip) && new_g.services@.dom().contains(ip) {
            let x = new_g.services@[ip] as int;
            prev.update(x, Service { last_bytes: prev[old_g.services@[ip] as int].last_bytes, ..prev[x] })
        } else {
            prev
        }
    }
}

proof fn lemma_usages_moved_len(nodes: Seq<Service>, old_g: Graph, new_g: Graph, ips: Seq<u32>)
    requires
        forall|k: u32| #[trigger] new_g.services@.dom().contains(k) ==> new_g.services@[k] < nodes.len(),
    ensures
        usages_moved(nodes, old_g, new_g, ips).len() == nodes.len(),
    decreases ips.len(),
{
    if ips.len() > 0 {
        lemma_usages_moved_len(nodes, old_g, new_g, ips.drop_last());
    }
}

/// What moving to the next graph changes for the traffic to one address.
#[derive(Clone, Copy, Debug, PartialEq, Eq, Structural)]
pub enum PathChange {
    /// The address is no longer reachable: everything sent to it is lost.
    Block { ip: u32 },
    /// The address is reached by path `to` of the next graph, which takes
    /// over the bandwidth figures of path `from` of the graph in use; the
    /// properties of `to` then apply.
    Carry { ip: u32, from: u32, to: u32 },
    /// The address is newly reached, by path `path` of the next graph,
    /// whose properties apply.
    Apply { ip: u32, path: u32 },
}

/// Whether path `id` of `g` ends at a bridge.
pub open spec fn ends_at_bridge(g: Graph, id: u32) -> bool {
    g.bridges_by_name@.dom().contains(g.paths@[id].finish@)
}

/// The addresses of `es`, walked in order, that the next graph no longer
/// reaches; the root and paths that end at a bridge are left alone.
pub open spec fn blocks(es: Seq<(u32, u32)>, old_g: Graph, new_g: Graph, root: u32) -> Seq<PathChange>
    decreases es.len(),
{
    if es.len() == 0 {
        seq![]
    } else {
        let r = blocks(es.drop_last(), old_g, new_g, root);
        let (ip, id) = es.last();
        if !new_g.ip_to_path_id@.dom().contains(ip) && ip != root && !ends_at_bridge(old_g, id) {
            r.push(PathChange::Block { ip })
        } else {
            r
        }
    }
}

/// The changes for the addresses the next graph reaches, walking its
/// entries `es` in order.
pub open spec fn updates(es: Seq<(u32, u32)>, old_g: Graph, new_g: Graph, root: u32) -> Seq<PathChange>
    decreases es.len(),
{
    if es.len() == 0 {
        seq![]
    } else {
        let r = updates(es.drop_last(), old_g, new_g, root);
        let (ip, id) = es.last();
        if ip == root {
            r
        } else if old_g.ip_to_path_id@.dom().contains(ip) {
            let from = old_g.ip_to_path_id@[ip];
            if old_g.paths@.dom().contains(from) && new_g.paths@.dom().contains(id) && !ends_at_bridge(
                new_g,
                id,
            ) {
                r.push(PathChange::Carry { ip, from, to: id })
            } else {
                r
            }
        } else if !ends_at_bridge(new_g, id) {
            r.push(PathChange::Apply { ip, path: id })
        } else {
            r
        }
    }
}

/// Every path the changes look at exists: that of each address the next
/// graph no longer reaches, and that of each address it newly reaches.
pub open spec fn changes_defined(old_g: Graph, new_g: Graph, root: u32) -> bool {
    &&& forall|i: int|
        0 <= i < old_g.ip_to_path_id.entries@.len() ==> {
            let (ip, id) = #[trigger] old_g.ip_to_path_id.entries@[i];
            !new_g.ip_to_path_id@.dom().contains(ip) && ip != root ==> old_g.paths@.dom().contains(id)
        }
    &&& forall|i: int|
        0 <= i < new_g.ip_to_path_id.entries@.len() ==> {
            let (ip, id) = #[trigger] new_g.ip_to_path_id.entries@[i];
            !old_g.ip_to_path_id@.dom().contains(ip) && ip != root ==> new_g.paths@.dom().contains(id)
        }
}

/// Whether the changes need to know the root: some address is no longer
/// reached, or the next graph reaches some address.
pub open spec fn root_needed(old_g: Graph, new_g: Graph) -> bool {
    new_g.ip_to_path_id.entries@.len() > 0 || exists|i: int|
        0 <= i < old_g.ip_to_path_id.entries@.len() && !new_g.ip_to_path_id@.dom().contains(
            #[trigger] old_g.ip_to_path_id.entries@[i].0,
        )
}

/// The address of the root of `g`, 0 when it has none.
pub open spec fn root_ip(g: Graph, nodes: Seq<Service>) -> u32 {
    match g.graph_root {
        Some(r) => nodes[r as int].ip,
        None => 0,
    }
}

/// No id occurs twice.
pub open spec fn no_repeats(ids: Seq<u32>) -> bool {
    forall|i: int, j: int| 0 <= i < j < ids.len() ==> ids[i] != ids[j]
}

/// Recording a path as active never records an id twice.
proof fn lemma_active_ids_unique(ids: Seq<u32>, id: u32, recorded: bool)
    requires
        no_repeats(ids),
    ensures
        no_repeats(if recorded && !ids.contains(id) { ids.push(id) } else { ids }),
{
    if recorded && !ids.contains(id) {
        let n = ids.push(id);
        assert forall|i: int, j: int| 0 <= i < j < n.len() implies n[i] != n[j] by {
            if j == ids.len() {
                assert(n[i] == ids[i]);
                if ids[i] == id {
                    assert(ids.contains(id));
                }
            } else {
                assert(n[i] == ids[i] && n[j] == ids[j]);
            }
        }
    }
}

impl State {
    /// There is one well formed graph per age counted.
    pub open spec fn wf(&self, n: nat) -> bool {
        &&& self.graph_counter == self.graphs@.len()
        &&& forall|i: int| 0 <= i < self.graphs@.len() ==> #[trigger] self.graphs@[i].wf(n)
    }

    pub fn new(id: String) -> (s: State)
        ensures
            s.wf(0),
            s.age == 0,
            s.graphs@.len() == 0,
            s.graph_counter == 0,
            s.active_paths_ids@.len() == 0,
            s.name@.len() == 0,
            s.id == id,
            s.link_count == 0,
            s.max_age == 2,
            s.ec_cycle == 0,
    {
        State {
            age: 0,
            graphs: Vec::new(),
            graph_counter: 0,
            active_paths_ids: Vec::new(),
            name: String::new(),
            id,
            link_count: 0,
            max_age: 2,
            ec_cycle: 0,
        }
    }

    /// Records the number of links of the experiment, in every graph too.
    pub fn set_link_count(&mut self, link_count: u32)
        ensures
            final(self).link_count == link_count,
            final(self).graphs@.len() == old(self).graphs@.len(),
            forall|i: int|
                0 <= i < old(self).graphs@.len() ==> #[trigger] final(self).graphs@[i] == (Graph {
                    link_count,
                    ..old(self).graphs@[i]
                }),
            *final(self) == (State { link_count, graphs: final(self).graphs, ..*old(self) }),
    {
        self.link_count = link_count;
        let ghost g0 = self.graphs@;
        let mut i: usize = 0;
        while i < self.graphs.len()
            invariant
                self.graphs@.len() == g0.len(),
                i <= g0.len(),
                *self == (State { link_count, graphs: self.graphs, ..*old(self) }),
                g0 == old(self).graphs@,
                forall|k: int| 0 <= k < i ==> #[trigger] self.graphs@[k] == (Graph { link_count, ..g0[k] }),
                forall|k: int| i <= k < g0.len() ==> #[trigger] self.graphs@[k] == g0[k],
            decreases g0.len() - i,
        {
            self.graphs[i].link_count = link_count;
            i = i + 1;
        }
    }

    /// Appends a graph for a new age: the first is empty, every later one a
    /// copy of the most recent graph.
    pub fn insert_graph(&mut self, nodes: &Vec<Service>)
        requires
            old(self).wf(nodes@.len()),
            old(self).graph_counter < usize::MAX,
        ensures
            final(self).wf(nodes@.len()),
            final(self).graphs@.len() == old(self).graphs@.len() + 1,
            final(self).graphs@.drop_last() == old(self).graphs@,
            old(self).graphs@.len() == 0 ==> final(self).graphs@.last().services@ == Map::<u32, usize>::empty()
                && final(self).graphs@.last().links@ == Map::<u16, crate::elements::Link>::empty()
                && final(self).graphs@.last().services_by_name@ == Map::<Seq<char>, Vec<usize>>::empty()
                && final(self).graphs@.last().graph_root is None,
            old(self).graphs@.len() > 0 ==> copy_of(final(self).graphs@.last(), old(self).graphs@.last(), nodes@),
            *final(self) == (State { graphs: final(self).graphs, graph_counter: final(self).graph_counter, ..*old(self) }),
    {
        let g = if self.graphs.len() == 0 {
            Graph::new()
        } else {
            let last = self.graphs.len() - 1;
            proof {
                assert(self.graphs@[last as int].wf(nodes@.len()));
            }
            Graph::from_graph(&self.graphs[last], nodes)
        };
        proof {
            assert(g.wf(nodes@.len()));
        }
        let ghost before = self.graphs@;
        self.graphs.push(g);
        self.graph_counter = self.graph_counter + 1;
        proof {
            assert(self.graphs@.drop_last() =~= before);
            assert forall|i: int| 0 <= i < self.graphs@.len() implies #[trigger] self.graphs@[i].wf(nodes@.len()) by {
                if i < before.len() {
                    assert(self.graphs@[i] == before[i]);
                }
            }
        }
    }

    /// The graph in use.
    pub fn get_current_graph(&self) -> (g: &Graph)
        requires
            self.age < self.graphs@.len(),
        ensures
            *g == self.graphs@[self.age as int],
    {
        &self.graphs[self.age]
    }

    /// The graph added last.
    pub fn get_graph_most_recent(&self) -> (g: &Graph)
        requires
            1 <= self.graph_counter <= self.graphs@.len(),
        ensures
            *g == self.graphs@[self.graph_counter - 1],
    {
        &self.graphs[self.graph_counter - 1]
    }

    /// The graph of an age.
    pub fn get_graph_with_age(&self, age: usize) -> (g: &Graph)
        requires
            age < self.graphs@.len(),
        ensures
            *g == self.graphs@[age as int],
    {
        &self.graphs[age]
    }

    /// Notes that this instance sent bytes on the path to `ip` in the graph
    /// in use: its id is recorded once, unless it is the root's path (id 0)
    /// or there is no path to `ip`.
    pub fn insert_active_path_id(&mut self, ip: u32)
        requires
            old(self).age < old(self).graphs@.len(),
            old(self).graphs@[old(self).age as int].ip_to_path_id.wf(),
        ensures
            ({
                let g = old(self).graphs@[old(self).age as int];
                let ids = old(self).active_paths_ids@;
                if g.ip_to_path_id@.dom().contains(ip) && g.ip_to_path_id@[ip] != 0 && !ids.contains(
                    g.ip_to_path_id@[ip],
                ) {
                    final(self).active_paths_ids@ == ids.push(g.ip_to_path_id@[ip])
                } else {
                    final(self).active_paths_ids@ == ids
                }
            }),
            no_repeats(old(self).active_paths_ids@) ==> no_repeats(final(self).active_paths_ids@),
            *final(self) == (State { active_paths_ids: final(self).active_paths_ids, ..*old(self) }),
    {
        proof {
            let g = self.graphs@[self.age as int];
            let ids = self.active_paths_ids@;
            if no_repeats(ids) {
                if g.ip_to_path_id@.dom().contains(ip) {
                    lemma_active_ids_unique(ids, g.ip_to_path_id@[ip], g.ip_to_path_id@[ip] != 0);
                }
            }
        }
        let path_id = self.graphs[self.age].get_path_id_from_ip(ip);
        match path_id {
            Some(id) => {
                if id == 0 {
                    return;
                }
                let mut present = false;
                let mut i: usize = 0;
                while i < self.active_paths_ids.len()
                    invariant
                        i <= self.active_paths_ids@.len(),
                        present == self.active_paths_ids@.take(i as int).contains(id),
                    decreases self.active_paths_ids@.len() - i,
                {
                    let x = self.active_paths_ids[i];
                    proof {
                        let t0 = self.active_paths_ids@.take(i as int);
                        let t1 = self.active_paths_ids@.take(i + 1);
                        assert(t1 =~= t0.push(x));
                        if t0.contains(id) {
                            let k = choose|k: int| 0 <= k < t0.len() && t0[k] == id;
                            assert(t1[k] == id);
                        }
                        if x == id {
                            assert(t1[i as int] == id);
                        }
                        if t1.contains(id) {
                            let k = choose|k: int| 0 <= k < t1.len() && t1[k] == id;
                            if k < i {
                                assert(t0[k] == id);
                            }
                        }
                        assert(t1.contains(id) == (t0.contains(id) || x == id));
                    }
                    if x == id {
                        present = true;
                    }
                    i = i + 1;
                }
                proof {
                    assert(self.active_paths_ids@.take(self.active_paths_ids@.len() as int) =~= self.active_paths_ids@);
                }
                if !present {
                    self.active_paths_ids.push(id);
                }
            },
            None => {},
        }
    }

    /// Forgets the paths used during the cycle.
    pub fn clear_paths(&mut self)
        ensures
            final(self).active_paths_ids@.len() == 0,
            *final(self) == (State { active_paths_ids: final(self).active_paths_ids, ..*old(self) }),
    {
        self.active_paths_ids.clear();
    }

    /// Carries the byte counts of the services of the graph in use to the
    /// services of the next graph, address by address among the addresses
    /// of the next graph.
    pub fn collect_old_usages(&self, nodes: &mut Vec<Service>)
        requires
            self.age + 1 < self.graphs@.len(),
            self.wf(old(nodes)@.len()),
        ensures
            final(nodes)@ == usages_moved(
                old(nodes)@,
                self.graphs@[self.age as int],
                self.graphs@[self.age + 1],
                self.graphs@[self.age + 1].ips@,
            ),
    {
        let old_g = &self.graphs[self.age];
        let new_g = &self.graphs[self.age + 1];
        proof {
            assert(old_g.wf(nodes@.len()));
            assert(new_g.wf(nodes@.len()));
        }
        let ghost n0 = nodes@;
        let mut i: usize = 0;
        while i < new_g.ips.len()
            invariant
                old_g.wf(n0.len()),
                new_g.wf(n0.len()),
                i <= new_g.ips@.len(),
                nodes@ == usages_moved(n0, *old_g, *new_g, new_g.ips@.take(i as int)),
                nodes@.len() == n0.len(),
            decreases new_g.ips@.len() - i,
        {
            let ip = new_g.ips[i];
            let ghost before = nodes@;
            proof {
                assert(new_g.ips@.take(i + 1).drop_last() =~= new_g.ips@.take(i as int));
                assert(new_g.ips@.take(i + 1).last() == ip);
            }
            match old_g.services.get(&ip) {
                Some(x) => {
                    let lb = nodes[*x].last_bytes;
                    new_g.set_lastbytes(nodes, ip, lb);
                    proof {
                        lemma_usages_moved_len(n0, *old_g, *new_g, new_g.ips@.take(i + 1));
                    }
                },
                None => {},
            }
            i = i + 1;
        }
        proof {
            assert(new_g.ips@.take(new_g.ips@.len() as int) =~= new_g.ips@);
        }
    }

    /// Moves on to the next age: the byte counts are carried to the next
    /// graph, which comes in use, and the paths of the cycle are forgotten.
    pub fn advance_age(&mut self, nodes: &mut Vec<Service>)
        requires
            old(self).age + 1 < old(self).graphs@.len(),
            old(self).wf(old(nodes)@.len()),
        ensures
            final(nodes)@ == usages_moved(
                old(nodes)@,
                old(self).graphs@[old(self).age as int],
                old(self).graphs@[old(self).age + 1],
                old(self).graphs@[old(self).age + 1].ips@,
            ),
            final(self).age == old(self).age + 1,
            final(self).active_paths_ids@.len() == 0,
            *final(self) == (State { age: final(self).age, active_paths_ids: final(self).active_paths_ids, ..*old(self) }),
    {
        self.collect_old_usages(nodes);
        self.age = self.age + 1;
        self.active_paths_ids.clear();
    }

    /// The path with id `id` in the graph in use, if any.
    pub fn get_path(&self, id: u32) -> (r: Option<&Path>)
        requires
            self.age < self.graphs@.len(),
            self.graphs@[self.age as int].paths.wf(),
        ensures
            r is None <==> !self.graphs@[self.age as int].paths@.dom().contains(id),
            r matches Some(p) ==> *p == self.graphs@[self.age as int].paths@[id],
    {
        self.graphs[self.age].get_path(id)
    }

    /// The link with id `id` in the graph in use, if any.
    pub fn get_link(&self, id: u16) -> (r: Option<&Link>)
        requires
            self.age < self.graphs@.len(),
            self.graphs@[self.age as int].links.wf(),
        ensures
            r is None <==> !self.graphs@[self.age as int].links@.dom().contains(id),
            r matches Some(l) ==> *l == self.graphs@[self.age as int].links@[id],
    {
        self.graphs[self.age].links.get(&id)
    }

    /// The flow accumulated under `key` in the graph in use, if any.
    pub fn get_flow_u16(&self, key: &String) -> (r: Option<&Flowu16>)
        requires
            self.age < self.graphs@.len(),
            self.graphs@[self.age as int].flow_accumulator_u16.wf(),
        ensures
            r is None <==> !self.graphs@[self.age as int].flow_accumulator_u16@.dom().contains(key@),
            r matches Some(f) ==> *f == self.graphs@[self.age as int].flow_accumulator_u16@[key@],
    {
        self.graphs[self.age].flow_accumulator_u16.get(key)
    }

    /// The paths, in the graph in use, that this instance sent bytes on, in
    /// the order they were first used; `None` if one of them is unknown.
    pub fn get_active_paths(&self) -> (r: Option<Vec<&Path>>)
        requires
            self.age < self.graphs@.len(),
            self.graphs@[self.age as int].paths.wf(),
        ensures
            ({
                let g = self.graphs@[self.age as int];
                let ids = self.active_paths_ids@;
                &&& r is Some <==> forall|i: int| 0 <= i < ids.len() ==> g.paths@.dom().contains(#[trigger] ids[i])
                &&& r matches Some(v) ==> v@.len() == ids.len() && forall|i: int|
                    0 <= i < ids.len() ==> *#[trigger] v@[i] == g.paths@[ids[i]]
            }),
    {
        let g = &self.graphs[self.age];
        let mut v: Vec<&Path> = Vec::new();
        let mut i: usize = 0;
        while i < self.active_paths_ids.len()
            invariant
                g == &self.graphs@[self.age as int],
                g.paths.wf(),
                i <= self.active_paths_ids@.len(),
                v@.len() == i,
                forall|k: int| 0 <= k < i ==> g.paths@.dom().contains(#[trigger] self.active_paths_ids@[k]),
                forall|k: int| 0 <= k < i ==> *#[trigger] v@[k] == g.paths@[self.active_paths_ids@[k]],
            decreases self.active_paths_ids@.len() - i,
        {
            match g.get_path(self.active_paths_ids[i]) {
                Some(p) => {
                    v.push(p);
                },
                None => {
                    return None;
                },
            }
            i = i + 1;
        }
        Some(v)
    }

    /// What moving to the next graph changes, address by address: first
    /// the addresses it no longer reaches, in the order of the table of the
    /// graph in use, then those it reaches, in the order of its own table.
    /// `None` where a path the changes look at is missing, or the root is
    /// needed and unknown.  Nothing is changed; see `path_changes`.
    pub fn path_change_plan(&self, nodes: &Vec<Service>) -> (r: Option<Vec<PathChange>>)
        requires
            self.age + 1 < self.graphs@.len(),
            self.wf(nodes@.len()),
        ensures
            ({
                let old_g = self.graphs@[self.age as int];
                let new_g = self.graphs@[self.age + 1];
                let root = root_ip(old_g, nodes@);
                &&& r is Some <==> (old_g.graph_root is Some || !root_needed(old_g, new_g)) && changes_defined(
                    old_g,
                    new_g,
                    root,
                )
                &&& r matches Some(v) ==> v@ == blocks(old_g.ip_to_path_id.entries@, old_g, new_g, root)
                    + updates(new_g.ip_to_path_id.entries@, old_g, new_g, root)
            }),
    {
        let old_g = &self.graphs[self.age];
        let new_g = &self.graphs[self.age + 1];
        proof {
            assert(old_g.wf(nodes@.len()));
            assert(new_g.wf(nodes@.len()));
        }
        let root: Option<u32> = match old_g.graph_root {
            Some(x) => Some(nodes[x].ip),
            None => None,
        };
        let ghost rv = root_ip(*old_g, nodes@);
        let ghost oes = old_g.ip_to_path_id.entries@;
        let ghost nes = new_g.ip_to_path_id.entries@;
        let mut out: Vec<PathChange> = Vec::new();
        let mut i: usize = 0;
        while i < old_g.ip_to_path_id.entries.len()
            invariant
                self.age + 1 < self.graphs@.len(),
                *old_g == self.graphs@[self.age as int],
                *new_g == self.graphs@[self.age + 1],
                old_g.wf(nodes@.len()),
                new_g.wf(nodes@.len()),
                oes == old_g.ip_to_path_id.entries@,
                rv == root_ip(*old_g, nodes@),
                root matches Some(x) ==> x == rv && old_g.graph_root is Some,
                root is None ==> old_g.graph_root is None,
                i <= oes.len(),
                out@ == blocks(oes.take(i as int), *old_g, *new_g, rv),
                forall|j: int| 0 <= j < i ==> !new_g.ip_to_path_id@.dom().contains(#[trigger] oes[j].0) ==> root is Some,
                forall|j: int|
                    0 <= j < i ==> {
                        let (ip, id) = #[trigger] oes[j];
                        !new_g.ip_to_path_id@.dom().contains(ip) && ip != rv ==> old_g.paths@.dom().contains(id)
                    },
            decreases oes.len() - i,
        {
            let ip = old_g.ip_to_path_id.entries[i].0;
            let id = old_g.ip_to_path_id.entries[i].1;
            proof {
                assert(oes.take(i + 1).drop_last() =~= oes.take(i as int));
                assert(oes.take(i + 1).last() == oes[i as int]);
            }
            if !new_g.ip_to_path_id.contains_key(&ip) {
                let rip = match root {
                    Some(x) => x,
                    None => {
                        proof {
                            assert(root_needed(*old_g, *new_g));
                        }
                        return None;
                    },
                };
                if rip != ip {
                    match old_g.paths.get(&id) {
                        Some(p) => {
                            if !old_g.bridges_by_name.contains_key(&p.finish) {
                                out.push(PathChange::Block { ip });
                            }
                        },
                        None => {
                            proof {
                                assert(!changes_defined(*old_g, *new_g, rv));
                            }
                            return None;
                        },
                    }
                }
            }
            i = i + 1;
        }
        proof {
            assert(oes.take(oes.len() as int) =~= oes);
        }
        let ghost first = out@;
        let mut k: usize = 0;
        while k < new_g.ip_to_path_id.entries.len()
            invariant
                self.age + 1 < self.graphs@.len(),
                *old_g == self.graphs@[self.age as int],
                *new_g == self.graphs@[self.age + 1],
                old_g.wf(nodes@.len()),
                new_g.wf(nodes@.len()),
                oes == old_g.ip_to_path_id.entries@,
                nes == new_g.ip_to_path_id.entries@,
                rv == root_ip(*old_g, nodes@),
                root matches Some(x) ==> x == rv && old_g.graph_root is Some,
                root is None ==> old_g.graph_root is None,
                k <= nes.len(),
                k > 0 ==> root is Some,
                first == blocks(oes, *old_g, *new_g, rv),
                out@ == first + updates(nes.take(k as int), *old_g, *new_g, rv),
                forall|j: int| 0 <= j < oes.len() ==> !new_g.ip_to_path_id@.dom().contains(#[trigger] oes[j].0) ==> root is Some,
                forall|j: int|
                    0 <= j < oes.len() ==> {
                        let (ip, id) = #[trigger] oes[j];
                        !new_g.ip_to_path_id@.dom().contains(ip) && ip != rv ==> old_g.paths@.dom().contains(id)
                    },
                forall|j: int|
                    0 <= j < k ==> {
                        let (ip, id) = #[trigger] nes[j];
                        !old_g.ip_to_path_id@.dom().contains(ip) && ip != rv ==> new_g.paths@.dom().contains(id)
                    },
            decreases nes.len() - k,
        {
            let ip = new_g.ip_to_path_id.entries[k].0;
            let id = new_g.ip_to_path_id.entries[k].1;
            let ghost before = out@;
            proof {
                assert(nes.take(k + 1).drop_last() =~= nes.take(k as int));
                assert(nes.take(k + 1).last() == nes[k as int]);
            }
            let rip = match root {
                Some(x) => x,
                None => {
                    proof {
                        assert(root_needed(*old_g, *new_g));
                    }
                    return None;
                },
            };
            if ip != rip {
                match old_g.ip_to_path_id.get(&ip) {
                    Some(from) => {
                        let from = *from;
                        match old_g.paths.get(&from) {
                            Some(_) => {
                                match new_g.paths.get(&id) {
                                    Some(np) => {
                                        if !new_g.bridges_by_name.contains_key(&np.finish) {
                                            out.push(PathChange::Carry { ip, from, to: id });
                                        }
                                    },
                                    None => {},
                                }
                            },
                            None => {},
                        }
                    },
                    None => {
                        match new_g.paths.get(&id) {
                            Some(np) => {
                                if !new_g.bridges_by_name.contains_key(&np.finish) {
                                    out.push(PathChange::Apply { ip, path: id });
                                }
                            },
                            None => {
                                proof {
                                    assert(!changes_defined(*old_g, *new_g, rv));
                                }
                                return None;
                            },
                        }
                    },
                }
            }
            proof {
                assert(updates(nes.take(k + 1), *old_g, *new_g, rv) == {
                    let u = updates(nes.take(k as int), *old_g, *new_g, rv);
                    if out@.len() == before.len() {
                        u
                    } else {
                        u.push(out@.last())
                    }
                });
                assert(out@ =~= first + updates(nes.take(k + 1), *old_g, *new_g, rv));
            }
            k = k + 1;
        }
        proof {
            assert(nes.take(nes.len() as int) =~= nes);
            if root is None {
                assert(nes.len() == 0);
                assert(!root_needed(*old_g, *new_g));
            }
        }
        Some(out)
    }

    /// Path `to` of the next graph takes over the bandwidth figures of
    /// path `from` of the graph in use, see `PathChange::Carry`.
    pub fn carry_bandwidth(&mut self, from: u32, to: u32)
        requires
            old(self).age + 1 < old(self).graphs@.len(),
            old(self).graphs@[old(self).age as int].paths.wf(),
            old(self).graphs@[old(self).age as int].paths@.dom().contains(from),
            old(self).graphs@[old(self).age + 1].paths.wf(),
            forall|k: u32| #[trigger] old(self).graphs@[old(self).age + 1].paths@.dom().contains(k)
                ==> old(self).graphs@[old(self).age + 1].paths@[k].id == k,
            old(self).graphs@[old(self).age + 1].paths@.dom().contains(to),
        ensures
            ({
                let a = old(self).age + 1;
                let g = old(self).graphs@[a];
                let h = final(self).graphs@[a];
                let m = old(self).graphs@[old(self).age as int].paths@[from].metrics;
                &&& final(self).graphs@.len() == old(self).graphs@.len()
                &&& forall|j: int| 0 <= j < old(self).graphs@.len() && j != a ==> #[trigger] final(self).graphs@[j]
                    == old(self).graphs@[j]
                &&& h == (Graph { paths: h.paths, ..g })
                &&& h.paths@.dom() == g.paths@.dom()
                &&& forall|k: u32| #[trigger] g.paths@.dom().contains(k) && k != to ==> h.paths@[k] == g.paths@[k]
                &&& bandwidths_set(h.paths@[to], g.paths@[to], m.used_bandwidth, m.current_bandwidth)
                &&& forall|n: nat| old(self).wf(n) ==> final(self).wf(n)
            }),
            *final(self) == (State { graphs: final(self).graphs, ..*old(self) }),
    {
        let m = self.graphs[self.age].paths.get(&from).unwrap().metrics;
        let graph_count = self.graphs.len();
        assert(self.age + 1 < graph_count);
        let a = self.age + 1;
        self.graphs[a].set_path_bandwidths(to, m.used_bandwidth, m.current_bandwidth);
        proof {
            assert forall|n: nat| old(self).wf(n) implies self.wf(n) by {
                assert forall|i: int| 0 <= i < self.graphs@.len() implies #[trigger] self.graphs@[i].wf(n) by {
                    assert(old(self).graphs@[i].wf(n));
                }
            }
        }
    }
}


/// The path of the graph in use whose bandwidth figures path `k` of the
/// next graph takes over: the last `Carry` of `plan` to `k`, if any.
pub open spec fn carry_from(plan: Seq<PathChange>, k: u32) -> Option<u32>
    decreases plan.len(),
{
    if plan.len() == 0 {
        None
    } else {
        match plan.last() {
            PathChange::Carry { ip: _, from, to } => if to == k {
                Some(from)
            } else {
                carry_from(plan.drop_last(), k)
            },
            _ => carry_from(plan.drop_last(), k),
        }
    }
}

/// `h` is the next graph `g` once every `Carry` of `plan` gave its path the
/// bandwidth figures of the path of `old_g` it comes from.
pub open spec fn carried(h: Graph, g: Graph, old_g: Graph, plan: Seq<PathChange>) -> bool {
    &&& h == (Graph { paths: h.paths, ..g })
    &&& h.paths@.dom() == g.paths@.dom()
    &&& forall|k: u32| #[trigger]
        g.paths@.dom().contains(k) ==> match carry_from(plan, k) {
            None => h.paths@[k] == g.paths@[k],
            Some(f) => bandwidths_set(
                h.paths@[k],
                g.paths@[k],
                old_g.paths@[f].metrics.used_bandwidth,
                old_g.paths@[f].metrics.current_bandwidth,
            ),
        }
}

proof fn lemma_usages_same_services(nodes: Seq<Service>, old_g: Graph, g1: Graph, g2: Graph, ips: Seq<u32>)
    requires
        g1.services@ == g2.services@,
    ensures
        usages_moved(nodes, old_g, g1, ips) == usages_moved(nodes, old_g, g2, ips),
    decreases ips.len(),
{
    if ips.len() > 0 {
        lemma_usages_same_services(nodes, old_g, g1, g2, ips.drop_last());
    }
}

/// Every `Carry` among the changes comes from a path of the graph in use
/// and goes to a path of the next graph.
proof fn lemma_carries_defined(es: Seq<(u32, u32)>, old_g: Graph, new_g: Graph, root: u32)
    ensures
        forall|i: int|
            0 <= i < updates(es, old_g, new_g, root).len() ==> match #[trigger] updates(es, old_g, new_g, root)[i] {
                PathChange::Carry { ip: _, from, to } => old_g.paths@.dom().contains(from) && new_g.paths@.dom().contains(to),
                _ => true,
            },
    decreases es.len(),
{
    if es.len() > 0 {
        lemma_carries_defined(es.drop_last(), old_g, new_g, root);
        let prev = updates(es.drop_last(), old_g, new_g, root);
        assert forall|i: int| 0 <= i < prev.len() implies updates(es, old_g, new_g, root)[i] == prev[i] by {}
    }
}

proof fn lemma_blocks_carry_nothing(es: Seq<(u32, u32)>, old_g: Graph, new_g: Graph, root: u32)
    ensures
        forall|i: int| 0 <= i < blocks(es, old_g, new_g, root).len() ==> #[trigger] blocks(es, old_g, new_g, root)[i] is Block,
    decreases es.len(),
{
    if es.len() > 0 {
        lemma_blocks_carry_nothing(es.drop_last(), old_g, new_g, root);
        let prev = blocks(es.drop_last(), old_g, new_g, root);
        assert forall|i: int| 0 <= i < prev.len() implies blocks(es, old_g, new_g, root)[i] == prev[i] by {}
    }
}

impl State {
    /// Prepares the move to the next graph: finds the path changes (see
    /// `path_change_plan`) and gives each path of the next graph that a
    /// `Carry` reaches the used and current bandwidth of the path of the
    /// graph in use it comes from.  The age and every other graph stay as
    /// they are.  Returns the changes, for the traffic shaper; `None`, with
    /// nothing changed, where the plan gives none.
    pub fn path_changes(&mut self, nodes: &Vec<Service>) -> (r: Option<Vec<PathChange>>)
        requires
            old(self).age + 1 < old(self).graphs@.len(),
            old(self).wf(nodes@.len()),
        ensures
            ({
                let a = old(self).age as int;
                let old_g = old(self).graphs@[a];
                let new_g = old(self).graphs@[a + 1];
                let root = root_ip(old_g, nodes@);
                &&& r is Some <==> (old_g.graph_root is Some || !root_needed(old_g, new_g)) && changes_defined(
                    old_g,
                    new_g,
                    root,
                )
                &&& r is None ==> *final(self) == *old(self)
                &&& r matches Some(v) ==> {
                    &&& v@ == blocks(old_g.ip_to_path_id.entries@, old_g, new_g, root) + updates(
                        new_g.ip_to_path_id.entries@,
                        old_g,
                        new_g,
                        root,
                    )
                    &&& final(self).graphs@.len() == old(self).graphs@.len()
                    &&& forall|j: int|
                        0 <= j < old(self).graphs@.len() && j != a + 1 ==> #[trigger] final(self).graphs@[j]
                            == old(self).graphs@[j]
                    &&& carried(final(self).graphs@[a + 1], new_g, old_g, v@)
                    &&& final(self).wf(nodes@.len())
                    &&& *final(self) == (State { graphs: final(self).graphs, ..*old(self) })
                }
            }),
    {
        let plan = match self.path_change_plan(nodes) {
            Some(p) => p,
            None => {
                return None;
            },
        };
        let ghost s0 = *self;
        let ghost a = self.age as int;
        let ghost old_g = self.graphs@[a];
        let ghost new_g = self.graphs@[a + 1];
        let ghost n = nodes@.len();
        let ghost root = root_ip(old_g, nodes@);
        proof {
            lemma_carries_defined(new_g.ip_to_path_id.entries@, old_g, new_g, root);
            lemma_blocks_carry_nothing(old_g.ip_to_path_id.entries@, old_g, new_g, root);
            let bl = blocks(old_g.ip_to_path_id.entries@, old_g, new_g, root);
            let up = updates(new_g.ip_to_path_id.entries@, old_g, new_g, root);
            assert forall|i: int| 0 <= i < plan@.len() implies match #[trigger] plan@[i] {
                PathChange::Carry { ip: _, from, to } => old_g.paths@.dom().contains(from) && new_g.paths@.dom().contains(to),
                _ => true,
            } by {
                if i < bl.len() {
                    assert(plan@[i] == bl[i]);
                } else {
                    assert(plan@[i] == up[i - bl.len()]);
                }
            }
            assert(old_g.wf(n) && new_g.wf(n));
        }
        let mut i: usize = 0;
        while i < plan.len()
            invariant
                i <= plan@.len(),
                a == s0.age,
                a + 1 < s0.graphs@.len(),
                old_g == s0.graphs@[a],
                new_g == s0.graphs@[a + 1],
                old_g.wf(n),
                new_g.wf(n),
                self.wf(n),
                *self == (State { graphs: self.graphs, ..s0 }),
                self.graphs@.len() == s0.graphs@.len(),
                forall|j: int| 0 <= j < s0.graphs@.len() && j != a + 1 ==> #[trigger] self.graphs@[j] == s0.graphs@[j],
                carried(self.graphs@[a + 1], new_g, old_g, plan@.take(i as int)),
                forall|k: int| 0 <= k < plan@.len() ==> match #[trigger] plan@[k] {
                    PathChange::Carry { ip: _, from, to } => old_g.paths@.dom().contains(from) && new_g.paths@.dom().contains(to),
                    _ => true,
                },
            decreases plan@.len() - i,
        {
            let ghost h0 = self.graphs@[a + 1];
            proof {
                assert(plan@.take(i + 1).drop_last() =~= plan@.take(i as int));
                assert(plan@.take(i + 1).last() == plan@[i as int]);
            }
            match plan[i] {
                PathChange::Carry { ip: _, from, to } => {
                    proof {
                        assert(self.graphs@[a] == old_g);
                        assert(self.graphs@[a + 1].wf(n));
                    }
                    self.carry_bandwidth(from, to);
                    proof {
                        let h = self.graphs@[a + 1];
                        let t = plan@.take(i + 1);
                        assert forall|k: u32| #[trigger] new_g.paths@.dom().contains(k) implies match carry_from(t, k) {
                            None => h.paths@[k] == new_g.paths@[k],
                            Some(f) => bandwidths_set(
                                h.paths@[k],
                                new_g.paths@[k],
                                old_g.paths@[f].metrics.used_bandwidth,
                                old_g.paths@[f].metrics.current_bandwidth,
                            ),
                        } by {
                            assert(h0.paths@.dom().contains(k));
                        }
                    }
                },
                _ => {
                    proof {
                        let t = plan@.take(i + 1);
                        assert forall|k: u32| #[trigger] new_g.paths@.dom().contains(k) implies carry_from(t, k)
                            == carry_from(plan@.take(i as int), k) by {}
                    }
                },
            }
            i = i + 1;
        }
        proof {
            assert(plan@.take(plan@.len() as int) =~= plan@);
        }
        Some(plan)
    }

    /// Moves to the next graph: the path changes, with their bandwidth
    /// figures carried (see `path_changes`), then the move to the next age
    /// (see `advance_age`).  Returns the changes, for the traffic shaper;
    /// `None`, with nothing changed, where `path_changes` gives none.
    pub fn next_age(&mut self, nodes: &mut Vec<Service>) -> (r: Option<Vec<PathChange>>)
        requires
            old(self).age + 1 < old(self).graphs@.len(),
            old(self).wf(old(nodes)@.len()),
        ensures
            ({
                let a = old(self).age as int;
                let old_g = old(self).graphs@[a];
                let new_g = old(self).graphs@[a + 1];
                let root = root_ip(old_g, old(nodes)@);
                &&& r is Some <==> (old_g.graph_root is Some || !root_needed(old_g, new_g)) && changes_defined(
                    old_g,
                    new_g,
                    root,
                )
                &&& r is None ==> *final(self) == *old(self) && final(nodes)@ == old(nodes)@
                &&& r matches Some(v) ==> {
                    &&& v@ == blocks(old_g.ip_to_path_id.entries@, old_g, new_g, root) + updates(
                        new_g.ip_to_path_id.entries@,
                        old_g,
                        new_g,
                        root,
                    )
                    &&& final(self).age == old(self).age + 1
                    &&& final(self).active_paths_ids@.len() == 0
                    &&& final(self).graphs@.len() == old(self).graphs@.len()
                    &&& forall|j: int|
                        0 <= j < old(self).graphs@.len() && j != a + 1 ==> #[trigger] final(self).graphs@[j]
                            == old(self).graphs@[j]
                    &&& carried(final(self).graphs@[a + 1], new_g, old_g, v@)
                    &&& final(nodes)@ == usages_moved(old(nodes)@, old_g, new_g, new_g.ips@)
                    &&& final(self).wf(old(nodes)@.len())
                    &&& *final(self) == (State {
                        age: final(self).age,
                        active_paths_ids: final(self).active_paths_ids,
                        graphs: final(self).graphs,
                        ..*old(self)
                    })
                }
            }),
    {
        let ghost a = self.age as int;
        let ghost old_g = self.graphs@[a];
        let ghost new_g = self.graphs@[a + 1];
        let plan = match self.path_changes(nodes) {
            Some(p) => p,
            None => {
                return None;
            },
        };
        let ghost s1 = *self;
        let ghost n0 = nodes@;
        self.advance_age(nodes);
        proof {
            lemma_usages_same_services(n0, old_g, s1.graphs@[a + 1], new_g, new_g.ips@);
            assert(s1.graphs@[a] == old_g);
            assert(s1.graphs@[a + 1].ips@ == new_g.ips@);
        }
        Some(plan)
    }
}

proof fn lemma_updates_grow(es: Seq<(u32, u32)>, old_g: Graph, new_g: Graph, root: u32, i: int)
    requires
        0 <= i <= es.len(),
    ensures
        forall|c: PathChange| updates(es.take(i), old_g, new_g, root).contains(c) ==> updates(es, old_g, new_g, root).contains(c),
    decreases es.len() - i,
{
    if i < es.len() {
        lemma_updates_grow(es, old_g, new_g, root, i + 1);
        assert(es.take(i + 1).drop_last() =~= es.take(i));
        assert forall|c: PathChange| updates(es.take(i), old_g, new_g, root).contains(c) implies updates(
            es.take(i + 1),
            old_g,
            new_g,
            root,
        ).contains(c) by {
            let u = updates(es.take(i), old_g, new_g, root);
            let j = choose|j: int| 0 <= j < u.len() && u[j] == c;
            assert(updates(es.take(i + 1), old_g, new_g, root)[j] == c);
        }
    } else {
        assert(es.take(i) =~= es);
    }
}

/// Every address the next graph reaches by a path that does not end at a
/// bridge, the root aside, gets a change: a `Carry` from its path in the
/// graph in use when that graph reached it (both paths being there), an
/// `Apply` of its new path when that graph did not.
pub proof fn lemma_reached_addresses_change(old_g: Graph, new_g: Graph, root: u32, plan: Seq<PathChange>)
    requires
        plan == blocks(old_g.ip_to_path_id.entries@, old_g, new_g, root) + updates(
            new_g.ip_to_path_id.entries@,
            old_g,
            new_g,
            root,
        ),
    ensures
        forall|i: int|
            0 <= i < new_g.ip_to_path_id.entries@.len() ==> {
                let ip = (#[trigger] new_g.ip_to_path_id.entries@[i]).0;
                let id = new_g.ip_to_path_id.entries@[i].1;
                ip != root && !new_g.bridges_by_name@.dom().contains(new_g.paths@[id].finish@) ==> {
                    &&& !old_g.ip_to_path_id@.dom().contains(ip) ==> plan.contains(PathChange::Apply { ip, path: id })
                    &&& old_g.ip_to_path_id@.dom().contains(ip) && old_g.paths@.dom().contains(
                        old_g.ip_to_path_id@[ip],
                    ) && new_g.paths@.dom().contains(id) ==> plan.contains(
                        PathChange::Carry { ip, from: old_g.ip_to_path_id@[ip], to: id },
                    )
                }
            },
{
    let es = new_g.ip_to_path_id.entries@;
    let bl = blocks(old_g.ip_to_path_id.entries@, old_g, new_g, root);
    let up = updates(es, old_g, new_g, root);
    assert forall|i: int| 0 <= i < es.len() implies {
        let ip = (#[trigger] es[i]).0;
        let id = es[i].1;
        ip != root && !new_g.bridges_by_name@.dom().contains(new_g.paths@[id].finish@) ==> {
            &&& !old_g.ip_to_path_id@.dom().contains(ip) ==> plan.contains(PathChange::Apply { ip, path: id })
            &&& old_g.ip_to_path_id@.dom().contains(ip) && old_g.paths@.dom().contains(old_g.ip_to_path_id@[ip])
                && new_g.paths@.dom().contains(id) ==> plan.contains(
                PathChange::Carry { ip, from: old_g.ip_to_path_id@[ip], to: id },
            )
        }
    } by {
        let ip = es[i].0;
        let id = es[i].1;
        lemma_updates_grow(es, old_g, new_g, root, i + 1);
        let t = es.take(i + 1);
        assert(t.drop_last() =~= es.take(i));
        assert(t.last() == es[i]);
        let u = updates(t, old_g, new_g, root);
        if ip != root && !new_g.bridges_by_name@.dom().contains(new_g.paths@[id].finish@) {
            if !old_g.ip_to_path_id@.dom().contains(ip) {
                let c = PathChange::Apply { ip, path: id };
                assert(u.last() == c);
                assert(u.contains(c));
                assert(up.contains(c));
                let j = choose|j: int| 0 <= j < up.len() && up[j] == c;
                assert(plan[bl.len() + j] == c);
            } else if old_g.paths@.dom().contains(old_g.ip_to_path_id@[ip]) && new_g.paths@.dom().contains(id) {
                let c = PathChange::Carry { ip, from: old_g.ip_to_path_id@[ip], to: id };
                assert(u.last() == c);
                assert(u.contains(c));
                assert(up.contains(c));
                let j = choose|j: int| 0 <= j < up.len() && up[j] == c;
                assert(plan[bl.len() + j] == c);
            }
        }
    }
}

proof fn lemma_blocks_from(es: Seq<(u32, u32)>, old_g: Graph, new_g: Graph, root: u32, k: int)
    requires
        0 <= k < blocks(es, old_g, new_g, root).len(),
    ensures
        exists|i: int|
            #![trigger es[i]]
            0 <= i < es.len() && blocks(es, old_g, new_g, root)[k] == (PathChange::Block { ip: es[i].0 }) && es[i].0
                != root && !new_g.ip_to_path_id@.dom().contains(es[i].0),
    decreases es.len(),
{
    let prev = blocks(es.drop_last(), old_g, new_g, root);
    if k < prev.len() {
        lemma_blocks_from(es.drop_last(), old_g, new_g, root, k);
        let i = choose|i: int|
            #![trigger es.drop_last()[i]]
            0 <= i < es.drop_last().len() && prev[k] == PathChange::Block { ip: es.drop_last()[i].0 } && es.drop_last()[i].0
                != root && !new_g.ip_to_path_id@.dom().contains(es.drop_last()[i].0);
        assert(es[i] == es.drop_last()[i]);
    } else {
        assert(es[es.len() - 1] == es.last());
    }
}

proof fn lemma_updates_from(es: Seq<(u32, u32)>, old_g: Graph, new_g: Graph, root: u32, k: int)
    requires
        0 <= k < updates(es, old_g, new_g, root).len(),
    ensures
        exists|i: int|
            #![trigger es[i]]
            0 <= i < es.len() && es[i].0 != root && match updates(es, old_g, new_g, root)[k] {
                PathChange::Carry { ip, from, to } => ip == es[i].0 && to == es[i].1 && old_g.ip_to_path_id@.dom().contains(
                    ip,
                ) && from == old_g.ip_to_path_id@[ip],
                PathChange::Apply { ip, path } => ip == es[i].0 && path == es[i].1 && !old_g.ip_to_path_id@.dom().contains(ip),
                PathChange::Block { ip: _ } => false,
            },
    decreases es.len(),
{
    let prev = updates(es.drop_last(), old_g, new_g, root);
    if k < prev.len() {
        lemma_updates_from(es.drop_last(), old_g, new_g, root, k);
        let i = choose|i: int|
            #![trigger es.drop_last()[i]]
            0 <= i < es.drop_last().len() && es.drop_last()[i].0 != root && match prev[k] {
                PathChange::Carry { ip, from, to } => ip == es.drop_last()[i].0 && to == es.drop_last()[i].1
                    && old_g.ip_to_path_id@.dom().contains(ip) && from == old_g.ip_to_path_id@[ip],
                PathChange::Apply { ip, path } => ip == es.drop_last()[i].0 && path == es.drop_last()[i].1
                    && !old_g.ip_to_path_id@.dom().contains(ip),
                PathChange::Block { ip: _ } => false,
            };
        assert(es[i] == es.drop_last()[i]);
    } else {
        assert(es[es.len() - 1] == es.last());
    }
}

/// Each change of the plan is owed: a `Block` is for an address, not the
/// root, that the graph in use reaches and the next one does not; a
/// `Carry` goes from the path the graph in use has for an address, not the
/// root, to the one the next graph has for it; an `Apply` gives an address,
/// not the root, that only the next graph reaches the path it has for it.
/// And every address the graph in use reaches, the root aside, that the
/// next graph no longer reaches and whose path does not end at a bridge is
/// blocked.
pub proof fn lemma_changes_owed(old_g: Graph, new_g: Graph, root: u32, plan: Seq<PathChange>)
    requires
        old_g.ip_to_path_id.wf(),
        new_g.ip_to_path_id.wf(),
        plan == blocks(old_g.ip_to_path_id.entries@, old_g, new_g, root) + updates(
            new_g.ip_to_path_id.entries@,
            old_g,
            new_g,
            root,
        ),
    ensures
        forall|k: int|
            0 <= k < plan.len() ==> match #[trigger] plan[k] {
                PathChange::Block { ip } => ip != root && old_g.ip_to_path_id@.dom().contains(ip)
                    && !new_g.ip_to_path_id@.dom().contains(ip),
                PathChange::Carry { ip, from, to } => ip != root && old_g.ip_to_path_id@.dom().contains(ip)
                    && old_g.ip_to_path_id@[ip] == from && new_g.ip_to_path_id@.dom().contains(ip)
                    && new_g.ip_to_path_id@[ip] == to,
                PathChange::Apply { ip, path } => ip != root && !old_g.ip_to_path_id@.dom().contains(ip)
                    && new_g.ip_to_path_id@.dom().contains(ip) && new_g.ip_to_path_id@[ip] == path,
            },
        forall|i: int|
            0 <= i < old_g.ip_to_path_id.entries@.len() ==> {
                let ip = (#[trigger] old_g.ip_to_path_id.entries@[i]).0;
                let id = old_g.ip_to_path_id.entries@[i].1;
                ip != root && !new_g.ip_to_path_id@.dom().contains(ip) && !new_g.bridges_by_name@.dom().contains(
                    old_g.paths@[id].finish@,
                ) && !old_g.bridges_by_name@.dom().contains(old_g.paths@[id].finish@) ==> plan.contains(
                    PathChange::Block { ip },
                )
            },
{
    let oes = old_g.ip_to_path_id.entries@;
    let nes = new_g.ip_to_path_id.entries@;
    let bl = blocks(oes, old_g, new_g, root);
    let up = updates(nes, old_g, new_g, root);
    assert forall|k: int| 0 <= k < plan.len() implies match #[trigger] plan[k] {
        PathChange::Block { ip } => ip != root && old_g.ip_to_path_id@.dom().contains(ip)
            && !new_g.ip_to_path_id@.dom().contains(ip),
        PathChange::Carry { ip, from, to } => ip != root && old_g.ip_to_path_id@.dom().contains(ip)
            && old_g.ip_to_path_id@[ip] == from && new_g.ip_to_path_id@.dom().contains(ip)
            && new_g.ip_to_path_id@[ip] == to,
        PathChange::Apply { ip, path } => ip != root && !old_g.ip_to_path_id@.dom().contains(ip)
            && new_g.ip_to_path_id@.dom().contains(ip) && new_g.ip_to_path_id@[ip] == path,
    } by {
        if k < bl.len() {
            assert(plan[k] == bl[k]);
            lemma_blocks_from(oes, old_g, new_g, root, k);
            let i = choose|i: int|
                #![trigger oes[i]]
                0 <= i < oes.len() && bl[k] == PathChange::Block { ip: oes[i].0 } && oes[i].0 != root
                    && !new_g.ip_to_path_id@.dom().contains(oes[i].0);
            old_g.ip_to_path_id.lemma_pos(i);
        } else {
            let kk = k - bl.len();
            assert(plan[k] == up[kk]);
            lemma_updates_from(nes, old_g, new_g, root, kk);
            let i = choose|i: int|
                #![trigger nes[i]]
                0 <= i < nes.len() && nes[i].0 != root && match up[kk] {
                    PathChange::Carry { ip, from, to } => ip == nes[i].0 && to == nes[i].1
                        && old_g.ip_to_path_id@.dom().contains(ip) && from == old_g.ip_to_path_id@[ip],
                    PathChange::Apply { ip, path } => ip == nes[i].0 && path == nes[i].1
                        && !old_g.ip_to_path_id@.dom().contains(ip),
                    PathChange::Block { ip: _ } => false,
                };
            new_g.ip_to_path_id.lemma_pos(i);
        }
    }
    assert forall|i: int| 0 <= i < oes.len() implies {
        let ip = (#[trigger] oes[i]).0;
        let id = oes[i].1;
        ip != root && !new_g.ip_to_path_id@.dom().contains(ip) && !new_g.bridges_by_name@.dom().contains(
            old_g.paths@[id].finish@,
        ) && !old_g.bridges_by_name@.dom().contains(old_g.paths@[id].finish@) ==> plan.contains(PathChange::Block { ip })
    } by {
        let ip = oes[i].0;
        let id = oes[i].1;
        if ip != root && !new_g.ip_to_path_id@.dom().contains(ip) && !old_g.bridges_by_name@.dom().contains(
            old_g.paths@[id].finish@,
        ) {
            lemma_blocks_grow(oes, old_g, new_g, root, i + 1);
            let t = oes.take(i + 1);
            assert(t.drop_last() =~= oes.take(i));
            assert(t.last() == oes[i]);
            let b = blocks(t, old_g, new_g, root);
            let c = PathChange::Block { ip };
            assert(b.last() == c);
            assert(b.contains(c));
            assert(bl.contains(c));
            let j = choose|j: int| 0 <= j < bl.len() && bl[j] == c;
            assert(plan[j] == c);
        }
    }
}

proof fn lemma_blocks_grow(es: Seq<(u32, u32)>, old_g: Graph, new_g: Graph, root: u32, i: int)
    requires
        0 <= i <= es.len(),
    ensures
        forall|c: PathChange| blocks(es.take(i), old_g, new_g, root).contains(c) ==> blocks(es, old_g, new_g, root).contains(c),
    decreases es.len() - i,
{
    if i < es.len() {
        lemma_blocks_grow(es, old_g, new_g, root, i + 1);
        assert(es.take(i + 1).drop_last() =~= es.take(i));
        assert forall|c: PathChange| blocks(es.take(i), old_g, new_g, root).contains(c) implies blocks(
            es.take(i + 1),
            old_g,
            new_g,
            root,
        ).contains(c) by {
            let u = blocks(es.take(i), old_g, new_g, root);
            let j = choose|j: int| 0 <= j < u.len() && u[j] == c;
            assert(blocks(es.take(i + 1), old_g, new_g, root)[j] == c);
        }
    } else {
        assert(es.take(i) =~= es);
    }
}
} // verus!
