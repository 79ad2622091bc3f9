//! The graph of the emulated network as seen from one service.
//!
//! Services and bridges live in a node list that every graph of an
//! experiment shares: a graph refers to them by position, so that a change
//! made to a service through one graph (its links, its byte counter) is seen
//! through every other graph, as the emulation expects.
use vstd::prelude::*;
use crate::assoc::{AssocMap, Key};
use crate::elements::{Service, Link, LinkProps, Path, PathMetrics, Flowu16};
use crate::text::{decimal, push_decimal, string_from_chars};

verus! {

/// All positions in `s` are positions of the node list.
pub open spec fn in_nodes(s: Seq<usize>, n: nat) -> bool {
    forall|i: int| 0 <= i < s.len() ==> #[trigger] s[i] < n
}


/// Graph of the current network state.
pub struct Graph {
    /// Containers by address.
    pub services: AssocMap<u32, usize>,
    /// Bridges by address.
    pub bridges: AssocMap<u32, usize>,
    /// Links by id.
    pub links: AssocMap<u16, Link>,
    /// Paths by id.
    pub paths: AssocMap<u32, Path>,
    pub ip_to_path_id: AssocMap<u32, u32>,
    pub path_id_to_ip: AssocMap<u32, u32>,
    /// Flows reported by other services.
    pub flow_accumulator_u16: AssocMap<String, Flowu16>,
    /// Replicas of each service name.
    pub services_by_name: AssocMap<String, Vec<usize>>,
    pub bridges_by_name: AssocMap<String, Vec<usize>>,
    pub flow_accumulator_keys: AssocMap<String, String>,
    /// Addresses of all containers in the deployment.
    pub ips: Vec<u32>,
    pub link_counter: u16,
    pub path_counter: u32,
    /// The service this graph is seen from.
    pub graph_root: Option<usize>,
    pub removed_bridges: AssocMap<String, Vec<usize>>,
    pub removed_links: Vec<Link>,
    /// Number of links in the whole experiment.
    pub link_count: u32,
    pub name: String,
}

impl Graph {
    /// Every table is well formed and every position refers to the node list
    /// of length `n`.
    pub open spec fn wf(&self, n: nat) -> bool {
        &&& self.services.wf()
        &&& self.bridges.wf()
        &&& self.links.wf()
        &&& self.paths.wf()
        &&& self.ip_to_path_id.wf()
        &&& self.path_id_to_ip.wf()
        &&& self.flow_accumulator_u16.wf()
        &&& self.services_by_name.wf()
        &&& self.bridges_by_name.wf()
        &&& self.flow_accumulator_keys.wf()
        &&& self.removed_bridges.wf()
        &&& forall|k: u32| #[trigger] self.services@.dom().contains(k) ==> self.services@[k] < n
        &&& forall|k: u32| #[trigger] self.bridges@.dom().contains(k) ==> self.bridges@[k] < n
        &&& forall|k: Seq<char>| #[trigger] self.services_by_name@.dom().contains(k) ==> in_nodes(
            self.services_by_name@[k]@,
            n,
        ) && self.services_by_name@[k]@.len() > 0
        &&& forall|k: Seq<char>| #[trigger] self.bridges_by_name@.dom().contains(k) ==> in_nodes(
            self.bridges_by_name@[k]@,
            n,
        ) && self.bridges_by_name@[k]@.len() > 0
        &&& forall|k: Seq<char>| #[trigger] self.removed_bridges@.dom().contains(k) ==> in_nodes(
            self.removed_bridges@[k]@,
            n,
        ) && self.removed_bridges@[k]@.len() > 0
        &&& forall|k: u16| #[trigger] self.links@.dom().contains(k) ==> self.links@[k].id == k
            && self.links@[k].source < n && self.links@[k].destination < n
        &&& forall|i: int|
            0 <= i < self.removed_links@.len() ==> #[trigger] self.removed_links@[i].source < n
                && self.removed_links@[i].destination < n
        &&& forall|k: u32| #[trigger] self.paths@.dom().contains(k) ==> self.paths@[k].id == k
        &&& self.graph_root matches Some(r) ==> r < n
    }

    pub fn new() -> (g: Graph)
        ensures
            g.wf(0),
            g.services@ == Map::<u32, usize>::empty(),
            g.bridges@ == Map::<u32, usize>::empty(),
            g.links@ == Map::<u16, Link>::empty(),
            g.paths@ == Map::<u32, Path>::empty(),
            g.ip_to_path_id@ == Map::<u32, u32>::empty(),
            g.path_id_to_ip@ == Map::<u32, u32>::empty(),
            g.flow_accumulator_u16@ == Map::<Seq<char>, Flowu16>::empty(),
            g.services_by_name@ == Map::<Seq<char>, Vec<usize>>::empty(),
            g.bridges_by_name@ == Map::<Seq<char>, Vec<usize>>::empty(),
            g.flow_accumulator_keys@ == Map::<Seq<char>, String>::empty(),
            g.removed_bridges@ == Map::<Seq<char>, Vec<usize>>::empty(),
            g.services.entries@.len() == 0,
            g.bridges.entries@.len() == 0,
            g.links.entries@.len() == 0,
            g.services_by_name.entries@.len() == 0,
            g.bridges_by_name.entries@.len() == 0,
            g.ips@.len() == 0,
            g.removed_links@.len() == 0,
            g.link_counter == 0,
            g.path_counter == 0,
            g.graph_root is None,
            g.link_count == 0,
            g.name@.len() == 0,
    {
        Graph {
            services: AssocMap::new(),
            bridges: AssocMap::new(),
            links: AssocMap::new(),
            paths: AssocMap::new(),
            ip_to_path_id: AssocMap::new(),
            path_id_to_ip: AssocMap::new(),
            flow_accumulator_u16: AssocMap::new(),
            services_by_name: AssocMap::new(),
            bridges_by_name: AssocMap::new(),
            flow_accumulator_keys: AssocMap::new(),
            ips: Vec::new(),
            link_counter: 0,
            path_counter: 0,
            graph_root: None,
            removed_bridges: AssocMap::new(),
            removed_links: Vec::new(),
            link_count: 0,
            name: String::new(),
        }
    }
}

/// The list of positions under `name`, with `x` appended.
pub open spec fn appended(m: Map<Seq<char>, Vec<usize>>, name: Seq<char>, x: usize) -> Seq<usize> {
    if m.dom().contains(name) {
        m[name]@.push(x)
    } else {
        seq![x]
    }
}

/// Appends `x` to the list kept under `name`, creating the list if needed.
pub fn append_to_group(m: &mut AssocMap<String, Vec<usize>>, name: String, x: usize)
    requires
        old(m).wf(),
    ensures
        final(m).wf(),
        final(m)@.dom() == old(m)@.dom().insert(name@),
        final(m)@[name@]@ == appended(old(m)@, name@, x),
        forall|k: Seq<char>| k != name@ && #[trigger] old(m)@.dom().contains(k) ==> final(m)@[k] == old(m)@[k],
{
    match m.find(&name) {
        Some(i) => {
            let mut v = m.entries[i].1.clone();
            proof {
                m.lemma_pos(i as int);
            }
            assert(v@ =~= m.entries@[i as int].1@);
            v.push(x);
            m.set_value(i, v);
        },
        None => {
            let mut v = Vec::new();
            v.push(x);
            m.insert(name, v);
        },
    }
}

impl Graph {
    /// Adds a container named `hostname`; it is reachable by address only when
    /// `ip` is given.
    pub fn insert_service(
        &mut self,
        nodes: &mut Vec<Service>,
        hostname: String,
        shared: bool,
        reuse: bool,
        replicas: u32,
        ip: Option<u32>,
        paths: Vec<String>,
        script: Option<String>,
        image: Option<String>,
        command: Option<String>,
    )
        requires
            old(self).wf(old(nodes)@.len()),
        ensures
            final(self).wf(final(nodes)@.len()),
            final(nodes)@.len() == old(nodes)@.len() + 1,
            forall|i: int| 0 <= i < old(nodes)@.len() ==> final(nodes)@[i] == old(nodes)@[i],
            ({
                let s = final(nodes)@[old(nodes)@.len() as int];
                &&& s.hostname@ == hostname@
                &&& s.shared == shared
                &&& s.reuse == reuse
                &&& s.replicas == replicas
                &&& s.ip == (match ip {
                    Some(a) => a,
                    None => 0u32,
                })
                &&& s.activepaths == paths
                &&& s.script@ == (match script {
                    Some(t) => t@,
                    None => Seq::<char>::empty(),
                })
                &&& s.image == image
                &&& s.command == command
                &&& s.links@.len() == 0
                &&& !s.supervisor
                &&& s.supervisor_port == 0
                &&& s.last_bytes == 0
                &&& s.replica_id == 0
            }),
            final(self).services_by_name@.dom() == old(self).services_by_name@.dom().insert(hostname@),
            final(self).services_by_name@[hostname@]@ == appended(
                old(self).services_by_name@,
                hostname@,
                old(nodes)@.len() as usize,
            ),
            forall|k: Seq<char>|
                k != hostname@ && #[trigger] old(self).services_by_name@.dom().contains(k)
                    ==> final(self).services_by_name@[k] == old(self).services_by_name@[k],
            final(self).services@ == (match ip {
                Some(a) => old(self).services@.insert(a, old(nodes)@.len() as usize),
                None => old(self).services@,
            }),
            *final(self) == (Graph {
                services: final(self).services,
                services_by_name: final(self).services_by_name,
                ..*old(self)
            }),
    {
        let mut service = Service::new(hostname.clone(), shared, reuse, replicas, image, command);
        match script {
            Some(s) => {
                service.script = s;
            },
            None => {},
        }
        service.set_activepaths(paths);
        let n = nodes.len();
        match ip {
            Some(a) => {
                service.ip = a;
            },
            None => {},
        }
        nodes.push(service);
        append_to_group(&mut self.services_by_name, hostname, n);
        match ip {
            Some(a) => {
                self.services.insert(a, n);
            },
            None => {},
        }
        proof {
            let m = nodes@.len();
            assert forall|k: u32| #[trigger] self.services@.dom().contains(k) implies self.services@[k] < m by {
                if old(self).services@.dom().contains(k) {}
            }
            assert forall|k: Seq<char>| #[trigger] self.services_by_name@.dom().contains(k) implies in_nodes(
                self.services_by_name@[k]@,
                m,
            ) && self.services_by_name@[k]@.len() > 0 by {
                if k != hostname@ {
                    assert(old(self).services_by_name@.dom().contains(k));
                }
            }
            assert forall|k: Seq<char>| #[trigger] self.bridges_by_name@.dom().contains(k) implies in_nodes(
                self.bridges_by_name@[k]@,
                m,
            ) && self.bridges_by_name@[k]@.len() > 0 by {}
            assert forall|k: Seq<char>| #[trigger] self.removed_bridges@.dom().contains(k) implies in_nodes(
                self.removed_bridges@[k]@,
                m,
            ) by {}
        }
    }

    /// Is some bridge reachable at address `ip`?
    pub fn has_bridge_ip(&self, ip: u32) -> (b: bool)
        requires
            self.bridges.wf(),
        ensures
            b == self.bridges@.dom().contains(ip),
    {
        self.bridges.contains_key(&ip)
    }

    /// One step of finding a bridge address: `Ok(ip)` when no bridge has
    /// `ip`, else `Err` with a new address, drawn at random, to try next.
    pub fn bridge_ip_step(&self, ip: u32) -> (r: Result<u32, u32>)
        requires
            self.bridges.wf(),
        ensures
            r is Ok <==> !self.bridges@.dom().contains(ip),
            r matches Ok(x) ==> x == ip,
    {
        if self.has_bridge_ip(ip) {
            Err(random_u32())
        } else {
            Ok(ip)
        }
    }

    /// Adds a bridge named `hostname` at address `ip`.
    pub fn insert_bridge(&mut self, nodes: &mut Vec<Service>, hostname: String, ip: u32)
        requires
            old(self).wf(old(nodes)@.len()),
        ensures
            final(self).wf(final(nodes)@.len()),
            final(nodes)@.len() == old(nodes)@.len() + 1,
            forall|i: int| 0 <= i < old(nodes)@.len() ==> final(nodes)@[i] == old(nodes)@[i],
            ({
                let s = final(nodes)@[old(nodes)@.len() as int];
                &&& s.hostname@ == hostname@
                &&& !s.shared
                &&& !s.reuse
                &&& s.replicas == 0
                &&& s.ip == ip
                &&& s.links@.len() == 0
                &&& s.activepaths@.len() == 0
                &&& !s.supervisor
                &&& s.image is None
                &&& s.command is None
            }),
            final(self).bridges_by_name@.dom() == old(self).bridges_by_name@.dom().insert(hostname@),
            final(self).bridges_by_name@[hostname@]@ == appended(
                old(self).bridges_by_name@,
                hostname@,
                old(nodes)@.len() as usize,
            ),
            forall|k: Seq<char>|
                k != hostname@ && #[trigger] old(self).bridges_by_name@.dom().contains(k)
                    ==> final(self).bridges_by_name@[k] == old(self).bridges_by_name@[k],
            final(self).bridges@ == old(self).bridges@.insert(ip, old(nodes)@.len() as usize),
            final(self).services == old(self).services,
            final(self).services_by_name == old(self).services_by_name,
            final(self).links == old(self).links,
            final(self).paths == old(self).paths,
            final(self).graph_root == old(self).graph_root,
            final(self).link_counter == old(self).link_counter,
    {
        let mut bridge = Service::new(hostname.clone(), false, false, 0, None, None);
        bridge.ip = ip;
        let n = nodes.len();
        nodes.push(bridge);
        append_to_group(&mut self.bridges_by_name, hostname, n);
        self.bridges.insert(ip, n);
        proof {
            let m = nodes@.len();
            assert forall|k: u32| #[trigger] self.bridges@.dom().contains(k) implies self.bridges@[k] < m by {
                if old(self).bridges@.dom().contains(k) {}
            }
            assert forall|k: Seq<char>| #[trigger] self.bridges_by_name@.dom().contains(k) implies in_nodes(
                self.bridges_by_name@[k]@,
                m,
            ) && self.bridges_by_name@[k]@.len() > 0 by {
                if k != hostname@ {
                    assert(old(self).bridges_by_name@.dom().contains(k));
                }
            }
            assert forall|k: Seq<char>| #[trigger] self.services_by_name@.dom().contains(k) implies in_nodes(
                self.services_by_name@[k]@,
                m,
            ) && self.services_by_name@[k]@.len() > 0 by {}
            assert forall|k: Seq<char>| #[trigger] self.removed_bridges@.dom().contains(k) implies in_nodes(
                self.removed_bridges@[k]@,
                m,
            ) by {}
        }
    }

    /// Marks the most recently added replica named `name` as the dashboard.
    /// Returns false, changing nothing, when there is no service of that name.
    pub fn set_dashboard(&mut self, nodes: &mut Vec<Service>, name: &String, supervisor_port: u32) -> (found: bool)
        requires
            old(self).wf(old(nodes)@.len()),
        ensures
            *final(self) == *old(self),
            found == old(self).services_by_name@.dom().contains(name@),
            final(nodes)@.len() == old(nodes)@.len(),
            !found ==> final(nodes)@ == old(nodes)@,
            found ==> {
                let g = old(self).services_by_name@[name@]@;
                let x = g[g.len() - 1] as int;
                &&& final(nodes)@ == old(nodes)@.update(
                    x,
                    Service { supervisor: true, supervisor_port, ..old(nodes)@[x] },
                )
            },
    {
        match self.services_by_name.get(name) {
            Some(group) => {
                let x = group[group.len() - 1];
                nodes[x].supervisor = true;
                nodes[x].supervisor_port = supervisor_port;
                true
            },
            None => false,
        }
    }
}


/// Ids that `insert_link` gives, counting from `c`, to the links it creates
/// out of node `x`: a block of `d` consecutive ids for every occurrence of
/// `x` among the sources `srcs`.
pub open spec fn outgoing(srcs: Seq<usize>, d: nat, c: int, x: usize) -> Seq<u16>
    decreases srcs.len(),
{
    if srcs.len() == 0 {
        seq![]
    } else {
        let i = srcs.len() - 1;
        outgoing(srcs.drop_last(), d, c, x) + (if srcs[i] == x {
            Seq::new(d, |j: int| (c + i * d + j) as u16)
        } else {
            seq![]
        })
    }
}

/// The links `insert_link` creates from the first `rows` sources are in `links`.
pub open spec fn grid_links(
    links: Map<u16, Link>,
    c: int,
    props: LinkProps,
    srcs: Seq<usize>,
    dsts: Seq<usize>,
    rows: int,
) -> bool {
    forall|a: int, b: int|
        0 <= a < rows && 0 <= b < dsts.len() ==> #[trigger] links.dom().contains(
            grid_id(c, a, dsts.len() as int, b),
        ) && links[grid_id(c, a, dsts.len() as int, b)] == (Link {
            id: grid_id(c, a, dsts.len() as int, b),
            props,
            source: srcs[a],
            destination: dsts[b],
        })
}

/// Id of the `j`-th link from the `i`-th source, counting from `c`.
pub open spec fn grid_id(c: int, i: int, d: int, j: int) -> u16 {
    (c + i * d + j) as u16
}

proof fn lemma_grid(c: int, i: int, d: int, j: int, n: int)
    requires
        0 <= c,
        0 <= i < n,
        0 <= j < d,
        c + n * d <= u16::MAX,
    ensures
        grid_id(c, i, d, j) as int == c + i * d + j,
        c + i * d + j < c + n * d,
        c <= c + i * d + j,
{
    lemma_mul_step(i, d, j, n);
}

proof fn lemma_row(i: int, d: int, n: int)
    requires
        0 <= i < n,
        0 <= d,
    ensures
        (i + 1) * d == i * d + d,
        (i + 1) * d <= n * d,
        i * d >= 0,
{
    assert((i + 1) * d <= n * d) by (nonlinear_arith)
        requires
            0 <= i < n,
            0 <= d,
    ;
    assert((i + 1) * d == i * d + d) by (nonlinear_arith);
    assert(i * d >= 0) by (nonlinear_arith)
        requires
            0 <= i,
            0 <= d,
    ;
}

proof fn lemma_mul_step(i: int, d: int, j: int, n: int)
    requires
        0 <= i < n,
        0 <= j < d,
    ensures
        0 <= i * d + j < n * d,
        (i + 1) * d == i * d + d,
        i * d >= 0,
{
    assert(i * d + j < (i + 1) * d) by (nonlinear_arith)
        requires
            0 <= j < d,
    ;
    assert((i + 1) * d <= n * d) by (nonlinear_arith)
        requires
            0 <= i < n,
            0 <= d,
    ;
    assert((i + 1) * d == i * d + d) by (nonlinear_arith);
    assert(i * d >= 0) by (nonlinear_arith)
        requires
            0 <= i,
            0 <= d,
    ;
}

/// `r` and `n1` are `g` and `n0` after `insert_link(props, source,
/// destination)`: links numbered from the link counter on, row by row,
/// from every element named `source` to every element named
/// `destination`, each attached to its source.
pub open spec fn link_inserted(
    r: Graph,
    g: Graph,
    n1: Seq<Service>,
    n0: Seq<Service>,
    props: LinkProps,
    source: Seq<char>,
    destination: Seq<char>,
) -> bool {
    let srcs = g.nodes_named(source);
    let dsts = g.nodes_named(destination);
    let d = dsts.len();
    let c = g.link_counter as int;
    &&& r.wf(n1.len())
    &&& n1.len() == n0.len()
    &&& r.link_counter == c + srcs.len() * d
    &&& forall|x: int|
        0 <= x < n0.len() ==> Service::same_but_links(#[trigger] n1[x], n0[x]) && n1[x].links@ == n0[x].links@
            + outgoing(srcs, d, c, x as usize)
    &&& grid_links(r.links@, c, props, srcs, dsts, srcs.len() as int)
    &&& forall|k: u16| #[trigger] r.links@.dom().contains(k) <==> g.links@.dom().contains(k) || (c <= k < c + srcs.len() * d)
    &&& forall|k: u16|
        #![trigger g.links@[k]]
        g.links@.dom().contains(k) && !(c <= k < c + srcs.len() * d) ==> r.links@[k] == g.links@[k]
    &&& r.services == g.services
    &&& r.bridges == g.bridges
    &&& r.services_by_name == g.services_by_name
    &&& r.bridges_by_name == g.bridges_by_name
    &&& r.paths == g.paths
    &&& r.ip_to_path_id == g.ip_to_path_id
    &&& r.path_id_to_ip == g.path_id_to_ip
    &&& r.removed_links == g.removed_links
    &&& r.removed_bridges == g.removed_bridges
    &&& r.graph_root == g.graph_root
    &&& r.path_counter == g.path_counter
}

impl Graph {
    /// The replicas of the service named `name`, or else the bridges of that name.
    pub open spec fn nodes_named(&self, name: Seq<char>) -> Seq<usize> {
        if self.services_by_name@.dom().contains(name) {
            self.services_by_name@[name]@
        } else {
            self.bridges_by_name@[name]@
        }
    }

    pub open spec fn has_name(&self, name: Seq<char>) -> bool {
        self.services_by_name@.dom().contains(name) || self.bridges_by_name@.dom().contains(name)
    }

    /// The replicas of the service named `name`, if any.
    pub fn get_service_nodes(&self, name: &String) -> (r: Option<Vec<usize>>)
        requires
            self.wf(0) || self.services_by_name.wf(),
        ensures
            r is None <==> !self.services_by_name@.dom().contains(name@),
            r matches Some(v) ==> v@ == self.services_by_name@[name@]@,
    {
        match self.services_by_name.get(name) {
            Some(v) => Some(v.clone()),
            None => None,
        }
    }

    /// The bridges named `name`, if any.
    pub fn get_bridge_nodes(&self, name: &String) -> (r: Option<Vec<usize>>)
        requires
            self.bridges_by_name.wf(),
        ensures
            r is None <==> !self.bridges_by_name@.dom().contains(name@),
            r matches Some(v) ==> v@ == self.bridges_by_name@[name@]@,
    {
        match self.bridges_by_name.get(name) {
            Some(v) => Some(v.clone()),
            None => None,
        }
    }

    /// The services named `name`, or else the bridges named `name`.
    pub fn get_nodes(&self, name: &String) -> (r: Vec<usize>)
        requires
            self.services_by_name.wf(),
            self.bridges_by_name.wf(),
            self.has_name(name@),
        ensures
            r@ == self.nodes_named(name@),
    {
        match self.get_service_nodes(name) {
            Some(v) => v,
            None => {
                let b = self.get_bridge_nodes(name);
                b.unwrap()
            },
        }
    }

    /// Creates a link with properties `props` from every element named
    /// `source` to every element named `destination`, numbering them from
    /// the link counter on, and attaches each to its source element.
    pub fn insert_link(&mut self, nodes: &mut Vec<Service>, props: LinkProps, source: &String, destination: &String)
        requires
            old(self).wf(old(nodes)@.len()),
            old(self).has_name(source@),
            old(self).has_name(destination@),
            old(self).link_counter + old(self).nodes_named(source@).len() * old(self).nodes_named(
                destination@,
            ).len() <= u16::MAX,
        ensures
            link_inserted(*final(self), *old(self), final(nodes)@, old(nodes)@, props, source@, destination@),
    {
        let srcs = self.get_nodes(source);
        let dsts = self.get_nodes(destination);
        let ghost c = self.link_counter as int;
        let ghost d = dsts@.len();
        let nn = nodes.len();
        let ghost n = nodes@.len();
        let ghost old_links = self.links@;
        let ghost old_nodes = nodes@;
        let mut i: usize = 0;
        while i < srcs.len()
            invariant
                self.wf(n),
                nodes@.len() == n,
                n == nn,
                c == old(self).link_counter as int,
                srcs@ == old(self).nodes_named(source@),
                dsts@ == old(self).nodes_named(destination@),
                d == dsts@.len(),
                in_nodes(srcs@, n),
                in_nodes(dsts@, n),
                i <= srcs@.len(),
                c + srcs@.len() * d <= u16::MAX,
                self.link_counter == c + i * d,
                forall|x: int|
                    0 <= x < n ==> Service::same_but_links(#[trigger] nodes@[x], old_nodes[x])
                        && nodes@[x].links@ == old_nodes[x].links@ + outgoing(
                        srcs@.take(i as int),
                        d,
                        c,
                        x as usize,
                    ),
                grid_links(self.links@, c, props, srcs@, dsts@, i as int),
                forall|k: u16| #[trigger]
                    self.links@.dom().contains(k) <==> old_links.dom().contains(k) || (c <= k < c + i * d),
                forall|k: u16|
                    #![trigger old_links[k]]
                    old_links.dom().contains(k) && !(c <= k < c + i * d) ==> self.links@[k] == old_links[k],
                self.services == old(self).services,
                self.bridges == old(self).bridges,
                self.services_by_name == old(self).services_by_name,
                self.bridges_by_name == old(self).bridges_by_name,
                self.paths == old(self).paths,
                self.ip_to_path_id == old(self).ip_to_path_id,
                self.path_id_to_ip == old(self).path_id_to_ip,
                self.removed_links == old(self).removed_links,
                self.removed_bridges == old(self).removed_bridges,
                self.graph_root == old(self).graph_root,
                self.path_counter == old(self).path_counter,
            decreases srcs@.len() - i,
        {
            let s = srcs[i];
            let ghost nodes_i = nodes@;
            let ghost links_i = self.links@;
            proof {
                lemma_row(i as int, d as int, srcs@.len() as int);
            }
            let mut j: usize = 0;
            while j < dsts.len()
                invariant
                    self.wf(n),
                    nodes@.len() == n,
                    n == nn,
                    c == old(self).link_counter as int,
                    srcs@ == old(self).nodes_named(source@),
                    dsts@ == old(self).nodes_named(destination@),
                    d == dsts@.len(),
                    in_nodes(srcs@, n),
                    in_nodes(dsts@, n),
                    i < srcs@.len(),
                    s == srcs@[i as int],
                    j <= d,
                    c + srcs@.len() * d <= u16::MAX,
                    c + (i + 1) * d <= c + srcs@.len() * d,
                    (i + 1) * d == i * d + d,
                    i * d >= 0,
                    self.link_counter == c + i * d + j,
                    forall|x: int|
                        0 <= x < n && x != s ==> #[trigger] nodes@[x] == nodes_i[x],
                    Service::same_but_links(nodes@[s as int], nodes_i[s as int]),
                    nodes@[s as int].links@ == nodes_i[s as int].links@ + Seq::new(
                        j as nat,
                        |b: int| (c + i * d + b) as u16,
                    ),
                    forall|b: int|
                        0 <= b < j ==> {
                            &&& #[trigger] self.links@.dom().contains(grid_id(c, i as int, d as int, b as int))
                            &&& self.links@[grid_id(c, i as int, d as int, b as int)] == Link { id: grid_id(c, i as int, d as int, b as int), props, source: s, destination: dsts@[b] }
                        },
                    forall|k: u16| #[trigger]
                        self.links@.dom().contains(k) <==> links_i.dom().contains(k) || (c + i * d <= k
                            < c + i * d + j),
                    forall|k: u16|
                        #![trigger links_i[k]]
                        links_i.dom().contains(k) && !(c + i * d <= k < c + i * d + j) ==> self.links@[k]
                            == links_i[k],
                    self.services == old(self).services,
                    self.bridges == old(self).bridges,
                    self.services_by_name == old(self).services_by_name,
                    self.bridges_by_name == old(self).bridges_by_name,
                    self.paths == old(self).paths,
                    self.ip_to_path_id == old(self).ip_to_path_id,
                    self.path_id_to_ip == old(self).path_id_to_ip,
                    self.removed_links == old(self).removed_links,
                    self.removed_bridges == old(self).removed_bridges,
                    self.graph_root == old(self).graph_root,
                    self.path_counter == old(self).path_counter,
                decreases d - j,
            {
                let id = self.link_counter;
                let t = dsts[j];
                let link = Link::new(id, props, s, t);
                let ghost links_j = self.links@;
                nodes[s].attach_link(id);
                self.links.insert(id, link);
                self.link_counter = self.link_counter + 1;
                proof {
                    assert(id == grid_id(c, i as int, d as int, j as int));
                    assert forall|b: int| 0 <= b < j + 1 implies {
                        &&& #[trigger] self.links@.dom().contains(grid_id(c, i as int, d as int, b))
                        &&& self.links@[grid_id(c, i as int, d as int, b)] == Link {
                            id: grid_id(c, i as int, d as int, b),
                            props,
                            source: s,
                            destination: dsts@[b],
                        }
                    } by {
                        lemma_grid(c, i as int, d as int, b, srcs@.len() as int);
                        lemma_grid(c, i as int, d as int, j as int, srcs@.len() as int);
                        if b < j {
                            assert(grid_id(c, i as int, d as int, b) != id);
                            assert(links_j.dom().contains(grid_id(c, i as int, d as int, b)));
                        }
                    }
                    assert(nodes@[s as int].links@ =~= nodes_i[s as int].links@ + Seq::new(
                        (j + 1) as nat,
                        |b: int| (c + i * d + b) as u16,
                    ));
                    assert forall|k: u16| #[trigger] self.links@.dom().contains(k) implies self.links@[k].id
                        == k && self.links@[k].source < n && self.links@[k].destination < n by {
                        if k != id {
                            assert(links_i.dom().contains(k) || (c + i * d <= k < c + i * d + j));
                        }
                    }
                }
                j = j + 1;
            }
            proof {
                let ti = srcs@.take(i as int);
                let ti1 = srcs@.take(i + 1);
                assert(ti1.drop_last() =~= ti);
                assert forall|x: int|
                    0 <= x < n implies Service::same_but_links(#[trigger] nodes@[x], old_nodes[x])
                        && nodes@[x].links@ == old_nodes[x].links@ + outgoing(ti1, d, c, x as usize) by {
                    assert(outgoing(ti1, d, c, x as usize) == outgoing(ti, d, c, x as usize) + (if ti1[i as int]
                        == x as usize {
                        Seq::new(d, |b: int| (c + i * d + b) as u16)
                    } else {
                        seq![]
                    }));
                    assert(nodes_i[x].links@ == old_nodes[x].links@ + outgoing(ti, d, c, x as usize));
                    assert(ti1[i as int] == s);
                    if x == s {
                        assert(nodes@[x].links@ =~= old_nodes[x].links@ + outgoing(ti1, d, c, x as usize));
                    } else {
                        assert(nodes@[x] == nodes_i[x]);
                        assert((x as usize) != s);
                        assert(outgoing(ti1, d, c, x as usize) =~= outgoing(ti, d, c, x as usize));
                        assert(nodes@[x].links@ =~= old_nodes[x].links@ + outgoing(ti1, d, c, x as usize));
                    }
                }
                assert forall|a: int, b: int|
                    0 <= a < i + 1 && 0 <= b < d implies #[trigger] self.links@.dom().contains(grid_id(c, a, d as int, b))
                        && self.links@[grid_id(c, a, d as int, b)] == (Link { id: grid_id(c, a, d as int, b), props, source: srcs@[a], destination: dsts@[b] }) by {
                    lemma_mul_step(a, d as int, b, srcs@.len() as int);
                    lemma_grid(c, a, d as int, b as int, srcs@.len() as int);
                    if a == i {
                        assert(self.links@.dom().contains(grid_id(c, i as int, d as int, b as int)));
                    } else {
                        lemma_mul_step(a, d as int, b, i as int);
                        assert(links_i.dom().contains(grid_id(c, a, d as int, b)));
                        assert(self.links@[grid_id(c, a, d as int, b)] == links_i[grid_id(c, a, d as int, b)]);
                    }
                }
                assert(grid_links(self.links@, c, props, srcs@, dsts@, i + 1));
                assert forall|k: u16|
                    #![trigger old_links[k]]
                    old_links.dom().contains(k) && !(c <= k < c + (i + 1) * d) implies self.links@[k]
                        == old_links[k] by {
                    assert(links_i[k] == old_links[k]);
                }
            }
            i = i + 1;
        }
        proof {
            assert(srcs@.take(srcs@.len() as int) =~= srcs@);
        }
    }
}


/// Key under which the flow through links `first .. last` is accumulated.
pub open spec fn flow_key(first: u16, last: u16) -> Seq<char> {
    decimal(first as nat) + seq![':'] + decimal(last as nat)
}

/// The map `m` after inserting `keys[i] -> vals[i]` for each `i` in order.
pub open spec fn insert_all<K, V>(m: Map<K, V>, keys: Seq<K>, vals: Seq<V>) -> Map<K, V>
    decreases keys.len(),
{
    if keys.len() == 0 {
        m
    } else {
        insert_all(m, keys.drop_last(), vals).insert(keys.last(), vals[keys.len() - 1])
    }
}

/// The last position of `x` in `s`, or -1.
pub open spec fn last_index_of<T>(s: Seq<T>, x: T) -> int
    decreases s.len(),
{
    if s.len() == 0 {
        -1
    } else if s.last() == x {
        s.len() - 1
    } else {
        last_index_of(s.drop_last(), x)
    }
}

pub proof fn lemma_last_index_of<T>(s: Seq<T>, x: T)
    ensures
        -1 <= last_index_of(s, x) < s.len(),
        last_index_of(s, x) >= 0 ==> s[last_index_of(s, x)] == x,
        last_index_of(s, x) == -1 <==> !s.contains(x),
    decreases s.len(),
{
    if s.len() > 0 {
        lemma_last_index_of(s.drop_last(), x);
        if s.last() != x {
            if s.contains(x) {
                let j = choose|j: int| 0 <= j < s.len() && s[j] == x;
                assert(s.drop_last()[j] == x);
            }
            if s.drop_last().contains(x) {
                let j = choose|j: int| 0 <= j < s.drop_last().len() && s.drop_last()[j] == x;
                assert(s[j] == x);
            }
        }
    }
}

impl Graph {
    pub fn insert_path(&mut self, id: u32, links: Vec<u16>)
        requires
            old(self).wf(0) || old(self).paths.wf(),
            old(self).paths.wf(),
        ensures
            final(self).paths.wf(),
            final(self).paths@ == old(self).paths@.insert(id, final(self).paths@[id]),
            final(self).paths@[id].id == id,
            final(self).paths@[id].links == links,
            final(self).paths@[id].metrics == PathMetrics::zero(),
            final(self).paths@[id].start@.len() == 0,
            final(self).paths@[id].finish@.len() == 0,
            final(self).paths@[id].last_cycle_change == 0,
            *final(self) == (Graph { paths: final(self).paths, ..*old(self) }),
    {
        let path = Path::new(id, links);
        self.paths.insert(id, path);
    }

    /// The path with id `id`, if any.
    pub fn get_path(&self, id: u32) -> (r: Option<&Path>)
        requires
            self.paths.wf(),
        ensures
            r is None <==> !self.paths@.dom().contains(id),
            r matches Some(p) ==> *p == self.paths@[id],
    {
        self.paths.get(&id)
    }

    /// Records that the path with id `id` leads to address `ip`, both ways.
    pub fn insert_ip_to_path(&mut self, ip: u32, id: u32)
        requires
            old(self).ip_to_path_id.wf(),
            old(self).path_id_to_ip.wf(),
        ensures
            final(self).ip_to_path_id.wf(),
            final(self).path_id_to_ip.wf(),
            final(self).ip_to_path_id@ == old(self).ip_to_path_id@.insert(ip, id),
            final(self).path_id_to_ip@ == old(self).path_id_to_ip@.insert(id, ip),
            *final(self) == (Graph {
                ip_to_path_id: final(self).ip_to_path_id,
                path_id_to_ip: final(self).path_id_to_ip,
                ..*old(self)
            }),
    {
        self.ip_to_path_id.insert(ip, id);
        self.path_id_to_ip.insert(id, ip);
    }

    pub fn get_ip_from_path_id(&self, id: u32) -> (ip: u32)
        requires
            self.path_id_to_ip.wf(),
            self.path_id_to_ip@.dom().contains(id),
        ensures
            ip == self.path_id_to_ip@[id],
    {
        *self.path_id_to_ip.get(&id).unwrap()
    }

    pub fn get_path_id_from_ip(&self, ip: u32) -> (r: Option<u32>)
        requires
            self.ip_to_path_id.wf(),
        ensures
            r == (if self.ip_to_path_id@.dom().contains(ip) {
                Some(self.ip_to_path_id@[ip])
            } else {
                None
            }),
    {
        match self.ip_to_path_id.get(&ip) {
            Some(id) => Some(*id),
            None => None,
        }
    }

    /// Bytes last seen sent to the container at `ip`, or 0.
    pub fn get_lastbytes(&self, nodes: &Vec<Service>, ip: u32) -> (b: u32)
        requires
            self.wf(nodes@.len()),
        ensures
            b == (if self.services@.dom().contains(ip) {
                nodes@[self.services@[ip] as int].last_bytes
            } else {
                0
            }),
    {
        match self.services.get(&ip) {
            Some(x) => nodes[*x].last_bytes,
            None => 0,
        }
    }

    /// Records the bytes seen sent to the container at `ip`, if it is known.
    pub fn set_lastbytes(&self, nodes: &mut Vec<Service>, ip: u32, last_bytes: u32)
        requires
            self.wf(old(nodes)@.len()),
        ensures
            final(nodes)@ == (if self.services@.dom().contains(ip) {
                old(nodes)@.update(
                    self.services@[ip] as int,
                    Service { last_bytes, ..old(nodes)@[self.services@[ip] as int] },
                )
            } else {
                old(nodes)@
            }),
    {
        match self.services.get(&ip) {
            Some(x) => {
                let x = *x;
                nodes[x].last_bytes = last_bytes;
            },
            None => {},
        }
    }

    /// Accumulates a flow reported by a peer: `ids[..link_count]` are the
    /// links it went through.  A flow already known by its first and last
    /// link gets the new bandwidth and becomes fresh again.
    pub fn collect_flow_u16(&mut self, bandwidth: u32, link_count: u16, ids: Vec<u16>)
        requires
            old(self).flow_accumulator_u16.wf(),
            old(self).flow_accumulator_keys.wf(),
            1 <= link_count <= ids@.len(),
        ensures
            final(self).flow_accumulator_u16.wf(),
            final(self).flow_accumulator_keys.wf(),
            ({
                let key = flow_key(ids@[0], ids@[link_count - 1]);
                let old_flows = old(self).flow_accumulator_u16@;
                if old_flows.dom().contains(key) {
                    &&& final(self).flow_accumulator_u16@.dom() == old_flows.dom()
                    &&& forall|k: Seq<char>| k != key && #[trigger] old_flows.dom().contains(k)
                        ==> final(self).flow_accumulator_u16@[k] == old_flows[k]
                    &&& final(self).flow_accumulator_u16@[key].bandwidth == bandwidth
                    &&& final(self).flow_accumulator_u16@[key].age == 0
                    &&& final(self).flow_accumulator_u16@[key].link_indices@
                        == old_flows[key].link_indices@
                    &&& final(self).flow_accumulator_keys == old(self).flow_accumulator_keys
                } else {
                    &&& final(self).flow_accumulator_u16@ == old_flows.insert(
                        key,
                        Flowu16 { bandwidth, link_indices: ids, age: 0 },
                    )
                    &&& final(self).flow_accumulator_keys@.dom()
                        == old(self).flow_accumulator_keys@.dom().insert(key)
                    &&& final(self).flow_accumulator_keys@[key]@.len() == 0
                }
            }),
            *final(self) == (Graph {
                flow_accumulator_u16: final(self).flow_accumulator_u16,
                flow_accumulator_keys: final(self).flow_accumulator_keys,
                ..*old(self)
            }),
    {
        let mut chars: Vec<char> = Vec::new();
        push_decimal(ids[0] as u64, &mut chars);
        chars.push(':');
        push_decimal(ids[(link_count - 1) as usize] as u64, &mut chars);
        let key = string_from_chars(chars.as_slice());
        assert(key@ =~= flow_key(ids@[0], ids@[link_count - 1]));
        match self.flow_accumulator_u16.find(&key) {
            Some(i) => {
                let link_indices = self.flow_accumulator_u16.entries[i].1.link_indices.clone();
                proof {
                    self.flow_accumulator_u16.lemma_pos(i as int);
                }
                let flow = Flowu16 { bandwidth, link_indices, age: 0 };
                self.flow_accumulator_u16.set_value(i, flow);
            },
            None => {
                let keycopy = key.clone();
                self.flow_accumulator_u16.insert(key, Flowu16::new(bandwidth, ids));
                self.flow_accumulator_keys.insert(keycopy, String::new());
            },
        }
    }

    /// Makes the container at `self_addr` the root of the graph.
    pub fn set_graph_root(&mut self, self_addr: u32) -> (r: Result<(), ()>)
        requires
            old(self).services.wf(),
        ensures
            r is Ok <==> old(self).services@.dom().contains(self_addr),
            r is Ok ==> *final(self) == (Graph {
                graph_root: Some(old(self).services@[self_addr]),
                ..*old(self)
            }),
            r is Err ==> *final(self) == *old(self),
    {
        match self.services.get(&self_addr) {
            Some(x) => {
                self.graph_root = Some(*x);
                Ok(())
            },
            None => Err(()),
        }
    }

    /// The hostname of the root, which also becomes the graph's name.
    pub fn get_name(&mut self, nodes: &Vec<Service>) -> (name: String)
        requires
            old(self).wf(nodes@.len()),
            old(self).graph_root is Some,
        ensures
            name@ == nodes@[old(self).graph_root->0 as int].hostname@,
            *final(self) == (Graph { name: final(self).name, ..*old(self) }),
            final(self).name@ == name@,
    {
        let r = self.graph_root.unwrap();
        let name = nodes[r].hostname.clone();
        self.name = name.clone();
        name
    }

    /// Gives the replicas named `name`, in order, the addresses `addrs` and
    /// their replica numbers, and registers them by address.  With `record`,
    /// the addresses are also appended to the deployment's address list.
    pub fn assign_addresses(
        &mut self,
        nodes: &mut Vec<Service>,
        name: &String,
        addrs: &Vec<u32>,
        record: bool,
    )
        requires
            old(self).wf(old(nodes)@.len()),
            old(self).services_by_name@.dom().contains(name@),
            old(self).services_by_name@[name@]@.len() == addrs@.len(),
        ensures
            final(self).wf(final(nodes)@.len()),
            final(nodes)@.len() == old(nodes)@.len(),
            ({
                let g = old(self).services_by_name@[name@]@;
                &&& final(self).services@ == insert_all(old(self).services@, addrs@, g)
                &&& forall|x: int|
                    0 <= x < old(nodes)@.len() ==> #[trigger] final(nodes)@[x] == (if g.contains(
                        x as usize,
                    ) {
                        Service {
                            ip: addrs@[last_index_of(g, x as usize)],
                            replica_id: last_index_of(g, x as usize) as usize,
                            ..old(nodes)@[x]
                        }
                    } else {
                        old(nodes)@[x]
                    })
                &&& final(self).ips@ == (if record {
                    old(self).ips@ + addrs@
                } else {
                    old(self).ips@
                })
            }),
            *final(self) == (Graph { services: final(self).services, ips: final(self).ips, ..*old(self) }),
    {
        let group = self.services_by_name.get(name).unwrap().clone();
        let ghost g = group@;
        let nn = nodes.len();
        let ghost n = nodes@.len();
        let ghost old_nodes = nodes@;
        let mut i: usize = 0;
        while i < group.len()
            invariant
                group@ == g,
                g == old(self).services_by_name@[name@]@,
                g.len() == addrs@.len(),
                in_nodes(g, n),
                nodes@.len() == n,
                n == nn,
                i <= g.len(),
                self.wf(n),
                self.services@ == insert_all(old(self).services@, addrs@.take(i as int), g),
                forall|x: int|
                    0 <= x < n ==> #[trigger] nodes@[x] == (if g.take(i as int).contains(x as usize) {
                        Service {
                            ip: addrs@[last_index_of(g.take(i as int), x as usize)],
                            replica_id: last_index_of(g.take(i as int), x as usize) as usize,
                            ..old_nodes[x]
                        }
                    } else {
                        old_nodes[x]
                    }),
                self.ips@ == (if record {
                    old(self).ips@ + addrs@.take(i as int)
                } else {
                    old(self).ips@
                }),
                *self == (Graph { services: self.services, ips: self.ips, ..*old(self) }),
            decreases g.len() - i,
        {
            let x = group[i];
            let a = addrs[i];
            let ghost prev = nodes@;
            nodes[x].ip = a;
            nodes[x].replica_id = i;
            self.services.insert(a, x);
            if record {
                self.ips.push(a);
            }
            proof {
                let t = g.take(i as int);
                let t1 = g.take(i + 1);
                assert(t1.drop_last() =~= t);
                assert(addrs@.take(i + 1).drop_last() =~= addrs@.take(i as int));
                assert(self.services@ == insert_all(old(self).services@, addrs@.take(i + 1), g));
                assert forall|y: int| 0 <= y < n implies #[trigger] nodes@[y] == (if t1.contains(y as usize) {
                    Service {
                        ip: addrs@[last_index_of(t1, y as usize)],
                        replica_id: last_index_of(t1, y as usize) as usize,
                        ..old_nodes[y]
                    }
                } else {
                    old_nodes[y]
                }) by {
                    lemma_last_index_of(t, y as usize);
                    lemma_last_index_of(t1, y as usize);
                    assert(t1[i as int] == x);
                    if y == x {
                        assert(t1.contains(y as usize));
                        assert(last_index_of(t1, x) == i);
                    } else {
                        assert(nodes@[y] == prev[y]);
                        assert(last_index_of(t1, y as usize) == last_index_of(t, y as usize));
                        assert(t1.contains(y as usize) == t.contains(y as usize)) by {
                            assert(t1[i as int] == x);
                            assert((y as usize) != x);
                            if t1.contains(y as usize) {
                                let j = choose|j: int| 0 <= j < t1.len() && t1[j] == y as usize;
                                assert(j != i);
                                assert(t[j] == y as usize);
                            }
                            if t.contains(y as usize) {
                                let j = choose|j: int| 0 <= j < t.len() && t[j] == y as usize;
                                assert(t1[j] == y as usize);
                            }
                        }
                    }
                }
                if record {
                    assert(self.ips@ =~= old(self).ips@ + addrs@.take(i + 1));
                }
                assert forall|k: u32| #[trigger] self.services@.dom().contains(k) implies self.services@[k] < n by {
                    if k != a {
                        assert(old(self).services@.dom().contains(k) || true);
                    }
                }
            }
            i = i + 1;
        }
        proof {
            assert(g.take(g.len() as int) =~= g);
            assert(addrs@.take(g.len() as int) =~= addrs@);
        }
    }
}


/// Positions, among the entries `es`, of the nodes whose hostname is `name`,
/// in entry order.
pub open spec fn named_in(es: Seq<(u32, usize)>, nodes: Seq<Service>, name: Seq<char>) -> Seq<usize>
    decreases es.len(),
{
    if es.len() == 0 {
        seq![]
    } else {
        named_in(es.drop_last(), nodes, name) + (if nodes[es.last().1 as int].hostname@ == name {
            seq![es.last().1]
        } else {
            seq![]
        })
    }
}

/// The hostnames of the nodes among the entries `es`.
pub open spec fn names_in(es: Seq<(u32, usize)>, nodes: Seq<Service>) -> Set<Seq<char>> {
    Set::new(|name: Seq<char>| exists|i: int| 0 <= i < es.len() && #[trigger] nodes[es[i].1 as int].hostname@ == name)
}

/// Groups of `m` after appending, entry by entry, each node of `es` to the
/// group of its hostname.
pub open spec fn regrouped(
    m: Map<Seq<char>, Vec<usize>>,
    es: Seq<(u32, usize)>,
    nodes: Seq<Service>,
    name: Seq<char>,
) -> Seq<usize> {
    (if m.dom().contains(name) {
        m[name]@
    } else {
        seq![]
    }) + named_in(es, nodes, name)
}

/// Links keyed by their id, later ones replacing earlier ones.
pub open spec fn links_by_id(s: Seq<Link>) -> Map<u16, Link>
    decreases s.len(),
{
    if s.len() == 0 {
        Map::empty()
    } else {
        links_by_id(s.drop_last()).insert(s.last().id, s.last())
    }
}

/// The groups of `src` appended, node by node, to the groups of `dst`.
fn regroup(
    dst: &mut AssocMap<String, Vec<usize>>,
    src: &AssocMap<u32, usize>,
    nodes: &Vec<Service>,
)
    requires
        old(dst).wf(),
        src.wf(),
        forall|k: Seq<char>| #[trigger] old(dst)@.dom().contains(k) ==> in_nodes(old(dst)@[k]@, nodes@.len())
            && old(dst)@[k]@.len() > 0,
        forall|i: int| 0 <= i < src.entries@.len() ==> #[trigger] src.entries@[i].1 < nodes@.len(),
    ensures
        final(dst).wf(),
        final(dst)@.dom() == old(dst)@.dom() + names_in(src.entries@, nodes@),
        forall|k: Seq<char>| #[trigger] final(dst)@.dom().contains(k) ==> final(dst)@[k]@ == regrouped(
            old(dst)@,
            src.entries@,
            nodes@,
            k,
        ),
        forall|k: Seq<char>| #[trigger] final(dst)@.dom().contains(k) ==> in_nodes(final(dst)@[k]@, nodes@.len())
            && final(dst)@[k]@.len() > 0,
{
    let mut i: usize = 0;
    while i < src.entries.len()
        invariant
            dst.wf(),
            src.wf(),
            i <= src.entries@.len(),
            forall|j: int| 0 <= j < src.entries@.len() ==> #[trigger] src.entries@[j].1 < nodes@.len(),
            dst@.dom() == old(dst)@.dom() + names_in(src.entries@.take(i as int), nodes@),
            forall|k: Seq<char>| #[trigger] dst@.dom().contains(k) ==> dst@[k]@ == regrouped(
                old(dst)@,
                src.entries@.take(i as int),
                nodes@,
                k,
            ),
            forall|k: Seq<char>| #[trigger] dst@.dom().contains(k) ==> in_nodes(dst@[k]@, nodes@.len()) && dst@[k]@.len() > 0,
        decreases src.entries@.len() - i,
    {
        let x = src.entries[i].1;
        let hostname = nodes[x].hostname.clone();
        let ghost before = dst@;
        append_to_group(dst, hostname, x);
        proof {
            let t = src.entries@.take(i as int);
            let t1 = src.entries@.take(i + 1);
            assert(t1.drop_last() =~= t);
            assert(t1.last() == src.entries@[i as int]);
            let h = nodes@[x as int].hostname@;
            assert(names_in(t1, nodes@) =~= names_in(t, nodes@).insert(h)) by {
                assert forall|nm: Seq<char>| names_in(t1, nodes@).contains(nm) implies names_in(t, nodes@).insert(h).contains(nm) by {
                    let j = choose|j: int| 0 <= j < t1.len() && #[trigger] nodes@[t1[j].1 as int].hostname@ == nm;
                    if j < i {
                        assert(t[j] == t1[j]);
                    }
                }
                assert forall|nm: Seq<char>| names_in(t, nodes@).insert(h).contains(nm) implies names_in(t1, nodes@).contains(nm) by {
                    if nm == h {
                        assert(nodes@[t1[i as int].1 as int].hostname@ == nm);
                    } else {
                        let j = choose|j: int| 0 <= j < t.len() && #[trigger] nodes@[t[j].1 as int].hostname@ == nm;
                        assert(t1[j] == t[j]);
                        assert(nodes@[t1[j].1 as int].hostname@ == nm);
                    }
                }
            }
            assert(dst@.dom() =~= old(dst)@.dom() + names_in(t1, nodes@));
            assert forall|k: Seq<char>| #[trigger] dst@.dom().contains(k) implies dst@[k]@ == regrouped(
                old(dst)@,
                t1,
                nodes@,
                k,
            ) by {
                if k == h {
                    if before.dom().contains(k) {
                        assert(dst@[k]@ =~= regrouped(old(dst)@, t1, nodes@, k));
                    } else {
                        assert(named_in(t, nodes@, k) =~= seq![]) by {
                            if named_in(t, nodes@, k).len() > 0 {
                                lemma_named_in_names(t, nodes@, k);
                            }
                            if old(dst)@.dom().contains(k) {
                            }
                        }
                        assert(dst@[k]@ =~= regrouped(old(dst)@, t1, nodes@, k));
                    }
                } else {
                    assert(named_in(t1, nodes@, k) == named_in(t, nodes@, k));
                    if before.dom().contains(k) {
                    } else {
                    }
                }
            }
            assert forall|k: Seq<char>| #[trigger] dst@.dom().contains(k) implies in_nodes(dst@[k]@, nodes@.len()) && dst@[k]@.len() > 0 by {
                if k != h {
                    assert(before.dom().contains(k));
                }
            }
        }
        i = i + 1;
    }
    proof {
        assert(src.entries@.take(src.entries@.len() as int) =~= src.entries@);
    }
}

/// A node listed under `name` by `named_in` has hostname `name`.
proof fn lemma_named_in_names(es: Seq<(u32, usize)>, nodes: Seq<Service>, name: Seq<char>)
    requires
        named_in(es, nodes, name).len() > 0,
    ensures
        names_in(es, nodes).contains(name),
    decreases es.len(),
{
    if es.len() > 0 {
        if nodes[es.last().1 as int].hostname@ == name {
            assert(nodes[es[es.len() - 1].1 as int].hostname@ == name);
        } else {
            lemma_named_in_names(es.drop_last(), nodes, name);
            let j = choose|j: int| 0 <= j < es.drop_last().len() && #[trigger] nodes[es.drop_last()[j].1 as int].hostname@ == name;
            assert(nodes[es[j].1 as int].hostname@ == name);
        }
    }
}


/// A copy of a list of positions.
pub fn copy_positions(v: &Vec<usize>) -> (r: Vec<usize>)
    ensures
        r@ == v@,
{
    let mut r: Vec<usize> = Vec::new();
    let mut i: usize = 0;
    while i < v.len()
        invariant
            i <= v@.len(),
            r@ == v@.take(i as int),
        decreases v@.len() - i,
    {
        r.push(v[i]);
        i = i + 1;
        assert(r@ =~= v@.take(i as int));
    }
    assert(r@ =~= v@);
    r
}

/// A copy of a table of groups.
#[verifier::spinoff_prover]
pub fn clone_groups(m: &AssocMap<String, Vec<usize>>) -> (r: AssocMap<String, Vec<usize>>)
    requires
        m.wf(),
    ensures
        r.wf(),
        r.keys() == m.keys(),
        r.entries@.len() == m.entries@.len(),
        forall|i: int| 0 <= i < m.entries@.len() ==> #[trigger] r.entries@[i].1@ == m.entries@[i].1@,
        r@.dom() == m@.dom(),
        forall|k: Seq<char>| #[trigger] r@.dom().contains(k) ==> r@[k]@ == m@[k]@,
{
    let mut entries: Vec<(String, Vec<usize>)> = Vec::new();
    let mut i: usize = 0;
    while i < m.entries.len()
        invariant
            i <= m.entries@.len(),
            entries@.len() == i,
            forall|j: int| 0 <= j < i ==> #[trigger] entries@[j].0@ == m.entries@[j].0@ && entries@[j].1@ == m.entries@[j].1@,
        decreases m.entries@.len() - i,
    {
        let k = m.entries[i].0.clone();
        let v = copy_positions(&m.entries[i].1);
        entries.push((k, v));
        i = i + 1;
    }
    let r = AssocMap { entries };
    proof {
        assert forall|j: int| 0 <= j < m.entries@.len() implies #[trigger] r.entries@[j].1@ == m.entries@[j].1@ by {
            assert(entries@[j].0@ == m.entries@[j].0@);
        }
        assert(r.keys() =~= m.keys());
        assert forall|a: int, b: int| 0 <= a < r.entries@.len() && 0 <= b < r.entries@.len() && a != b implies #[trigger] r.entries@[a].0.kv() != #[trigger] r.entries@[b].0.kv() by {
            assert(m.entries@[a].0.kv() != m.entries@[b].0.kv());
        }
        r.lemma_view();
        m.lemma_view();
        assert forall|k: Seq<char>| #[trigger] r@.dom().contains(k) == m@.dom().contains(k) by {
            if r.has(k) {
                let p = r.pos(k);
                assert(m.entries@[p].0.kv() == k);
            }
            if m.has(k) {
                let p = m.pos(k);
                assert(r.entries@[p].0.kv() == k);
            }
        }
        assert(r@.dom() =~= m@.dom());
        assert forall|k: Seq<char>| #[trigger] r@.dom().contains(k) implies r@[k]@ == m@[k]@ by {
            let p = r.pos(k);
            r.lemma_pos(p);
            assert(m.entries@[p].0.kv() == k);
            m.lemma_pos(p);
        }
    }
    r
}

impl Graph {
    /// Fills this graph from an older one: the same services, bridges and
    /// links (removed links included), the same root and link counter.  The
    /// node list is shared, so both graphs refer to the same elements.
    #[verifier::spinoff_prover]
    pub fn create_from_graph(&mut self, old_graph: &Graph, nodes: &Vec<Service>)
        requires
            old(self).wf(nodes@.len()),
            old_graph.wf(nodes@.len()),
        ensures
            final(self).wf(nodes@.len()),
            final(self).services@ == old(self).services@.union_prefer_right(old_graph.services@),
            final(self).bridges@ == old(self).bridges@.union_prefer_right(old_graph.bridges@),
            final(self).services_by_name@.dom() == old(self).services_by_name@.dom() + names_in(
                old_graph.services.entries@,
                nodes@,
            ),
            forall|k: Seq<char>| #[trigger] final(self).services_by_name@.dom().contains(k)
                ==> final(self).services_by_name@[k]@ == regrouped(
                old(self).services_by_name@,
                old_graph.services.entries@,
                nodes@,
                k,
            ),
            final(self).bridges_by_name@.dom() == old(self).bridges_by_name@.dom() + names_in(
                old_graph.bridges.entries@,
                nodes@,
            ),
            forall|k: Seq<char>| #[trigger] final(self).bridges_by_name@.dom().contains(k)
                ==> final(self).bridges_by_name@[k]@ == regrouped(
                old(self).bridges_by_name@,
                old_graph.bridges.entries@,
                nodes@,
                k,
            ),
            final(self).removed_links@ == old_graph.removed_links@,
            final(self).removed_bridges@.dom() == old_graph.removed_bridges@.dom(),
            forall|k: Seq<char>| #[trigger] final(self).removed_bridges@.dom().contains(k)
                ==> final(self).removed_bridges@[k]@ == old_graph.removed_bridges@[k]@,
            final(self).links@ == old(self).links@.union_prefer_right(old_graph.links@).union_prefer_right(
                links_by_id(old_graph.removed_links@),
            ),
            final(self).link_counter == old_graph.link_counter,
            final(self).graph_root == old_graph.graph_root,
            final(self).paths == old(self).paths,
            final(self).ip_to_path_id == old(self).ip_to_path_id,
            final(self).path_id_to_ip == old(self).path_id_to_ip,
            final(self).flow_accumulator_u16 == old(self).flow_accumulator_u16,
            final(self).flow_accumulator_keys == old(self).flow_accumulator_keys,
            final(self).ips == old(self).ips,
            final(self).path_counter == old(self).path_counter,
            final(self).link_count == old(self).link_count,
            final(self).name == old(self).name,
    {
        proof {
            assert forall|i: int| 0 <= i < old_graph.services.entries@.len() implies #[trigger] old_graph.services.entries@[i].1 < nodes@.len() by {
                old_graph.services.lemma_pos(i);
                let k = old_graph.services.entries@[i].0.kv();
                assert(old_graph.services@.dom().contains(k));
                assert(old_graph.services@[k] == old_graph.services.entries@[i].1);
            }
            assert forall|i: int| 0 <= i < old_graph.bridges.entries@.len() implies #[trigger] old_graph.bridges.entries@[i].1 < nodes@.len() by {
                old_graph.bridges.lemma_pos(i);
                let k = old_graph.bridges.entries@[i].0.kv();
                assert(old_graph.bridges@.dom().contains(k));
                assert(old_graph.bridges@[k] == old_graph.bridges.entries@[i].1);
            }
        }
        regroup(&mut self.services_by_name, &old_graph.services, nodes);
        self.services.merge_from(&old_graph.services);
        regroup(&mut self.bridges_by_name, &old_graph.bridges, nodes);
        self.bridges.merge_from(&old_graph.bridges);
        let mut removed: Vec<Link> = Vec::new();
        let mut i: usize = 0;
        while i < old_graph.removed_links.len()
            invariant
                i <= old_graph.removed_links@.len(),
                removed@ == old_graph.removed_links@.take(i as int),
            decreases old_graph.removed_links@.len() - i,
        {
            removed.push(old_graph.removed_links[i]);
            i = i + 1;
            assert(removed@ =~= old_graph.removed_links@.take(i as int));
        }
        assert(removed@ =~= old_graph.removed_links@);
        self.removed_links = removed;
        self.removed_bridges = clone_groups(&old_graph.removed_bridges);
        self.links.merge_from(&old_graph.links);
        let ghost base = self.links@;
        let ghost snap = *self;
        let mut j: usize = 0;
        while j < self.removed_links.len()
            invariant
                *self == (Graph { links: self.links, ..snap }),
                self.links.wf(),
                j <= self.removed_links@.len(),
                self.removed_links@ == old_graph.removed_links@,
                self.links@ == base.union_prefer_right(links_by_id(self.removed_links@.take(j as int))),
            decreases self.removed_links@.len() - j,
        {
            let l = self.removed_links[j];
            self.links.insert(l.id, l);
            proof {
                let t = self.removed_links@.take(j as int);
                let t1 = self.removed_links@.take(j + 1);
                assert(t1.drop_last() =~= t);
                assert(self.links@ =~= base.union_prefer_right(links_by_id(t1)));
            }
            j = j + 1;
        }
        assert(self.removed_links@.take(self.removed_links@.len() as int) =~= self.removed_links@);
        self.link_counter = old_graph.link_counter;
        self.graph_root = old_graph.graph_root;
        proof {
            let n = nodes@.len();
            lemma_union_in_nodes(old(self).services@, old_graph.services@, n);
            lemma_union_in_nodes(old(self).bridges@, old_graph.bridges@, n);
            assert(old_graph.wf(n));
            assert forall|i: int| 0 <= i < old_graph.removed_links@.len() implies #[trigger] old_graph.removed_links@[i].source
                < n && old_graph.removed_links@[i].destination < n by {}
            lemma_links_by_id_wf(old_graph.removed_links@, n);
            assert forall|k: u16| #[trigger] self.links@.dom().contains(k) implies self.links@[k].id == k
                && self.links@[k].source < n && self.links@[k].destination < n by {
                if links_by_id(old_graph.removed_links@).dom().contains(k) {
                } else if old_graph.links@.dom().contains(k) {
                } else {
                }
            }
            assert forall|k: Seq<char>| #[trigger] self.removed_bridges@.dom().contains(k) implies in_nodes(
                self.removed_bridges@[k]@,
                n,
            ) by {
                assert(old_graph.removed_bridges@.dom().contains(k));
            }
            assert forall|i: int| 0 <= i < self.removed_links@.len() implies #[trigger] self.removed_links@[i].source < n
                && self.removed_links@[i].destination < n by {
                assert(self.removed_links@[i] == old_graph.removed_links@[i]);
            }
        }
    }
}

/// `c` is a fresh graph filled from `g`: the same services, bridges and
/// links (removed links included), grouped anew by hostname; the same
/// removed links and bridges, root and link counter; no paths yet.
pub open spec fn copy_of(c: Graph, g: Graph, nodes: Seq<Service>) -> bool {
    &&& c.wf(nodes.len())
    &&& c.services@ == g.services@
    &&& c.bridges@ == g.bridges@
    &&& c.services_by_name@.dom() == names_in(g.services.entries@, nodes)
    &&& forall|k: Seq<char>| #[trigger]
        c.services_by_name@.dom().contains(k) ==> c.services_by_name@[k]@ == named_in(g.services.entries@, nodes, k)
    &&& c.bridges_by_name@.dom() == names_in(g.bridges.entries@, nodes)
    &&& forall|k: Seq<char>| #[trigger]
        c.bridges_by_name@.dom().contains(k) ==> c.bridges_by_name@[k]@ == named_in(g.bridges.entries@, nodes, k)
    &&& c.removed_links@ == g.removed_links@
    &&& c.removed_bridges@.dom() == g.removed_bridges@.dom()
    &&& forall|k: Seq<char>| #[trigger]
        c.removed_bridges@.dom().contains(k) ==> c.removed_bridges@[k]@ == g.removed_bridges@[k]@
    &&& c.links@ == g.links@.union_prefer_right(links_by_id(g.removed_links@))
    &&& c.link_counter == g.link_counter
    &&& c.graph_root == g.graph_root
    &&& c.paths@ == Map::<u32, Path>::empty()
    &&& c.ip_to_path_id@ == Map::<u32, u32>::empty()
    &&& c.path_id_to_ip@ == Map::<u32, u32>::empty()
    &&& c.path_counter == 0
    &&& c.ips@.len() == 0
    &&& c.link_count == 0
}

impl Graph {
    /// A new graph filled from `graph`, see `copy_of`.
    pub fn from_graph(graph: &Graph, nodes: &Vec<Service>) -> (c: Graph)
        requires
            graph.wf(nodes@.len()),
        ensures
            copy_of(c, *graph, nodes@),
    {
        let mut c = Graph::new();
        proof {
            assert(c.wf(nodes@.len()));
        }
        c.create_from_graph(graph, nodes);
        proof {
            assert(c.services@ =~= graph.services@);
            assert(c.bridges@ =~= graph.bridges@);
            assert(c.links@ =~= graph.links@.union_prefer_right(links_by_id(graph.removed_links@)));
            assert(c.services_by_name@.dom() =~= names_in(graph.services.entries@, nodes@));
            assert(c.bridges_by_name@.dom() =~= names_in(graph.bridges.entries@, nodes@));
            assert forall|k: Seq<char>| #[trigger] c.services_by_name@.dom().contains(k) implies c.services_by_name@[k]@
                == named_in(graph.services.entries@, nodes@, k) by {
                assert(seq![] + named_in(graph.services.entries@, nodes@, k) =~= named_in(graph.services.entries@, nodes@, k));
            }
            assert forall|k: Seq<char>| #[trigger] c.bridges_by_name@.dom().contains(k) implies c.bridges_by_name@[k]@
                == named_in(graph.bridges.entries@, nodes@, k) by {
                assert(seq![] + named_in(graph.bridges.entries@, nodes@, k) =~= named_in(graph.bridges.entries@, nodes@, k));
            }
        }
        c
    }
}

pub proof fn lemma_union_in_nodes(a: Map<u32, usize>, b: Map<u32, usize>, n: nat)
    requires
        forall|k: u32| #[trigger] a.dom().contains(k) ==> a[k] < n,
        forall|k: u32| #[trigger] b.dom().contains(k) ==> b[k] < n,
    ensures
        forall|k: u32| #[trigger] a.union_prefer_right(b).dom().contains(k) ==> a.union_prefer_right(b)[k] < n,
{
    assert forall|k: u32| #[trigger] a.union_prefer_right(b).dom().contains(k) implies a.union_prefer_right(b)[k] < n by {
        if b.dom().contains(k) {
        } else {
            assert(a.dom().contains(k));
        }
    }
}

/// Links keyed by their own id, from a list of links into the node list.
pub proof fn lemma_links_by_id_wf(s: Seq<Link>, n: nat)
    requires
        forall|i: int| 0 <= i < s.len() ==> #[trigger] s[i].source < n && s[i].destination < n,
    ensures
        forall|k: u16| #[trigger] links_by_id(s).dom().contains(k) ==> links_by_id(s)[k].id == k
            && links_by_id(s)[k].source < n && links_by_id(s)[k].destination < n,
    decreases s.len(),
{
    if s.len() > 0 {
        assert forall|i: int| 0 <= i < s.drop_last().len() implies #[trigger] s.drop_last()[i].source < n
            && s.drop_last()[i].destination < n by {
            assert(s.drop_last()[i] == s[i]);
        }
        lemma_links_by_id_wf(s.drop_last(), n);
        assert(s.last() == s[s.len() - 1]);
        let m = links_by_id(s);
        assert forall|k: u16| #[trigger] m.dom().contains(k) implies m[k].id == k && m[k].source < n
            && m[k].destination < n by {
            if k != s.last().id {
                assert(links_by_id(s.drop_last()).dom().contains(k));
            }
        }
    }
}


/// Copy of a list of link ids.
pub fn copy_ids(v: &Vec<u16>) -> (r: Vec<u16>)
    ensures
        r@ == v@,
{
    let mut r: Vec<u16> = Vec::new();
    let mut i: usize = 0;
    while i < v.len()
        invariant
            i <= v@.len(),
            r@ == v@.take(i as int),
        decreases v@.len() - i,
    {
        r.push(v[i]);
        i = i + 1;
        assert(r@ =~= v@.take(i as int));
    }
    assert(r@ =~= v@);
    r
}

/// `p` is `q` with the bandwidth figures `used` and `current`.
pub open spec fn bandwidths_set(p: Path, q: Path, used: u32, current: u32) -> bool {
    &&& p.links@ == q.links@
    &&& p.id == q.id
    &&& p.metrics == (PathMetrics { used_bandwidth: used, current_bandwidth: current, ..q.metrics })
    &&& p.start == q.start
    &&& p.finish == q.finish
    &&& p.last_cycle_change == q.last_cycle_change
}

/// `p` is `q` with start and finish recomputed from the links of `g`.
pub open spec fn ends_set(p: Path, q: Path, links: Map<u16, Link>, nodes: Seq<Service>) -> bool {
    &&& p.links@ == q.links@
    &&& p.id == q.id
    &&& p.metrics == q.metrics
    &&& p.last_cycle_change == q.last_cycle_change
    &&& if q.links@.len() == 0 {
        p.start == q.start && p.finish == q.finish
    } else {
        &&& p.start@ == nodes[links[q.links@[0]].source as int].hostname@
        &&& p.finish@ == nodes[links[q.links@[q.links@.len() - 1]].destination as int].hostname@
    }
}

impl Graph {
    /// Every path that has links starts and ends with known links.
    pub open spec fn path_ends_known(&self) -> bool {
        forall|k: u32| #[trigger] self.paths@.dom().contains(k) && self.paths@[k].links@.len() > 0
            ==> self.links@.dom().contains(self.paths@[k].links@[0]) && self.links@.dom().contains(
            self.paths@[k].links@[self.paths@[k].links@.len() - 1],
        )
    }

    /// Names every path by the element its first link leaves and the
    /// element its last link reaches.
    pub fn set_start_and_finish(&mut self, nodes: &Vec<Service>)
        requires
            old(self).wf(nodes@.len()),
            old(self).path_ends_known(),
        ensures
            final(self).wf(nodes@.len()),
            final(self).paths@.dom() == old(self).paths@.dom(),
            final(self).paths.keys() == old(self).paths.keys(),
            forall|k: u32| #[trigger] final(self).paths@.dom().contains(k) ==> ends_set(
                final(self).paths@[k],
                old(self).paths@[k],
                old(self).links@,
                nodes@,
            ),
            *final(self) == (Graph { paths: final(self).paths, ..*old(self) }),
    {
        let ghost old_paths = self.paths;
        let mut i: usize = 0;
        while i < self.paths.entries.len()
            invariant
                self.wf(nodes@.len()),
                old_paths.wf(),
                *self == (Graph { paths: self.paths, ..*old(self) }),
                old_paths == old(self).paths,
                self.paths.keys() == old_paths.keys(),
                self.paths.entries@.len() == old_paths.entries@.len(),
                i <= self.paths.entries@.len(),
                forall|j: int| 0 <= j < i ==> ends_set(#[trigger] self.paths.entries@[j].1, old_paths.entries@[j].1, self.links@, nodes@),
                forall|j: int| i <= j < self.paths.entries@.len() ==> #[trigger] self.paths.entries@[j] == old_paths.entries@[j],
                old(self).path_ends_known(),
                old(self).wf(nodes@.len()),
            decreases self.paths.entries@.len() - i,
        {
            proof {
                old_paths.lemma_pos(i as int);
                assert(self.paths.entries@[i as int] == old_paths.entries@[i as int]);
            }
            let n = self.paths.entries[i].1.links.len();
            if n > 0 {
                let first = self.paths.entries[i].1.links[0];
                let last = self.paths.entries[i].1.links[n - 1];
                proof {
                    let kk = old_paths.entries@[i as int].0.kv();
                    assert(old(self).paths@.dom().contains(kk));
                }
                let src = self.links.get(&first).unwrap().source;
                let dst = self.links.get(&last).unwrap().destination;
                let start = nodes[src].hostname.clone();
                let finish = nodes[dst].hostname.clone();
                let p = &self.paths.entries[i].1;
                let np = Path {
                    links: copy_ids(&p.links),
                    id: p.id,
                    metrics: p.metrics,
                    start,
                    finish,
                    last_cycle_change: p.last_cycle_change,
                };
                let ghost before = self.paths.entries@;
                self.paths.set_value(i, np);
                proof {
                    let kk = old_paths.entries@[i as int].0.kv();
                    old_paths.lemma_pos(i as int);
                    assert(old(self).paths@.dom().contains(kk));
                    assert(old_paths@[kk].id == kk);
                    assert forall|k: u32| #[trigger] self.paths@.dom().contains(k) implies self.paths@[k].id == k by {
                        if k != kk {
                        }
                    }
                    assert forall|j: int| 0 <= j < i + 1 implies ends_set(#[trigger] self.paths.entries@[j].1, old_paths.entries@[j].1, self.links@, nodes@) by {
                        if j < i {
                            assert(self.paths.entries@[j] == before[j]);
                        }
                    }
                }
            }
            i = i + 1;
        }
        proof {
            self.paths.lemma_view();
            old_paths.lemma_view();
            assert forall|k: u32| #[trigger] self.paths@.dom().contains(k) implies ends_set(
                self.paths@[k],
                old(self).paths@[k],
                old(self).links@,
                nodes@,
            ) by {
                let p = self.paths.pos(k);
                self.paths.lemma_pos(p);
                assert(self.paths.keys()[p] == old_paths.keys()[p]);
                assert(old_paths.entries@[p].0.kv() == k);
                old_paths.lemma_pos(p);
            }
            assert forall|k: u32| #[trigger] self.paths@.dom().contains(k) implies self.paths@[k].id == k by {
                let p = self.paths.pos(k);
                self.paths.lemma_pos(p);
                assert(self.paths.keys()[p] == old_paths.keys()[p]);
                assert(old_paths.entries@[p].0.kv() == k);
                old_paths.lemma_pos(p);
            }
            assert forall|k: u32| #[trigger] self.paths@.dom().contains(k) == old(self).paths@.dom().contains(k) by {
                if self.paths.has(k) {
                    let p = self.paths.pos(k);
                    assert(self.paths.keys()[p] == old_paths.keys()[p]);
                    assert(old_paths.entries@[p].0.kv() == k);
                }
                if old_paths.has(k) {
                    let p = old_paths.pos(k);
                    assert(self.paths.keys()[p] == old_paths.keys()[p]);
                    assert(self.paths.entries@[p].0.kv() == k);
                }
            }
            assert(self.paths@.dom() =~= old(self).paths@.dom());
        }
    }

    /// Gives path `id` the bandwidth figures `used` and `current`.
    pub fn set_path_bandwidths(&mut self, id: u32, used: u32, current: u32)
        requires
            old(self).paths.wf(),
            forall|k: u32| #[trigger] old(self).paths@.dom().contains(k) ==> old(self).paths@[k].id == k,
            old(self).paths@.dom().contains(id),
        ensures
            forall|n: nat| old(self).wf(n) ==> final(self).wf(n),
            final(self).paths@.dom() == old(self).paths@.dom(),
            forall|k: u32| #[trigger] old(self).paths@.dom().contains(k) && k != id ==> final(self).paths@[k]
                == old(self).paths@[k],
            bandwidths_set(final(self).paths@[id], old(self).paths@[id], used, current),
            *final(self) == (Graph { paths: final(self).paths, ..*old(self) }),
    {
        let i = self.paths.find(&id).unwrap();
        let p = &self.paths.entries[i].1;
        let np = Path {
            links: copy_ids(&p.links),
            id: p.id,
            metrics: PathMetrics { used_bandwidth: used, current_bandwidth: current, ..p.metrics },
            start: p.start.clone(),
            finish: p.finish.clone(),
            last_cycle_change: p.last_cycle_change,
        };
        self.paths.set_value(i, np);
        proof {
            assert forall|k: u32| #[trigger] self.paths@.dom().contains(k) implies self.paths@[k].id == k by {
                if k != id {
                }
            }
            assert(self.paths@.dom() =~= old(self).paths@.dom());
        }
    }
}


/// The links and bandwidth of the flows of `keys`, in order, that are
/// younger than `max_age`.
pub open spec fn young_flows(keys: Seq<Seq<char>>, flows: Map<Seq<char>, Flowu16>, max_age: u32) -> Seq<(Seq<u16>, u32)>
    decreases keys.len(),
{
    if keys.len() == 0 {
        seq![]
    } else {
        let f = flows[keys.last()];
        young_flows(keys.drop_last(), flows, max_age) + if f.age < max_age {
            seq![(f.link_indices@, f.bandwidth)]
        } else {
            seq![]
        }
    }
}

/// The keys among `keys` of flows that reached `max_age`.
pub open spec fn stale_keys(keys: Seq<Seq<char>>, flows: Map<Seq<char>, Flowu16>, max_age: u32) -> Set<Seq<char>> {
    Set::new(|k: Seq<char>| keys.contains(k) && flows[k].age >= max_age)
}

/// `f2` is `f` one cycle older.
pub open spec fn aged(f2: Flowu16, f: Flowu16) -> bool {
    &&& f2.bandwidth == f.bandwidth
    &&& f2.link_indices@ == f.link_indices@
    &&& f2.age == f.age + 1
}

impl Graph {
    /// Ages the flows reported by peers, walking the known flow keys in
    /// order: a flow younger than `max_age` is used this cycle and gets one
    /// cycle older; an older one is forgotten, key and flow.  Returns the
    /// links and bandwidth of the flows used, in order.
    pub fn age_flows(&mut self, max_age: u32) -> (used: Vec<(Vec<u16>, u32)>)
        requires
            old(self).flow_accumulator_u16.wf(),
            old(self).flow_accumulator_keys.wf(),
            forall|k: Seq<char>| #[trigger] old(self).flow_accumulator_keys@.dom().contains(k)
                ==> old(self).flow_accumulator_u16@.dom().contains(k),
        ensures
            ({
                let ks = old(self).flow_accumulator_keys.keys();
                let m0 = old(self).flow_accumulator_u16@;
                let stale = stale_keys(ks, m0, max_age);
                &&& used@.map_values(|u: (Vec<u16>, u32)| (u.0@, u.1)) == young_flows(ks, m0, max_age)
                &&& final(self).flow_accumulator_u16.wf()
                &&& final(self).flow_accumulator_keys.wf()
                &&& final(self).flow_accumulator_u16@.dom() == m0.dom().difference(stale)
                &&& forall|k: Seq<char>| #[trigger]
                    final(self).flow_accumulator_u16@.dom().contains(k) ==> if ks.contains(k) {
                        aged(final(self).flow_accumulator_u16@[k], m0[k])
                    } else {
                        final(self).flow_accumulator_u16@[k] == m0[k]
                    }
                &&& final(self).flow_accumulator_keys@ == old(self).flow_accumulator_keys@.remove_keys(stale)
                &&& *final(self) == (Graph {
                    flow_accumulator_u16: final(self).flow_accumulator_u16,
                    flow_accumulator_keys: final(self).flow_accumulator_keys,
                    ..*old(self)
                })
            }),
    {
        let ghost g0 = *self;
        let ghost ks = self.flow_accumulator_keys.keys();
        let ghost m0 = self.flow_accumulator_u16@;
        let mut used: Vec<(Vec<u16>, u32)> = Vec::new();
        let mut stale: Vec<String> = Vec::new();
        let n = self.flow_accumulator_keys.entries.len();
        proof {
            self.flow_accumulator_keys.lemma_view();
            assert forall|j: int| 0 <= j < n implies m0.dom().contains(#[trigger] ks[j]) by {
                g0.flow_accumulator_keys.lemma_pos(j);
            }
        }
        let mut i: usize = 0;
        while i < n
            invariant
                n == g0.flow_accumulator_keys.entries@.len(),
                ks == g0.flow_accumulator_keys.keys(),
                m0 == g0.flow_accumulator_u16@,
                g0.flow_accumulator_keys.wf(),
                forall|j: int| 0 <= j < n ==> m0.dom().contains(#[trigger] ks[j]),
                i <= n,
                self.flow_accumulator_u16.wf(),
                *self == (Graph { flow_accumulator_u16: self.flow_accumulator_u16, ..g0 }),
                self.flow_accumulator_u16@.dom() == m0.dom(),
                forall|k: Seq<char>| #[trigger]
                    self.flow_accumulator_u16@.dom().contains(k) ==> if ks.take(i as int).contains(k) && m0[k].age
                        < max_age {
                        aged(self.flow_accumulator_u16@[k], m0[k])
                    } else {
                        self.flow_accumulator_u16@[k] == m0[k]
                    },
                used@.map_values(|u: (Vec<u16>, u32)| (u.0@, u.1)) == young_flows(ks.take(i as int), m0, max_age),
                stale@.map_values(|s: String| s@).to_set() == stale_keys(ks.take(i as int), m0, max_age),
            decreases n - i,
        {
            let ghost k = ks[i as int];
            proof {
                assert(ks.take(i + 1).drop_last() =~= ks.take(i as int));
                assert(ks.take(i + 1).last() == k);
                assert(!ks.take(i as int).contains(k)) by {
                    if ks.take(i as int).contains(k) {
                        let j = choose|j: int| 0 <= j < i && ks.take(i as int)[j] == k;
                        assert(g0.flow_accumulator_keys.entries@[j].0.kv() == g0.flow_accumulator_keys.entries@[i as int].0.kv());
                    }
                }
                assert(m0.dom().contains(k));
            }
            let key = &self.flow_accumulator_keys.entries[i].0;
            let pos = self.flow_accumulator_u16.find(key).unwrap();
            let ghost before = self.flow_accumulator_u16@;
            let ghost used_before = used@.map_values(|u: (Vec<u16>, u32)| (u.0@, u.1));
            let ghost stale_before = stale@.map_values(|s: String| s@);
            let age = self.flow_accumulator_u16.entries[pos].1.age;
            let bandwidth = self.flow_accumulator_u16.entries[pos].1.bandwidth;
            let links = copy_ids(&self.flow_accumulator_u16.entries[pos].1.link_indices);
            proof {
                self.flow_accumulator_u16.lemma_pos(pos as int);
                assert(self.flow_accumulator_u16@[k] == m0[k]);
            }
            if age < max_age {
                let links_used = copy_ids(&links);
                used.push((links_used, bandwidth));
                self.flow_accumulator_u16.set_value(pos, Flowu16 { bandwidth, link_indices: links, age: age + 1 });
                proof {
                    assert(used@.map_values(|u: (Vec<u16>, u32)| (u.0@, u.1)) =~= used_before.push((m0[k].link_indices@, m0[k].bandwidth)));
                    assert(stale_keys(ks.take(i + 1), m0, max_age) =~= stale_keys(ks.take(i as int), m0, max_age));
                }
            } else {
                let sk = string_from_chars(crate::text::chars_of(key.as_str()).as_slice());
                stale.push(sk);
                proof {
                    assert(stale@.map_values(|s: String| s@) =~= stale_before.push(k));
                    stale_before.lemma_push_to_set_commute(k);
                    assert(stale@.map_values(|s: String| s@).to_set() =~= stale_before.to_set().insert(k));
                    assert(stale_keys(ks.take(i + 1), m0, max_age) =~= stale_keys(ks.take(i as int), m0, max_age).insert(k));
                    assert(young_flows(ks.take(i + 1), m0, max_age) =~= young_flows(ks.take(i as int), m0, max_age));
                }
            }
            i = i + 1;
        }
        proof {
            assert(ks.take(n as int) =~= ks);
        }
        let ghost mid = self.flow_accumulator_u16@;
        let mut j: usize = 0;
        while j < stale.len()
            invariant
                j <= stale@.len(),
                self.flow_accumulator_u16.wf(),
                self.flow_accumulator_keys.wf(),
                *self == (Graph {
                    flow_accumulator_u16: self.flow_accumulator_u16,
                    flow_accumulator_keys: self.flow_accumulator_keys,
                    ..g0
                }),
                self.flow_accumulator_u16@ == mid.remove_keys(stale@.take(j as int).map_values(|s: String| s@).to_set()),
                self.flow_accumulator_keys@ == g0.flow_accumulator_keys@.remove_keys(
                    stale@.take(j as int).map_values(|s: String| s@).to_set(),
                ),
            decreases stale@.len() - j,
        {
            let ghost t0 = stale@.take(j as int).map_values(|s: String| s@).to_set();
            let ghost t1 = stale@.take(j + 1).map_values(|s: String| s@).to_set();
            proof {
                assert(stale@.take(j + 1).map_values(|s: String| s@) =~= stale@.take(j as int).map_values(|s: String| s@).push(stale@[j as int]@));
                stale@.take(j as int).map_values(|s: String| s@).lemma_push_to_set_commute(stale@[j as int]@);
                assert(t1 =~= t0.insert(stale@[j as int]@));
            }
            self.flow_accumulator_u16.remove(&stale[j]);
            self.flow_accumulator_keys.remove(&stale[j]);
            proof {
                assert(self.flow_accumulator_u16@ =~= mid.remove_keys(t1));
                assert(self.flow_accumulator_keys@ =~= g0.flow_accumulator_keys@.remove_keys(t1));
            }
            j = j + 1;
        }
        proof {
            assert(stale@.take(stale@.len() as int) =~= stale@);
            let st = stale_keys(ks, m0, max_age);
            assert(self.flow_accumulator_u16@.dom() =~= m0.dom().difference(st));
        }
        used
    }
}

/// Calls `rand::random::<u32>()`, a number drawn from the thread's
/// generator.  Nothing is claimed of it: any `u32` may come back.
#[verifier::external_body]
fn random_u32() -> (r: u32) {
    rand::random::<u32>()
}
} // verus!
