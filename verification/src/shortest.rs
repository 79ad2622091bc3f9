//! Shortest paths by hop count from the root of a graph to every address.
//!
//! Distances are kept per address; `None` stands for an address not reached
//! yet.  The queue of elements is stably sorted by distance before each
//! element is taken, as the emulation always did.
use vstd::prelude::*;
use crate::assoc::{AssocMap, Key};
use crate::elements::{Service, Link, Path, PathMetrics};
use crate::graph::{Graph, in_nodes, copy_ids, ends_set};
use crate::text::{chars_of, same_chars};

verus! {

broadcast use vstd::seq_lib::group_to_multiset_ensures;

/// Distance order, `None` being larger than every number.
pub open spec fn dist_le(a: Option<u64>, b: Option<u64>) -> bool {
    match (a, b) {
        (_, None) => true,
        (None, Some(_)) => false,
        (Some(x), Some(y)) => x <= y,
    }
}

/// `a` is strictly shorter than `b`.
pub open spec fn dist_lt(a: Option<u64>, b: Option<u64>) -> bool {
    !dist_le(b, a)
}

pub open spec fn sorted_by_dist(s: Seq<(Option<u64>, usize)>) -> bool {
    forall|i: int, j: int| 0 <= i < j < s.len() ==> dist_le(#[trigger] s[i].0, #[trigger] s[j].0)
}

fn shorter(a: Option<u64>, b: Option<u64>) -> (r: bool)
    ensures
        r == dist_lt(a, b),
{
    match (a, b) {
        (_, None) => a.is_some(),
        (None, Some(_)) => false,
        (Some(x), Some(y)) => x < y,
    }
}

/// Stable sort of the queue by distance: entries of equal distance keep
/// their relative order.
pub fn sort_queue(q: Vec<(Option<u64>, usize)>) -> (r: Vec<(Option<u64>, usize)>)
    ensures
        r@.len() == q@.len(),
        r@.to_multiset() == q@.to_multiset(),
        sorted_by_dist(r@),
{
    let mut r: Vec<(Option<u64>, usize)> = Vec::new();
    let mut i: usize = 0;
    while i < q.len()
        invariant
            i <= q@.len(),
            r@.len() == i,
            r@.to_multiset() == q@.take(i as int).to_multiset(),
            sorted_by_dist(r@),
        decreases q@.len() - i,
    {
        let e = q[i];
        let mut j: usize = 0;
        while j < r.len() && !shorter(e.0, r[j].0)
            invariant
                j <= r@.len(),
                forall|k: int| 0 <= k < j ==> dist_le(#[trigger] r@[k].0, e.0),
            decreases r@.len() - j,
        {
            j = j + 1;
        }
        let ghost before = r@;
        r.insert(j, e);
        proof {
            assert(r@ == before.insert(j as int, e));
            assert(r@.remove(j as int) =~= before);
            assert(r@[j as int] == e);
            assert(r@.to_multiset() =~= before.to_multiset().insert(e)) by {
                assert(r@.to_multiset().remove(e) == before.to_multiset());
                assert(r@.contains(e));
                assert(r@.to_multiset().count(e) > 0);
            }
            let t1 = q@.take(i + 1);
            assert(t1 =~= q@.take(i as int).push(e));
            assert forall|a: int, b: int| 0 <= a < b < r@.len() implies dist_le(#[trigger] r@[a].0, #[trigger] r@[b].0) by {
                if j < before.len() {
                    assert(dist_lt(e.0, before[j as int].0));
                }
                if a < j && b == j {
                } else if a == j && b > j {
                    assert(r@[b] == before[b - 1]);
                    assert(dist_le(before[j as int].0, before[b - 1].0));
                } else if a < j && b > j {
                    assert(r@[b] == before[b - 1]);
                } else if a > j {
                    assert(r@[a] == before[a - 1]);
                    assert(r@[b] == before[b - 1]);
                }
            }
        }
        i = i + 1;
    }
    assert(q@.take(q@.len() as int) =~= q@);
    r
}


/// The members of group `g` that are not the dashboard, in order.
pub open spec fn non_supervisors(g: Seq<usize>, nodes: Seq<Service>) -> Seq<usize>
    decreases g.len(),
{
    if g.len() == 0 {
        seq![]
    } else {
        non_supervisors(g.drop_last(), nodes) + (if nodes[g.last() as int].supervisor {
            seq![]
        } else {
            seq![g.last()]
        })
    }
}

/// The services of the groups `es`, dashboards left out, in order.
pub open spec fn service_queue(es: Seq<(String, Vec<usize>)>, nodes: Seq<Service>) -> Seq<usize>
    decreases es.len(),
{
    if es.len() == 0 {
        seq![]
    } else {
        service_queue(es.drop_last(), nodes) + non_supervisors(es.last().1@, nodes)
    }
}

/// The first bridge of each group of `es`.
pub open spec fn bridge_queue(es: Seq<(String, Vec<usize>)>) -> Seq<usize> {
    Seq::new(es.len(), |i: int| es[i].1@[0])
}

/// The largest number of links leaving one node.
pub open spec fn max_links(nodes: Seq<Service>) -> nat
    decreases nodes.len(),
{
    if nodes.len() == 0 {
        0
    } else {
        let m = max_links(nodes.drop_last());
        if nodes.last().links@.len() > m {
            nodes.last().links@.len()
        } else {
            m
        }
    }
}

pub proof fn lemma_max_links(nodes: Seq<Service>, u: int)
    requires
        0 <= u < nodes.len(),
    ensures
        nodes[u].links@.len() <= max_links(nodes),
    decreases nodes.len(),
{
    if u < nodes.len() - 1 {
        lemma_max_links(nodes.drop_last(), u);
    }
}

/// Node positions of the queue entries.
pub open spec fn queue_nodes(q: Seq<(Option<u64>, usize)>) -> Seq<usize> {
    q.map_values(|e: (Option<u64>, usize)| e.1)
}

/// Address reached by link `l`.
pub open spec fn hop_ip(links: Map<u16, Link>, nodes: Seq<Service>, l: u16) -> u32 {
    nodes[links[l].destination as int].ip
}

/// Some element of `qo` at address `a` has link `l` among its links.
pub open spec fn steps(qo: Seq<usize>, nodes: Seq<Service>, a: u32, l: u16) -> bool {
    exists|u: usize|
        #![trigger qo.contains(u), nodes[u as int].links@.contains(l)]
        qo.contains(u) && nodes[u as int].ip == a && nodes[u as int].links@.contains(l)
}

/// `ls` is a walk of known links from address `root_ip`: each link is taken
/// by an element of `qo` at the address the previous link reached.
pub open spec fn leads(
    links: Map<u16, Link>,
    qo: Seq<usize>,
    nodes: Seq<Service>,
    root_ip: u32,
    ls: Seq<u16>,
) -> bool {
    forall|i: int|
        0 <= i < ls.len() ==> links.dom().contains(#[trigger] ls[i]) && steps(
            qo,
            nodes,
            if i == 0 {
                root_ip
            } else {
                hop_ip(links, nodes, ls[i - 1])
            },
            ls[i],
        )
}

/// Address at the end of the walk `ls` from `root_ip`.
pub open spec fn walk_end(links: Map<u16, Link>, nodes: Seq<Service>, root_ip: u32, ls: Seq<u16>) -> u32 {
    if ls.len() == 0 {
        root_ip
    } else {
        hop_ip(links, nodes, ls.last())
    }
}

#[verifier::spinoff_prover]
pub proof fn lemma_leads_push(
    links: Map<u16, Link>,
    qo: Seq<usize>,
    nodes: Seq<Service>,
    root_ip: u32,
    ls: Seq<u16>,
    l: u16,
)
    requires
        leads(links, qo, nodes, root_ip, ls),
        links.dom().contains(l),
        steps(qo, nodes, walk_end(links, nodes, root_ip, ls), l),
    ensures
        leads(links, qo, nodes, root_ip, ls.push(l)),
        walk_end(links, nodes, root_ip, ls.push(l)) == hop_ip(links, nodes, l),
{
    let ls2 = ls.push(l);
    assert forall|i: int| 0 <= i < ls2.len() implies links.dom().contains(#[trigger] ls2[i]) && steps(
        qo,
        nodes,
        if i == 0 {
            root_ip
        } else {
            hop_ip(links, nodes, ls2[i - 1])
        },
        ls2[i],
    ) by {
        if i < ls.len() {
            assert(ls2[i] == ls[i]);
            let a = if i == 0 {
                root_ip
            } else {
                hop_ip(links, nodes, ls[i - 1])
            };
            assert(links.dom().contains(ls[i]) && steps(qo, nodes, a, ls[i]));
            if i > 0 {
                assert(ls2[i - 1] == ls[i - 1]);
            }
        } else {
            assert(ls2[i] == l);
            if i > 0 {
                assert(ls2[i - 1] == ls.last());
            }
        }
    }
}

impl Graph {
    /// The elements taking part in the search, in the order they are queued:
    /// every service but the dashboard, then the first bridge of each name.
    pub open spec fn queue_order(&self, nodes: Seq<Service>) -> Seq<usize> {
        service_queue(self.services_by_name.entries@, nodes) + bridge_queue(self.bridges_by_name.entries@)
    }

    /// Every link leaving a queued element is a known link.
    pub open spec fn links_known(&self, nodes: Seq<Service>) -> bool {
        forall|u: usize, k: int|
            self.queue_order(nodes).contains(u) && 0 <= k < nodes[u as int].links@.len()
                ==> #[trigger] self.links@.dom().contains(nodes[u as int].links@[k])
    }

    /// Facts kept by the search about one address with a known distance.
    pub open spec fn dist_fact(
        &self,
        nodes: Seq<Service>,
        qo: Seq<usize>,
        root_ip: u32,
        pc0: u32,
        ip: u32,
        d: u64,
    ) -> bool {
        &&& self.ip_to_path_id@.dom().contains(ip)
        &&& pc0 <= self.ip_to_path_id@[ip] < self.path_counter
        &&& self.paths@.dom().contains(self.ip_to_path_id@[ip])
        &&& leads(self.links@, qo, nodes, root_ip, self.paths@[self.ip_to_path_id@[ip]].links@)
        &&& walk_end(self.links@, nodes, root_ip, self.paths@[self.ip_to_path_id@[ip]].links@) == ip
        &&& self.paths@[self.ip_to_path_id@[ip]].links@.len() == d
    }

    /// The paths created from counter `pc0` on are walks from the root,
    /// recorded with the address they reach.
    pub open spec fn new_paths_ok(&self, nodes: Seq<Service>, qo: Seq<usize>, root_ip: u32, pc0: u32) -> bool {
        forall|k: u32|
            pc0 <= k < self.path_counter ==> #[trigger] self.paths@.dom().contains(k) && leads(
                self.links@,
                qo,
                nodes,
                root_ip,
                self.paths@[k].links@,
            ) && self.path_id_to_ip@.dom().contains(k) && self.path_id_to_ip@[k] == walk_end(
                self.links@,
                nodes,
                root_ip,
                self.paths@[k].links@,
            ) && self.paths@[k].id == k && (k != pc0 ==> self.paths@[k].links@.len() > 0)
    }
}


/// Every queued entry is an element of `qo` at a known address.
#[verifier::opaque]
pub open spec fn queue_ok(nodes: Seq<Service>, qo: Seq<usize>, dist: Map<u32, Option<u64>>, q: Seq<(Option<u64>, usize)>) -> bool {
    forall|i: int|
        0 <= i < q.len() ==> qo.contains(#[trigger] q[i].1) && dist.dom().contains(nodes[q[i].1 as int].ip)
}

impl Graph {
    /// Every address with a known distance, at most `bound`, has a path of
    /// that length.
    #[verifier::opaque]
    pub open spec fn dist_ok(
        &self,
        nodes: Seq<Service>,
        qo: Seq<usize>,
        root_ip: u32,
        pc0: u32,
        dist: Map<u32, Option<u64>>,
        bound: nat,
    ) -> bool {
        forall|ip: u32|
            #![trigger dist.dom().contains(ip)]
            dist.dom().contains(ip) && dist[ip] is Some ==> dist[ip]->0 <= bound && self.dist_fact(
                nodes,
                qo,
                root_ip,
                pc0,
                ip,
                dist[ip]->0,
            )
    }

    /// The paths: old ones kept, new ones walks from the root.
    #[verifier::opaque]
    pub open spec fn paths_ok(&self, g0: Graph, nodes: Seq<Service>, qo: Seq<usize>, root_ip: u32, pc0: u32) -> bool {
        &&& self.new_paths_ok(nodes, qo, root_ip, pc0)
        &&& forall|k: u32| #[trigger]
            self.paths@.dom().contains(k) <==> g0.paths@.dom().contains(k) || (pc0 <= k < self.path_counter)
        &&& forall|k: u32|
            #![trigger g0.paths@[k]]
            g0.paths@.dom().contains(k) && !(pc0 <= k < self.path_counter) ==> self.paths@[k] == g0.paths@[k]
        &&& self.paths@[pc0].links@.len() == 0
        &&& self.paths@[pc0].start@.len() == 0
        &&& self.paths@[pc0].finish@.len() == 0
        &&& forall|k: u32| pc0 < k < self.path_counter ==> #[trigger] self.paths@[k].links@.len() > 0
    }

    /// The two tables between addresses and paths: old entries kept or
    /// pointing to new paths that reach their address.
    #[verifier::opaque]
    pub open spec fn maps_ok(&self, g0: Graph, nodes: Seq<Service>, root_ip: u32, pc0: u32) -> bool {
        &&& forall|ip: u32|
            #![trigger self.ip_to_path_id@.dom().contains(ip)]
            self.ip_to_path_id@.dom().contains(ip) ==> (g0.ip_to_path_id@.dom().contains(ip)
                && self.ip_to_path_id@[ip] == g0.ip_to_path_id@[ip]) || (pc0 <= self.ip_to_path_id@[ip]
                < self.path_counter && walk_end(self.links@, nodes, root_ip, self.paths@[self.ip_to_path_id@[ip]].links@)
                == ip)
        &&& self.ip_to_path_id@.dom().contains(root_ip)
        &&& forall|k: u32|
            #![trigger self.path_id_to_ip@.dom().contains(k)]
            self.path_id_to_ip@.dom().contains(k) ==> (pc0 <= k < self.path_counter) || (
            g0.path_id_to_ip@.dom().contains(k) && self.path_id_to_ip@[k] == g0.path_id_to_ip@[k])
        &&& forall|k: u32|
            #![trigger g0.path_id_to_ip@.dom().contains(k)]
            g0.path_id_to_ip@.dom().contains(k) ==> self.path_id_to_ip@.dom().contains(k)
        &&& forall|ip: u32|
            #![trigger g0.ip_to_path_id@.dom().contains(ip)]
            g0.ip_to_path_id@.dom().contains(ip) ==> self.ip_to_path_id@.dom().contains(ip)
    }

    /// What the search keeps true between two steps.
    pub open spec fn search_inv(
        &self,
        g0: Graph,
        nodes: Seq<Service>,
        root_ip: u32,
        pc0: u32,
        dist: AssocMap<u32, Option<u64>>,
        q: Seq<(Option<u64>, usize)>,
        popped: nat,
    ) -> bool {
        let qo = g0.queue_order(nodes);
        &&& self.wf(nodes.len())
        &&& *self == (Graph {
            paths: self.paths,
            ip_to_path_id: self.ip_to_path_id,
            path_id_to_ip: self.path_id_to_ip,
            path_counter: self.path_counter,
            ..g0
        })
        &&& dist.wf()
        &&& self.dist_ok(nodes, qo, root_ip, pc0, dist@, popped)
        &&& queue_ok(nodes, qo, dist@, q)
        &&& popped + q.len() == qo.len()
        &&& pc0 < self.path_counter
        &&& self.paths_ok(g0, nodes, qo, root_ip, pc0)
        &&& self.maps_ok(g0, nodes, root_ip, pc0)
    }
}

/// Address of node `u`.
pub open spec fn addr(nodes: Seq<Service>, u: usize) -> u32 {
    nodes[u as int].ip
}

/// Some queued element has address `a`.
pub open spec fn queued_addr(qo: Seq<usize>, nodes: Seq<Service>, a: u32) -> bool {
    exists|k: int| 0 <= k < qo.len() && #[trigger] addr(nodes, qo[k]) == a
}

impl Graph {
    /// The root's address is the address of a queued service and of no
    /// queued bridge, so that the search starts from it at distance zero.
    pub open spec fn root_queued(&self, nodes: Seq<Service>, root_ip: u32) -> bool {
        let sq = service_queue(self.services_by_name.entries@, nodes);
        let bq = bridge_queue(self.bridges_by_name.entries@);
        &&& exists|i: int| 0 <= i < sq.len() && #[trigger] addr(nodes, sq[i]) == root_ip
        &&& forall|i: int| 0 <= i < bq.len() ==> #[trigger] addr(nodes, bq[i]) != root_ip
    }
}

proof fn lemma_service_queue_step(es: Seq<(String, Vec<usize>)>, i: int, nodes: Seq<Service>)
    requires
        0 <= i < es.len(),
    ensures
        service_queue(es.take(i + 1), nodes) == service_queue(es.take(i), nodes) + non_supervisors(
            es[i].1@,
            nodes,
        ),
{
    assert(es.take(i + 1).drop_last() =~= es.take(i));
}

proof fn lemma_non_supervisors_step(g: Seq<usize>, k: int, nodes: Seq<Service>)
    requires
        0 <= k < g.len(),
    ensures
        non_supervisors(g.take(k + 1), nodes) == non_supervisors(g.take(k), nodes) + (if nodes[g[k] as int].supervisor {
            seq![]
        } else {
            seq![g[k]]
        }),
{
    assert(g.take(k + 1).drop_last() =~= g.take(k));
}

proof fn lemma_queue_nodes_push(q: Seq<(Option<u64>, usize)>, e: (Option<u64>, usize))
    ensures
        queue_nodes(q.push(e)) == queue_nodes(q).push(e.1),
{
    assert(queue_nodes(q.push(e)) =~= queue_nodes(q).push(e.1));
}

impl Graph {
    /// Queues every service but the dashboard, at distance zero when it has
    /// the root's address and unknown otherwise, then the first bridge of
    /// each name at unknown distance; each address gets the distance of the
    /// last element queued with it.
    fn build_queue(&self, nodes: &Vec<Service>, root_ip: u32) -> (r: (
        AssocMap<u32, Option<u64>>,
        Vec<(Option<u64>, usize)>,
    ))
        requires
            self.wf(nodes@.len()),
        ensures
            r.0.wf(),
            queue_nodes(r.1@) == self.queue_order(nodes@),
            forall|i: int|
                0 <= i < r.1@.len() ==> #[trigger] r.1@[i].1 < nodes@.len() && r.0@.dom().contains(
                    addr(nodes@, r.1@[i].1),
                ),
            forall|ip: u32|
                #[trigger] r.0@.dom().contains(ip) && r.0@[ip] is Some ==> ip == root_ip && r.0@[ip]
                    == Some(0u64),
            self.root_queued(nodes@, root_ip) ==> r.0@.dom().contains(root_ip) && r.0@[root_ip]
                == Some(0u64) && forall|i: int|
                0 <= i < r.1@.len() ==> #[trigger] r.1@[i].0 == r.0@[addr(nodes@, r.1@[i].1)],
    {
        let mut dist: AssocMap<u32, Option<u64>> = AssocMap::new();
        let mut q: Vec<(Option<u64>, usize)> = Vec::new();
        let ghost es = self.services_by_name.entries@;
        let mut i: usize = 0;
        while i < self.services_by_name.entries.len()
            invariant
                self.wf(nodes@.len()),
                es == self.services_by_name.entries@,
                i <= es.len(),
                dist.wf(),
                queue_nodes(q@) == service_queue(es.take(i as int), nodes@),
                forall|k: int|
                    0 <= k < q@.len() ==> #[trigger] q@[k].1 < nodes@.len() && dist@.dom().contains(
                        addr(nodes@, q@[k].1),
                    ) && q@[k].0 == (if addr(nodes@, q@[k].1) == root_ip {
                        Some(0u64)
                    } else {
                        None
                    }),
                forall|ip: u32|
                    #[trigger] dist@.dom().contains(ip) ==> dist@[ip] == (if ip == root_ip {
                        Some(0u64)
                    } else {
                        None
                    }),
            decreases es.len() - i,
        {
            proof {
                self.services_by_name.lemma_pos(i as int);
                lemma_service_queue_step(es, i as int, nodes@);
                let kv = es[i as int].0@;
                assert(self.services_by_name@.dom().contains(kv));
                assert(self.services_by_name@[kv] == es[i as int].1);
            }
            let group = &self.services_by_name.entries[i].1;
            let ghost base = service_queue(es.take(i as int), nodes@);
            let mut k: usize = 0;
            while k < group.len()
                invariant
                    self.wf(nodes@.len()),
                    es == self.services_by_name.entries@,
                    i < es.len(),
                    *group == es[i as int].1,
                    in_nodes(group@, nodes@.len()),
                    k <= group@.len(),
                    dist.wf(),
                    queue_nodes(q@) == base + non_supervisors(group@.take(k as int), nodes@),
                    forall|kk: int|
                        0 <= kk < q@.len() ==> #[trigger] q@[kk].1 < nodes@.len() && dist@.dom().contains(
                            addr(nodes@, q@[kk].1),
                        ) && q@[kk].0 == (if addr(nodes@, q@[kk].1) == root_ip {
                            Some(0u64)
                        } else {
                            None
                        }),
                    forall|ip: u32|
                        #[trigger] dist@.dom().contains(ip) ==> dist@[ip] == (if ip == root_ip {
                            Some(0u64)
                        } else {
                            None
                        }),
                decreases group@.len() - k,
            {
                proof {
                    lemma_non_supervisors_step(group@, k as int, nodes@);
                }
                let s = group[k];
                if !nodes[s].supervisor {
                    let ip = nodes[s].ip;
                    let d = if ip == root_ip {
                        Some(0u64)
                    } else {
                        None
                    };
                    dist.insert(ip, d);
                    let ghost before = q@;
                    q.push((d, s));
                    proof {
                        lemma_queue_nodes_push(before, (d, s));
                    }
                }
                k = k + 1;
            }
            proof {
                assert(group@.take(group@.len() as int) =~= group@);
            }
            i = i + 1;
        }
        proof {
            assert(es.take(es.len() as int) =~= es);
        }
        let ghost sq = q@;
        let ghost sdist = dist@;
        let ghost bs = self.bridges_by_name.entries@;
        let mut b: usize = 0;
        while b < self.bridges_by_name.entries.len()
            invariant
                self.wf(nodes@.len()),
                bs == self.bridges_by_name.entries@,
                b <= bs.len(),
                dist.wf(),
                queue_nodes(sq) == service_queue(es, nodes@),
                es == self.services_by_name.entries@,
                q@.len() == sq.len() + b,
                q@.subrange(0, sq.len() as int) == sq,
                queue_nodes(q@) == queue_nodes(sq) + bridge_queue(bs).take(b as int),
                forall|k: int|
                    0 <= k < sq.len() ==> #[trigger] sq[k].1 < nodes@.len() && sq[k].0 == (if addr(
                        nodes@,
                        sq[k].1,
                    ) == root_ip {
                        Some(0u64)
                    } else {
                        None
                    }) && sdist.dom().contains(addr(nodes@, sq[k].1)),
                forall|k: int|
                    0 <= k < q@.len() ==> #[trigger] q@[k].1 < nodes@.len() && dist@.dom().contains(
                        addr(nodes@, q@[k].1),
                    ),
                forall|k: int| sq.len() <= k < q@.len() ==> #[trigger] q@[k].0 == None::<u64>,
                forall|ip: u32|
                    #[trigger] sdist.dom().contains(ip) ==> sdist[ip] == (if ip == root_ip {
                        Some(0u64)
                    } else {
                        None
                    }),
                forall|ip: u32| #[trigger] dist@.dom().contains(ip) <==> sdist.dom().contains(ip) || exists|j: int| 0 <= j < b && addr(nodes@, #[trigger] bridge_queue(bs)[j]) == ip,
                forall|ip: u32|
                    #[trigger] dist@.dom().contains(ip) ==> dist@[ip] == (if exists|j: int| 0 <= j < b && addr(nodes@, #[trigger] bridge_queue(bs)[j]) == ip {
                        None
                    } else {
                        sdist[ip]
                    }),
            decreases bs.len() - b,
        {
            proof {
                self.bridges_by_name.lemma_pos(b as int);
                let kv = bs[b as int].0@;
                assert(self.bridges_by_name@.dom().contains(kv));
                assert(self.bridges_by_name@[kv] == bs[b as int].1);
                assert(bs[b as int].1@[0] < nodes@.len());
            }
            let first = self.bridges_by_name.entries[b].1[0];
            let ip = nodes[first].ip;
            dist.insert(ip, None);
            let ghost before = q@;
            q.push((None, first));
            proof {
                lemma_queue_nodes_push(before, (None, first));
                assert(bridge_queue(bs).take(b + 1) =~= bridge_queue(bs).take(b as int).push(first));
                assert(q@.subrange(0, sq.len() as int) =~= before.subrange(0, sq.len() as int));
                assert(addr(nodes@, bridge_queue(bs)[b as int]) == ip);
                assert forall|x: u32| #[trigger] dist@.dom().contains(x) implies dist@[x] == (if exists|j: int| 0 <= j < b + 1 && addr(nodes@, #[trigger] bridge_queue(bs)[j]) == x {
                        None
                    } else {
                        sdist[x]
                    }) by {
                    if x == ip {
                    } else {
                        if exists|j: int| 0 <= j < b + 1 && addr(nodes@, #[trigger] bridge_queue(bs)[j]) == x {
                            let j = choose|j: int| 0 <= j < b + 1 && addr(nodes@, #[trigger] bridge_queue(bs)[j]) == x;
                            assert(j < b);
                        }
                    }
                }
                assert forall|x: u32| #[trigger] dist@.dom().contains(x) <==> sdist.dom().contains(x) || exists|j: int| 0 <= j < b + 1 && addr(nodes@, #[trigger] bridge_queue(bs)[j]) == x by {
                    if x != ip {
                        if exists|j: int| 0 <= j < b + 1 && addr(nodes@, #[trigger] bridge_queue(bs)[j]) == x {
                            let j = choose|j: int| 0 <= j < b + 1 && addr(nodes@, #[trigger] bridge_queue(bs)[j]) == x;
                            assert(j < b);
                        }
                    }
                }
            }
            b = b + 1;
        }
        proof {
            assert(bridge_queue(bs).take(bs.len() as int) =~= bridge_queue(bs));
            if self.root_queued(nodes@, root_ip) {
                let sqs = service_queue(es, nodes@);
                let i0 = choose|i: int| 0 <= i < sqs.len() && #[trigger] addr(nodes@, sqs[i]) == root_ip;
                assert(queue_nodes(sq)[i0] == sq[i0].1);
                assert(sdist.dom().contains(root_ip));
                assert(!(exists|j: int| 0 <= j < bs.len() && addr(nodes@, #[trigger] bridge_queue(bs)[j]) == root_ip));
                assert forall|k: int| 0 <= k < q@.len() implies #[trigger] q@[k].0 == dist@[addr(nodes@, q@[k].1)] by {
                    let a = addr(nodes@, q@[k].1);
                    if k < sq.len() {
                        assert(q@[k] == sq[k]);
                        if exists|j: int| 0 <= j < bs.len() && addr(nodes@, #[trigger] bridge_queue(bs)[j]) == a {
                            assert(a != root_ip);
                        }
                    } else {
                        assert(queue_nodes(q@)[k] == q@[k].1);
                        assert(q@[k].1 == bridge_queue(bs)[k - sq.len()]);
                    }
                }
            }
        }
        (dist, q)
    }
}

/// Seen from `dist`: when address `a` is reached, address `b`, one hop
/// further, is reached too, with at most one more hop.
pub open spec fn closer(dist: Map<u32, Option<u64>>, a: u32, b: u32) -> bool {
    dist.dom().contains(b) && dist[a] is Some ==> dist[b] is Some && dist[b]->0 <= dist[a]->0 + 1
}

/// The first `n` links of node `v` have been followed.
pub open spec fn relaxed_upto(
    links: Map<u16, Link>,
    nodes: Seq<Service>,
    dist: Map<u32, Option<u64>>,
    v: usize,
    n: int,
) -> bool {
    forall|k: int|
        0 <= k < n ==> closer(
            dist,
            addr(nodes, v),
            hop_ip(links, nodes, #[trigger] nodes[v as int].links@[k]),
        )
}

/// Every link of node `v` has been followed.
pub open spec fn relaxed(links: Map<u16, Link>, nodes: Seq<Service>, dist: Map<u32, Option<u64>>, v: usize) -> bool {
    relaxed_upto(links, nodes, dist, v, nodes[v as int].links@.len() as int)
}

/// The order in which the search settles addresses: queued entries carry
/// the distance of their address and are no nearer than `cur`, the distance
/// of the last element taken; the elements taken are no farther and have
/// had all their links followed.
pub open spec fn settled(
    links: Map<u16, Link>,
    nodes: Seq<Service>,
    dist: Map<u32, Option<u64>>,
    q: Seq<(Option<u64>, usize)>,
    popped: Seq<usize>,
    cur: Option<u64>,
    root_ip: u32,
) -> bool {
    &&& dist.dom().contains(root_ip)
    &&& dist[root_ip] == Some(0u64)
    &&& forall|i: int|
        0 <= i < q.len() ==> #[trigger] q[i].0 == dist[addr(nodes, q[i].1)] && dist_le(cur, q[i].0)
    &&& forall|i: int|
        0 <= i < popped.len() ==> dist.dom().contains(addr(nodes, #[trigger] popped[i])) && dist_le(
            dist[addr(nodes, popped[i])],
            cur,
        ) && relaxed(links, nodes, dist, popped[i])
}

/// A walk of queued elements from the root to a queued address is at least
/// as long as the distance found for it, once every element has had its
/// links followed.
proof fn lemma_reach(
    links: Map<u16, Link>,
    qo: Seq<usize>,
    nodes: Seq<Service>,
    root_ip: u32,
    dist: Map<u32, Option<u64>>,
    ls: Seq<u16>,
)
    requires
        dist.dom().contains(root_ip),
        dist[root_ip] == Some(0u64),
        forall|k: int|
            0 <= k < qo.len() ==> dist.dom().contains(addr(nodes, #[trigger] qo[k])) && relaxed(
                links,
                nodes,
                dist,
                qo[k],
            ),
        leads(links, qo, nodes, root_ip, ls),
        dist.dom().contains(walk_end(links, nodes, root_ip, ls)),
    ensures
        dist[walk_end(links, nodes, root_ip, ls)] is Some,
        dist[walk_end(links, nodes, root_ip, ls)]->0 <= ls.len(),
    decreases ls.len(),
{
    if ls.len() > 0 {
        let p = ls.drop_last();
        let l = ls.last();
        let n = ls.len() - 1;
        assert forall|i: int| 0 <= i < p.len() implies links.dom().contains(#[trigger] p[i]) && steps(
            qo,
            nodes,
            if i == 0 {
                root_ip
            } else {
                hop_ip(links, nodes, p[i - 1])
            },
            p[i],
        ) by {
            assert(p[i] == ls[i]);
            if i > 0 {
                assert(p[i - 1] == ls[i - 1]);
            }
        }
        assert(links.dom().contains(ls[n]));
        let a = walk_end(links, nodes, root_ip, p);
        if n > 0 {
            assert(p.last() == ls[n - 1]);
        }
        assert(steps(qo, nodes, a, l));
        let u = choose|u: usize|
            #![trigger qo.contains(u), nodes[u as int].links@.contains(l)]
            qo.contains(u) && nodes[u as int].ip == a && nodes[u as int].links@.contains(l);
        let kq = choose|kq: int| 0 <= kq < qo.len() && qo[kq] == u;
        assert(dist.dom().contains(addr(nodes, qo[kq])));
        lemma_reach(links, qo, nodes, root_ip, dist, p);
        let kl = choose|kl: int| 0 <= kl < nodes[u as int].links@.len() && nodes[u as int].links@[kl] == l;
        assert(relaxed(links, nodes, dist, qo[kq]));
        assert(closer(dist, addr(nodes, u), hop_ip(links, nodes, nodes[u as int].links@[kl])));
    }
}

/// Gives distance `d` to every queued entry at address `ip`.
fn update_queue(q: &mut Vec<(Option<u64>, usize)>, nodes: &Vec<Service>, ip: u32, d: Option<u64>)
    requires
        forall|i: int| 0 <= i < old(q)@.len() ==> #[trigger] old(q)@[i].1 < nodes@.len(),
    ensures
        final(q)@.len() == old(q)@.len(),
        forall|i: int|
            0 <= i < old(q)@.len() ==> #[trigger] final(q)@[i] == (if addr(nodes@, old(q)@[i].1) == ip {
                (d, old(q)@[i].1)
            } else {
                old(q)@[i]
            }),
{
    let ghost q0 = q@;
    let mut i: usize = 0;
    while i < q.len()
        invariant
            q@.len() == q0.len(),
            i <= q@.len(),
            forall|k: int| 0 <= k < q0.len() ==> #[trigger] q0[k].1 < nodes@.len(),
            forall|k: int|
                0 <= k < i ==> #[trigger] q@[k] == (if addr(nodes@, q0[k].1) == ip {
                    (d, q0[k].1)
                } else {
                    q0[k]
                }),
            forall|k: int| i <= k < q@.len() ==> #[trigger] q@[k] == q0[k],
        decreases q@.len() - i,
    {
        let u = q[i].1;
        if nodes[u].ip == ip {
            q.set(i, (d, u));
        }
        i = i + 1;
    }
}

/// The fact kept for one address with a known distance.
proof fn lemma_dist_at(
    s: Graph,
    nodes: Seq<Service>,
    qo: Seq<usize>,
    root_ip: u32,
    pc0: u32,
    dist: Map<u32, Option<u64>>,
    bound: nat,
    ip: u32,
)
    requires
        s.dist_ok(nodes, qo, root_ip, pc0, dist, bound),
        dist.dom().contains(ip),
        dist[ip] is Some,
    ensures
        dist[ip]->0 <= bound,
        s.dist_fact(nodes, qo, root_ip, pc0, ip, dist[ip]->0),
{
    reveal(Graph::dist_ok);
}

/// A queued entry is an element of the search at a known address.
proof fn lemma_queue_at(nodes: Seq<Service>, qo: Seq<usize>, dist: Map<u32, Option<u64>>, q: Seq<(Option<u64>, usize)>, i: int)
    requires
        queue_ok(nodes, qo, dist, q),
        0 <= i < q.len(),
    ensures
        qo.contains(q[i].1),
        dist.dom().contains(nodes[q[i].1 as int].ip),
{
    reveal(queue_ok);
}

impl Graph {
    /// The search while the links of `u`, taken out of the queue at
    /// distance `du` after the elements `popped`, are followed up to the
    /// `j`-th.
    pub open spec fn step_inv(
        &self,
        g0: Graph,
        nodes: Seq<Service>,
        root_ip: u32,
        pc0: u32,
        dist: AssocMap<u32, Option<u64>>,
        q: Seq<(Option<u64>, usize)>,
        popped: Seq<usize>,
        u: usize,
        du: Option<u64>,
        rootq: bool,
        j: int,
    ) -> bool {
        let qo = g0.queue_order(nodes);
        let m = max_links(nodes);
        &&& self.search_inv(g0, nodes, root_ip, pc0, dist, q, popped.len() + 1)
        &&& forall|k: int| 0 <= k < qo.len() ==> #[trigger] qo[k] < nodes.len()
        &&& qo.contains(u)
        &&& u < nodes.len()
        &&& dist@.dom().contains(addr(nodes, u))
        &&& dist@[addr(nodes, u)] == du
        &&& (du matches Some(d) ==> d <= popped.len())
        &&& 0 <= j <= nodes[u as int].links@.len()
        &&& self.path_counter <= pc0 + 1 + popped.len() * m + j
        &&& popped.len() + 1 <= qo.len()
        &&& pc0 + 1 + qo.len() * m <= u32::MAX
        &&& g0.links_known(nodes)
        &&& rootq ==> settled(g0.links@, nodes, dist@, q, popped, du, root_ip) && relaxed_upto(
            g0.links@,
            nodes,
            dist@,
            u,
            j,
        )
    }

    /// Follows the `j`-th link of `u`: an address that is queued and is
    /// farther than one more hop gets the path of `u` extended by the link.
    #[verifier::spinoff_prover]
    fn relax(
        &mut self,
        nodes: &Vec<Service>,
        dist: &mut AssocMap<u32, Option<u64>>,
        q: &mut Vec<(Option<u64>, usize)>,
        u: usize,
        j: usize,
        Ghost(g0): Ghost<Graph>,
        Ghost(root_ip): Ghost<u32>,
        Ghost(pc0): Ghost<u32>,
        Ghost(popped): Ghost<Seq<usize>>,
        Ghost(du): Ghost<Option<u64>>,
        Ghost(rootq): Ghost<bool>,
    )
        requires
            old(self).step_inv(g0, nodes@, root_ip, pc0, *old(dist), old(q)@, popped, u, du, rootq, j as int),
            j < nodes@[u as int].links@.len(),
        ensures
            final(self).step_inv(g0, nodes@, root_ip, pc0, *final(dist), final(q)@, popped, u, du, rootq, j + 1),
            queue_nodes(final(q)@) == queue_nodes(old(q)@),
            final(dist)@.dom() == old(dist)@.dom(),
    {
        let ghost qo = g0.queue_order(nodes@);
        let ghost m = max_links(nodes@);
        proof {
            lemma_max_links(nodes@, u as int);
            assert(self.links@.dom().contains(nodes@[u as int].links@[j as int]));
        }
        let link = nodes[u].links[j];
        let node_ip = nodes[u].ip;
        let alt = match *dist.get(&node_ip).unwrap() {
            Some(d) => {
                proof {
                    assert(qo.len() <= qo.len() * m) by (nonlinear_arith)
                        requires
                            m >= 1,
                    ;
                }
                Some(d + 1)
            },
            None => None,
        };
        let dst = self.links.get(&link).unwrap().destination;
        let destination_ip = nodes[dst].ip;
        if !dist.contains_key(&destination_ip) {
            proof {
                lemma_relax_kept(self, g0, nodes@, root_ip, pc0, *dist, q@, popped, u, du, rootq, j as int);
            }
            return;
        }
        let known = *dist.get(&destination_ip).unwrap();
        if shorter(alt, known) {
            let ghost old_self = *self;
            let ghost old_dist = *dist;
            let ghost old_q = q@;
            proof {
                lemma_dist_at(old_self, nodes@, qo, root_ip, pc0, old_dist@, (popped.len() + 1) as nat, node_ip);
                lemma_budget((popped.len() + 1) as int, m as int, qo.len() as int);
                assert forall|i: int| 0 <= i < old_q.len() implies #[trigger] old_q[i].1 < nodes@.len() by {
                    lemma_queue_at(nodes@, qo, old_dist@, old_q, i);
                    let k = choose|k: int| 0 <= k < qo.len() && qo[k] == old_q[i].1;
                    assert(qo[k] < nodes@.len());
                }
            }
            self.improve(nodes, dist, q, node_ip, destination_ip, alt, link);
            proof {
                lemma_improve(old_self, *self, g0, nodes@, root_ip, pc0, old_dist, *dist, old_q, q@, popped, u, du, rootq, j as int);
            }
        } else {
            proof {
                lemma_relax_kept(self, g0, nodes@, root_ip, pc0, *dist, q@, popped, u, du, rootq, j as int);
            }
        }
    }
}

impl Graph {
    /// Records the improvement: address `destination_ip` gets distance
    /// `alt` and a new path, the path of `node_ip` extended by `link`.
    fn improve(
        &mut self,
        nodes: &Vec<Service>,
        dist: &mut AssocMap<u32, Option<u64>>,
        q: &mut Vec<(Option<u64>, usize)>,
        node_ip: u32,
        destination_ip: u32,
        alt: Option<u64>,
        link: u16,
    )
        requires
            old(self).ip_to_path_id.wf(),
            old(self).path_id_to_ip.wf(),
            old(self).paths.wf(),
            old(dist).wf(),
            old(self).ip_to_path_id@.dom().contains(node_ip),
            old(self).paths@.dom().contains(old(self).ip_to_path_id@[node_ip]),
            old(self).path_counter < u32::MAX,
            forall|i: int| 0 <= i < old(q)@.len() ==> #[trigger] old(q)@[i].1 < nodes@.len(),
        ensures
            ({
                let pc = old(self).path_counter;
                let pid = old(self).ip_to_path_id@[node_ip];
                &&& final(dist).wf()
                &&& final(dist)@ == old(dist)@.insert(destination_ip, alt)
                &&& final(self).paths.wf()
                &&& final(self).paths@ == old(self).paths@.insert(pc, final(self).paths@[pc])
                &&& final(self).paths@[pc].id == pc
                &&& final(self).paths@[pc].links@ == old(self).paths@[pid].links@.push(link)
                &&& final(self).ip_to_path_id.wf()
                &&& final(self).ip_to_path_id@ == old(self).ip_to_path_id@.insert(destination_ip, pc)
                &&& final(self).path_id_to_ip.wf()
                &&& final(self).path_id_to_ip@ == old(self).path_id_to_ip@.insert(pc, destination_ip)
                &&& final(self).path_counter == pc + 1
                &&& *final(self) == (Graph {
                    paths: final(self).paths,
                    ip_to_path_id: final(self).ip_to_path_id,
                    path_id_to_ip: final(self).path_id_to_ip,
                    path_counter: final(self).path_counter,
                    ..*old(self)
                })
            }),
            final(q)@.len() == old(q)@.len(),
            forall|i: int|
                0 <= i < old(q)@.len() ==> #[trigger] final(q)@[i] == (if addr(nodes@, old(q)@[i].1)
                    == destination_ip {
                    (alt, old(q)@[i].1)
                } else {
                    old(q)@[i]
                }),
    {
        dist.insert(destination_ip, alt);
        let path_id = *self.ip_to_path_id.get(&node_ip).unwrap();
        let mut new_links = copy_ids(&self.paths.get(&path_id).unwrap().links);
        new_links.push(link);
        let new_path_id = self.path_counter;
        self.insert_path(new_path_id, new_links);
        self.insert_ip_to_path(destination_ip, new_path_id);
        self.path_counter = self.path_counter + 1;
        update_queue(q, nodes, destination_ip, alt);
    }
}

/// Recording an improvement found by following the `j`-th link of `u`
/// moves the search on to the next link.
#[verifier::spinoff_prover]
proof fn lemma_improve(
    s0: Graph,
    s1: Graph,
    g0: Graph,
    nodes: Seq<Service>,
    root_ip: u32,
    pc0: u32,
    dist0: AssocMap<u32, Option<u64>>,
    dist1: AssocMap<u32, Option<u64>>,
    q0: Seq<(Option<u64>, usize)>,
    q1: Seq<(Option<u64>, usize)>,
    popped: Seq<usize>,
    u: usize,
    du: Option<u64>,
    rootq: bool,
    j: int,
)
    requires
        s0.step_inv(g0, nodes, root_ip, pc0, dist0, q0, popped, u, du, rootq, j),
        0 <= j < nodes[u as int].links@.len(),
        du is Some,
        du->0 + 1 <= u64::MAX,
        s0.path_counter + 1 <= u32::MAX,
        ({
            let l = nodes[u as int].links@[j];
            let b = hop_ip(g0.links@, nodes, l);
            let alt = Some((du->0 + 1) as u64);
            let pc = s0.path_counter;
            let pid = s0.ip_to_path_id@[addr(nodes, u)];
            &&& dist0@.dom().contains(b)
            &&& dist_lt(alt, dist0@[b])
            &&& dist1.wf()
            &&& dist1@ == dist0@.insert(b, alt)
            &&& s1.paths.wf()
            &&& s1.paths@ == s0.paths@.insert(pc, s1.paths@[pc])
            &&& s1.paths@[pc].id == pc
            &&& s1.paths@[pc].links@ == s0.paths@[pid].links@.push(l)
            &&& s1.ip_to_path_id.wf()
            &&& s1.ip_to_path_id@ == s0.ip_to_path_id@.insert(b, pc)
            &&& s1.path_id_to_ip.wf()
            &&& s1.path_id_to_ip@ == s0.path_id_to_ip@.insert(pc, b)
            &&& s1.path_counter == pc + 1
            &&& s1 == (Graph {
                paths: s1.paths,
                ip_to_path_id: s1.ip_to_path_id,
                path_id_to_ip: s1.path_id_to_ip,
                path_counter: s1.path_counter,
                ..s0
            })
            &&& q1.len() == q0.len()
            &&& forall|i: int|
                0 <= i < q0.len() ==> #[trigger] q1[i] == (if addr(nodes, q0[i].1) == b {
                    (alt, q0[i].1)
                } else {
                    q0[i]
                })
        }),
    ensures
        s1.step_inv(g0, nodes, root_ip, pc0, dist1, q1, popped, u, du, rootq, j + 1),
        queue_nodes(q1) == queue_nodes(q0),
        dist1@.dom() == dist0@.dom(),
{
    let qo = g0.queue_order(nodes);
    let m = max_links(nodes);
    let l = nodes[u as int].links@[j];
    let b = hop_ip(g0.links@, nodes, l);
    let a = addr(nodes, u);
    assert(b != a);
    assert(queue_nodes(q1) =~= queue_nodes(q0));
    assert(dist1@.dom() =~= dist0@.dom());
    assert(g0.links@.dom().contains(l)) by {
        assert(qo.contains(u));
    }
    lemma_relax_search(s0, s1, g0, nodes, root_ip, pc0, dist0, dist1, q0, q1, (popped.len() + 1) as nat, u, j);
    if rootq {
        lemma_relax_settled(g0.links@, nodes, dist0@, dist1@, q0, q1, popped, u, du, root_ip, j);
    }
    assert(s1.path_counter <= pc0 + 1 + popped.len() * m + j + 1);
}

/// Following the `j`-th link of `u` changed nothing: its destination is
/// not queued, or is no farther than one more hop.
proof fn lemma_relax_kept(
    s: &Graph,
    g0: Graph,
    nodes: Seq<Service>,
    root_ip: u32,
    pc0: u32,
    dist: AssocMap<u32, Option<u64>>,
    q: Seq<(Option<u64>, usize)>,
    popped: Seq<usize>,
    u: usize,
    du: Option<u64>,
    rootq: bool,
    j: int,
)
    requires
        s.step_inv(g0, nodes, root_ip, pc0, dist, q, popped, u, du, rootq, j),
        0 <= j < nodes[u as int].links@.len(),
        ({
            let b = hop_ip(g0.links@, nodes, nodes[u as int].links@[j]);
            !dist@.dom().contains(b) || !dist_lt(
                match du {
                    Some(d) => Some((d + 1) as u64),
                    None => None,
                },
                dist@[b],
            )
        }),
        du matches Some(d) ==> d + 1 <= u64::MAX,
    ensures
        s.step_inv(g0, nodes, root_ip, pc0, dist, q, popped, u, du, rootq, j + 1),
{
    let qo = g0.queue_order(nodes);
    let m = max_links(nodes);
    lemma_max_links(nodes, u as int);
    assert(s.path_counter <= pc0 + 1 + popped.len() * m + j + 1);
    if rootq {
        let links = g0.links@;
        assert forall|k: int| 0 <= k < j + 1 implies closer(
            dist@,
            addr(nodes, u),
            hop_ip(links, nodes, #[trigger] nodes[u as int].links@[k]),
        ) by {
            if k < j {
                assert(relaxed_upto(links, nodes, dist@, u, j));
            }
        }
    }
}

/// The distances after one improvement: the destination `b` gets a new
/// path of length `newd`.
proof fn lemma_relax_dist(
    s0: Graph,
    s1: Graph,
    nodes: Seq<Service>,
    qo: Seq<usize>,
    root_ip: u32,
    pc0: u32,
    dist0: Map<u32, Option<u64>>,
    dist1: Map<u32, Option<u64>>,
    np: nat,
    b: u32,
    newd: u64,
)
    requires
        s0.dist_ok(nodes, qo, root_ip, pc0, dist0, np),
        dist1 == dist0.insert(b, Some(newd)),
        newd <= np,
        pc0 <= s0.path_counter,
        s1.path_counter == s0.path_counter + 1,
        s1.links@ == s0.links@,
        s1.ip_to_path_id@ == s0.ip_to_path_id@.insert(b, s0.path_counter),
        s1.paths@ == s0.paths@.insert(s0.path_counter, s1.paths@[s0.path_counter as u32]),
        leads(s1.links@, qo, nodes, root_ip, s1.paths@[s0.path_counter].links@),
        walk_end(s1.links@, nodes, root_ip, s1.paths@[s0.path_counter].links@) == b,
        s1.paths@[s0.path_counter].links@.len() == newd,
    ensures
        s1.dist_ok(nodes, qo, root_ip, pc0, dist1, np),
{
    reveal(Graph::dist_ok);
    assert forall|ip: u32| #![trigger dist1.dom().contains(ip)] dist1.dom().contains(ip) && dist1[ip] is Some
        implies dist1[ip]->0 <= np && s1.dist_fact(nodes, qo, root_ip, pc0, ip, dist1[ip]->0) by {
        if ip != b {
            assert(dist0.dom().contains(ip));
            assert(s0.dist_fact(nodes, qo, root_ip, pc0, ip, dist0[ip]->0));
        }
    }
}

/// The paths after one improvement add the path `pc` to address `b`.
proof fn lemma_relax_paths(
    s0: Graph,
    s1: Graph,
    g0: Graph,
    nodes: Seq<Service>,
    qo: Seq<usize>,
    root_ip: u32,
    pc0: u32,
    b: u32,
)
    requires
        s0.paths_ok(g0, nodes, qo, root_ip, pc0),
        pc0 < s0.path_counter,
        s1.path_counter == s0.path_counter + 1,
        s1.links@ == s0.links@,
        s1.paths@ == s0.paths@.insert(s0.path_counter, s1.paths@[s0.path_counter as u32]),
        s1.path_id_to_ip@ == s0.path_id_to_ip@.insert(s0.path_counter, b),
        s1.paths@[s0.path_counter].id == s0.path_counter,
        s1.paths@[s0.path_counter].links@.len() > 0,
        leads(s1.links@, qo, nodes, root_ip, s1.paths@[s0.path_counter].links@),
        walk_end(s1.links@, nodes, root_ip, s1.paths@[s0.path_counter].links@) == b,
    ensures
        s1.paths_ok(g0, nodes, qo, root_ip, pc0),
{
    reveal(Graph::paths_ok);
    let pc = s0.path_counter;
    assert forall|k: u32| pc0 <= k < s1.path_counter implies #[trigger] s1.paths@.dom().contains(k) && leads(
        s1.links@,
        qo,
        nodes,
        root_ip,
        s1.paths@[k].links@,
    ) && s1.path_id_to_ip@.dom().contains(k) && s1.path_id_to_ip@[k] == walk_end(
        s1.links@,
        nodes,
        root_ip,
        s1.paths@[k].links@,
    ) && s1.paths@[k].id == k by {
        if k != pc {
            assert(s0.paths@.dom().contains(k));
        }
    }
    assert forall|k: u32| pc0 < k < s1.path_counter implies #[trigger] s1.paths@[k].links@.len() > 0 by {
        if k != pc {
            assert(s0.paths@[k].links@.len() > 0);
        }
    }
    assert forall|k: u32| #[trigger]
        s1.paths@.dom().contains(k) <==> g0.paths@.dom().contains(k) || (pc0 <= k < s1.path_counter) by {
        if k != pc {
            assert(s1.paths@.dom().contains(k) == s0.paths@.dom().contains(k));
        }
    }
    assert forall|k: u32|
        #![trigger g0.paths@[k]]
        g0.paths@.dom().contains(k) && !(pc0 <= k < s1.path_counter) implies s1.paths@[k] == g0.paths@[k] by {
        assert(s0.paths@[k] == g0.paths@[k]);
    }
    assert(s1.paths@[pc0] == s0.paths@[pc0]);
}

/// Changing only the paths and the tables between addresses and paths
/// keeps a graph well formed when every path keeps its own id.
proof fn lemma_wf_paths(s0: Graph, s1: Graph, n: nat)
    requires
        s0.wf(n),
        s1 == (Graph {
            paths: s1.paths,
            ip_to_path_id: s1.ip_to_path_id,
            path_id_to_ip: s1.path_id_to_ip,
            path_counter: s1.path_counter,
            ..s0
        }),
        s1.paths.wf(),
        s1.ip_to_path_id.wf(),
        s1.path_id_to_ip.wf(),
        forall|k: u32| #[trigger] s1.paths@.dom().contains(k) ==> s1.paths@[k].id == k,
    ensures
        s1.wf(n),
{
}

/// The two tables after one improvement point `b` to path `pc` and back.
proof fn lemma_relax_maps(s0: Graph, s1: Graph, g0: Graph, nodes: Seq<Service>, root_ip: u32, pc0: u32, b: u32)
    requires
        s0.maps_ok(g0, nodes, root_ip, pc0),
        pc0 <= s0.path_counter,
        s1.path_counter == s0.path_counter + 1,
        s1.links@ == s0.links@,
        s1.paths@ == s0.paths@.insert(s0.path_counter, s1.paths@[s0.path_counter as u32]),
        s1.ip_to_path_id@ == s0.ip_to_path_id@.insert(b, s0.path_counter),
        s1.path_id_to_ip@ == s0.path_id_to_ip@.insert(s0.path_counter, b),
        walk_end(s1.links@, nodes, root_ip, s1.paths@[s0.path_counter].links@) == b,
    ensures
        s1.maps_ok(g0, nodes, root_ip, pc0),
{
    reveal(Graph::maps_ok);
    let pc = s0.path_counter;
    assert forall|ip: u32| #![trigger s1.ip_to_path_id@.dom().contains(ip)] s1.ip_to_path_id@.dom().contains(ip) implies
        (g0.ip_to_path_id@.dom().contains(ip) && s1.ip_to_path_id@[ip] == g0.ip_to_path_id@[ip]) || (pc0 <= s1.ip_to_path_id@[ip]
            < s1.path_counter && walk_end(s1.links@, nodes, root_ip, s1.paths@[s1.ip_to_path_id@[ip]].links@) == ip) by {
        if ip != b {
            assert(s0.ip_to_path_id@.dom().contains(ip));
        }
    }
}

/// What following a link that shortens the way to its destination keeps of
/// the search.
#[verifier::spinoff_prover]
#[verifier::rlimit(40)]
proof fn lemma_relax_search(
    s0: Graph,
    s1: Graph,
    g0: Graph,
    nodes: Seq<Service>,
    root_ip: u32,
    pc0: u32,
    dist0: AssocMap<u32, Option<u64>>,
    dist1: AssocMap<u32, Option<u64>>,
    q0: Seq<(Option<u64>, usize)>,
    q1: Seq<(Option<u64>, usize)>,
    np: nat,
    u: usize,
    j: int,
)
    requires
        s0.search_inv(g0, nodes, root_ip, pc0, dist0, q0, np),
        g0.queue_order(nodes).contains(u),
        u < nodes.len(),
        0 <= j < nodes[u as int].links@.len(),
        g0.links@.dom().contains(nodes[u as int].links@[j]),
        dist0@.dom().contains(addr(nodes, u)),
        dist0@[addr(nodes, u)] is Some,
        dist0@[addr(nodes, u)]->0 + 1 <= np,
        dist0@[addr(nodes, u)]->0 + 1 <= u64::MAX,
        ({
            let b = hop_ip(g0.links@, nodes, nodes[u as int].links@[j]);
            let alt = Some((dist0@[addr(nodes, u)]->0 + 1) as u64);
            let pid = s0.ip_to_path_id@[addr(nodes, u)];
            let pc = s0.path_counter;
            &&& dist0@.dom().contains(b)
            &&& dist_lt(alt, dist0@[b])
            &&& dist1.wf()
            &&& dist1@ == dist0@.insert(b, alt)
            &&& s1.paths.wf()
            &&& s1.paths@ == s0.paths@.insert(pc, s1.paths@[pc])
            &&& s1.paths@[pc].id == pc
            &&& s1.paths@[pc].links@ == s0.paths@[pid].links@.push(nodes[u as int].links@[j])
            &&& s1.ip_to_path_id.wf()
            &&& s1.ip_to_path_id@ == s0.ip_to_path_id@.insert(b, pc)
            &&& s1.path_id_to_ip.wf()
            &&& s1.path_id_to_ip@ == s0.path_id_to_ip@.insert(pc, b)
            &&& s1.path_counter == pc + 1
            &&& s1 == (Graph {
                paths: s1.paths,
                ip_to_path_id: s1.ip_to_path_id,
                path_id_to_ip: s1.path_id_to_ip,
                path_counter: s1.path_counter,
                ..s0
            })
        }),
        s0.path_counter + 1 <= u32::MAX,
        queue_nodes(q1) == queue_nodes(q0),
        q1.len() == q0.len(),
    ensures
        s1.search_inv(g0, nodes, root_ip, pc0, dist1, q1, np),
{
    let qo = g0.queue_order(nodes);
    let links = g0.links@;
    let l = nodes[u as int].links@[j];
    let b = hop_ip(links, nodes, l);
    let a = addr(nodes, u);
    let d = dist0@[a]->0;
    let pid = s0.ip_to_path_id@[a];
    let pc = s0.path_counter;
    lemma_dist_at(s0, nodes, qo, root_ip, pc0, dist0@, np, a);
    assert(nodes[u as int].links@.contains(l));
    assert(steps(qo, nodes, a, l));
    lemma_leads_push(links, qo, nodes, root_ip, s0.paths@[pid].links@, l);
    lemma_relax_dist(s0, s1, nodes, qo, root_ip, pc0, dist0@, dist1@, np, b, (d + 1) as u64);
    lemma_relax_paths(s0, s1, g0, nodes, qo, root_ip, pc0, b);
    lemma_relax_maps(s0, s1, g0, nodes, root_ip, pc0, b);
    assert(queue_ok(nodes, qo, dist1@, q1)) by {
        reveal(queue_ok);
        assert forall|i: int| 0 <= i < q1.len() implies qo.contains(#[trigger] q1[i].1) && dist1@.dom().contains(
            nodes[q1[i].1 as int].ip,
        ) by {
            assert(queue_nodes(q1)[i] == q1[i].1);
            assert(queue_nodes(q0)[i] == q0[i].1);
            assert(queue_nodes(q1)[i] == queue_nodes(q0)[i]);
            assert(q1[i].1 == q0[i].1);
            assert(qo.contains(q0[i].1));
            assert(dist0@.dom().contains(nodes[q0[i].1 as int].ip));
        }
    }
    assert forall|k: u32| #[trigger] s1.paths@.dom().contains(k) implies s1.paths@[k].id == k by {
        if k != pc {
            assert(s0.paths@.dom().contains(k));
        }
    }
    lemma_wf_paths(s0, s1, nodes.len());
    assert(s1.wf(nodes.len()));
    assert(s1 == (Graph {
            paths: s1.paths,
            ip_to_path_id: s1.ip_to_path_id,
            path_id_to_ip: s1.path_id_to_ip,
            path_counter: s1.path_counter,
            ..g0
        }));
    assert(dist1.wf());
    assert(s1.dist_ok(nodes, qo, root_ip, pc0, dist1@, np));
    assert(queue_ok(nodes, qo, dist1@, q1));
    assert(np + q1.len() == qo.len());
    assert(pc0 < s1.path_counter);
    assert(s1.paths_ok(g0, nodes, qo, root_ip, pc0));
    assert(s1.maps_ok(g0, nodes, root_ip, pc0));
}

/// What following a link that shortens the way to its destination keeps of
/// the order of the search.
#[verifier::spinoff_prover]
proof fn lemma_relax_settled(
    links: Map<u16, Link>,
    nodes: Seq<Service>,
    dist0: Map<u32, Option<u64>>,
    dist1: Map<u32, Option<u64>>,
    q0: Seq<(Option<u64>, usize)>,
    q1: Seq<(Option<u64>, usize)>,
    popped: Seq<usize>,
    u: usize,
    du: Option<u64>,
    root_ip: u32,
    j: int,
)
    requires
        settled(links, nodes, dist0, q0, popped, du, root_ip),
        relaxed_upto(links, nodes, dist0, u, j),
        0 <= j < nodes[u as int].links@.len(),
        dist0.dom().contains(addr(nodes, u)),
        dist0[addr(nodes, u)] == du,
        du is Some,
        du->0 + 1 <= u64::MAX,
        ({
            let b = hop_ip(links, nodes, nodes[u as int].links@[j]);
            let alt = Some((du->0 + 1) as u64);
            &&& dist0.dom().contains(b)
            &&& dist_lt(alt, dist0[b])
            &&& dist1 == dist0.insert(b, alt)
            &&& q1.len() == q0.len()
            &&& forall|i: int|
                0 <= i < q0.len() ==> #[trigger] q1[i] == (if addr(nodes, q0[i].1) == b {
                    (alt, q0[i].1)
                } else {
                    q0[i]
                })
        }),
    ensures
        settled(links, nodes, dist1, q1, popped, du, root_ip),
        relaxed_upto(links, nodes, dist1, u, j + 1),
{
    let b = hop_ip(links, nodes, nodes[u as int].links@[j]);
    let alt = Some((du->0 + 1) as u64);
    let a = addr(nodes, u);
    assert(b != root_ip);
    assert(b != a);
    assert forall|i: int| 0 <= i < q1.len() implies #[trigger] q1[i].0 == dist1[addr(nodes, q1[i].1)] && dist_le(
        du,
        q1[i].0,
    ) by {
        assert(q0[i].0 == dist0[addr(nodes, q0[i].1)] && dist_le(du, q0[i].0));
    }
    assert forall|i: int| 0 <= i < popped.len() implies dist1.dom().contains(addr(nodes, #[trigger] popped[i]))
        && dist_le(dist1[addr(nodes, popped[i])], du) && relaxed(links, nodes, dist1, popped[i]) by {
        let v = popped[i];
        assert(dist0.dom().contains(addr(nodes, v)) && dist_le(dist0[addr(nodes, v)], du) && relaxed(links, nodes, dist0, v));
        assert(addr(nodes, v) != b);
        assert forall|k: int| 0 <= k < nodes[v as int].links@.len() implies closer(
            dist1,
            addr(nodes, v),
            hop_ip(links, nodes, #[trigger] nodes[v as int].links@[k]),
        ) by {
            assert(closer(dist0, addr(nodes, v), hop_ip(links, nodes, nodes[v as int].links@[k])));
        }
    }
    assert forall|k: int| 0 <= k < j + 1 implies closer(
        dist1,
        a,
        hop_ip(links, nodes, #[trigger] nodes[u as int].links@[k]),
    ) by {
        if k < j {
            assert(closer(dist0, a, hop_ip(links, nodes, nodes[u as int].links@[k])));
        }
    }
}

/// `p` carries the names of the element its first link leaves and of the
/// element its last link reaches; none when it has no links.
pub open spec fn named(p: Path, links: Map<u16, Link>, nodes: Seq<Service>) -> bool {
    if p.links@.len() == 0 {
        p.start@.len() == 0 && p.finish@.len() == 0
    } else {
        &&& p.start@ == nodes[links[p.links@[0]].source as int].hostname@
        &&& p.finish@ == nodes[links[p.links@[p.links@.len() - 1]].destination as int].hostname@
    }
}

impl Graph {
    /// Address of the root.
    pub open spec fn root_addr(&self, nodes: Seq<Service>) -> u32 {
        nodes[self.graph_root->0 as int].ip
    }

    /// The search between two elements taken out of the queue.
    pub open spec fn loop_inv(
        &self,
        g0: Graph,
        nodes: Seq<Service>,
        root_ip: u32,
        pc0: u32,
        dist: AssocMap<u32, Option<u64>>,
        q: Seq<(Option<u64>, usize)>,
        popped: Seq<usize>,
        cur: Option<u64>,
        rootq: bool,
    ) -> bool {
        let qo = g0.queue_order(nodes);
        let m = max_links(nodes);
        &&& self.search_inv(g0, nodes, root_ip, pc0, dist, q, popped.len())
        &&& forall|k: int|
            0 <= k < qo.len() ==> #[trigger] qo[k] < nodes.len() && dist@.dom().contains(addr(nodes, qo[k]))
                && (popped.contains(qo[k]) || queue_nodes(q).contains(qo[k]))
        &&& forall|i: int| 0 <= i < popped.len() ==> qo.contains(#[trigger] popped[i])
        &&& self.path_counter <= pc0 + 1 + popped.len() * m
        &&& pc0 + 1 + qo.len() * m <= u32::MAX
        &&& g0.links_known(nodes)
        &&& rootq ==> settled(g0.links@, nodes, dist@, q, popped, cur, root_ip)
    }

    /// Follows every link of `u`, in order.
    fn relax_links(
        &mut self,
        nodes: &Vec<Service>,
        dist: &mut AssocMap<u32, Option<u64>>,
        q: &mut Vec<(Option<u64>, usize)>,
        u: usize,
        Ghost(g0): Ghost<Graph>,
        Ghost(root_ip): Ghost<u32>,
        Ghost(pc0): Ghost<u32>,
        Ghost(popped): Ghost<Seq<usize>>,
        Ghost(du): Ghost<Option<u64>>,
        Ghost(rootq): Ghost<bool>,
    )
        requires
            old(self).step_inv(g0, nodes@, root_ip, pc0, *old(dist), old(q)@, popped, u, du, rootq, 0),
        ensures
            final(self).step_inv(
                g0,
                nodes@,
                root_ip,
                pc0,
                *final(dist),
                final(q)@,
                popped,
                u,
                du,
                rootq,
                nodes@[u as int].links@.len() as int,
            ),
            queue_nodes(final(q)@) == queue_nodes(old(q)@),
            final(dist)@.dom() == old(dist)@.dom(),
    {
        let n = nodes[u].links.len();
        let mut j: usize = 0;
        while j < n
            invariant
                self.step_inv(g0, nodes@, root_ip, pc0, *dist, q@, popped, u, du, rootq, j as int),
                n == nodes@[u as int].links@.len(),
                j <= n,
                queue_nodes(q@) == queue_nodes(old(q)@),
                dist@.dom() == old(dist)@.dom(),
            decreases n - j,
        {
            self.relax(nodes, dist, q, u, j, Ghost(g0), Ghost(root_ip), Ghost(pc0), Ghost(popped), Ghost(du), Ghost(rootq));
            j = j + 1;
        }
    }
}

/// Entries of a sorted copy of the queue are entries of the queue.
proof fn lemma_same_entries(q: Seq<(Option<u64>, usize)>, r: Seq<(Option<u64>, usize)>)
    requires
        r.to_multiset() == q.to_multiset(),
    ensures
        forall|x: (Option<u64>, usize)| r.contains(x) <==> q.contains(x),
        forall|u: usize| queue_nodes(r).contains(u) <==> queue_nodes(q).contains(u),
{
    assert forall|x: (Option<u64>, usize)| r.contains(x) <==> q.contains(x) by {
        assert(r.contains(x) <==> r.to_multiset().count(x) > 0);
        assert(q.contains(x) <==> q.to_multiset().count(x) > 0);
    }
    assert forall|u: usize| queue_nodes(r).contains(u) <==> queue_nodes(q).contains(u) by {
        if queue_nodes(r).contains(u) {
            let i = choose|i: int| 0 <= i < queue_nodes(r).len() && queue_nodes(r)[i] == u;
            assert(r.contains(r[i]));
            let k = choose|k: int| 0 <= k < q.len() && q[k] == r[i];
            assert(queue_nodes(q)[k] == u);
        }
        if queue_nodes(q).contains(u) {
            let i = choose|i: int| 0 <= i < queue_nodes(q).len() && queue_nodes(q)[i] == u;
            assert(q.contains(q[i]));
            let k = choose|k: int| 0 <= k < r.len() && r[k] == q[i];
            assert(queue_nodes(r)[k] == u);
        }
    }
}

/// A larger bound on the distances keeps the facts about them.
proof fn lemma_dist_bound(
    s: Graph,
    nodes: Seq<Service>,
    qo: Seq<usize>,
    root_ip: u32,
    pc0: u32,
    dist: Map<u32, Option<u64>>,
    b0: nat,
    b1: nat,
)
    requires
        s.dist_ok(nodes, qo, root_ip, pc0, dist, b0),
        b0 <= b1,
    ensures
        s.dist_ok(nodes, qo, root_ip, pc0, dist, b1),
{
    reveal(Graph::dist_ok);
}

/// Taking the nearest entry out of the sorted queue starts following its
/// links.
#[verifier::spinoff_prover]
proof fn lemma_pop(
    s: Graph,
    g0: Graph,
    nodes: Seq<Service>,
    root_ip: u32,
    pc0: u32,
    dist: AssocMap<u32, Option<u64>>,
    q: Seq<(Option<u64>, usize)>,
    r: Seq<(Option<u64>, usize)>,
    popped: Seq<usize>,
    cur: Option<u64>,
    rootq: bool,
)
    requires
        s.loop_inv(g0, nodes, root_ip, pc0, dist, q, popped, cur, rootq),
        r.to_multiset() == q.to_multiset(),
        r.len() == q.len(),
        sorted_by_dist(r),
        r.len() > 0,
    ensures
        s.step_inv(
            g0,
            nodes,
            root_ip,
            pc0,
            dist,
            r.remove(0),
            popped,
            r[0].1,
            dist@[addr(nodes, r[0].1)],
            rootq,
            0,
        ),
        forall|k: int|
            0 <= k < g0.queue_order(nodes).len() ==> (popped.push(r[0].1).contains(
                #[trigger] g0.queue_order(nodes)[k],
            ) || queue_nodes(r.remove(0)).contains(g0.queue_order(nodes)[k])),
{
    let qo = g0.queue_order(nodes);
    let m = max_links(nodes);
    let q1 = r.remove(0);
    let u = r[0].1;
    lemma_same_entries(q, r);
    assert(r.contains(r[0]));
    assert(q.contains(r[0]));
    let i0 = choose|i: int| 0 <= i < q.len() && q[i] == r[0];
    lemma_queue_at(nodes, qo, dist@, q, i0);
    assert(queue_ok(nodes, qo, dist@, q1)) by {
        reveal(queue_ok);
        assert forall|i: int| 0 <= i < q1.len() implies qo.contains(#[trigger] q1[i].1) && dist@.dom().contains(
            nodes[q1[i].1 as int].ip,
        ) by {
            assert(q1[i] == r[i + 1]);
            assert(r.contains(r[i + 1]));
            let k = choose|k: int| 0 <= k < q.len() && q[k] == r[i + 1];
            assert(qo.contains(q[k].1));
        }
    }
    lemma_dist_bound(s, nodes, qo, root_ip, pc0, dist@, popped.len(), popped.len() + 1);
    assert(s.search_inv(g0, nodes, root_ip, pc0, dist, q1, popped.len() + 1));
    let kq = choose|kq: int| 0 <= kq < qo.len() && qo[kq] == u;
    assert(qo[kq] < nodes.len());
    if dist@[addr(nodes, u)] is Some {
        lemma_dist_at(s, nodes, qo, root_ip, pc0, dist@, popped.len(), addr(nodes, u));
    }
    assert(s.path_counter <= pc0 + 1 + popped.len() * m + 0);
    if rootq {
        assert(q[i0].0 == dist@[addr(nodes, q[i0].1)] && dist_le(cur, q[i0].0));
        assert forall|i: int| 0 <= i < q1.len() implies #[trigger] q1[i].0 == dist@[addr(nodes, q1[i].1)] && dist_le(
            dist@[addr(nodes, u)],
            q1[i].0,
        ) by {
            assert(q1[i] == r[i + 1]);
            assert(dist_le(r[0].0, r[i + 1].0));
            assert(r.contains(r[i + 1]));
            let k = choose|k: int| 0 <= k < q.len() && q[k] == r[i + 1];
            assert(q[k].0 == dist@[addr(nodes, q[k].1)]);
        }
        assert forall|i: int| 0 <= i < popped.len() implies dist@.dom().contains(addr(nodes, #[trigger] popped[i]))
            && dist_le(dist@[addr(nodes, popped[i])], dist@[addr(nodes, u)]) && relaxed(
            g0.links@,
            nodes,
            dist@,
            popped[i],
        ) by {
            assert(dist_le(dist@[addr(nodes, popped[i])], cur));
        }
    }
    assert forall|k: int| 0 <= k < qo.len() implies (popped.push(u).contains(#[trigger] qo[k]) || queue_nodes(
        q1,
    ).contains(qo[k])) by {
        if !popped.contains(qo[k]) {
            assert(queue_nodes(r).contains(qo[k]));
            let i = choose|i: int| 0 <= i < queue_nodes(r).len() && queue_nodes(r)[i] == qo[k];
            if i == 0 {
                assert(popped.push(u)[popped.len() as int] == qo[k]);
            } else {
                assert(queue_nodes(q1)[i - 1] == qo[k]);
            }
        } else {
            let i = choose|i: int| 0 <= i < popped.len() && popped[i] == qo[k];
            assert(popped.push(u)[i] == qo[k]);
        }
    }
}

/// Once the links of `u` are followed, `u` counts among the elements taken.
#[verifier::spinoff_prover]
proof fn lemma_popped(
    s: Graph,
    g0: Graph,
    nodes: Seq<Service>,
    root_ip: u32,
    pc0: u32,
    dist: AssocMap<u32, Option<u64>>,
    q: Seq<(Option<u64>, usize)>,
    popped: Seq<usize>,
    u: usize,
    du: Option<u64>,
    rootq: bool,
    d0: Set<u32>,
)
    requires
        s.step_inv(g0, nodes, root_ip, pc0, dist, q, popped, u, du, rootq, nodes[u as int].links@.len() as int),
        forall|k: int|
            0 <= k < g0.queue_order(nodes).len() ==> (popped.push(u).contains(
                #[trigger] g0.queue_order(nodes)[k],
            ) || queue_nodes(q).contains(g0.queue_order(nodes)[k])),
        forall|k: int|
            0 <= k < g0.queue_order(nodes).len() ==> d0.contains(addr(nodes, #[trigger] g0.queue_order(nodes)[k])),
        dist@.dom() == d0,
        forall|i: int| 0 <= i < popped.len() ==> g0.queue_order(nodes).contains(#[trigger] popped[i]),
    ensures
        s.loop_inv(g0, nodes, root_ip, pc0, dist, q, popped.push(u), du, rootq),
{
    let qo = g0.queue_order(nodes);
    let m = max_links(nodes);
    let p2 = popped.push(u);
    lemma_max_links(nodes, u as int);
    let n = nodes[u as int].links@.len();
    assert(popped.len() * m + n <= (popped.len() + 1) * m) by (nonlinear_arith)
        requires
            n <= m,
    ;
    assert forall|i: int| 0 <= i < p2.len() implies qo.contains(#[trigger] p2[i]) by {
        if i < popped.len() {
            assert(p2[i] == popped[i]);
        }
    }
    if rootq {
        assert forall|i: int| 0 <= i < p2.len() implies dist@.dom().contains(addr(nodes, #[trigger] p2[i]))
            && dist_le(dist@[addr(nodes, p2[i])], du) && relaxed(g0.links@, nodes, dist@, p2[i]) by {
            if i < popped.len() {
                assert(p2[i] == popped[i]);
            }
        }
    }
}

impl Graph {
    /// What the search promises about the paths it adds, all read against
    /// the graph `g0` it started from.
    pub open spec fn walks_from_root(&self, g0: Graph, nodes: Seq<Service>) -> bool {
        let pc0 = g0.path_counter;
        let root_ip = g0.root_addr(nodes);
        let qo = g0.queue_order(nodes);
        let links = g0.links@;
        &&& pc0 < self.path_counter
        &&& forall|k: u32| #[trigger]
            self.paths@.dom().contains(k) <==> g0.paths@.dom().contains(k) || pc0 <= k < self.path_counter
        &&& forall|k: u32|
            #[trigger] self.paths@.dom().contains(k) ==> if pc0 <= k < self.path_counter {
                &&& leads(links, qo, nodes, root_ip, self.paths@[k].links@)
                &&& self.path_id_to_ip@.dom().contains(k)
                &&& self.path_id_to_ip@[k] == walk_end(links, nodes, root_ip, self.paths@[k].links@)
                &&& named(self.paths@[k], links, nodes)
            } else {
                ends_set(self.paths@[k], g0.paths@[k], links, nodes)
            }
        &&& self.paths@[pc0].links@.len() == 0
        &&& forall|ip: u32|
            #[trigger] self.ip_to_path_id@.dom().contains(ip) ==> (g0.ip_to_path_id@.dom().contains(ip)
                && self.ip_to_path_id@[ip] == g0.ip_to_path_id@[ip]) || (pc0 <= self.ip_to_path_id@[ip]
                < self.path_counter && walk_end(links, nodes, root_ip, self.paths@[self.ip_to_path_id@[ip]].links@)
                == ip)
        &&& forall|ip: u32| #[trigger]
            g0.ip_to_path_id@.dom().contains(ip) ==> self.ip_to_path_id@.dom().contains(ip)
        &&& self.ip_to_path_id@.dom().contains(root_ip)
        &&& forall|k: u32|
            #[trigger] self.path_id_to_ip@.dom().contains(k) ==> (pc0 <= k < self.path_counter) || (
            g0.path_id_to_ip@.dom().contains(k) && self.path_id_to_ip@[k] == g0.path_id_to_ip@[k])
        &&& forall|k: u32| #[trigger]
            g0.path_id_to_ip@.dom().contains(k) ==> self.path_id_to_ip@.dom().contains(k)
    }

    /// Every queued address that a walk of queued elements from the root
    /// reaches has a new path no longer than that walk.
    pub open spec fn shortest_to_queued(&self, g0: Graph, nodes: Seq<Service>) -> bool {
        let pc0 = g0.path_counter;
        let root_ip = g0.root_addr(nodes);
        let qo = g0.queue_order(nodes);
        let links = g0.links@;
        forall|ls: Seq<u16>|
            #[trigger] leads(links, qo, nodes, root_ip, ls) && queued_addr(
                qo,
                nodes,
                walk_end(links, nodes, root_ip, ls),
            ) ==> {
                let e = walk_end(links, nodes, root_ip, ls);
                &&& self.ip_to_path_id@.dom().contains(e)
                &&& pc0 <= self.ip_to_path_id@[e] < self.path_counter
                &&& self.paths@[self.ip_to_path_id@[e]].links@.len() <= ls.len()
            }
    }

    /// Paths by number of hops from the root to every address queued for
    /// the search: every service but the dashboard, and the first bridge of
    /// each name.  The root gets an empty path; each improvement found for
    /// an address adds a path one link longer than the path of the element
    /// it was found from, and points the address to it.  Every path is then
    /// named after the elements it starts and ends at.  When the root's
    /// address starts the search, the path of every queued address that a
    /// walk reaches is a shortest walk to it.
    pub fn calculate_shortest_paths(&mut self, nodes: &Vec<Service>)
        requires
            old(self).wf(nodes@.len()),
            old(self).graph_root is Some,
            old(self).links_known(nodes@),
            old(self).path_ends_known(),
            old(self).path_counter + 1 + old(self).queue_order(nodes@).len() * max_links(nodes@) <= u32::MAX,
        ensures
            final(self).wf(nodes@.len()),
            *final(self) == (Graph {
                paths: final(self).paths,
                ip_to_path_id: final(self).ip_to_path_id,
                path_id_to_ip: final(self).path_id_to_ip,
                path_counter: final(self).path_counter,
                ..*old(self)
            }),
            final(self).walks_from_root(*old(self), nodes@),
            old(self).root_queued(nodes@, old(self).root_addr(nodes@)) ==> final(self).shortest_to_queued(
                *old(self),
                nodes@,
            ),
            old(self).root_queued(nodes@, old(self).root_addr(nodes@)) ==> final(self).ip_to_path_id@[old(
                self,
            ).root_addr(nodes@)] == old(self).path_counter,
    {
        let ghost g0 = *self;
        let ghost qo = g0.queue_order(nodes@);
        let root = self.graph_root.unwrap();
        let root_ip = nodes[root].ip;
        let (mut dist, mut q) = self.build_queue(nodes, root_ip);
        let ghost rootq = g0.root_queued(nodes@, root_ip);
        let ghost d0 = dist@.dom();
        let pc0 = self.path_counter;
        self.insert_path(pc0, Vec::new());
        self.insert_ip_to_path(root_ip, pc0);
        self.path_counter = pc0 + 1;
        let ghost mut popped: Seq<usize> = Seq::empty();
        let ghost mut cur: Option<u64> = Some(0u64);
        proof {
            lemma_start(*self, g0, nodes@, root_ip, pc0, dist, q@, rootq);
        }
        while q.len() > 0
            invariant
                self.loop_inv(g0, nodes@, root_ip, pc0, dist, q@, popped, cur, rootq),
                g0.wf(nodes@.len()),
                g0.path_ends_known(),
                root_ip == g0.root_addr(nodes@),
                rootq == g0.root_queued(nodes@, root_ip),
                qo == g0.queue_order(nodes@),
                pc0 == g0.path_counter,
                dist@.dom() == d0,
            decreases q@.len(),
        {
            let ghost q_before = q@;
            let sorted = sort_queue(q);
            q = sorted;
            let ghost r = q@;
            let e = q.remove(0);
            let u = e.1;
            let ghost du = dist@[addr(nodes@, u)];
            proof {
                assert(q@ == r.remove(0));
                lemma_pop(*self, g0, nodes@, root_ip, pc0, dist, q_before, r, popped, cur, rootq);
            }
            self.relax_links(nodes, &mut dist, &mut q, u, Ghost(g0), Ghost(root_ip), Ghost(pc0), Ghost(popped), Ghost(du), Ghost(rootq));
            proof {
                lemma_popped(*self, g0, nodes@, root_ip, pc0, dist, q@, popped, u, du, rootq, d0);
                popped = popped.push(u);
                cur = du;
            }
        }
        proof {
            assert(q@ =~= Seq::<(Option<u64>, usize)>::empty());
            lemma_finish(*self, g0, nodes@, root_ip, pc0, dist, popped, cur, rootq);
            if rootq {
                assert(self.search_inv(g0, nodes@, root_ip, pc0, dist, q@, popped.len()));
                assert(self.dist_ok(nodes@, qo, root_ip, pc0, dist@, popped.len()));
                assert(settled(g0.links@, nodes@, dist@, q@, popped, cur, root_ip));
                assert(dist@.dom().contains(root_ip));
                assert(dist@[root_ip] == Some(0u64));
                let d0r = dist@[root_ip]->0;
                reveal(Graph::dist_ok);
                assert(dist@.dom().contains(root_ip) && dist@[root_ip] is Some);
                assert(self.dist_fact(nodes@, qo, root_ip, pc0, root_ip, d0r));
                assert(d0r == 0);
                reveal(Graph::paths_ok);
                assert(self.new_paths_ok(nodes@, qo, root_ip, pc0));
                let id = self.ip_to_path_id@[root_ip];
                assert(self.paths@[id].links@.len() == 0);
                assert(id == pc0);
            }
        }
        let ghost mid = *self;
        self.set_start_and_finish(nodes);
        proof {
            lemma_named(*self, mid, g0, nodes@, root_ip, pc0, dist, q@, popped.len(), rootq);
        }
    }
}

/// The search as it stands once the root has its empty path.
#[verifier::spinoff_prover]
proof fn lemma_start(
    s: Graph,
    g0: Graph,
    nodes: Seq<Service>,
    root_ip: u32,
    pc0: u32,
    dist: AssocMap<u32, Option<u64>>,
    q: Seq<(Option<u64>, usize)>,
    rootq: bool,
)
    requires
        g0.wf(nodes.len()),
        g0.links_known(nodes),
        pc0 == g0.path_counter,
        pc0 + 1 + g0.queue_order(nodes).len() * max_links(nodes) <= u32::MAX,
        rootq == g0.root_queued(nodes, root_ip),
        dist.wf(),
        queue_nodes(q) == g0.queue_order(nodes),
        forall|i: int|
            0 <= i < q.len() ==> #[trigger] q[i].1 < nodes.len() && dist@.dom().contains(addr(nodes, q[i].1)),
        forall|ip: u32|
            #[trigger] dist@.dom().contains(ip) && dist@[ip] is Some ==> ip == root_ip && dist@[ip]
                == Some(0u64),
        rootq ==> dist@.dom().contains(root_ip) && dist@[root_ip] == Some(0u64) && forall|i: int|
            0 <= i < q.len() ==> #[trigger] q[i].0 == dist@[addr(nodes, q[i].1)],
        s.paths.wf(),
        s.paths@ == g0.paths@.insert(pc0, s.paths@[pc0]),
        s.paths@[pc0].id == pc0,
        s.paths@[pc0].links@.len() == 0,
        s.paths@[pc0].start@.len() == 0,
        s.paths@[pc0].finish@.len() == 0,
        s.ip_to_path_id.wf(),
        s.ip_to_path_id@ == g0.ip_to_path_id@.insert(root_ip, pc0),
        s.path_id_to_ip.wf(),
        s.path_id_to_ip@ == g0.path_id_to_ip@.insert(pc0, root_ip),
        s.path_counter == pc0 + 1,
        s == (Graph {
            paths: s.paths,
            ip_to_path_id: s.ip_to_path_id,
            path_id_to_ip: s.path_id_to_ip,
            path_counter: s.path_counter,
            ..g0
        }),
    ensures
        s.loop_inv(g0, nodes, root_ip, pc0, dist, q, Seq::empty(), Some(0u64), rootq),
{
    let qo = g0.queue_order(nodes);
    assert(leads(s.links@, qo, nodes, root_ip, s.paths@[pc0].links@));
    assert(s.dist_ok(nodes, qo, root_ip, pc0, dist@, 0)) by {
        reveal(Graph::dist_ok);
        assert(s.dist_fact(nodes, qo, root_ip, pc0, root_ip, 0u64));
    }
    assert(queue_ok(nodes, qo, dist@, q)) by {
        reveal(queue_ok);
        assert forall|i: int| 0 <= i < q.len() implies qo.contains(#[trigger] q[i].1) && dist@.dom().contains(
            nodes[q[i].1 as int].ip,
        ) by {
            assert(queue_nodes(q)[i] == q[i].1);
        }
    }
    assert forall|k: u32| #[trigger] s.paths@.dom().contains(k) implies s.paths@[k].id == k by {
        if k != pc0 {
            assert(g0.paths@.dom().contains(k));
        }
    }
    assert(s.paths_ok(g0, nodes, qo, root_ip, pc0)) by {
        reveal(Graph::paths_ok);
        assert forall|k: u32| #[trigger]
            s.paths@.dom().contains(k) <==> g0.paths@.dom().contains(k) || (pc0 <= k < s.path_counter) by {
        }
    }
    assert(s.maps_ok(g0, nodes, root_ip, pc0)) by {
        reveal(Graph::maps_ok);
    }
    lemma_wf_paths(g0, s, nodes.len());
    assert forall|k: int| 0 <= k < qo.len() implies #[trigger] qo[k] < nodes.len() && dist@.dom().contains(
        addr(nodes, qo[k]),
    ) && (Seq::<usize>::empty().contains(qo[k]) || queue_nodes(q).contains(qo[k])) by {
        assert(queue_nodes(q)[k] == q[k].1);
    }
}

/// When the queue is empty, the paths found are shortest.
#[verifier::spinoff_prover]
proof fn lemma_finish(
    s: Graph,
    g0: Graph,
    nodes: Seq<Service>,
    root_ip: u32,
    pc0: u32,
    dist: AssocMap<u32, Option<u64>>,
    popped: Seq<usize>,
    cur: Option<u64>,
    rootq: bool,
)
    requires
        s.loop_inv(g0, nodes, root_ip, pc0, dist, Seq::empty(), popped, cur, rootq),
        g0.path_ends_known(),
        root_ip == g0.root_addr(nodes),
        pc0 == g0.path_counter,
    ensures
        s.wf(nodes.len()),
        s.path_ends_known(),
        rootq ==> s.shortest_to_queued(g0, nodes),
{
    let qo = g0.queue_order(nodes);
    let links = g0.links@;
    assert(s.path_ends_known()) by {
        reveal(Graph::paths_ok);
        assert forall|k: u32| #[trigger] s.paths@.dom().contains(k) && s.paths@[k].links@.len() > 0 implies s.links@.dom().contains(
            s.paths@[k].links@[0],
        ) && s.links@.dom().contains(s.paths@[k].links@[s.paths@[k].links@.len() - 1]) by {
            if pc0 <= k < s.path_counter {
                assert(s.paths@.dom().contains(k));
                let ls = s.paths@[k].links@;
                assert(links.dom().contains(ls[0]));
                assert(links.dom().contains(ls[ls.len() - 1]));
            } else {
                assert(g0.paths@.dom().contains(k));
            }
        }
    }
    if rootq {
        assert forall|k: int| 0 <= k < qo.len() implies dist@.dom().contains(addr(nodes, #[trigger] qo[k]))
            && relaxed(links, nodes, dist@, qo[k]) by {
            assert(qo[k] < nodes.len());
            assert(!queue_nodes(Seq::<(Option<u64>, usize)>::empty()).contains(qo[k]));
            let i = choose|i: int| 0 <= i < popped.len() && popped[i] == qo[k];
            assert(relaxed(links, nodes, dist@, popped[i]));
        }
        assert forall|ls: Seq<u16>|
            #[trigger] leads(links, qo, nodes, root_ip, ls) && queued_addr(
                qo,
                nodes,
                walk_end(links, nodes, root_ip, ls),
            ) implies {
                let e = walk_end(links, nodes, root_ip, ls);
                &&& s.ip_to_path_id@.dom().contains(e)
                &&& pc0 <= s.ip_to_path_id@[e] < s.path_counter
                &&& s.paths@[s.ip_to_path_id@[e]].links@.len() <= ls.len()
            } by {
            let e = walk_end(links, nodes, root_ip, ls);
            let k = choose|k: int| 0 <= k < qo.len() && #[trigger] addr(nodes, qo[k]) == e;
            assert(dist@.dom().contains(addr(nodes, qo[k])));
            lemma_reach(links, qo, nodes, root_ip, dist@, ls);
            lemma_dist_at(s, nodes, qo, root_ip, pc0, dist@, popped.len(), e);
        }
    }
}

/// Naming the paths keeps what the search found.
#[verifier::spinoff_prover]
proof fn lemma_named(
    fin: Graph,
    mid: Graph,
    g0: Graph,
    nodes: Seq<Service>,
    root_ip: u32,
    pc0: u32,
    dist: AssocMap<u32, Option<u64>>,
    q: Seq<(Option<u64>, usize)>,
    np: nat,
    rootq: bool,
)
    requires
        mid.search_inv(g0, nodes, root_ip, pc0, dist, q, np),
        root_ip == g0.root_addr(nodes),
        pc0 == g0.path_counter,
        rootq ==> mid.shortest_to_queued(g0, nodes),
        fin.paths@.dom() == mid.paths@.dom(),
        forall|k: u32| #[trigger]
            fin.paths@.dom().contains(k) ==> ends_set(fin.paths@[k], mid.paths@[k], mid.links@, nodes),
        fin == (Graph { paths: fin.paths, ..mid }),
    ensures
        fin.walks_from_root(g0, nodes),
        rootq ==> fin.shortest_to_queued(g0, nodes),
{
    reveal(Graph::paths_ok);
    reveal(Graph::maps_ok);
    let qo = g0.queue_order(nodes);
    let links = g0.links@;
    assert forall|k: u32| #[trigger] fin.paths@.dom().contains(k) implies if pc0 <= k < fin.path_counter {
        &&& leads(links, qo, nodes, root_ip, fin.paths@[k].links@)
        &&& fin.path_id_to_ip@.dom().contains(k)
        &&& fin.path_id_to_ip@[k] == walk_end(links, nodes, root_ip, fin.paths@[k].links@)
        &&& named(fin.paths@[k], links, nodes)
    } else {
        ends_set(fin.paths@[k], g0.paths@[k], links, nodes)
    } by {
        assert(ends_set(fin.paths@[k], mid.paths@[k], mid.links@, nodes));
        if pc0 <= k < fin.path_counter {
            assert(mid.paths@.dom().contains(k));
            if k != pc0 {
                assert(mid.paths@[k].links@.len() > 0);
            }
        } else {
            assert(g0.paths@.dom().contains(k));
            assert(mid.paths@[k] == g0.paths@[k]);
        }
    }
    assert forall|ip: u32| #[trigger] fin.ip_to_path_id@.dom().contains(ip) implies (g0.ip_to_path_id@.dom().contains(ip)
        && fin.ip_to_path_id@[ip] == g0.ip_to_path_id@[ip]) || (pc0 <= fin.ip_to_path_id@[ip] < fin.path_counter
        && walk_end(links, nodes, root_ip, fin.paths@[fin.ip_to_path_id@[ip]].links@) == ip) by {
        assert(mid.ip_to_path_id@.dom().contains(ip));
        let k = mid.ip_to_path_id@[ip];
        if pc0 <= k < mid.path_counter {
            assert(mid.paths@.dom().contains(k));
            assert(ends_set(fin.paths@[k], mid.paths@[k], mid.links@, nodes));
        }
    }
    assert(fin.paths@.dom().contains(pc0));
    assert(ends_set(fin.paths@[pc0], mid.paths@[pc0], mid.links@, nodes));
    if rootq {
        assert forall|ls: Seq<u16>|
            #[trigger] leads(links, qo, nodes, root_ip, ls) && queued_addr(
                qo,
                nodes,
                walk_end(links, nodes, root_ip, ls),
            ) implies {
                let e = walk_end(links, nodes, root_ip, ls);
                &&& fin.ip_to_path_id@.dom().contains(e)
                &&& pc0 <= fin.ip_to_path_id@[e] < fin.path_counter
                &&& fin.paths@[fin.ip_to_path_id@[e]].links@.len() <= ls.len()
            } by {
            let e = walk_end(links, nodes, root_ip, ls);
            let k = mid.ip_to_path_id@[e];
            assert(mid.paths@.dom().contains(k));
            assert(ends_set(fin.paths@[k], mid.paths@[k], mid.links@, nodes));
        }
    }
}

proof fn lemma_budget(p: int, m: int, total: int)
    requires
        1 <= p <= total,
        0 <= m,
    ensures
        (p - 1) * m + m == p * m,
        p * m <= total * m,
        0 <= (p - 1) * m,
{
    assert((p - 1) * m + m == p * m) by (nonlinear_arith);
    assert(p * m <= total * m) by (nonlinear_arith)
        requires
            p <= total,
            0 <= m,
    ;
    assert(0 <= (p - 1) * m) by (nonlinear_arith)
        requires
            1 <= p,
            0 <= m,
    ;
}

/// The largest number of links leaving one node, see `max_links`.
fn count_max_links(nodes: &Vec<Service>) -> (m: usize)
    ensures
        m == max_links(nodes@),
{
    let mut m: usize = 0;
    let mut i: usize = 0;
    while i < nodes.len()
        invariant
            i <= nodes@.len(),
            m == max_links(nodes@.take(i as int)),
        decreases nodes@.len() - i,
    {
        proof {
            assert(nodes@.take(i + 1).drop_last() =~= nodes@.take(i as int));
        }
        let k = nodes[i].links.len();
        if k > m {
            m = k;
        }
        i = i + 1;
    }
    proof {
        assert(nodes@.take(nodes@.len() as int) =~= nodes@);
    }
    m
}

impl Graph {
    /// Whether the links of every path with links are known.
    fn path_ends_checked(&self) -> (b: bool)
        requires
            self.paths.wf(),
            self.links.wf(),
        ensures
            b == self.path_ends_known(),
    {
        let mut i: usize = 0;
        while i < self.paths.entries.len()
            invariant
                self.paths.wf(),
                self.links.wf(),
                i <= self.paths.entries@.len(),
                forall|j: int|
                    0 <= j < i ==> {
                        let p = (#[trigger] self.paths.entries@[j]).1;
                        p.links@.len() > 0 ==> self.links@.dom().contains(p.links@[0])
                            && self.links@.dom().contains(p.links@[p.links@.len() - 1])
                    },
            decreases self.paths.entries@.len() - i,
        {
            let p = &self.paths.entries[i].1;
            let n = p.links.len();
            if n > 0 {
                if !self.links.contains_key(&p.links[0]) || !self.links.contains_key(&p.links[n - 1]) {
                    proof {
                        self.paths.lemma_pos(i as int);
                    }
                    return false;
                }
            }
            i = i + 1;
        }
        proof {
            assert forall|k: u32| #[trigger] self.paths@.dom().contains(k) && self.paths@[k].links@.len() > 0
                implies self.links@.dom().contains(self.paths@[k].links@[0]) && self.links@.dom().contains(
                self.paths@[k].links@[self.paths@[k].links@.len() - 1],
            ) by {
                self.paths.lemma_view();
                let j = self.paths.pos(k);
                self.paths.lemma_pos(j);
            }
        }
        true
    }

    /// Whether the links leaving every queued element are known.
    fn links_checked(&self, nodes: &Vec<Service>, q: &Vec<(Option<u64>, usize)>) -> (b: bool)
        requires
            self.links.wf(),
            queue_nodes(q@) == self.queue_order(nodes@),
            forall|i: int| 0 <= i < q@.len() ==> #[trigger] q@[i].1 < nodes@.len(),
        ensures
            b == self.links_known(nodes@),
    {
        let ghost qo = self.queue_order(nodes@);
        let mut i: usize = 0;
        while i < q.len()
            invariant
                self.links.wf(),
                qo == self.queue_order(nodes@),
                queue_nodes(q@) == qo,
                forall|j: int| 0 <= j < q@.len() ==> #[trigger] q@[j].1 < nodes@.len(),
                i <= q@.len(),
                forall|j: int, k: int|
                    0 <= j < i && 0 <= k < nodes@[qo[j] as int].links@.len() ==> #[trigger] self.links@.dom().contains(
                        nodes@[qo[j] as int].links@[k],
                    ),
            decreases q@.len() - i,
        {
            let u = q[i].1;
            proof {
                assert(qo[i as int] == u);
            }
            let ls = &nodes[u].links;
            let mut k: usize = 0;
            while k < ls.len()
                invariant
                    self.links.wf(),
                    qo == self.queue_order(nodes@),
                    queue_nodes(q@) == qo,
                    i < q@.len(),
                    qo[i as int] == u,
                    u < nodes@.len(),
                    ls@ == nodes@[u as int].links@,
                    k <= ls@.len(),
                    forall|t: int| 0 <= t < k ==> #[trigger] self.links@.dom().contains(ls@[t]),
                    forall|j: int, t: int|
                        0 <= j < i && 0 <= t < nodes@[qo[j] as int].links@.len() ==> #[trigger] self.links@.dom().contains(
                            nodes@[qo[j] as int].links@[t],
                        ),
                decreases ls@.len() - k,
            {
                if !self.links.contains_key(&ls[k]) {
                    proof {
                        assert(qo[i as int] == u);
                        assert(qo.contains(u));
                        assert(!self.links@.dom().contains(nodes@[u as int].links@[k as int]));
                    }
                    return false;
                }
                k = k + 1;
            }
            proof {
                assert forall|j: int, t: int|
                    0 <= j < i + 1 && 0 <= t < nodes@[qo[j] as int].links@.len() implies #[trigger] self.links@.dom().contains(
                        nodes@[qo[j] as int].links@[t],
                    ) by {
                    if j == i {
                        assert(ls@[t] == nodes@[qo[j] as int].links@[t]);
                    }
                }
            }
            i = i + 1;
        }
        proof {
            assert forall|u: usize, k: int|
                qo.contains(u) && 0 <= k < nodes@[u as int].links@.len() implies #[trigger] self.links@.dom().contains(
                nodes@[u as int].links@[k],
            ) by {
                let j = choose|j: int| 0 <= j < qo.len() && qo[j] == u;
                assert(self.links@.dom().contains(nodes@[qo[j] as int].links@[k]));
            }
        }
        true
    }

    /// Whether `calculate_shortest_paths` can run on this graph: it has a
    /// root, the links of the queued elements and of the paths are known,
    /// and the path ids it may hand out fit.
    pub fn shortest_paths_ready(&self, nodes: &Vec<Service>) -> (b: bool)
        requires
            self.wf(nodes@.len()),
        ensures
            b == (self.graph_root is Some && self.links_known(nodes@) && self.path_ends_known()
                && self.path_counter + 1 + self.queue_order(nodes@).len() * max_links(nodes@) <= u32::MAX),
    {
        if self.graph_root.is_none() {
            return false;
        }
        let root = self.graph_root.unwrap();
        let (_dist, q) = self.build_queue(nodes, nodes[root].ip);
        proof {
            assert(q@.len() == queue_nodes(q@).len());
        }
        if !self.links_checked(nodes, &q) {
            return false;
        }
        if !self.path_ends_checked() {
            return false;
        }
        let m = count_max_links(nodes);
        let ql = q.len() as u64;
        let budget: u64 = (u32::MAX - self.path_counter) as u64;
        if budget < 1 {
            return false;
        }
        let room: u64 = budget - 1;
        if m == 0 {
            return true;
        }
        let ml = m as u64;
        let ok = ql <= room / ml;
        proof {
            let qq = ql as int;
            let mm = ml as int;
            let rr = room as int;
            assert(ok == (qq * mm <= rr)) by (nonlinear_arith)
                requires
                    mm > 0,
                    rr >= 0,
                    qq >= 0,
                    ok == (qq <= rr / mm),
            ;
        }
        ok
    }

    /// Runs `calculate_shortest_paths` when `shortest_paths_ready` holds,
    /// and tells whether it did; otherwise the graph is left as it is.
    pub fn try_calculate_shortest_paths(&mut self, nodes: &Vec<Service>) -> (done: bool)
        requires
            old(self).wf(nodes@.len()),
        ensures
            done == (old(self).graph_root is Some && old(self).links_known(nodes@) && old(self).path_ends_known()
                && old(self).path_counter + 1 + old(self).queue_order(nodes@).len() * max_links(nodes@) <= u32::MAX),
            !done ==> *final(self) == *old(self),
            done ==> final(self).wf(nodes@.len()),
            done ==> final(self).walks_from_root(*old(self), nodes@),
            done && old(self).root_queued(nodes@, old(self).root_addr(nodes@)) ==> final(self).shortest_to_queued(
                *old(self),
                nodes@,
            ),
            done ==> *final(self) == (Graph {
                paths: final(self).paths,
                ip_to_path_id: final(self).ip_to_path_id,
                path_id_to_ip: final(self).path_id_to_ip,
                path_counter: final(self).path_counter,
                ..*old(self)
            }),
    {
        if self.shortest_paths_ready(nodes) {
            self.calculate_shortest_paths(nodes);
            true
        } else {
            false
        }
    }
}

/// What the shortest paths minimise.
#[derive(Clone, Copy, Debug, PartialEq, Eq, Structural)]
pub enum PathMetric {
    /// The number of links, see `Graph::calculate_shortest_paths`.
    Hops,
    /// The sum of the links' latencies.
    Latency,
}

/// The metric a configuration word names: `hop` or `latency`.
pub open spec fn metric_for(word: Seq<char>) -> Option<PathMetric> {
    if word == seq!['h', 'o', 'p'] {
        Some(PathMetric::Hops)
    } else if word == seq!['l', 'a', 't', 'e', 'n', 'c', 'y'] {
        Some(PathMetric::Latency)
    } else {
        None
    }
}

/// The metric a configuration word names, see `metric_for`; any other word
/// is refused.
pub fn parse_path_metric(word: &str) -> (m: Option<PathMetric>)
    ensures
        m == metric_for(word@),
{
    let cs = chars_of(word);
    let hop = ['h', 'o', 'p'];
    let latency = ['l', 'a', 't', 'e', 'n', 'c', 'y'];
    assert(hop@ =~= seq!['h', 'o', 'p']);
    assert(latency@ =~= seq!['l', 'a', 't', 'e', 'n', 'c', 'y']);
    if same_chars(&cs, &hop) {
        Some(PathMetric::Hops)
    } else if same_chars(&cs, &latency) {
        Some(PathMetric::Latency)
    } else {
        None
    }
}

} // verus!
