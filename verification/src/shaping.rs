//! Which paths the traffic shaper opens when an emulation instance starts.
//! A service that names the services it talks to (its active paths) gets
//! the paths to those, and to the services that name it; one that names
//! none gets every path to a service, and the addresses it cannot reach
//! are closed.
use vstd::prelude::*;
use crate::elements::{Service, Path};
use crate::graph::Graph;
use crate::state::State;
use crate::topology::views;

verus! {

/// What the shaper does for one address.
#[derive(Clone, Copy, Debug, PartialEq, Eq, Structural)]
pub enum Shaping {
    /// Traffic to the address is dropped.
    Disable { ip: u32 },
    /// Traffic to the address follows the properties of path `path`.
    Enable { ip: u32, path: u32 },
}

/// The shaping of traffic to `ip` along path `p` (of id `id`): a path
/// without links leads nowhere.
pub open spec fn shape(p: Path, ip: u32, id: u32) -> Shaping {
    if p.links@.len() == 0 {
        Shaping::Disable { ip }
    } else {
        Shaping::Enable { ip, path: id }
    }
}

/// Every path among the entries `es` that does not end at a bridge, in
/// order.
pub open spec fn every_path(es: Seq<(u32, Path)>, g: Graph) -> Seq<Shaping>
    decreases es.len(),
{
    if es.len() == 0 {
        seq![]
    } else {
        let r = every_path(es.drop_last(), g);
        let (id, p) = es.last();
        if g.bridges_by_name@.dom().contains(p.finish@) {
            r
        } else {
            r.push(shape(p, g.path_id_to_ip@[id], id))
        }
    }
}

/// The addresses among `ips` that no path reaches, in order.
pub open spec fn cut_off(ips: Seq<u32>, g: Graph) -> Seq<Shaping>
    decreases ips.len(),
{
    if ips.len() == 0 {
        seq![]
    } else {
        let r = cut_off(ips.drop_last(), g);
        if g.ip_to_path_id@.dom().contains(ips.last()) {
            r
        } else {
            r.push(Shaping::Disable { ip: ips.last() })
        }
    }
}

/// The address of the first replica named `name`.
pub open spec fn first_replica_ip(g: Graph, nodes: Seq<Service>, name: Seq<char>) -> u32 {
    nodes[g.services_by_name@[name]@[0] as int].ip
}

/// The path to the first replica named `name`.
pub open spec fn path_to(g: Graph, nodes: Seq<Service>, name: Seq<char>) -> Path {
    g.paths@[g.ip_to_path_id@[first_replica_ip(g, nodes, name)]]
}

/// The paths to the services named `names`, in order.
pub open spec fn named_paths(names: Seq<Seq<char>>, g: Graph, nodes: Seq<Service>) -> Seq<Shaping>
    decreases names.len(),
{
    if names.len() == 0 {
        seq![]
    } else {
        let ip = first_replica_ip(g, nodes, names.last());
        named_paths(names.drop_last(), g, nodes).push(shape(path_to(g, nodes, names.last()), ip, g.ip_to_path_id@[ip]))
    }
}

/// The names among `names` whose path has links, in order.
pub open spec fn opened(names: Seq<Seq<char>>, g: Graph, nodes: Seq<Service>) -> Seq<Seq<char>>
    decreases names.len(),
{
    if names.len() == 0 {
        seq![]
    } else {
        let r = opened(names.drop_last(), g, nodes);
        if path_to(g, nodes, names.last()).links@.len() == 0 {
            r
        } else {
            r.push(names.last())
        }
    }
}

/// Whether the service at `x` names `me` among its active paths and has
/// no opened path yet.
pub open spec fn answers(nodes: Seq<Service>, x: usize, me: Seq<char>, open: Seq<Seq<char>>) -> bool {
    views(nodes[x as int].activepaths@).contains(me) && !open.contains(nodes[x as int].hostname@)
}

/// The paths to the services among the entries `es` that name `me`,
/// except those already opened, in order.
pub open spec fn answering_paths(
    es: Seq<(u32, usize)>,
    g: Graph,
    nodes: Seq<Service>,
    me: Seq<char>,
    open: Seq<Seq<char>>,
) -> Seq<Shaping>
    decreases es.len(),
{
    if es.len() == 0 {
        seq![]
    } else {
        let r = answering_paths(es.drop_last(), g, nodes, me, open);
        let (ip, x) = es.last();
        if answers(nodes, x, me, open) {
            r.push(shape(g.paths@[g.ip_to_path_id@[ip]], ip, g.ip_to_path_id@[ip]))
        } else {
            r
        }
    }
}

/// Every lookup the plan makes finds what it looks for.
pub open spec fn plan_defined(g: Graph, nodes: Seq<Service>, root: usize) -> bool {
    let names = views(nodes[root as int].activepaths@);
    if names.len() == 0 {
        forall|i: int|
            0 <= i < g.paths.entries@.len() && !g.bridges_by_name@.dom().contains(
                (#[trigger] g.paths.entries@[i]).1.finish@,
            ) ==> g.path_id_to_ip@.dom().contains(g.paths.entries@[i].0)
    } else {
        &&& forall|i: int|
            0 <= i < names.len() ==> {
                &&& g.services_by_name@.dom().contains(#[trigger] names[i])
                &&& g.ip_to_path_id@.dom().contains(first_replica_ip(g, nodes, names[i]))
                &&& g.paths@.dom().contains(g.ip_to_path_id@[first_replica_ip(g, nodes, names[i])])
            }
        &&& forall|i: int|
            0 <= i < g.services.entries@.len() && answers(
                nodes,
                (#[trigger] g.services.entries@[i]).1,
                nodes[root as int].hostname@,
                opened(names, g, nodes),
            ) ==> {
                let ip = g.services.entries@[i].0;
                g.ip_to_path_id@.dom().contains(ip) && g.paths@.dom().contains(g.ip_to_path_id@[ip])
            }
    }
}

/// The shaping of an instance whose root is `root`, see the module's
/// description.
pub open spec fn shaping_plan(g: Graph, nodes: Seq<Service>, root: usize) -> Seq<Shaping> {
    let names = views(nodes[root as int].activepaths@);
    if names.len() == 0 {
        every_path(g.paths.entries@, g) + cut_off(g.ips@, g)
    } else {
        named_paths(names, g, nodes) + answering_paths(
            g.services.entries@,
            g,
            nodes,
            nodes[root as int].hostname@,
            opened(names, g, nodes),
        )
    }
}

/// Whether `v` holds a string equal to `s`.
fn contains_string(v: &Vec<String>, s: &String) -> (b: bool)
    ensures
        b == views(v@).contains(s@),
{
    let mut i: usize = 0;
    while i < v.len()
        invariant
            i <= v@.len(),
            forall|j: int| 0 <= j < i ==> v@[j]@ != s@,
        decreases v@.len() - i,
    {
        if v[i] == *s {
            proof {
                assert(views(v@)[i as int] == s@);
            }
            return true;
        }
        i = i + 1;
    }
    proof {
        if views(v@).contains(s@) {
            let j = choose|j: int| 0 <= j < views(v@).len() && views(v@)[j] == s@;
            assert(v@[j]@ == s@);
        }
    }
    false
}

fn every_path_exec(g: &Graph) -> (r: Option<Vec<Shaping>>)
    requires
        g.paths.wf(),
        g.path_id_to_ip.wf(),
        g.bridges_by_name.wf(),
    ensures
        r is Some <==> forall|i: int|
            0 <= i < g.paths.entries@.len() && !g.bridges_by_name@.dom().contains(
                (#[trigger] g.paths.entries@[i]).1.finish@,
            ) ==> g.path_id_to_ip@.dom().contains(g.paths.entries@[i].0),
        r matches Some(v) ==> v@ == every_path(g.paths.entries@, *g),
{
    let ghost es = g.paths.entries@;
    let mut out: Vec<Shaping> = Vec::new();
    let mut i: usize = 0;
    while i < g.paths.entries.len()
        invariant
            g.paths.wf(),
            g.path_id_to_ip.wf(),
            g.bridges_by_name.wf(),
            es == g.paths.entries@,
            i <= es.len(),
            out@ == every_path(es.take(i as int), *g),
            forall|j: int|
                0 <= j < i && !g.bridges_by_name@.dom().contains((#[trigger] es[j]).1.finish@)
                    ==> g.path_id_to_ip@.dom().contains(es[j].0),
        decreases es.len() - i,
    {
        proof {
            assert(es.take(i + 1).drop_last() =~= es.take(i as int));
            assert(es.take(i + 1).last() == es[i as int]);
        }
        let id = g.paths.entries[i].0;
        let p = &g.paths.entries[i].1;
        if !g.bridges_by_name.contains_key(&p.finish) {
            match g.path_id_to_ip.get(&id) {
                Some(ip) => {
                    if p.links.len() == 0 {
                        out.push(Shaping::Disable { ip: *ip });
                    } else {
                        out.push(Shaping::Enable { ip: *ip, path: id });
                    }
                },
                None => {
                    return None;
                },
            }
        }
        i = i + 1;
    }
    proof {
        assert(es.take(es.len() as int) =~= es);
    }
    Some(out)
}

fn cut_off_exec(g: &Graph) -> (r: Vec<Shaping>)
    requires
        g.ip_to_path_id.wf(),
    ensures
        r@ == cut_off(g.ips@, *g),
{
    let mut out: Vec<Shaping> = Vec::new();
    let mut i: usize = 0;
    while i < g.ips.len()
        invariant
            g.ip_to_path_id.wf(),
            i <= g.ips@.len(),
            out@ == cut_off(g.ips@.take(i as int), *g),
        decreases g.ips@.len() - i,
    {
        proof {
            assert(g.ips@.take(i + 1).drop_last() =~= g.ips@.take(i as int));
            assert(g.ips@.take(i + 1).last() == g.ips@[i as int]);
        }
        let ip = g.ips[i];
        if !g.ip_to_path_id.contains_key(&ip) {
            out.push(Shaping::Disable { ip });
        }
        i = i + 1;
    }
    proof {
        assert(g.ips@.take(g.ips@.len() as int) =~= g.ips@);
    }
    out
}

/// The paths to the services named `names`, and the names whose path has
/// links.
fn named_paths_exec(g: &Graph, nodes: &Vec<Service>, names: &Vec<String>) -> (r: Option<(Vec<Shaping>, Vec<String>)>)
    requires
        g.wf(nodes@.len()),
    ensures
        r is Some <==> forall|i: int|
            0 <= i < names@.len() ==> {
                &&& g.services_by_name@.dom().contains(#[trigger] views(names@)[i])
                &&& g.ip_to_path_id@.dom().contains(first_replica_ip(*g, nodes@, views(names@)[i]))
                &&& g.paths@.dom().contains(g.ip_to_path_id@[first_replica_ip(*g, nodes@, views(names@)[i])])
            },
        r matches Some(p) ==> p.0@ == named_paths(views(names@), *g, nodes@) && views(p.1@) == opened(
            views(names@),
            *g,
            nodes@,
        ),
{
    let ghost ns = views(names@);
    let mut out: Vec<Shaping> = Vec::new();
    let mut open: Vec<String> = Vec::new();
    let mut i: usize = 0;
    while i < names.len()
        invariant
            g.wf(nodes@.len()),
            ns == views(names@),
            i <= names@.len(),
            out@ == named_paths(ns.take(i as int), *g, nodes@),
            views(open@) == opened(ns.take(i as int), *g, nodes@),
            forall|j: int|
                0 <= j < i ==> {
                    &&& g.services_by_name@.dom().contains(#[trigger] ns[j])
                    &&& g.ip_to_path_id@.dom().contains(first_replica_ip(*g, nodes@, ns[j]))
                    &&& g.paths@.dom().contains(g.ip_to_path_id@[first_replica_ip(*g, nodes@, ns[j])])
                },
        decreases names@.len() - i,
    {
        proof {
            assert(ns.take(i + 1).drop_last() =~= ns.take(i as int));
            assert(ns.take(i + 1).last() == ns[i as int]);
            assert(ns[i as int] == names@[i as int]@);
        }
        let group = match g.services_by_name.get(&names[i]) {
            Some(v) => v,
            None => {
                return None;
            },
        };
        proof {
            assert(group@.len() > 0);
            assert(group@[0] < nodes@.len());
        }
        let ip = nodes[group[0]].ip;
        let id = match g.ip_to_path_id.get(&ip) {
            Some(x) => *x,
            None => {
                return None;
            },
        };
        let p = match g.paths.get(&id) {
            Some(p) => p,
            None => {
                return None;
            },
        };
        let ghost before_open = views(open@);
        if p.links.len() == 0 {
            out.push(Shaping::Disable { ip });
        } else {
            out.push(Shaping::Enable { ip, path: id });
            open.push(names[i].clone());
            proof {
                assert(views(open@) =~= before_open.push(ns[i as int]));
            }
        }
        i = i + 1;
    }
    proof {
        assert(ns.take(ns.len() as int) =~= ns);
    }
    Some((out, open))
}

fn answering_exec(g: &Graph, nodes: &Vec<Service>, me: &String, open: &Vec<String>) -> (r: Option<Vec<Shaping>>)
    requires
        g.wf(nodes@.len()),
    ensures
        r is Some <==> forall|i: int|
            0 <= i < g.services.entries@.len() && answers(
                nodes@,
                (#[trigger] g.services.entries@[i]).1,
                me@,
                views(open@),
            ) ==> {
                let ip = g.services.entries@[i].0;
                g.ip_to_path_id@.dom().contains(ip) && g.paths@.dom().contains(g.ip_to_path_id@[ip])
            },
        r matches Some(v) ==> v@ == answering_paths(g.services.entries@, *g, nodes@, me@, views(open@)),
{
    let ghost es = g.services.entries@;
    let ghost ov = views(open@);
    let mut out: Vec<Shaping> = Vec::new();
    let mut i: usize = 0;
    while i < g.services.entries.len()
        invariant
            g.wf(nodes@.len()),
            es == g.services.entries@,
            ov == views(open@),
            i <= es.len(),
            out@ == answering_paths(es.take(i as int), *g, nodes@, me@, ov),
            forall|j: int|
                0 <= j < i && answers(nodes@, (#[trigger] es[j]).1, me@, ov) ==> {
                    let ip = es[j].0;
                    g.ip_to_path_id@.dom().contains(ip) && g.paths@.dom().contains(g.ip_to_path_id@[ip])
                },
        decreases es.len() - i,
    {
        proof {
            assert(es.take(i + 1).drop_last() =~= es.take(i as int));
            assert(es.take(i + 1).last() == es[i as int]);
            g.services.lemma_pos(i as int);
        }
        let ip = g.services.entries[i].0;
        let x = g.services.entries[i].1;
        let s = &nodes[x];
        if contains_string(&s.activepaths, me) && !contains_string(open, &s.hostname) {
            let id = match g.ip_to_path_id.get(&ip) {
                Some(v) => *v,
                None => {
                    return None;
                },
            };
            match g.paths.get(&id) {
                Some(p) => {
                    if p.links.len() == 0 {
                        out.push(Shaping::Disable { ip });
                    } else {
                        out.push(Shaping::Enable { ip, path: id });
                    }
                },
                None => {
                    return None;
                },
            }
        }
        i = i + 1;
    }
    proof {
        assert(es.take(es.len() as int) =~= es);
    }
    Some(out)
}

impl State {
    /// How the traffic shaper is set up for the graph in use, see
    /// `shaping_plan`; `None` where the graph has no root or a lookup of
    /// the plan finds nothing.
    pub fn shaping(&self, nodes: &Vec<Service>) -> (r: Option<Vec<Shaping>>)
        requires
            self.age < self.graphs@.len(),
            self.wf(nodes@.len()),
        ensures
            ({
                let g = self.graphs@[self.age as int];
                &&& r is Some <==> g.graph_root is Some && plan_defined(g, nodes@, g.graph_root->0)
                &&& r matches Some(v) ==> v@ == shaping_plan(g, nodes@, g.graph_root->0)
            }),
    {
        let g = &self.graphs[self.age];
        proof {
            assert(g.wf(nodes@.len()));
        }
        let root = match g.graph_root {
            Some(x) => x,
            None => {
                return None;
            },
        };
        let names = &nodes[root].activepaths;
        if names.len() == 0 {
            proof {
                assert(views(names@).len() == 0);
            }
            match every_path_exec(g) {
                Some(mut v) => {
                    let mut u = cut_off_exec(g);
                    v.append(&mut u);
                    Some(v)
                },
                None => None,
            }
        } else {
            match named_paths_exec(g, nodes, names) {
                Some(p) => {
                    let (mut v, open) = p;
                    match answering_exec(g, nodes, &nodes[root].hostname, &open) {
                        Some(mut w) => {
                            v.append(&mut w);
                            Some(v)
                        },
                        None => None,
                    }
                },
                None => None,
            }
        }
    }
}


/// The address a shaping entry is for.
pub open spec fn shaping_ip(x: Shaping) -> u32 {
    match x {
        Shaping::Disable { ip } => ip,
        Shaping::Enable { ip, path: _ } => ip,
    }
}

proof fn lemma_named_len(names: Seq<Seq<char>>, g: Graph, nodes: Seq<Service>)
    ensures
        named_paths(names, g, nodes).len() == names.len(),
        forall|j: int|
            0 <= j < names.len() ==> shaping_ip(#[trigger] named_paths(names, g, nodes)[j]) == first_replica_ip(
                g,
                nodes,
                names[j],
            ),
    decreases names.len(),
{
    if names.len() > 0 {
        lemma_named_len(names.drop_last(), g, nodes);
        let prev = named_paths(names.drop_last(), g, nodes);
        assert forall|j: int| 0 <= j < names.len() implies shaping_ip(#[trigger] named_paths(names, g, nodes)[j])
            == first_replica_ip(g, nodes, names[j]) by {
            if j < names.len() - 1 {
                assert(named_paths(names, g, nodes)[j] == prev[j]);
                assert(names.drop_last()[j] == names[j]);
            }
        }
    }
}

proof fn lemma_opened_has(names: Seq<Seq<char>>, g: Graph, nodes: Seq<Service>, j: int)
    requires
        0 <= j < names.len(),
        path_to(g, nodes, names[j]).links@.len() > 0,
    ensures
        opened(names, g, nodes).contains(names[j]),
    decreases names.len(),
{
    let o = opened(names, g, nodes);
    if j < names.len() - 1 {
        lemma_opened_has(names.drop_last(), g, nodes, j);
        assert(names.drop_last()[j] == names[j]);
        let p = opened(names.drop_last(), g, nodes);
        let q = choose|q: int| 0 <= q < p.len() && p[q] == names[j];
        assert(o[q] == names[j]);
    } else {
        assert(o.last() == names[j]);
        assert(o[o.len() - 1] == names[j]);
    }
}

proof fn lemma_answering_from(
    es: Seq<(u32, usize)>,
    g: Graph,
    nodes: Seq<Service>,
    me: Seq<char>,
    open: Seq<Seq<char>>,
    k: int,
)
    requires
        0 <= k < answering_paths(es, g, nodes, me, open).len(),
    ensures
        exists|i: int|
            0 <= i < es.len() && shaping_ip(answering_paths(es, g, nodes, me, open)[k]) == (#[trigger] es[i]).0
                && views(nodes[es[i].1 as int].activepaths@).contains(me) && !open.contains(
                nodes[es[i].1 as int].hostname@,
            ),
    decreases es.len(),
{
    let prev = answering_paths(es.drop_last(), g, nodes, me, open);
    if k < prev.len() {
        lemma_answering_from(es.drop_last(), g, nodes, me, open, k);
        let i = choose|i: int|
            0 <= i < es.drop_last().len() && shaping_ip(prev[k]) == (#[trigger] es.drop_last()[i]).0 && views(
                nodes[es.drop_last()[i].1 as int].activepaths@,
            ).contains(me) && !open.contains(nodes[es.drop_last()[i].1 as int].hostname@);
        assert(es[i] == es.drop_last()[i]);
        assert(answering_paths(es, g, nodes, me, open)[k] == prev[k]);
    } else {
        assert(es[es.len() - 1] == es.last());
    }
}

/// `x` is for a service of `g` that names the root's service among its
/// active paths and whose name has no opened path from the root: no name
/// among the root's active paths equal to it leads to a path with links.
pub open spec fn answering_entry(g: Graph, nodes: Seq<Service>, root: usize, x: Shaping) -> bool {
    let names = views(nodes[root as int].activepaths@);
    let es = g.services.entries@;
    exists|i: int|
        #![trigger es[i]]
        0 <= i < es.len() && shaping_ip(x) == es[i].0 && views(nodes[es[i].1 as int].activepaths@).contains(
            nodes[root as int].hostname@,
        ) && forall|j: int|
            0 <= j < names.len() && names[j] == nodes[es[i].1 as int].hostname@ ==> path_to(
                g,
                nodes,
                #[trigger] names[j],
            ).links@.len() == 0
}

/// A service with active paths has the paths to the services it names
/// shaped first, in order, each for the address of the first replica of
/// the name; every entry after those is for a service that names it
/// among its own active paths and whose name has no opened path yet: a
/// service whose path was already opened from the root's side is not
/// shaped again.
pub proof fn lemma_answering_not_twice(g: Graph, nodes: Seq<Service>, root: usize)
    requires
        views(nodes[root as int].activepaths@).len() > 0,
    ensures
        ({
            let names = views(nodes[root as int].activepaths@);
            let v = shaping_plan(g, nodes, root);
            &&& v.len() >= names.len()
            &&& forall|j: int| 0 <= j < names.len() ==> shaping_ip(#[trigger] v[j]) == first_replica_ip(g, nodes, names[j])
            &&& forall|k: int| names.len() <= k < v.len() ==> answering_entry(g, nodes, root, #[trigger] v[k])
        }),
{
    let names = views(nodes[root as int].activepaths@);
    let me = nodes[root as int].hostname@;
    let es = g.services.entries@;
    let open = opened(names, g, nodes);
    let v = shaping_plan(g, nodes, root);
    let np = named_paths(names, g, nodes);
    let ap = answering_paths(es, g, nodes, me, open);
    lemma_named_len(names, g, nodes);
    assert(v == np + ap);
    assert forall|j: int| 0 <= j < names.len() implies shaping_ip(#[trigger] v[j]) == first_replica_ip(g, nodes, names[j]) by {
        assert(v[j] == np[j]);
    }
    assert forall|k: int| names.len() <= k < v.len() implies answering_entry(g, nodes, root, #[trigger] v[k]) by {
        let kk = k - names.len();
        assert(v[k] == ap[kk]);
        lemma_answering_from(es, g, nodes, me, open, kk);
        let i = choose|i: int|
            0 <= i < es.len() && shaping_ip(ap[kk]) == (#[trigger] es[i]).0 && views(nodes[es[i].1 as int].activepaths@).contains(me)
                && !open.contains(nodes[es[i].1 as int].hostname@);
        assert forall|j: int| 0 <= j < names.len() && names[j] == nodes[es[i].1 as int].hostname@ implies path_to(
            g,
            nodes,
            #[trigger] names[j],
        ).links@.len() == 0 by {
            if path_to(g, nodes, names[j]).links@.len() > 0 {
                lemma_opened_has(names, g, nodes, j);
            }
        }
    }
}

proof fn lemma_every_path_has(es: Seq<(u32, Path)>, g: Graph, i: int)
    requires
        0 <= i < es.len(),
        !g.bridges_by_name@.dom().contains(es[i].1.finish@),
    ensures
        every_path(es, g).contains(
            (if es[i].1.links@.len() > 0 {
                Shaping::Enable { ip: g.path_id_to_ip@[es[i].0], path: es[i].0 }
            } else {
                Shaping::Disable { ip: g.path_id_to_ip@[es[i].0] }
            }),
        ),
    decreases es.len(),
{
    let v = every_path(es, g);
    if i < es.len() - 1 {
        lemma_every_path_has(es.drop_last(), g, i);
        assert(es.drop_last()[i] == es[i]);
        let p = every_path(es.drop_last(), g);
        let c = choose|c: Shaping| p.contains(c) && c == (if es[i].1.links@.len() > 0 {
            Shaping::Enable { ip: g.path_id_to_ip@[es[i].0], path: es[i].0 }
        } else {
            Shaping::Disable { ip: g.path_id_to_ip@[es[i].0] }
        });
        let j = choose|j: int| 0 <= j < p.len() && p[j] == c;
        assert(v[j] == c);
    } else {
        assert(es.last() == es[i]);
        assert(v[v.len() - 1] == v.last());
    }
}

proof fn lemma_cut_off_has(ips: Seq<u32>, g: Graph, i: int)
    requires
        0 <= i < ips.len(),
        !g.ip_to_path_id@.dom().contains(ips[i]),
    ensures
        cut_off(ips, g).contains((Shaping::Disable { ip: ips[i] })),
    decreases ips.len(),
{
    let v = cut_off(ips, g);
    if i < ips.len() - 1 {
        lemma_cut_off_has(ips.drop_last(), g, i);
        assert(ips.drop_last()[i] == ips[i]);
        let p = cut_off(ips.drop_last(), g);
        let j = choose|j: int| 0 <= j < p.len() && p[j] == (Shaping::Disable { ip: ips[i] });
        assert(v[j] == p[j]);
    } else {
        assert(ips.last() == ips[i]);
        assert(v[v.len() - 1] == v.last());
    }
}

/// A service with no active paths has every path of its graph that does
/// not end at a bridge shaped: opened along the path when it has links,
/// closed otherwise; and every address of the deployment that no path
/// reaches is closed.
pub proof fn lemma_shaping_without_active_paths(g: Graph, nodes: Seq<Service>, root: usize)
    requires
        views(nodes[root as int].activepaths@).len() == 0,
    ensures
        ({
            let v = shaping_plan(g, nodes, root);
            &&& forall|i: int|
                0 <= i < g.paths.entries@.len() && !g.bridges_by_name@.dom().contains(
                    (#[trigger] g.paths.entries@[i]).1.finish@,
                ) ==> v.contains(
                    (if g.paths.entries@[i].1.links@.len() > 0 {
                        Shaping::Enable { ip: g.path_id_to_ip@[g.paths.entries@[i].0], path: g.paths.entries@[i].0 }
                    } else {
                        Shaping::Disable { ip: g.path_id_to_ip@[g.paths.entries@[i].0] }
                    }),
                )
            &&& forall|i: int|
                0 <= i < g.ips@.len() && !g.ip_to_path_id@.dom().contains(#[trigger] g.ips@[i]) ==> v.contains(
                    (Shaping::Disable { ip: g.ips@[i] }),
                )
        }),
{
    let v = shaping_plan(g, nodes, root);
    let a = every_path(g.paths.entries@, g);
    let b = cut_off(g.ips@, g);
    assert(v == a + b);
    assert forall|i: int|
        0 <= i < g.paths.entries@.len() && !g.bridges_by_name@.dom().contains(
            (#[trigger] g.paths.entries@[i]).1.finish@,
        ) implies v.contains(
        (if g.paths.entries@[i].1.links@.len() > 0 {
            Shaping::Enable { ip: g.path_id_to_ip@[g.paths.entries@[i].0], path: g.paths.entries@[i].0 }
        } else {
            Shaping::Disable { ip: g.path_id_to_ip@[g.paths.entries@[i].0] }
        }),
    ) by {
        lemma_every_path_has(g.paths.entries@, g, i);
        let c = (if g.paths.entries@[i].1.links@.len() > 0 {
            Shaping::Enable { ip: g.path_id_to_ip@[g.paths.entries@[i].0], path: g.paths.entries@[i].0 }
        } else {
            Shaping::Disable { ip: g.path_id_to_ip@[g.paths.entries@[i].0] }
        });
        let j = choose|j: int| 0 <= j < a.len() && a[j] == c;
        assert(v[j] == c);
    }
    assert forall|i: int| 0 <= i < g.ips@.len() && !g.ip_to_path_id@.dom().contains(#[trigger] g.ips@[i]) implies v.contains(
        (Shaping::Disable { ip: g.ips@[i] }),
    ) by {
        lemma_cut_off_has(g.ips@, g, i);
        let j = choose|j: int| 0 <= j < b.len() && b[j] == (Shaping::Disable { ip: g.ips@[i] });
        assert(v[a.len() + j] == b[j]);
    }
}
} // verus!
