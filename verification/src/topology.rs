//! The network described by a topology file, as graph operations: the
//! replicas of a service, the links a `<link>` element stands for, the
//! active paths of a service, and the bookkeeping of replicas while the
//! dynamic section is read.
use vstd::prelude::*;
use crate::elements::{Service, LinkProps};
use crate::graph::{Graph, link_inserted, appended};
use crate::schedule::{Event, EventKind};
use crate::text::{chars_of, string_from_chars};

verus! {

/// One link to create: properties, source name, destination name.
#[derive(Clone, Debug)]
pub struct LinkSpec {
    pub props: LinkProps,
    pub source: String,
    pub destination: String,
}

/// Properties of the links that attach a shared element to its meta bridge:
/// no latency, jitter or loss, the given bandwidth (all as bit patterns;
/// zero is the pattern of +0.0).
pub open spec fn attach_props(bandwidth: u32) -> LinkProps {
    LinkProps { latency: 0, jitter: 0, drop: 0, bandwidth }
}

/// The link properties of a `<link>` element in one direction.
pub open spec fn wire_props(latency: u32, jitter: u32, drop: u32, bandwidth: u32) -> LinkProps {
    LinkProps { latency, jitter, drop, bandwidth }
}

/// How many meta bridges a link needs: one for each end that is shared.
pub open spec fn metas_needed(source_shared: bool, destination_shared: bool) -> nat {
    (if source_shared { 1nat } else { 0nat }) + (if destination_shared { 1nat } else { 0nat })
}

pub fn meta_bridges_needed(source_shared: bool, destination_shared: bool) -> (n: usize)
    ensures
        n == metas_needed(source_shared, destination_shared),
{
    (if source_shared { 1 } else { 0 }) + (if destination_shared { 1 } else { 0 })
}

/// `spec` seen as plain values.
pub open spec fn as_triple(s: LinkSpec) -> (LinkProps, Seq<char>, Seq<char>) {
    (s.props, s.source@, s.destination@)
}

/// The links of a plan seen as plain values.
pub open spec fn triples(plan: Seq<LinkSpec>) -> Seq<(LinkProps, Seq<char>, Seq<char>)> {
    plan.map_values(|s: LinkSpec| as_triple(s))
}

/// The links a `<link>` element from `source` to `destination` stands
/// for, in the order they are created.  An end that is shared is reached
/// through a meta bridge of its own (`metas`, the source's first): the
/// properties of the element go on the link between the bridges, or
/// between the bridge and the other end, and the shared end is attached to
/// its bridge by a link of bandwidth only.  With a download bandwidth every
/// link has a reverse twin created right after it, carrying the download
/// bandwidth.
pub open spec fn plan_of(
    source: Seq<char>,
    destination: Seq<char>,
    source_shared: bool,
    destination_shared: bool,
    latency: u32,
    jitter: u32,
    drop: u32,
    upload: u32,
    download: Option<u32>,
    metas: Seq<Seq<char>>,
) -> Seq<(LinkProps, Seq<char>, Seq<char>)> {
    let up = wire_props(latency, jitter, drop, upload);
    let down = wire_props(latency, jitter, drop, match download { Some(d) => d, None => 0 });
    let aup = attach_props(upload);
    let adown = attach_props(match download { Some(d) => d, None => 0 });
    let bi = download is Some;
    let pair = |p: LinkProps, q: LinkProps, a: Seq<char>, b: Seq<char>|
        if bi {
            seq![(p, a, b), (q, b, a)]
        } else {
            seq![(p, a, b)]
        };
    if source_shared && destination_shared {
        pair(up, down, metas[0], metas[1]) + pair(aup, adown, source, metas[0]) + pair(
            aup,
            adown,
            metas[1],
            destination,
        )
    } else if source_shared {
        pair(up, down, metas[0], destination) + pair(aup, adown, source, metas[0])
    } else if destination_shared {
        pair(up, down, source, metas[0]) + pair(aup, adown, metas[0], destination)
    } else {
        pair(up, down, source, destination)
    }
}

fn push_pair(
    plan: &mut Vec<LinkSpec>,
    p: LinkProps,
    q: LinkProps,
    a: &String,
    b: &String,
    bi: bool,
)
    ensures
        triples(final(plan)@) == triples(old(plan)@) + (if bi {
            seq![(p, a@, b@), (q, b@, a@)]
        } else {
            seq![(p, a@, b@)]
        }),
{
    let ghost before = plan@;
    plan.push(LinkSpec { props: p, source: a.clone(), destination: b.clone() });
    if bi {
        plan.push(LinkSpec { props: q, source: b.clone(), destination: a.clone() });
    }
    proof {
        if bi {
            assert(triples(plan@) =~= triples(before) + seq![(p, a@, b@), (q, b@, a@)]);
        } else {
            assert(triples(plan@) =~= triples(before) + seq![(p, a@, b@)]);
        }
    }
}

/// The links a `<link>` element stands for, see `plan_of`.
pub fn link_plan(
    source: &String,
    destination: &String,
    source_shared: bool,
    destination_shared: bool,
    latency: u32,
    jitter: u32,
    drop: u32,
    upload: u32,
    download: Option<u32>,
    metas: &Vec<String>,
) -> (r: Vec<LinkSpec>)
    requires
        metas@.len() == metas_needed(source_shared, destination_shared),
    ensures
        triples(r@) == plan_of(
            source@,
            destination@,
            source_shared,
            destination_shared,
            latency,
            jitter,
            drop,
            upload,
            download,
            metas@.map_values(|m: String| m@),
        ),
{
    let up = LinkProps { latency, jitter, drop, bandwidth: upload };
    let dbw = match download {
        Some(d) => d,
        None => 0,
    };
    let down = LinkProps { latency, jitter, drop, bandwidth: dbw };
    let aup = LinkProps { latency: 0, jitter: 0, drop: 0, bandwidth: upload };
    let adown = LinkProps { latency: 0, jitter: 0, drop: 0, bandwidth: dbw };
    let bi = download.is_some();
    let mut plan: Vec<LinkSpec> = Vec::new();
    let ghost ms = metas@.map_values(|m: String| m@);
    if source_shared && destination_shared {
        proof {
            assert(ms[0] == metas@[0]@);
            assert(ms[1] == metas@[1]@);
        }
        push_pair(&mut plan, up, down, &metas[0], &metas[1], bi);
        push_pair(&mut plan, aup, adown, source, &metas[0], bi);
        push_pair(&mut plan, aup, adown, &metas[1], destination, bi);
    } else if source_shared {
        proof {
            assert(ms[0] == metas@[0]@);
        }
        push_pair(&mut plan, up, down, &metas[0], destination, bi);
        push_pair(&mut plan, aup, adown, source, &metas[0], bi);
    } else if destination_shared {
        proof {
            assert(ms[0] == metas@[0]@);
        }
        push_pair(&mut plan, up, down, source, &metas[0], bi);
        push_pair(&mut plan, aup, adown, &metas[0], destination, bi);
    } else {
        push_pair(&mut plan, up, down, source, destination, bi);
    }
    proof {
        let expected = plan_of(source@, destination@, source_shared, destination_shared, latency, jitter, drop, upload, download, ms);
        assert(triples(plan@) =~= expected);
    }
    plan
}

/// Links made by the steps of `plan`, step by step: `gs` and `ns` hold the
/// graph and the node list before each step and after the last.
pub open spec fn steps_done(gs: Seq<Graph>, ns: Seq<Seq<Service>>, plan: Seq<(LinkProps, Seq<char>, Seq<char>)>) -> bool {
    &&& gs.len() == plan.len() + 1
    &&& ns.len() == plan.len() + 1
    &&& forall|i: int|
        0 <= i < plan.len() ==> link_inserted(
            gs[i + 1],
            gs[i],
            ns[i + 1],
            ns[i],
            (#[trigger] plan[i]).0,
            plan[i].1,
            plan[i].2,
        )
}

/// Link ids the steps of `plan` use up in `g`.
pub open spec fn plan_cost(g: Graph, plan: Seq<(LinkProps, Seq<char>, Seq<char>)>) -> int
    decreases plan.len(),
{
    if plan.len() == 0 {
        0
    } else {
        plan_cost(g, plan.drop_last()) + g.nodes_named(plan.last().1).len() * g.nodes_named(plan.last().2).len()
    }
}

proof fn lemma_plan_cost_nonneg(g: Graph, plan: Seq<(LinkProps, Seq<char>, Seq<char>)>)
    ensures
        plan_cost(g, plan) >= 0,
    decreases plan.len(),
{
    if plan.len() > 0 {
        lemma_plan_cost_nonneg(g, plan.drop_last());
        let a = g.nodes_named(plan.last().1).len();
        let b = g.nodes_named(plan.last().2).len();
        assert(a * b >= 0) by (nonlinear_arith);
    }
}

/// The latencies of the links of `plan`, summed.
pub open spec fn plan_latency(plan: Seq<(LinkProps, Seq<char>, Seq<char>)>) -> int
    decreases plan.len(),
{
    if plan.len() == 0 {
        0
    } else {
        plan_latency(plan.drop_last()) + plan.last().0.latency
    }
}

/// Links `plan` in some order `order` form a chain from `origin` to
/// `destination`: each starts where the one before ends.
pub open spec fn chain(plan: Seq<(LinkProps, Seq<char>, Seq<char>)>, order: Seq<int>, origin: Seq<char>, destination: Seq<char>) -> bool {
    &&& order.len() == plan.len() > 0
    &&& forall|k: int| 0 <= k < order.len() ==> 0 <= #[trigger] order[k] < plan.len()
    &&& forall|k: int, j: int| 0 <= k < j < order.len() ==> order[k] != order[j]
    &&& plan[order[0]].1 == origin
    &&& plan[order[order.len() - 1]].2 == destination
    &&& forall|k: int| 0 <= k < order.len() - 1 ==> plan[#[trigger] order[k]].2 == plan[order[k + 1]].1
}

/// A `<link>` element without a download bandwidth, whatever ends are
/// shared, makes a chain of links from its origin to its destination, one
/// through each meta bridge: every link carries the upload bandwidth, the
/// latency adds up to the element's, and exactly one link carries the
/// element's latency, jitter and drop, the others none.
pub proof fn lemma_link_chain(
    origin: Seq<char>,
    destination: Seq<char>,
    source_shared: bool,
    destination_shared: bool,
    latency: u32,
    jitter: u32,
    drop: u32,
    upload: u32,
    metas: Seq<Seq<char>>,
) -> (order: Seq<int>)
    requires
        metas.len() == metas_needed(source_shared, destination_shared),
    ensures
        ({
            let plan = plan_of(origin, destination, source_shared, destination_shared, latency, jitter, drop, upload, None, metas);
            &&& plan.len() == 1 + metas.len()
            &&& chain(plan, order, origin, destination)
            &&& forall|k: int| 0 <= k < plan.len() ==> (#[trigger] plan[k]).0.bandwidth == upload
            &&& plan_latency(plan) == latency
            &&& exists|w: int|
                0 <= w < plan.len() && plan[w].0 == wire_props(latency, jitter, drop, upload) && forall|k: int|
                    0 <= k < plan.len() && k != w ==> (#[trigger] plan[k]).0 == attach_props(upload)
        }),
{
    let plan = plan_of(origin, destination, source_shared, destination_shared, latency, jitter, drop, upload, None, metas);
    reveal_with_fuel(plan_latency, 4);
    if source_shared && destination_shared {
        assert(plan =~= seq![
            (wire_props(latency, jitter, drop, upload), metas[0], metas[1]),
            (attach_props(upload), origin, metas[0]),
            (attach_props(upload), metas[1], destination),
        ]);
        let order = seq![1int, 0, 2];
        assert(plan[0].0 == wire_props(latency, jitter, drop, upload));
        order
    } else if source_shared {
        assert(plan =~= seq![
            (wire_props(latency, jitter, drop, upload), metas[0], destination),
            (attach_props(upload), origin, metas[0]),
        ]);
        assert(plan[0].0 == wire_props(latency, jitter, drop, upload));
        seq![1int, 0]
    } else if destination_shared {
        assert(plan =~= seq![
            (wire_props(latency, jitter, drop, upload), origin, metas[0]),
            (attach_props(upload), metas[0], destination),
        ]);
        assert(plan[0].0 == wire_props(latency, jitter, drop, upload));
        seq![0int, 1]
    } else {
        assert(plan =~= seq![(wire_props(latency, jitter, drop, upload), origin, destination)]);
        assert(plan[0].0 == wire_props(latency, jitter, drop, upload));
        seq![0int]
    }
}

/// With a download bandwidth `d`, whatever ends are shared, the links of
/// a `<link>` element come in pairs: each link is followed by its reverse
/// twin, which goes back between the same two elements, carries `d` where
/// the link carries the upload bandwidth, and has the link's latency,
/// jitter and drop.  One pair goes through each meta bridge.
pub proof fn lemma_link_twins(
    origin: Seq<char>,
    destination: Seq<char>,
    source_shared: bool,
    destination_shared: bool,
    latency: u32,
    jitter: u32,
    drop: u32,
    upload: u32,
    d: u32,
    metas: Seq<Seq<char>>,
)
    requires
        metas.len() == metas_needed(source_shared, destination_shared),
    ensures
        ({
            let plan = plan_of(origin, destination, source_shared, destination_shared, latency, jitter, drop, upload, Some(d), metas);
            &&& plan.len() == 2 * (1 + metas.len())
            &&& forall|k: int|
                0 <= k < 1 + metas.len() ==> {
                    let fwd = #[trigger] plan[2 * k];
                    let back = plan[2 * k + 1];
                    &&& back.1 == fwd.2 && back.2 == fwd.1
                    &&& fwd.0.bandwidth == upload
                    &&& back.0.bandwidth == d
                    &&& back.0.latency == fwd.0.latency && back.0.jitter == fwd.0.jitter && back.0.drop == fwd.0.drop
                }
        }),
{
    let plan = plan_of(origin, destination, source_shared, destination_shared, latency, jitter, drop, upload, Some(d), metas);
    let w = wire_props(latency, jitter, drop, upload);
    let wd = wire_props(latency, jitter, drop, d);
    if source_shared && destination_shared {
        assert(plan =~= seq![
            (w, metas[0], metas[1]),
            (wd, metas[1], metas[0]),
            (attach_props(upload), origin, metas[0]),
            (attach_props(d), metas[0], origin),
            (attach_props(upload), metas[1], destination),
            (attach_props(d), destination, metas[1]),
        ]);
    } else if source_shared {
        assert(plan =~= seq![
            (w, metas[0], destination),
            (wd, destination, metas[0]),
            (attach_props(upload), origin, metas[0]),
            (attach_props(d), metas[0], origin),
        ]);
    } else if destination_shared {
        assert(plan =~= seq![
            (w, origin, metas[0]),
            (wd, metas[0], origin),
            (attach_props(upload), metas[0], destination),
            (attach_props(d), destination, metas[0]),
        ]);
    } else {
        assert(plan =~= seq![(w, origin, destination), (wd, destination, origin)]);
    }
}

/// A `<link>` element between two elements that are not shared makes, in
/// one step, a link from every element named like its origin to every
/// element named like its destination, numbered on from the link counter,
/// with the element's latency, jitter, drop and upload bandwidth; with a
/// download bandwidth it then makes the links back the same way, and
/// without one nothing more.
pub proof fn lemma_link_element(
    gs: Seq<Graph>,
    ns: Seq<Seq<Service>>,
    origin: Seq<char>,
    destination: Seq<char>,
    latency: u32,
    jitter: u32,
    drop: u32,
    upload: u32,
    download: Option<u32>,
)
    requires
        steps_done(
            gs,
            ns,
            plan_of(origin, destination, false, false, latency, jitter, drop, upload, download, seq![]),
        ),
    ensures
        link_inserted(gs[1], gs[0], ns[1], ns[0], wire_props(latency, jitter, drop, upload), origin, destination),
        gs[1].link_counter == gs[0].link_counter + gs[0].nodes_named(origin).len() * gs[0].nodes_named(destination).len(),
        download is None ==> gs.len() == 2,
        download matches Some(d) ==> gs.len() == 3 && link_inserted(
            gs[2],
            gs[1],
            ns[2],
            ns[1],
            wire_props(latency, jitter, drop, d),
            destination,
            origin,
        ),
{
    let plan = plan_of(origin, destination, false, false, latency, jitter, drop, upload, download, seq![]);
    assert(plan[0] == (wire_props(latency, jitter, drop, upload), origin, destination));
    if let Some(d) = download {
        assert(plan[1] == (wire_props(latency, jitter, drop, d), destination, origin));
    }
}

impl Graph {
    /// Makes the links of `plan`, in order, with `insert_link`.
    pub fn insert_links(&mut self, nodes: &mut Vec<Service>, plan: &Vec<LinkSpec>)
        requires
            old(self).wf(old(nodes)@.len()),
            forall|i: int|
                0 <= i < plan@.len() ==> old(self).has_name(#[trigger] plan@[i].source@) && old(self).has_name(
                    plan@[i].destination@,
                ),
            old(self).link_counter + plan_cost(*old(self), triples(plan@))
                <= u16::MAX,
        ensures
            final(self).wf(final(nodes)@.len()),
            exists|gs: Seq<Graph>, ns: Seq<Seq<Service>>|
                #![trigger steps_done(gs, ns, triples(plan@))]
                steps_done(gs, ns, triples(plan@)) && gs[0] == *old(self)
                    && ns[0] == old(nodes)@ && gs.last() == *final(self) && ns.last() == final(nodes)@,
    {
        let ghost tp = triples(plan@);
        let ghost g0 = *self;
        let ghost mut gs: Seq<Graph> = seq![*self];
        let ghost mut ns: Seq<Seq<Service>> = seq![nodes@];
        let mut i: usize = 0;
        while i < plan.len()
            invariant
                tp == triples(plan@),
                i <= plan@.len(),
                self.wf(nodes@.len()),
                steps_done(gs, ns, tp.take(i as int)),
                gs[0] == g0,
                ns[0] == old(nodes)@,
                gs.last() == *self,
                ns.last() == nodes@,
                self.services_by_name == g0.services_by_name,
                self.bridges_by_name == g0.bridges_by_name,
                self.link_counter == g0.link_counter + plan_cost(g0, tp.take(i as int)),
                forall|k: int|
                    0 <= k < plan@.len() ==> g0.has_name(#[trigger] plan@[k].source@) && g0.has_name(
                        plan@[k].destination@,
                    ),
                g0.link_counter + plan_cost(g0, tp) <= u16::MAX,
            decreases plan@.len() - i,
        {
            proof {
                assert(tp[i as int] == as_triple(plan@[i as int]));
                assert(tp.take(i + 1).drop_last() =~= tp.take(i as int));
                lemma_plan_cost_prefix(g0, tp, i + 1);
                lemma_plan_cost_nonneg(g0, tp.take(i as int));
                assert(self.nodes_named(plan@[i as int].source@) == g0.nodes_named(plan@[i as int].source@));
                assert(self.nodes_named(plan@[i as int].destination@) == g0.nodes_named(plan@[i as int].destination@));
            }
            let ghost before_g = *self;
            let ghost before_n = nodes@;
            self.insert_link(nodes, plan[i].props, &plan[i].source, &plan[i].destination);
            proof {
                let tp1 = tp.take(i + 1);
                gs = gs.push(*self);
                ns = ns.push(nodes@);
                assert forall|k: int| 0 <= k < tp1.len() implies link_inserted(
                    gs[k + 1],
                    gs[k],
                    ns[k + 1],
                    ns[k],
                    (#[trigger] tp1[k]).0,
                    tp1[k].1,
                    tp1[k].2,
                ) by {
                    if k < i {
                        assert(tp1[k] == tp.take(i as int)[k]);
                    } else {
                        assert(tp1[k] == tp[i as int]);
                    }
                }
            }
            i = i + 1;
        }
        proof {
            assert(tp.take(plan@.len() as int) =~= tp);
        }
    }
}

proof fn lemma_plan_cost_prefix(g: Graph, plan: Seq<(LinkProps, Seq<char>, Seq<char>)>, i: int)
    requires
        0 <= i <= plan.len(),
    ensures
        plan_cost(g, plan.take(i)) <= plan_cost(g, plan),
    decreases plan.len() - i,
{
    if i < plan.len() {
        lemma_plan_cost_prefix(g, plan, i + 1);
        assert(plan.take(i + 1).drop_last() =~= plan.take(i));
        let a = g.nodes_named(plan[i].1).len();
        let b = g.nodes_named(plan[i].2).len();
        assert(a * b >= 0) by (nonlinear_arith);
    } else {
        assert(plan.take(i) =~= plan);
    }
}

/// `s` is a fresh replica of the service `name` with the given settings;
/// with a dashboard port it is marked as the dashboard.
pub open spec fn is_replica(
    s: Service,
    name: Seq<char>,
    shared: bool,
    reuse: bool,
    replicas: u32,
    ip: Option<u32>,
    paths: Seq<String>,
    script: Option<String>,
    image: Option<String>,
    command: Option<String>,
    dashboard: Option<u32>,
) -> bool {
    &&& s.hostname@ == name
    &&& s.shared == shared
    &&& s.reuse == reuse
    &&& s.replicas == replicas
    &&& s.ip == (match ip {
        Some(a) => a,
        None => 0u32,
    })
    &&& s.activepaths@ == paths
    &&& s.script@ == (match script {
        Some(t) => t@,
        None => Seq::<char>::empty(),
    })
    &&& s.image == image
    &&& s.command == command
    &&& s.links@.len() == 0
    &&& s.supervisor == dashboard is Some
    &&& s.supervisor_port == (match dashboard {
        Some(p) => p,
        None => 0u32,
    })
    &&& s.last_bytes == 0
    &&& s.replica_id == 0
}

/// Positions `from`, `from + 1`, ... up to `from + k`, excluded.
pub open spec fn positions_from(from: nat, k: nat) -> Seq<usize> {
    Seq::new(k, |i: int| (from + i) as usize)
}

fn copy_strings(v: &Vec<String>) -> (r: Vec<String>)
    ensures
        r@ == v@,
{
    let mut r: Vec<String> = Vec::new();
    let mut i: usize = 0;
    while i < v.len()
        invariant
            i <= v@.len(),
            r@ == v@.take(i as int),
        decreases v@.len() - i,
    {
        r.push(v[i].clone());
        proof {
            assert(v@.take(i + 1) =~= v@.take(i as int).push(v@[i as int]));
        }
        i = i + 1;
    }
    proof {
        assert(v@.take(v@.len() as int) =~= v@);
    }
    r
}

fn copy_option(v: &Option<String>) -> (r: Option<String>)
    ensures
        r == *v,
{
    match v {
        Some(s) => Some(s.clone()),
        None => None,
    }
}

impl Graph {
    /// Adds the `replicas` replicas of service `name`, one after the other,
    /// each with the given settings; with a dashboard port, each replica is
    /// marked as the dashboard once added.
    pub fn add_replicas(
        &mut self,
        nodes: &mut Vec<Service>,
        name: &String,
        shared: bool,
        reuse: bool,
        replicas: u32,
        ip: Option<u32>,
        paths: &Vec<String>,
        script: Option<String>,
        image: Option<String>,
        command: Option<String>,
        dashboard: Option<u32>,
    )
        requires
            old(self).wf(old(nodes)@.len()),
            old(nodes)@.len() + replicas <= usize::MAX,
        ensures
            final(self).wf(final(nodes)@.len()),
            final(nodes)@.len() == old(nodes)@.len() + replicas,
            forall|i: int| 0 <= i < old(nodes)@.len() ==> final(nodes)@[i] == old(nodes)@[i],
            forall|i: int|
                old(nodes)@.len() <= i < final(nodes)@.len() ==> is_replica(
                    #[trigger] final(nodes)@[i],
                    name@,
                    shared,
                    reuse,
                    replicas,
                    ip,
                    paths@,
                    script,
                    image,
                    command,
                    dashboard,
                ),
            replicas > 0 ==> final(self).services_by_name@.dom() == old(self).services_by_name@.dom().insert(name@),
            replicas > 0 ==> final(self).services_by_name@[name@]@ == (if old(self).services_by_name@.dom().contains(name@) {
                old(self).services_by_name@[name@]@
            } else {
                Seq::<usize>::empty()
            }) + positions_from(old(nodes)@.len(), replicas as nat),
            forall|k: Seq<char>|
                k != name@ && #[trigger] old(self).services_by_name@.dom().contains(k)
                    ==> final(self).services_by_name@[k] == old(self).services_by_name@[k],
            replicas == 0 ==> final(self).services_by_name == old(self).services_by_name,
            final(self).services@ == (match ip {
                Some(a) => if replicas > 0 {
                    old(self).services@.insert(a, (old(nodes)@.len() + replicas - 1) as usize)
                } else {
                    old(self).services@
                },
                None => old(self).services@,
            }),
            *final(self) == (Graph {
                services: final(self).services,
                services_by_name: final(self).services_by_name,
                ..*old(self)
            }),
    {
        let ghost g0 = *self;
        let ghost n0 = nodes@;
        let ghost base = if g0.services_by_name@.dom().contains(name@) {
            g0.services_by_name@[name@]@
        } else {
            Seq::<usize>::empty()
        };
        let mut k: u32 = 0;
        while k < replicas
            invariant
                self.wf(nodes@.len()),
                g0.wf(n0.len()),
                n0 == old(nodes)@,
                k <= replicas,
                n0.len() + replicas <= usize::MAX,
                nodes@.len() == n0.len() + k,
                forall|i: int| 0 <= i < n0.len() ==> nodes@[i] == n0[i],
                forall|i: int|
                    n0.len() <= i < nodes@.len() ==> is_replica(
                        #[trigger] nodes@[i],
                        name@,
                        shared,
                        reuse,
                        replicas,
                        ip,
                        paths@,
                        script,
                        image,
                        command,
                        dashboard,
                    ),
                k > 0 ==> self.services_by_name@.dom() == g0.services_by_name@.dom().insert(name@),
                k > 0 ==> self.services_by_name@[name@]@ == base + positions_from(n0.len(), k as nat),
                base == (if g0.services_by_name@.dom().contains(name@) {
                    g0.services_by_name@[name@]@
                } else {
                    Seq::<usize>::empty()
                }),
                forall|kk: Seq<char>|
                    kk != name@ && #[trigger] g0.services_by_name@.dom().contains(kk)
                        ==> self.services_by_name@[kk] == g0.services_by_name@[kk],
                k == 0 ==> self.services_by_name == g0.services_by_name,
                self.services@ == (match ip {
                    Some(a) => if k > 0 {
                        g0.services@.insert(a, (n0.len() + k - 1) as usize)
                    } else {
                        g0.services@
                    },
                    None => g0.services@,
                }),
                *self == (Graph { services: self.services, services_by_name: self.services_by_name, ..g0 }),
            decreases replicas - k,
        {
            let ghost before_g = *self;
            let ghost before_n = nodes@;
            let n = nodes.len();
            self.insert_service(
                nodes,
                name.clone(),
                shared,
                reuse,
                replicas,
                ip,
                copy_strings(paths),
                copy_option(&script),
                copy_option(&image),
                copy_option(&command),
            );
            match dashboard {
                Some(port) => {
                    let found = self.set_dashboard(nodes, name, port);
                    proof {
                        assert(found);
                        let g = self.services_by_name@[name@]@;
                        assert(g.last() == n);
                    }
                },
                None => {},
            }
            proof {
                assert(positions_from(n0.len(), (k + 1) as nat) =~= positions_from(n0.len(), k as nat).push(n));
                if k > 0 {
                    assert(before_g.services_by_name@.dom().contains(name@));
                } else {
                    assert(base + positions_from(n0.len(), 1) =~= crate::graph::appended(before_g.services_by_name@, name@, n));
                }
                assert forall|kk: Seq<char>|
                    kk != name@ && #[trigger] g0.services_by_name@.dom().contains(kk) implies self.services_by_name@[kk] == g0.services_by_name@[kk] by {
                    assert(before_g.services_by_name@.dom().contains(kk));
                }
                assert(self.services_by_name@.dom() =~= g0.services_by_name@.dom().insert(name@));
                match ip {
                    Some(a) => {
                        if k > 0 {
                            assert(self.services@ =~= g0.services@.insert(a, (n0.len() + k) as usize));
                        }
                    },
                    None => {},
                }
            }
            k = k + 1;
        }
    }
}

/// Characters an active-paths list drops: brackets and quotes.
pub open spec fn list_noise(c: char) -> bool {
    c == '[' || c == ']' || c == '\''
}

/// The names in an active-paths list such as `['a','b']`: the pieces
/// between commas, brackets and quotes dropped.  An empty text gives one
/// empty name.
pub open spec fn active_paths_of(s: Seq<char>) -> Seq<Seq<char>>
    decreases s.len(),
{
    if s.len() == 0 {
        seq![seq![]]
    } else {
        let p = active_paths_of(s.drop_last());
        let c = s.last();
        if c == ',' {
            p.push(seq![])
        } else if list_noise(c) {
            p
        } else {
            p.update(p.len() - 1, p.last().push(c))
        }
    }
}

proof fn lemma_active_paths_nonempty(s: Seq<char>)
    ensures
        active_paths_of(s).len() >= 1,
    decreases s.len(),
{
    if s.len() > 0 {
        lemma_active_paths_nonempty(s.drop_last());
    }
}

/// The views of some strings.
pub open spec fn views(v: Seq<String>) -> Seq<Seq<char>> {
    v.map_values(|x: String| x@)
}

/// Reads an active-paths list, see `active_paths_of`.
pub fn process_active_paths(activepaths: &str) -> (r: Vec<String>)
    ensures
        views(r@) == active_paths_of(activepaths@),
{
    let cs = chars_of(activepaths);
    let mut pieces: Vec<String> = Vec::new();
    let mut cur: Vec<char> = Vec::new();
    let mut i: usize = 0;
    while i < cs.len()
        invariant
            cs@ == activepaths@,
            i <= cs@.len(),
            views(pieces@).push(cur@) == active_paths_of(cs@.take(i as int)),
        decreases cs@.len() - i,
    {
        let c = cs[i];
        let ghost before = views(pieces@).push(cur@);
        proof {
            assert(cs@.take(i + 1).drop_last() =~= cs@.take(i as int));
            assert(cs@.take(i + 1).last() == c);
            lemma_active_paths_nonempty(cs@.take(i as int));
        }
        if c == ',' {
            let piece = string_from_chars(cur.as_slice());
            pieces.push(piece);
            cur = Vec::new();
            proof {
                assert(views(pieces@) =~= before);
                assert(views(pieces@).push(cur@) =~= before.push(seq![]));
            }
        } else if c == '[' || c == ']' || c == '\'' {
        } else {
            cur.push(c);
            proof {
                assert(views(pieces@).push(cur@) =~= before.update(before.len() - 1, before.last().push(c)));
            }
        }
        i = i + 1;
    }
    let last = string_from_chars(cur.as_slice());
    let ghost before = views(pieces@).push(cur@);
    pieces.push(last);
    proof {
        assert(cs@.take(cs@.len() as int) =~= cs@);
        assert(views(pieces@) =~= before);
    }
    pieces
}

/// What the dynamic section does to one replica.
#[derive(Clone, Copy, Debug, PartialEq, Eq, Structural)]
pub enum ReplicaAction {
    Join,
    Leave,
    Crash,
    Disconnect,
    Reconnect,
}

/// Where one replica stands while the dynamic section is read.
#[derive(Clone, Copy, Debug, PartialEq, Eq, Structural)]
pub struct ReplicaState {
    pub joined: bool,
    pub disconnected: bool,
    /// It joined once already (matters when replicas are not reused).
    pub used: bool,
}

/// Whether replica state `s` can undergo `action`: a join needs a replica
/// that is out, and never used unless replicas are reused; a leave or a
/// crash needs one that is in; a disconnection needs one that is in and
/// connected; a reconnection one that is disconnected.
pub open spec fn fits(s: ReplicaState, action: ReplicaAction, reuse: bool) -> bool {
    match action {
        ReplicaAction::Join => !s.joined && (reuse || !s.used),
        ReplicaAction::Leave | ReplicaAction::Crash => s.joined,
        ReplicaAction::Disconnect => s.joined && !s.disconnected,
        ReplicaAction::Reconnect => s.disconnected,
    }
}

/// Replica state `s` after `action`.
pub open spec fn after(s: ReplicaState, action: ReplicaAction, reuse: bool) -> ReplicaState {
    match action {
        ReplicaAction::Join => ReplicaState { joined: true, used: if reuse { s.used } else { true }, ..s },
        ReplicaAction::Leave | ReplicaAction::Crash => ReplicaState { joined: false, ..s },
        ReplicaAction::Disconnect => ReplicaState { disconnected: true, ..s },
        ReplicaAction::Reconnect => ReplicaState { disconnected: false, ..s },
    }
}

/// The event this instance schedules for itself.
pub open spec fn event_kind(action: ReplicaAction) -> EventKind {
    match action {
        ReplicaAction::Join => EventKind::Join,
        ReplicaAction::Leave => EventKind::Leave,
        ReplicaAction::Crash => EventKind::Crash,
        ReplicaAction::Disconnect => EventKind::Disconnect,
        ReplicaAction::Reconnect => EventKind::Reconnect,
    }
}

/// The replicas of a service while the dynamic section is read.
pub struct ReplicaTable {
    pub states: Vec<ReplicaState>,
}

impl ReplicaTable {
    /// `n` replicas, none joined yet.
    pub fn new(n: u32) -> (t: Self)
        ensures
            t.states@.len() == n,
            forall|i: int| 0 <= i < n ==> #[trigger] t.states@[i] == (ReplicaState { joined: false, disconnected: false, used: false }),
    {
        let mut states: Vec<ReplicaState> = Vec::new();
        let mut i: u32 = 0;
        while i < n
            invariant
                i <= n,
                states@.len() == i,
                forall|k: int| 0 <= k < i ==> #[trigger] states@[k] == (ReplicaState { joined: false, disconnected: false, used: false }),
            decreases n - i,
        {
            states.push(ReplicaState { joined: false, disconnected: false, used: false });
            i = i + 1;
        }
        Self { states }
    }

    /// Whether replica `id` can undergo `action`, see `fits`.
    pub fn can_take(&self, action: ReplicaAction, id: usize, reuse: bool) -> (b: bool)
        requires
            id < self.states@.len(),
        ensures
            b == fits(self.states@[id as int], action, reuse),
    {
        let s = self.states[id];
        match action {
            ReplicaAction::Join => !s.joined && (reuse || !s.used),
            ReplicaAction::Leave | ReplicaAction::Crash => s.joined,
            ReplicaAction::Disconnect => s.joined && !s.disconnected,
            ReplicaAction::Reconnect => s.disconnected,
        }
    }

    /// Replica `id` undergoes `action`; when it is replica `own`, the
    /// event for it at `time` is returned.
    pub fn take(&mut self, action: ReplicaAction, id: usize, reuse: bool, own: usize, time: u32) -> (e: Option<Event>)
        requires
            id < old(self).states@.len(),
            fits(old(self).states@[id as int], action, reuse),
        ensures
            final(self).states@ == old(self).states@.update(id as int, after(old(self).states@[id as int], action, reuse)),
            e == (if id == own {
                Some(Event { kind: event_kind(action), time })
            } else {
                None
            }),
    {
        let s = self.states[id];
        let n = match action {
            ReplicaAction::Join => ReplicaState { joined: true, used: if reuse { s.used } else { true }, ..s },
            ReplicaAction::Leave | ReplicaAction::Crash => ReplicaState { joined: false, ..s },
            ReplicaAction::Disconnect => ReplicaState { disconnected: true, ..s },
            ReplicaAction::Reconnect => ReplicaState { disconnected: false, ..s },
        };
        self.states.set(id, n);
        if id == own {
            let kind = match action {
                ReplicaAction::Join => EventKind::Join,
                ReplicaAction::Leave => EventKind::Leave,
                ReplicaAction::Crash => EventKind::Crash,
                ReplicaAction::Disconnect => EventKind::Disconnect,
                ReplicaAction::Reconnect => EventKind::Reconnect,
            };
            Some(Event::new(kind, time))
        } else {
            None
        }
    }
}

/// A replica taken in joins no more until it leaves or crashes, and, when
/// replicas are not reused, never again.
pub proof fn lemma_join_once(s: ReplicaState, reuse: bool)
    requires
        fits(s, ReplicaAction::Join, reuse),
    ensures
        !fits(after(s, ReplicaAction::Join, reuse), ReplicaAction::Join, reuse),
        !reuse ==> !fits(after(after(s, ReplicaAction::Join, reuse), ReplicaAction::Leave, reuse), ReplicaAction::Join, reuse),
        reuse ==> fits(after(after(s, ReplicaAction::Join, reuse), ReplicaAction::Leave, reuse), ReplicaAction::Join, reuse),
{
}

/// Disconnecting and then reconnecting a replica gives back its state.
pub proof fn lemma_reconnect_undoes(s: ReplicaState, reuse: bool)
    requires
        fits(s, ReplicaAction::Disconnect, reuse),
    ensures
        fits(after(s, ReplicaAction::Disconnect, reuse), ReplicaAction::Reconnect, reuse),
        after(after(s, ReplicaAction::Disconnect, reuse), ReplicaAction::Reconnect, reuse) == s,
{
}


/// The characters random names are drawn from: ASCII letters and digits.
pub open spec fn alphanumeric(c: char) -> bool {
    ('a' <= c <= 'z') || ('A' <= c <= 'Z') || ('0' <= c <= '9')
}

/// Calls `random_string::generate(length, charset)`: `length` characters
/// each drawn at random from `charset`, which must not be empty.  Claimed
/// of the result: its length, and that every character is one of
/// `charset`.
#[verifier::external_body]
fn random_text(length: usize, charset: &str) -> (r: String)
    requires
        charset@.len() > 0,
    ensures
        r@.len() == length,
        forall|i: int| 0 <= i < r@.len() ==> charset@.contains(#[trigger] r@[i]),
{
    random_string::generate(length, charset)
}

/// Names for `count` meta bridges: each five letters or digits, drawn at
/// random.
pub fn meta_bridge_names(count: usize) -> (r: Vec<String>)
    ensures
        r@.len() == count,
        forall|k: int, i: int|
            0 <= k < count && 0 <= i < r@[k]@.len() ==> #[trigger] alphanumeric(r@[k]@[i]),
        forall|k: int| 0 <= k < count ==> #[trigger] r@[k]@.len() == 5,
{
    let charset = "abcdefghijklmnopqrstuvwxyzABCDEFGHIJKLMNOPQRSTUVWXYZ0123456789";
    proof {
        reveal_strlit("abcdefghijklmnopqrstuvwxyzABCDEFGHIJKLMNOPQRSTUVWXYZ0123456789");
        assert forall|c: char| charset@.contains(c) implies alphanumeric(c) by {
            let j = choose|j: int| 0 <= j < charset@.len() && charset@[j] == c;
        }
    }
    let mut r: Vec<String> = Vec::new();
    let mut k: usize = 0;
    while k < count
        invariant
            k <= count,
            r@.len() == k,
            charset@.len() > 0,
            forall|c: char| charset@.contains(c) ==> alphanumeric(c),
            forall|kk: int, i: int| 0 <= kk < k && 0 <= i < r@[kk]@.len() ==> #[trigger] alphanumeric(r@[kk]@[i]),
            forall|kk: int| 0 <= kk < k ==> #[trigger] r@[kk]@.len() == 5,
        decreases count - k,
    {
        let name = random_text(5, charset);
        let ghost before = r@;
        r.push(name);
        proof {
            assert forall|kk: int, i: int| 0 <= kk < k + 1 && 0 <= i < r@[kk]@.len() implies #[trigger] alphanumeric(r@[kk]@[i]) by {
                if kk < k {
                    assert(r@[kk] == before[kk]);
                } else {
                    assert(charset@.contains(name@[i]));
                }
            }
        }
        k = k + 1;
    }
    r
}
} // verus!
