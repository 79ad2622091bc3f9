//! Dynamic events of an experiment as changes of the network graph: links
//! that leave, come back or appear, link properties that change, bridges
//! that leave or come back.  Each event derives a new graph from the last
//! one; the services are shared by all graphs, so that what an event does
//! to the links of a service is seen by every graph.
//!
//! After each change the caller recomputes the paths of the new graph.
use vstd::prelude::*;
use crate::assoc::{AssocMap, Key};
use crate::elements::{Service, Link, LinkProps, first_index_of, lemma_first_index_of};
use crate::graph::{Graph, in_nodes};

verus! {

/// The link goes from an element named `origin` to one named `destination`.
pub open spec fn joins(l: Link, nodes: Seq<Service>, origin: Seq<char>, destination: Seq<char>) -> bool {
    nodes[l.source as int].hostname@ == origin && nodes[l.destination as int].hostname@ == destination
}

/// The links among the entries `es` that go from `origin` to
/// `destination`, in entry order.
pub open spec fn joining(es: Seq<(u16, Link)>, nodes: Seq<Service>, origin: Seq<char>, destination: Seq<char>) -> Seq<Link>
    decreases es.len(),
{
    if es.len() == 0 {
        seq![]
    } else {
        joining(es.drop_last(), nodes, origin, destination) + (if joins(es.last().1, nodes, origin, destination) {
            seq![es.last().1]
        } else {
            seq![]
        })
    }
}

/// The ids of the links `ls`.
pub open spec fn link_ids(ls: Seq<Link>) -> Seq<u16> {
    ls.map_values(|l: Link| l.id)
}

/// `ls` without its first occurrence of `id`.
pub open spec fn without_first(ls: Seq<u16>, id: u16) -> Seq<u16> {
    if ls.contains(id) {
        ls.remove(first_index_of(ls, id))
    } else {
        ls
    }
}

/// `ls` after `c` removals of the first occurrence of `id`.
pub open spec fn without_n(ls: Seq<u16>, id: u16, c: nat) -> Seq<u16>
    decreases c,
{
    if c == 0 {
        ls
    } else {
        without_first(without_n(ls, id, (c - 1) as nat), id)
    }
}

/// `ls` after `c` removals of each of `ids`, one id after the other.
pub open spec fn stripped(ls: Seq<u16>, ids: Seq<u16>, c: nat) -> Seq<u16>
    decreases ids.len(),
{
    if ids.len() == 0 {
        ls
    } else {
        without_n(stripped(ls, ids.drop_last(), c), ids.last(), c)
    }
}

/// Number of occurrences of `x` in `s`.
pub open spec fn occurrences(s: Seq<usize>, x: usize) -> nat
    decreases s.len(),
{
    if s.len() == 0 {
        0
    } else {
        occurrences(s.drop_last(), x) + (if s.last() == x {
            1nat
        } else {
            0nat
        })
    }
}

proof fn lemma_without_n_add(ls: Seq<u16>, id: u16, a: nat, b: nat)
    ensures
        without_n(without_n(ls, id, a), id, b) == without_n(ls, id, a + b),
    decreases b,
{
    if b > 0 {
        lemma_without_n_add(ls, id, a, (b - 1) as nat);
    }
}

impl Graph {
    /// How many times node `x` is registered by address, as a service or
    /// as a bridge.
    pub open spec fn hits(&self, x: usize) -> nat {
        occurrences(self.services.values(), x) + occurrences(self.bridges.values(), x)
    }
}

/// Removes link `id` from the nodes registered in `places`, once per
/// registration.
fn strip_nodes(nodes: &mut Vec<Service>, places: &AssocMap<u32, usize>, id: u16)
    requires
        forall|i: int| 0 <= i < places.entries@.len() ==> #[trigger] places.entries@[i].1 < old(nodes)@.len(),
    ensures
        final(nodes)@.len() == old(nodes)@.len(),
        forall|x: int|
            0 <= x < old(nodes)@.len() ==> Service::same_but_links(#[trigger] final(nodes)@[x], old(nodes)@[x])
                && final(nodes)@[x].links@ == without_n(
                old(nodes)@[x].links@,
                id,
                occurrences(places.values(), x as usize),
            ),
{
    let ghost n0 = nodes@;
    let nn = nodes.len();
    let mut j: usize = 0;
    while j < places.entries.len()
        invariant
            nodes@.len() == n0.len(),
            nn == n0.len(),
            n0 == old(nodes)@,
            j <= places.entries@.len(),
            forall|i: int| 0 <= i < places.entries@.len() ==> #[trigger] places.entries@[i].1 < n0.len(),
            forall|x: int|
                0 <= x < n0.len() ==> Service::same_but_links(#[trigger] nodes@[x], n0[x])
                    && nodes@[x].links@ == without_n(
                    n0[x].links@,
                    id,
                    occurrences(places.values().take(j as int), x as usize),
                ),
        decreases places.entries@.len() - j,
    {
        let s = places.entries[j].1;
        proof {
            assert(places.values().take(j + 1).drop_last() =~= places.values().take(j as int));
            assert(places.values()[j as int] == s);
        }
        let ghost before = nodes@;
        nodes[s].remove_link(id);
        proof {
            let t1 = places.values().take(j + 1);
            let t0 = places.values().take(j as int);
            assert(t1.last() == s);
            assert forall|x: int| 0 <= x < n0.len() implies Service::same_but_links(#[trigger] nodes@[x], n0[x])
                && nodes@[x].links@ == without_n(n0[x].links@, id, occurrences(t1, x as usize)) by {
                assert(occurrences(t1, x as usize) == occurrences(t0, x as usize) + (if s == x as usize {
                    1nat
                } else {
                    0nat
                }));
                if x != s {
                    assert(nodes@[x] == before[x]);
                    assert(occurrences(t1, x as usize) == occurrences(t0, x as usize));
                    assert(before[x].links@ == without_n(n0[x].links@, id, occurrences(t0, x as usize)));
                } else {
                    let c0 = occurrences(t0, x as usize);
                    assert(before[x].links@ == without_n(n0[x].links@, id, c0));
                    assert(nodes@[x].links@ == without_first(before[x].links@, id));
                    assert(without_n(n0[x].links@, id, c0 + 1) == without_first(without_n(n0[x].links@, id, c0), id));
                    assert(occurrences(t1, x as usize) == c0 + 1);
                    assert(nodes@[x].links@ == without_n(n0[x].links@, id, occurrences(t1, x as usize)));
                    assert(Service::same_but_links(nodes@[x], before[x]));
                    assert(Service::same_but_links(before[x], n0[x]));
                    assert(Service::same_but_links(nodes@[x], n0[x]));
                }
            }
        }
        j = j + 1;
    }
    proof {
        assert(places.values().take(places.entries@.len() as int) =~= places.values());
    }
}

impl Graph {
    /// The links from elements named `origin` to elements named
    /// `destination` leave: they move, in walking order, to the removed
    /// links, and each is taken off the links of every registered service
    /// and bridge, once per registration.
    pub fn leave_links(&mut self, nodes: &mut Vec<Service>, origin: &String, destination: &String)
        requires
            old(self).wf(old(nodes)@.len()),
        ensures
            links_left(*final(self), *old(self), final(nodes)@, old(nodes)@, origin@, destination@),
    {
        let ghost n0 = nodes@;
        let ghost es = self.links.entries@;
        let ghost g0 = *self;
        let n = nodes.len();
        let mut gone: Vec<Link> = Vec::new();
        let mut i: usize = 0;
        while i < self.links.entries.len()
            invariant
                *self == g0,
                nodes@ == n0,
                n == n0.len(),
                g0.wf(n0.len()),
                es == g0.links.entries@,
                i <= es.len(),
                gone@ == joining(es.take(i as int), n0, origin@, destination@),
                forall|k: int| 0 <= k < gone@.len() ==> #[trigger] gone@[k].source < n && gone@[k].destination < n,
            decreases es.len() - i,
        {
            let l = self.links.entries[i].1;
            proof {
                g0.links.lemma_pos(i as int);
                assert(es.take(i + 1).drop_last() =~= es.take(i as int));
                assert(g0.links@.dom().contains(es[i as int].0.kv()));
            }
            if nodes[l.source].hostname == *origin && nodes[l.destination].hostname == *destination {
                gone.push(l);
            }
            i = i + 1;
        }
        proof {
            assert(es.take(es.len() as int) =~= es);
        }
        let ghost gl = gone@;
        let mut k: usize = 0;
        while k < gone.len()
            invariant
                gone@ == gl,
                k <= gl.len(),
                self.removed_links@ == g0.removed_links@ + gl.take(k as int),
                *self == (Graph { removed_links: self.removed_links, ..g0 }),
                forall|kk: int| 0 <= kk < gl.len() ==> #[trigger] gl[kk].source < n && gl[kk].destination < n,
            decreases gl.len() - k,
        {
            self.removed_links.push(gone[k]);
            proof {
                assert(gl.take(k + 1) =~= gl.take(k as int).push(gl[k as int]));
            }
            k = k + 1;
        }
        proof {
            assert(gl.take(gl.len() as int) =~= gl);
        }
        let ghost ids = link_ids(gl);
        let mut k: usize = 0;
        while k < gone.len()
            invariant
                gone@ == gl,
                ids == link_ids(gl),
                k <= gl.len(),
                nodes@.len() == n0.len(),
                self.links.wf(),
                self.links@ == g0.links@.remove_keys(ids.take(k as int).to_set()),
                self.services == g0.services,
                self.bridges == g0.bridges,
                g0.wf(n0.len()),
                forall|x: int|
                    0 <= x < n0.len() ==> Service::same_but_links(#[trigger] nodes@[x], n0[x])
                        && nodes@[x].links@ == stripped(n0[x].links@, ids.take(k as int), g0.hits(x as usize)),
                *self == (Graph { links: self.links, removed_links: self.removed_links, ..g0 }),
                self.removed_links@ == g0.removed_links@ + gl,
            decreases gl.len() - k,
        {
            let id = gone[k].id;
            let ghost before = nodes@;
            let ghost links_before = self.links@;
            self.links.remove(&id);
            proof {
                assert forall|i: int| 0 <= i < self.services.entries@.len() implies #[trigger] self.services.entries@[i].1 < before.len() by {
                    self.services.lemma_pos(i);
                    assert(g0.services@.dom().contains(self.services.entries@[i].0.kv()));
                }
                assert forall|i: int| 0 <= i < self.bridges.entries@.len() implies #[trigger] self.bridges.entries@[i].1 < before.len() by {
                    self.bridges.lemma_pos(i);
                    assert(g0.bridges@.dom().contains(self.bridges.entries@[i].0.kv()));
                }
            }
            strip_nodes(nodes, &self.services, id);
            let ghost mid = nodes@;
            strip_nodes(nodes, &self.bridges, id);
            proof {
                assert(ids[k as int] == id);
                assert(ids.take(k + 1).drop_last() =~= ids.take(k as int));
                let t1 = ids.take(k + 1);
                let t0 = ids.take(k as int);
                assert(t1.to_set() =~= t0.to_set().insert(id)) by {
                    assert forall|z: u16| t1.to_set().contains(z) <==> t0.to_set().insert(id).contains(z) by {
                        if t1.contains(z) {
                            let p = choose|p: int| 0 <= p < t1.len() && #[trigger] t1[p] == z;
                            if p < k {
                                assert(t0[p] == z);
                            }
                        }
                        if t0.contains(z) {
                            let p = choose|p: int| 0 <= p < t0.len() && #[trigger] t0[p] == z;
                            assert(t1[p] == z);
                        }
                        if z == id {
                            assert(t1[k as int] == z);
                        }
                    }
                }
                assert(self.links@ =~= g0.links@.remove_keys(ids.take(k + 1).to_set()));
                assert forall|x: int| 0 <= x < n0.len() implies Service::same_but_links(#[trigger] nodes@[x], n0[x])
                    && nodes@[x].links@ == stripped(n0[x].links@, ids.take(k + 1), g0.hits(x as usize)) by {
                    lemma_without_n_add(
                        before[x].links@,
                        id,
                        occurrences(self.services.values(), x as usize),
                        occurrences(self.bridges.values(), x as usize),
                    );
                    assert(mid[x].links@ == without_n(before[x].links@, id, occurrences(self.services.values(), x as usize)));
                }
                assert forall|kk: u16| #[trigger] self.links@.dom().contains(kk) implies self.links@[kk].id == kk
                    && self.links@[kk].source < n0.len() && self.links@[kk].destination < n0.len() by {
                    assert(g0.links@.dom().contains(kk));
                }
            }
            k = k + 1;
        }
        proof {
            assert(ids.take(gl.len() as int) =~= ids);
            assert forall|kk: int| 0 <= kk < self.removed_links@.len() implies #[trigger] self.removed_links@[kk].source < n0.len()
                && self.removed_links@[kk].destination < n0.len() by {
                if kk >= g0.removed_links@.len() {
                    assert(self.removed_links@[kk] == gl[kk - g0.removed_links@.len()]);
                }
            }
        }
    }
}

/// The links among `ls` that go from `origin` to `destination`, in order.
pub open spec fn joining_links(ls: Seq<Link>, nodes: Seq<Service>, origin: Seq<char>, destination: Seq<char>) -> Seq<Link>
    decreases ls.len(),
{
    if ls.len() == 0 {
        seq![]
    } else {
        joining_links(ls.drop_last(), nodes, origin, destination) + (if joins(ls.last(), nodes, origin, destination) {
            seq![ls.last()]
        } else {
            seq![]
        })
    }
}

/// The links among `ls` that do not go from `origin` to `destination`, in
/// order.
pub open spec fn non_joining(ls: Seq<Link>, nodes: Seq<Service>, origin: Seq<char>, destination: Seq<char>) -> Seq<Link>
    decreases ls.len(),
{
    if ls.len() == 0 {
        seq![]
    } else {
        non_joining(ls.drop_last(), nodes, origin, destination) + (if joins(ls.last(), nodes, origin, destination) {
            seq![]
        } else {
            seq![ls.last()]
        })
    }
}

/// `c` copies of `id`.
pub open spec fn copies(id: u16, c: nat) -> Seq<u16> {
    Seq::new(c, |_i: int| id)
}

/// Number of occurrences of `x` in the group named `name` of `m`, if any.
pub open spec fn in_group(m: Map<Seq<char>, Vec<usize>>, name: Seq<char>, x: usize) -> nat {
    if m.dom().contains(name) {
        occurrences(m[name]@, x)
    } else {
        0
    }
}

/// The ids attached to node `x` when the links `ls` come back: each id once
/// per occurrence of `x` among the services, then the bridges, named like
/// the source of the link.
pub open spec fn attached(ls: Seq<Link>, g: Graph, nodes: Seq<Service>, x: usize) -> Seq<u16>
    decreases ls.len(),
{
    if ls.len() == 0 {
        seq![]
    } else {
        let l = ls.last();
        let name = nodes[l.source as int].hostname@;
        attached(ls.drop_last(), g, nodes, x) + copies(l.id, in_group(g.services_by_name@, name, x) + in_group(
            g.bridges_by_name@,
            name,
            x,
        ))
    }
}

/// Appends `id` to the links of every member of `group`, in order.
fn attach_to(nodes: &mut Vec<Service>, group: &Vec<usize>, id: u16)
    requires
        in_nodes(group@, old(nodes)@.len()),
    ensures
        final(nodes)@.len() == old(nodes)@.len(),
        forall|x: int|
            0 <= x < old(nodes)@.len() ==> Service::same_but_links(#[trigger] final(nodes)@[x], old(nodes)@[x])
                && final(nodes)@[x].links@ == old(nodes)@[x].links@ + copies(id, occurrences(group@, x as usize)),
{
    let ghost n0 = nodes@;
    let nn = nodes.len();
    let mut j: usize = 0;
    while j < group.len()
        invariant
            nodes@.len() == n0.len(),
            nn == n0.len(),
            n0 == old(nodes)@,
            j <= group@.len(),
            in_nodes(group@, n0.len()),
            forall|x: int|
                0 <= x < n0.len() ==> Service::same_but_links(#[trigger] nodes@[x], n0[x])
                    && nodes@[x].links@ == n0[x].links@ + copies(id, occurrences(group@.take(j as int), x as usize)),
        decreases group@.len() - j,
    {
        let m = group[j];
        let ghost before = nodes@;
        nodes[m].attach_link(id);
        proof {
            let t1 = group@.take(j + 1);
            let t0 = group@.take(j as int);
            assert(t1.drop_last() =~= t0);
            assert(t1.last() == m);
            assert forall|x: int| 0 <= x < n0.len() implies Service::same_but_links(#[trigger] nodes@[x], n0[x])
                && nodes@[x].links@ == n0[x].links@ + copies(id, occurrences(t1, x as usize)) by {
                let c0 = occurrences(t0, x as usize);
                if x != m {
                    assert(nodes@[x] == before[x]);
                    assert(occurrences(t1, x as usize) == c0);
                } else {
                    assert(occurrences(t1, x as usize) == c0 + 1);
                    assert(copies(id, c0 + 1) =~= copies(id, c0).push(id));
                    assert(nodes@[x].links@ =~= n0[x].links@ + copies(id, c0 + 1));
                }
            }
        }
        j = j + 1;
    }
    proof {
        assert(group@.take(group@.len() as int) =~= group@);
    }
}

/// Copies a list of links.
fn copy_links(v: &Vec<Link>) -> (r: Vec<Link>)
    ensures
        r@ == v@,
{
    let mut r: Vec<Link> = Vec::new();
    let mut i: usize = 0;
    while i < v.len()
        invariant
            i <= v@.len(),
            r@ == v@.take(i as int),
        decreases v@.len() - i,
    {
        r.push(v[i]);
        proof {
            assert(v@.take(i + 1) =~= v@.take(i as int).push(v@[i as int]));
        }
        i = i + 1;
    }
    proof {
        assert(v@.take(v@.len() as int) =~= v@);
    }
    r
}

impl Graph {
    /// Removed links from elements named `origin` to elements named
    /// `destination` come back, in order: each goes back to the links and
    /// is attached to the services, then the bridges, named like its
    /// source.  Exactly these links leave the removed links, which keep
    /// the others in order.  Returns whether some link came back.
    pub fn join_links(&mut self, nodes: &mut Vec<Service>, origin: &String, destination: &String) -> (existed: bool)
        requires
            old(self).wf(old(nodes)@.len()),
        ensures
            links_joined(*final(self), *old(self), final(nodes)@, old(nodes)@, origin@, destination@, existed),
    {
        let ghost n0 = nodes@;
        let ghost g0 = *self;
        let ghost orig = self.removed_links@;
        let nn = nodes.len();
        let removed = copy_links(&self.removed_links);
        let mut back: Vec<Link> = Vec::new();
        let mut kept: Vec<Link> = Vec::new();
        let mut i: usize = 0;
        while i < removed.len()
            invariant
                removed@ == orig,
                orig == g0.removed_links@,
                nodes@ == n0,
                nn == n0.len(),
                g0.wf(n0.len()),
                i <= orig.len(),
                back@ == joining_links(orig.take(i as int), n0, origin@, destination@),
                kept@ == non_joining(orig.take(i as int), n0, origin@, destination@),
                self.links.wf(),
                self.links@ == g0.links@.union_prefer_right(crate::graph::links_by_id(back@)),
                *self == (Graph { links: self.links, ..g0 }),
                forall|k: int| 0 <= k < back@.len() ==> #[trigger] back@[k].source < nn && back@[k].destination < nn,
                forall|k: int| 0 <= k < kept@.len() ==> #[trigger] kept@[k].source < nn && kept@[k].destination < nn,
            decreases orig.len() - i,
        {
            let link = removed[i];
            proof {
                assert(g0.removed_links@[i as int].source < nn && g0.removed_links@[i as int].destination < nn);
                assert(orig.take(i + 1).drop_last() =~= orig.take(i as int));
                assert(orig.take(i + 1).last() == link);
            }
            if nodes[link.source].hostname == *origin && nodes[link.destination].hostname == *destination {
                let ghost k = back@.len() as int;
                let ghost back_old = back@;
                back.push(link);
                self.links.insert(link.id, link);
                proof {
                    assert(back@.drop_last() =~= back_old);
                    assert(crate::graph::links_by_id(back@) == crate::graph::links_by_id(back_old).insert(link.id, link));
                    assert(self.links@ =~= g0.links@.union_prefer_right(crate::graph::links_by_id(back@)));
                    assert(back@[k] == link);
                    assert forall|kk: int| 0 <= kk < back@.len() implies #[trigger] back@[kk].source < nn && back@[kk].destination < nn by {
                        if kk < k {
                            assert(back@[kk] == back_old[kk]);
                        }
                    }
                }
            } else {
                let ghost kept_old = kept@;
                kept.push(link);
                proof {
                    assert forall|kk: int| 0 <= kk < kept@.len() implies #[trigger] kept@[kk].source < nn && kept@[kk].destination < nn by {
                        if kk < kept_old.len() {
                            assert(kept@[kk] == kept_old[kk]);
                        }
                    }
                }
            }
            i = i + 1;
        }
        proof {
            assert(orig.take(orig.len() as int) =~= orig);
            assert forall|k: u16| #[trigger] self.links@.dom().contains(k) implies self.links@[k].id == k
                && self.links@[k].source < nn && self.links@[k].destination < nn by {
                lemma_links_by_id_facts(back@, k, nn as nat);
            }
        }
        self.removed_links = kept;
        let ghost bl = back@;
        let ghost nodes_mid = nodes@;
        let mut k: usize = 0;
        while k < back.len()
            invariant
                back@ == bl,
                k <= bl.len(),
                nodes@.len() == n0.len(),
                nn == n0.len(),
                nodes_mid == n0,
                self.services_by_name == g0.services_by_name,
                self.bridges_by_name == g0.bridges_by_name,
                g0.wf(n0.len()),
                forall|kk: int| 0 <= kk < bl.len() ==> #[trigger] bl[kk].source < nn && bl[kk].destination < nn,
                forall|x: int|
                    0 <= x < n0.len() ==> Service::same_but_links(#[trigger] nodes@[x], n0[x])
                        && nodes@[x].links@ == n0[x].links@ + attached(bl.take(k as int), g0, n0, x as usize),
            decreases bl.len() - k,
        {
            let l = back[k];
            let ghost before = nodes@;
            let ghost name = n0[l.source as int].hostname@;
            let source = nodes[l.source].hostname.clone();
            proof {
                assert(source@ == name);
            }
            match self.services_by_name.get(&source) {
                Some(group) => {
                    proof {
                        assert(g0.services_by_name@.dom().contains(name));
                    }
                    attach_to(nodes, group, l.id);
                },
                None => {},
            }
            let ghost after_services = nodes@;
            match self.bridges_by_name.get(&source) {
                Some(group) => {
                    proof {
                        assert(g0.bridges_by_name@.dom().contains(name));
                    }
                    attach_to(nodes, group, l.id);
                },
                None => {},
            }
            proof {
                assert(bl.take(k + 1).drop_last() =~= bl.take(k as int));
                assert(bl.take(k + 1).last() == l);
                assert forall|x: int| 0 <= x < n0.len() implies Service::same_but_links(#[trigger] nodes@[x], n0[x])
                    && nodes@[x].links@ == n0[x].links@ + attached(bl.take(k + 1), g0, n0, x as usize) by {
                    let a = in_group(g0.services_by_name@, name, x as usize);
                    let b = in_group(g0.bridges_by_name@, name, x as usize);
                    assert(after_services[x].links@ == before[x].links@ + copies(l.id, a));
                    assert(nodes@[x].links@ == after_services[x].links@ + copies(l.id, b));
                    assert(copies(l.id, a) + copies(l.id, b) =~= copies(l.id, a + b));
                    assert(nodes@[x].links@ =~= n0[x].links@ + attached(bl.take(k + 1), g0, n0, x as usize));
                }
            }
            k = k + 1;
        }
        proof {
            assert(bl.take(bl.len() as int) =~= bl);
        }
        back.len() > 0
    }
}

proof fn lemma_links_by_id_facts(s: Seq<Link>, k: u16, n: nat)
    requires
        forall|j: int| 0 <= j < s.len() ==> #[trigger] s[j].source < n && s[j].destination < n,
    ensures
        crate::graph::links_by_id(s).dom().contains(k) ==> crate::graph::links_by_id(s)[k].id == k
            && crate::graph::links_by_id(s)[k].source < n && crate::graph::links_by_id(s)[k].destination < n,
    decreases s.len(),
{
    if s.len() > 0 {
        lemma_links_by_id_facts(s.drop_last(), k, n);
        assert(s.last() == s[s.len() - 1]);
    }
}

/// `p` with the properties that are given replaced.
pub open spec fn changed_props(p: LinkProps, latency: Option<u32>, jitter: Option<u32>, drop: Option<u32>, bandwidth: Option<u32>) -> LinkProps {
    LinkProps {
        bandwidth: match bandwidth {
            Some(b) => b,
            None => p.bandwidth,
        },
        latency: match latency {
            Some(l) => l,
            None => p.latency,
        },
        jitter: match jitter {
            Some(j) => j,
            None => p.jitter,
        },
        drop: match drop {
            Some(d) => d,
            None => p.drop,
        },
    }
}

impl Graph {
    /// Every link from an element named `origin` to an element named
    /// `destination` gets the properties that are given.
    pub fn change_links(
        &mut self,
        nodes: &Vec<Service>,
        origin: &String,
        destination: &String,
        latency: Option<u32>,
        jitter: Option<u32>,
        drop: Option<u32>,
        bandwidth: Option<u32>,
    )
        requires
            old(self).wf(nodes@.len()),
        ensures
            links_changed(*final(self), *old(self), nodes@, origin@, destination@, latency, jitter, drop, bandwidth),
    {
        let ghost g0 = *self;
        let ghost es = self.links.entries@;
        let n = nodes.len();
        let mut i: usize = 0;
        while i < self.links.entries.len()
            invariant
                g0.wf(nodes@.len()),
                n == nodes@.len(),
                self.links.wf(),
                self.links.keys() == g0.links.keys(),
                self.links.entries@.len() == es.len(),
                es == g0.links.entries@,
                i <= es.len(),
                *self == (Graph { links: self.links, ..g0 }),
                forall|j: int| i <= j < es.len() ==> #[trigger] self.links.entries@[j] == es[j],
                forall|j: int|
                    0 <= j < i ==> #[trigger] self.links.entries@[j].1 == (if joins(es[j].1, nodes@, origin@, destination@) {
                        Link { props: changed_props(es[j].1.props, latency, jitter, drop, bandwidth), ..es[j].1 }
                    } else {
                        es[j].1
                    }),
            decreases es.len() - i,
        {
            let l = self.links.entries[i].1;
            proof {
                g0.links.lemma_pos(i as int);
                assert(g0.links@.dom().contains(es[i as int].0.kv()));
            }
            if nodes[l.source].hostname == *origin && nodes[l.destination].hostname == *destination {
                let mut props = l.props;
                match bandwidth {
                    Some(b) => {
                        props.bandwidth = b;
                    },
                    None => {},
                }
                match latency {
                    Some(v) => {
                        props.latency = v;
                    },
                    None => {},
                }
                match jitter {
                    Some(v) => {
                        props.jitter = v;
                    },
                    None => {},
                }
                match drop {
                    Some(v) => {
                        props.drop = v;
                    },
                    None => {},
                }
                let nl = Link { props, ..l };
                let ghost before = self.links.entries@;
                self.links.set_value(i, nl);
                proof {
                    assert forall|j: int| 0 <= j < i + 1 implies #[trigger] self.links.entries@[j].1 == (if joins(es[j].1, nodes@, origin@, destination@) {
                        Link { props: changed_props(es[j].1.props, latency, jitter, drop, bandwidth), ..es[j].1 }
                    } else {
                        es[j].1
                    }) by {
                        if j < i {
                            assert(self.links.entries@[j] == before[j]);
                        }
                    }
                    assert forall|j: int| i + 1 <= j < es.len() implies #[trigger] self.links.entries@[j] == es[j] by {
                        assert(self.links.entries@[j] == before[j]);
                    }
                }
            }
            i = i + 1;
        }
        proof {
            self.links.lemma_view();
            g0.links.lemma_view();
            assert forall|k: u16| #[trigger] self.links@.dom().contains(k) == g0.links@.dom().contains(k) by {
                if self.links.has(k) {
                    let p = self.links.pos(k);
                    assert(self.links.keys()[p] == g0.links.keys()[p]);
                    assert(es[p].0.kv() == k);
                }
                if g0.links.has(k) {
                    let p = g0.links.pos(k);
                    assert(self.links.keys()[p] == g0.links.keys()[p]);
                    assert(self.links.entries@[p].0.kv() == k);
                }
            }
            assert(self.links@.dom() =~= g0.links@.dom());
            assert forall|k: u16| #[trigger] g0.links@.dom().contains(k) implies self.links@[k] == (if joins(
                g0.links@[k],
                nodes@,
                origin@,
                destination@,
            ) {
                Link { props: changed_props(g0.links@[k].props, latency, jitter, drop, bandwidth), ..g0.links@[k] }
            } else {
                g0.links@[k]
            }) by {
                let p = g0.links.pos(k);
                g0.links.lemma_pos(p);
                assert(self.links.keys()[p] == g0.links.keys()[p]);
                assert(self.links.entries@[p].0.kv() == k);
                self.links.lemma_pos(p);
            }
            assert forall|k: u16| #[trigger] self.links@.dom().contains(k) implies self.links@[k].id == k
                && self.links@[k].source < n && self.links@[k].destination < n by {
                assert(g0.links@.dom().contains(k));
            }
        }
    }

    /// The bridges named `name` leave: their group moves to the removed
    /// bridges.
    pub fn leave_bridge(&mut self, name: &String)
        requires
            old(self).bridges_by_name.wf(),
            old(self).removed_bridges.wf(),
            old(self).bridges_by_name@.dom().contains(name@),
        ensures
            final(self).bridges_by_name.wf(),
            final(self).removed_bridges.wf(),
            bridges_left(*final(self), *old(self), name@),
    {
        let group = self.bridges_by_name.remove(name).unwrap();
        self.removed_bridges.insert(name.clone(), group);
    }

    /// The bridges named `name` come back: their group moves back from the
    /// removed bridges.
    pub fn join_bridge(&mut self, name: &String)
        requires
            old(self).bridges_by_name.wf(),
            old(self).removed_bridges.wf(),
            old(self).removed_bridges@.dom().contains(name@),
        ensures
            final(self).bridges_by_name.wf(),
            final(self).removed_bridges.wf(),
            bridges_joined(*final(self), *old(self), name@),
    {
        let group = self.removed_bridges.remove(name).unwrap();
        self.bridges_by_name.insert(name.clone(), group);
    }
}


/// `r` is `g` once the bridges named `name` left: their group moved to the
/// removed bridges.
pub open spec fn bridges_left(r: Graph, g: Graph, name: Seq<char>) -> bool {
    &&& r.bridges_by_name@ == g.bridges_by_name@.remove(name)
    &&& r.removed_bridges@ == g.removed_bridges@.insert(name, g.bridges_by_name@[name])
    &&& r == (Graph { bridges_by_name: r.bridges_by_name, removed_bridges: r.removed_bridges, ..g })
}

/// `r` is `g` once the bridges named `name` came back: their group moved
/// back from the removed bridges.
pub open spec fn bridges_joined(r: Graph, g: Graph, name: Seq<char>) -> bool {
    &&& r.removed_bridges@ == g.removed_bridges@.remove(name)
    &&& r.bridges_by_name@ == g.bridges_by_name@.insert(name, g.removed_bridges@[name])
    &&& r == (Graph { bridges_by_name: r.bridges_by_name, removed_bridges: r.removed_bridges, ..g })
}

/// Bridges that leave and then come back are where they were: the bridges
/// and the removed bridges are those of the start, and nothing else of the
/// graph changed.
pub proof fn lemma_bridges_leave_join(g0: Graph, g1: Graph, g2: Graph, name: Seq<char>)
    requires
        g0.bridges_by_name@.dom().contains(name),
        !g0.removed_bridges@.dom().contains(name),
        bridges_left(g1, g0, name),
        bridges_joined(g2, g1, name),
    ensures
        g2.bridges_by_name@ == g0.bridges_by_name@,
        g2.removed_bridges@ == g0.removed_bridges@,
        g2 == (Graph { bridges_by_name: g2.bridges_by_name, removed_bridges: g2.removed_bridges, ..g0 }),
{
    assert(g2.bridges_by_name@ =~= g0.bridges_by_name@);
    assert(g2.removed_bridges@ =~= g0.removed_bridges@);
}

/// `r` and `n1` are `g` and `n0` once the links from elements named
/// `origin` to elements named `destination` left: they moved, in walking
/// order, to the removed links, and each was taken off the links of every
/// registered service and bridge, once per registration.
pub open spec fn links_left(r: Graph, g: Graph, n1: Seq<Service>, n0: Seq<Service>, origin: Seq<char>, destination: Seq<char>) -> bool {
    let gone = joining(g.links.entries@, n0, origin, destination);
    &&& r.wf(n1.len())
    &&& n1.len() == n0.len()
    &&& r.removed_links@ == g.removed_links@ + gone
    &&& r.links@ == g.links@.remove_keys(link_ids(gone).to_set())
    &&& forall|x: int|
        0 <= x < n0.len() ==> Service::same_but_links(#[trigger] n1[x], n0[x]) && n1[x].links@ == stripped(
            n0[x].links@,
            link_ids(gone),
            g.hits(x as usize),
        )
    &&& r == (Graph { links: r.links, removed_links: r.removed_links, ..g })
}

proof fn lemma_joining_from(es: Seq<(u16, Link)>, nodes: Seq<Service>, o: Seq<char>, d: Seq<char>, k: int)
    requires
        0 <= k < joining(es, nodes, o, d).len(),
    ensures
        exists|i: int| 0 <= i < es.len() && #[trigger] es[i].1 == joining(es, nodes, o, d)[k] && joins(es[i].1, nodes, o, d),
    decreases es.len(),
{
    let prev = joining(es.drop_last(), nodes, o, d);
    if k < prev.len() {
        lemma_joining_from(es.drop_last(), nodes, o, d, k);
        let i = choose|i: int| 0 <= i < es.drop_last().len() && #[trigger] es.drop_last()[i].1 == prev[k] && joins(
            es.drop_last()[i].1,
            nodes,
            o,
            d,
        );
        assert(es[i] == es.drop_last()[i]);
    } else {
        assert(es[es.len() - 1] == es.last());
    }
}

proof fn lemma_none_joining(ls: Seq<Link>, nodes: Seq<Service>, o: Seq<char>, d: Seq<char>)
    requires
        joining_links(ls, nodes, o, d).len() == 0,
    ensures
        non_joining(ls, nodes, o, d) == ls,
    decreases ls.len(),
{
    if ls.len() > 0 {
        lemma_none_joining(ls.drop_last(), nodes, o, d);
        assert(ls.drop_last().push(ls.last()) =~= ls);
    }
}

proof fn lemma_joining_same_names(ls: Seq<Link>, n0: Seq<Service>, n1: Seq<Service>, o: Seq<char>, d: Seq<char>)
    requires
        n1.len() == n0.len(),
        forall|x: int| 0 <= x < n0.len() ==> #[trigger] n1[x].hostname@ == n0[x].hostname@,
        forall|i: int| 0 <= i < ls.len() ==> #[trigger] ls[i].source < n0.len() && ls[i].destination < n0.len(),
    ensures
        joining_links(ls, n1, o, d) == joining_links(ls, n0, o, d),
        non_joining(ls, n1, o, d) == non_joining(ls, n0, o, d),
    decreases ls.len(),
{
    if ls.len() > 0 {
        assert forall|i: int| 0 <= i < ls.drop_last().len() implies #[trigger] ls.drop_last()[i].source < n0.len()
            && ls.drop_last()[i].destination < n0.len() by {
            assert(ls.drop_last()[i] == ls[i]);
        }
        lemma_joining_same_names(ls.drop_last(), n0, n1, o, d);
        let l = ls.last();
        assert(l == ls[ls.len() - 1]);
        assert(n1[l.source as int].hostname@ == n0[l.source as int].hostname@);
        assert(n1[l.destination as int].hostname@ == n0[l.destination as int].hostname@);
        assert(joins(l, n1, o, d) == joins(l, n0, o, d));
    }
}

/// A link that leaves and then comes back is where it was: when exactly one
/// link goes from elements named `origin` to elements named `destination`
/// and no removed link does, its leaving and coming back give back the
/// links and the removed links of the start, and change nothing else of
/// the graph.
pub proof fn lemma_link_leave_join(
    g0: Graph,
    g1: Graph,
    g2: Graph,
    n0: Seq<Service>,
    n1: Seq<Service>,
    n2: Seq<Service>,
    origin: Seq<char>,
    destination: Seq<char>,
    existed: bool,
)
    requires
        g0.wf(n0.len()),
        joining(g0.links.entries@, n0, origin, destination).len() == 1,
        joining_links(g0.removed_links@, n0, origin, destination).len() == 0,
        links_left(g1, g0, n1, n0, origin, destination),
        links_joined(g2, g1, n2, n1, origin, destination, existed),
    ensures
        existed,
        g2.links@ == g0.links@,
        g2.removed_links@ == g0.removed_links@,
        g2 == (Graph { links: g2.links, removed_links: g2.removed_links, ..g0 }),
{
    let es = g0.links.entries@;
    let gone = joining(es, n0, origin, destination);
    let l = gone[0];
    lemma_joining_from(es, n0, origin, destination, 0);
    let i = choose|i: int| 0 <= i < es.len() && #[trigger] es[i].1 == gone[0] && joins(es[i].1, n0, origin, destination);
    g0.links.lemma_pos(i);
    assert(g0.links@.dom().contains(l.id));
    assert(g0.links@[l.id] == l);
    assert(gone =~= seq![l]);
    assert(link_ids(gone).to_set() =~= set![l.id]);
    let a = g0.removed_links@;
    let r1 = g1.removed_links@;
    assert(r1 =~= a.push(l));
    assert forall|x: int| 0 <= x < n0.len() implies #[trigger] n1[x].hostname@ == n0[x].hostname@ by {
        assert(Service::same_but_links(n1[x], n0[x]));
    }
    assert forall|k: int| 0 <= k < r1.len() implies #[trigger] r1[k].source < n0.len() && r1[k].destination
        < n0.len() by {
        if k < a.len() {
            assert(r1[k] == a[k]);
        } else {
            assert(r1[k] == l);
        }
    }
    lemma_joining_same_names(r1, n0, n1, origin, destination);
    assert(r1.drop_last() =~= a);
    assert(r1.last() == l);
    lemma_none_joining(a, n0, origin, destination);
    let back = joining_links(r1, n1, origin, destination);
    assert(back =~= seq![l]);
    assert(non_joining(r1, n0, origin, destination) =~= a);
    assert(back.drop_last() =~= Seq::<Link>::empty());
    assert(back.last() == l);
    assert(crate::graph::links_by_id(back.drop_last()) == Map::<u16, Link>::empty());
    assert(crate::graph::links_by_id(back) == Map::<u16, Link>::empty().insert(l.id, l));
    assert(g2.links@ =~= g0.links@);
}

/// `r` and `n1` are `g` and `n0` once the removed links from elements named
/// `origin` to elements named `destination` came back, see `join_links`;
/// `existed` tells whether there was any.
pub open spec fn links_joined(
    r: Graph,
    g: Graph,
    n1: Seq<Service>,
    n0: Seq<Service>,
    origin: Seq<char>,
    destination: Seq<char>,
    existed: bool,
) -> bool {
    let back = joining_links(g.removed_links@, n0, origin, destination);
    &&& r.wf(n1.len())
    &&& n1.len() == n0.len()
    &&& existed == (back.len() > 0)
    &&& r.removed_links@ == non_joining(g.removed_links@, n0, origin, destination)
    &&& r.links@ == g.links@.union_prefer_right(crate::graph::links_by_id(back))
    &&& forall|x: int|
        0 <= x < n0.len() ==> Service::same_but_links(#[trigger] n1[x], n0[x]) && n1[x].links@ == n0[x].links@
            + attached(back, g, n0, x as usize)
    &&& r == (Graph { links: r.links, removed_links: r.removed_links, ..g })
}

/// `r` is `g` once every link from an element named `origin` to an element
/// named `destination` got the properties that are given.
pub open spec fn links_changed(
    r: Graph,
    g: Graph,
    nodes: Seq<Service>,
    origin: Seq<char>,
    destination: Seq<char>,
    latency: Option<u32>,
    jitter: Option<u32>,
    drop: Option<u32>,
    bandwidth: Option<u32>,
) -> bool {
    &&& r.wf(nodes.len())
    &&& r.links@.dom() == g.links@.dom()
    &&& forall|k: u16| #[trigger]
        g.links@.dom().contains(k) ==> r.links@[k] == (if joins(g.links@[k], nodes, origin, destination) {
            Link { props: changed_props(g.links@[k].props, latency, jitter, drop, bandwidth), ..g.links@[k] }
        } else {
            g.links@[k]
        })
    &&& r == (Graph { links: r.links, ..g })
}

/// What an event of the experiment does when its time comes.
#[derive(Clone, Copy, Debug, PartialEq, Eq, Structural)]
pub enum EventKind {
    /// Switch to the next precomputed graph.
    NextGraph,
    Join,
    Leave,
    Crash,
    Disconnect,
    Reconnect,
}

/// A dynamic event: its kind and, as the bit pattern of a single-precision
/// number, the seconds after the start of the experiment at which it
/// happens.
#[derive(Clone, Copy, Debug, PartialEq, Eq, Structural)]
pub struct Event {
    pub kind: EventKind,
    pub time: u32,
}

impl Event {
    pub fn new(kind: EventKind, time: u32) -> (e: Self)
        ensures
            e == (Event { kind, time }),
    {
        Self { kind, time }
    }
}


/// The links from elements named `origin` to elements named `destination`
/// leave, in a copy of `graph`; the event switches to it at `time`.
pub fn schedule_link_leave(graph: &Graph, nodes: &mut Vec<Service>, time: u32, origin: &String, destination: &String) -> (r: (Graph, Event))
    requires
        graph.wf(old(nodes)@.len()),
    ensures
        exists|c: Graph| #[trigger]
            crate::graph::copy_of(c, *graph, old(nodes)@) && links_left(r.0, c, final(nodes)@, old(nodes)@, origin@, destination@),
        r.1 == (Event { kind: EventKind::NextGraph, time }),
{
    let mut g = Graph::from_graph(graph, nodes);
    let ghost c = g;
    g.leave_links(nodes, origin, destination);
    proof {
        assert(crate::graph::copy_of(c, *graph, old(nodes)@));
    }
    (g, Event::new(EventKind::NextGraph, time))
}

/// The removed links from elements named `origin` to elements named
/// `destination` come back, in a copy of `graph`; the event switches to it
/// at `time`.  Also tells whether any link came back.
pub fn schedule_link_join(graph: &Graph, nodes: &mut Vec<Service>, time: u32, origin: &String, destination: &String) -> (r: (Graph, Event, bool))
    requires
        graph.wf(old(nodes)@.len()),
    ensures
        exists|c: Graph| #[trigger]
            crate::graph::copy_of(c, *graph, old(nodes)@) && links_joined(r.0, c, final(nodes)@, old(nodes)@, origin@, destination@, r.2),
        r.1 == (Event { kind: EventKind::NextGraph, time }),
{
    let mut g = Graph::from_graph(graph, nodes);
    let ghost c = g;
    let existed = g.join_links(nodes, origin, destination);
    proof {
        assert(crate::graph::copy_of(c, *graph, old(nodes)@));
    }
    (g, Event::new(EventKind::NextGraph, time), existed)
}

/// The links from elements named `origin` to elements named `destination`
/// get the properties that are given, in a copy of `graph`; the event
/// switches to it at `time`.
pub fn schedule_link_change(
    graph: &Graph,
    nodes: &Vec<Service>,
    time: u32,
    origin: &String,
    destination: &String,
    latency: Option<u32>,
    jitter: Option<u32>,
    drop: Option<u32>,
    bandwidth: Option<u32>,
) -> (r: (Graph, Event))
    requires
        graph.wf(nodes@.len()),
    ensures
        exists|c: Graph| #[trigger]
            crate::graph::copy_of(c, *graph, nodes@) && links_changed(r.0, c, nodes@, origin@, destination@, latency, jitter, drop, bandwidth),
        r.1 == (Event { kind: EventKind::NextGraph, time }),
{
    let mut g = Graph::from_graph(graph, nodes);
    let ghost c = g;
    g.change_links(nodes, origin, destination, latency, jitter, drop, bandwidth);
    proof {
        assert(crate::graph::copy_of(c, *graph, nodes@));
    }
    (g, Event::new(EventKind::NextGraph, time))
}

/// The elements named `name` in a copy of `graph`: the replicas of the
/// service of that name, or else the bridges of that name.
pub open spec fn copied_named(graph: Graph, nodes: Seq<Service>, name: Seq<char>) -> Seq<usize> {
    if crate::graph::names_in(graph.services.entries@, nodes).contains(name) {
        crate::graph::named_in(graph.services.entries@, nodes, name)
    } else {
        crate::graph::named_in(graph.bridges.entries@, nodes, name)
    }
}

/// Some element of a copy of `graph` is named `name`.
pub open spec fn copied_has(graph: Graph, nodes: Seq<Service>, name: Seq<char>) -> bool {
    crate::graph::names_in(graph.services.entries@, nodes).contains(name) || crate::graph::names_in(
        graph.bridges.entries@,
        nodes,
    ).contains(name)
}

/// `named_in` finds a node exactly when some node of the entries has the name.
proof fn lemma_named_in_nonempty(es: Seq<(u32, usize)>, nodes: Seq<Service>, name: Seq<char>)
    ensures
        crate::graph::named_in(es, nodes, name).len() > 0 <==> crate::graph::names_in(es, nodes).contains(name),
    decreases es.len(),
{
    if es.len() > 0 {
        let e0 = es.drop_last();
        lemma_named_in_nonempty(e0, nodes, name);
        if crate::graph::names_in(e0, nodes).contains(name) {
            let i = choose|i: int| 0 <= i < e0.len() && #[trigger] nodes[e0[i].1 as int].hostname@ == name;
            assert(es[i] == e0[i]);
        }
        if crate::graph::names_in(es, nodes).contains(name) {
            let i = choose|i: int| 0 <= i < es.len() && #[trigger] nodes[es[i].1 as int].hostname@ == name;
            if i < es.len() - 1 {
                assert(e0[i] == es[i]);
                assert(crate::graph::names_in(e0, nodes).contains(name));
            }
        }
        if nodes[es.last().1 as int].hostname@ == name {
            assert(nodes[es[es.len() - 1].1 as int].hostname@ == name);
        }
    }
}

/// The nodes among the entries `es` named `name`, in entry order.
fn named_nodes(es: &Vec<(u32, usize)>, nodes: &Vec<Service>, name: &String) -> (r: Vec<usize>)
    requires
        forall|i: int| 0 <= i < es@.len() ==> #[trigger] es@[i].1 < nodes@.len(),
    ensures
        r@ == crate::graph::named_in(es@, nodes@, name@),
{
    let mut r: Vec<usize> = Vec::new();
    let mut i: usize = 0;
    while i < es.len()
        invariant
            forall|k: int| 0 <= k < es@.len() ==> #[trigger] es@[k].1 < nodes@.len(),
            i <= es@.len(),
            r@ == crate::graph::named_in(es@.take(i as int), nodes@, name@),
        decreases es@.len() - i,
    {
        proof {
            assert(es@.take(i + 1).drop_last() =~= es@.take(i as int));
            assert(es@.take(i + 1).last() == es@[i as int]);
        }
        let x = es[i].1;
        if nodes[x].hostname == *name {
            r.push(x);
        }
        i = i + 1;
    }
    proof {
        assert(es@.take(es@.len() as int) =~= es@);
    }
    r
}

impl Graph {
    /// The elements named `name` in a copy of this graph, see
    /// `copied_named`; none exactly when the copy has no element of that
    /// name.
    pub fn copied_nodes(&self, nodes: &Vec<Service>, name: &String) -> (r: Vec<usize>)
        requires
            self.wf(nodes@.len()),
        ensures
            r@ == copied_named(*self, nodes@, name@),
            r@.len() > 0 <==> copied_has(*self, nodes@, name@),
    {
        proof {
            assert forall|i: int| 0 <= i < self.services.entries@.len() implies #[trigger] self.services.entries@[i].1 < nodes@.len() by {
                self.services.lemma_pos(i);
            }
            assert forall|i: int| 0 <= i < self.bridges.entries@.len() implies #[trigger] self.bridges.entries@[i].1 < nodes@.len() by {
                self.bridges.lemma_pos(i);
            }
            lemma_named_in_nonempty(self.services.entries@, nodes@, name@);
            lemma_named_in_nonempty(self.bridges.entries@, nodes@, name@);
        }
        let s = named_nodes(&self.services.entries, nodes, name);
        if s.len() > 0 {
            s
        } else {
            named_nodes(&self.bridges.entries, nodes, name)
        }
    }

    /// Whether a copy of this graph has bridges named `name`.
    pub fn copied_has_bridge(&self, nodes: &Vec<Service>, name: &String) -> (b: bool)
        requires
            self.wf(nodes@.len()),
        ensures
            b == crate::graph::names_in(self.bridges.entries@, nodes@).contains(name@),
    {
        proof {
            assert forall|i: int| 0 <= i < self.bridges.entries@.len() implies #[trigger] self.bridges.entries@[i].1 < nodes@.len() by {
                self.bridges.lemma_pos(i);
            }
            lemma_named_in_nonempty(self.bridges.entries@, nodes@, name@);
        }
        named_nodes(&self.bridges.entries, nodes, name).len() > 0
    }
}

/// A new link with properties `props` from every element named `origin` to
/// every element named `destination`, in a copy of `graph`; the event
/// switches to it at `time`.
pub fn schedule_new_link(
    graph: &Graph,
    nodes: &mut Vec<Service>,
    time: u32,
    origin: &String,
    destination: &String,
    props: LinkProps,
) -> (r: (Graph, Event))
    requires
        graph.wf(old(nodes)@.len()),
        copied_has(*graph, old(nodes)@, origin@),
        copied_has(*graph, old(nodes)@, destination@),
        graph.link_counter + copied_named(*graph, old(nodes)@, origin@).len() * copied_named(
            *graph,
            old(nodes)@,
            destination@,
        ).len() <= u16::MAX,
    ensures
        exists|c: Graph| #[trigger]
            crate::graph::copy_of(c, *graph, old(nodes)@) && crate::graph::link_inserted(
                r.0,
                c,
                final(nodes)@,
                old(nodes)@,
                props,
                origin@,
                destination@,
            ),
        r.1 == (Event { kind: EventKind::NextGraph, time }),
{
    let mut g = Graph::from_graph(graph, nodes);
    let ghost c = g;
    proof {
        assert(g.nodes_named(origin@) == copied_named(*graph, old(nodes)@, origin@));
        assert(g.nodes_named(destination@) == copied_named(*graph, old(nodes)@, destination@));
    }
    g.insert_link(nodes, props, origin, destination);
    proof {
        assert(crate::graph::copy_of(c, *graph, old(nodes)@));
    }
    (g, Event::new(EventKind::NextGraph, time))
}

/// The bridges named `name`, removed earlier, come back in a copy of
/// `graph`; the event switches to it at `time`.
pub fn schedule_bridge_join(graph: &Graph, nodes: &Vec<Service>, time: u32, name: &String) -> (r: (Graph, Event))
    requires
        graph.wf(nodes@.len()),
        graph.removed_bridges@.dom().contains(name@),
    ensures
        exists|c: Graph| #[trigger] crate::graph::copy_of(c, *graph, nodes@) && bridges_joined(r.0, c, name@),
        r.0.wf(nodes@.len()),
        r.1 == (Event { kind: EventKind::NextGraph, time }),
{
    let mut g = Graph::from_graph(graph, nodes);
    let ghost c = g;
    g.join_bridge(name);
    proof {
        assert(crate::graph::copy_of(c, *graph, nodes@));
        let n = nodes@.len();
        assert forall|k: Seq<char>| #[trigger] g.bridges_by_name@.dom().contains(k) implies crate::graph::in_nodes(
            g.bridges_by_name@[k]@,
            n,
        ) && g.bridges_by_name@[k]@.len() > 0 by {
            if k != name@ {
                assert(c.bridges_by_name@.dom().contains(k));
            }
        }
        assert forall|k: Seq<char>| #[trigger] g.removed_bridges@.dom().contains(k) implies crate::graph::in_nodes(
            g.removed_bridges@[k]@,
            n,
        ) && g.removed_bridges@[k]@.len() > 0 by {
            assert(c.removed_bridges@.dom().contains(k));
        }
    }
    (g, Event::new(EventKind::NextGraph, time))
}

/// The bridges named `name` leave in a copy of `graph`; the event switches
/// to it at `time`.
pub fn schedule_bridge_leave(graph: &Graph, nodes: &Vec<Service>, time: u32, name: &String) -> (r: (Graph, Event))
    requires
        graph.wf(nodes@.len()),
        crate::graph::names_in(graph.bridges.entries@, nodes@).contains(name@),
    ensures
        exists|c: Graph| #[trigger] crate::graph::copy_of(c, *graph, nodes@) && bridges_left(r.0, c, name@),
        r.0.wf(nodes@.len()),
        r.1 == (Event { kind: EventKind::NextGraph, time }),
{
    let mut g = Graph::from_graph(graph, nodes);
    let ghost c = g;
    g.leave_bridge(name);
    proof {
        assert(crate::graph::copy_of(c, *graph, nodes@));
        let n = nodes@.len();
        assert forall|k: Seq<char>| #[trigger] g.bridges_by_name@.dom().contains(k) implies crate::graph::in_nodes(
            g.bridges_by_name@[k]@,
            n,
        ) && g.bridges_by_name@[k]@.len() > 0 by {
            assert(c.bridges_by_name@.dom().contains(k));
        }
        assert forall|k: Seq<char>| #[trigger] g.removed_bridges@.dom().contains(k) implies crate::graph::in_nodes(
            g.removed_bridges@[k]@,
            n,
        ) && g.removed_bridges@[k]@.len() > 0 by {
            if k != name@ {
                assert(c.removed_bridges@.dom().contains(k));
            }
        }
    }
    (g, Event::new(EventKind::NextGraph, time))
}


/// The events of an experiment without a dynamic section: its services
/// join at the start.
pub fn events_without_dynamic() -> (v: Vec<Event>)
    ensures
        v@ == seq![Event { kind: EventKind::Join, time: 0 }],
{
    let mut v: Vec<Event> = Vec::new();
    v.push(Event::new(EventKind::Join, 0));
    v
}

/// A link change sets what it is given and keeps the rest: after it, every
/// link from an element named `origin` to one named `destination` has the
/// given bandwidth, latency, jitter and drop where one is given and its
/// former value where none is, and keeps its id and ends; every other link
/// stays as it was, and no link comes or goes.
pub proof fn lemma_link_change_sets(
    r: Graph,
    g: Graph,
    nodes: Seq<Service>,
    origin: Seq<char>,
    destination: Seq<char>,
    latency: Option<u32>,
    jitter: Option<u32>,
    drop: Option<u32>,
    bandwidth: Option<u32>,
)
    requires
        links_changed(r, g, nodes, origin, destination, latency, jitter, drop, bandwidth),
    ensures
        r.links@.dom() == g.links@.dom(),
        forall|k: u16| #[trigger] g.links@.dom().contains(k) ==> {
            let old_l = g.links@[k];
            let new_l = r.links@[k];
            if nodes[old_l.source as int].hostname@ == origin && nodes[old_l.destination as int].hostname@ == destination {
                &&& new_l.id == old_l.id && new_l.source == old_l.source && new_l.destination == old_l.destination
                &&& new_l.props.bandwidth == (if bandwidth is Some { bandwidth->0 } else { old_l.props.bandwidth })
                &&& new_l.props.latency == (if latency is Some { latency->0 } else { old_l.props.latency })
                &&& new_l.props.jitter == (if jitter is Some { jitter->0 } else { old_l.props.jitter })
                &&& new_l.props.drop == (if drop is Some { drop->0 } else { old_l.props.drop })
            } else {
                new_l == old_l
            }
        },
{
}
} // verus!
