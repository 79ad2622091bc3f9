//! The elements of the emulated network: services (containers and bridges),
//! links between them, paths made of links, and flows reported by peers.
//!
//! Link and path properties are single-precision quantities (latency,
//! jitter, loss, bandwidth).  This library never computes with them: it
//! carries their IEEE-754 bit patterns as given, and the arithmetic on them
//! happens in the embedding program.
use vstd::prelude::*;

verus! {

/// The first position of `x` in `s`, or -1.
pub open spec fn first_index_of<T>(s: Seq<T>, x: T) -> int
    decreases s.len(),
{
    if s.len() == 0 {
        -1
    } else if s[0] == x {
        0
    } else {
        let r = first_index_of(s.drop_first(), x);
        if r < 0 {
            -1
        } else {
            r + 1
        }
    }
}

pub proof fn lemma_first_index_of<T>(s: Seq<T>, x: T)
    ensures
        -1 <= first_index_of(s, x) < s.len(),
        first_index_of(s, x) == -1 <==> !s.contains(x),
        first_index_of(s, x) >= 0 ==> s[first_index_of(s, x)] == x,
        forall|j: int| 0 <= j < first_index_of(s, x) ==> s[j] != x,
    decreases s.len(),
{
    if s.len() > 0 {
        lemma_first_index_of(s.drop_first(), x);
        if s[0] != x {
            if s.contains(x) {
                let j = choose|j: int| 0 <= j < s.len() && s[j] == x;
                assert(s.drop_first()[j - 1] == x);
            }
            if s.drop_first().contains(x) {
                let j = choose|j: int| 0 <= j < s.drop_first().len() && s.drop_first()[j] == x;
                assert(s[j + 1] == x);
            }
            assert forall|j: int| 0 <= j < first_index_of(s, x) implies s[j] != x by {
                if j > 0 {
                    assert(s[j] == s.drop_first()[j - 1]);
                }
            }
        }
    }
}

/// A container or a bridge of the emulated network.
pub struct Service {
    pub ip: u32,
    /// Bytes sent to this service, as last seen by this emulation instance.
    pub last_bytes: u32,
    pub hostname: String,
    pub shared: bool,
    pub reuse: bool,
    pub replicas: u32,
    pub supervisor: bool,
    pub supervisor_port: u32,
    /// Ids of the links that leave this service.
    pub links: Vec<u16>,
    pub replica_id: usize,
    pub activepaths: Vec<String>,
    pub script: String,
    pub image: Option<String>,
    pub command: Option<String>,
}

impl Service {
    pub fn new(
        hostname: String,
        shared: bool,
        reuse: bool,
        replicas: u32,
        image: Option<String>,
        command: Option<String>,
    ) -> (s: Service)
        ensures
            s.ip == 0,
            s.last_bytes == 0,
            s.hostname@ == hostname@,
            s.shared == shared,
            s.reuse == reuse,
            s.replicas == replicas,
            !s.supervisor,
            s.supervisor_port == 0,
            s.links@.len() == 0,
            s.replica_id == 0,
            s.activepaths@.len() == 0,
            s.script@.len() == 0,
            s.image == image,
            s.command == command,
    {
        Service {
            ip: 0,
            last_bytes: 0,
            hostname,
            shared,
            reuse,
            replicas,
            supervisor: false,
            supervisor_port: 0,
            links: Vec::new(),
            replica_id: 0,
            activepaths: Vec::new(),
            script: String::new(),
            image,
            command,
        }
    }

    /// Everything but the link list is the same in `a` and `b`.
    pub open spec fn same_but_links(a: Service, b: Service) -> bool {
        &&& a.ip == b.ip
        &&& a.last_bytes == b.last_bytes
        &&& a.hostname == b.hostname
        &&& a.shared == b.shared
        &&& a.reuse == b.reuse
        &&& a.replicas == b.replicas
        &&& a.supervisor == b.supervisor
        &&& a.supervisor_port == b.supervisor_port
        &&& a.replica_id == b.replica_id
        &&& a.activepaths == b.activepaths
        &&& a.script == b.script
        &&& a.image == b.image
        &&& a.command == b.command
    }

    pub fn attach_link(&mut self, id: u16)
        ensures
            final(self).links@ == old(self).links@.push(id),
            Service::same_but_links(*final(self), *old(self)),
    {
        self.links.push(id);
    }

    /// Removes the first occurrence of `id`, if any.
    pub fn remove_link(&mut self, id: u16)
        ensures
            final(self).links@ == (if old(self).links@.contains(id) {
                old(self).links@.remove(first_index_of(old(self).links@, id))
            } else {
                old(self).links@
            }),
            Service::same_but_links(*final(self), *old(self)),
    {
        proof {
            lemma_first_index_of(self.links@, id);
        }
        let mut i: usize = 0;
        while i < self.links.len()
            invariant
                i <= self.links@.len(),
                self.links@ == old(self).links@,
                Service::same_but_links(*self, *old(self)),
                forall|j: int| 0 <= j < i ==> self.links@[j] != id,
            decreases self.links@.len() - i,
        {
            if self.links[i] == id {
                proof {
                    assert(self.links@.contains(id));
                    lemma_first_index_of(self.links@, id);
                }
                self.links.remove(i);
                return;
            }
            i = i + 1;
        }
        proof {
            if self.links@.contains(id) {
                let j = choose|j: int| 0 <= j < self.links@.len() && self.links@[j] == id;
                assert(self.links@[j] != id);
            }
        }
    }

    pub fn set_activepaths(&mut self, activepaths: Vec<String>)
        ensures
            *final(self) == (Service { activepaths, ..*old(self) }),
    {
        self.activepaths = activepaths;
    }
}

/// Properties of a link, as IEEE-754 single-precision bit patterns.
#[derive(Clone, Copy, Debug, PartialEq, Eq, Structural)]
pub struct LinkProps {
    pub latency: u32,
    pub jitter: u32,
    pub drop: u32,
    pub bandwidth: u32,
}

/// A directed link between two services, which are positions in the node
/// list that all graphs of an experiment share.
#[derive(Clone, Copy, Debug, PartialEq, Eq, Structural)]
pub struct Link {
    pub id: u16,
    pub props: LinkProps,
    pub source: usize,
    pub destination: usize,
}

impl Link {
    pub fn new(id: u16, props: LinkProps, source: usize, destination: usize) -> (l: Link)
        ensures
            l.id == id,
            l.props == props,
            l.source == source,
            l.destination == destination,
    {
        Link { id, props, source, destination }
    }
}

/// End-to-end properties of a path, as IEEE-754 single-precision bit patterns.
#[derive(Clone, Copy, Debug, PartialEq, Eq, Structural)]
pub struct PathMetrics {
    pub latency: u32,
    pub rtt: u32,
    pub drop: u32,
    pub max_bandwidth: u32,
    pub jitter: u32,
    pub used_bandwidth: u32,
    pub current_bandwidth: u32,
}

impl PathMetrics {
    /// All quantities zero (the bit pattern of +0.0 is all zeros).
    pub open spec fn zero() -> PathMetrics {
        PathMetrics {
            latency: 0,
            rtt: 0,
            drop: 0,
            max_bandwidth: 0,
            jitter: 0,
            used_bandwidth: 0,
            current_bandwidth: 0,
        }
    }
}

/// A path between two elements: the sequence of links taken from the root.
pub struct Path {
    pub links: Vec<u16>,
    pub id: u32,
    pub metrics: PathMetrics,
    pub start: String,
    pub finish: String,
    pub last_cycle_change: u16,
}

impl Path {
    pub fn new(id: u32, links: Vec<u16>) -> (p: Path)
        ensures
            p.id == id,
            p.links == links,
            p.metrics == PathMetrics::zero(),
            p.start@.len() == 0,
            p.finish@.len() == 0,
            p.last_cycle_change == 0,
    {
        Path {
            links,
            id,
            metrics: PathMetrics {
                latency: 0,
                rtt: 0,
                drop: 0,
                max_bandwidth: 0,
                jitter: 0,
                used_bandwidth: 0,
                current_bandwidth: 0,
            },
            start: String::new(),
            finish: String::new(),
            last_cycle_change: 0,
        }
    }

    pub fn set_used_bandwidth(&mut self, used_bandwidth: u32)
        ensures
            final(self).metrics == (PathMetrics { used_bandwidth, ..old(self).metrics }),
            final(self).links == old(self).links,
            final(self).id == old(self).id,
    {
        self.metrics.used_bandwidth = used_bandwidth;
    }

    pub fn set_current_bandwidth(&mut self, current_bandwidth: u32)
        ensures
            final(self).metrics == (PathMetrics { current_bandwidth, ..old(self).metrics }),
            final(self).links == old(self).links,
            final(self).id == old(self).id,
    {
        self.metrics.current_bandwidth = current_bandwidth;
    }
}

/// Traffic reported by another emulation instance: the bandwidth it used
/// and the links it went through.
pub struct Flowu16 {
    /// Bit pattern of a single-precision bandwidth.
    pub bandwidth: u32,
    pub link_indices: Vec<u16>,
    pub age: u32,
}

impl Flowu16 {
    pub fn new(bandwidth: u32, link_indices: Vec<u16>) -> (f: Flowu16)
        ensures
            f.bandwidth == bandwidth,
            f.link_indices == link_indices,
            f.age == 0,
    {
        Flowu16 { bandwidth, link_indices, age: 0 }
    }
}

} // verus!
