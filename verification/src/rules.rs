//! The rules a topology file obeys.  An XML element is given to the library
//! as its tag and attributes; these functions tell which blocks an
//! experiment has, what a `<service>` element sets, and whether `<link>`,
//! `<bridge>` and `<schedule>` elements are well formed, with the error the
//! emulation stops on otherwise.
use vstd::prelude::*;
use crate::text::{chars_of, same_chars};
use crate::topology::{active_paths_of, process_active_paths, views, ReplicaAction};
use crate::arguments::{read_u32, parse_u32};

verus! {

/// An element of the topology file: its tag and its attributes, in order.
pub struct Element {
    pub tag: String,
    pub attributes: Vec<(String, String)>,
}

/// The value of the first attribute named `name`.
pub open spec fn attr_of(attrs: Seq<(String, String)>, name: Seq<char>) -> Option<Seq<char>>
    decreases attrs.len(),
{
    if attrs.len() == 0 {
        None
    } else if attrs[0].0@ == name {
        Some(attrs[0].1@)
    } else {
        attr_of(attrs.skip(1), name)
    }
}

/// An element as plain values: its tag and its attributes, in order.
pub open spec fn elem_view(e: Element) -> (Seq<char>, Seq<(Seq<char>, Seq<char>)>) {
    (e.tag@, e.attributes@.map_values(|a: (String, String)| (a.0@, a.1@)))
}

/// The value of the first attribute named `name` among `attrs`.
pub open spec fn attr_in(attrs: Seq<(Seq<char>, Seq<char>)>, name: Seq<char>) -> Option<Seq<char>>
    decreases attrs.len(),
{
    if attrs.len() == 0 {
        None
    } else if attrs[0].0 == name {
        Some(attrs[0].1)
    } else {
        attr_in(attrs.skip(1), name)
    }
}

/// An attribute looks the same on an element and on its plain values.
pub proof fn lemma_attr_view(attrs: Seq<(String, String)>, name: Seq<char>)
    ensures
        attr_of(attrs, name) == attr_in(attrs.map_values(|a: (String, String)| (a.0@, a.1@)), name),
    decreases attrs.len(),
{
    let v = attrs.map_values(|a: (String, String)| (a.0@, a.1@));
    if attrs.len() > 0 {
        lemma_attr_view(attrs.skip(1), name);
        assert(v.skip(1) =~= attrs.skip(1).map_values(|a: (String, String)| (a.0@, a.1@)));
    }
}

/// The blocks of an experiment given as plain values, see `experiment_of`.
pub open spec fn experiment_of_view(
    root: (Seq<char>, Seq<(Seq<char>, Seq<char>)>),
    children: Seq<(Seq<char>, Seq<(Seq<char>, Seq<char>)>)>,
) -> Result<Blocks, TopologyError> {
    if root.0 != "experiment"@ {
        Err(TopologyError::NotExperiment)
    } else if attr_in(root.1, "boot"@) is None {
        Err(TopologyError::NoBoot)
    } else {
        scan(children.map_values(|c: (Seq<char>, Seq<(Seq<char>, Seq<char>)>)| c.0))
    }
}

/// `experiment_of` depends only on the plain values of the elements.
pub proof fn lemma_experiment_view(root: Element, children: Seq<Element>)
    ensures
        experiment_of(root, children) == experiment_of_view(elem_view(root), children.map_values(|e: Element| elem_view(e))),
{
    lemma_attr_view(root.attributes@, "boot"@);
    assert(tags_of(children) =~= children.map_values(|e: Element| elem_view(e)).map_values(
        |c: (Seq<char>, Seq<(Seq<char>, Seq<char>)>)| c.0,
    ));
}

/// Whether `s` is the text `w`.
pub fn is_word(s: &String, w: &str) -> (b: bool)
    ensures
        b == (s@ == w@),
{
    let a = chars_of(s.as_str());
    let c = chars_of(w);
    same_chars(&a, c.as_slice())
}

impl Element {
    pub open spec fn attr(&self, name: Seq<char>) -> Option<Seq<char>> {
        attr_of(self.attributes@, name)
    }

    /// The value of the attribute `name`, if the element has one.
    pub fn attribute(&self, name: &str) -> (r: Option<String>)
        ensures
            r matches Some(v) ==> self.attr(name@) == Some(v@),
            r is None ==> self.attr(name@) is None,
    {
        let mut i: usize = 0;
        assert(self.attributes@.skip(0) =~= self.attributes@);
        while i < self.attributes.len()
            invariant
                i <= self.attributes@.len(),
                self.attr(name@) == attr_of(self.attributes@.skip(i as int), name@),
            decreases self.attributes@.len() - i,
        {
            proof {
                let rest = self.attributes@.skip(i as int);
                assert(rest[0] == self.attributes@[i as int]);
                assert(rest.skip(1) =~= self.attributes@.skip(i + 1));
            }
            if is_word(&self.attributes[i].0, name) {
                return Some(self.attributes[i].1.clone());
            }
            i = i + 1;
        }
        None
    }

    /// Whether the element has the attribute `name`.
    pub fn has_attribute(&self, name: &str) -> (b: bool)
        ensures
            b == self.attr(name@) is Some,
    {
        self.attribute(name).is_some()
    }

    /// Whether the element's tag is `tag`.
    pub fn is(&self, tag: &str) -> (b: bool)
        ensures
            b == (self.tag@ == tag@),
    {
        is_word(&self.tag, tag)
    }
}

/// A block of an experiment that may appear once.
#[derive(Clone, Copy, Debug, PartialEq, Eq, Structural)]
pub enum BlockKind {
    Services,
    Bridges,
    Links,
    Dynamic,
}

/// Why a topology file is refused.
#[derive(Clone, Copy, Debug, PartialEq, Eq, Structural)]
pub enum TopologyError {
    /// The text is not well-formed XML, or holds no element.
    Malformed,
    /// The root element is not `<experiment>`.
    NotExperiment,
    /// The experiment names no bootstrapper image.
    NoBoot,
    /// A block appears twice.
    Duplicate(BlockKind),
    /// An element other than `<service>` among the services.
    InvalidServiceTag,
    /// A container service lacks its name or its image.
    ServiceNeedsNameAndImage,
    /// A bare-metal service lacks its name.
    ServiceNeedsName,
    /// A number attribute is not a number that fits.
    BadNumber,
    /// An element other than `<bridge>` among the bridges.
    InvalidBridgeTag,
    /// A bridge has no name.
    BridgeNeedsName,
    /// A link lacks its origin or its destination.
    LinkNeedsEnds,
    /// An element other than `<link>` among the links.
    InvalidLinkTag,
    /// A link lacks an attribute the deployment needs.
    IncompleteLink,
    /// An element other than `<schedule>` in the dynamic section.
    InvalidScheduleTag,
}

/// The position, among the element children of the experiment, of each
/// block.
#[derive(Clone, Copy, Debug, PartialEq, Eq, Structural)]
pub struct Blocks {
    pub config: Option<usize>,
    pub services: Option<usize>,
    pub bridges: Option<usize>,
    pub links: Option<usize>,
    pub dynamic: Option<usize>,
}

pub open spec fn no_blocks() -> Blocks {
    Blocks { config: None, services: None, bridges: None, links: None, dynamic: None }
}

/// The blocks among children with tags `tags`: the first `<config>` counts,
/// and the other blocks may appear once; others are ignored.
pub open spec fn scan(tags: Seq<Seq<char>>) -> Result<Blocks, TopologyError>
    decreases tags.len(),
{
    if tags.len() == 0 {
        Ok(no_blocks())
    } else {
        match scan(tags.drop_last()) {
            Err(e) => Err(e),
            Ok(b) => {
                let t = tags.last();
                let i = (tags.len() - 1) as usize;
                if t == "config"@ {
                    Ok(if b.config is None { Blocks { config: Some(i), ..b } } else { b })
                } else if t == "services"@ {
                    if b.services is Some { Err(TopologyError::Duplicate(BlockKind::Services)) } else { Ok(Blocks { services: Some(i), ..b }) }
                } else if t == "bridges"@ {
                    if b.bridges is Some { Err(TopologyError::Duplicate(BlockKind::Bridges)) } else { Ok(Blocks { bridges: Some(i), ..b }) }
                } else if t == "links"@ {
                    if b.links is Some { Err(TopologyError::Duplicate(BlockKind::Links)) } else { Ok(Blocks { links: Some(i), ..b }) }
                } else if t == "dynamic"@ {
                    if b.dynamic is Some { Err(TopologyError::Duplicate(BlockKind::Dynamic)) } else { Ok(Blocks { dynamic: Some(i), ..b }) }
                } else {
                    Ok(b)
                }
            },
        }
    }
}

pub open spec fn tags_of(children: Seq<Element>) -> Seq<Seq<char>> {
    children.map_values(|e: Element| e.tag@)
}

/// The blocks of an experiment whose root element is `root` and whose
/// element children are `children`.
pub open spec fn experiment_of(root: Element, children: Seq<Element>) -> Result<Blocks, TopologyError> {
    if root.tag@ != "experiment"@ {
        Err(TopologyError::NotExperiment)
    } else if root.attr("boot"@) is None {
        Err(TopologyError::NoBoot)
    } else {
        scan(tags_of(children))
    }
}

proof fn lemma_scan_in(tags: Seq<Seq<char>>)
    ensures
        scan(tags) matches Ok(b) ==> (b.config matches Some(i) ==> i < tags.len()) && (b.services matches Some(i)
            ==> i < tags.len()) && (b.bridges matches Some(i) ==> i < tags.len()) && (b.links matches Some(i) ==> i
            < tags.len()) && (b.dynamic matches Some(i) ==> i < tags.len()),
        scan(tags) matches Err(x) ==> x is Duplicate,
    decreases tags.len(),
{
    if tags.len() > 0 {
        lemma_scan_in(tags.drop_last());
    }
}

/// An experiment is never refused as unreadable.
pub proof fn lemma_experiment_refusal(root: Element, children: Seq<Element>)
    ensures
        experiment_of(root, children) != Err::<Blocks, TopologyError>(TopologyError::Malformed),
{
    lemma_scan_in(tags_of(children));
}

/// The blocks found lie among the children.
pub proof fn lemma_blocks_in(root: Element, children: Seq<Element>, b: Blocks)
    requires
        experiment_of(root, children) == Ok::<Blocks, TopologyError>(b),
    ensures
        b.config matches Some(i) ==> i < children.len(),
        b.services matches Some(i) ==> i < children.len(),
        b.bridges matches Some(i) ==> i < children.len(),
        b.links matches Some(i) ==> i < children.len(),
        b.dynamic matches Some(i) ==> i < children.len(),
{
    lemma_scan_in(tags_of(children));
}

/// The blocks of an experiment, see `experiment_of`.
pub fn experiment_blocks(root: &Element, children: &Vec<Element>) -> (r: Result<Blocks, TopologyError>)
    ensures
        r == experiment_of(*root, children@),
{
    if !root.is("experiment") {
        return Err(TopologyError::NotExperiment);
    }
    if !root.has_attribute("boot") {
        return Err(TopologyError::NoBoot);
    }
    let ghost tags = tags_of(children@);
    let mut b = Blocks { config: None, services: None, bridges: None, links: None, dynamic: None };
    let mut i: usize = 0;
    while i < children.len()
        invariant
            tags == tags_of(children@),
            root.tag@ == "experiment"@,
            root.attr("boot"@) is Some,
            i <= children@.len(),
            scan(tags.take(i as int)) == Ok::<Blocks, TopologyError>(b),
        decreases children@.len() - i,
    {
        proof {
            assert(tags.take(i + 1).drop_last() =~= tags.take(i as int));
            assert(tags.take(i + 1).last() == children@[i as int].tag@);
        }
        let c = &children[i];
        if c.is("config") {
            if b.config.is_none() {
                b = Blocks { config: Some(i), ..b };
            }
        } else if c.is("services") {
            if b.services.is_some() {
                proof {
                    lemma_scan_stays_refused(tags, i as int + 1);
                }
                return Err(TopologyError::Duplicate(BlockKind::Services));
            }
            b = Blocks { services: Some(i), ..b };
        } else if c.is("bridges") {
            if b.bridges.is_some() {
                proof {
                    lemma_scan_stays_refused(tags, i as int + 1);
                }
                return Err(TopologyError::Duplicate(BlockKind::Bridges));
            }
            b = Blocks { bridges: Some(i), ..b };
        } else if c.is("links") {
            if b.links.is_some() {
                proof {
                    lemma_scan_stays_refused(tags, i as int + 1);
                }
                return Err(TopologyError::Duplicate(BlockKind::Links));
            }
            b = Blocks { links: Some(i), ..b };
        } else if c.is("dynamic") {
            if b.dynamic.is_some() {
                proof {
                    lemma_scan_stays_refused(tags, i as int + 1);
                }
                return Err(TopologyError::Duplicate(BlockKind::Dynamic));
            }
            b = Blocks { dynamic: Some(i), ..b };
        }
        i = i + 1;
    }
    proof {
        assert(tags.take(tags.len() as int) =~= tags);
    }
    Ok(b)
}

/// A refused prefix refuses the whole, with the same error.
proof fn lemma_scan_stays_refused(tags: Seq<Seq<char>>, k: int)
    requires
        0 <= k <= tags.len(),
        scan(tags.take(k)) is Err,
    ensures
        scan(tags) == scan(tags.take(k)),
    decreases tags.len() - k,
{
    if k == tags.len() {
        assert(tags.take(k) =~= tags);
    } else {
        assert(tags.take(k + 1).drop_last() =~= tags.take(k));
        lemma_scan_stays_refused(tags, k + 1);
    }
}

/// How the services of a topology are deployed.
#[derive(Clone, Copy, Debug, PartialEq, Eq, Structural)]
pub enum Mode {
    /// Orchestrated containers, or processes of one host.
    Container,
    /// Machines of their own, each with its address.
    Baremetal,
}

/// What a `<service>` element sets, before its replicas are counted
/// against the dynamic section.
pub struct ServiceSettings {
    pub paths: Vec<String>,
    pub shared: bool,
    pub supervisor: bool,
    pub supervisor_port: u32,
    pub reuse: bool,
    pub replicas: u32,
}

/// The settings of a `<service>` element as plain values: active paths,
/// sharing, dashboard flag and port, reuse, replicas.
pub open spec fn settings_of(e: Element) -> (Seq<Seq<char>>, bool, bool, u32, bool, u32) {
    let paths = match e.attr("activepaths"@) {
        Some(a) => active_paths_of(a),
        None => seq![],
    };
    let shared = e.attr("share"@) == Some("true"@);
    let supervisor = e.attr("supervisor"@) is Some;
    let port: u32 = if supervisor && e.attr("port"@) is Some {
        read_u32(e.attr("port"@)->0)->0 as u32
    } else {
        0
    };
    let reuse = match e.attr("reuse"@) {
        Some(r) => r == "true"@,
        None => true,
    };
    let replicas: u32 = match e.attr("replicas"@) {
        Some(r) => read_u32(r)->0 as u32,
        None => 1,
    };
    (paths, shared, supervisor, port, reuse, replicas)
}

/// Whether the numbers of a `<service>` element read: its port, when it is
/// the dashboard, and its replicas.
pub open spec fn numbers_read(e: Element) -> bool {
    &&& (e.attr("supervisor"@) is Some && e.attr("port"@) is Some ==> read_u32(e.attr("port"@)->0) is Some)
    &&& (e.attr("replicas"@) is Some ==> read_u32(e.attr("replicas"@)->0) is Some)
}

/// The error a `<service>` element stops the reading on, if any.
pub open spec fn service_error(mode: Mode, e: Element) -> Option<TopologyError> {
    if e.tag@ != "service"@ {
        Some(TopologyError::InvalidServiceTag)
    } else if mode == Mode::Container && (e.attr("name"@) is None || e.attr("image"@) is None) {
        Some(TopologyError::ServiceNeedsNameAndImage)
    } else if mode == Mode::Baremetal && e.attr("name"@) is None {
        Some(TopologyError::ServiceNeedsName)
    } else if !numbers_read(e) {
        Some(TopologyError::BadNumber)
    } else {
        None
    }
}

fn read_number(s: &String) -> (r: Option<u32>)
    ensures
        r matches Some(n) ==> read_u32(s@) == Some(n as nat),
        r is None ==> read_u32(s@) is None,
{
    let cs = chars_of(s.as_str());
    parse_u32(&cs)
}

/// What a `<service>` element sets, see `settings_of`, or the error it
/// stops the reading on, see `service_error`.
pub fn service_settings(mode: Mode, e: &Element) -> (r: Result<ServiceSettings, TopologyError>)
    ensures
        r matches Err(x) ==> service_error(mode, *e) == Some(x),
        r is Ok ==> service_error(mode, *e) is None,
        r matches Ok(s) ==> (views(s.paths@), s.shared, s.supervisor, s.supervisor_port, s.reuse, s.replicas)
            == settings_of(*e),
{
    if !e.is("service") {
        return Err(TopologyError::InvalidServiceTag);
    }
    if mode == Mode::Container && (!e.has_attribute("name") || !e.has_attribute("image")) {
        return Err(TopologyError::ServiceNeedsNameAndImage);
    }
    if mode == Mode::Baremetal && !e.has_attribute("name") {
        return Err(TopologyError::ServiceNeedsName);
    }
    let paths = match e.attribute("activepaths") {
        Some(a) => process_active_paths(a.as_str()),
        None => Vec::new(),
    };
    let shared = match e.attribute("share") {
        Some(v) => is_word(&v, "true"),
        None => false,
    };
    let supervisor = e.has_attribute("supervisor");
    let mut supervisor_port: u32 = 0;
    if supervisor {
        match e.attribute("port") {
            Some(p) => match read_number(&p) {
                Some(n) => {
                    supervisor_port = n;
                },
                None => {
                    return Err(TopologyError::BadNumber);
                },
            },
            None => {},
        }
    }
    let reuse = match e.attribute("reuse") {
        Some(v) => is_word(&v, "true"),
        None => true,
    };
    let replicas: u32 = match e.attribute("replicas") {
        Some(v) => match read_number(&v) {
            Some(n) => n,
            None => {
                return Err(TopologyError::BadNumber);
            },
        },
        None => 1,
    };
    proof {
        assert(paths@.len() == 0 ==> views(paths@) =~= seq![]);
    }
    Ok(ServiceSettings { paths, shared, supervisor, supervisor_port, reuse, replicas })
}

/// The name of a `<bridge>` element, or the error it stops the reading on.
pub fn bridge_name(e: &Element) -> (r: Result<String, TopologyError>)
    ensures
        r matches Ok(n) ==> e.tag@ == "bridge"@ && e.attr("name"@) == Some(n@),
        r matches Err(x) ==> if e.tag@ != "bridge"@ {
            x == TopologyError::InvalidBridgeTag
        } else {
            x == TopologyError::BridgeNeedsName && e.attr("name"@) is None
        },
{
    if !e.is("bridge") {
        return Err(TopologyError::InvalidBridgeTag);
    }
    match e.attribute("name") {
        Some(n) => Ok(n),
        None => Err(TopologyError::BridgeNeedsName),
    }
}

/// The error a `<link>` element stops the reading on, if any: its ends
/// are read first, then its tag, then the attributes the deployment needs.
pub open spec fn link_error(mode: Mode, e: Element) -> Option<TopologyError> {
    if e.attr("origin"@) is None || e.attr("dest"@) is None {
        Some(TopologyError::LinkNeedsEnds)
    } else if e.tag@ != "link"@ {
        Some(TopologyError::InvalidLinkTag)
    } else if mode == Mode::Container && (e.attr("latency"@) is None || e.attr("upload"@) is None || e.attr(
        "network"@,
    ) is None) {
        Some(TopologyError::IncompleteLink)
    } else if mode == Mode::Baremetal && (e.attr("latency"@) is None || e.attr("upload"@) is None) {
        Some(TopologyError::IncompleteLink)
    } else {
        None
    }
}

/// The origin and destination of a `<link>` element, or the error it stops
/// the reading on, see `link_error`.
pub fn link_ends(mode: Mode, e: &Element) -> (r: Result<(String, String), TopologyError>)
    ensures
        r matches Err(x) ==> link_error(mode, *e) == Some(x),
        r matches Ok(p) ==> link_error(mode, *e) is None && e.attr("origin"@) == Some(p.0@) && e.attr("dest"@)
            == Some(p.1@),
{
    let origin = match e.attribute("origin") {
        Some(o) => o,
        None => {
            return Err(TopologyError::LinkNeedsEnds);
        },
    };
    let dest = match e.attribute("dest") {
        Some(d) => d,
        None => {
            return Err(TopologyError::LinkNeedsEnds);
        },
    };
    if !e.is("link") {
        return Err(TopologyError::InvalidLinkTag);
    }
    if mode == Mode::Container && (!e.has_attribute("latency") || !e.has_attribute("upload") || !e.has_attribute(
        "network",
    )) {
        return Err(TopologyError::IncompleteLink);
    }
    if mode == Mode::Baremetal && (!e.has_attribute("latency") || !e.has_attribute("upload")) {
        return Err(TopologyError::IncompleteLink);
    }
    Ok((origin, dest))
}

/// Whether an element of the dynamic section is a `<schedule>`.
pub fn schedule_check(e: &Element) -> (r: Result<(), TopologyError>)
    ensures
        r is Ok <==> e.tag@ == "schedule"@,
        r matches Err(x) ==> x == TopologyError::InvalidScheduleTag,
{
    if e.is("schedule") {
        Ok(())
    } else {
        Err(TopologyError::InvalidScheduleTag)
    }
}

/// The number of replicas an event acts on: its `amount`, one by default.
pub fn event_amount(e: &Element) -> (r: Result<u32, TopologyError>)
    ensures
        r matches Ok(n) ==> match e.attr("amount"@) {
            Some(a) => read_u32(a) == Some(n as nat),
            None => n == 1,
        },
        r matches Err(x) ==> x == TopologyError::BadNumber && e.attr("amount"@) is Some && read_u32(
            e.attr("amount"@)->0,
        ) is None,
{
    match e.attribute("amount") {
        Some(a) => match read_number(&a) {
            Some(n) => Ok(n),
            None => Err(TopologyError::BadNumber),
        },
        None => Ok(1),
    }
}

/// The replica action an event's `action` names.
pub open spec fn action_of(word: Seq<char>) -> Option<ReplicaAction> {
    if word == "join"@ {
        Some(ReplicaAction::Join)
    } else if word == "leave"@ {
        Some(ReplicaAction::Leave)
    } else if word == "crash"@ {
        Some(ReplicaAction::Crash)
    } else if word == "disconnect"@ {
        Some(ReplicaAction::Disconnect)
    } else if word == "reconnect"@ {
        Some(ReplicaAction::Reconnect)
    } else {
        None
    }
}

/// The replica action `word` names, see `action_of`.
pub fn replica_action(word: &String) -> (r: Option<ReplicaAction>)
    ensures
        r == action_of(word@),
{
    if is_word(word, "join") {
        Some(ReplicaAction::Join)
    } else if is_word(word, "leave") {
        Some(ReplicaAction::Leave)
    } else if is_word(word, "crash") {
        Some(ReplicaAction::Crash)
    } else if is_word(word, "disconnect") {
        Some(ReplicaAction::Disconnect)
    } else if is_word(word, "reconnect") {
        Some(ReplicaAction::Reconnect)
    } else {
        None
    }
}

/// What one `<schedule>` element of the dynamic section asks for.
#[derive(Clone, Copy, Debug, PartialEq, Eq, Structural)]
pub enum Step {
    /// The bridges it names come back.
    BridgeJoin,
    /// The bridges it names leave.
    BridgeLeave,
    /// Replicas of this instance's service take the action, so many times.
    Replicas(ReplicaAction, u32),
    /// The links between its origin and destination leave.
    LinkLeave,
    /// The links between its origin and destination come back, or are made.
    LinkJoin,
    /// The links between its origin and destination change properties.
    LinkChange,
}

/// The steps of a `<schedule>` element, in order, for an instance whose
/// service is named `root_name`; `is_bridge` tells whether the name the
/// element gives is that of a bridge of the latest graph.  An element that
/// names another service than this instance's asks for nothing about
/// links.
pub open spec fn steps_of(e: Element, is_bridge: bool, root_name: Seq<char>) -> Result<Seq<Step>, TopologyError> {
    let named = e.attr("name"@) is Some && e.attr("action"@) is Some;
    let action = e.attr("action"@)->0;
    let bridge_steps = if named && is_bridge {
        (if action == "join"@ { seq![Step::BridgeJoin] } else { seq![] }) + (if action == "leave"@ {
            seq![Step::BridgeLeave]
        } else {
            seq![]
        })
    } else {
        seq![]
    };
    if named && e.attr("name"@)->0 != root_name {
        Ok(bridge_steps)
    } else if named && e.attr("amount"@) is Some && read_u32(e.attr("amount"@)->0) is None {
        Err(TopologyError::BadNumber)
    } else {
        let amount: u32 = match e.attr("amount"@) {
            Some(a) => read_u32(a)->0 as u32,
            None => 1,
        };
        let replica_steps = if named && action_of(action) is Some {
            seq![Step::Replicas(action_of(action)->0, amount)]
        } else {
            seq![]
        };
        let link_steps = if e.attr("origin"@) is Some && e.attr("dest"@) is Some && e.attr("time"@) is Some {
            match e.attr("action"@) {
                Some(a) => if a == "leave"@ {
                    seq![Step::LinkLeave]
                } else if a == "join"@ {
                    seq![Step::LinkJoin]
                } else {
                    seq![]
                },
                None => seq![Step::LinkChange],
            }
        } else {
            seq![]
        };
        Ok(bridge_steps + replica_steps + link_steps)
    }
}

/// The steps of a `<schedule>` element, see `steps_of`.
pub fn schedule_steps(e: &Element, is_bridge: bool, root_name: &String) -> (r: Result<Vec<Step>, TopologyError>)
    ensures
        r matches Ok(v) ==> steps_of(*e, is_bridge, root_name@) == Ok::<Seq<Step>, TopologyError>(v@),
        r matches Err(x) ==> steps_of(*e, is_bridge, root_name@) == Err::<Seq<Step>, TopologyError>(x),
{
    let mut steps: Vec<Step> = Vec::new();
    let name = e.attribute("name");
    let action = e.attribute("action");
    let named = name.is_some() && action.is_some();
    if named && is_bridge {
        let a = action.as_ref().unwrap();
        if is_word(a, "join") {
            steps.push(Step::BridgeJoin);
        }
        if is_word(a, "leave") {
            steps.push(Step::BridgeLeave);
        }
    }
    let ghost bridge_steps = steps@;
    proof {
        let act = e.attr("action"@)->0;
        if named && is_bridge {
            assert(bridge_steps =~= (if act == "join"@ { seq![Step::BridgeJoin] } else { seq![] }) + (if act == "leave"@ {
                seq![Step::BridgeLeave]
            } else {
                seq![]
            }));
        } else {
            assert(bridge_steps =~= seq![]);
        }
    }
    if named && !is_word(name.as_ref().unwrap(), root_name.as_str()) {
        return Ok(steps);
    }
    if named {
        let amount = match event_amount(e) {
            Ok(n) => n,
            Err(x) => {
                return Err(x);
            },
        };
        match replica_action(action.as_ref().unwrap()) {
            Some(a) => {
                steps.push(Step::Replicas(a, amount));
            },
            None => {},
        }
    }
    let ghost replica_end = steps@;
    if e.has_attribute("origin") && e.has_attribute("dest") && e.has_attribute("time") {
        match &action {
            Some(a) => {
                if is_word(a, "leave") {
                    steps.push(Step::LinkLeave);
                } else if is_word(a, "join") {
                    steps.push(Step::LinkJoin);
                }
            },
            None => {
                steps.push(Step::LinkChange);
            },
        }
    }
    proof {
        let act = e.attr("action"@)->0;
        let amount: u32 = match e.attr("amount"@) {
            Some(a) => read_u32(a)->0 as u32,
            None => 1,
        };
        let replica_steps = if named && action_of(act) is Some {
            seq![Step::Replicas(action_of(act)->0, amount)]
        } else {
            seq![]
        };
        assert(replica_end =~= bridge_steps + replica_steps);
        let link_steps = if e.attr("origin"@) is Some && e.attr("dest"@) is Some && e.attr("time"@) is Some {
            match e.attr("action"@) {
                Some(a) => if a == "leave"@ {
                    seq![Step::LinkLeave]
                } else if a == "join"@ {
                    seq![Step::LinkJoin]
                } else {
                    seq![]
                },
                None => seq![Step::LinkChange],
            }
        } else {
            seq![]
        };
        assert(steps@ =~= bridge_steps + replica_steps + link_steps);
    }
    Ok(steps)
}

/// The pattern of a bandwidth such as `100Mbps`.
pub open spec fn bandwidth_pattern() -> Seq<char> {
    "([0-9]+)([KMG])bps"@
}

pub open spec fn ascii_digit(c: char) -> bool {
    '0' <= c <= '9'
}

/// Where the run of digits of `s` that goes on at `i` ends.
pub open spec fn digits_end(s: Seq<char>, i: int) -> int
    decreases s.len() - i,
{
    if 0 <= i < s.len() && ascii_digit(s[i]) {
        digits_end(s, i + 1)
    } else {
        i
    }
}

/// A run of digits starts at `i` and is followed by `K`, `M` or `G` and
/// `bps`.
pub open spec fn bandwidth_at(s: Seq<char>, i: int) -> bool {
    let e = digits_end(s, i);
    &&& 0 <= i < s.len()
    &&& ascii_digit(s[i])
    &&& (i == 0 || !ascii_digit(s[i - 1]))
    &&& e + 4 <= s.len()
    &&& (s[e] == 'K' || s[e] == 'M' || s[e] == 'G')
    &&& s[e + 1] == 'b' && s[e + 2] == 'p' && s[e + 3] == 's'
}

/// The first position, from `i` on, where a bandwidth starts.
pub open spec fn first_bandwidth_from(s: Seq<char>, i: int) -> Option<int>
    decreases s.len() - i,
{
    if i < 0 || i >= s.len() {
        None
    } else if bandwidth_at(s, i) {
        Some(i)
    } else {
        first_bandwidth_from(s, i + 1)
    }
}

/// The digits and the unit of the first match of `([0-9]+)([KMG])bps` in
/// `s`.  The match that starts leftmost starts a run of digits, and its
/// digits are the whole run: a match that started inside a run would also
/// match from the run's start, and the digits are taken greedily, a
/// shorter run being followed by a digit.
pub open spec fn bandwidth_of(s: Seq<char>) -> Option<(Seq<char>, Seq<char>)> {
    match first_bandwidth_from(s, 0) {
        Some(i) => Some((s.subrange(i, digits_end(s, i)), seq![s[digits_end(s, i)]])),
        None => None,
    }
}

pub open spec fn group_views(v: Seq<Option<String>>) -> Seq<Option<Seq<char>>> {
    v.map_values(|g: Option<String>| match g {
        Some(t) => Some(t@),
        None => None,
    })
}

/// Calls `regex::Regex::new` on `pattern`, which must be the bandwidth
/// pattern, then `Regex::captures` on `s`.  The contract claims what the
/// crate's leftmost-first matching gives for this pattern: no match when
/// no bandwidth is in `s`, else the whole match, the digits and the unit
/// of the first, see `bandwidth_of`.
#[verifier::external_body]
fn first_captures(pattern: &str, s: &str) -> (r: Option<Vec<Option<String>>>)
    requires
        pattern@ == bandwidth_pattern(),
    ensures
        r is None <==> bandwidth_of(s@) is None,
        r matches Some(v) ==> ({
            let p = bandwidth_of(s@)->0;
            group_views(v@) == seq![Some(p.0 + p.1 + "bps"@), Some(p.0), Some(p.1)]
        }),
{
    let re = regex::Regex::new(pattern).ok()?;
    let c = re.captures(s)?;
    Some(c.iter().map(|m| m.map(|m| m.as_str().to_string())).collect())
}

/// The digits and the unit of a bandwidth, see `bandwidth_of`.
pub fn bandwidth_parts(s: &str) -> (r: Option<(String, String)>)
    ensures
        r matches Some(p) ==> bandwidth_of(s@) == Some((p.0@, p.1@)),
        r is None ==> bandwidth_of(s@) is None,
{
    let pattern = "([0-9]+)([KMG])bps";
    proof {
        reveal_strlit("([0-9]+)([KMG])bps");
    }
    match first_captures(pattern, s) {
        Some(v) => {
            proof {
                assert(group_views(v@).len() == 3);
            }
            if v.len() != 3 {
                return None;
            }
            proof {
                assert(group_views(v@)[1] == (match v@[1] { Some(t) => Some(t@), None => None::<Seq<char>> }));
                assert(group_views(v@)[2] == (match v@[2] { Some(t) => Some(t@), None => None::<Seq<char>> }));
            }
            match (&v[1], &v[2]) {
                (Some(d), Some(u)) => Some((d.clone(), u.clone())),
                _ => None,
            }
        },
        None => None,
    }
}

} // verus!
