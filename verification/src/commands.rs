//! Commands the controller sends to every emulation instance, one byte
//! each, and the records an instance exchanges about its flows.
use vstd::prelude::*;
use crate::text::{push_char, chars_of, same_chars};

verus! {

/// A command of the controller.
#[derive(Clone, Copy, Debug, PartialEq, Eq, Structural)]
pub enum Command {
    /// Stop the experiment.
    Shutdown,
    /// Answer whether the instance is ready.
    Ready,
    /// Start the experiment.
    Start,
}

/// The byte an instance answers a readiness question with.
pub const ACK: u8 = 120;

/// The byte that carries a command.
pub open spec fn command_byte(c: Command) -> u8 {
    match c {
        Command::Shutdown => 2,
        Command::Ready => 3,
        Command::Start => 4,
    }
}

/// The command a byte carries, if any.
pub open spec fn command_of(b: u8) -> Option<Command> {
    if b == 2 {
        Some(Command::Shutdown)
    } else if b == 3 {
        Some(Command::Ready)
    } else if b == 4 {
        Some(Command::Start)
    } else {
        None
    }
}

impl Command {
    /// The byte that carries this command.
    pub fn to_byte(&self) -> (b: u8)
        ensures
            b == command_byte(*self),
    {
        match self {
            Command::Shutdown => 2,
            Command::Ready => 3,
            Command::Start => 4,
        }
    }

    /// The command a byte carries; other bytes carry none.
    pub fn from_byte(b: u8) -> (c: Option<Command>)
        ensures
            c == command_of(b),
    {
        if b == 2 {
            Some(Command::Shutdown)
        } else if b == 3 {
            Some(Command::Ready)
        } else if b == 4 {
            Some(Command::Start)
        } else {
            None
        }
    }
}

/// A command read back from its byte is the command.
pub proof fn lemma_command_roundtrip(c: Command)
    ensures
        command_of(command_byte(c)) == Some(c),
{
}

/// Exactly the bytes of commands carry a command.
pub proof fn lemma_command_bytes(b: u8)
    ensures
        command_of(b) matches Some(c) ==> command_byte(c) == b,
        command_of(b) is None ==> b != 2 && b != 3 && b != 4,
{
}

/// The command the controller sends for a command word: "ready", "start"
/// or "stop".
pub open spec fn command_for(word: Seq<char>) -> Option<Command> {
    if word == seq!['r', 'e', 'a', 'd', 'y'] {
        Some(Command::Ready)
    } else if word == seq!['s', 't', 'a', 'r', 't'] {
        Some(Command::Start)
    } else if word == seq!['s', 't', 'o', 'p'] {
        Some(Command::Shutdown)
    } else {
        None
    }
}

/// The command for a command word, see `command_for`.
pub fn parse_command_word(word: &str) -> (c: Option<Command>)
    ensures
        c == command_for(word@),
{
    let cs = chars_of(word);
    let ready = ['r', 'e', 'a', 'd', 'y'];
    let start = ['s', 't', 'a', 'r', 't'];
    let stop = ['s', 't', 'o', 'p'];
    if same_chars(&cs, &ready) {
        assert(ready@ =~= seq!['r', 'e', 'a', 'd', 'y']);
        Some(Command::Ready)
    } else if same_chars(&cs, &start) {
        assert(ready@ =~= seq!['r', 'e', 'a', 'd', 'y']);
        assert(start@ =~= seq!['s', 't', 'a', 'r', 't']);
        Some(Command::Start)
    } else if same_chars(&cs, &stop) {
        assert(ready@ =~= seq!['r', 'e', 'a', 'd', 'y']);
        assert(start@ =~= seq!['s', 't', 'a', 'r', 't']);
        assert(stop@ =~= seq!['s', 't', 'o', 'p']);
        Some(Command::Shutdown)
    } else {
        assert(ready@ =~= seq!['r', 'e', 'a', 'd', 'y']);
        assert(start@ =~= seq!['s', 't', 'a', 'r', 't']);
        assert(stop@ =~= seq!['s', 't', 'o', 'p']);
        None
    }
}

/// The port every instance listens on for commands.
pub open spec fn command_port() -> Seq<char> {
    seq!['7', '0', '7', '3']
}

/// The endpoint the controller reaches an instance at: the instance's
/// address, or every local address for the controller's own machine, with
/// the command port.
pub open spec fn endpoint_of(ip: Seq<char>, controller_ip: Seq<char>) -> Seq<char> {
    (if ip == controller_ip {
        seq!['0', '.', '0', '.', '0', '.', '0']
    } else {
        ip
    }) + seq![':'] + command_port()
}

fn push_all(s: &mut String, cs: &[char])
    ensures
        final(s)@ == old(s)@ + cs@,
{
    let ghost start = s@;
    let mut i: usize = 0;
    while i < cs.len()
        invariant
            i <= cs@.len(),
            s@ == start + cs@.take(i as int),
        decreases cs@.len() - i,
    {
        push_char(s, cs[i]);
        proof {
            assert(cs@.take(i + 1) =~= cs@.take(i as int).push(cs@[i as int]));
        }
        i = i + 1;
    }
    proof {
        assert(cs@.take(cs@.len() as int) =~= cs@);
    }
}

/// The endpoint of one instance, see `endpoint_of`.
pub fn endpoint(ip: &String, controller_ip: &String) -> (r: String)
    ensures
        r@ == endpoint_of(ip@, controller_ip@),
{
    let mut r = String::new();
    if *ip == *controller_ip {
        let any = ['0', '.', '0', '.', '0', '.', '0'];
        push_all(&mut r, &any);
        assert(any@ =~= seq!['0', '.', '0', '.', '0', '.', '0']);
    } else {
        let cs = chars_of(ip.as_str());
        push_all(&mut r, cs.as_slice());
    }
    let tail = [':', '7', '0', '7', '3'];
    push_all(&mut r, &tail);
    assert(tail@ =~= seq![':'] + command_port());
    assert(r@ =~= endpoint_of(ip@, controller_ip@));
    r
}

/// The endpoints of all instances, in order, see `endpoint_of`.
pub fn endpoints(ips: &Vec<String>, controller_ip: &String) -> (r: Vec<String>)
    ensures
        r@.len() == ips@.len(),
        forall|i: int| 0 <= i < ips@.len() ==> #[trigger] r@[i]@ == endpoint_of(ips@[i]@, controller_ip@),
{
    let mut r: Vec<String> = Vec::new();
    let mut i: usize = 0;
    while i < ips.len()
        invariant
            i <= ips@.len(),
            r@.len() == i,
            forall|k: int| 0 <= k < i ==> #[trigger] r@[k]@ == endpoint_of(ips@[k]@, controller_ip@),
        decreases ips@.len() - i,
    {
        r.push(endpoint(&ips[i], controller_ip));
        i = i + 1;
    }
    r
}

/// Flow data of one active path: the bandwidth it used and its links.
pub struct PathFlowData {
    pub bandwidth: u32,
    pub links: Vec<u16>,
}

/// Whether a flow's number of links is one the receivers expect: more
/// than zero and less than 254.
pub open spec fn links_len_ok(n: nat) -> bool {
    0 < n < 254
}

impl PathFlowData {
    /// Whether the number of links is one the receivers expect.
    pub fn links_len_ok(&self) -> (b: bool)
        ensures
            b == links_len_ok(self.links@.len()),
    {
        self.links.len() > 0 && self.links.len() < 254
    }
}

/// Bytes sent since the last reading of a counter: the difference, or the
/// new count when the counter went back (it restarted or wrapped).
pub open spec fn delta_of(last: u32, bytes: u32) -> u32 {
    if last > bytes {
        bytes
    } else {
        (bytes - last) as u32
    }
}

/// Bytes sent since the last reading, see `delta_of`.
pub fn usage_delta(last: u32, bytes: u32) -> (d: u32)
    ensures
        d == delta_of(last, bytes),
        d <= bytes,
{
    if last > bytes {
        bytes
    } else {
        bytes - last
    }
}

} // verus!
