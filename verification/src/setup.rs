//! Messages exchanged while every host waits for all of the services to
//! start: three bytes, the last one telling a count from the order to stop.
use vstd::prelude::*;
use vstd::std_specs::convert::FromSpecImpl;

verus! {

/// Messages used in setup, i.e. while each host waits for all of the
/// services to start.
#[derive(PartialEq, Eq, Structural, Clone, Copy, Debug)]
pub enum SetupMessage {
    ServiceCount(u16),
    Terminate,
}

/// The message three bytes carry: a third byte of one orders to stop;
/// anything else carries a count, low byte first.
pub open spec fn decoded(b: [u8; 3]) -> SetupMessage {
    if b[2] == 1 {
        SetupMessage::Terminate
    } else {
        SetupMessage::ServiceCount((b[1] as int * 256 + b[0] as int) as u16)
    }
}

/// The three bytes that carry a message.
pub open spec fn encoded(m: SetupMessage) -> [u8; 3] {
    match m {
        SetupMessage::Terminate => [0u8, 0u8, 1u8],
        SetupMessage::ServiceCount(n) => [(n % 256) as u8, (n / 256) as u8, 0u8],
    }
}

impl From<[u8; 3]> for SetupMessage {
    fn from(value: [u8; 3]) -> (m: Self) {
        if value[2] == 1 {
            SetupMessage::Terminate
        } else {
            let lo = value[0];
            let hi = value[1];
            let n: u16 = (hi as u16) * 256 + (lo as u16);
            SetupMessage::ServiceCount(n)
        }
    }
}

impl FromSpecImpl<[u8; 3]> for SetupMessage {
    open spec fn obeys_from_spec() -> bool {
        true
    }

    open spec fn from_spec(v: [u8; 3]) -> Self {
        decoded(v)
    }
}

impl From<SetupMessage> for [u8; 3] {
    fn from(msg: SetupMessage) -> (b: Self) {
        match msg {
            SetupMessage::Terminate => [0, 0, 1],
            SetupMessage::ServiceCount(n) => {
                let lo = (n % 256) as u8;
                let hi = (n / 256) as u8;
                [lo, hi, 0]
            },
        }
    }
}

impl FromSpecImpl<SetupMessage> for [u8; 3] {
    open spec fn obeys_from_spec() -> bool {
        true
    }

    open spec fn from_spec(v: SetupMessage) -> Self {
        encoded(v)
    }
}

/// Reading back the bytes of a message gives the message.
pub proof fn lemma_setup_roundtrip(m: SetupMessage)
    ensures
        decoded(encoded(m)) == m,
{
    match m {
        SetupMessage::Terminate => {},
        SetupMessage::ServiceCount(n) => {
            let b = encoded(m);
            assert(b[0] == (n % 256) as u8);
            assert(b[1] == (n / 256) as u8);
            assert(b[2] == 0u8);
        },
    }
}

/// Bytes with a third byte of zero, or exactly the stop order, are the
/// bytes of the message they carry.
pub proof fn lemma_setup_bytes_roundtrip(b: [u8; 3])
    requires
        b[2] == 0 || (b[0] == 0 && b[1] == 0 && b[2] == 1),
    ensures
        encoded(decoded(b)) == b,
{
    if b[2] == 0 {
        let n = (b[1] as int * 256 + b[0] as int) as u16;
        assert(n as int == b[1] as int * 256 + b[0] as int);
        let e = encoded(decoded(b));
        assert(e[0] == b[0]);
        assert(e[1] == b[1]);
        assert(e[2] == b[2]);
        assert(e =~= b);
    } else {
        let e = encoded(decoded(b));
        assert(e =~= b);
    }
}

/// The services the other hosts report, added up.
pub open spec fn sum_counts(s: Seq<u16>) -> nat
    decreases s.len(),
{
    if s.len() == 0 {
        0
    } else {
        sum_counts(s.drop_last()) + s.last() as nat
    }
}

proof fn lemma_sum_grows(s: Seq<u16>, i: int)
    requires
        0 <= i <= s.len(),
    ensures
        sum_counts(s.take(i)) <= sum_counts(s),
    decreases s.len() - i,
{
    if i < s.len() {
        lemma_sum_grows(s, i + 1);
        assert(s.take(i + 1).drop_last() =~= s.take(i));
    } else {
        assert(s.take(i) =~= s);
    }
}

/// Whether every service of the experiment has started: the services of
/// this host and those the other hosts report make up the total.
pub fn all_started(local: usize, remote: &Vec<u16>, total: usize) -> (b: bool)
    ensures
        b == (local + sum_counts(remote@) == total),
{
    let mut acc: u128 = local as u128;
    let t: u128 = total as u128;
    let mut i: usize = 0;
    while i < remote.len()
        invariant
            i <= remote@.len(),
            acc == local + sum_counts(remote@.take(i as int)),
            t == total,
            acc <= usize::MAX + 65535,
            t <= usize::MAX,
        decreases remote@.len() - i,
    {
        if acc > t {
            proof {
                lemma_sum_grows(remote@, i as int);
            }
            return false;
        }
        proof {
            assert(remote@.take(i + 1).drop_last() =~= remote@.take(i as int));
        }
        acc = acc + remote[i] as u128;
        i = i + 1;
    }
    proof {
        assert(remote@.take(remote@.len() as int) =~= remote@);
    }
    acc == t
}

} // verus!
