//! The container orchestrators the emulation runs under, and the commands
//! it derives from them: the command line that starts an experiment in a
//! container, and the signals that stop it.
use vstd::prelude::*;
use crate::text::{push_char, chars_of, string_from_chars};

verus! {

/// Orchestration through Docker.
#[derive(Copy, Clone, Debug, PartialEq, Eq, Structural)]
pub struct DockerOrchestrator;

/// Orchestration through Kubernetes.
#[derive(Copy, Clone, Debug, PartialEq, Eq, Structural)]
pub struct KubernetesOrchestrator;

/// Services run as processes of the WebAssembly runtime.
#[derive(Copy, Clone, Debug, PartialEq, Eq, Structural)]
pub struct WasmOrchestrator;

#[derive(Copy, Clone, Debug, PartialEq, Eq, Structural)]
pub enum Orchestrator {
    Docker(DockerOrchestrator),
    Kubernetes(KubernetesOrchestrator),
}

/// How an experiment is stopped: gracefully or at once.
#[derive(Copy, Clone, Debug, PartialEq, Eq, Structural)]
pub enum SignalCode {
    SigInt,
    SigKill,
}

/// The signal number of `s`.
pub open spec fn signal_number(s: SignalCode) -> char {
    match s {
        SignalCode::SigInt => '2',
        SignalCode::SigKill => '9',
    }
}

/// The option naming the signal, as `kill` takes it.
pub open spec fn signal_flag(s: SignalCode) -> Seq<char> {
    seq!['-', signal_number(s)]
}

/// The shell command, run inside a container, that sends the signal to
/// every process it can.
pub open spec fn kill_all(s: SignalCode) -> Seq<char> {
    seq!['k', 'i', 'l', 'l', ' '] + signal_flag(s) + seq![' ', '-', '1']
}

fn from_chars(cs: &[char]) -> (s: String)
    ensures
        s@ == cs@,
{
    string_from_chars(cs)
}

impl SignalCode {
    /// The option naming the signal, see `signal_flag`.
    pub fn flag(&self) -> (r: String)
        ensures
            r@ == signal_flag(*self),
    {
        let n = match self {
            SignalCode::SigInt => '2',
            SignalCode::SigKill => '9',
        };
        let cs = ['-', n];
        let r = from_chars(&cs);
        assert(r@ =~= signal_flag(*self));
        r
    }

    /// The command that signals every process, see `kill_all`.
    pub fn kill_command(&self) -> (r: String)
        ensures
            r@ == kill_all(*self),
    {
        let n = match self {
            SignalCode::SigInt => '2',
            SignalCode::SigKill => '9',
        };
        let cs = ['k', 'i', 'l', 'l', ' ', '-', n, ' ', '-', '1'];
        let r = from_chars(&cs);
        assert(r@ =~= kill_all(*self));
        r
    }
}

/// The words, each preceded by a space.
pub open spec fn spaced(ws: Seq<Seq<char>>) -> Seq<char>
    decreases ws.len(),
{
    if ws.len() == 0 {
        seq![]
    } else {
        spaced(ws.drop_last()) + seq![' '] + ws.last()
    }
}

/// The command of a container: its own when it has a non-empty one, else
/// the command of its image, if any.
pub open spec fn chosen_command(container_cmd: Option<Seq<Seq<char>>>, image_cmd: Option<Seq<Seq<char>>>) -> Seq<Seq<char>> {
    match container_cmd {
        Some(c) => if c.len() > 0 {
            c
        } else {
            match image_cmd {
                Some(i) => i,
                None => seq![],
            }
        },
        None => match image_cmd {
            Some(i) => i,
            None => seq![],
        },
    }
}

/// The views of some strings.
pub open spec fn word_views(v: Seq<String>) -> Seq<Seq<char>> {
    v.map_values(|x: String| x@)
}

/// The views of an optional list of strings.
pub open spec fn opt_views(v: Option<Vec<String>>) -> Option<Seq<Seq<char>>> {
    match v {
        Some(w) => Some(word_views(w@)),
        None => None,
    }
}

/// Appends a space and `w`.
fn push_word(s: &mut String, w: &String)
    ensures
        final(s)@ == old(s)@ + seq![' '] + w@,
{
    push_char(s, ' ');
    let cs = chars_of(w.as_str());
    let ghost start = s@;
    let mut i: usize = 0;
    while i < cs.len()
        invariant
            cs@ == w@,
            i <= cs@.len(),
            s@ == start + cs@.take(i as int),
        decreases cs@.len() - i,
    {
        push_char(s, cs[i]);
        proof {
            assert(cs@.take(i + 1) =~= cs@.take(i as int).push(cs@[i as int]));
        }
        i = i + 1;
    }
    proof {
        assert(cs@.take(cs@.len() as int) =~= cs@);
    }
}

fn push_words(s: &mut String, ws: &Vec<String>)
    ensures
        final(s)@ == old(s)@ + spaced(word_views(ws@)),
{
    let ghost start = s@;
    let mut i: usize = 0;
    while i < ws.len()
        invariant
            i <= ws@.len(),
            s@ == start + spaced(word_views(ws@.take(i as int))),
        decreases ws@.len() - i,
    {
        push_word(s, &ws[i]);
        proof {
            assert(word_views(ws@.take(i + 1)).drop_last() =~= word_views(ws@.take(i as int)));
            assert(word_views(ws@.take(i + 1)).last() == ws@[i as int]@);
            assert(s@ =~= start + spaced(word_views(ws@.take(i + 1))));
        }
        i = i + 1;
    }
    proof {
        assert(ws@.take(ws@.len() as int) =~= ws@);
    }
}

/// The command line that starts the experiment of a container: the words
/// of the image's entry point, then those of the chosen command, each
/// preceded by a space.  Without an entry point there is nothing to start.
pub open spec fn start_line(
    entrypoint: Option<Seq<Seq<char>>>,
    container_cmd: Option<Seq<Seq<char>>>,
    image_cmd: Option<Seq<Seq<char>>>,
) -> Option<Seq<char>> {
    match entrypoint {
        None => None,
        Some(e) => Some(spaced(e) + spaced(chosen_command(container_cmd, image_cmd))),
    }
}

/// The command line that starts the experiment of a container, see
/// `start_line`.
pub fn command_string(
    entrypoint: &Option<Vec<String>>,
    container_cmd: &Option<Vec<String>>,
    image_cmd: &Option<Vec<String>>,
) -> (r: Option<String>)
    ensures
        (match r {
            Some(s) => Some(s@),
            None => None,
        }) == start_line(opt_views(*entrypoint), opt_views(*container_cmd), opt_views(*image_cmd)),
{
    match entrypoint {
        None => None,
        Some(e) => {
            let mut s = String::new();
            push_words(&mut s, e);
            let use_image = match container_cmd {
                Some(c) => c.len() == 0,
                None => true,
            };
            if use_image {
                match image_cmd {
                    Some(c) => push_words(&mut s, c),
                    None => {},
                }
            } else {
                match container_cmd {
                    Some(c) => push_words(&mut s, c),
                    None => {},
                }
            }
            proof {
                let ghost cc = opt_views(*container_cmd);
                let ghost ic = opt_views(*image_cmd);
                assert(s@ =~= spaced(word_views(e@)) + spaced(chosen_command(cc, ic)));
            }
            Some(s)
        },
    }
}

/// `s` with every single quote escaped by a backslash.
pub open spec fn quotes_escaped(s: Seq<char>) -> Seq<char>
    decreases s.len(),
{
    if s.len() == 0 {
        seq![]
    } else {
        quotes_escaped(s.drop_last()) + (if s.last() == '\'' {
            seq!['\\', '\'']
        } else {
            seq![s.last()]
        })
    }
}

/// Escapes the single quotes of a command line, see `quotes_escaped`.
pub fn escape_quotes(s: &String) -> (r: String)
    ensures
        r@ == quotes_escaped(s@),
{
    let cs = chars_of(s.as_str());
    let mut r = String::new();
    let mut i: usize = 0;
    while i < cs.len()
        invariant
            cs@ == s@,
            i <= cs@.len(),
            r@ == quotes_escaped(cs@.take(i as int)),
        decreases cs@.len() - i,
    {
        let c = cs[i];
        proof {
            assert(cs@.take(i + 1).drop_last() =~= cs@.take(i as int));
            assert(cs@.take(i + 1).last() == c);
        }
        if c == '\'' {
            push_char(&mut r, '\\');
            push_char(&mut r, '\'');
        } else {
            push_char(&mut r, c);
        }
        proof {
            assert(r@ =~= quotes_escaped(cs@.take(i + 1)));
        }
        i = i + 1;
    }
    proof {
        assert(cs@.take(cs@.len() as int) =~= cs@);
    }
    r
}

} // verus!
