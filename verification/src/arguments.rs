//! The arguments of a service's command.  A word that starts with `$` and
//! the name of a service stands for that service's address; a number after
//! the name picks a replica, counted from one.  So `-c $server` may become
//! `-c 10.10.10.5`.
use vstd::prelude::*;
use crate::text::{chars_of, string_from_chars, is_digit, push_chars};
use crate::ids::{digits_value, quad_text, views, push_quad};

verus! {

/// Whether `c` is whitespace: it has the Unicode `White_Space` property,
/// as `char::is_whitespace` tells.  These are tab through carriage return,
/// space, next line, no-break space, ogham space mark, the spaces from en
/// quad to hair space, line and paragraph separators, narrow no-break
/// space, medium mathematical space and ideographic space.
pub open spec fn whitespace(c: char) -> bool {
    let n = c as u32;
    ||| 0x9 <= n <= 0xD
    ||| n == 0x20
    ||| n == 0x85
    ||| n == 0xA0
    ||| n == 0x1680
    ||| 0x2000 <= n <= 0x200A
    ||| n == 0x2028
    ||| n == 0x2029
    ||| n == 0x202F
    ||| n == 0x205F
    ||| n == 0x3000
}

/// Whether `c` is whitespace, see `whitespace`.
pub fn is_whitespace(c: char) -> (b: bool)
    ensures
        b == whitespace(c),
{
    ('\u{9}' <= c && c <= '\u{d}') || c == ' ' || c == '\u{85}' || c == '\u{a0}' || c == '\u{1680}' || ('\u{2000}' <= c
        && c <= '\u{200a}') || c == '\u{2028}' || c == '\u{2029}' || c == '\u{202f}' || c == '\u{205f}' || c == '\u{3000}'
}

/// The pieces of `s` between whitespace characters.
pub open spec fn ws_pieces(s: Seq<char>) -> Seq<Seq<char>>
    decreases s.len(),
{
    if s.len() == 0 {
        seq![seq![]]
    } else {
        let p = ws_pieces(s.drop_last());
        if whitespace(s.last()) {
            p.push(seq![])
        } else {
            p.update(p.len() - 1, p.last().push(s.last()))
        }
    }
}

/// The nonempty ones among `ps`, in order.
pub open spec fn nonempty(ps: Seq<Seq<char>>) -> Seq<Seq<char>>
    decreases ps.len(),
{
    if ps.len() == 0 {
        seq![]
    } else if ps.last().len() == 0 {
        nonempty(ps.drop_last())
    } else {
        nonempty(ps.drop_last()).push(ps.last())
    }
}

/// The words of `s`, as `str::split_whitespace` gives them.
pub open spec fn words(s: Seq<char>) -> Seq<Seq<char>> {
    nonempty(ws_pieces(s))
}

pub open spec fn starts_with(s: Seq<char>, p: Seq<char>) -> bool {
    p.len() <= s.len() && s.take(p.len() as int) == p
}

/// The longest prefix of `s` before the first occurrence of `p`.
pub open spec fn before(s: Seq<char>, p: Seq<char>) -> Seq<char>
    decreases s.len(),
{
    if s.len() == 0 || starts_with(s, p) {
        seq![]
    } else {
        seq![s[0]] + before(s.skip(1), p)
    }
}

/// The first nonempty piece of `s` split at the occurrences of `p`, as
/// `str::split` followed by a search for a nonempty piece gives it.
pub open spec fn first_piece(s: Seq<char>, p: Seq<char>) -> Option<Seq<char>>
    decreases s.len(),
{
    if s.len() == 0 {
        None
    } else if p.len() > 0 && starts_with(s, p) {
        first_piece(s.skip(p.len() as int), p)
    } else {
        Some(before(s, p))
    }
}

/// The number written `s`, as `usize::from_str` reads it: decimal digits,
/// at least one, after an optional `+`, and no more than `usize::MAX`.
pub open spec fn read_usize(s: Seq<char>) -> Option<nat> {
    let d = unsigned_digits(s);
    if d.len() > 0 && all_digits(d) && digits_value(d) <= usize::MAX {
        Some(digits_value(d))
    } else {
        None
    }
}

/// The number written `s`, as `u32::from_str` reads it: as `read_usize`,
/// but no more than `u32::MAX`.
pub open spec fn read_u32(s: Seq<char>) -> Option<nat> {
    let d = unsigned_digits(s);
    if d.len() > 0 && all_digits(d) && digits_value(d) <= u32::MAX {
        Some(digits_value(d))
    } else {
        None
    }
}

/// `s` without its leading `+`, if any.
pub open spec fn unsigned_digits(s: Seq<char>) -> Seq<char> {
    if s.len() > 0 && s[0] == '+' {
        s.skip(1)
    } else {
        s
    }
}

pub open spec fn all_digits(d: Seq<char>) -> bool {
    forall|i: int| 0 <= i < d.len() ==> is_digit(#[trigger] d[i])
}

/// `$` followed by `name`.
pub open spec fn variable(name: Seq<char>) -> Seq<char> {
    seq!['$'] + name
}

/// The services whose variable starts `arg`, in order.
pub open spec fn candidates(arg: Seq<char>, services: Seq<(Seq<char>, u32)>) -> Seq<(Seq<char>, u32)>
    decreases services.len(),
{
    if services.len() == 0 {
        seq![]
    } else {
        let c = candidates(arg, services.drop_last());
        if starts_with(arg, variable(services.last().0)) {
            c.push(services.last())
        } else {
            c
        }
    }
}

/// What `arg` becomes.  A variable followed by a replica number that no
/// replica has (zero among them) leaves the argument as it is.
pub open spec fn substituted(arg: Seq<char>, services: Seq<(Seq<char>, u32)>) -> Seq<char> {
    let c = candidates(arg, services);
    if c.len() == 0 {
        arg
    } else {
        match first_piece(arg, variable(c[0].0)) {
            Some(piece) => match read_usize(piece) {
                Some(i) => if 1 <= i && i - 1 < c.len() {
                    quad_text(c[i - 1].1, '.')
                } else {
                    arg
                },
                None => quad_text(c[0].1, '.'),
            },
            None => quad_text(c[0].1, '.'),
        }
    }
}

/// The arguments of `command`, each word substituted in turn.
pub open spec fn command_args(ws: Seq<Seq<char>>, services: Seq<(Seq<char>, u32)>) -> Seq<Seq<char>>
    decreases ws.len(),
{
    if ws.len() == 0 {
        seq![]
    } else {
        command_args(ws.drop_last(), services).push(substituted(ws.last(), services))
    }
}

/// The words of `s`, see `words`.
pub fn split_words(s: &Vec<char>) -> (r: Vec<Vec<char>>)
    ensures
        views(r@) == words(s@),
{
    let mut done: Vec<Vec<char>> = Vec::new();
    let mut cur: Vec<char> = Vec::new();
    let mut i: usize = 0;
    proof {
        assert(s@.take(0) =~= seq![]);
        let e: Seq<Seq<char>> = seq![seq![]];
        assert(e.drop_last() =~= seq![]);
        assert(nonempty(e) == nonempty(e.drop_last()));
        assert(views(done@) =~= seq![]);
    }
    while i < s.len()
        invariant
            i <= s@.len(),
            ws_pieces(s@.take(i as int)).last() == cur@,
            ws_pieces(s@.take(i as int)).len() >= 1,
            words(s@.take(i as int)) == if cur@.len() == 0 {
                views(done@)
            } else {
                views(done@).push(cur@)
            },
        decreases s@.len() - i,
    {
        let c = s[i];
        let ghost t = s@.take(i as int);
        let ghost t1 = s@.take(i + 1);
        proof {
            assert(t1.drop_last() =~= t);
            assert(t1.last() == c);
        }
        let ghost pieces = ws_pieces(t);
        let ghost before_done = views(done@);
        if is_whitespace(c) {
            proof {
                assert(ws_pieces(t1) == pieces.push(seq![]));
                assert(pieces.push(seq![]).drop_last() =~= pieces);
                assert(words(t1) == nonempty(pieces));
            }
            if cur.len() > 0 {
                let w = cur;
                done.push(w);
                proof {
                    assert(views(done@) =~= before_done.push(w@));
                }
            }
            cur = Vec::new();
        } else {
            let ghost old_cur = cur@;
            cur.push(c);
            proof {
                let q = pieces.update(pieces.len() - 1, old_cur.push(c));
                assert(ws_pieces(t1) == q);
                assert(q.drop_last() =~= pieces.drop_last());
                assert(q.last() == old_cur.push(c));
                assert(nonempty(pieces) == if old_cur.len() == 0 {
                    nonempty(pieces.drop_last())
                } else {
                    nonempty(pieces.drop_last()).push(old_cur)
                });
                if old_cur.len() == 0 {
                    assert(views(done@).push(cur@) == nonempty(q));
                } else {
                    assert(nonempty(pieces).drop_last() =~= nonempty(pieces.drop_last()));
                    assert(views(done@) =~= nonempty(pieces.drop_last()));
                }
            }
        }
        i = i + 1;
    }
    proof {
        assert(s@.take(s@.len() as int) =~= s@);
    }
    if cur.len() > 0 {
        let ghost d = views(done@);
        let w = cur;
        done.push(w);
        proof {
            assert(views(done@) =~= d.push(w@));
        }
    }
    done
}

/// Whether `p` occurs in `s` at `k`.
fn occurs_at(s: &Vec<char>, k: usize, p: &Vec<char>) -> (b: bool)
    requires
        k <= s@.len(),
    ensures
        b == starts_with(s@.skip(k as int), p@),
{
    if p.len() > s.len() - k {
        return false;
    }
    let mut t: usize = 0;
    let n = s.len();
    while t < p.len()
        invariant
            n == s@.len(),
            p@.len() <= s@.len() - k,
            k <= s@.len(),
            t <= p@.len(),
            forall|m: int| 0 <= m < t ==> s@[k + m] == p@[m],
        decreases p@.len() - t,
    {
        let idx: usize = k + t;
        if s[idx] != p[t] {
            proof {
                assert(s@.skip(k as int).take(p@.len() as int)[t as int] != p@[t as int]);
            }
            return false;
        }
        t = t + 1;
    }
    assert(s@.skip(k as int).take(p@.len() as int) =~= p@);
    true
}

/// The first nonempty piece of `s` split at `p`, see `first_piece`.
fn find_first_piece(s: &Vec<char>, p: &Vec<char>) -> (r: Option<Vec<char>>)
    requires
        p@.len() > 0,
    ensures
        r matches Some(v) ==> first_piece(s@, p@) == Some(v@),
        r is None ==> first_piece(s@, p@) is None,
{
    let mut k: usize = 0;
    assert(s@.skip(0) =~= s@);
    while k < s.len() && occurs_at(s, k, p)
        invariant
            k <= s@.len(),
            p@.len() > 0,
            first_piece(s@, p@) == first_piece(s@.skip(k as int), p@),
        decreases s@.len() - k,
    {
        proof {
            assert(s@.skip(k as int).skip(p@.len() as int) =~= s@.skip(k + p@.len()));
        }
        k = k + p.len();
    }
    if k >= s.len() {
        proof {
            assert(s@.skip(k as int).len() == 0);
        }
        return None;
    }
    let ghost k0 = k;
    let mut piece: Vec<char> = Vec::new();
    let mut j: usize = k;
    while j < s.len() && !occurs_at(s, j, p)
        invariant
            k0 <= j <= s@.len(),
            before(s@.skip(k0 as int), p@) == piece@ + before(s@.skip(j as int), p@),
        decreases s@.len() - j,
    {
        proof {
            let t = s@.skip(j as int);
            assert(t.skip(1) =~= s@.skip(j + 1));
            assert(t[0] == s@[j as int]);
            assert(before(t, p@) == seq![t[0]] + before(t.skip(1), p@));
        }
        piece.push(s[j]);
        proof {
            assert(piece@ + before(s@.skip(j + 1), p@) =~= piece@.drop_last() + (seq![s@[j as int]] + before(
                s@.skip(j + 1),
                p@,
            )));
        }
        j = j + 1;
    }
    proof {
        assert(before(s@.skip(j as int), p@) =~= seq![]);
        assert(piece@ + seq![] =~= piece@);
    }
    Some(piece)
}

/// The number `s` writes, see `read_usize`.
pub fn parse_usize(s: &Vec<char>) -> (r: Option<usize>)
    ensures
        r matches Some(n) ==> read_usize(s@) == Some(n as nat),
        r is None ==> read_usize(s@) is None,
{
    let start: usize = if s.len() > 0 && s[0] == '+' {
        1
    } else {
        0
    };
    let ghost d = s@.skip(start as int);
    proof {
        if start == 0 {
            assert(d =~= s@);
        }
    }
    assert(d == unsigned_digits(s@));
    if start >= s.len() {
        assert(d.len() == 0);
        return None;
    }
    let mut v: usize = 0;
    let mut i: usize = start;
    let mut fits = true;
    while i < s.len()
        invariant
            start <= i <= s@.len(),
            d == s@.skip(start as int),
            d == unsigned_digits(s@),
            forall|m: int| 0 <= m < i - start ==> is_digit(#[trigger] d[m]),
            fits ==> v == digits_value(d.take(i - start)),
            !fits ==> digits_value(d.take(i - start)) > usize::MAX,
        decreases s@.len() - i,
    {
        let c = s[i];
        let ghost pre = d.take(i - start);
        proof {
            assert(d.take(i - start + 1).drop_last() =~= pre);
            assert(d.take(i - start + 1).last() == c);
        }
        if !('0' <= c && c <= '9') {
            proof {
                let j = i - start;
                assert(0 <= j < d.len());
                assert(d[j] == c);
                assert(!is_digit(d[j]));
                assert(!all_digits(d));
            }
            return None;
        }
        let dv: usize = (c as u32 - '0' as u32) as usize;
        proof {
            assert(dv == (c as nat - '0' as nat));
            assert(digits_value(d.take(i - start + 1)) == digits_value(pre) * 10 + dv);
        }
        if fits {
            match v.checked_mul(10) {
                Some(m) => match m.checked_add(dv) {
                    Some(x) => {
                        v = x;
                    },
                    None => {
                        fits = false;
                    },
                },
                None => {
                    fits = false;
                    proof {
                        assert(digits_value(pre) * 10 + dv >= digits_value(pre) * 10);
                    }
                },
            }
        } else {
            proof {
                assert(digits_value(pre) * 10 + dv >= digits_value(pre)) by (nonlinear_arith)
                    requires
                        digits_value(pre) >= 0,
                        dv >= 0,
                ;
            }
        }
        i = i + 1;
    }
    proof {
        assert(d.take(s@.len() - start) =~= d);
    }
    if fits {
        Some(v)
    } else {
        None
    }
}

/// The number `s` writes, see `read_u32`.
pub fn parse_u32(s: &Vec<char>) -> (r: Option<u32>)
    ensures
        r matches Some(n) ==> read_u32(s@) == Some(n as nat),
        r is None ==> read_u32(s@) is None,
{
    match parse_usize(s) {
        Some(v) => {
            if v <= 0xffff_ffffusize {
                Some(v as u32)
            } else {
                None
            }
        },
        None => None,
    }
}

pub open spec fn service_views(v: Seq<(String, u32)>) -> Seq<(Seq<char>, u32)> {
    v.map_values(|e: (String, u32)| (e.0@, e.1))
}

/// The services whose variable starts `arg`, see `candidates`.
fn find_candidates(arg: &Vec<char>, services: &Vec<(String, u32)>) -> (r: Vec<(Vec<char>, u32)>)
    ensures
        r@.map_values(|e: (Vec<char>, u32)| (e.0@, e.1)) == candidates(arg@, service_views(services@)),
{
    let ghost sv = service_views(services@);
    let mut r: Vec<(Vec<char>, u32)> = Vec::new();
    let mut i: usize = 0;
    while i < services.len()
        invariant
            sv == service_views(services@),
            i <= services@.len(),
            r@.map_values(|e: (Vec<char>, u32)| (e.0@, e.1)) == candidates(arg@, sv.take(i as int)),
        decreases services@.len() - i,
    {
        let ghost before_r = r@.map_values(|e: (Vec<char>, u32)| (e.0@, e.1));
        proof {
            assert(sv.take(i + 1).drop_last() =~= sv.take(i as int));
            assert(sv.take(i + 1).last() == (services@[i as int].0@, services@[i as int].1));
        }
        let name = chars_of(services[i].0.as_str());
        let mut var: Vec<char> = Vec::new();
        var.push('$');
        push_chars(&mut var, name.as_slice());
        proof {
            assert(var@ =~= variable(services@[i as int].0@));
        }
        if occurs_at(arg, 0, &var) {
            proof {
                assert(arg@.skip(0) =~= arg@);
            }
            r.push((name, services[i].1));
            proof {
                assert(r@.map_values(|e: (Vec<char>, u32)| (e.0@, e.1)) =~= before_r.push(
                    (services@[i as int].0@, services@[i as int].1),
                ));
            }
        } else {
            proof {
                assert(arg@.skip(0) =~= arg@);
            }
        }
        i = i + 1;
    }
    proof {
        assert(sv.take(sv.len() as int) =~= sv);
    }
    r
}

/// What `arg` becomes, see `substituted`.
fn substitute(arg: &Vec<char>, services: &Vec<(String, u32)>) -> (r: Vec<char>)
    ensures
        r@ == substituted(arg@, service_views(services@)),
{
    let c = find_candidates(arg, services);
    let ghost cv = c@.map_values(|e: (Vec<char>, u32)| (e.0@, e.1));
    let mut same: Vec<char> = Vec::new();
    push_chars(&mut same, arg.as_slice());
    assert(same@ =~= arg@);
    if c.len() == 0 {
        return same;
    }
    proof {
        assert(cv[0] == (c@[0].0@, c@[0].1));
    }
    let mut var: Vec<char> = Vec::new();
    var.push('$');
    push_chars(&mut var, c[0].0.as_slice());
    assert(var@ =~= variable(cv[0].0));
    let mut first: Vec<char> = Vec::new();
    push_quad(&mut first, c[0].1, '.');
    assert(first@ =~= quad_text(cv[0].1, '.'));
    match find_first_piece(arg, &var) {
        Some(piece) => match parse_usize(&piece) {
            Some(i) => {
                if 1 <= i && i - 1 < c.len() {
                    proof {
                        assert(cv[i - 1] == (c@[i - 1].0@, c@[i - 1].1));
                    }
                    let mut out: Vec<char> = Vec::new();
                    push_quad(&mut out, c[i - 1].1, '.');
                    assert(out@ =~= quad_text(cv[i - 1].1, '.'));
                    out
                } else {
                    same
                }
            },
            None => first,
        },
        None => first,
    }
}

/// The arguments of `command` for a service process: its words, each
/// variable replaced by the address it stands for (see `substituted`).
/// `services` pairs each service's name with its address.
pub fn parse_command(command: &str, services: &Vec<(String, u32)>) -> (r: Vec<String>)
    ensures
        command_args(words(command@), service_views(services@)) == r@.map_values(|x: String| x@),
{
    let cs = chars_of(command);
    let ws = split_words(&cs);
    let ghost wv = words(command@);
    let ghost sv = service_views(services@);
    let mut out: Vec<String> = Vec::new();
    let mut i: usize = 0;
    while i < ws.len()
        invariant
            wv == words(command@),
            sv == service_views(services@),
            views(ws@) == wv,
            i <= ws@.len(),
            command_args(wv.take(i as int), sv) == out@.map_values(|x: String| x@),
        decreases ws@.len() - i,
    {
        proof {
            assert(wv.take(i + 1).drop_last() =~= wv.take(i as int));
            assert(wv.take(i + 1).last() == ws@[i as int]@);
        }
        let ghost before_out = out@.map_values(|x: String| x@);
        let x = substitute(&ws[i], services);
        let s = string_from_chars(x.as_slice());
        out.push(s);
        proof {
            assert(out@.map_values(|x: String| x@) =~= before_out.push(x@));
        }
        i = i + 1;
    }
    proof {
        assert(wv.take(wv.len() as int) =~= wv);
    }
    out
}

/// Every word of a command gives one argument, in order; words with no
/// service variable stay as they are.
pub proof fn lemma_one_argument_per_word(ws: Seq<Seq<char>>, services: Seq<(Seq<char>, u32)>)
    ensures
        command_args(ws, services).len() == ws.len(),
        forall|i: int| 0 <= i < ws.len() ==> #[trigger] command_args(ws, services)[i] == substituted(ws[i], services),
        forall|i: int|
            0 <= i < ws.len() && candidates(ws[i], services).len() == 0 ==> #[trigger] command_args(ws, services)[i]
                == ws[i],
    decreases ws.len(),
{
    if ws.len() > 0 {
        let w0 = ws.drop_last();
        lemma_one_argument_per_word(w0, services);
        assert forall|i: int| 0 <= i < ws.len() implies #[trigger] command_args(ws, services)[i] == substituted(
            ws[i],
            services,
        ) by {
            if i < ws.len() - 1 {
                assert(ws[i] == w0[i]);
            }
        }
    }
}

} // verus!
