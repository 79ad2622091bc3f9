//! Identifiers of the services of a WebAssembly deployment,
//! `kollaps_<name>_<a-b-c-d>`: made from the service's name and address,
//! and read back by the orchestrator to find each service's address.
use vstd::prelude::*;
use crate::text::{decimal, digits, is_digit, digit_value, push_decimal, chars_of, string_from_chars, lemma_decimal_digits, push_chars, same_chars};

use crate::graph::{Graph, last_index_of, lemma_last_index_of};
use crate::elements::Service;
use crate::assoc::Key;

verus! {

/// The pieces of `s` between occurrences of `sep`; no occurrence gives the
/// whole text as one piece.
pub open spec fn split_on(s: Seq<char>, sep: char) -> Seq<Seq<char>>
    decreases s.len(),
{
    if s.len() == 0 {
        seq![seq![]]
    } else {
        let p = split_on(s.drop_last(), sep);
        if s.last() == sep {
            p.push(seq![])
        } else {
            p.update(p.len() - 1, p.last().push(s.last()))
        }
    }
}

/// `s` with every `a` replaced by `b`.
pub open spec fn replaced(s: Seq<char>, a: char, b: char) -> Seq<char> {
    s.map_values(|c: char| if c == a { b } else { c })
}

/// Value of a string of decimal digits.
pub open spec fn digits_value(s: Seq<char>) -> nat
    decreases s.len(),
{
    if s.len() == 0 {
        0
    } else {
        digits_value(s.drop_last()) * 10 + digit_value(s.last())
    }
}

/// A field of an IPv4 address as the standard library reads it: one to
/// three digits, no leading zero, at most 255.
pub open spec fn octet_field(f: Seq<char>) -> bool {
    &&& 1 <= f.len() <= 3
    &&& forall|i: int| 0 <= i < f.len() ==> is_digit(#[trigger] f[i])
    &&& (f.len() == 1 || f[0] != '0')
    &&& digits_value(f) <= 255
}

/// The address written `s`: four fields separated by `sep`.
pub open spec fn read_quad(s: Seq<char>, sep: char) -> Option<u32> {
    let fs = split_on(s, sep);
    if fs.len() == 4 && octet_field(fs[0]) && octet_field(fs[1]) && octet_field(fs[2]) && octet_field(fs[3]) {
        Some((digits_value(fs[0]) * 16777216 + digits_value(fs[1]) * 65536 + digits_value(fs[2]) * 256
            + digits_value(fs[3])) as u32)
    } else {
        None
    }
}

/// Address `a` as four decimal octets separated by `sep`.
pub open spec fn quad_text(a: u32, sep: char) -> Seq<char> {
    decimal((a / 16777216) as nat) + seq![sep] + decimal(((a / 65536) % 256) as nat) + seq![sep] + decimal(
        ((a / 256) % 256) as nat,
    ) + seq![sep] + decimal((a % 256) as nat)
}

/// The identifier of service `name` at address `addr`: underscores of the
/// name become dashes, and so do the dots of the address, so that the
/// underscores of the identifier separate its parts.
pub open spec fn service_id(name: Seq<char>, addr: u32) -> Seq<char> {
    seq!['k', 'o', 'l', 'l', 'a', 'p', 's', '_'] + replaced(name, '_', '-') + seq!['_'] + quad_text(addr, '-')
}

/// The name an identifier gives: its next-to-last part.
pub open spec fn id_name(id: Seq<char>) -> Option<Seq<char>> {
    let p = split_on(id, '_');
    if p.len() >= 2 {
        Some(p[p.len() - 2])
    } else {
        None
    }
}

/// The address an identifier gives: its last part, dashes read as dots.
pub open spec fn id_addr(id: Seq<char>) -> Option<u32> {
    read_quad(replaced(split_on(id, '_').last(), '-', '.'), '.')
}

proof fn lemma_split_nonempty(s: Seq<char>, sep: char)
    ensures
        split_on(s, sep).len() >= 1,
    decreases s.len(),
{
    if s.len() > 0 {
        lemma_split_nonempty(s.drop_last(), sep);
    }
}

/// Splitting at an occurrence of the separator splits both sides.
proof fn lemma_split_concat(x: Seq<char>, y: Seq<char>, sep: char)
    ensures
        split_on(x + seq![sep] + y, sep) == split_on(x, sep) + split_on(y, sep),
    decreases y.len(),
{
    lemma_split_nonempty(x, sep);
    lemma_split_nonempty(y, sep);
    if y.len() == 0 {
        assert((x + seq![sep] + y).drop_last() =~= x);
        assert(split_on(x + seq![sep] + y, sep) =~= split_on(x, sep) + split_on(y, sep));
    } else {
        let y0 = y.drop_last();
        lemma_split_concat(x, y0, sep);
        lemma_split_nonempty(y0, sep);
        assert((x + seq![sep] + y).drop_last() =~= x + seq![sep] + y0);
        assert((x + seq![sep] + y).last() == y.last());
        assert(split_on(x + seq![sep] + y, sep) =~= split_on(x, sep) + split_on(y, sep));
    }
}

/// Text without the separator is one piece.
proof fn lemma_split_single(w: Seq<char>, sep: char)
    requires
        !w.contains(sep),
    ensures
        split_on(w, sep) == seq![w],
    decreases w.len(),
{
    if w.len() > 0 {
        let w0 = w.drop_last();
        assert(!w0.contains(sep)) by {
            if w0.contains(sep) {
                let i = choose|i: int| 0 <= i < w0.len() && w0[i] == sep;
                assert(w[i] == sep);
            }
        }
        lemma_split_single(w0, sep);
        assert(w.last() != sep) by {
            assert(w[w.len() - 1] == w.last());
        }
        assert(w0.push(w.last()) =~= w);
        assert(seq![w0].update(0, w0.push(w.last())) =~= seq![w]);
    } else {
        assert(w =~= seq![]);
    }
}

proof fn lemma_decimal_value(n: nat)
    ensures
        digits_value(decimal(n)) == n,
    decreases n,
{
    if n < 10 {
        let d = decimal(n);
        assert(d =~= seq![digits()[n as int]]);
        assert(d.drop_last() =~= seq![]);
        assert(digits_value(d.drop_last()) == 0);
        assert(digits_value(d) == digits_value(d.drop_last()) * 10 + digit_value(d.last()));
        assert(digit_value(digits()[n as int]) == n) by {
            assert(digits()[0] == '0');
            assert(digits()[1] == '1');
            assert(digits()[2] == '2');
            assert(digits()[3] == '3');
            assert(digits()[4] == '4');
            assert(digits()[5] == '5');
            assert(digits()[6] == '6');
            assert(digits()[7] == '7');
            assert(digits()[8] == '8');
            assert(digits()[9] == '9');
        }
    } else {
        lemma_decimal_value(n / 10);
        let d = decimal(n);
        assert(d.drop_last() =~= decimal(n / 10));
        let m = (n % 10) as int;
        assert(d.last() == digits()[m]);
        assert(digits_value(d) == digits_value(d.drop_last()) * 10 + digit_value(d.last()));
        assert((n / 10) * 10 + n % 10 == n);
        assert(digit_value(digits()[m]) == m) by {
            assert(digits()[0] == '0');
            assert(digits()[1] == '1');
            assert(digits()[2] == '2');
            assert(digits()[3] == '3');
            assert(digits()[4] == '4');
            assert(digits()[5] == '5');
            assert(digits()[6] == '6');
            assert(digits()[7] == '7');
            assert(digits()[8] == '8');
            assert(digits()[9] == '9');
        }
    }
}

proof fn lemma_decimal_len(n: nat)
    ensures
        n < 10 ==> decimal(n).len() == 1,
        10 <= n < 100 ==> decimal(n).len() == 2,
        100 <= n < 1000 ==> decimal(n).len() == 3,
    decreases n,
{
    if n >= 10 {
        lemma_decimal_len(n / 10);
    }
}

/// The decimal notation of an octet is a field that reads back as the
/// octet.
proof fn lemma_octet(n: nat)
    requires
        n <= 255,
    ensures
        octet_field(decimal(n)),
        digits_value(decimal(n)) == n,
        !decimal(n).contains('.'),
        !decimal(n).contains('-'),
        !decimal(n).contains('_'),
{
    lemma_decimal_value(n);
    lemma_decimal_len(n);
    lemma_decimal_digits(n);
    let d = decimal(n);
    assert forall|c: char| d.contains(c) implies is_digit(c) by {
        let i = choose|i: int| 0 <= i < d.len() && d[i] == c;
        assert(is_digit(d[i]));
    }
}

proof fn lemma_concat_lacks(a: Seq<char>, b: Seq<char>, c: char)
    requires
        !a.contains(c),
        !b.contains(c),
    ensures
        !(a + b).contains(c),
{
    if (a + b).contains(c) {
        let i = choose|i: int| 0 <= i < (a + b).len() && (a + b)[i] == c;
        if i < a.len() {
            assert(a[i] == c);
        } else {
            assert(b[i - a.len()] == c);
        }
    }
}

proof fn lemma_single_lacks(x: char, c: char)
    requires
        x != c,
    ensures
        !seq![x].contains(c),
{
    if seq![x].contains(c) {
        let i = choose|i: int| 0 <= i < seq![x].len() && seq![x][i] == c;
    }
}

/// `quad_text` reads back as the address.
proof fn lemma_quad(a: u32, sep: char)
    requires
        !is_digit(sep),
        sep != '_',
    ensures
        read_quad(quad_text(a, sep), sep) == Some(a),
        !quad_text(a, sep).contains('_'),
{
    let o1 = (a / 16777216) as nat;
    let o2 = ((a / 65536) % 256) as nat;
    let o3 = ((a / 256) % 256) as nat;
    let o4 = (a % 256) as nat;
    assert(o1 <= 255);
    lemma_octet(o1);
    lemma_octet(o2);
    lemma_octet(o3);
    lemma_octet(o4);
    let d1 = decimal(o1);
    let d2 = decimal(o2);
    let d3 = decimal(o3);
    let d4 = decimal(o4);
    lemma_decimal_digits(o1);
    lemma_decimal_digits(o2);
    lemma_decimal_digits(o3);
    lemma_decimal_digits(o4);
    assert forall|d: Seq<char>| (d == d1 || d == d2 || d == d3 || d == d4) implies !d.contains(sep) by {
        if d.contains(sep) {
            let i = choose|i: int| 0 <= i < d.len() && d[i] == sep;
            assert(is_digit(d[i]));
        }
    }
    lemma_split_single(d1, sep);
    lemma_split_single(d2, sep);
    lemma_split_single(d3, sep);
    lemma_split_single(d4, sep);
    lemma_split_concat(d1, d2, sep);
    lemma_split_concat(d1 + seq![sep] + d2, d3, sep);
    lemma_split_concat(d1 + seq![sep] + d2 + seq![sep] + d3, d4, sep);
    let fs = split_on(quad_text(a, sep), sep);
    assert(fs =~= seq![d1, d2, d3, d4]);
    assert(o1 * 16777216 + o2 * 65536 + o3 * 256 + o4 == a) by (nonlinear_arith)
        requires
            o1 == a / 16777216,
            o2 == (a / 65536) % 256,
            o3 == (a / 256) % 256,
            o4 == a % 256,
            0 <= a < 4294967296,
    ;
    let q = quad_text(a, sep);
    assert(!q.contains('_')) by {
        lemma_single_lacks(sep, '_');
        lemma_concat_lacks(d1, seq![sep], '_');
        lemma_concat_lacks(d1 + seq![sep], d2, '_');
        lemma_concat_lacks(d1 + seq![sep] + d2, seq![sep], '_');
        lemma_concat_lacks(d1 + seq![sep] + d2 + seq![sep], d3, '_');
        lemma_concat_lacks(d1 + seq![sep] + d2 + seq![sep] + d3, seq![sep], '_');
        lemma_concat_lacks(d1 + seq![sep] + d2 + seq![sep] + d3 + seq![sep], d4, '_');
    }
}

/// The identifier of a service gives back the service's name, its
/// underscores turned into dashes, and its address.
pub proof fn lemma_id_roundtrip(name: Seq<char>, addr: u32)
    ensures
        id_name(service_id(name, addr)) == Some(replaced(name, '_', '-')),
        id_addr(service_id(name, addr)) == Some(addr),
{
    let k = seq!['k', 'o', 'l', 'l', 'a', 'p', 's'];
    let n = replaced(name, '_', '-');
    let q = quad_text(addr, '-');
    lemma_quad(addr, '-');
    assert(!k.contains('_')) by {
        if k.contains('_') {
            let i = choose|i: int| 0 <= i < k.len() && k[i] == '_';
        }
    }
    assert(!n.contains('_')) by {
        if n.contains('_') {
            let i = choose|i: int| 0 <= i < n.len() && n[i] == '_';
        }
    }
    lemma_split_single(k, '_');
    lemma_split_single(n, '_');
    lemma_split_single(q, '_');
    lemma_split_concat(k, n, '_');
    lemma_split_concat(k + seq!['_'] + n, q, '_');
    let id = service_id(name, addr);
    assert(id =~= k + seq!['_'] + n + seq!['_'] + q);
    assert(split_on(id, '_') =~= seq![k, n, q]);
    lemma_quad(addr, '.');
    assert(replaced(q, '-', '.') =~= quad_text(addr, '.')) by {
        let o1 = (addr / 16777216) as nat;
        let o2 = ((addr / 65536) % 256) as nat;
        let o3 = ((addr / 256) % 256) as nat;
        let o4 = (addr % 256) as nat;
        lemma_octet(o1);
        lemma_octet(o2);
        lemma_octet(o3);
        lemma_octet(o4);
        assert forall|d: Seq<char>| !d.contains('-') implies replaced(d, '-', '.') =~= d by {
            assert forall|i: int| 0 <= i < d.len() implies replaced(d, '-', '.')[i] == d[i] by {
                if d[i] == '-' {
                    assert(d.contains('-'));
                }
            }
        }
        let d1 = decimal(o1);
        let d2 = decimal(o2);
        let d3 = decimal(o3);
        let d4 = decimal(o4);
        assert(replaced(d1, '-', '.') =~= d1);
        assert(replaced(d2, '-', '.') =~= d2);
        assert(replaced(d3, '-', '.') =~= d3);
        assert(replaced(d4, '-', '.') =~= d4);
    }
}

/// The identifier of service `name` at address `addr`, see `service_id`.
pub fn ready_service_id(name: &str, addr: u32) -> (id: String)
    ensures
        id@ == service_id(name@, addr),
{
    let mut v: Vec<char> = Vec::new();
    let prefix = ['k', 'o', 'l', 'l', 'a', 'p', 's', '_'];
    push_chars(&mut v, &prefix);
    let cs = chars_of(name);
    let ghost start = v@;
    let mut i: usize = 0;
    while i < cs.len()
        invariant
            cs@ == name@,
            i <= cs@.len(),
            v@ == start + replaced(cs@.take(i as int), '_', '-'),
        decreases cs@.len() - i,
    {
        let c = cs[i];
        v.push(if c == '_' { '-' } else { c });
        proof {
            assert(replaced(cs@.take(i + 1), '_', '-') =~= replaced(cs@.take(i as int), '_', '-').push(
                if c == '_' { '-' } else { c },
            ));
        }
        i = i + 1;
    }
    proof {
        assert(cs@.take(cs@.len() as int) =~= cs@);
    }
    v.push('_');
    push_decimal((addr / 16777216) as u64, &mut v);
    v.push('-');
    push_decimal(((addr / 65536) % 256) as u64, &mut v);
    v.push('-');
    push_decimal(((addr / 256) % 256) as u64, &mut v);
    v.push('-');
    push_decimal((addr % 256) as u64, &mut v);
    proof {
        assert(prefix@ =~= seq!['k', 'o', 'l', 'l', 'a', 'p', 's', '_']);
        assert(v@ =~= service_id(name@, addr));
    }
    string_from_chars(v.as_slice())
}


pub open spec fn views(v: Seq<Vec<char>>) -> Seq<Seq<char>> {
    v.map_values(|x: Vec<char>| x@)
}

/// The pieces of `s` between occurrences of `sep`, see `split_on`.
pub fn split_chars(s: &Vec<char>, sep: char) -> (r: Vec<Vec<char>>)
    ensures
        views(r@) == split_on(s@, sep),
{
    let mut done: Vec<Vec<char>> = Vec::new();
    let mut cur: Vec<char> = Vec::new();
    let mut i: usize = 0;
    while i < s.len()
        invariant
            i <= s@.len(),
            views(done@).push(cur@) == split_on(s@.take(i as int), sep),
        decreases s@.len() - i,
    {
        let c = s[i];
        proof {
            assert(s@.take(i + 1).drop_last() =~= s@.take(i as int));
            assert(s@.take(i + 1).last() == c);
        }
        let ghost before = views(done@).push(cur@);
        if c == sep {
            let piece = cur;
            done.push(piece);
            cur = Vec::new();
            proof {
                assert(views(done@).push(cur@) =~= before.push(seq![]));
            }
        } else {
            cur.push(c);
            proof {
                assert(views(done@).push(cur@) =~= before.update(before.len() - 1, before.last().push(c)));
            }
        }
        i = i + 1;
    }
    proof {
        assert(s@.take(s@.len() as int) =~= s@);
    }
    done.push(cur);
    done
}

/// `s` with every `a` replaced by `b`.
pub fn replace_char(s: &Vec<char>, a: char, b: char) -> (r: Vec<char>)
    ensures
        r@ == replaced(s@, a, b),
{
    let mut r: Vec<char> = Vec::new();
    let mut i: usize = 0;
    while i < s.len()
        invariant
            i <= s@.len(),
            r@ == replaced(s@.take(i as int), a, b),
        decreases s@.len() - i,
    {
        let c = s[i];
        r.push(if c == a { b } else { c });
        proof {
            assert(replaced(s@.take(i + 1), a, b) =~= replaced(s@.take(i as int), a, b).push(
                if c == a { b } else { c },
            ));
        }
        i = i + 1;
    }
    proof {
        assert(s@.take(s@.len() as int) =~= s@);
    }
    r
}

fn digit_of(c: char) -> (r: Option<u32>)
    ensures
        r == (if is_digit(c) { Some(digit_value(c) as u32) } else { None::<u32> }),
{
    match c {
        '0' => Some(0),
        '1' => Some(1),
        '2' => Some(2),
        '3' => Some(3),
        '4' => Some(4),
        '5' => Some(5),
        '6' => Some(6),
        '7' => Some(7),
        '8' => Some(8),
        '9' => Some(9),
        _ => None,
    }
}

/// The value of an address field, when `f` is one.
fn read_octet(f: &Vec<char>) -> (r: Option<u32>)
    ensures
        r == (if octet_field(f@) { Some(digits_value(f@) as u32) } else { None::<u32> }),
{
    if f.len() < 1 || f.len() > 3 {
        return None;
    }
    if f.len() > 1 && f[0] == '0' {
        return None;
    }
    let mut v: u32 = 0;
    let mut i: usize = 0;
    while i < f.len()
        invariant
            1 <= f@.len() <= 3,
            i <= f@.len(),
            forall|j: int| 0 <= j < i ==> is_digit(#[trigger] f@[j]),
            v == digits_value(f@.take(i as int)),
            v < 1000,
            i == 0 ==> v == 0,
            i == 1 ==> v < 10,
            i == 2 ==> v < 100,
        decreases f@.len() - i,
    {
        match digit_of(f[i]) {
            Some(d) => {
                proof {
                    assert(f@.take(i + 1).drop_last() =~= f@.take(i as int));
                }
                v = v * 10 + d;
                i = i + 1;
            },
            None => {
                return None;
            },
        }
    }
    proof {
        assert(f@.take(f@.len() as int) =~= f@);
    }
    if v > 255 {
        None
    } else {
        Some(v)
    }
}

/// The address written as four fields separated by dots, see `read_quad`.
pub fn parse_quad(s: &Vec<char>) -> (r: Option<u32>)
    ensures
        r == read_quad(s@, '.'),
{
    let fs = split_chars(s, '.');
    proof {
        assert(fs@.len() == split_on(s@, '.').len());
    }
    if fs.len() != 4 {
        return None;
    }
    proof {
        assert(views(fs@)[0] == fs@[0]@);
        assert(views(fs@)[1] == fs@[1]@);
        assert(views(fs@)[2] == fs@[2]@);
        assert(views(fs@)[3] == fs@[3]@);
    }
    let a = read_octet(&fs[0]);
    let b = read_octet(&fs[1]);
    let c = read_octet(&fs[2]);
    let d = read_octet(&fs[3]);
    match (a, b, c, d) {
        (Some(a), Some(b), Some(c), Some(d)) => Some(a * 16777216 + b * 65536 + c * 256 + d),
        _ => None,
    }
}

/// The service name an identifier gives, see `id_name`.
pub fn parse_id_name(id: &str) -> (r: Option<String>)
    ensures
        r matches Some(n) ==> id_name(id@) == Some(n@),
        r is None ==> id_name(id@) is None,
{
    let cs = chars_of(id);
    let parts = split_chars(&cs, '_');
    proof {
        assert(parts@.len() == split_on(id@, '_').len());
    }
    if parts.len() < 2 {
        return None;
    }
    let k = parts.len() - 2;
    proof {
        assert(views(parts@)[k as int] == parts@[k as int]@);
    }
    Some(string_from_chars(parts[k].as_slice()))
}

/// The service address an identifier gives, see `id_addr`.
pub fn parse_id_addr(id: &str) -> (r: Option<u32>)
    ensures
        r == id_addr(id@),
{
    let cs = chars_of(id);
    let parts = split_chars(&cs, '_');
    proof {
        lemma_split_nonempty(id@, '_');
        assert(parts@.len() == split_on(id@, '_').len());
        assert(views(parts@)[parts@.len() - 1] == parts@[parts@.len() - 1]@);
    }
    let last = &parts[parts.len() - 1];
    let dotted = replace_char(last, '-', '.');
    parse_quad(&dotted)
}

/// What a list of identifiers, one per line, gives: the name and address of
/// each nonempty line in order, or `None` when a line is no identifier.
pub open spec fn parsed_ids(lines: Seq<Seq<char>>) -> Option<Seq<(Seq<char>, u32)>>
    decreases lines.len(),
{
    if lines.len() == 0 {
        Some(seq![])
    } else {
        match parsed_ids(lines.drop_last()) {
            None => None,
            Some(p) => {
                let l = lines.last();
                if l.len() == 0 {
                    Some(p)
                } else {
                    match (id_name(l), id_addr(l)) {
                        (Some(n), Some(a)) => Some(p.push((n, a))),
                        _ => None,
                    }
                }
            },
        }
    }
}

proof fn lemma_prefix_unparsed(ls: Seq<Seq<char>>, k: int)
    requires
        0 <= k <= ls.len(),
        parsed_ids(ls.take(k)) is None,
    ensures
        parsed_ids(ls) is None,
    decreases ls.len() - k,
{
    if k == ls.len() {
        assert(ls.take(k) =~= ls);
    } else {
        assert(ls.take(k + 1).drop_last() =~= ls.take(k));
        lemma_prefix_unparsed(ls, k + 1);
    }
}

pub open spec fn pair_views(v: Seq<(String, u32)>) -> Seq<(Seq<char>, u32)> {
    v.map_values(|e: (String, u32)| (e.0@, e.1))
}

/// The names and addresses of the identifiers in `text`, one per line; empty
/// lines are skipped, and a line that is no identifier gives `None`.
pub fn parse_service_ids(text: &str) -> (r: Option<Vec<(String, u32)>>)
    ensures
        r matches Some(v) ==> parsed_ids(split_on(text@, '\n')) == Some(pair_views(v@)),
        r is None ==> parsed_ids(split_on(text@, '\n')) is None,
{
    let cs = chars_of(text);
    let lines = split_chars(&cs, '\n');
    let ghost ls = split_on(text@, '\n');
    let mut out: Vec<(String, u32)> = Vec::new();
    let mut i: usize = 0;
    while i < lines.len()
        invariant
            ls == split_on(text@, '\n'),
            views(lines@) == ls,
            i <= lines@.len(),
            parsed_ids(ls.take(i as int)) == Some(pair_views(out@)),
        decreases lines@.len() - i,
    {
        proof {
            assert(ls.take(i + 1).drop_last() =~= ls.take(i as int));
            assert(ls.take(i + 1).last() == lines@[i as int]@);
        }
        let line = &lines[i];
        if line.len() > 0 {
            let id = string_from_chars(line.as_slice());
            let name = parse_id_name(id.as_str());
            let addr = parse_id_addr(id.as_str());
            match (name, addr) {
                (Some(n), Some(a)) => {
                    let ghost before = out@;
                    let ghost nv = n@;
                    out.push((n, a));
                    proof {
                        assert(pair_views(out@) =~= pair_views(before).push((nv, a)));
                    }
                },
                _ => {
                    proof {
                        assert(id@ == ls[i as int]);
                        assert(ls.take(i + 1).last() == ls[i as int]);
                        assert(id_name(ls[i as int]) is None || id_addr(ls[i as int]) is None);
                        assert(parsed_ids(ls.take(i + 1)) is None);
                        lemma_prefix_unparsed(ls, i as int + 1);

                    }
                    return None;
                },
            }
        }
        i = i + 1;
    }
    proof {
        assert(ls.take(ls.len() as int) =~= ls);
    }
    Some(out)
}

/// The addresses paired with `name`, in order.
pub open spec fn named_addrs(p: Seq<(Seq<char>, u32)>, name: Seq<char>) -> Seq<u32>
    decreases p.len(),
{
    if p.len() == 0 {
        seq![]
    } else if p.last().0 == name {
        named_addrs(p.drop_last(), name).push(p.last().1)
    } else {
        named_addrs(p.drop_last(), name)
    }
}

/// The addresses that the pairs give to `name`, in order.
pub fn addresses_named(pairs: &Vec<(String, u32)>, name: &String) -> (r: Vec<u32>)
    ensures
        r@ == named_addrs(pair_views(pairs@), name@),
{
    let ghost pv = pair_views(pairs@);
    let mut r: Vec<u32> = Vec::new();
    let mut i: usize = 0;
    while i < pairs.len()
        invariant
            pv == pair_views(pairs@),
            i <= pairs@.len(),
            r@ == named_addrs(pv.take(i as int), name@),
        decreases pairs@.len() - i,
    {
        proof {
            assert(pv.take(i + 1).drop_last() =~= pv.take(i as int));
            assert(pv.take(i + 1).last() == (pairs@[i as int].0@, pairs@[i as int].1));
        }
        if pairs[i].0 == *name {
            r.push(pairs[i].1);
        }
        i = i + 1;
    }
    proof {
        assert(pv.take(pv.len() as int) =~= pv);
    }
    r
}

/// Appends address `a` as four decimal octets separated by `sep`.
pub fn push_quad(v: &mut Vec<char>, a: u32, sep: char)
    ensures
        final(v)@ == old(v)@ + quad_text(a, sep),
{
    push_decimal((a / 16777216) as u64, v);
    v.push(sep);
    push_decimal(((a / 65536) % 256) as u64, v);
    v.push(sep);
    push_decimal(((a / 256) % 256) as u64, v);
    v.push(sep);
    push_decimal((a % 256) as u64, v);
    proof {
        assert(final(v)@ =~= old(v)@ + quad_text(a, sep));
    }
}

/// Address `a` in dotted notation, as an IPv4 address prints.
pub fn address_text(a: u32) -> (s: String)
    ensures
        s@ == quad_text(a, '.'),
{
    let mut v: Vec<char> = Vec::new();
    push_quad(&mut v, a, '.');
    assert(v@ =~= quad_text(a, '.'));
    string_from_chars(v.as_slice())
}

/// The identifiers `ids`, each on a line of its own.
pub open spec fn listing(ids: Seq<Seq<char>>) -> Seq<char>
    decreases ids.len(),
{
    if ids.len() == 0 {
        seq![]
    } else {
        listing(ids.drop_last()) + ids.last() + seq!['\n']
    }
}

/// The identifiers `ids`, each on a line of its own, see `listing`.
pub fn listing_text(ids: &Vec<String>) -> (s: String)
    ensures
        s@ == listing(ids@.map_values(|x: String| x@)),
{
    let ghost iv = ids@.map_values(|x: String| x@);
    let mut v: Vec<char> = Vec::new();
    let mut i: usize = 0;
    while i < ids.len()
        invariant
            iv == ids@.map_values(|x: String| x@),
            i <= ids@.len(),
            v@ == listing(iv.take(i as int)),
        decreases ids@.len() - i,
    {
        proof {
            assert(iv.take(i + 1).drop_last() =~= iv.take(i as int));
            assert(iv.take(i + 1).last() == ids@[i as int]@);
        }
        let cs = chars_of(ids[i].as_str());
        push_chars(&mut v, cs.as_slice());
        v.push('\n');
        i = i + 1;
    }
    proof {
        assert(iv.take(iv.len() as int) =~= iv);
    }
    string_from_chars(v.as_slice())
}

/// The service identifier of each (name, address) entry.
pub open spec fn ids_of(entries: Seq<(Seq<char>, u32)>) -> Seq<Seq<char>> {
    entries.map_values(|e: (Seq<char>, u32)| service_id(e.0, e.1))
}

/// The name, underscores turned into dashes, and address of each entry.
pub open spec fn read_back(entries: Seq<(Seq<char>, u32)>) -> Seq<(Seq<char>, u32)> {
    entries.map_values(|e: (Seq<char>, u32)| (replaced(e.0, '_', '-'), e.1))
}

proof fn lemma_split_listing(ids: Seq<Seq<char>>, y: Seq<char>)
    requires
        forall|i: int| 0 <= i < ids.len() ==> !(#[trigger] ids[i]).contains('\n'),
    ensures
        split_on(listing(ids) + y, '\n') == ids + split_on(y, '\n'),
    decreases ids.len(),
{
    if ids.len() == 0 {
        assert(listing(ids) + y =~= y);
        assert(ids + split_on(y, '\n') =~= split_on(y, '\n'));
    } else {
        let l = ids.drop_last();
        let x = ids.last();
        assert(!ids[ids.len() - 1].contains('\n'));
        let z = x + seq!['\n'] + y;
        lemma_split_listing(l, z);
        assert(listing(ids) + y =~= listing(l) + z);
        lemma_split_concat(x, y, '\n');
        lemma_split_single(x, '\n');
        assert(ids =~= l.push(x));
        assert(l + split_on(z, '\n') =~= ids + split_on(y, '\n'));
    }
}

proof fn lemma_parsed_ids(entries: Seq<(Seq<char>, u32)>)
    ensures
        parsed_ids(ids_of(entries)) == Some(read_back(entries)),
    decreases entries.len(),
{
    if entries.len() > 0 {
        let l = entries.drop_last();
        let e = entries.last();
        lemma_parsed_ids(l);
        assert(ids_of(entries).drop_last() =~= ids_of(l));
        assert(ids_of(entries).last() == service_id(e.0, e.1));
        lemma_id_roundtrip(e.0, e.1);
        assert(service_id(e.0, e.1).len() > 0);
        assert(read_back(entries) =~= read_back(l).push((replaced(e.0, '_', '-'), e.1)));
    } else {
        assert(ids_of(entries) =~= seq![]);
        assert(read_back(entries) =~= seq![]);
    }
}

proof fn lemma_id_single_line(name: Seq<char>, addr: u32)
    requires
        !name.contains('\n'),
    ensures
        !service_id(name, addr).contains('\n'),
{
    let id = service_id(name, addr);
    if id.contains('\n') {
        let i = choose|i: int| 0 <= i < id.len() && id[i] == '\n';
        let n = replaced(name, '_', '-');
        let q = quad_text(addr, '-');
        assert(id =~= seq!['k', 'o', 'l', 'l', 'a', 'p', 's', '_'] + n + seq!['_'] + q);
        if 8 <= i < 8 + n.len() {
            assert(n[i - 8] == '\n');
            assert(name[i - 8] == '\n');
        } else if 9 + n.len() <= i {
            let o1 = (addr / 16777216) as nat;
            let o2 = ((addr / 65536) % 256) as nat;
            let o3 = ((addr / 256) % 256) as nat;
            let o4 = (addr % 256) as nat;
            lemma_decimal_digits(o1);
            lemma_decimal_digits(o2);
            lemma_decimal_digits(o3);
            lemma_decimal_digits(o4);
            let j = i - 9 - n.len();
            assert(q[j] == '\n');
            let l1 = decimal(o1).len() as int;
            let l2 = decimal(o2).len() as int;
            let l3 = decimal(o3).len() as int;
            if j < l1 {
                assert(is_digit(decimal(o1)[j]));
            } else if j == l1 {
            } else if j < l1 + 1 + l2 {
                assert(is_digit(decimal(o2)[j - l1 - 1]));
            } else if j == l1 + 1 + l2 {
            } else if j < l1 + 2 + l2 + l3 {
                assert(is_digit(decimal(o3)[j - l1 - 2 - l2]));
            } else if j == l1 + 2 + l2 + l3 {
            } else {
                assert(is_digit(decimal(o4)[j - l1 - 3 - l2 - l3]));
            }
        }
    }
}

/// The identifiers of the services, written one per line, read back as
/// each service's name, its underscores turned into dashes, and its
/// address, in order.
pub proof fn lemma_listing_roundtrip(entries: Seq<(Seq<char>, u32)>)
    requires
        forall|i: int| 0 <= i < entries.len() ==> !(#[trigger] entries[i]).0.contains('\n'),
    ensures
        parsed_ids(split_on(listing(ids_of(entries)), '\n')) == Some(read_back(entries)),
{
    let ids = ids_of(entries);
    assert forall|i: int| 0 <= i < ids.len() implies !(#[trigger] ids[i]).contains('\n') by {
        lemma_id_single_line(entries[i].0, entries[i].1);
    }
    lemma_split_listing(ids, seq![]);
    assert(listing(ids) + seq![] =~= listing(ids));
    let all = ids + split_on(seq![], '\n');
    assert(split_on(seq![], '\n') =~= seq![seq![]]);
    assert(all.drop_last() =~= ids);
    assert(all.last().len() == 0);
    lemma_parsed_ids(entries);
}

pub open spec fn dashboard_name() -> Seq<char> {
    seq!['d', 'a', 's', 'h', 'b', 'o', 'a', 'r', 'd']
}

/// The identifiers among the (name, identifier) entries that belong to the
/// dashboard, or with `dashboard` false to the other services, in order.
pub open spec fn ids_for(entries: Seq<(Seq<char>, Seq<char>)>, dashboard: bool) -> Seq<Seq<char>>
    decreases entries.len(),
{
    if entries.len() == 0 {
        seq![]
    } else {
        let r = ids_for(entries.drop_last(), dashboard);
        if (entries.last().0 == dashboard_name()) == dashboard {
            r.push(entries.last().1)
        } else {
            r
        }
    }
}

/// The two lists of identifiers that a deployment writes down, from the
/// (name, identifier) pair of each of its services: that of the services
/// other than the dashboard, and that of the dashboard.
pub fn topology_listings(services: &Vec<(String, String)>) -> (r: (String, String))
    ensures
        ({
            let e = services@.map_values(|x: (String, String)| (x.0@, x.1@));
            &&& r.0@ == listing(ids_for(e, false))
            &&& r.1@ == listing(ids_for(e, true))
        }),
{
    let ghost e = services@.map_values(|x: (String, String)| (x.0@, x.1@));
    let dash = ['d', 'a', 's', 'h', 'b', 'o', 'a', 'r', 'd'];
    assert(dash@ =~= dashboard_name());
    let mut others: Vec<String> = Vec::new();
    let mut dashboards: Vec<String> = Vec::new();
    let mut i: usize = 0;
    while i < services.len()
        invariant
            e == services@.map_values(|x: (String, String)| (x.0@, x.1@)),
            dash@ == dashboard_name(),
            i <= services@.len(),
            others@.map_values(|x: String| x@) == ids_for(e.take(i as int), false),
            dashboards@.map_values(|x: String| x@) == ids_for(e.take(i as int), true),
        decreases services@.len() - i,
    {
        proof {
            assert(e.take(i + 1).drop_last() =~= e.take(i as int));
            assert(e.take(i + 1).last() == (services@[i as int].0@, services@[i as int].1@));
        }
        let ghost o = others@.map_values(|x: String| x@);
        let ghost d = dashboards@.map_values(|x: String| x@);
        let name = chars_of(services[i].0.as_str());
        let id = string_from_chars(chars_of(services[i].1.as_str()).as_slice());
        if same_chars(&name, &dash) {
            dashboards.push(id);
            proof {
                assert(dashboards@.map_values(|x: String| x@) =~= d.push(services@[i as int].1@));
            }
        } else {
            others.push(id);
            proof {
                assert(others@.map_values(|x: String| x@) =~= o.push(services@[i as int].1@));
            }
        }
        i = i + 1;
    }
    proof {
        assert(e.take(e.len() as int) =~= e);
    }
    (listing_text(&others), listing_text(&dashboards))
}


/// Why the identifiers a WebAssembly deployment wrote down do not fit the
/// graph.
#[derive(Clone, Copy, Debug, PartialEq, Eq, Structural)]
pub enum ResolveError {
    /// A line is no identifier.
    BadId,
    /// A service has not as many identifiers as replicas.
    CountMismatch,
}

/// No node stands twice in the groups of `m`.
pub open spec fn groups_apart(m: Map<Seq<char>, Vec<usize>>) -> bool {
    forall|n1: Seq<char>, n2: Seq<char>, i: int, j: int|
        m.dom().contains(n1) && m.dom().contains(n2) && 0 <= i < m[n1]@.len() && 0 <= j < m[n2]@.len() && (n1 != n2
            || i != j) ==> #[trigger] m[n1]@[i] != #[trigger] m[n2]@[j]
}

/// Every service name of `m` has as many addresses in `pairs` as replicas.
pub open spec fn counts_fit(m: Map<Seq<char>, Vec<usize>>, pairs: Seq<(Seq<char>, u32)>) -> bool {
    forall|n: Seq<char>| #[trigger] m.dom().contains(n) ==> named_addrs(pairs, n).len() == m[n]@.len()
}

proof fn lemma_last_index_distinct(s: Seq<usize>, k: int)
    requires
        0 <= k < s.len(),
        forall|i: int, j: int| 0 <= i < s.len() && 0 <= j < s.len() && i != j ==> s[i] != s[j],
    ensures
        last_index_of(s, s[k]) == k,
{
    lemma_last_index_of(s, s[k]);
    let l = last_index_of(s, s[k]);
    assert(s.contains(s[k]));
    assert(s[l] == s[k]);
}

/// Replica `k` of the service named `nm` has the `k`-th address `pairs`
/// give to that name, and replica number `k`.
pub open spec fn resolved_at(nodes: Seq<Service>, m: Map<Seq<char>, Vec<usize>>, pairs: Seq<(Seq<char>, u32)>, nm: Seq<char>, k: int) -> bool {
    &&& nodes[m[nm]@[k] as int].ip == named_addrs(pairs, nm)[k]
    &&& nodes[m[nm]@[k] as int].replica_id == k
}

impl Graph {
    /// Gives every replica the address its identifier holds: `text` lists
    /// the identifiers one per line (see `parsed_ids`), and the `i`-th
    /// identifier named like a service goes to its `i`-th replica, which
    /// gets replica number `i`; the addresses are registered and recorded
/// (see `assign_addresses`).
    /// Refused, with nothing changed, when a line is no identifier or a
    /// service has not as many identifiers as replicas.
    pub fn resolve_listed(&mut self, nodes: &mut Vec<Service>, text: &str) -> (r: Result<(), ResolveError>)
        requires
            old(self).wf(old(nodes)@.len()),
        ensures
            ({
                let parsed = parsed_ids(split_on(text@, '\n'));
                let m = old(self).services_by_name@;
                &&& (r == Err::<(), ResolveError>(ResolveError::BadId)) <==> parsed is None
                &&& (r == Err::<(), ResolveError>(ResolveError::CountMismatch)) <==> (parsed is Some && !counts_fit(
                    m,
                    parsed->0,
                ))
                &&& r is Err ==> *final(self) == *old(self) && final(nodes)@ == old(nodes)@
                &&& r is Ok ==> {
                    &&& final(self).wf(final(nodes)@.len())
                    &&& final(nodes)@.len() == old(nodes)@.len()
                    &&& final(self).services_by_name == old(self).services_by_name
                    &&& groups_apart(m) ==> forall|n: Seq<char>, i: int|
                        m.dom().contains(n) && 0 <= i < m[n]@.len() ==> #[trigger] resolved_at(
                            final(nodes)@,
                            m,
                            parsed->0,
                            n,
                            i,
                        )
                }
            }),
    {
        let pairs = match parse_service_ids(text) {
            Some(p) => p,
            None => {
                return Err(ResolveError::BadId);
            },
        };
        let ghost pv = pair_views(pairs@);
        let ghost m = self.services_by_name@;
        let ghost g0 = *self;
        let ghost n0 = nodes@;
        let n = self.services_by_name.entries.len();
        proof {
            self.services_by_name.lemma_view();
        }
        let mut i: usize = 0;
        while i < n
            invariant
                n == g0.services_by_name.entries@.len(),
                *self == g0,
                nodes@ == n0,
                pv == pair_views(pairs@),
                parsed_ids(split_on(text@, '\n')) == Some(pv),
                m == g0.services_by_name@,
                g0.services_by_name.wf(),
                i <= n,
                forall|j: int| 0 <= j < i ==> named_addrs(pv, #[trigger] g0.services_by_name.entries@[j].0@).len()
                    == m[g0.services_by_name.entries@[j].0@]@.len(),
            decreases n - i,
        {
            proof {
                g0.services_by_name.lemma_pos(i as int);
            }
            let addrs = addresses_named(&pairs, &self.services_by_name.entries[i].0);
            if addrs.len() != self.services_by_name.entries[i].1.len() {
                proof {
                    assert(!counts_fit(m, pv)) by {
                        let nm = g0.services_by_name.entries@[i as int].0@;
                        assert(m.dom().contains(nm));
                    }
                    assert(parsed_ids(split_on(text@, '\n')) == Some(pv));
                }
                return Err(ResolveError::CountMismatch);
            }
            i = i + 1;
        }
        proof {
            assert forall|nm: Seq<char>| #[trigger] m.dom().contains(nm) implies named_addrs(pv, nm).len() == m[nm]@.len() by {
                g0.services_by_name.lemma_view();
                let j = choose|j: int| 0 <= j < n && #[trigger] g0.services_by_name.entries@[j].0.kv() == nm;
                g0.services_by_name.lemma_pos(j);
            }
        }
        let mut i: usize = 0;
        while i < n
            invariant
                n == g0.services_by_name.entries@.len(),
                m == g0.services_by_name@,
                pv == pair_views(pairs@),
                parsed_ids(split_on(text@, '\n')) == Some(pv),
                g0.services_by_name.wf(),
                g0.wf(n0.len()),
                counts_fit(m, pv),
                i <= n,
                self.wf(nodes@.len()),
                nodes@.len() == n0.len(),
                self.services_by_name == g0.services_by_name,
                groups_apart(m) ==> forall|j: int, k: int|
                    0 <= j < i && 0 <= k < m[g0.services_by_name.entries@[j].0@]@.len() ==> #[trigger] resolved_at(
                        nodes@,
                        m,
                        pv,
                        g0.services_by_name.entries@[j].0@,
                        k,
                    ),
            decreases n - i,
        {
            let ghost before = nodes@;
            let ghost sb = self.services@;
            let ghost nm = g0.services_by_name.entries@[i as int].0@;
            proof {
                g0.services_by_name.lemma_pos(i as int);
            }
            let name = string_from_chars(chars_of(self.services_by_name.entries[i].0.as_str()).as_slice());
            let addrs = addresses_named(&pairs, &name);
            self.assign_addresses(nodes, &name, &addrs, true);
            proof {
                let g = m[nm]@;
                if groups_apart(m) {
                    assert forall|k: int| 0 <= k < g.len() implies last_index_of(g, #[trigger] g[k]) == k by {
                        assert forall|a: int, b: int| 0 <= a < g.len() && 0 <= b < g.len() && a != b implies g[a] != g[b] by {
                            assert(m[nm]@[a] != m[nm]@[b]);
                        }
                        lemma_last_index_distinct(g, k);
                    }
                    assert forall|j: int, k: int|
                        0 <= j < i + 1 && 0 <= k < m[g0.services_by_name.entries@[j].0@]@.len() implies #[trigger] resolved_at(
                            nodes@,
                            m,
                            pv,
                            g0.services_by_name.entries@[j].0@,
                            k,
                        ) by {
                        let nj = g0.services_by_name.entries@[j].0@;
                        g0.services_by_name.lemma_pos(j);
                        let x = m[nj]@[k];
                        assert(x < n0.len());
                        assert(m.dom().contains(nj));
                        if j == i {
                            assert(g.contains(x));
                            assert(last_index_of(g, x) == k);
                            assert(nodes@[x as int].ip == addrs@[k]);
                            assert(addrs@ == named_addrs(pv, nm));
                        } else {
                            assert(nj != nm) by {
                                if nj == nm {
                                    assert(g0.services_by_name.entries@[j].0.kv() == g0.services_by_name.entries@[i as int].0.kv());
                                }
                            }
                            assert(!g.contains(x)) by {
                                if g.contains(x) {
                                    let q = choose|q: int| 0 <= q < g.len() && g[q] == x;
                                    assert(m[nm]@[q] != m[nj]@[k]);
                                }
                            }
                            assert(nodes@[x as int] == before[x as int]);
                            assert(resolved_at(before, m, pv, nj, k));
                        }
                    }
                }
            }
            i = i + 1;
        }
        proof {
            if groups_apart(m) {
                assert forall|nm: Seq<char>, k: int| m.dom().contains(nm) && 0 <= k < m[nm]@.len() implies #[trigger] resolved_at(
                    nodes@,
                    m,
                    pv,
                    nm,
                    k,
                ) by {
                    let j = choose|j: int| 0 <= j < n && #[trigger] g0.services_by_name.entries@[j].0.kv() == nm;
                    g0.services_by_name.lemma_pos(j);
                    assert(resolved_at(nodes@, m, pv, g0.services_by_name.entries@[j].0@, k));
                }
            }
        }
        Ok(())
    }
}

/// The identifiers of services whose names hold no underscore and no line
/// break, written one per line, read back as exactly those names and
/// addresses; so `resolve_listed` on that text gives replica `i` of each
/// service the `i`-th address listed for its name, and replica number `i`.
pub proof fn lemma_ids_resolve_to_addresses(entries: Seq<(Seq<char>, u32)>)
    requires
        forall|i: int| 0 <= i < entries.len() ==> !(#[trigger] entries[i]).0.contains('\n') && !entries[i].0.contains('_'),
    ensures
        parsed_ids(split_on(listing(ids_of(entries)), '\n')) == Some(entries),
        forall|nodes: Seq<Service>, m: Map<Seq<char>, Vec<usize>>, n: Seq<char>, i: int|
            #[trigger] resolved_at(nodes, m, parsed_ids(split_on(listing(ids_of(entries)), '\n'))->0, n, i)
                <==> resolved_at(nodes, m, entries, n, i),
{
    lemma_listing_roundtrip(entries);
    assert forall|i: int| 0 <= i < entries.len() implies replaced(entries[i].0, '_', '-') == entries[i].0 by {
        let x = entries[i].0;
        assert forall|k: int| 0 <= k < x.len() implies x[k] != '_' by {
            if x[k] == '_' {
                assert(x.contains('_'));
            }
        }
        assert(replaced(x, '_', '-') =~= x);
    }
    assert(read_back(entries) =~= entries);
}
} // verus!
