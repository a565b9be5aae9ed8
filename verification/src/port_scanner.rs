//! The port scanner's logic: reading the list of ports to scan, and the figures of
//! the report. Connecting to the ports is left to the caller.
use vstd::prelude::*;

use crate::text::chars_of;
use crate::text::find_char_index;
use crate::text::pieces_from;
use crate::text::split_char;
use crate::text::split_on;

verus! {

/// Whether a port accepted a connection.
#[derive(Debug, Clone, Copy, PartialEq, Eq, Structural)]
pub struct PortStatus {
    pub port: u16,
    pub is_open: bool,
}

/// Why a port list was refused.
#[derive(Debug, Clone, Copy, PartialEq, Eq, Structural)]
pub enum PortParseError {
    InvalidNumber,
    InvalidRange,
}

/// An ASCII decimal digit.
pub open spec fn is_digit(c: char) -> bool {
    '0' <= c && c <= '9'
}

/// All characters are decimal digits.
pub open spec fn all_digits(s: Seq<char>) -> bool {
    forall|i: int| 0 <= i < s.len() ==> is_digit(s[i])
}

/// The number that the decimal digits `s` spell.
pub open spec fn digits_value(s: Seq<char>) -> int
    decreases s.len(),
{
    if s.len() == 0 {
        0
    } else {
        digits_value(s.drop_last()) * 10 + (s.last() as int - '0' as int)
    }
}

/// The digits of a number: what follows an optional leading `+`.
pub open spec fn unsigned_digits(s: Seq<char>) -> Seq<char> {
    if s.len() > 0 && s[0] == '+' {
        s.drop_first()
    } else {
        s
    }
}

/// `str::parse::<u16>`: an optional `+`, then at least one decimal digit, of value at
/// most 65535.
pub open spec fn spec_parse_u16(s: Seq<char>) -> Option<u16> {
    let d = unsigned_digits(s);
    if d.len() > 0 && all_digits(d) && digits_value(d) <= 65535 {
        Some(digits_value(d) as u16)
    } else {
        None
    }
}

/// One comma-separated item: a port, or a range `start-end` with `start <= end`,
/// as the inclusive range of ports it names.
pub open spec fn spec_parse_part(p: Seq<char>) -> Result<(u16, u16), PortParseError> {
    if p.contains('-') {
        let rp = split_on(p, '-');
        if rp.len() != 2 {
            Err(PortParseError::InvalidRange)
        } else {
            match (spec_parse_u16(rp[0]), spec_parse_u16(rp[1])) {
                (Some(a), Some(b)) => if a <= b {
                    Ok((a, b))
                } else {
                    Err(PortParseError::InvalidRange)
                },
                _ => Err(PortParseError::InvalidRange),
            }
        }
    } else {
        match spec_parse_u16(p) {
            Some(n) => Ok((n, n)),
            None => Err(PortParseError::InvalidNumber),
        }
    }
}

/// The error of the first item that is refused, if any.
pub open spec fn first_error(parts: Seq<Seq<char>>) -> Option<PortParseError>
    decreases parts.len(),
{
    if parts.len() == 0 {
        None
    } else {
        match spec_parse_part(parts[0]) {
            Err(e) => Some(e),
            Ok(_) => first_error(parts.drop_first()),
        }
    }
}

/// Port `p` is named by the item `part`.
pub open spec fn names_port(part: Seq<char>, p: int) -> bool {
    spec_parse_part(part) matches Ok((a, b)) && a <= p <= b
}

/// Port `p` is named by one of the items.
pub open spec fn listed(parts: Seq<Seq<char>>, p: int) -> bool {
    exists|i: int| 0 <= i < parts.len() && #[trigger] names_port(parts[i], p)
}

/// Each element is smaller than the next: sorted, nothing twice.
pub open spec fn strictly_increasing(v: Seq<u16>) -> bool {
    forall|i: int, j: int| 0 <= i < j < v.len() ==> v[i] < v[j]
}

/// A prefix of digits is worth no more than the whole.
proof fn lemma_digits_prefix(d: Seq<char>, k: int)
    requires
        all_digits(d),
        0 <= k <= d.len(),
    ensures
        0 <= digits_value(d.take(k)) <= digits_value(d),
    decreases d.len(),
{
    if k < d.len() {
        assert(d.drop_last().take(k) =~= d.take(k));
        lemma_digits_prefix(d.drop_last(), k);
    } else {
        assert(d.take(k) =~= d);
        lemma_digits_nonneg(d);
    }
}

proof fn lemma_digits_nonneg(d: Seq<char>)
    requires
        all_digits(d),
    ensures
        digits_value(d) >= 0,
    decreases d.len(),
{
    if d.len() > 0 {
        lemma_digits_nonneg(d.drop_last());
    }
}

/// `str::parse::<u16>`.
pub fn parse_u16(s: &str) -> (res: Option<u16>)
    ensures
        res == spec_parse_u16(s@),
{
    let cs = chars_of(s);
    let n = cs.len();
    let start: usize = if n > 0 && cs[0] == '+' {
        1
    } else {
        0
    };
    let ghost d = unsigned_digits(s@);
    assert(d =~= s@.skip(start as int));
    if start == n {
        return None;
    }
    let mut acc: u32 = 0;
    let mut i: usize = start;
    assert(d.take(0) =~= Seq::<char>::empty());
    while i < n
        invariant
            start <= i <= n,
            n == cs@.len(),
            cs@ == s@,
            d == s@.skip(start as int),
            d == unsigned_digits(s@),
            all_digits(d.take(i - start)),
            acc as int == digits_value(d.take(i - start)),
            acc <= 65535,
        decreases n - i,
    {
        let c = cs[i];
        let ghost k = i - start;
        assert(d[k] == c);
        if !('0' <= c && c <= '9') {
            assert(!all_digits(d));
            return None;
        }
        assert(d.take(k + 1).drop_last() =~= d.take(k));
        acc = acc * 10 + (c as u32 - '0' as u32);
        i = i + 1;
        assert(all_digits(d.take(i - start)));
        if acc > 65535 {
            proof {
                if all_digits(d) {
                    lemma_digits_prefix(d, i - start);
                }
            }
            return None;
        }
    }
    assert(d.take(n - start) =~= d);
    Some(acc as u16)
}

/// One comma-separated item of a port list.
pub fn parse_part(p: &str) -> (res: Result<(u16, u16), PortParseError>)
    ensures
        res == spec_parse_part(p@),
{
    let cs = chars_of(p);
    match find_char_index(&cs, '-') {
        Some(_) => {
            proof {
                crate::text::lemma_find_char_spec(p@, '-');
            }
            let rp = split_char(p, '-');
            if rp.len() != 2 {
                return Err(PortParseError::InvalidRange);
            }
            let a = parse_u16(rp[0].as_str());
            let b = parse_u16(rp[1].as_str());
            match (a, b) {
                (Some(a), Some(b)) => if a <= b {
                    Ok((a, b))
                } else {
                    Err(PortParseError::InvalidRange)
                },
                _ => Err(PortParseError::InvalidRange),
            }
        },
        None => {
            proof {
                crate::text::lemma_find_char_spec(p@, '-');
                assert(!p@.contains('-'));
            }
            match parse_u16(p) {
                Some(n) => Ok((n, n)),
                None => Err(PortParseError::InvalidNumber),
            }
        },
    }
}

/// Marks the ports `a..=b` in `seen`.
fn mark_range(seen: &mut Vec<bool>, a: u16, b: u16)
    requires
        old(seen)@.len() == 65536,
        a <= b,
    ensures
        final(seen)@.len() == 65536,
        forall|p: int| 0 <= p < 65536 ==> final(seen)@[p] == (old(seen)@[p] || (a <= p <= b)),
{
    let mut q: u32 = a as u32;
    while q <= b as u32
        invariant
            seen@.len() == 65536,
            a <= q <= b as u32 + 1,
            forall|p: int| 0 <= p < 65536 ==> seen@[p] == (old(seen)@[p] || (a <= p < q)),
        decreases b as u32 + 1 - q,
    {
        seen.set(q as usize, true);
        q = q + 1;
    }
}

/// Reads a comma-separated list of ports and inclusive ranges, such as
/// `"22,80,8000-8010"`. The result lists every port named, in increasing order,
/// each once. The first item that is not a port (`InvalidNumber`) or not a valid
/// range (`InvalidRange`) refuses the whole list.
pub fn parse_ports(input: &str) -> (res: Result<Vec<u16>, PortParseError>)
    ensures
        match first_error(split_on(input@, ',')) {
            Some(e) => res == Err::<Vec<u16>, PortParseError>(e),
            None => res is Ok,
        },
        res matches Ok(v) ==> {
            &&& strictly_increasing(v@)
            &&& forall|p: u16| v@.contains(p) <==> listed(split_on(input@, ','), p as int)
            &&& v@.len() > 0
        },
{
    let parts = split_char(input, ',');
    let ghost ps = parts.deep_view();
    let mut seen: Vec<bool> = Vec::new();
    let mut k: usize = 0;
    while k < 65536
        invariant
            k <= 65536,
            seen@.len() == k,
            forall|p: int| 0 <= p < k ==> !seen@[p],
        decreases 65536 - k,
    {
        seen.push(false);
        k = k + 1;
    }
    let n = parts.len();
    let mut i: usize = 0;
    assert(ps.skip(0) =~= ps);
    while i < n
        invariant
            n == ps.len(),
            ps == parts.deep_view(),
            ps == split_on(input@, ','),
            i <= n,
            seen@.len() == 65536,
            first_error(ps) == first_error(ps.skip(i as int)),
            forall|p: int| 0 <= p < 65536 ==> seen@[p] == listed(ps.take(i as int), p),
        decreases n - i,
    {
        assert(ps.skip(i as int)[0] == ps[i as int]);
        assert(ps.skip(i as int).drop_first() =~= ps.skip(i + 1));
        match parse_part(parts[i].as_str()) {
            Err(e) => {
                return Err(e);
            },
            Ok((a, b)) => {
                proof {
                    if a > b {
                        assert(false);
                    }
                }
                let ghost before = seen@;
                mark_range(&mut seen, a, b);
                assert(parts[i as int]@ == ps[i as int]);
                assert forall|p: int| 0 <= p < 65536 implies seen@[p] == listed(
                    ps.take(i + 1),
                    p,
                ) by {
                    let t = ps.take(i + 1);
                    let u = ps.take(i as int);
                    if listed(t, p) {
                        let w = choose|w: int| 0 <= w < t.len() && #[trigger] names_port(t[w], p);
                        if w < i {
                            assert(u[w] == t[w]);
                            assert(names_port(u[w], p));
                            assert(listed(u, p));
                        } else {
                            assert(t[w] == ps[i as int]);
                        }
                    }
                    if before[p] {
                        let w = choose|w: int| 0 <= w < u.len() && #[trigger] names_port(u[w], p);
                        assert(t[w] == u[w]);
                        assert(names_port(t[w], p));
                    }
                    if a <= p <= b {
                        assert(t[i as int] == ps[i as int]);
                        assert(names_port(t[i as int], p));
                    }
                }
            },
        }
        i = i + 1;
    }
    assert(ps.take(n as int) =~= ps);
    assert(ps.skip(n as int) =~= Seq::<Seq<char>>::empty());
    let mut out: Vec<u16> = Vec::new();
    let mut p: usize = 0;
    while p < 65536
        invariant
            p <= 65536,
            seen@.len() == 65536,
            strictly_increasing(out@),
            forall|j: int| 0 <= j < out@.len() ==> out@[j] < p,
            forall|x: u16| out@.contains(x) <==> (x < p && seen@[x as int]),
        decreases 65536 - p,
    {
        if seen[p] {
            let ghost before = out@;
            out.push(p as u16);
            assert forall|x: u16| out@.contains(x) <==> (x < p + 1 && seen@[x as int]) by {
                if x == p {
                    assert(out@[before.len() as int] == x);
                }
                if out@.contains(x) && x != p {
                    let j = choose|j: int| 0 <= j < out@.len() && out@[j] == x;
                    assert(before[j] == x);
                }
                if x < p && seen@[x as int] {
                    let j = choose|j: int| 0 <= j < before.len() && before[j] == x;
                    assert(out@[j] == x);
                }
            }
        } else {
            assert forall|x: u16| out@.contains(x) <==> (x < p + 1 && seen@[x as int]) by {}
        }
        p = p + 1;
    }
    proof {
        lemma_pieces_len(input@, ',', seq![]);
        if let Ok((a, b)) = spec_parse_part(ps[0]) {
            assert(names_port(ps[0], a as int));
            assert(listed(ps, a as int));
            assert(out@.contains(a));
        }
    }
    Ok(out)
}

/// The number of statuses that are open.
pub open spec fn open_count(s: Seq<PortStatus>) -> nat
    decreases s.len(),
{
    if s.len() == 0 {
        0
    } else {
        open_count(s.drop_last()) + if s.last().is_open {
            1nat
        } else {
            0nat
        }
    }
}

/// The open and closed counts of the report's summary.
pub fn count_statuses(statuses: &Vec<PortStatus>) -> (counts: (u64, u64))
    ensures
        counts.0 == open_count(statuses@),
        counts.0 + counts.1 == statuses@.len(),
        counts.0 == statuses@.filter(|x: PortStatus| x.is_open).len(),
        counts.1 == statuses@.filter(|x: PortStatus| !x.is_open).len(),
{
    let n = statuses.len();
    let mut open: u64 = 0;
    let mut closed: u64 = 0;
    let mut i: usize = 0;
    assert(statuses@.take(0) =~= Seq::<PortStatus>::empty());
    while i < n
        invariant
            n == statuses@.len(),
            i <= n,
            open == open_count(statuses@.take(i as int)),
            open + closed == i,
        decreases n - i,
    {
        assert(statuses@.take(i + 1).drop_last() =~= statuses@.take(i as int));
        if statuses[i].is_open {
            open = open + 1;
        } else {
            closed = closed + 1;
        }
        i = i + 1;
    }
    assert(statuses@.take(n as int) =~= statuses@);
    proof {
        lemma_open_count_filter(statuses@);
    }
    (open, closed)
}

/// The label that the report shows for a port.
pub fn status_label(is_open: bool) -> (label: &'static str)
    ensures
        is_open ==> label@ == "OPEN"@,
        !is_open ==> label@ == "CLOSED"@,
{
    if is_open {
        "OPEN"
    } else {
        "CLOSED"
    }
}

/// The decimal digit character of `d`.
pub open spec fn digit_char(d: int) -> char {
    if d == 0 {
        '0'
    } else if d == 1 {
        '1'
    } else if d == 2 {
        '2'
    } else if d == 3 {
        '3'
    } else if d == 4 {
        '4'
    } else if d == 5 {
        '5'
    } else if d == 6 {
        '6'
    } else if d == 7 {
        '7'
    } else if d == 8 {
        '8'
    } else {
        '9'
    }
}

/// The decimal representation of `n`, without leading zeros.
pub open spec fn decimal(n: nat) -> Seq<char>
    decreases n,
{
    if n < 10 {
        seq![digit_char(n as int)]
    } else {
        decimal(n / 10).push(digit_char((n % 10) as int))
    }
}

/// The one-character string of a decimal digit.
fn digit_str(d: u16) -> (s: &'static str)
    requires
        d < 10,
    ensures
        s@ == seq![digit_char(d as int)],
{
    proof {
        reveal_strlit("0");
        reveal_strlit("1");
        reveal_strlit("2");
        reveal_strlit("3");
        reveal_strlit("4");
        reveal_strlit("5");
        reveal_strlit("6");
        reveal_strlit("7");
        reveal_strlit("8");
        reveal_strlit("9");
    }
    if d == 0 {
        "0"
    } else if d == 1 {
        "1"
    } else if d == 2 {
        "2"
    } else if d == 3 {
        "3"
    } else if d == 4 {
        "4"
    } else if d == 5 {
        "5"
    } else if d == 6 {
        "6"
    } else if d == 7 {
        "7"
    } else if d == 8 {
        "8"
    } else {
        "9"
    }
}

/// `n` written in decimal.
pub fn decimal_string(n: u16) -> (s: String)
    ensures
        s@ == decimal(n as nat),
    decreases n,
{
    if n < 10 {
        digit_str(n).to_owned()
    } else {
        let mut s = decimal_string(n / 10);
        s.append(digit_str(n % 10));
        s
    }
}

/// The address to connect to for a port: `host:port`.
pub fn scan_target(host: &str, port: u16) -> (target: String)
    ensures
        target@ == host@ + seq![':'] + decimal(port as nat),
{
    proof {
        reveal_strlit(":");
    }
    let mut t = host.to_owned();
    t.append(":");
    let d = decimal_string(port);
    t.append(d.as_str());
    t
}

/// The width of the port column: the number of digits of the largest port.
pub fn port_column_width(ports: &Vec<u16>) -> (width: usize)
    requires
        ports@.len() > 0,
    ensures
        exists|i: int|
            0 <= i < ports@.len() && (forall|j: int| 0 <= j < ports@.len() ==> ports@[j] <= ports@[i])
                && width == decimal(ports@[i] as nat).len(),
{
    let n = ports.len();
    let mut best: usize = 0;
    let mut i: usize = 1;
    while i < n
        invariant
            n == ports@.len(),
            1 <= i <= n,
            best < i,
            forall|j: int| 0 <= j < i ==> ports@[j] <= ports@[best as int],
        decreases n - i,
    {
        if ports[i] > ports[best] {
            best = i;
        }
        i = i + 1;
    }
    let s = decimal_string(ports[best]);
    s.unicode_len()
}


/// Splitting always yields at least one piece.
pub proof fn lemma_pieces_len(s: Seq<char>, sep: char, cur: Seq<char>)
    ensures
        pieces_from(s, sep, cur).len() >= 1,
    decreases s.len(),
{
    if s.len() > 0 {
        if s[0] == sep {
            lemma_pieces_len(s.drop_first(), sep, seq![]);
        } else {
            lemma_pieces_len(s.drop_first(), sep, cur.push(s[0]));
        }
    }
}

/// Text, a separator, and more text: the pieces of the first part, then those of the
/// second.
proof fn lemma_pieces_concat(x: Seq<char>, b: Seq<char>, sep: char, cur: Seq<char>)
    ensures
        pieces_from(x + seq![sep] + b, sep, cur) == pieces_from(x, sep, cur) + pieces_from(
            b,
            sep,
            seq![],
        ),
    decreases x.len(),
{
    let t = x + seq![sep] + b;
    if x.len() == 0 {
        assert(t[0] == sep);
        assert(t.drop_first() =~= b);
    } else {
        assert(t[0] == x[0]);
        assert(t.drop_first() =~= x.drop_first() + seq![sep] + b);
        if x[0] == sep {
            lemma_pieces_concat(x.drop_first(), b, sep, seq![]);
            assert(seq![cur] + (pieces_from(x.drop_first(), sep, seq![]) + pieces_from(
                b,
                sep,
                seq![],
            )) =~= (seq![cur] + pieces_from(x.drop_first(), sep, seq![])) + pieces_from(
                b,
                sep,
                seq![],
            ));
        } else {
            lemma_pieces_concat(x.drop_first(), b, sep, cur.push(x[0]));
        }
    }
}

/// Text without the separator is a single piece.
proof fn lemma_pieces_single(w: Seq<char>, sep: char, cur: Seq<char>)
    requires
        !w.contains(sep),
    ensures
        pieces_from(w, sep, cur) == seq![cur + w],
    decreases w.len(),
{
    if w.len() == 0 {
        assert(cur + w =~= cur);
    } else {
        assert(w[0] != sep);
        assert(!w.drop_first().contains(sep)) by {
            if w.drop_first().contains(sep) {
                let i = choose|i: int| 0 <= i < w.drop_first().len() && w.drop_first()[i] == sep;
                assert(w[i + 1] == sep);
            }
        }
        lemma_pieces_single(w.drop_first(), sep, cur.push(w[0]));
        assert(cur.push(w[0]) + w.drop_first() =~= cur + w);
    }
}

/// Lists without a bad item put one after the other have no bad item.
proof fn lemma_first_error_concat(p1: Seq<Seq<char>>, p2: Seq<Seq<char>>)
    requires
        first_error(p1) is None,
        first_error(p2) is None,
    ensures
        first_error(p1 + p2) is None,
    decreases p1.len(),
{
    if p1.len() == 0 {
        assert(p1 + p2 =~= p2);
    } else {
        assert((p1 + p2)[0] == p1[0]);
        assert((p1 + p2).drop_first() =~= p1.drop_first() + p2);
        lemma_first_error_concat(p1.drop_first(), p2);
    }
}

/// Two port lists joined by a comma name the ports of either list, and the joined
/// list is refused by neither item when neither list is.
pub proof fn lemma_ports_concat(a: Seq<char>, b: Seq<char>)
    requires
        first_error(split_on(a, ',')) is None,
        first_error(split_on(b, ',')) is None,
    ensures
        first_error(split_on(a + seq![','] + b, ',')) is None,
        forall|p: int|
            listed(split_on(a + seq![','] + b, ','), p) <==> (listed(split_on(a, ','), p) || listed(
                split_on(b, ','),
                p,
            )),
{
    let p1 = split_on(a, ',');
    let p2 = split_on(b, ',');
    lemma_pieces_concat(a, b, ',', seq![]);
    let ps = p1 + p2;
    assert(split_on(a + seq![','] + b, ',') == ps);
    lemma_first_error_concat(p1, p2);
    assert forall|p: int| listed(ps, p) <==> (listed(p1, p) || listed(p2, p)) by {
        if listed(ps, p) {
            let i = choose|i: int| 0 <= i < ps.len() && #[trigger] names_port(ps[i], p);
            if i < p1.len() {
                assert(ps[i] == p1[i]);
                assert(names_port(p1[i], p));
            } else {
                assert(ps[i] == p2[i - p1.len()]);
                assert(names_port(p2[i - p1.len()], p));
            }
        }
        if listed(p1, p) {
            let i = choose|i: int| 0 <= i < p1.len() && #[trigger] names_port(p1[i], p);
            assert(ps[i] == p1[i]);
            assert(names_port(ps[i], p));
        }
        if listed(p2, p) {
            let i = choose|i: int| 0 <= i < p2.len() && #[trigger] names_port(p2[i], p);
            assert(ps[i + p1.len()] == p2[i]);
            assert(names_port(ps[i + p1.len()], p));
        }
    }
}

/// A sorted list without repeats is determined by the ports it holds.
pub proof fn lemma_sorted_unique(v: Seq<u16>, w: Seq<u16>)
    requires
        strictly_increasing(v),
        strictly_increasing(w),
        forall|p: u16| v.contains(p) <==> w.contains(p),
    ensures
        v == w,
    decreases v.len(),
{
    if v.len() == 0 {
        if w.len() > 0 {
            assert(w.contains(w[0]));
        }
        assert(v =~= w);
    } else {
        assert(v.contains(v[0]));
        assert(w.len() > 0);
        assert(w.contains(w[0]));
        let i = choose|i: int| 0 <= i < w.len() && w[i] == v[0];
        let j = choose|j: int| 0 <= j < v.len() && v[j] == w[0];
        if i > 0 {
            assert(w[0] < w[i]);
            assert(v[j] < v[0] || j == 0);
        }
        assert(v[0] == w[0]);
        let v2 = v.drop_first();
        let w2 = w.drop_first();
        assert forall|p: u16| v2.contains(p) <==> w2.contains(p) by {
            if v2.contains(p) {
                let k = choose|k: int| 0 <= k < v2.len() && v2[k] == p;
                assert(v[k + 1] == p);
                assert(v.contains(p));
                let m = choose|m: int| 0 <= m < w.len() && w[m] == p;
                assert(m != 0);
                assert(w2[m - 1] == p);
            }
            if w2.contains(p) {
                let k = choose|k: int| 0 <= k < w2.len() && w2[k] == p;
                assert(w[k + 1] == p);
                assert(w.contains(p));
                let m = choose|m: int| 0 <= m < v.len() && v[m] == p;
                assert(m != 0);
                assert(v2[m - 1] == p);
            }
        }
        lemma_sorted_unique(v2, w2);
        assert(v =~= seq![v[0]] + v2);
        assert(w =~= seq![w[0]] + w2);
    }
}

/// Words joined with commas between them.
pub open spec fn join_commas(ws: Seq<Seq<char>>) -> Seq<char>
    decreases ws.len(),
{
    if ws.len() == 0 {
        seq![]
    } else if ws.len() == 1 {
        ws[0]
    } else {
        join_commas(ws.drop_last()) + seq![','] + ws.last()
    }
}

/// A list of ports written out in decimal, separated by commas.
pub open spec fn port_list_text(v: Seq<u16>) -> Seq<char> {
    join_commas(v.map_values(|p: u16| decimal(p as nat)))
}

/// The decimal form of a number is non-empty, all digits, and worth the number.
pub proof fn lemma_decimal(n: nat)
    ensures
        decimal(n).len() > 0,
        all_digits(decimal(n)),
        digits_value(decimal(n)) == n,
    decreases n,
{
    let d = decimal(n);
    lemma_digit_char((n % 10) as int);
    if n < 10 {
        lemma_digit_char(n as int);
        assert(d.drop_last() =~= Seq::<char>::empty());
        assert(digits_value(d) == digits_value(d.drop_last()) * 10 + (d.last() as int - '0' as int));
    } else {
        lemma_decimal(n / 10);
        assert(d.drop_last() =~= decimal(n / 10));
        assert(d.last() == digit_char((n % 10) as int));
        vstd::arithmetic::div_mod::lemma_fundamental_div_mod(n as int, 10);
        assert(digits_value(d) == digits_value(d.drop_last()) * 10 + (d.last() as int - '0' as int));
        assert(all_digits(d)) by {
            assert forall|i: int| 0 <= i < d.len() implies is_digit(d[i]) by {
                if i < d.len() - 1 {
                    assert(d[i] == decimal(n / 10)[i]);
                }
            }
        }
    }
}

/// The digit character of a digit is worth the digit.
proof fn lemma_digit_char(k: int)
    requires
        0 <= k < 10,
    ensures
        is_digit(digit_char(k)),
        digit_char(k) as int - '0' as int == k,
{
}

/// Splitting words without commas, joined with commas, gives the words back.
proof fn lemma_split_join(ws: Seq<Seq<char>>)
    requires
        ws.len() > 0,
        forall|i: int| 0 <= i < ws.len() ==> !(#[trigger] ws[i]).contains(','),
    ensures
        split_on(join_commas(ws), ',') == ws,
    decreases ws.len(),
{
    if ws.len() == 1 {
        lemma_pieces_single(ws[0], ',', seq![]);
        assert(Seq::<char>::empty() + ws[0] =~= ws[0]);
        assert(ws =~= seq![ws[0]]);
    } else {
        let init = ws.drop_last();
        assert forall|i: int| 0 <= i < init.len() implies !(#[trigger] init[i]).contains(',') by {
            assert(init[i] == ws[i]);
        }
        lemma_split_join(init);
        lemma_pieces_concat(join_commas(init), ws.last(), ',', seq![]);
        assert(!ws[ws.len() - 1].contains(','));
        lemma_pieces_single(ws.last(), ',', seq![]);
        assert(Seq::<char>::empty() + ws.last() =~= ws.last());
        assert(init + seq![ws.last()] =~= ws);
    }
}

/// Every item of a list written out by [`port_list_text`] names just its port.
proof fn lemma_decimal_part(p: u16)
    ensures
        spec_parse_part(decimal(p as nat)) == Ok::<(u16, u16), PortParseError>((p, p)),
        spec_parse_u16(decimal(p as nat)) == Some(p),
        !decimal(p as nat).contains(','),
        !decimal(p as nat).contains('-'),
{
    let d = decimal(p as nat);
    lemma_decimal(p as nat);
    assert(!d.contains('-') && !d.contains(',')) by {
        if d.contains('-') {
            let i = choose|i: int| 0 <= i < d.len() && d[i] == '-';
            assert(is_digit(d[i]));
        }
        if d.contains(',') {
            let i = choose|i: int| 0 <= i < d.len() && d[i] == ',';
            assert(is_digit(d[i]));
        }
    }
    assert(is_digit(d[0]));
    assert(unsigned_digits(d) == d);
}

proof fn lemma_no_error_all_ok(ws: Seq<Seq<char>>)
    requires
        forall|i: int| 0 <= i < ws.len() ==> (#[trigger] spec_parse_part(ws[i])) is Ok,
    ensures
        first_error(ws) is None,
    decreases ws.len(),
{
    if ws.len() > 0 {
        assert(spec_parse_part(ws[0]) is Ok);
        assert forall|i: int| 0 <= i < ws.drop_first().len() implies (#[trigger] spec_parse_part(
            ws.drop_first()[i],
        )) is Ok by {
            assert(ws.drop_first()[i] == ws[i + 1]);
        }
        lemma_no_error_all_ok(ws.drop_first());
    }
}

/// Writing a sorted list of ports out in decimal, separated by commas, and reading it
/// back gives the same list: the text is accepted, and the only sorted list without
/// repeats of the ports that it names is the list itself.
pub proof fn lemma_print_then_parse(v: Seq<u16>)
    requires
        v.len() > 0,
        strictly_increasing(v),
    ensures
        first_error(split_on(port_list_text(v), ',')) is None,
        forall|w: Seq<u16>|
            strictly_increasing(w) && (forall|p: u16|
                w.contains(p) <==> listed(split_on(port_list_text(v), ','), p as int)) ==> w == v,
{
    let ws = v.map_values(|p: u16| decimal(p as nat));
    assert forall|i: int| 0 <= i < ws.len() implies !(#[trigger] ws[i]).contains(',') by {
        lemma_decimal_part(v[i]);
    }
    lemma_split_join(ws);
    let ps = split_on(port_list_text(v), ',');
    assert(ps == ws);
    assert forall|i: int| 0 <= i < ws.len() implies (#[trigger] spec_parse_part(ws[i])) is Ok by {
        lemma_decimal_part(v[i]);
    }
    lemma_no_error_all_ok(ws);
    assert forall|p: u16| v.contains(p) <==> listed(ps, p as int) by {
        if v.contains(p) {
            let i = choose|i: int| 0 <= i < v.len() && v[i] == p;
            lemma_decimal_part(v[i]);
            assert(names_port(ps[i], p as int));
        }
        if listed(ps, p as int) {
            let i = choose|i: int| 0 <= i < ps.len() && #[trigger] names_port(ps[i], p as int);
            lemma_decimal_part(v[i]);
            assert(v[i] == p);
        }
    }
    assert forall|w: Seq<u16>|
        strictly_increasing(w) && (forall|p: u16|
            w.contains(p) <==> listed(ps, p as int)) implies w == v by {
        lemma_sorted_unique(v, w);
    }
}


/// The open count is the number of statuses that are open, and the rest are the
/// statuses that are closed.
pub proof fn lemma_open_count_filter(s: Seq<PortStatus>)
    ensures
        open_count(s) == s.filter(|x: PortStatus| x.is_open).len(),
        s.len() - open_count(s) == s.filter(|x: PortStatus| !x.is_open).len(),
    decreases s.len(),
{
    reveal(Seq::filter);
    if s.len() > 0 {
        lemma_open_count_filter(s.drop_last());
    }
}

/// Counting is additive: the open statuses of two lists put together are those of the
/// first and those of the second.
pub proof fn lemma_open_count_concat(s1: Seq<PortStatus>, s2: Seq<PortStatus>)
    ensures
        open_count(s1 + s2) == open_count(s1) + open_count(s2),
    decreases s2.len(),
{
    if s2.len() == 0 {
        assert(s1 + s2 =~= s1);
    } else {
        lemma_open_count_concat(s1, s2.drop_last());
        assert((s1 + s2).drop_last() =~= s1 + s2.drop_last());
        assert((s1 + s2).last() == s2.last());
    }
}

/// One status counts as open exactly when it is open.
pub proof fn lemma_open_count_single(x: PortStatus)
    ensures
        open_count(seq![x]) == if x.is_open {
            1nat
        } else {
            0nat
        },
{
    assert(seq![x].drop_last() =~= Seq::<PortStatus>::empty());
    assert(open_count(Seq::<PortStatus>::empty()) == 0);
    assert(seq![x].last() == x);
}

/// A number written in decimal, with or without a leading `+`, reads as the number.
pub proof fn lemma_parse_u16_decimal(n: u16)
    ensures
        spec_parse_u16(decimal(n as nat)) == Some(n),
        spec_parse_u16(seq!['+'] + decimal(n as nat)) == Some(n),
{
    lemma_decimal_part(n);
    let t = seq!['+'] + decimal(n as nat);
    assert(t[0] == '+');
    assert(t.drop_first() =~= decimal(n as nat));
    assert(unsigned_digits(t) == decimal(n as nat));
    lemma_decimal(n as nat);
    assert(digits_value(unsigned_digits(t)) == n);
    assert(all_digits(unsigned_digits(t)));
}

/// A single port written in decimal is an item naming just that port.
pub proof fn lemma_single_item(n: u16)
    ensures
        spec_parse_part(decimal(n as nat)) == Ok::<(u16, u16), PortParseError>((n, n)),
        forall|p: int| names_port(decimal(n as nat), p) <==> p == n,
{
    lemma_decimal_part(n);
}

/// A range `a-b` of two ports written in decimal is accepted exactly when `a <= b`,
/// numerically, and then names exactly the ports from `a` to `b`; otherwise it is an
/// invalid range.
pub proof fn lemma_range_item(a: u16, b: u16)
    ensures
        spec_parse_part(decimal(a as nat) + seq!['-'] + decimal(b as nat)) == if a <= b {
            Ok::<(u16, u16), PortParseError>((a, b))
        } else {
            Err(PortParseError::InvalidRange)
        },
        forall|p: int|
            names_port(decimal(a as nat) + seq!['-'] + decimal(b as nat), p) <==> a <= p <= b,
{
    let da = decimal(a as nat);
    let db = decimal(b as nat);
    let t = da + seq!['-'] + db;
    lemma_decimal_part(a);
    lemma_decimal_part(b);
    assert(t[da.len() as int] == '-');
    assert(t.contains('-'));
    lemma_pieces_concat(da, db, '-', seq![]);
    lemma_pieces_single(da, '-', seq![]);
    lemma_pieces_single(db, '-', seq![]);
    assert(Seq::<char>::empty() + da =~= da);
    assert(Seq::<char>::empty() + db =~= db);
    assert(split_on(t, '-') =~= seq![da, db]);
}

} // verus!
