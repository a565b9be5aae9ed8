//! What holds across the request functions: the request sent to the backend parses
//! back into the request it was made from, parsed headers behave as a map, and no
//! hop-by-hop header is forwarded.
use vstd::prelude::*;
use vstd::utf8::decode_utf8;
use vstd::utf8::encode_scalar;
use vstd::utf8::encode_utf8;
use vstd::utf8::valid_utf8;

use crate::text::ascii_fold;
use crate::text::eq_ignore_ascii_case;
use crate::text::ends_with_crlf;
use crate::text::find_char;
use crate::text::has_blank;
use crate::text::has_crlf;
use crate::text::lemma_blank_gives_empty_line;
use crate::text::lemma_lines_from_concat;
use crate::text::is_ws;
use crate::text::lemma_find_char_at;
use crate::text::lemma_find_char_none;
use crate::text::lemma_lines_from_line;
use crate::text::lemma_split_ws_three;
use crate::text::lemma_trim_space_prefix;
use crate::text::lines_from;
use crate::text::no_ws;
use crate::text::split_crlf;
use crate::text::split_ws;
use crate::text::trim;

use super::error::ErrorView;
use super::http::backend_head;
use super::http::forwarded_headers;
use super::http::header_block;
use super::http::header_line;
use super::http::insert_header;
use super::http::is_hop_by_hop;
use super::http::method_name;
use super::http::request_line_text;
use super::http::spec_header_line;
use super::http::spec_headers;
use super::http::spec_method;
use super::http::find_blank;
use super::http::blank_at;
use super::http::spec_parse_head;
use super::http::spec_parse_valid;
use super::http::split_head;
use super::http::spec_request_line;
use super::http::spec_version;
use super::http::split_target;
use super::http::target_text;
use super::http::unique_names;
use super::http::version_token;
use super::http::HeaderView;
use super::http::HttpMethod;
use super::http::HttpVersion;
use super::http::RequestView;

verus! {

/// Reading the token of a version gives the version back.
pub proof fn lemma_version_round_trip(v: HttpVersion)
    ensures
        spec_version(version_token(v)) == Ok::<HttpVersion, ErrorView>(v),
        version_token(v).len() > 0,
        no_ws(version_token(v)),
{
    reveal_strlit("HTTP/0.9");
    reveal_strlit("HTTP/1.0");
    reveal_strlit("HTTP/1.1");
    reveal_strlit("HTTP/2");
    reveal_strlit("HTTP/3");
    assert("HTTP/0.9"@[5] != "HTTP/1.0"@[5]);
    assert("HTTP/0.9"@[5] != "HTTP/1.1"@[5]);
    assert("HTTP/0.9"@.len() != "HTTP/2"@.len());
    assert("HTTP/0.9"@.len() != "HTTP/3"@.len());
    assert("HTTP/1.0"@[7] != "HTTP/1.1"@[7]);
    assert("HTTP/1.0"@.len() != "HTTP/2"@.len());
    assert("HTTP/1.0"@.len() != "HTTP/3"@.len());
    assert("HTTP/1.1"@.len() != "HTTP/2"@.len());
    assert("HTTP/1.1"@.len() != "HTTP/3"@.len());
    assert("HTTP/2"@[5] != "HTTP/3"@[5]);
    let t = version_token(v);
    assert forall|i: int| 0 <= i < t.len() implies !is_ws(t[i]) by {}
}

/// Reading the name of a method gives the method back.
pub proof fn lemma_method_round_trip(m: HttpMethod)
    ensures
        spec_method(method_name(m)) == Ok::<HttpMethod, ErrorView>(m),
        method_name(m).len() > 0,
        no_ws(method_name(m)),
{
    reveal_strlit("GET");
    reveal_strlit("POST");
    reveal_strlit("PUT");
    reveal_strlit("PATCH");
    reveal_strlit("DELETE");
    reveal_strlit("HEAD");
    reveal_strlit("OPTIONS");
    reveal_strlit("TRACE");
    reveal_strlit("CONNECT");
    reveal_strlit("get");
    reveal_strlit("post");
    reveal_strlit("put");
    reveal_strlit("patch");
    reveal_strlit("delete");
    reveal_strlit("head");
    reveal_strlit("options");
    reveal_strlit("trace");
    reveal_strlit("connect");
    let t = method_name(m);
    match m {
        HttpMethod::GET => {
            let l = "get"@;
            assert forall|i: int| 0 <= i < t.len() implies ascii_fold(t[i]) == ascii_fold(l[i]) by {
                assert(i == 0 || i == 1 || i == 2);
            }
        },
        HttpMethod::POST => {
            let l = "post"@;
            assert forall|i: int| 0 <= i < t.len() implies ascii_fold(t[i]) == ascii_fold(l[i]) by {
                assert(i == 0 || i == 1 || i == 2 || i == 3);
            }
        },
        HttpMethod::PUT => {
            let l = "put"@;
            assert forall|i: int| 0 <= i < t.len() implies ascii_fold(t[i]) == ascii_fold(l[i]) by {
                assert(i == 0 || i == 1 || i == 2);
            }
            assert(ascii_fold(t[0]) != ascii_fold("get"@[0]));
        },
        HttpMethod::PATCH => {
            let l = "patch"@;
            assert forall|i: int| 0 <= i < t.len() implies ascii_fold(t[i]) == ascii_fold(l[i]) by {
                assert(i == 0 || i == 1 || i == 2 || i == 3 || i == 4);
            }
        },
        HttpMethod::DELETE => {
            let l = "delete"@;
            assert forall|i: int| 0 <= i < t.len() implies ascii_fold(t[i]) == ascii_fold(l[i]) by {
                assert(i == 0 || i == 1 || i == 2 || i == 3 || i == 4 || i == 5);
            }
        },
        HttpMethod::HEAD => {
            let l = "head"@;
            assert forall|i: int| 0 <= i < t.len() implies ascii_fold(t[i]) == ascii_fold(l[i]) by {
                assert(i == 0 || i == 1 || i == 2 || i == 3);
            }
            assert(ascii_fold(t[0]) != ascii_fold("post"@[0]));
        },
        HttpMethod::OPTIONS => {
            let l = "options"@;
            assert forall|i: int| 0 <= i < t.len() implies ascii_fold(t[i]) == ascii_fold(l[i]) by {
                assert(i == 0 || i == 1 || i == 2 || i == 3 || i == 4 || i == 5 || i == 6);
            }
        },
        HttpMethod::TRACE => {
            let l = "trace"@;
            assert forall|i: int| 0 <= i < t.len() implies ascii_fold(t[i]) == ascii_fold(l[i]) by {
                assert(i == 0 || i == 1 || i == 2 || i == 3 || i == 4);
            }
            assert(ascii_fold(t[0]) != ascii_fold("patch"@[0]));
        },
        HttpMethod::CONNECT => {
            let l = "connect"@;
            assert forall|i: int| 0 <= i < t.len() implies ascii_fold(t[i]) == ascii_fold(l[i]) by {
                assert(i == 0 || i == 1 || i == 2 || i == 3 || i == 4 || i == 5 || i == 6);
            }
            assert(ascii_fold(t[0]) != ascii_fold("options"@[0]));
        },
    }
    assert forall|i: int| 0 <= i < t.len() implies !is_ws(t[i]) by {}
}

/// A header that can be written on one line and read back unchanged: its name has
/// no `:`, neither name nor value has surrounding whitespace or a line end.
pub open spec fn sendable_header(h: HeaderView) -> bool {
    &&& !h.0.contains(':')
    &&& trim(h.0) == h.0
    &&& trim(h.1) == h.1
    &&& !has_crlf(h.0)
    &&& !has_crlf(h.1)
}

/// A request whose head can be written and read back unchanged: a path without
/// whitespace or `?`, a query without whitespace, a non-empty target, and forwarded
/// headers that are sendable, each name once.
pub open spec fn sendable_request(r: RequestView) -> bool {
    &&& no_ws(r.path)
    &&& !r.path.contains('?')
    &&& match r.query {
        Some(q) => no_ws(q),
        None => r.path.len() > 0,
    }
    &&& forall|i: int|
        0 <= i < forwarded_headers(r.headers).len() ==> #[trigger] sendable_header(
            forwarded_headers(r.headers)[i],
        )
    &&& unique_names(forwarded_headers(r.headers))
}

/// A header line without its line end.
pub open spec fn header_text(h: HeaderView) -> Seq<char> {
    h.0 + seq![':', ' '] + h.1
}

/// The header lines of `hs` without their line ends.
pub open spec fn header_texts(hs: Seq<HeaderView>) -> Seq<Seq<char>> {
    hs.map_values(|h: HeaderView| header_text(h))
}

/// A sendable header's text holds no line end.
proof fn lemma_header_text_no_crlf(h: HeaderView)
    requires
        sendable_header(h),
    ensures
        !has_crlf(header_text(h)),
{
    let t = header_text(h);
    let k = h.0;
    let v = h.1;
    if has_crlf(t) {
        let i = choose|i: int| #![trigger t[i]] 0 <= i < t.len() - 1 && t[i] == '\r' && t[i + 1] == '\n';
        if i + 1 < k.len() {
            assert(k[i] == t[i] && k[i + 1] == t[i + 1]);
            assert(has_crlf(k));
        } else if i + 1 == k.len() {
            assert(t[i + 1] == ':');
        } else if i == k.len() {
            assert(t[i] == ':');
        } else if i == k.len() + 1 {
            assert(t[i] == ' ');
        } else {
            let j = i - k.len() - 2;
            assert(v[j] == t[i] && v[j + 1] == t[i + 1]);
            assert(has_crlf(v));
        }
    }
}

/// A sendable header's text reads back as the header.
proof fn lemma_header_text_parses(h: HeaderView)
    requires
        sendable_header(h),
    ensures
        spec_header_line(header_text(h)) == Ok::<HeaderView, ErrorView>(h),
        header_text(h).len() > 0,
{
    let t = header_text(h);
    let k = h.0;
    let n = k.len() as int;
    assert(t[n] == ':');
    assert forall|j: int| 0 <= j < n implies t[j] != ':' by {
        assert(t[j] == k[j]);
    }
    lemma_find_char_at(t, ':', n);
    assert(t.take(n) =~= k);
    assert(t.skip(n + 1) =~= seq![' '] + h.1);
    lemma_trim_space_prefix(h.1);
}

/// The lines of a header block followed by more text.
proof fn lemma_split_header_block(hs: Seq<HeaderView>, s: Seq<char>)
    requires
        forall|i: int| 0 <= i < hs.len() ==> #[trigger] sendable_header(hs[i]),
    ensures
        split_crlf(header_block(hs) + s) == header_texts(hs) + split_crlf(s),
    decreases hs.len(),
{
    if hs.len() == 0 {
        assert(header_block(hs) + s =~= s);
        assert(header_texts(hs) + split_crlf(s) =~= split_crlf(s));
    } else {
        let h = hs.last();
        let init = hs.drop_last();
        assert(sendable_header(hs[hs.len() - 1]));
        assert forall|i: int| 0 <= i < init.len() implies #[trigger] sendable_header(init[i]) by {
            assert(sendable_header(hs[i]));
        }
        let s2 = header_text(h) + seq!['\r', '\n'] + s;
        assert(header_block(hs) + s =~= header_block(init) + s2);
        lemma_split_header_block(init, s2);
        lemma_header_text_no_crlf(h);
        lemma_lines_from_line(header_text(h), s, seq![]);
        assert(Seq::<char>::empty() + header_text(h) =~= header_text(h));
        assert(header_texts(hs) =~= header_texts(init).push(header_text(h)));
        assert(header_texts(init) + (seq![header_text(h)] + split_crlf(s)) =~= header_texts(hs)
            + split_crlf(s));
    }
}

/// Setting a header whose name is new adds it at the end.
proof fn lemma_insert_new(hs: Seq<HeaderView>, k: Seq<char>, v: Seq<char>)
    requires
        forall|j: int| 0 <= j < hs.len() ==> hs[j].0 != k,
    ensures
        insert_header(hs, k, v) == hs.push((k, v)),
    decreases hs.len(),
{
    if hs.len() > 0 {
        lemma_insert_new(hs.drop_first(), k, v);
        assert(insert_header(hs, k, v) =~= hs.push((k, v)));
    } else {
        assert(insert_header(hs, k, v) =~= hs.push((k, v)));
    }
}

/// Reading the header lines of distinct sendable headers collects exactly them.
proof fn lemma_read_header_texts(
    hs: Seq<HeaderView>,
    tail: Seq<Seq<char>>,
    acc: Seq<HeaderView>,
)
    requires
        forall|i: int| 0 <= i < hs.len() ==> #[trigger] sendable_header(hs[i]),
        unique_names(acc + hs),
    ensures
        spec_headers(header_texts(hs) + tail, acc) == spec_headers(tail, acc + hs),
    decreases hs.len(),
{
    if hs.len() == 0 {
        assert(header_texts(hs) + tail =~= tail);
        assert(acc + hs =~= acc);
    } else {
        let h = hs[0];
        let lines = header_texts(hs) + tail;
        assert(sendable_header(hs[0]));
        lemma_header_text_parses(h);
        assert(lines[0] == header_text(h));
        let all = acc + hs;
        assert forall|j: int| 0 <= j < acc.len() implies acc[j].0 != h.0 by {
            assert(all[j] == acc[j]);
            assert(all[acc.len() as int] == h);
        }
        lemma_insert_new(acc, h.0, h.1);
        let rest = hs.drop_first();
        assert forall|i: int| 0 <= i < rest.len() implies #[trigger] sendable_header(rest[i]) by {
            assert(sendable_header(hs[i + 1]));
        }
        assert(acc.push(h) + rest =~= all);
        assert(lines.drop_first() =~= header_texts(rest) + tail);
        lemma_read_header_texts(rest, tail, acc.push(h));
    }
}

/// Text in which no character is a carriage return holds no line end.
proof fn lemma_no_cr_no_crlf(s: Seq<char>)
    requires
        forall|i: int| 0 <= i < s.len() ==> s[i] != '\r',
    ensures
        !has_crlf(s),
{
    if has_crlf(s) {
        let i = choose|i: int| #![trigger s[i]] 0 <= i < s.len() - 1 && s[i] == '\r' && s[i + 1] == '\n';
        assert(s[i] != '\r');
    }
}

/// The request line reads back as the method, path, query and version it was made of.
proof fn lemma_request_line_round_trip(r: RequestView)
    requires
        sendable_request(r),
    ensures
        spec_request_line(request_line_text(r)) == Ok::<_, ErrorView>(
            (r.method, r.path, r.query, r.version),
        ),
        !has_crlf(request_line_text(r)),
{
    let m = method_name(r.method);
    let v = version_token(r.version);
    let t = target_text(r.path, r.query);
    lemma_method_round_trip(r.method);
    lemma_version_round_trip(r.version);
    assert(no_ws(t)) by {
        match r.query {
            Some(q) => {
                assert forall|i: int| 0 <= i < t.len() implies !is_ws(t[i]) by {
                    if i < r.path.len() {
                        assert(t[i] == r.path[i]);
                    } else if i > r.path.len() {
                        assert(t[i] == q[i - r.path.len() - 1]);
                    }
                }
            },
            None => {},
        }
    }
    assert(t.len() > 0);
    lemma_split_ws_three(m, t, v);
    let line = request_line_text(r);
    assert(split_ws(line) == seq![m, t, v]);
    match r.query {
        Some(q) => {
            let p = r.path;
            assert(t[p.len() as int] == '?');
            assert forall|j: int| 0 <= j < p.len() implies t[j] != '?' by {
                assert(t[j] == p[j]);
                if p[j] == '?' {
                    assert(p.contains('?'));
                }
            }
            lemma_find_char_at(t, '?', p.len() as int);
            assert(t.take(p.len() as int) =~= p);
            assert(t.skip(p.len() as int + 1) =~= q);
        },
        None => {
            assert forall|j: int| 0 <= j < t.len() implies t[j] != '?' by {
                if t[j] == '?' {
                    assert(r.path.contains('?'));
                }
            }
            lemma_find_char_none(t, '?');
        },
    }
    assert(split_target(t) == (r.path, r.query));
    assert forall|i: int| 0 <= i < line.len() implies line[i] != '\r' by {
        let a = m.len() as int;
        let b = a + 1 + t.len();
        if i < a {
            assert(line[i] == m[i]);
        } else if i == a || i == b {
            assert(line[i] == ' ');
        } else if i < b {
            assert(line[i] == t[i - a - 1]);
        } else {
            assert(line[i] == v[i - b - 1]);
        }
    }
    lemma_no_cr_no_crlf(line);
}

/// UTF-8 encoding of a concatenation is the concatenation of the encodings.
proof fn lemma_encode_concat(a: Seq<char>, b: Seq<char>)
    ensures
        encode_utf8(a + b) == encode_utf8(a) + encode_utf8(b),
    decreases a.len(),
{
    if a.len() == 0 {
        assert(a + b =~= b);
        assert(encode_utf8(a) + encode_utf8(b) =~= encode_utf8(b));
    } else {
        lemma_encode_concat(a.drop_first(), b);
        assert((a + b).drop_first() =~= a.drop_first() + b);
        assert((a + b)[0] == a[0]);
        assert(encode_scalar(a[0] as u32) + (encode_utf8(a.drop_first()) + encode_utf8(b))
            =~= encode_utf8(a) + encode_utf8(b));
    }
}

/// The lines of the head sent to the backend: the request line, the header lines, and
/// two empty lines, the pieces around the final `"\r\n\r\n"`.
proof fn lemma_backend_head_lines(r: RequestView)
    requires
        sendable_request(r),
    ensures
        split_crlf(backend_head(r)) == seq![request_line_text(r)] + header_texts(
            forwarded_headers(r.headers),
        ) + seq![Seq::<char>::empty(), Seq::<char>::empty()],
{
    let rl = request_line_text(r);
    let f = forwarded_headers(r.headers);
    let crlf = seq!['\r', '\n'];
    let text = backend_head(r);
    let after_line = header_block(f) + crlf;
    lemma_request_line_round_trip(r);
    assert(text =~= rl + crlf + after_line);
    lemma_lines_from_line(rl, after_line, seq![]);
    assert(Seq::<char>::empty() + rl =~= rl);
    let lines = split_crlf(text);
    assert(lines == seq![rl] + split_crlf(after_line));
    lemma_split_header_block(f, crlf);
    lemma_lines_from_line(Seq::<char>::empty(), Seq::<char>::empty(), seq![]);
    assert(Seq::<char>::empty() + crlf + Seq::<char>::empty() =~= crlf);
    assert(Seq::<char>::empty() + Seq::<char>::empty() =~= Seq::<char>::empty());
    assert(split_crlf(Seq::<char>::empty()) == seq![Seq::<char>::empty()]);
    assert(split_crlf(crlf) =~= seq![Seq::<char>::empty(), Seq::<char>::empty()]);
}

/// The head sent to the backend up to its empty line: the request line, then each
/// forwarded header line after a line end.
pub open spec fn head_core(r: RequestView) -> Seq<char> {
    let f = forwarded_headers(r.headers);
    if f.len() == 0 {
        request_line_text(r)
    } else {
        request_line_text(r) + seq!['\r', '\n'] + header_block(f.drop_last()) + header_text(
            f.last(),
        )
    }
}

/// The head sent to the backend is its core and `"\r\n\r\n"`; the core has no empty
/// line and does not end with a line end, and it reads back as the request.
proof fn lemma_head_core(r: RequestView, body: Seq<u8>)
    requires
        sendable_request(r),
    ensures
        backend_head(r) == head_core(r) + seq!['\r', '\n', '\r', '\n'],
        !has_blank(head_core(r)),
        !ends_with_crlf(head_core(r)),
        spec_parse_head(head_core(r), body) == Ok::<RequestView, ErrorView>(
            RequestView {
                method: r.method,
                path: r.path,
                query: r.query,
                version: r.version,
                headers: forwarded_headers(r.headers),
                body,
            },
        ),
{
    let rl = request_line_text(r);
    let f = forwarded_headers(r.headers);
    let core = head_core(r);
    let crlf = seq!['\r', '\n'];
    if f.len() > 0 {
        assert(f.drop_last().push(f.last()) =~= f);
        assert(header_block(f) == header_block(f.drop_last()) + header_line(f.last()));
    } else {
        assert(header_block(f) == Seq::<char>::empty());
    }
    assert(backend_head(r) =~= core + seq!['\r', '\n', '\r', '\n']);
    lemma_lines_from_concat(core, crlf, seq![]);
    assert(core + crlf + crlf =~= backend_head(r));
    lemma_backend_head_lines(r);
    let e = seq![Seq::<char>::empty(), Seq::<char>::empty()];
    lemma_lines_from_line(Seq::<char>::empty(), Seq::<char>::empty(), seq![]);
    assert(Seq::<char>::empty() + crlf + Seq::<char>::empty() =~= crlf);
    assert(Seq::<char>::empty() + Seq::<char>::empty() =~= Seq::<char>::empty());
    assert(lines_from(crlf, seq![]) =~= e);
    let a = split_crlf(core);
    let p = seq![rl] + header_texts(f);
    assert(a + e == p + e);
    assert((a + e).len() == a.len() + e.len());
    assert((p + e).len() == p.len() + e.len());
    assert(a.len() == p.len());
    assert(a =~= (a + e).take(a.len() as int));
    assert(p =~= (p + e).take(p.len() as int));
    assert(a == p);
    assert forall|j: int| 1 <= j < a.len() implies #[trigger] a[j].len() > 0 by {
        assert(a[j] == header_text(f[j - 1]));
        assert(sendable_header(f[j - 1]));
        lemma_header_text_parses(f[j - 1]);
    }
    if has_blank(core) || ends_with_crlf(core) {
        lemma_blank_gives_empty_line(core, seq![]);
        let j = choose|j: int| 1 <= j < a.len() && #[trigger] a[j].len() == 0;
        assert(a[j].len() > 0);
    }
    lemma_request_line_round_trip(r);
    assert(a[0] == rl);
    assert(a.drop_first() =~= header_texts(f) + Seq::<Seq<char>>::empty());
    assert(Seq::<HeaderView>::empty() + f =~= f);
    lemma_read_header_texts(f, Seq::<Seq<char>>::empty(), Seq::<HeaderView>::empty());
}

/// The UTF-8 encoding of a character: one byte, the character itself, below 0x80;
/// otherwise a lead byte of at least 0xC0 followed by bytes of at least 0x80.
proof fn lemma_scalar_bytes(c: char)
    ensures
        (c as u32) < 0x80 ==> encode_scalar(c as u32) == seq![(c as u32) as u8],
        (c as u32) >= 0x80 ==> {
            &&& encode_scalar(c as u32).len() >= 2
            &&& encode_scalar(c as u32)[0] >= 0xC0
            &&& forall|i: int|
                1 <= i < encode_scalar(c as u32).len() ==> #[trigger] encode_scalar(c as u32)[i] >= 0x80
        },
{
    vstd::utf8::char_is_scalar(c);
    let v = c as u32;
    if v < 0x80 {
        assert((v & 0x7F) as u8 == v as u8) by (bit_vector)
            requires
                v < 0x80,
        ;
        assert(encode_scalar(v) =~= seq![v as u8]);
    } else {
        assert((0xC0 | ((v >> 6) & 0x1F) as u8) >= 0xC0) by (bit_vector);
        assert((0xE0 | ((v >> 12) & 0x0F) as u8) >= 0xC0) by (bit_vector);
        assert((0xF0 | ((v >> 18) & 0x7) as u8) >= 0xC0) by (bit_vector);
        assert((0x80 | (v & 0x3F) as u8) >= 0x80) by (bit_vector);
        assert((0x80 | ((v >> 6) & 0x3F) as u8) >= 0x80) by (bit_vector);
        assert((0x80 | ((v >> 12) & 0x3F) as u8) >= 0x80) by (bit_vector);
    }
}

/// The first byte of encoded text followed by more bytes is a carriage return or a
/// line feed exactly when the text's first character is one, which is then a byte
/// of its own.
proof fn lemma_first_byte(s: Seq<char>, t: Seq<u8>)
    requires
        s.len() > 0,
    ensures
        (encode_utf8(s) + t)[0] == 13 <==> s[0] == '\r',
        (encode_utf8(s) + t)[0] == 10 <==> s[0] == '\n',
        (s[0] == '\r' || s[0] == '\n') ==> (encode_utf8(s) + t).drop_first() == encode_utf8(
            s.drop_first(),
        ) + t,
{
    let c = s[0];
    lemma_scalar_bytes(c);
    let x = encode_scalar(c as u32);
    assert(encode_utf8(s) + t =~= x + (encode_utf8(s.drop_first()) + t));
    assert((encode_utf8(s) + t)[0] == x[0]);
    assert('\r' as u32 == 13);
    assert('\n' as u32 == 10);
    if (c as u32) < 0x80 {
        assert(x[0] == (c as u32) as u8);
        assert(((c as u32) as u8 == 13) <==> (c as u32 == 13));
        assert(((c as u32) as u8 == 10) <==> (c as u32 == 10));
        if c as u32 == 13 {
            vstd::utf8::char_u32_cast(c, 13);
            vstd::utf8::char_u32_cast('\r', 13);
        }
        if c as u32 == 10 {
            vstd::utf8::char_u32_cast(c, 10);
            vstd::utf8::char_u32_cast('\n', 10);
        }
    } else {
        assert(c != '\r' && c != '\n');
    }
    if c == '\r' || c == '\n' {
        assert((x + (encode_utf8(s.drop_first()) + t)).drop_first() =~= encode_utf8(
            s.drop_first(),
        ) + t);
    }
}

/// A carriage return or a line feed is encoded as its own single byte.
proof fn lemma_encode_single(c: char)
    requires
        c == '\r' || c == '\n',
    ensures
        encode_utf8(seq![c]) == seq![(c as u32) as u8],
        c == '\r' ==> (c as u32) as u8 == 13,
        c == '\n' ==> (c as u32) as u8 == 10,
{
    lemma_scalar_bytes(c);
    assert('\r' as u32 == 13);
    assert('\n' as u32 == 10);
    let s = seq![c];
    assert(s.drop_first() =~= Seq::<char>::empty());
    assert(encode_utf8(s) == encode_scalar(s[0] as u32) + encode_utf8(s.drop_first()));
    assert(encode_utf8(s) =~= seq![(c as u32) as u8]);
}

/// Bytes at which no empty line starts shift the first empty line by their number.
proof fn lemma_find_blank_shift(x: Seq<u8>, y: Seq<u8>)
    requires
        forall|j: int| 0 <= j < x.len() ==> !blank_at(x + y, j),
    ensures
        find_blank(x + y) == match find_blank(y) {
            Some(i) => Some(i + x.len()),
            None => None::<int>,
        },
    decreases x.len(),
{
    if x.len() == 0 {
        assert(x + y =~= y);
    } else {
        let b = x + y;
        assert(b.drop_first() =~= x.drop_first() + y);
        assert forall|j: int| 0 <= j < x.drop_first().len() implies !blank_at(
            x.drop_first() + y,
            j,
        ) by {
            assert(!blank_at(b, j + 1));
        }
        lemma_find_blank_shift(x.drop_first(), y);
        assert(!blank_at(b, 0));
    }
}

/// In encoded text without an empty line and not ending with a line end, followed by
/// `"\r\n\r\n"`, the first empty line is the one that follows the text.
proof fn lemma_find_blank_encoded(a: Seq<char>, t: Seq<u8>)
    requires
        t.len() >= 4,
        t[0] == 13 && t[1] == 10 && t[2] == 13 && t[3] == 10,
        !has_blank(a),
        !ends_with_crlf(a),
    ensures
        find_blank(encode_utf8(a) + t) == Some(encode_utf8(a).len() as int),
    decreases a.len(),
{
    if a.len() == 0 {
        assert(encode_utf8(a) + t =~= t);
        assert(blank_at(t, 0));
    } else {
        let c = a[0];
        let a2 = a.drop_first();
        assert(!has_blank(a2)) by {
            if has_blank(a2) {
                let i = choose|i: int|
                    #![trigger a2[i]]
                    0 <= i && i + 4 <= a2.len() && a2[i] == '\r' && a2[i + 1] == '\n' && a2[i + 2]
                        == '\r' && a2[i + 3] == '\n';
                assert(a[i + 1] == a2[i]);
            }
        }
        assert(!ends_with_crlf(a2)) by {
            if ends_with_crlf(a2) {
                assert(a[a.len() - 2] == a2[a2.len() - 2]);
            }
        }
        lemma_find_blank_encoded(a2, t);
        lemma_scalar_bytes(c);
        let x = encode_scalar(c as u32);
        let y = encode_utf8(a2) + t;
        let b = x + y;
        assert(encode_utf8(a) + t =~= b);
        lemma_first_byte(a, t);
        assert forall|j: int| 0 <= j < x.len() implies !blank_at(b, j) by {
            if j > 0 {
                assert(b[j] == x[j]);
            } else if blank_at(b, 0) {
                assert(c == '\r');
                assert(b.drop_first() == y);
                assert(y[0] == 10);
                if a2.len() == 0 {
                    assert(y =~= t);
                } else {
                    lemma_first_byte(a2, t);
                    assert(a2[0] == '\n');
                    let a3 = a2.drop_first();
                    let y3 = encode_utf8(a3) + t;
                    assert(y3[0] == y[1]);
                    if a3.len() == 0 {
                        assert(ends_with_crlf(a));
                    } else {
                        lemma_first_byte(a3, t);
                        assert(a3[0] == '\r');
                        let a4 = a3.drop_first();
                        let y4 = encode_utf8(a4) + t;
                        assert(y4[0] == y3[1]);
                        if a4.len() == 0 {
                            assert(y4 =~= t);
                        } else {
                            lemma_first_byte(a4, t);
                            assert(a4[0] == '\n');
                            assert(a[0] == '\r' && a[1] == '\n' && a[2] == '\r' && a[3] == '\n');
                            assert(has_blank(a));
                        }
                    }
                }
            }
        }
        lemma_find_blank_shift(x, y);
    }
}

/// The request sent to the backend parses back into the request it was made from,
/// less its hop-by-hop headers; its head is valid UTF-8 and its body is the body,
/// byte for byte.
pub proof fn lemma_backend_request_round_trip(r: RequestView)
    requires
        sendable_request(r),
    ensures
        valid_utf8(split_head(encode_utf8(backend_head(r)) + r.body).0),
        spec_parse_valid(encode_utf8(backend_head(r)) + r.body) == Ok::<RequestView, ErrorView>(
            RequestView {
                method: r.method,
                path: r.path,
                query: r.query,
                version: r.version,
                headers: forwarded_headers(r.headers),
                body: r.body,
            },
        ),
{
    let core = head_core(r);
    lemma_head_core(r, r.body);
    let four = seq!['\r', '\n', '\r', '\n'];
    lemma_encode_concat(core, four);
    lemma_encode_single('\r');
    lemma_encode_single('\n');
    let cr = seq!['\r'];
    let lf = seq!['\n'];
    lemma_encode_concat(cr, lf);
    lemma_encode_concat(cr + lf, cr);
    lemma_encode_concat(cr + lf + cr, lf);
    assert(cr + lf + cr + lf =~= four);
    assert(encode_utf8(four) =~= seq![13u8, 10u8, 13u8, 10u8]);
    let t = encode_utf8(four) + r.body;
    let bytes = encode_utf8(backend_head(r)) + r.body;
    assert(bytes =~= encode_utf8(core) + t);
    lemma_find_blank_encoded(core, t);
    let p = encode_utf8(core).len() as int;
    assert(bytes.take(p) =~= encode_utf8(core));
    assert(bytes.skip(p + 4) =~= r.body);
    vstd::utf8::encode_utf8_valid_utf8(core);
    vstd::utf8::encode_utf8_decode_utf8(core);
}

/// A non-empty target without whitespace is the target of its own path and query.
pub proof fn lemma_target_split(t: Seq<char>)
    requires
        t.len() > 0,
        no_ws(t),
    ensures
        target_text(split_target(t).0, split_target(t).1) == t,
        no_ws(split_target(t).0),
        !split_target(t).0.contains('?'),
        split_target(t).1 matches Some(q) ==> no_ws(q),
        split_target(t).1 is None ==> split_target(t).0.len() > 0,
{
    crate::text::lemma_find_char_spec(t, '?');
    match find_char(t, '?') {
        Some(i) => {
            assert(t.take(i) + seq!['?'] + t.skip(i + 1) =~= t);
            assert forall|j: int| 0 <= j < t.skip(i + 1).len() implies !is_ws(
                #[trigger] t.skip(i + 1)[j],
            ) by {
                assert(t.skip(i + 1)[j] == t[i + 1 + j]);
            }
        },
        None => {},
    }
}

/// No header is hop-by-hop.
pub open spec fn end_to_end(hs: Seq<HeaderView>) -> bool {
    forall|i: int| 0 <= i < hs.len() ==> !is_hop_by_hop(#[trigger] hs[i].0)
}

proof fn lemma_forwarded_all(hs: Seq<HeaderView>)
    requires
        end_to_end(hs),
    ensures
        forwarded_headers(hs) == hs,
    decreases hs.len(),
{
    if hs.len() > 0 {
        let init = hs.drop_last();
        assert forall|i: int| 0 <= i < init.len() implies !is_hop_by_hop(#[trigger] init[i].0) by {
            assert(init[i] == hs[i]);
        }
        lemma_forwarded_all(init);
        assert(!is_hop_by_hop(hs[hs.len() - 1].0));
        assert(init.push(hs.last()) =~= hs);
    }
}

/// A request written in the form sent to the backend, without hop-by-hop headers, is
/// rewritten into the same bytes: parsing it and rewriting the result gives it back.
pub proof fn lemma_parse_then_rewrite(r: RequestView)
    requires
        sendable_request(r),
        end_to_end(r.headers),
    ensures
        spec_parse_valid(encode_utf8(backend_head(r)) + r.body) matches Ok(q) && encode_utf8(
            backend_head(q),
        ) + q.body == encode_utf8(backend_head(r)) + r.body,
{
    lemma_forwarded_all(r.headers);
    lemma_backend_request_round_trip(r);
    let q = RequestView {
        method: r.method,
        path: r.path,
        query: r.query,
        version: r.version,
        headers: forwarded_headers(r.headers),
        body: r.body,
    };
    assert(q == r);
}

/// Setting a header keeps names distinct.
proof fn lemma_insert_unique(hs: Seq<HeaderView>, k: Seq<char>, v: Seq<char>)
    requires
        unique_names(hs),
    ensures
        unique_names(insert_header(hs, k, v)),
        forall|j: int|
            0 <= j < insert_header(hs, k, v).len() ==> #[trigger] insert_header(hs, k, v)[j].0 == k
                || exists|i: int| 0 <= i < hs.len() && hs[i].0 == insert_header(hs, k, v)[j].0,
    decreases hs.len(),
{
    if hs.len() > 0 {
        let rest = hs.drop_first();
        assert(unique_names(rest)) by {
            assert forall|i: int, j: int|
                0 <= i < rest.len() && 0 <= j < rest.len() && i != j implies rest[i].0
                != rest[j].0 by {
                assert(rest[i] == hs[i + 1] && rest[j] == hs[j + 1]);
            }
        }
        lemma_insert_unique(rest, k, v);
        let ins = insert_header(hs, k, v);
        if hs[0].0 == k {
            assert forall|i: int, j: int|
                0 <= i < ins.len() && 0 <= j < ins.len() && i != j implies ins[i].0
                != ins[j].0 by {
                if i > 0 {
                    assert(ins[i] == hs[i]);
                }
                if j > 0 {
                    assert(ins[j] == hs[j]);
                }
            }
            assert forall|j: int| 0 <= j < ins.len() implies #[trigger] ins[j].0 == k || exists|
                i: int,
            | 0 <= i < hs.len() && hs[i].0 == ins[j].0 by {
                if j > 0 {
                    assert(ins[j] == hs[j]);
                }
            }
        } else {
            let ri = insert_header(rest, k, v);
            assert(ins =~= seq![hs[0]] + ri);
            assert forall|j: int| 0 <= j < ins.len() implies #[trigger] ins[j].0 == k || exists|
                i: int,
            | 0 <= i < hs.len() && hs[i].0 == ins[j].0 by {
                if j == 0 {
                    assert(hs[0].0 == ins[0].0);
                } else {
                    assert(ins[j] == ri[j - 1]);
                    if ri[j - 1].0 != k {
                        let i = choose|i: int| 0 <= i < rest.len() && rest[i].0 == ri[j - 1].0;
                        assert(hs[i + 1].0 == ins[j].0);
                    }
                }
            }
            assert forall|i: int, j: int|
                0 <= i < ins.len() && 0 <= j < ins.len() && i != j implies ins[i].0
                != ins[j].0 by {
                if i > 0 && j > 0 {
                    assert(ins[i] == ri[i - 1] && ins[j] == ri[j - 1]);
                } else if i == 0 && j > 0 {
                    assert(ins[j] == ri[j - 1]);
                    assert(ri[j - 1].0 == k || exists|x: int|
                        0 <= x < rest.len() && rest[x].0 == ri[j - 1].0);
                    if ri[j - 1].0 != k {
                        let x = choose|x: int| 0 <= x < rest.len() && rest[x].0 == ri[j - 1].0;
                        assert(hs[x + 1] == rest[x]);
                    }
                } else if j == 0 && i > 0 {
                    assert(ins[i] == ri[i - 1]);
                    assert(ri[i - 1].0 == k || exists|x: int|
                        0 <= x < rest.len() && rest[x].0 == ri[i - 1].0);
                    if ri[i - 1].0 != k {
                        let x = choose|x: int| 0 <= x < rest.len() && rest[x].0 == ri[i - 1].0;
                        assert(hs[x + 1] == rest[x]);
                    }
                }
            }
        }
    }
}

/// Reading header lines keeps names distinct.
proof fn lemma_headers_unique(lines: Seq<Seq<char>>, acc: Seq<HeaderView>)
    requires
        unique_names(acc),
    ensures
        spec_headers(lines, acc) matches Ok((hs, _)) ==> unique_names(hs),
    decreases lines.len(),
{
    if lines.len() > 0 && lines[0].len() > 0 {
        if let Ok(h) = spec_header_line(lines[0]) {
            lemma_insert_unique(acc, h.0, h.1);
            lemma_headers_unique(lines.drop_first(), insert_header(acc, h.0, h.1));
        }
    }
}

/// Parsed headers behave as a map: no name occurs twice.
pub proof fn lemma_parsed_headers_unique(head: Seq<char>, body: Seq<u8>)
    ensures
        spec_parse_head(head, body) matches Ok(r) ==> unique_names(r.headers),
{
    lemma_headers_unique(split_crlf(head).drop_first(), seq![]);
}

/// Setting a header and then looking it up finds the value just set.
pub proof fn lemma_insert_then_lookup(hs: Seq<HeaderView>, k: Seq<char>, v: Seq<char>)
    requires
        unique_names(hs),
    ensures
        insert_header(hs, k, v).contains((k, v)),
        forall|w: Seq<char>| #[trigger] insert_header(hs, k, v).contains((k, w)) ==> w == v,
{
    lemma_insert_unique(hs, k, v);
    let ins = insert_header(hs, k, v);
    lemma_insert_contains(hs, k, v);
    assert forall|w: Seq<char>| #[trigger] ins.contains((k, w)) implies w == v by {
        let i = choose|i: int| 0 <= i < ins.len() && ins[i] == (k, w);
        let j = choose|j: int| 0 <= j < ins.len() && ins[j] == (k, v);
        if i != j {
            assert(ins[i].0 == ins[j].0);
        }
    }
}

proof fn lemma_insert_contains(hs: Seq<HeaderView>, k: Seq<char>, v: Seq<char>)
    ensures
        insert_header(hs, k, v).contains((k, v)),
    decreases hs.len(),
{
    let ins = insert_header(hs, k, v);
    if hs.len() == 0 || hs[0].0 == k {
        assert(ins[0] == (k, v));
    } else {
        lemma_insert_contains(hs.drop_first(), k, v);
        let ri = insert_header(hs.drop_first(), k, v);
        let i = choose|i: int| 0 <= i < ri.len() && ri[i] == (k, v);
        assert(ins[i + 1] == ri[i]);
    }
}

/// No hop-by-hop header is forwarded, and every other header is, in order.
pub proof fn lemma_forwarded_headers(hs: Seq<HeaderView>)
    ensures
        forall|i: int|
            0 <= i < forwarded_headers(hs).len() ==> !is_hop_by_hop(
                #[trigger] forwarded_headers(hs)[i].0,
            ),
        forall|i: int|
            0 <= i < hs.len() && !is_hop_by_hop(hs[i].0) ==> forwarded_headers(hs).contains(
                #[trigger] hs[i],
            ),
        forall|i: int|
            0 <= i < forwarded_headers(hs).len() ==> hs.contains(#[trigger] forwarded_headers(hs)[i]),
    decreases hs.len(),
{
    if hs.len() > 0 {
        let init = hs.drop_last();
        let fi = forwarded_headers(init);
        lemma_forwarded_headers(init);
        let f = forwarded_headers(hs);
        assert forall|i: int| 0 <= i < hs.len() && !is_hop_by_hop(hs[i].0) implies f.contains(
            #[trigger] hs[i],
        ) by {
            if i < hs.len() - 1 {
                assert(init[i] == hs[i]);
                let j = choose|j: int| 0 <= j < fi.len() && fi[j] == init[i];
                assert(f[j] == fi[j]);
            } else {
                assert(f[f.len() - 1] == hs[i]);
            }
        }
        assert forall|i: int| 0 <= i < f.len() implies hs.contains(#[trigger] f[i]) by {
            if i < fi.len() {
                assert(f[i] == fi[i]);
                let j = choose|j: int| 0 <= j < init.len() && init[j] == fi[i];
                assert(hs[j] == init[j]);
            } else {
                assert(f[i] == hs[hs.len() - 1]);
            }
        }
        assert forall|i: int| 0 <= i < f.len() implies !is_hop_by_hop(#[trigger] f[i].0) by {
            if i < fi.len() {
                assert(f[i] == fi[i]);
            }
        }
    }
}


/// Reading header lines fails only on a header line without `:`.
proof fn lemma_headers_error(lines: Seq<Seq<char>>, acc: Seq<HeaderView>)
    ensures
        spec_headers(lines, acc) matches Err(e) ==> e is InvalidHeader,
    decreases lines.len(),
{
    if lines.len() > 0 && lines[0].len() > 0 {
        if let Ok(h) = spec_header_line(lines[0]) {
            lemma_headers_error(lines.drop_first(), insert_header(acc, h.0, h.1));
        }
    }
}

/// Parsing never reports a missing request line: text always has a first line, and
/// an empty one is an invalid request line.
pub proof fn lemma_never_missing_request_line(head: Seq<char>, body: Seq<u8>)
    ensures
        !(spec_parse_head(head, body) matches Err(ErrorView::MissingRequestLine)),
{
    lemma_headers_error(split_crlf(head).drop_first(), seq![]);
}


/// The hop-by-hop header names in lower case: connection, keep-alive,
/// proxy-authenticate, proxy-authorization, te, trailer, transfer-encoding, upgrade.
pub open spec fn hop_by_hop_names() -> Seq<Seq<char>> {
    seq!["connection"@, "keep-alive"@, "proxy-authenticate"@, "proxy-authorization"@, "te"@, "trailer"@, "transfer-encoding"@, "upgrade"@]
}

/// `eq_ignore_ascii_case` is an equivalence: it is symmetric and transitive.
proof fn lemma_eq_ignore_case_trans(a: Seq<char>, b: Seq<char>, c: Seq<char>)
    requires
        eq_ignore_ascii_case(b, c),
    ensures
        eq_ignore_ascii_case(a, b) <==> eq_ignore_ascii_case(a, c),
{
}

/// Each hop-by-hop name as written matches its lower-case form.
proof fn lemma_hop_names_lower()
    ensures
        eq_ignore_ascii_case("Connection"@, hop_by_hop_names()[0]),
        eq_ignore_ascii_case("Keep-Alive"@, hop_by_hop_names()[1]),
        eq_ignore_ascii_case("Proxy-Authenticate"@, hop_by_hop_names()[2]),
        eq_ignore_ascii_case("Proxy-Authorization"@, hop_by_hop_names()[3]),
        eq_ignore_ascii_case("TE"@, hop_by_hop_names()[4]),
        eq_ignore_ascii_case("Trailer"@, hop_by_hop_names()[5]),
        eq_ignore_ascii_case("Transfer-Encoding"@, hop_by_hop_names()[6]),
        eq_ignore_ascii_case("Upgrade"@, hop_by_hop_names()[7]),
{
    reveal_strlit("Connection");
    reveal_strlit("connection");
    reveal_strlit("Keep-Alive");
    reveal_strlit("keep-alive");
    reveal_strlit("Proxy-Authenticate");
    reveal_strlit("proxy-authenticate");
    reveal_strlit("Proxy-Authorization");
    reveal_strlit("proxy-authorization");
    reveal_strlit("TE");
    reveal_strlit("te");
    reveal_strlit("Trailer");
    reveal_strlit("trailer");
    reveal_strlit("Transfer-Encoding");
    reveal_strlit("transfer-encoding");
    reveal_strlit("Upgrade");
    reveal_strlit("upgrade");
    assert forall|j: int| 0 <= j < 10 implies ascii_fold("Connection"@[j]) == ascii_fold("connection"@[j]) by {
        assert(j == 0 || j == 1 || j == 2 || j == 3 || j == 4 || j == 5 || j == 6 || j == 7 || j == 8 || j == 9);
    }
    assert forall|j: int| 0 <= j < 10 implies ascii_fold("Keep-Alive"@[j]) == ascii_fold("keep-alive"@[j]) by {
        assert(j == 0 || j == 1 || j == 2 || j == 3 || j == 4 || j == 5 || j == 6 || j == 7 || j == 8 || j == 9);
    }
    assert forall|j: int| 0 <= j < 18 implies ascii_fold("Proxy-Authenticate"@[j]) == ascii_fold("proxy-authenticate"@[j]) by {
        assert(j == 0 || j == 1 || j == 2 || j == 3 || j == 4 || j == 5 || j == 6 || j == 7 || j == 8 || j == 9 || j == 10 || j == 11 || j == 12 || j == 13 || j == 14 || j == 15 || j == 16 || j == 17);
    }
    assert forall|j: int| 0 <= j < 19 implies ascii_fold("Proxy-Authorization"@[j]) == ascii_fold("proxy-authorization"@[j]) by {
        assert(j == 0 || j == 1 || j == 2 || j == 3 || j == 4 || j == 5 || j == 6 || j == 7 || j == 8 || j == 9 || j == 10 || j == 11 || j == 12 || j == 13 || j == 14 || j == 15 || j == 16 || j == 17 || j == 18);
    }
    assert forall|j: int| 0 <= j < 2 implies ascii_fold("TE"@[j]) == ascii_fold("te"@[j]) by {
        assert(j == 0 || j == 1);
    }
    assert forall|j: int| 0 <= j < 7 implies ascii_fold("Trailer"@[j]) == ascii_fold("trailer"@[j]) by {
        assert(j == 0 || j == 1 || j == 2 || j == 3 || j == 4 || j == 5 || j == 6);
    }
    assert forall|j: int| 0 <= j < 17 implies ascii_fold("Transfer-Encoding"@[j]) == ascii_fold("transfer-encoding"@[j]) by {
        assert(j == 0 || j == 1 || j == 2 || j == 3 || j == 4 || j == 5 || j == 6 || j == 7 || j == 8 || j == 9 || j == 10 || j == 11 || j == 12 || j == 13 || j == 14 || j == 15 || j == 16);
    }
    assert forall|j: int| 0 <= j < 7 implies ascii_fold("Upgrade"@[j]) == ascii_fold("upgrade"@[j]) by {
        assert(j == 0 || j == 1 || j == 2 || j == 3 || j == 4 || j == 5 || j == 6);
    }
}

/// A header is hop-by-hop exactly when its name is one of the eight hop-by-hop names
/// in any ASCII case; every other header, such as `Content-Length`, is forwarded,
/// and no hop-by-hop header is.
pub proof fn lemma_hop_by_hop_names(name: Seq<char>)
    ensures
        is_hop_by_hop(name) <==> exists|i: int|
            0 <= i < 8 && eq_ignore_ascii_case(name, #[trigger] hop_by_hop_names()[i]),
{
    lemma_hop_names_lower();
    let h = hop_by_hop_names();
    lemma_eq_ignore_case_trans(name, "Connection"@, h[0]);
    lemma_eq_ignore_case_trans(name, "Keep-Alive"@, h[1]);
    lemma_eq_ignore_case_trans(name, "Proxy-Authenticate"@, h[2]);
    lemma_eq_ignore_case_trans(name, "Proxy-Authorization"@, h[3]);
    lemma_eq_ignore_case_trans(name, "TE"@, h[4]);
    lemma_eq_ignore_case_trans(name, "Trailer"@, h[5]);
    lemma_eq_ignore_case_trans(name, "Transfer-Encoding"@, h[6]);
    lemma_eq_ignore_case_trans(name, "Upgrade"@, h[7]);
    if exists|i: int| 0 <= i < 8 && eq_ignore_ascii_case(name, #[trigger] h[i]) {
        let i = choose|i: int| 0 <= i < 8 && eq_ignore_ascii_case(name, #[trigger] h[i]);
        assert(i == 0 || i == 1 || i == 2 || i == 3 || i == 4 || i == 5 || i == 6 || i == 7);
    }
    if is_hop_by_hop(name) {
        if eq_ignore_ascii_case(name, "Connection"@) {
            assert(eq_ignore_ascii_case(name, h[0]));
        }
        if eq_ignore_ascii_case(name, "Keep-Alive"@) {
            assert(eq_ignore_ascii_case(name, h[1]));
        }
        if eq_ignore_ascii_case(name, "Proxy-Authenticate"@) {
            assert(eq_ignore_ascii_case(name, h[2]));
        }
        if eq_ignore_ascii_case(name, "Proxy-Authorization"@) {
            assert(eq_ignore_ascii_case(name, h[3]));
        }
        if eq_ignore_ascii_case(name, "TE"@) {
            assert(eq_ignore_ascii_case(name, h[4]));
        }
        if eq_ignore_ascii_case(name, "Trailer"@) {
            assert(eq_ignore_ascii_case(name, h[5]));
        }
        if eq_ignore_ascii_case(name, "Transfer-Encoding"@) {
            assert(eq_ignore_ascii_case(name, h[6]));
        }
        if eq_ignore_ascii_case(name, "Upgrade"@) {
            assert(eq_ignore_ascii_case(name, h[7]));
        }
    }
}

/// The headers sent to the backend are those of the request whose names are not
/// hop-by-hop names in any ASCII case, in order.
pub proof fn lemma_forwarded_by_name(hs: Seq<HeaderView>)
    ensures
        forall|i: int|
            0 <= i < hs.len() && !(exists|j: int|
                0 <= j < 8 && eq_ignore_ascii_case(hs[i].0, #[trigger] hop_by_hop_names()[j]))
                ==> forwarded_headers(hs).contains(#[trigger] hs[i]),
        forall|i: int|
            0 <= i < forwarded_headers(hs).len() ==> hs.contains(
                #[trigger] forwarded_headers(hs)[i],
            ) && !(exists|j: int|
                0 <= j < 8 && eq_ignore_ascii_case(
                    forwarded_headers(hs)[i].0,
                    #[trigger] hop_by_hop_names()[j],
                )),
{
    lemma_forwarded_headers(hs);
    assert forall|i: int|
        0 <= i < hs.len() && !(exists|j: int|
            0 <= j < 8 && eq_ignore_ascii_case(hs[i].0, #[trigger] hop_by_hop_names()[j]))
            implies forwarded_headers(hs).contains(#[trigger] hs[i]) by {
        lemma_hop_by_hop_names(hs[i].0);
    }
    assert forall|i: int| 0 <= i < forwarded_headers(hs).len() implies hs.contains(
        #[trigger] forwarded_headers(hs)[i],
    ) && !(exists|j: int|
        0 <= j < 8 && eq_ignore_ascii_case(
            forwarded_headers(hs)[i].0,
            #[trigger] hop_by_hop_names()[j],
        )) by {
        lemma_hop_by_hop_names(forwarded_headers(hs)[i].0);
    }
}


/// A header line is split at its first `:`: for a name without `:`, the line
/// `name:value` reads as the trimmed name and the trimmed value, whatever follows the
/// `:`; `Host:localhost` and `Host: localhost` give the same header.
pub proof fn lemma_header_line_parts(k: Seq<char>, v: Seq<char>)
    requires
        !k.contains(':'),
    ensures
        spec_header_line(k + seq![':'] + v) == Ok::<HeaderView, ErrorView>((trim(k), trim(v))),
{
    let line = k + seq![':'] + v;
    let n = k.len() as int;
    assert(line[n] == ':');
    assert forall|j: int| 0 <= j < n implies line[j] != ':' by {
        assert(line[j] == k[j]);
        if k[j] == ':' {
            assert(k.contains(':'));
        }
    }
    lemma_find_char_at(line, ':', n);
    assert(line.take(n) =~= k);
    assert(line.skip(n + 1) =~= v);
}

/// A line without `:` is not a header line, and the error carries the line.
pub proof fn lemma_header_line_no_colon(line: Seq<char>)
    requires
        !line.contains(':'),
    ensures
        spec_header_line(line) == Err::<HeaderView, ErrorView>(ErrorView::InvalidHeader(line)),
{
    assert forall|j: int| 0 <= j < line.len() implies line[j] != ':' by {
        if line[j] == ':' {
            assert(line.contains(':'));
        }
    }
    lemma_find_char_none(line, ':');
}


/// The head ends where `"\r\n\r\n"` first occurs: what is found is an occurrence with
/// none before it, and nothing is found only when there is no occurrence.
pub proof fn lemma_find_blank_first(b: Seq<u8>)
    ensures
        find_blank(b) matches Some(i) ==> blank_at(b, i) && forall|j: int|
            0 <= j < i ==> !blank_at(b, j),
        find_blank(b) is None ==> forall|j: int| 0 <= j ==> !blank_at(b, j),
    decreases b.len(),
{
    if b.len() >= 4 && !blank_at(b, 0) {
        lemma_find_blank_first(b.drop_first());
        assert forall|j: int| 1 <= j implies blank_at(b, j) == blank_at(b.drop_first(), j - 1) by {}
    }
}

} // verus!
