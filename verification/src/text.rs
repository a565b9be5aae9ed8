//! Character-level text operations: whitespace, splitting, trimming and searching.
//!
//! Each operation is specified over `Seq<char>` by a recursive spec function that
//! follows the string from its front, and implemented by a loop over the characters.
use vstd::prelude::*;

verus! {

/// Rust's `char::is_whitespace`: the characters with the Unicode `White_Space` property.
pub open spec fn is_ws(c: char) -> bool {
    ||| ('\u{9}' <= c && c <= '\u{d}')
    ||| c == ' '
    ||| c == '\u{85}'
    ||| c == '\u{a0}'
    ||| c == '\u{1680}'
    ||| ('\u{2000}' <= c && c <= '\u{200a}')
    ||| c == '\u{2028}'
    ||| c == '\u{2029}'
    ||| c == '\u{202f}'
    ||| c == '\u{205f}'
    ||| c == '\u{3000}'
}

/// Tells whether `c` is a whitespace character.
pub fn is_whitespace(c: char) -> (b: bool)
    ensures
        b == is_ws(c),
{
    ('\u{9}' <= c && c <= '\u{d}') || c == ' ' || c == '\u{85}' || c == '\u{a0}' || c == '\u{1680}'
        || ('\u{2000}' <= c && c <= '\u{200a}') || c == '\u{2028}' || c == '\u{2029}' || c
        == '\u{202f}' || c == '\u{205f}' || c == '\u{3000}'
}

/// The characters of `s`, in order.
pub fn chars_of(s: &str) -> (v: Vec<char>)
    ensures
        v@ == s@,
{
    broadcast use vstd::string::group_string_axioms;

    let mut v: Vec<char> = Vec::new();
    for c in it: s.chars()
        invariant
            it.seq() == s@,
            v@ == s@.take(it.index() as int),
    {
        v.push(c);
        assert(v@ =~= s@.take(it.index() + 1));
    }
    v
}

/// The word being read, as a list of at most one finished word.
pub open spec fn flush(cur: Seq<char>) -> Seq<Seq<char>> {
    if cur.len() == 0 {
        seq![]
    } else {
        seq![cur]
    }
}

/// The words of `s`, where `cur` is the part of a word read before `s`.
pub open spec fn words_from(s: Seq<char>, cur: Seq<char>) -> Seq<Seq<char>>
    decreases s.len(),
{
    if s.len() == 0 {
        flush(cur)
    } else if is_ws(s[0]) {
        flush(cur) + words_from(s.drop_first(), seq![])
    } else {
        words_from(s.drop_first(), cur.push(s[0]))
    }
}

/// `str::split_whitespace`: the maximal runs of non-whitespace characters, in order.
pub open spec fn split_ws(s: Seq<char>) -> Seq<Seq<char>> {
    words_from(s, seq![])
}

/// The pieces of `s` between occurrences of `sep`, where `cur` is the part of a
/// piece read before `s`.
pub open spec fn pieces_from(s: Seq<char>, sep: char, cur: Seq<char>) -> Seq<Seq<char>>
    decreases s.len(),
{
    if s.len() == 0 {
        seq![cur]
    } else if s[0] == sep {
        seq![cur] + pieces_from(s.drop_first(), sep, seq![])
    } else {
        pieces_from(s.drop_first(), sep, cur.push(s[0]))
    }
}

/// `str::split` with a one-character pattern: always at least one piece.
pub open spec fn split_on(s: Seq<char>, sep: char) -> Seq<Seq<char>> {
    pieces_from(s, sep, seq![])
}

/// Whether `s` starts with a carriage return followed by a line feed.
pub open spec fn starts_with_crlf(s: Seq<char>) -> bool {
    s.len() >= 2 && s[0] == '\r' && s[1] == '\n'
}

/// The lines of `s` between occurrences of `"\r\n"`, where `cur` is the part of a
/// line read before `s`.
pub open spec fn lines_from(s: Seq<char>, cur: Seq<char>) -> Seq<Seq<char>>
    decreases s.len(),
{
    if s.len() == 0 {
        seq![cur]
    } else if starts_with_crlf(s) {
        seq![cur] + lines_from(s.skip(2), seq![])
    } else {
        lines_from(s.drop_first(), cur.push(s[0]))
    }
}

/// `str::split("\r\n")`: always at least one line.
pub open spec fn split_crlf(s: Seq<char>) -> Seq<Seq<char>> {
    lines_from(s, seq![])
}

/// The index of the first occurrence of `c` in `s`.
pub open spec fn find_char(s: Seq<char>, c: char) -> Option<int>
    decreases s.len(),
{
    if s.len() == 0 {
        None
    } else if s[0] == c {
        Some(0)
    } else {
        match find_char(s.drop_first(), c) {
            Some(i) => Some(i + 1),
            None => None,
        }
    }
}

/// `str::trim_start`: `s` without its leading whitespace.
pub open spec fn trim_start(s: Seq<char>) -> Seq<char>
    decreases s.len(),
{
    if s.len() > 0 && is_ws(s[0]) {
        trim_start(s.drop_first())
    } else {
        s
    }
}

/// `str::trim_end`: `s` without its trailing whitespace.
pub open spec fn trim_end(s: Seq<char>) -> Seq<char>
    decreases s.len(),
{
    if s.len() > 0 && is_ws(s.last()) {
        trim_end(s.drop_last())
    } else {
        s
    }
}

/// `str::trim`: `s` without leading and trailing whitespace.
pub open spec fn trim(s: Seq<char>) -> Seq<char> {
    trim_end(trim_start(s))
}

/// The first occurrence of `c` is where a search stops at the first hit.
pub proof fn lemma_find_char_at(s: Seq<char>, c: char, i: int)
    requires
        0 <= i < s.len(),
        s[i] == c,
        forall|j: int| 0 <= j < i ==> s[j] != c,
    ensures
        find_char(s, c) == Some(i),
    decreases i,
{
    if i > 0 {
        lemma_find_char_at(s.drop_first(), c, i - 1);
    }
}

/// A character that does not occur is not found.
pub proof fn lemma_find_char_none(s: Seq<char>, c: char)
    requires
        forall|j: int| 0 <= j < s.len() ==> s[j] != c,
    ensures
        find_char(s, c) is None,
    decreases s.len(),
{
    if s.len() > 0 {
        lemma_find_char_none(s.drop_first(), c);
    }
}

/// What a search finds: the first occurrence, or nothing when `c` does not occur.
pub proof fn lemma_find_char_spec(s: Seq<char>, c: char)
    ensures
        find_char(s, c) matches Some(i) ==> {
            &&& 0 <= i < s.len()
            &&& s[i] == c
            &&& forall|j: int| 0 <= j < i ==> s[j] != c
        },
        find_char(s, c) is None ==> forall|j: int| 0 <= j < s.len() ==> s[j] != c,
    decreases s.len(),
{
    if s.len() > 0 {
        lemma_find_char_spec(s.drop_first(), c);
        if s[0] != c {
            assert forall|j: int| 0 < j < s.len() implies s[j] == s.drop_first()[j - 1] by {}
        }
    }
}

/// The index of the first occurrence of `c` in `s`.
pub fn find_char_index(s: &Vec<char>, c: char) -> (res: Option<usize>)
    ensures
        res matches Some(i) ==> find_char(s@, c) == Some(i as int) && i < s@.len(),
        res is None ==> find_char(s@, c) is None,
{
    let n = s.len();
    let mut i: usize = 0;
    while i < n
        invariant
            n == s@.len(),
            i <= n,
            forall|j: int| 0 <= j < i ==> s@[j] != c,
        decreases n - i,
    {
        if s[i] == c {
            proof {
                lemma_find_char_at(s@, c, i as int);
            }
            return Some(i);
        }
        i = i + 1;
    }
    proof {
        lemma_find_char_none(s@, c);
    }
    None
}

/// Trimming leading whitespace skips exactly the whitespace prefix.
proof fn lemma_trim_start_skip(s: Seq<char>, i: int)
    requires
        0 <= i <= s.len(),
        forall|j: int| 0 <= j < i ==> is_ws(s[j]),
    ensures
        trim_start(s) == trim_start(s.skip(i)),
    decreases i,
{
    if i > 0 {
        lemma_trim_start_skip(s.drop_first(), i - 1);
        assert(s.drop_first().skip(i - 1) =~= s.skip(i));
    } else {
        assert(s.skip(0) =~= s);
    }
}

/// Trimming trailing whitespace drops exactly the whitespace suffix.
proof fn lemma_trim_end_take(s: Seq<char>, i: int)
    requires
        0 <= i <= s.len(),
        forall|j: int| i <= j < s.len() ==> is_ws(s[j]),
    ensures
        trim_end(s) == trim_end(s.take(i)),
    decreases s.len() - i,
{
    if i < s.len() {
        assert(s.drop_last().take(i) =~= s.take(i));
        lemma_trim_end_take(s.drop_last(), i);
    } else {
        assert(s.take(i) =~= s);
    }
}

/// `str::trim` on the characters `cs[from..to]`: the bounds of the trimmed part.
pub fn trim_bounds(cs: &Vec<char>, from: usize, to: usize) -> (res: (usize, usize))
    requires
        from <= to <= cs@.len(),
    ensures
        from <= res.0 <= res.1 <= to,
        cs@.subrange(res.0 as int, res.1 as int) == trim(cs@.subrange(from as int, to as int)),
{
    let ghost s = cs@.subrange(from as int, to as int);
    let mut lo = from;
    while lo < to && is_whitespace(cs[lo])
        invariant
            from <= lo <= to <= cs@.len(),
            s == cs@.subrange(from as int, to as int),
            forall|j: int| from <= j < lo ==> is_ws(cs@[j]),
        decreases to - lo,
    {
        lo = lo + 1;
    }
    proof {
        lemma_trim_start_skip(s, lo - from);
        assert(s.skip(lo - from) =~= cs@.subrange(lo as int, to as int));
        if lo < to {
            assert(!is_ws(cs@.subrange(lo as int, to as int)[0]));
        }
    }
    let ghost t = cs@.subrange(lo as int, to as int);
    assert(trim_start(s) == t);
    let mut hi = to;
    while hi > lo && is_whitespace(cs[hi - 1])
        invariant
            from <= lo <= hi <= to <= cs@.len(),
            t == cs@.subrange(lo as int, to as int),
            forall|j: int| hi <= j < to ==> is_ws(cs@[j]),
        decreases hi,
    {
        hi = hi - 1;
    }
    proof {
        lemma_trim_end_take(t, hi - lo);
        assert(t.take(hi - lo) =~= cs@.subrange(lo as int, hi as int));
    }
    (lo, hi)
}

/// `str::split_whitespace`, collected.
pub fn split_whitespace(s: &str) -> (parts: Vec<String>)
    ensures
        parts.deep_view() == split_ws(s@),
{
    let cs = chars_of(s);
    let n = cs.len();
    let mut out: Vec<String> = Vec::new();
    let mut start: usize = 0;
    let mut i: usize = 0;
    assert(out.deep_view() =~= Seq::<Seq<char>>::empty());
    assert(s@.skip(0) =~= s@);
    assert(s@.subrange(0, 0) =~= Seq::<char>::empty());
    assert(out.deep_view() + split_ws(s@) =~= split_ws(s@));
    while i < n
        invariant
            n == cs@.len(),
            cs@ == s@,
            start <= i <= n,
            out.deep_view() + words_from(s@.skip(i as int), s@.subrange(start as int, i as int))
                == split_ws(s@),
        decreases n - i,
    {
        let ghost before = out.deep_view();
        let ghost rest = s@.skip(i as int);
        let ghost cur = s@.subrange(start as int, i as int);
        assert(rest[0] == s@[i as int]);
        assert(rest.drop_first() =~= s@.skip(i + 1));
        if is_whitespace(cs[i]) {
            if start < i {
                let w = s.substring_char(start, i).to_owned();
                out.push(w);
                assert(out.deep_view() =~= before + flush(cur));
            } else {
                assert(out.deep_view() =~= before + flush(cur));
            }
            assert(s@.subrange(i + 1, i + 1) =~= Seq::<char>::empty());
            assert(before + (flush(cur) + words_from(s@.skip(i + 1), seq![])) =~= out.deep_view()
                + words_from(s@.skip(i + 1), seq![]));
            start = i + 1;
        } else {
            assert(cur.push(s@[i as int]) =~= s@.subrange(start as int, i + 1));
        }
        i = i + 1;
    }
    let ghost before = out.deep_view();
    let ghost cur = s@.subrange(start as int, n as int);
    assert(s@.skip(n as int).len() == 0);
    if start < n {
        let w = s.substring_char(start, n).to_owned();
        out.push(w);
    }
    assert(out.deep_view() =~= before + flush(cur));
    out
}


/// `str::split` with a one-character pattern, collected.
pub fn split_char(s: &str, sep: char) -> (parts: Vec<String>)
    ensures
        parts.deep_view() == split_on(s@, sep),
{
    let cs = chars_of(s);
    let n = cs.len();
    let mut out: Vec<String> = Vec::new();
    let mut start: usize = 0;
    let mut i: usize = 0;
    assert(out.deep_view() =~= Seq::<Seq<char>>::empty());
    assert(s@.skip(0) =~= s@);
    assert(s@.subrange(0, 0) =~= Seq::<char>::empty());
    assert(out.deep_view() + split_on(s@, sep) =~= split_on(s@, sep));
    while i < n
        invariant
            n == cs@.len(),
            cs@ == s@,
            start <= i <= n,
            out.deep_view() + pieces_from(s@.skip(i as int), sep, s@.subrange(start as int, i as int))
                == split_on(s@, sep),
        decreases n - i,
    {
        let ghost before = out.deep_view();
        let ghost cur = s@.subrange(start as int, i as int);
        assert(s@.skip(i as int)[0] == s@[i as int]);
        assert(s@.skip(i as int).drop_first() =~= s@.skip(i + 1));
        if cs[i] == sep {
            let w = s.substring_char(start, i).to_owned();
            out.push(w);
            assert(out.deep_view() =~= before + seq![cur]);
            assert(s@.subrange(i + 1, i + 1) =~= Seq::<char>::empty());
            assert(before + (seq![cur] + pieces_from(s@.skip(i + 1), sep, seq![]))
                =~= out.deep_view() + pieces_from(s@.skip(i + 1), sep, seq![]));
            start = i + 1;
        } else {
            assert(cur.push(s@[i as int]) =~= s@.subrange(start as int, i + 1));
        }
        i = i + 1;
    }
    let ghost before = out.deep_view();
    assert(s@.skip(n as int).len() == 0);
    let w = s.substring_char(start, n).to_owned();
    out.push(w);
    assert(out.deep_view() =~= before + seq![s@.subrange(start as int, n as int)]);
    out
}

/// `str::split("\r\n")`, collected.
pub fn split_lines(s: &str) -> (lines: Vec<String>)
    ensures
        lines.deep_view() == split_crlf(s@),
{
    let cs = chars_of(s);
    let n = cs.len();
    let mut out: Vec<String> = Vec::new();
    let mut start: usize = 0;
    let mut i: usize = 0;
    assert(out.deep_view() =~= Seq::<Seq<char>>::empty());
    assert(s@.skip(0) =~= s@);
    assert(s@.subrange(0, 0) =~= Seq::<char>::empty());
    assert(out.deep_view() + split_crlf(s@) =~= split_crlf(s@));
    while i < n
        invariant
            n == cs@.len(),
            cs@ == s@,
            start <= i <= n,
            out.deep_view() + lines_from(s@.skip(i as int), s@.subrange(start as int, i as int))
                == split_crlf(s@),
        decreases n - i,
    {
        let ghost before = out.deep_view();
        let ghost rest = s@.skip(i as int);
        let ghost cur = s@.subrange(start as int, i as int);
        assert(rest[0] == s@[i as int]);
        if i + 1 < n {
            assert(rest[1] == s@[i + 1]);
        }
        if cs[i] == '\r' && i + 1 < n && cs[i + 1] == '\n' {
            assert(starts_with_crlf(rest));
            assert(rest.skip(2) =~= s@.skip(i + 2));
            let w = s.substring_char(start, i).to_owned();
            out.push(w);
            assert(out.deep_view() =~= before + seq![cur]);
            assert(s@.subrange(i + 2, i + 2) =~= Seq::<char>::empty());
            assert(before + (seq![cur] + lines_from(s@.skip(i + 2), seq![]))
                =~= out.deep_view() + lines_from(s@.skip(i + 2), seq![]));
            start = i + 2;
            i = i + 2;
        } else {
            assert(!starts_with_crlf(rest));
            assert(rest.drop_first() =~= s@.skip(i + 1));
            assert(cur.push(s@[i as int]) =~= s@.subrange(start as int, i + 1));
            i = i + 1;
        }
    }
    let ghost before = out.deep_view();
    assert(s@.skip(n as int).len() == 0);
    let w = s.substring_char(start, n).to_owned();
    out.push(w);
    assert(out.deep_view() =~= before + seq![s@.subrange(start as int, n as int)]);
    out
}


/// Whether two strings hold the same characters.
pub fn str_equals(a: &str, b: &str) -> (eq: bool)
    ensures
        eq == (a@ == b@),
{
    let n = a.unicode_len();
    if n != b.unicode_len() {
        return false;
    }
    let mut i: usize = 0;
    while i < n
        invariant
            n == a@.len(),
            n == b@.len(),
            i <= n,
            forall|j: int| 0 <= j < i ==> a@[j] == b@[j],
        decreases n - i,
    {
        if a.get_char(i) != b.get_char(i) {
            return false;
        }
        i = i + 1;
    }
    assert(a@ =~= b@);
    true
}


/// `s` contains `"\r\n"` somewhere.
pub open spec fn has_crlf(s: Seq<char>) -> bool {
    exists|i: int| #![trigger s[i]] 0 <= i < s.len() - 1 && s[i] == '\r' && s[i + 1] == '\n'
}

/// No character of `s` is whitespace.
pub open spec fn no_ws(s: Seq<char>) -> bool {
    forall|i: int| 0 <= i < s.len() ==> !is_ws(s[i])
}

/// A line without `"\r\n"`, followed by `"\r\n"`, splits off as one line.
pub proof fn lemma_lines_from_line(a: Seq<char>, b: Seq<char>, cur: Seq<char>)
    requires
        !has_crlf(a),
    ensures
        lines_from(a + seq!['\r', '\n'] + b, cur) == seq![cur + a] + lines_from(b, seq![]),
    decreases a.len(),
{
    let t = a + seq!['\r', '\n'] + b;
    if a.len() == 0 {
        assert(t =~= seq!['\r', '\n'] + b);
        assert(t.skip(2) =~= b);
        assert(cur + a =~= cur);
    } else {
        assert(t[0] == a[0]);
        if a.len() >= 2 {
            assert(t[1] == a[1]);
            assert(!(a[0] == '\r' && a[1] == '\n'));
        } else {
            assert(t[1] == '\r');
        }
        assert(!starts_with_crlf(t));
        let a2 = a.drop_first();
        assert(!has_crlf(a2)) by {
            if has_crlf(a2) {
                let i = choose|i: int|
                    #![trigger a2[i]]
                    0 <= i < a2.len() - 1 && a2[i] == '\r' && a2[i + 1] == '\n';
                assert(a[i + 1] == '\r' && a[i + 2] == '\n');
            }
        }
        lemma_lines_from_line(a2, b, cur.push(a[0]));
        assert(t.drop_first() =~= a2 + seq!['\r', '\n'] + b);
        assert(cur.push(a[0]) + a2 =~= cur + a);
    }
}

/// Splitting into lines always yields at least one line.
pub proof fn lemma_lines_from_len(s: Seq<char>, cur: Seq<char>)
    ensures
        lines_from(s, cur).len() >= 1,
    decreases s.len(),
{
    if s.len() > 0 {
        if starts_with_crlf(s) {
            lemma_lines_from_len(s.skip(2), seq![]);
        } else {
            lemma_lines_from_len(s.drop_first(), cur.push(s[0]));
        }
    }
}

/// A word without whitespace is read into the current word.
pub proof fn lemma_words_from_word(w: Seq<char>, s: Seq<char>, cur: Seq<char>)
    requires
        no_ws(w),
    ensures
        words_from(w + s, cur) == words_from(s, cur + w),
    decreases w.len(),
{
    if w.len() == 0 {
        assert(w + s =~= s);
        assert(cur + w =~= cur);
    } else {
        let t = w + s;
        assert(t[0] == w[0]);
        assert(t.drop_first() =~= w.drop_first() + s);
        lemma_words_from_word(w.drop_first(), s, cur.push(w[0]));
        assert(cur.push(w[0]) + w.drop_first() =~= cur + w);
    }
}

/// The words of `a b c`, for words without whitespace and single spaces between.
pub proof fn lemma_split_ws_three(a: Seq<char>, b: Seq<char>, c: Seq<char>)
    requires
        no_ws(a),
        no_ws(b),
        no_ws(c),
        a.len() > 0,
        b.len() > 0,
        c.len() > 0,
    ensures
        split_ws(a + seq![' '] + b + seq![' '] + c) == seq![a, b, c],
{
    let t = a + seq![' '] + b + seq![' '] + c;
    let r1 = seq![' '] + b + seq![' '] + c;
    let r2 = seq![' '] + c;
    assert(t =~= a + r1);
    lemma_words_from_word(a, r1, seq![]);
    assert(seq![] + a =~= a);
    assert(r1[0] == ' ');
    assert(r1.drop_first() =~= b + r2);
    lemma_words_from_word(b, r2, seq![]);
    assert(seq![] + b =~= b);
    assert(r2[0] == ' ');
    assert(r2.drop_first() =~= c + Seq::<char>::empty());
    lemma_words_from_word(c, Seq::<char>::empty(), seq![]);
    assert(seq![] + c =~= c);
    assert(flush(a) + (flush(b) + seq![c]) =~= seq![a, b, c]);
}

/// Trimming text that starts with whitespace trims past it.
pub proof fn lemma_trim_space_prefix(v: Seq<char>)
    ensures
        trim(seq![' '] + v) == trim(v),
{
    let t = seq![' '] + v;
    assert(t.drop_first() =~= v);
}


/// A character with ASCII upper-case letters taken to lower case, as a number.
pub open spec fn ascii_fold(c: char) -> int {
    if 'A' <= c && c <= 'Z' {
        c as int + 32
    } else {
        c as int
    }
}

/// `str::eq_ignore_ascii_case`: equal up to the case of ASCII letters.
pub open spec fn eq_ignore_ascii_case(a: Seq<char>, b: Seq<char>) -> bool {
    &&& a.len() == b.len()
    &&& forall|i: int| 0 <= i < a.len() ==> ascii_fold(a[i]) == ascii_fold(b[i])
}

/// Whether two strings are equal up to the case of ASCII letters.
pub fn str_eq_ignore_ascii_case(a: &str, b: &str) -> (eq: bool)
    ensures
        eq == eq_ignore_ascii_case(a@, b@),
{
    let n = a.unicode_len();
    if n != b.unicode_len() {
        return false;
    }
    let mut i: usize = 0;
    while i < n
        invariant
            n == a@.len(),
            n == b@.len(),
            i <= n,
            forall|j: int| 0 <= j < i ==> ascii_fold(a@[j]) == ascii_fold(b@[j]),
        decreases n - i,
    {
        let c = a.get_char(i);
        let d = b.get_char(i);
        let fc: u32 = if 'A' <= c && c <= 'Z' { c as u32 + 32 } else { c as u32 };
        let fd: u32 = if 'A' <= d && d <= 'Z' { d as u32 + 32 } else { d as u32 };
        if fc != fd {
            return false;
        }
        i = i + 1;
    }
    true
}


/// `s` contains an empty line after a line end: `"\r\n\r\n"`.
pub open spec fn has_blank(s: Seq<char>) -> bool {
    exists|i: int|
        #![trigger s[i]]
        0 <= i && i + 4 <= s.len() && s[i] == '\r' && s[i + 1] == '\n' && s[i + 2] == '\r' && s[i
            + 3] == '\n'
}

/// `s` ends with a line end.
pub open spec fn ends_with_crlf(s: Seq<char>) -> bool {
    s.len() >= 2 && s[s.len() - 2] == '\r' && s[s.len() - 1] == '\n'
}

/// Text, a line end, and more text: the lines of the first part, then those of
/// the second.
pub proof fn lemma_lines_from_concat(x: Seq<char>, b: Seq<char>, cur: Seq<char>)
    ensures
        lines_from(x + seq!['\r', '\n'] + b, cur) == lines_from(x, cur) + lines_from(b, seq![]),
    decreases x.len(),
{
    let t = x + seq!['\r', '\n'] + b;
    if x.len() == 0 {
        assert(t =~= seq!['\r', '\n'] + b);
        assert(t.skip(2) =~= b);
    } else if starts_with_crlf(x) {
        assert(t[0] == x[0] && t[1] == x[1]);
        assert(t.skip(2) =~= x.skip(2) + seq!['\r', '\n'] + b);
        lemma_lines_from_concat(x.skip(2), b, seq![]);
        assert(seq![cur] + (lines_from(x.skip(2), seq![]) + lines_from(b, seq![])) =~= (seq![cur]
            + lines_from(x.skip(2), seq![])) + lines_from(b, seq![]));
    } else {
        assert(t[0] == x[0]);
        if x.len() >= 2 {
            assert(t[1] == x[1]);
        } else {
            assert(t[1] == '\r');
        }
        assert(!starts_with_crlf(t));
        assert(t.drop_first() =~= x.drop_first() + seq!['\r', '\n'] + b);
        lemma_lines_from_concat(x.drop_first(), b, cur.push(x[0]));
    }
}

/// A text with an empty line after a line end, or ending with a line end, has an
/// empty line after its first.
pub proof fn lemma_blank_gives_empty_line(s: Seq<char>, cur: Seq<char>)
    requires
        has_blank(s) || ends_with_crlf(s),
    ensures
        exists|j: int|
            1 <= j < lines_from(s, cur).len() && #[trigger] lines_from(s, cur)[j].len() == 0,
    decreases s.len(),
{
    let l = lines_from(s, cur);
    if starts_with_crlf(s) {
        let r = s.skip(2);
        let lr = lines_from(r, seq![]);
        assert(l =~= seq![cur] + lr);
        if r.len() == 0 {
            assert(lr == seq![Seq::<char>::empty()]);
            assert(l[1].len() == 0);
        } else if starts_with_crlf(r) {
            assert(lr[0] == Seq::<char>::empty());
            assert(l[1].len() == 0);
        } else {
            assert(has_blank(r) || ends_with_crlf(r)) by {
                if has_blank(s) {
                    let i = choose|i: int|
                        #![trigger s[i]]
                        0 <= i && i + 4 <= s.len() && s[i] == '\r' && s[i + 1] == '\n' && s[i + 2]
                            == '\r' && s[i + 3] == '\n';
                    if i == 0 {
                        assert(r[0] == s[2] && r[1] == s[3]);
                    } else if i == 1 {
                        assert(s[1] == '\n');
                    } else {
                        assert(r[i - 2] == s[i]);
                    }
                } else {
                    assert(r[r.len() - 2] == s[s.len() - 2]);
                }
            }
            lemma_blank_gives_empty_line(r, seq![]);
            let j = choose|j: int| 1 <= j < lr.len() && #[trigger] lr[j].len() == 0;
            assert(l[j + 1] == lr[j]);
        }
    } else {
        let r = s.drop_first();
        assert(s.len() > 0) by {
            if s.len() == 0 {
                assert(!has_blank(s));
            }
        }
        assert(has_blank(r) || ends_with_crlf(r)) by {
            if has_blank(s) {
                let i = choose|i: int|
                    #![trigger s[i]]
                    0 <= i && i + 4 <= s.len() && s[i] == '\r' && s[i + 1] == '\n' && s[i + 2]
                        == '\r' && s[i + 3] == '\n';
                assert(i != 0);
                assert(r[i - 1] == s[i]);
            } else {
                assert(s.len() != 2);
                assert(r[r.len() - 2] == s[s.len() - 2]);
            }
        }
        lemma_blank_gives_empty_line(r, cur.push(s[0]));
    }
}


/// The code points of the Unicode `White_Space` property, the whitespace of
/// `char::is_whitespace`: U+0009 to U+000D, U+0020, U+0085, U+00A0, U+1680,
/// U+2000 to U+200A, U+2028, U+2029, U+202F, U+205F and U+3000.
pub open spec fn white_space_code_points() -> Set<u32> {
    set![0x9u32, 0xAu32, 0xBu32, 0xCu32, 0xDu32, 0x20u32, 0x85u32, 0xA0u32, 0x1680u32, 0x2000u32, 0x2001u32, 0x2002u32, 0x2003u32, 0x2004u32, 0x2005u32, 0x2006u32, 0x2007u32, 0x2008u32, 0x2009u32, 0x200Au32, 0x2028u32, 0x2029u32, 0x202Fu32, 0x205Fu32, 0x3000u32]
}

/// A character is whitespace exactly when its code point is one of the 25 code points
/// of the Unicode `White_Space` property. In particular no visible ASCII character,
/// `!` to `~`, is whitespace, so text such as `q=rust&page=2` is one word.
pub proof fn lemma_whitespace_code_points(c: char)
    ensures
        is_ws(c) <==> white_space_code_points().contains(c as u32),
        0x21 <= c as u32 <= 0x7E ==> !is_ws(c),
{
    let v = c as u32;
    assert(white_space_code_points().contains(v) <==> (v == 0x9u32 || v == 0xAu32 || v == 0xBu32 || v == 0xCu32 || v == 0xDu32 || v == 0x20u32 || v == 0x85u32 || v == 0xA0u32 || v == 0x1680u32 || v == 0x2000u32 || v == 0x2001u32 || v == 0x2002u32 || v == 0x2003u32 || v == 0x2004u32 || v == 0x2005u32 || v == 0x2006u32 || v == 0x2007u32 || v == 0x2008u32 || v == 0x2009u32 || v == 0x200Au32 || v == 0x2028u32 || v == 0x2029u32 || v == 0x202Fu32 || v == 0x205Fu32 || v == 0x3000u32));
}

/// The words of a request line: three words without whitespace, separated by single
/// spaces, split into exactly those three words.
pub proof fn lemma_three_words(a: Seq<char>, b: Seq<char>, c: Seq<char>)
    requires
        a.len() > 0 && b.len() > 0 && c.len() > 0,
        forall|i: int| 0 <= i < a.len() ==> !white_space_code_points().contains(a[i] as u32),
        forall|i: int| 0 <= i < b.len() ==> !white_space_code_points().contains(b[i] as u32),
        forall|i: int| 0 <= i < c.len() ==> !white_space_code_points().contains(c[i] as u32),
    ensures
        split_ws(a + seq![' '] + b + seq![' '] + c) == seq![a, b, c],
{
    assert forall|i: int| 0 <= i < a.len() implies !is_ws(a[i]) by {
        lemma_whitespace_code_points(a[i]);
    }
    assert forall|i: int| 0 <= i < b.len() implies !is_ws(b[i]) by {
        lemma_whitespace_code_points(b[i]);
    }
    assert forall|i: int| 0 <= i < c.len() implies !is_ws(c[i]) by {
        lemma_whitespace_code_points(c[i]);
    }
    lemma_split_ws_three(a, b, c);
}


/// Trimming the start removes exactly the leading whitespace.
proof fn lemma_trim_start_bound(s: Seq<char>) -> (i: int)
    ensures
        0 <= i <= s.len(),
        trim_start(s) == s.skip(i),
        forall|x: int| 0 <= x < i ==> is_ws(s[x]),
        i < s.len() ==> !is_ws(s[i]),
    decreases s.len(),
{
    if s.len() > 0 && is_ws(s[0]) {
        let k = lemma_trim_start_bound(s.drop_first());
        assert(s.drop_first().skip(k) =~= s.skip(k + 1));
        assert forall|x: int| 0 <= x < k + 1 implies is_ws(s[x]) by {
            if x > 0 {
                assert(s[x] == s.drop_first()[x - 1]);
            }
        }
        if k + 1 < s.len() {
            assert(s[k + 1] == s.drop_first()[k]);
        }
        k + 1
    } else {
        assert(s.skip(0) =~= s);
        0
    }
}

/// Trimming the end removes exactly the trailing whitespace.
proof fn lemma_trim_end_bound(s: Seq<char>) -> (j: int)
    ensures
        0 <= j <= s.len(),
        trim_end(s) == s.take(j),
        forall|x: int| j <= x < s.len() ==> is_ws(s[x]),
        j > 0 ==> !is_ws(s[j - 1]),
    decreases s.len(),
{
    if s.len() > 0 && is_ws(s.last()) {
        let k = lemma_trim_end_bound(s.drop_last());
        assert(s.drop_last().take(k) =~= s.take(k));
        assert forall|x: int| k <= x < s.len() implies is_ws(s[x]) by {
            if x < s.len() - 1 {
                assert(s[x] == s.drop_last()[x]);
            }
        }
        if k > 0 {
            assert(s[k - 1] == s.drop_last()[k - 1]);
        }
        k
    } else {
        assert(s.take(s.len() as int) =~= s);
        s.len() as int
    }
}

/// `trim` removes the whitespace at both ends and nothing else: the result is a
/// stretch of the text, everything before and after it is whitespace, and it neither
/// starts nor ends with whitespace.
pub proof fn lemma_trim_removes_only_outer_whitespace(s: Seq<char>)
    ensures
        exists|i: int, j: int|
            0 <= i <= j <= s.len() && trim(s) == s.subrange(i, j) && (forall|x: int|
                0 <= x < i ==> is_ws(#[trigger] s[x])) && (forall|x: int|
                j <= x < s.len() ==> is_ws(#[trigger] s[x])) && (i < j ==> !is_ws(s[i]) && !is_ws(
                s[j - 1],
            )),
{
    let i = lemma_trim_start_bound(s);
    let t = s.skip(i);
    let k = lemma_trim_end_bound(t);
    let j = i + k;
    assert(t.take(k) =~= s.subrange(i, j));
    assert forall|x: int| j <= x < s.len() implies is_ws(#[trigger] s[x]) by {
        assert(s[x] == t[x - i]);
    }
    if i < j {
        assert(s[i] == t[0]);
        assert(s[j - 1] == t[k - 1]);
    }
    assert(0 <= i <= j <= s.len() && trim(s) == s.subrange(i, j));
}

} // verus!
