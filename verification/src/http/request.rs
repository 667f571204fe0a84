use super::{Method, Request};
use crate::str_map::StrMap;
use crate::text::{
    chars_of, find_first, first_index, lemma_first_index_is, spec_utf8_lossy, str_eq, substring,
    utf8_lossy,
};
use vstd::prelude::*;

verus! {

/// Carriage return.
pub const CR: u8 = 0x0D;

/// Line feed.
pub const LF: u8 = 0x0A;

/// A request as read from the wire: method, target, header fields and body.
pub struct Values {
    pub(crate) method: Method,
    pub(crate) target: String,
    pub(crate) options: StrMap,
    pub(crate) body: Vec<u8>,
}

/// The content of a parsed request.
pub struct RequestView {
    pub method: Method,
    pub target: Seq<char>,
    pub options: Map<Seq<char>, Seq<char>>,
    pub body: Seq<u8>,
}

impl View for Values {
    type V = RequestView;

    closed spec fn view(&self) -> RequestView {
        RequestView {
            method: self.method,
            target: self.target@,
            options: self.options.view(),
            body: self.body@,
        }
    }
}

/// Scans `buf` from position `i` for line breaks (CR followed by LF), the way the
/// parser does: a CR consumes the byte after it, and a line break that directly
/// follows another one (`last_end`) ends the head. Returns the positions of the CRs
/// that end lines, and the position of the LF that ends the head, if one is found.
pub open spec fn scan(buf: Seq<u8>, i: int, last_end: bool) -> (Seq<int>, Option<int>)
    decreases buf.len() - i,
{
    if i < 0 || i >= buf.len() {
        (Seq::empty(), None)
    } else if buf[i] == CR {
        if i + 1 < buf.len() {
            if buf[i + 1] == LF {
                if last_end {
                    (Seq::empty(), Some(i + 1))
                } else {
                    let rest = scan(buf, i + 2, true);
                    (seq![i] + rest.0, rest.1)
                }
            } else {
                scan(buf, i + 2, last_end)
            }
        } else {
            (Seq::empty(), None)
        }
    } else {
        scan(buf, i + 1, false)
    }
}

/// Where line `k` starts, given the positions `ends` of the line breaks before it.
pub open spec fn line_start(ends: Seq<int>, k: int) -> int {
    if k == 0 {
        0
    } else {
        ends[k - 1] + 2
    }
}

/// The text of line `k`.
pub open spec fn line_text(buf: Seq<u8>, ends: Seq<int>, k: int) -> Seq<char> {
    spec_utf8_lossy(buf.subrange(line_start(ends, k), ends[k]))
}

/// The method that `verb` names, if any.
pub open spec fn method_of(verb: Seq<char>) -> Option<Method> {
    if verb == "GET"@ {
        Some(Method::GET)
    } else if verb == "POST"@ {
        Some(Method::POST)
    } else if verb == "PUT"@ {
        Some(Method::PUT)
    } else if verb == "PATCH"@ {
        Some(Method::PATCH)
    } else if verb == "DELETE"@ {
        Some(Method::DELETE)
    } else if verb == "HEAD"@ {
        Some(Method::HEAD)
    } else if verb == "TRACE"@ {
        Some(Method::TRACE)
    } else if verb == "OPTIONS"@ {
        Some(Method::OPTIONS)
    } else if verb == "CONNECT"@ {
        Some(Method::CONNECT)
    } else {
        None
    }
}

/// The request line split up: the method named before the first space, and the
/// target between the first and the second space.
pub open spec fn request_line(line: Seq<char>) -> (Option<Method>, Option<Seq<char>>) {
    match first_index(line, ' ') {
        None => (None, None),
        Some(s) => {
            let rest = line.subrange(s + 1, line.len() as int);
            (
                method_of(line.subrange(0, s)),
                match first_index(rest, ' ') {
                    Some(e) => Some(rest.subrange(0, e)),
                    None => None,
                },
            )
        },
    }
}

/// `map` with the header line `line` added: the text before the first colon is the
/// key, the text after it the value. A line without a colon adds nothing.
pub open spec fn header_added(line: Seq<char>, map: Map<Seq<char>, Seq<char>>) -> Map<
    Seq<char>,
    Seq<char>,
> {
    match first_index(line, ':') {
        Some(p) => map.insert(line.subrange(0, p), line.subrange(p + 1, line.len() as int)),
        None => map,
    }
}

/// The header fields given by lines 1 up to `k` (exclusive).
pub open spec fn header_map(buf: Seq<u8>, ends: Seq<int>, k: int) -> Map<Seq<char>, Seq<char>>
    decreases k,
{
    if k <= 1 {
        Map::empty()
    } else {
        header_added(line_text(buf, ends, k - 1), header_map(buf, ends, k - 1))
    }
}

/// `s` without its trailing zero bytes.
pub open spec fn without_trailing_zeros(s: Seq<u8>) -> Seq<u8>
    decreases s.len(),
{
    if s.len() == 0 || s.last() != 0 {
        s
    } else {
        without_trailing_zeros(s.drop_last())
    }
}

/// The body: what follows the head (or the first byte, when no head end is found),
/// without trailing zero bytes.
pub open spec fn body_of(buf: Seq<u8>) -> Seq<u8> {
    let start = match scan(buf, 0, false).1 {
        Some(j) => j + 1,
        None => 1,
    };
    without_trailing_zeros(buf.subrange(start, buf.len() as int))
}

/// The request that `buf` holds, or `None` when its first line does not name a
/// known method and a target. A buffer without any line break is a GET of the
/// empty target.
pub open spec fn parse_request(buf: Seq<u8>) -> Option<RequestView> {
    let ends = scan(buf, 0, false).0;
    if ends.len() == 0 {
        Some(
            RequestView {
                method: Method::GET,
                target: Seq::empty(),
                options: Map::empty(),
                body: body_of(buf),
            },
        )
    } else {
        let (m, t) = request_line(line_text(buf, ends, 0));
        match (m, t) {
            (Some(m), Some(t)) => Some(
                RequestView {
                    method: m,
                    target: t,
                    options: header_map(buf, ends, ends.len() as int),
                    body: body_of(buf),
                },
            ),
            _ => None,
        }
    }
}

proof fn lemma_scan_bounds(buf: Seq<u8>, i: int, last_end: bool)
    requires
        0 <= i,
    ensures
        forall|k: int|
            0 <= k < scan(buf, i, last_end).0.len() ==> i <= #[trigger] scan(buf, i, last_end).0[k]
                && scan(buf, i, last_end).0[k] + 1 < buf.len(),
        forall|k: int|
            0 <= k && k + 1 < scan(buf, i, last_end).0.len() ==> #[trigger] scan(buf, i, last_end).0[k]
                + 2 <= scan(buf, i, last_end).0[k + 1],
        scan(buf, i, last_end).1 matches Some(j) ==> i < j < buf.len(),
        scan(buf, i, last_end).1 matches Some(j) ==> forall|k: int|
            0 <= k < scan(buf, i, last_end).0.len() ==> #[trigger] scan(buf, i, last_end).0[k] + 2
                <= j,
    decreases buf.len() - i,
{
    if i >= buf.len() {
    } else if buf[i] == CR {
        if i + 1 < buf.len() {
            if buf[i + 1] == LF {
                if !last_end {
                    lemma_scan_bounds(buf, i + 2, true);
                    let r = scan(buf, i + 2, true);
                    let s = scan(buf, i, last_end);
                    assert(s.0 =~= seq![i] + r.0);
                    assert forall|k: int| 0 <= k && k + 1 < s.0.len() implies #[trigger] s.0[k] + 2
                        <= s.0[k + 1] by {
                        if k > 0 {
                            assert(s.0[k] == r.0[k - 1]);
                            assert(s.0[k + 1] == r.0[k]);
                        } else {
                            assert(s.0[1] == r.0[0]);
                        }
                    }
                    assert forall|k: int| 0 <= k < s.0.len() implies i <= #[trigger] s.0[k]
                        && s.0[k] + 1 < buf.len() by {
                        if k > 0 {
                            assert(s.0[k] == r.0[k - 1]);
                        }
                    }
                    if s.1 is Some {
                        assert forall|k: int| 0 <= k < s.0.len() implies #[trigger] s.0[k] + 2
                            <= s.1->0 by {
                            if k > 0 {
                                assert(s.0[k] == r.0[k - 1]);
                            }
                        }
                    }
                }
            } else {
                lemma_scan_bounds(buf, i + 2, last_end);
            }
        }
    } else {
        lemma_scan_bounds(buf, i + 1, false);
    }
}

proof fn lemma_without_trailing_zeros(s: Seq<u8>, n: int)
    requires
        0 <= n <= s.len(),
        forall|j: int| n <= j < s.len() ==> s[j] == 0,
    ensures
        without_trailing_zeros(s) == without_trailing_zeros(s.take(n)),
    decreases s.len(),
{
    if s.len() > n {
        assert(s.drop_last().take(n) =~= s.take(n));
        lemma_without_trailing_zeros(s.drop_last(), n);
    } else {
        assert(s.take(n) =~= s);
    }
}

/// Each method is named by its upper-case name, and no two names name the same
/// method.
pub proof fn lemma_method_names()
    ensures
        method_of("GET"@) == Some(Method::GET),
        method_of("POST"@) == Some(Method::POST),
        method_of("PUT"@) == Some(Method::PUT),
        method_of("PATCH"@) == Some(Method::PATCH),
        method_of("DELETE"@) == Some(Method::DELETE),
        method_of("HEAD"@) == Some(Method::HEAD),
        method_of("TRACE"@) == Some(Method::TRACE),
        method_of("OPTIONS"@) == Some(Method::OPTIONS),
        method_of("CONNECT"@) == Some(Method::CONNECT),
        forall|a: Seq<char>, b: Seq<char>|
            #[trigger] method_of(a) is Some && #[trigger] method_of(b) == method_of(a) ==> a == b,
{
    reveal_strlit("GET");
    reveal_strlit("POST");
    reveal_strlit("PUT");
    reveal_strlit("PATCH");
    reveal_strlit("DELETE");
    reveal_strlit("HEAD");
    reveal_strlit("TRACE");
    reveal_strlit("OPTIONS");
    reveal_strlit("CONNECT");
    assert("GET"@.len() == 3 && "PUT"@.len() == 3 && "POST"@.len() == 4 && "HEAD"@.len() == 4);
    assert("PATCH"@.len() == 5 && "TRACE"@.len() == 5 && "DELETE"@.len() == 6);
    assert("OPTIONS"@.len() == 7 && "CONNECT"@.len() == 7);
    assert("PUT"@[0] != "GET"@[0]);
    assert("HEAD"@[0] != "POST"@[0]);
    assert("TRACE"@[0] != "PATCH"@[0]);
    assert("CONNECT"@[0] != "OPTIONS"@[0]);
}

/// A header line `K:V`, where the key `K` holds no colon, sets `K` to `V`: the
/// value is everything after the first colon, spaces and further colons included.
pub proof fn lemma_header_line(key: Seq<char>, value: Seq<char>, map: Map<Seq<char>, Seq<char>>)
    requires
        !key.contains(':'),
    ensures
        header_added(key + ":"@ + value, map) == map.insert(key, value),
{
    reveal_strlit(":");
    let line = key + ":"@ + value;
    let p = key.len() as int;
    assert(line[p] == ':');
    assert forall|j: int| 0 <= j < p implies line[j] != ':' by {
        assert(line[j] == key[j]);
    }
    lemma_first_index_is(line, ':', p);
    assert(line.subrange(0, p) =~= key);
    assert(line.subrange(p + 1, line.len() as int) =~= value);
}

/// Scanning from `i`, where no CR stands before the line break at `p`, finds that
/// line break first.
proof fn lemma_scan_first_break(buf: Seq<u8>, i: int, p: int)
    requires
        0 <= i <= p,
        p + 1 < buf.len(),
        buf[p] == CR,
        buf[p + 1] == LF,
        forall|j: int| i <= j < p ==> buf[j] != CR,
    ensures
        scan(buf, i, false).0.len() > 0,
        scan(buf, i, false).0[0] == p,
    decreases p - i,
{
    if i < p {
        lemma_scan_first_break(buf, i + 1, p);
    }
}

/// A request whose first line (the bytes before the first CR LF) reads `M T V`,
/// where `M` names a method and neither `M` nor the target `T` holds a space, is
/// parsed with that method and with `T` as its target exactly, query and fragment
/// included.
pub proof fn lemma_parse_request_line(
    line: Seq<u8>,
    rest: Seq<u8>,
    m: Seq<char>,
    t: Seq<char>,
    v: Seq<char>,
)
    requires
        forall|j: int| 0 <= j < line.len() ==> line[j] != CR,
        spec_utf8_lossy(line) == m + " "@ + t + " "@ + v,
        !m.contains(' '),
        !t.contains(' '),
        method_of(m) is Some,
    ensures
        parse_request(line + seq![CR, LF] + rest) matches Some(r) && r.target == t && Some(
            r.method,
        ) == method_of(m),
{
    reveal_strlit(" ");
    let buf = line + seq![CR, LF] + rest;
    let p = line.len() as int;
    assert(buf[p] == CR);
    assert(buf[p + 1] == LF);
    assert forall|j: int| 0 <= j < p implies buf[j] != CR by {
        assert(buf[j] == line[j]);
    }
    lemma_scan_first_break(buf, 0, p);
    let ends = scan(buf, 0, false).0;
    assert(buf.subrange(0, p) =~= line);
    assert(line_text(buf, ends, 0) == m + " "@ + t + " "@ + v);
    let text = m + " "@ + t + " "@ + v;
    let s = m.len() as int;
    assert(text[s] == ' ');
    assert forall|j: int| 0 <= j < s implies text[j] != ' ' by {
        assert(text[j] == m[j]);
    }
    lemma_first_index_is(text, ' ', s);
    assert(text.subrange(0, s) =~= m);
    let after = text.subrange(s + 1, text.len() as int);
    assert(after =~= t + " "@ + v);
    let e = t.len() as int;
    assert(after[e] == ' ');
    assert forall|j: int| 0 <= j < e implies after[j] != ' ' by {
        assert(after[j] == t[j]);
    }
    lemma_first_index_is(after, ' ', e);
    assert(after.subrange(0, e) =~= t);
}

impl Values {
    /// Parses a request from the bytes read off a connection. Returns `None` when
    /// the first line does not name a known method and a target.
    pub fn new(buffer: &[u8]) -> (r: Option<Values>)
        requires
            buffer@.len() > 0,
        ensures
            r matches Some(v) ==> parse_request(buffer@) == Some(v@),
            r is None ==> parse_request(buffer@) is None,
    {
        let ghost buf = buffer@;
        let ghost full = scan(buf, 0, false);
        let mut method = Method::GET;
        let mut target = String::new();
        let mut start: usize = 0;
        let mut last_end = false;
        let mut map = StrMap::new();
        let mut last_index: usize = 0;
        let mut first_line = true;
        let ghost mut ends: Seq<int> = Seq::empty();
        let mut i: usize = 0;
        proof {
            lemma_scan_bounds(buf, 0, false);
        }
        while i < buffer.len()
            invariant_except_break
                full == (ends + scan(buf, i as int, last_end).0, scan(buf, i as int, last_end).1),
                last_index == 0,
            invariant
                buf == buffer@,
                full == scan(buf, 0, false),
                buf.len() > 0,
                i <= buf.len(),
                start <= i,
                start as int == line_start(ends, ends.len() as int),
                first_line == (ends.len() == 0),
                ends.len() == 0 ==> method == Method::GET && target@ == Seq::<char>::empty(),
                ends.len() > 0 ==> request_line(line_text(buf, ends, 0)) == (
                    Some(method),
                    Some(target@),
                ),
                map.view() == header_map(buf, ends, ends.len() as int),
                forall|k: int| 0 <= k < ends.len() ==> #[trigger] full.0[k] == ends[k],
                ends.len() <= full.0.len(),
            ensures
                full == (ends, Some(last_index as int)) || (i == buf.len() && full == (
                    ends,
                    None::<int>,
                ) && last_index == 0),
                start as int == line_start(ends, ends.len() as int),
                first_line == (ends.len() == 0),
                ends.len() == 0 ==> method == Method::GET && target@ == Seq::<char>::empty(),
                ends.len() > 0 ==> request_line(line_text(buf, ends, 0)) == (
                    Some(method),
                    Some(target@),
                ),
                map.view() == header_map(buf, ends, ends.len() as int),
            decreases buf.len() - i,
        {
            proof {
                lemma_scan_bounds(buf, i as int, last_end);
            }
            if buffer[i] == CR {
                if i + 1 < buffer.len() {
                    let j = i + 1;
                    if buffer[j] == LF {
                        if last_end {
                            last_index = j;
                            assert(ends + Seq::<int>::empty() =~= ends);
                            break ;
                        }
                        last_end = true;
                        let ghost rest = scan(buf, i as int + 2, true);
                        assert(full.0 =~= ends.push(i as int) + rest.0);
                        let line = utf8_lossy(&buffer[start..i]);
                        let ghost new_ends = ends.push(i as int);
                        assert(line@ == line_text(buf, new_ends, ends.len() as int));
                        if first_line {
                            let tmp = Values::first_line(line);
                            match tmp.0 {
                                Some(x) => {
                                    method = x;
                                },
                                None => {
                                    proof {
                                        assert(full.0[0] == i);
                                        assert(line_text(buf, full.0, 0) == line_text(
                                            buf,
                                            new_ends,
                                            0,
                                        ));
                                    }
                                    return None;
                                },
                            }
                            match tmp.1 {
                                Some(x) => {
                                    target = x;
                                },
                                None => {
                                    proof {
                                        assert(full.0[0] == i);
                                        assert(line_text(buf, full.0, 0) == line_text(
                                            buf,
                                            new_ends,
                                            0,
                                        ));
                                    }
                                    return None;
                                },
                            }
                            first_line = false;
                        } else {
                            let ghost before = map.view();
                            Values::add_line(line, &mut map);
                            proof {
                                assert(line_text(buf, new_ends, 0) == line_text(buf, ends, 0));
                                assert forall|k: int| 0 <= k <= ends.len() implies header_map(
                                    buf,
                                    new_ends,
                                    k,
                                ) == header_map(buf, ends, k) by {
                                    lemma_header_map_prefix(buf, ends, new_ends, k);
                                }
                            }
                        }
                        proof {
                            if ends.len() == 0 {
                                assert(header_map(buf, new_ends, 1) == Map::<
                                    Seq<char>,
                                    Seq<char>,
                                >::empty());
                            }
                            ends = new_ends;
                        }
                        start = j + 1;
                    }
                    i = i + 2;
                } else {
                    i = i + 1;
                }
            } else {
                last_end = false;
                i = i + 1;
            }
        }
        proof {
            lemma_scan_bounds(buf, 0, false);
            if full.1 is Some {
                assert(full.1->0 < buf.len());
                assert(last_index < buf.len());
            }
        }
        let n = buffer.len();
        assert(last_index < n);
        let tail = &buffer[last_index + 1..n];
        let body = Values::extract_body(tail);
        let r = Values { method: method, target: target, options: map, body: to_vec(body) };
        assert(full.0 =~= ends);
        Some(r)
    }

    /// `buffer` without its trailing zero bytes.
    fn extract_body(buffer: &[u8]) -> (r: &[u8])
        ensures
            r@ == without_trailing_zeros(buffer@),
    {
        let mut i: usize = buffer.len();
        while i > 0
            invariant
                i <= buffer@.len(),
                forall|j: int| i <= j < buffer@.len() ==> buffer@[j] == 0,
            decreases i,
        {
            if buffer[i - 1] != 0 {
                proof {
                    lemma_without_trailing_zeros(buffer@, i as int);
                    assert(buffer@.subrange(0, i as int) =~= buffer@.take(i as int));
                }
                return &buffer[0..i];
            }
            i = i - 1;
        }
        proof {
            lemma_without_trailing_zeros(buffer@, 0);
            assert(buffer@.subrange(0, 0) =~= buffer@.take(0));
        }
        &buffer[0..0]
    }

    /// Splits the request line into the method and the target.
    fn first_line(line: String) -> (r: (Option<Method>, Option<String>))
        ensures
            request_line(line@) == (
                r.0,
                match r.1 {
                    Some(t) => Some(t@),
                    None => None,
                },
            ),
    {
        let chars = chars_of(line.as_str());
        let space = find_first(&chars, ' ');
        let mut method: Option<Method> = None;
        let mut target: Option<String> = None;
        if let Some(start) = space {
            let n = chars.len();
            assert(start < n);
            let verb = substring(line.as_str(), 0, start);
            method = match_method(verb.as_str());
            let sub = substring(line.as_str(), start + 1, n);
            let sub_chars = chars_of(sub.as_str());
            let space2 = find_first(&sub_chars, ' ');
            if let Some(end) = space2 {
                target = Some(substring(sub.as_str(), 0, end));
            }
        }
        (method, target)
    }

    /// Adds a header line to `map`: the text before the first colon is the key, the
    /// text after it the value.
    fn add_line(line: String, map: &mut StrMap)
        ensures
            final(map).view() == header_added(line@, old(map).view()),
    {
        let chars = chars_of(line.as_str());
        let colon = find_first(&chars, ':');
        if let Some(loc) = colon {
            let n = chars.len();
            assert(loc < n);
            let key = substring(line.as_str(), 0, loc);
            let value = substring(line.as_str(), loc + 1, n);
            map.insert(key, value);
        }
    }

    /// The request as handed to route functions.
    pub fn into_request(self) -> (r: Request)
        ensures
            r.method == self@.method,
            r.target@ == self@.target,
            r.options.view() == self@.options,
            r.body@ == self@.body,
    {
        Request { method: self.method, target: self.target, options: self.options, body: self.body }
    }

    /// The body of the request.
    pub fn body(&self) -> (r: &Vec<u8>)
        ensures
            r@ == self@.body,
    {
        &self.body
    }
}

proof fn lemma_header_map_prefix(buf: Seq<u8>, a: Seq<int>, b: Seq<int>, k: int)
    requires
        0 <= k <= a.len() <= b.len(),
        forall|j: int| 0 <= j < a.len() ==> a[j] == b[j],
    ensures
        header_map(buf, b, k) == header_map(buf, a, k),
    decreases k,
{
    if k > 1 {
        lemma_header_map_prefix(buf, a, b, k - 1);
        assert(line_text(buf, a, k - 1) == line_text(buf, b, k - 1));
    }
}

/// A copy of `arr`.
fn to_vec(arr: &[u8]) -> (v: Vec<u8>)
    ensures
        v@ == arr@,
{
    let mut v: Vec<u8> = Vec::new();
    let mut i: usize = 0;
    while i < arr.len()
        invariant
            i <= arr@.len(),
            v@ == arr@.take(i as int),
        decreases arr@.len() - i,
    {
        v.push(arr[i]);
        assert(arr@.take(i as int + 1) =~= arr@.take(i as int).push(arr@[i as int]));
        i = i + 1;
    }
    assert(arr@.take(arr@.len() as int) =~= arr@);
    v
}

/// The method that `verb` names, if any.
pub fn match_method(verb: &str) -> (r: Option<Method>)
    ensures
        r == method_of(verb@),
{
    if str_eq(verb, "GET") {
        Some(Method::GET)
    } else if str_eq(verb, "POST") {
        Some(Method::POST)
    } else if str_eq(verb, "PUT") {
        Some(Method::PUT)
    } else if str_eq(verb, "PATCH") {
        Some(Method::PATCH)
    } else if str_eq(verb, "DELETE") {
        Some(Method::DELETE)
    } else if str_eq(verb, "HEAD") {
        Some(Method::HEAD)
    } else if str_eq(verb, "TRACE") {
        Some(Method::TRACE)
    } else if str_eq(verb, "OPTIONS") {
        Some(Method::OPTIONS)
    } else if str_eq(verb, "CONNECT") {
        Some(Method::CONNECT)
    } else {
        None
    }
}

/// The bytes of `lines`, each followed by a line break (CR LF).
pub open spec fn lines_bytes(lines: Seq<Seq<u8>>) -> Seq<u8>
    decreases lines.len(),
{
    if lines.len() == 0 {
        Seq::empty()
    } else {
        lines_bytes(lines.drop_last()) + lines.last() + seq![CR, LF]
    }
}

/// The header fields that the texts of header lines give, line after line: each
/// line with a colon sets the text before its first colon to the text after it.
pub open spec fn fields_of(texts: Seq<Seq<char>>) -> Map<Seq<char>, Seq<char>>
    decreases texts.len(),
{
    if texts.len() == 0 {
        Map::empty()
    } else {
        header_added(texts.last(), fields_of(texts.drop_last()))
    }
}

proof fn lemma_lines_bytes_append(a: Seq<Seq<u8>>, b: Seq<Seq<u8>>)
    ensures
        lines_bytes(a + b) == lines_bytes(a) + lines_bytes(b),
    decreases b.len(),
{
    if b.len() == 0 {
        assert(a + b =~= a);
        assert(lines_bytes(a) + lines_bytes(b) =~= lines_bytes(a));
    } else {
        assert((a + b).drop_last() =~= a + b.drop_last());
        lemma_lines_bytes_append(a, b.drop_last());
        assert(lines_bytes(a + b) =~= lines_bytes(a) + lines_bytes(b));
    }
}

/// Where line `k` of `lines` starts in their bytes.
pub open spec fn line_offset(lines: Seq<Seq<u8>>, k: int) -> int {
    lines_bytes(lines.take(k)).len() as int
}

/// The bytes of `lines` are those before line `k`, line `k`, a line break, and the
/// lines after it.
proof fn lemma_lines_bytes_at(lines: Seq<Seq<u8>>, k: int)
    requires
        0 <= k < lines.len(),
    ensures
        lines_bytes(lines) == lines_bytes(lines.take(k)) + lines[k] + seq![CR, LF] + lines_bytes(
            lines.skip(k + 1),
        ),
        line_offset(lines, k + 1) == line_offset(lines, k) + lines[k].len() + 2,
{
    assert(lines =~= lines.take(k + 1) + lines.skip(k + 1));
    lemma_lines_bytes_append(lines.take(k + 1), lines.skip(k + 1));
    assert(lines.take(k + 1).drop_last() =~= lines.take(k));
    assert(lines.take(k + 1).last() == lines[k]);
}

/// Scanning a line that holds no CR and ends in a line break finds that line break,
/// then goes on after it.
proof fn lemma_scan_line(buf: Seq<u8>, i: int, p: int, last_end: bool)
    requires
        0 <= i <= p,
        p + 1 < buf.len(),
        buf[p] == CR,
        buf[p + 1] == LF,
        forall|j: int| i <= j < p ==> buf[j] != CR,
        !last_end || i < p,
    ensures
        scan(buf, i, last_end) == (
            seq![p] + scan(buf, p + 2, true).0,
            scan(buf, p + 2, true).1,
        ),
    decreases p - i,
{
    if i < p {
        lemma_scan_line(buf, i + 1, p, false);
    }
}

/// Scanning the bytes of request lines (each after the first not empty, none holding
/// a CR) followed by an empty line finds the line breaks that end the lines, and the
/// end of the head at the LF of the empty line.
proof fn lemma_scan_lines(lines: Seq<Seq<u8>>, tail: Seq<u8>, k: int, last_end: bool)
    requires
        last_end == (k > 0),
        0 <= k <= lines.len(),
        lines.len() >= 1,
        forall|j: int, b: int|
            0 <= j < lines.len() && 0 <= b < lines[j].len() ==> #[trigger] lines[j][b] != CR,
        forall|j: int| 1 <= j < lines.len() ==> (#[trigger] lines[j]).len() > 0,
        tail.len() >= 2,
        tail[0] == CR,
        tail[1] == LF,
    ensures
        scan(lines_bytes(lines) + tail, line_offset(lines, k), last_end).0.len() == lines.len() - k,
        forall|j: int|
            k <= j < lines.len() ==> #[trigger] scan(
                lines_bytes(lines) + tail,
                line_offset(lines, k),
                last_end,
            ).0[j - k] == line_offset(lines, j) + lines[j].len(),
        scan(lines_bytes(lines) + tail, line_offset(lines, k), last_end).1 == Some(
            lines_bytes(lines).len() as int + 1,
        ),
    decreases lines.len() - k,
{
    let buf = lines_bytes(lines) + tail;
    let n = lines.len() as int;
    let i = line_offset(lines, k);
    if k == n {
        assert(lines.take(n) =~= lines);
        assert(buf[i] == CR);
        assert(buf[i + 1] == LF);
    } else {
        lemma_lines_bytes_at(lines, k);
        let p = i + lines[k].len();
        assert(buf[p] == CR);
        assert(buf[p + 1] == LF);
        assert forall|j: int| i <= j < p implies buf[j] != CR by {
            assert(buf[j] == lines[k][j - i]);
        }
        lemma_scan_line(buf, i, p, last_end);
        lemma_scan_lines(lines, tail, k + 1, true);
        assert(p + 2 == line_offset(lines, k + 1));
        let r = scan(buf, p + 2, true);
        let s = scan(buf, i, last_end);
        assert(s.0 == seq![p] + r.0);
        assert forall|j: int| k <= j < n implies #[trigger] s.0[j - k] == line_offset(lines, j)
            + lines[j].len() by {
            if j > k {
                assert(s.0[j - k] == r.0[j - (k + 1)]);
                assert(r.0[j - (k + 1)] == line_offset(lines, j) + lines[j].len());
            } else {
                assert(s.0[0] == p);
            }
        }
    }
}

/// The header fields of lines 1 up to `k` are those of their texts.
proof fn lemma_header_map_lines(buf: Seq<u8>, ends: Seq<int>, lines: Seq<Seq<u8>>, k: int)
    requires
        1 <= k <= ends.len(),
        ends.len() == lines.len(),
        forall|j: int| 0 <= j < ends.len() ==> line_text(buf, ends, j) == spec_utf8_lossy(
            #[trigger] lines[j],
        ),
    ensures
        header_map(buf, ends, k) == fields_of(
            Seq::new((k - 1) as nat, |j: int| spec_utf8_lossy(lines[j + 1])),
        ),
    decreases k,
{
    let texts = Seq::new((k - 1) as nat, |j: int| spec_utf8_lossy(lines[j + 1]));
    if k > 1 {
        lemma_header_map_lines(buf, ends, lines, k - 1);
        assert(texts.drop_last() =~= Seq::new((k - 2) as nat, |j: int| spec_utf8_lossy(lines[j + 1])));
        assert(texts.last() == spec_utf8_lossy(lines[k - 1]));
    }
}

/// A request made of a request line `M T V` (a method name and a target without
/// spaces), header lines and an empty line, then a body and zero bytes to fill the
/// buffer, is parsed into that method and target, the header fields that its
/// header lines give, and that body. Every line after the first is not empty (an
/// empty line ends the head), no line holds a CR, and the body does not end in a
/// zero byte.
pub proof fn lemma_parse_request_lines(
    lines: Seq<Seq<u8>>,
    body: Seq<u8>,
    zeros: nat,
    m: Seq<char>,
    t: Seq<char>,
    v: Seq<char>,
)
    requires
        lines.len() >= 1,
        forall|j: int, b: int|
            0 <= j < lines.len() && 0 <= b < lines[j].len() ==> #[trigger] lines[j][b] != CR,
        forall|j: int| 1 <= j < lines.len() ==> (#[trigger] lines[j]).len() > 0,
        spec_utf8_lossy(lines[0]) == m + " "@ + t + " "@ + v,
        !m.contains(' '),
        !t.contains(' '),
        method_of(m) is Some,
        body.len() == 0 || body.last() != 0,
    ensures
        parse_request(lines_bytes(lines) + seq![CR, LF] + body + Seq::new(zeros, |i: int| 0u8))
            matches Some(r) && Some(r.method) == method_of(m) && r.target == t && r.body == body
            && r.options == fields_of(
            Seq::new((lines.len() - 1) as nat, |j: int| spec_utf8_lossy(lines[j + 1])),
        ),
{
    reveal_strlit(" ");
    let tail = seq![CR, LF] + body + Seq::new(zeros, |i: int| 0u8);
    let buf = lines_bytes(lines) + tail;
    assert(lines_bytes(lines) + seq![CR, LF] + body + Seq::new(zeros, |i: int| 0u8) =~= buf);
    let n = lines.len() as int;
    lemma_scan_lines(lines, tail, 0, false);
    assert(lines.take(0) =~= Seq::<Seq<u8>>::empty());
    assert(line_offset(lines, 0) == 0);
    let ends = scan(buf, 0, false).0;
    assert forall|j: int| 0 <= j < n implies line_text(buf, ends, j) == spec_utf8_lossy(
        #[trigger] lines[j],
    ) by {
        lemma_lines_bytes_at(lines, j);
        let o = line_offset(lines, j);
        assert(ends[j] == o + lines[j].len());
        if j > 0 {
            lemma_lines_bytes_at(lines, j - 1);
            assert(ends[j - 1] == line_offset(lines, j - 1) + lines[j - 1].len());
        }
        assert(line_start(ends, j) == o);
        assert(buf.subrange(o, o + lines[j].len()) =~= lines[j]);
    }
    lemma_header_map_lines(buf, ends, lines, n);
    // the request line
    let text = m + " "@ + t + " "@ + v;
    let s = m.len() as int;
    assert(text[s] == ' ');
    assert forall|j: int| 0 <= j < s implies text[j] != ' ' by {
        assert(text[j] == m[j]);
    }
    lemma_first_index_is(text, ' ', s);
    assert(text.subrange(0, s) =~= m);
    let after = text.subrange(s + 1, text.len() as int);
    assert(after =~= t + " "@ + v);
    let e = t.len() as int;
    assert(after[e] == ' ');
    assert forall|j: int| 0 <= j < e implies after[j] != ' ' by {
        assert(after[j] == t[j]);
    }
    lemma_first_index_is(after, ' ', e);
    assert(after.subrange(0, e) =~= t);
    // the body
    let h = lines_bytes(lines).len() as int;
    let rest = buf.subrange(h + 2, buf.len() as int);
    assert(rest =~= body + Seq::new(zeros, |i: int| 0u8));
    lemma_without_trailing_zeros(rest, body.len() as int);
    assert(rest.take(body.len() as int) =~= body);
}

} // verus!
