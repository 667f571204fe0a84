use super::{ContentType, Response};
use vstd::prelude::*;
use vstd::utf8::encode_utf8;

verus! {

/// The decimal digit `d` as a character.
pub open spec fn digit_char(d: int) -> char {
    if d == 0 {
        '0'
    } else if d == 1 {
        '1'
    } else if d == 2 {
        '2'
    } else if d == 3 {
        '3'
    } else if d == 4 {
        '4'
    } else if d == 5 {
        '5'
    } else if d == 6 {
        '6'
    } else if d == 7 {
        '7'
    } else if d == 8 {
        '8'
    } else {
        '9'
    }
}

/// The decimal notation of `n`, without leading zeros.
pub open spec fn decimal(n: nat) -> Seq<char>
    decreases n,
{
    if n < 10 {
        seq![digit_char(n as int)]
    } else {
        decimal(n / 10).push(digit_char((n % 10) as int))
    }
}

/// The reason phrase that goes with a status code; empty for codes without one.
pub open spec fn status_message(code: u32) -> Seq<char> {
    match code {
        100 => "Continue"@,
        101 => "Switching Protocols"@,
        102 => "Processing"@,
        200 => "OK"@,
        201 => "Created"@,
        202 => "Accepted"@,
        203 => "Non-authoritative Information"@,
        204 => "No Content"@,
        205 => "Reset Content"@,
        206 => "Partial Content"@,
        207 => "Multi-Status"@,
        208 => "Already Reported"@,
        226 => "IM Used"@,
        300 => "Multiple Choices"@,
        301 => "Moved Permanently"@,
        302 => "Found"@,
        303 => "See Other"@,
        304 => "Not Modified"@,
        305 => "Use Proxy"@,
        307 => "Temporary Redirect"@,
        308 => "Permanent Redirect"@,
        400 => "Bad Request"@,
        401 => "Unauthorized"@,
        402 => "Payment Required"@,
        403 => "Forbidden"@,
        404 => "Not Found"@,
        405 => "Method Not Allowed"@,
        406 => "Not Acceptable"@,
        407 => "Proxy Authentication Required"@,
        408 => "Request Timeout"@,
        409 => "Conflict"@,
        410 => "Gone"@,
        411 => "Length Required"@,
        412 => "Precondition Failed"@,
        413 => "Payload Too Large"@,
        414 => "Request-URI Too Long"@,
        415 => "Unsupported Media Type"@,
        416 => "Requested Range Not Satisfiable"@,
        417 => "Expectation Failed"@,
        418 => "I'm a teapot"@,
        421 => "Misdirected Request"@,
        422 => "Unprocessable Entity"@,
        423 => "Locked"@,
        424 => "Failed Dependency"@,
        426 => "Upgrade Required"@,
        428 => "Precondition Required"@,
        429 => "Too Many Requests"@,
        431 => "Request Header Fields Too Large"@,
        444 => "Connection Closed Without Response"@,
        451 => "Unavailable For Legal Reasons"@,
        499 => "Client Closed Request"@,
        500 => "Internal Server Error"@,
        501 => "Not Implemented"@,
        502 => "Bad Gateway"@,
        503 => "Service Unavailable"@,
        504 => "Gateway Timeout"@,
        505 => "HTTP Version Not Supported"@,
        506 => "Variant Also Negotiates"@,
        507 => "Insufficient Storage"@,
        508 => "Loop Detected"@,
        510 => "Not Extended"@,
        511 => "Network Authentication Required"@,
        599 => "Network Connect Timeout Error"@,
        _ => ""@,
    }
}

/// The status line of a response with status `status`, line break included.
pub open spec fn status_line(status: u32) -> Seq<char> {
    "HTTP/1.1 "@ + decimal(status as nat) + " "@ + status_message(status) + "\r\n"@
}

/// The header lines `fields`, each followed by a line break.
pub open spec fn field_lines(fields: Seq<Seq<char>>) -> Seq<char>
    decreases fields.len(),
{
    if fields.len() == 0 {
        Seq::empty()
    } else {
        field_lines(fields.drop_last()) + fields.last() + "\r\n"@
    }
}

/// The status line followed by the header lines of `r`.
pub open spec fn head_of(r: Response) -> Seq<char> {
    status_line(r.status) + field_lines(r.field_views())
}

/// The response head as `render` gives it: the head and the blank line that ends it.
pub open spec fn rendered(r: Response) -> Seq<char> {
    head_of(r) + "\r\n"@
}

/// The bytes that `to_bytes` writes for `r`: the encoded head, then the body
/// (no blank line stands between them).
pub open spec fn wire_bytes(r: Response) -> Seq<u8> {
    encode_utf8(head_of(r)) + r.body@
}

/// The bytes on the wire hold the rendered head less the blank line that ends it,
/// followed by the body.
pub proof fn lemma_wire_bytes_render(r: Response)
    ensures
        encode_utf8(rendered(r)) == encode_utf8(head_of(r)) + seq![0x0Du8, 0x0Au8],
        wire_bytes(r) == encode_utf8(head_of(r)) + r.body@,
{
    reveal_strlit("\r\n");
    lemma_encode_concat(head_of(r), "\r\n"@);
    let crlf = "\r\n"@;
    assert(crlf =~= seq!['\r', '\n']);
    assert(vstd::utf8::is_ascii_chars(crlf));
    vstd::utf8::is_ascii_chars_encode_utf8(crlf);
    assert(crlf[0] as u8 == 0x0Du8);
    assert(crlf[1] as u8 == 0x0Au8);
    assert(encode_utf8(crlf) =~= seq![0x0Du8, 0x0Au8]);
}

/// Encoding a concatenation encodes each part.
proof fn lemma_encode_concat(a: Seq<char>, b: Seq<char>)
    ensures
        encode_utf8(a + b) == encode_utf8(a) + encode_utf8(b),
    decreases a.len(),
{
    if a.len() == 0 {
        assert(a + b =~= b);
        assert(encode_utf8(a) =~= Seq::<u8>::empty());
        assert(encode_utf8(a) + encode_utf8(b) =~= encode_utf8(b));
    } else {
        assert((a + b)[0] == a[0]);
        assert((a + b).drop_first() =~= a.drop_first() + b);
        lemma_encode_concat(a.drop_first(), b);
        assert(encode_utf8(a + b) =~= encode_utf8(a) + encode_utf8(b));
    }
}

proof fn lemma_field_lines_step(fields: Seq<Seq<char>>, i: int)
    requires
        0 <= i < fields.len(),
    ensures
        field_lines(fields.take(i + 1)) == field_lines(fields.take(i)) + fields[i] + "\r\n"@,
{
    assert(fields.take(i + 1).drop_last() =~= fields.take(i));
}

/// The characters of the digit `d`.
fn digit_str(d: u32) -> (s: &'static str)
    requires
        d < 10,
    ensures
        s@ == seq![digit_char(d as int)],
{
    if d == 0 {
        proof { reveal_strlit("0"); }
        "0"
    } else if d == 1 {
        proof { reveal_strlit("1"); }
        "1"
    } else if d == 2 {
        proof { reveal_strlit("2"); }
        "2"
    } else if d == 3 {
        proof { reveal_strlit("3"); }
        "3"
    } else if d == 4 {
        proof { reveal_strlit("4"); }
        "4"
    } else if d == 5 {
        proof { reveal_strlit("5"); }
        "5"
    } else if d == 6 {
        proof { reveal_strlit("6"); }
        "6"
    } else if d == 7 {
        proof { reveal_strlit("7"); }
        "7"
    } else if d == 8 {
        proof { reveal_strlit("8"); }
        "8"
    } else {
        proof { reveal_strlit("9"); }
        "9"
    }
}

/// The decimal notation of `n`.
pub fn decimal_string(n: u32) -> (s: String)
    ensures
        s@ == decimal(n as nat),
    decreases n,
{
    if n < 10 {
        digit_str(n).to_owned()
    } else {
        let mut s = decimal_string(n / 10);
        s.append(digit_str(n % 10));
        s
    }
}

/// Appends the UTF-8 bytes of `string` to `vec`.
fn push_str(vec: &mut Vec<u8>, string: &str)
    ensures
        final(vec)@ == old(vec)@ + encode_utf8(string@),
{
    let bytes = string.as_bytes();
    let ghost start = vec@;
    let mut i: usize = 0;
    while i < bytes.len()
        invariant
            i <= bytes@.len(),
            bytes@ == encode_utf8(string@),
            vec@ == start + bytes@.take(i as int),
        decreases bytes@.len() - i,
    {
        vec.push(bytes[i]);
        assert(bytes@.take(i as int + 1) =~= bytes@.take(i as int).push(bytes@[i as int]));
        i = i + 1;
    }
    assert(bytes@.take(bytes@.len() as int) =~= bytes@);
}

impl Response {
    /// The header lines of the response as character sequences.
    pub open spec fn field_views(self) -> Seq<Seq<char>> {
        self.fields@.map_values(|f: String| f@)
    }

    /// A response with status 200, no header lines and an empty body.
    pub fn new() -> (r: Response)
        ensures
            r.status == 200,
            r.fields@.len() == 0,
            r.content_type == ContentType::HTML,
            r.body@.len() == 0,
    {
        Response { status: 200, fields: Vec::new(), content_type: ContentType::HTML, body: Vec::new() }
    }

    /// Makes the UTF-8 bytes of `message` the body of the response.
    pub fn send_message(&mut self, message: &str)
        ensures
            final(self).body@ == encode_utf8(message@),
            final(self).status == old(self).status,
            final(self).fields == old(self).fields,
            final(self).content_type == old(self).content_type,
    {
        let mut bytes: Vec<u8> = Vec::new();
        push_str(&mut bytes, message);
        assert(bytes@ =~= encode_utf8(message@));
        self.body = bytes;
    }

    /// Sets the status code; returns the response for further changes.
    pub fn set_status(&mut self, new: u32) -> (r: &mut Response)
        ensures
            r.status == new,
            r.fields == old(self).fields,
            r.content_type == old(self).content_type,
            r.body == old(self).body,
            *final(self) == *final(r),
    {
        self.status = new;
        self
    }

    /// Appends a header line.
    pub fn add_header(&mut self, header: String)
        ensures
            final(self).fields@ == old(self).fields@.push(header),
            final(self).status == old(self).status,
            final(self).content_type == old(self).content_type,
            final(self).body == old(self).body,
    {
        self.fields.push(header);
    }

    /// The response head as text: status line, header lines and the blank line.
    pub fn render(&self) -> (r: String)
        ensures
            r@ == rendered(*self),
    {
        let mut header = "HTTP/1.1 ".to_owned();
        let status = decimal_string(self.status);
        header.append(status.as_str());
        header.append(" ");
        let message = map_status_message(self.status);
        header.append(message.as_str());
        header.append("\r\n");
        let ghost fv = self.field_views();
        assert(header@ =~= status_line(self.status) + field_lines(fv.take(0)));
        let mut i: usize = 0;
        while i < self.fields.len()
            invariant
                i <= self.fields@.len(),
                fv == self.field_views(),
                header@ == status_line(self.status) + field_lines(fv.take(i as int)),
            decreases self.fields@.len() - i,
        {
            proof {
                lemma_field_lines_step(fv, i as int);
            }
            header.append(self.fields[i].as_str());
            header.append("\r\n");
            assert(header@ =~= status_line(self.status) + field_lines(fv.take(i as int + 1)));
            i = i + 1;
        }
        assert(fv.take(fv.len() as int) =~= fv);
        header.append("\r\n");
        header
    }

    /// The response as bytes for the wire: the status line, the header lines and the body.
    pub fn to_bytes(&self) -> (r: Vec<u8>)
        ensures
            r@ == wire_bytes(*self),
    {
        let mut res: Vec<u8> = Vec::new();
        push_str(&mut res, "HTTP/1.1 ");
        let status = decimal_string(self.status);
        push_str(&mut res, status.as_str());
        push_str(&mut res, " ");
        let message = map_status_message(self.status);
        push_str(&mut res, message.as_str());
        push_str(&mut res, "\r\n");
        let ghost fv = self.field_views();
        proof {
            let d = decimal(self.status as nat);
            let m = status_message(self.status);
            lemma_encode_concat("HTTP/1.1 "@, d);
            lemma_encode_concat("HTTP/1.1 "@ + d, " "@);
            lemma_encode_concat("HTTP/1.1 "@ + d + " "@, m);
            lemma_encode_concat("HTTP/1.1 "@ + d + " "@ + m, "\r\n"@);
            assert(status_line(self.status) + field_lines(fv.take(0)) =~= status_line(
                self.status,
            ));
            assert(res@ =~= encode_utf8(status_line(self.status) + field_lines(fv.take(0))));
        }
        let mut i: usize = 0;
        while i < self.fields.len()
            invariant
                i <= self.fields@.len(),
                fv == self.field_views(),
                res@ == encode_utf8(status_line(self.status) + field_lines(fv.take(i as int))),
            decreases self.fields@.len() - i,
        {
            let ghost prefix = status_line(self.status) + field_lines(fv.take(i as int));
            push_str(&mut res, self.fields[i].as_str());
            push_str(&mut res, "\r\n");
            proof {
                lemma_field_lines_step(fv, i as int);
                lemma_encode_concat(prefix, fv[i as int]);
                lemma_encode_concat(prefix + fv[i as int], "\r\n"@);
                assert(status_line(self.status) + field_lines(fv.take(i as int + 1)) =~= prefix
                    + fv[i as int] + "\r\n"@);
            }
            i = i + 1;
        }
        assert(fv.take(fv.len() as int) =~= fv);
        let ghost head = res@;
        let mut j: usize = 0;
        while j < self.body.len()
            invariant
                j <= self.body@.len(),
                res@ == head + self.body@.take(j as int),
            decreases self.body@.len() - j,
        {
            res.push(self.body[j]);
            assert(self.body@.take(j as int + 1) =~= self.body@.take(j as int).push(
                self.body@[j as int],
            ));
            j = j + 1;
        }
        assert(self.body@.take(self.body@.len() as int) =~= self.body@);
        res
    }
}

/// The reason phrase for a status code; empty for codes without one.
pub fn map_status_message(code: u32) -> (r: String)
    ensures
        r@ == status_message(code),
{
    let mess = match code {
        100 => "Continue",
        101 => "Switching Protocols",
        102 => "Processing",
        200 => "OK",
        201 => "Created",
        202 => "Accepted",
        203 => "Non-authoritative Information",
        204 => "No Content",
        205 => "Reset Content",
        206 => "Partial Content",
        207 => "Multi-Status",
        208 => "Already Reported",
        226 => "IM Used",
        300 => "Multiple Choices",
        301 => "Moved Permanently",
        302 => "Found",
        303 => "See Other",
        304 => "Not Modified",
        305 => "Use Proxy",
        307 => "Temporary Redirect",
        308 => "Permanent Redirect",
        400 => "Bad Request",
        401 => "Unauthorized",
        402 => "Payment Required",
        403 => "Forbidden",
        404 => "Not Found",
        405 => "Method Not Allowed",
        406 => "Not Acceptable",
        407 => "Proxy Authentication Required",
        408 => "Request Timeout",
        409 => "Conflict",
        410 => "Gone",
        411 => "Length Required",
        412 => "Precondition Failed",
        413 => "Payload Too Large",
        414 => "Request-URI Too Long",
        415 => "Unsupported Media Type",
        416 => "Requested Range Not Satisfiable",
        417 => "Expectation Failed",
        418 => "I'm a teapot",
        421 => "Misdirected Request",
        422 => "Unprocessable Entity",
        423 => "Locked",
        424 => "Failed Dependency",
        426 => "Upgrade Required",
        428 => "Precondition Required",
        429 => "Too Many Requests",
        431 => "Request Header Fields Too Large",
        444 => "Connection Closed Without Response",
        451 => "Unavailable For Legal Reasons",
        499 => "Client Closed Request",
        500 => "Internal Server Error",
        501 => "Not Implemented",
        502 => "Bad Gateway",
        503 => "Service Unavailable",
        504 => "Gateway Timeout",
        505 => "HTTP Version Not Supported",
        506 => "Variant Also Negotiates",
        507 => "Insufficient Storage",
        508 => "Loop Detected",
        510 => "Not Extended",
        511 => "Network Authentication Required",
        599 => "Network Connect Timeout Error",
        _ => "",
    };
    mess.to_owned()
}

/// The number that the decimal digits `s` stand for, most significant first, each
/// digit read as its distance from `'0'`.
pub open spec fn digits_value(s: Seq<char>) -> int
    decreases s.len(),
{
    if s.len() == 0 {
        0
    } else {
        10 * digits_value(s.drop_last()) + (s.last() as int - '0' as int)
    }
}

proof fn lemma_digit_char(d: int)
    requires
        0 <= d < 10,
    ensures
        digit_char(d) as int - '0' as int == d,
{
}

/// The decimal notation of `n` reads back as `n`: it is a non-empty string of the
/// characters `'0'` to `'9'`, without a leading zero unless `n` is zero, whose base-10
/// value is `n`. So a status line carries the status code itself.
pub proof fn lemma_decimal_reads_back(n: nat)
    ensures
        digits_value(decimal(n)) == n,
        decimal(n).len() > 0,
        forall|i: int|
            0 <= i < decimal(n).len() ==> '0' as int <= #[trigger] decimal(n)[i] as int <= '9'
                as int,
        decimal(n)[0] == '0' ==> n == 0,
    decreases n,
{
    lemma_digit_char((n % 10) as int);
    if n < 10 {
        let s = seq![digit_char(n as int)];
        assert(s.drop_last() =~= Seq::<char>::empty());
        assert(digits_value(s.drop_last()) == 0);
        assert(digits_value(s) == digit_char(n as int) as int - '0' as int);
    } else {
        lemma_decimal_reads_back(n / 10);
        let d = decimal(n / 10);
        let s = d.push(digit_char((n % 10) as int));
        assert(s.drop_last() =~= d);
        assert(s[0] == d[0]);
        assert(digits_value(s) == 10 * digits_value(d) + (digit_char((n % 10) as int) as int
            - '0' as int));
        assert(digits_value(s) == 10 * (n / 10) + n % 10);
        assert forall|i: int| 0 <= i < s.len() implies '0' as int <= #[trigger] s[i] as int <= '9'
            as int by {
            if i < d.len() {
                assert(s[i] == d[i]);
            }
        }
    }
}

/// Each status code of the table goes with its standard reason phrase.
pub proof fn lemma_reason_phrases()
    ensures
        status_message(100) == "Continue"@,
        status_message(101) == "Switching Protocols"@,
        status_message(102) == "Processing"@,
        status_message(200) == "OK"@,
        status_message(201) == "Created"@,
        status_message(202) == "Accepted"@,
        status_message(203) == "Non-authoritative Information"@,
        status_message(204) == "No Content"@,
        status_message(205) == "Reset Content"@,
        status_message(206) == "Partial Content"@,
        status_message(207) == "Multi-Status"@,
        status_message(208) == "Already Reported"@,
        status_message(226) == "IM Used"@,
        status_message(300) == "Multiple Choices"@,
        status_message(301) == "Moved Permanently"@,
        status_message(302) == "Found"@,
        status_message(303) == "See Other"@,
        status_message(304) == "Not Modified"@,
        status_message(305) == "Use Proxy"@,
        status_message(307) == "Temporary Redirect"@,
        status_message(308) == "Permanent Redirect"@,
        status_message(400) == "Bad Request"@,
        status_message(401) == "Unauthorized"@,
        status_message(402) == "Payment Required"@,
        status_message(403) == "Forbidden"@,
        status_message(404) == "Not Found"@,
        status_message(405) == "Method Not Allowed"@,
        status_message(406) == "Not Acceptable"@,
        status_message(407) == "Proxy Authentication Required"@,
        status_message(408) == "Request Timeout"@,
        status_message(409) == "Conflict"@,
        status_message(410) == "Gone"@,
        status_message(411) == "Length Required"@,
        status_message(412) == "Precondition Failed"@,
        status_message(413) == "Payload Too Large"@,
        status_message(414) == "Request-URI Too Long"@,
        status_message(415) == "Unsupported Media Type"@,
        status_message(416) == "Requested Range Not Satisfiable"@,
        status_message(417) == "Expectation Failed"@,
        status_message(418) == "I'm a teapot"@,
        status_message(421) == "Misdirected Request"@,
        status_message(422) == "Unprocessable Entity"@,
        status_message(423) == "Locked"@,
        status_message(424) == "Failed Dependency"@,
        status_message(426) == "Upgrade Required"@,
        status_message(428) == "Precondition Required"@,
        status_message(429) == "Too Many Requests"@,
        status_message(431) == "Request Header Fields Too Large"@,
        status_message(444) == "Connection Closed Without Response"@,
        status_message(451) == "Unavailable For Legal Reasons"@,
        status_message(499) == "Client Closed Request"@,
        status_message(500) == "Internal Server Error"@,
        status_message(501) == "Not Implemented"@,
        status_message(502) == "Bad Gateway"@,
        status_message(503) == "Service Unavailable"@,
        status_message(504) == "Gateway Timeout"@,
        status_message(505) == "HTTP Version Not Supported"@,
        status_message(506) == "Variant Also Negotiates"@,
        status_message(507) == "Insufficient Storage"@,
        status_message(508) == "Loop Detected"@,
        status_message(510) == "Not Extended"@,
        status_message(511) == "Network Authentication Required"@,
        status_message(599) == "Network Connect Timeout Error"@,
{
}

/// A status line reads `HTTP/1.1`, a space, the status code in decimal digits (which
/// read back as the code), a space, the reason phrase and a line break.
pub proof fn lemma_status_line_parts(status: u32)
    ensures
        status_line(status).subrange(0, 9) == "HTTP/1.1 "@,
        digits_value(
            status_line(status).subrange(9, 9 + decimal(status as nat).len() as int),
        ) == status,
        status_line(status)[9 + decimal(status as nat).len() as int] == ' ',
        status_line(status).subrange(
            10 + decimal(status as nat).len() as int,
            status_line(status).len() - 2,
        ) == status_message(status),
        status_line(status).subrange(status_line(status).len() - 2, status_line(status).len() as int)
            == "\r\n"@,
{
    reveal_strlit("HTTP/1.1 ");
    reveal_strlit(" ");
    reveal_strlit("\r\n");
    lemma_decimal_reads_back(status as nat);
    let d = decimal(status as nat);
    let m = status_message(status);
    let l = status_line(status);
    let n = d.len() as int;
    assert(l =~= "HTTP/1.1 "@ + d + " "@ + m + "\r\n"@);
    assert(l.subrange(0, 9) =~= "HTTP/1.1 "@);
    assert(l.subrange(9, 9 + n) =~= d);
    assert(l[9 + n] == ' ');
    assert(l.subrange(10 + n, l.len() - 2) =~= m);
    assert(l.subrange(l.len() - 2, l.len() as int) =~= "\r\n"@);
}

} // verus!
