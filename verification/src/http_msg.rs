//! Plain HTTP/1 message handling for the inbound side: building response
//! bytes, buffering request bytes, and parsing request lines into their
//! parts.  Reading from and writing to sockets stays with the caller; the
//! functions here turn bytes already read into structured values and
//! structured values into the bytes to send.
use vstd::prelude::*;
use vstd::string::StringSliceAdditionalSpecFns;
use vstd::utf8::encode_utf8;

verus! {

/// Compares two byte strings.
pub fn bytes_eq(a: &[u8], b: &[u8]) -> (r: bool)
    ensures
        r == (a@ == b@),
{
    if a.len() != b.len() {
        return false;
    }
    let n = a.len();
    let mut i: usize = 0;
    while i < n
        invariant
            i <= n,
            n == a@.len() == b@.len(),
            forall|k: int| 0 <= k < i ==> a@[k] == b@[k],
        decreases n - i,
    {
        if a[i] != b[i] {
            return false;
        }
        i = i + 1;
    }
    proof {
        assert(a@ =~= b@);
    }
    true
}

/// The byte rendering of a line break.
pub open spec fn crlf() -> Seq<u8> {
    encode_utf8("\r\n"@)
}

/// The byte rendering of one header line: `key: value` and a line break.
pub open spec fn header_line_bytes(p: (Seq<u8>, Seq<u8>)) -> Seq<u8> {
    p.0 + encode_utf8(": "@) + p.1 + crlf()
}

/// The byte rendering of a header list, in order.
pub open spec fn headers_bytes(hs: Seq<(Seq<u8>, Seq<u8>)>) -> Seq<u8>
    decreases hs.len(),
{
    if hs.len() == 0 {
        Seq::empty()
    } else {
        header_line_bytes(hs[0]) + headers_bytes(hs.drop_first())
    }
}

/// The first position holding the given header key, scanning from the
/// front.
pub open spec fn first_key(hs: Seq<(Seq<u8>, Seq<u8>)>, k: Seq<u8>) -> Option<int>
    decreases hs.len(),
{
    if hs.len() == 0 {
        None
    } else if hs[0].0 == k {
        Some(0int)
    } else {
        match first_key(hs.drop_first(), k) {
            Some(i) => Some(i + 1),
            None => None,
        }
    }
}

/// The decimal digits of a number, most significant first.
pub open spec fn dec_digits(n: nat) -> Seq<u8>
    decreases n,
{
    if n < 10 {
        seq![(48 + n) as u8]
    } else {
        dec_digits(n / 10).push((48 + (n % 10)) as u8)
    }
}

/// Renders a number in decimal.
pub fn dec_bytes(n: usize) -> (r: Vec<u8>)
    ensures
        r@ == dec_digits(n as nat),
    decreases n,
{
    if n < 10 {
        let mut v: Vec<u8> = Vec::new();
        v.push(48 + (n as u8));
        proof {
            assert(v@ =~= dec_digits(n as nat));
        }
        v
    } else {
        let mut v = dec_bytes(n / 10);
        v.push(48 + ((n % 10) as u8));
        v
    }
}

/// The information needed to create one HTTP response: a status line, the
/// headers set so far, and the body.
#[derive(Debug)]
pub struct Response {
    code: &'static str,
    headers: Option<Vec<(Vec<u8>, Vec<u8>)>>,
    message: Option<Vec<u8>>,
}

impl Response {
    /// The status line's code and reason text.
    pub closed spec fn code_chars(&self) -> Seq<char> {
        self.code@
    }

    /// The header pairs set so far, in insertion order, or nothing when no
    /// header was ever set.
    pub closed spec fn headers_opt(&self) -> Option<Seq<(Seq<u8>, Seq<u8>)>> {
        match self.headers {
            Some(h) => Some(h@.map_values(|p: (Vec<u8>, Vec<u8>)| (p.0@, p.1@))),
            None => None,
        }
    }

    /// The body, if one was set.
    pub closed spec fn message_opt(&self) -> Option<Seq<u8>> {
        match self.message {
            Some(m) => Some(m@),
            None => None,
        }
    }

    /// A `400 Bad Request` response with nothing else set.
    pub fn bad_request() -> (r: Response)
        ensures
            r.code_chars() == "400 Bad Request"@,
            r.headers_opt() is None,
            r.message_opt() is None,
    {
        Response { code: "400 Bad Request", headers: None, message: None }
    }

    /// A `200 OK` response with nothing else set.
    pub fn ok() -> (r: Response)
        ensures
            r.code_chars() == "200 OK"@,
            r.headers_opt() is None,
            r.message_opt() is None,
    {
        Response { code: "200 OK", headers: None, message: None }
    }

    /// A `413 Content Too Large` response with nothing else set.
    pub fn content_too_large() -> (r: Response)
        ensures
            r.code_chars() == "413 Content Too Large"@,
            r.headers_opt() is None,
            r.message_opt() is None,
    {
        Response { code: "413 Content Too Large", headers: None, message: None }
    }

    /// A `500 Internal Server Error` response with nothing else set.
    pub fn internal_server_error() -> (r: Response)
        ensures
            r.code_chars() == "500 Internal Server Error"@,
            r.headers_opt() is None,
            r.message_opt() is None,
    {
        Response { code: "500 Internal Server Error", headers: None, message: None }
    }

    /// Sets the body.
    pub fn add_message(&mut self, message: Vec<u8>)
        ensures
            final(self).code_chars() == old(self).code_chars(),
            final(self).headers_opt() == old(self).headers_opt(),
            final(self).message_opt() == Some(message@),
    {
        self.message = Some(message);
    }

    /// A copy of this response carrying a different body.
    pub fn clone_with_message(&self, message: Vec<u8>) -> (r: Response)
        ensures
            r.code_chars() == self.code_chars(),
            r.headers_opt() == self.headers_opt(),
            r.message_opt() == Some(message@),
    {
        let headers = match &self.headers {
            None => None,
            Some(h) => {
                let mut copy: Vec<(Vec<u8>, Vec<u8>)> = Vec::new();
                let mut i: usize = 0;
                while i < h.len()
                    invariant
                        i <= h@.len(),
                        copy@.len() == i,
                        forall|k: int|
                            0 <= k < i ==> (#[trigger] copy@[k]).0@ == h@[k].0@ && copy@[k].1@
                                == h@[k].1@,
                    decreases h@.len() - i,
                {
                    let key = crate::script::clone_bytes(&h[i].0);
                    let value = crate::script::clone_bytes(&h[i].1);
                    copy.push((key, value));
                    i = i + 1;
                }
                proof {
                    assert(copy@.map_values(|p: (Vec<u8>, Vec<u8>)| (p.0@, p.1@)) =~= h@.map_values(
                        |p: (Vec<u8>, Vec<u8>)| (p.0@, p.1@),
                    ));
                }
                Some(copy)
            },
        };
        Response { code: self.code, headers, message: Some(message) }
    }
}

proof fn lemma_first_key(hs: Seq<(Seq<u8>, Seq<u8>)>, k: Seq<u8>)
    ensures
        match first_key(hs, k) {
            Some(i) => 0 <= i < hs.len() && hs[i].0 == k && (forall|j: int|
                0 <= j < i ==> (#[trigger] hs[j]).0 != k),
            None => forall|j: int| 0 <= j < hs.len() ==> (#[trigger] hs[j]).0 != k,
        },
    decreases hs.len(),
{
    if hs.len() > 0 && hs[0].0 != k {
        lemma_first_key(hs.drop_first(), k);
        match first_key(hs.drop_first(), k) {
            Some(i) => {
                assert(hs.drop_first()[i] == hs[i + 1]);
                assert forall|j: int| 0 <= j < i + 1 implies (#[trigger] hs[j]).0 != k by {
                    if j > 0 {
                        assert(hs.drop_first()[j - 1] == hs[j]);
                    }
                }
            },
            None => {
                assert forall|j: int| 0 <= j < hs.len() implies (#[trigger] hs[j]).0 != k by {
                    if j > 0 {
                        assert(hs.drop_first()[j - 1] == hs[j]);
                    }
                }
            },
        }
    }
}

proof fn lemma_headers_bytes_push(hs: Seq<(Seq<u8>, Seq<u8>)>, p: (Seq<u8>, Seq<u8>))
    ensures
        headers_bytes(hs.push(p)) == headers_bytes(hs) + header_line_bytes(p),
    decreases hs.len(),
{
    reveal_with_fuel(headers_bytes, 3);
    if hs.len() == 0 {
        assert(hs.push(p)[0] == p);
        assert(hs.push(p).drop_first() =~= Seq::<(Seq<u8>, Seq<u8>)>::empty());
        assert(headers_bytes(hs.push(p)) =~= headers_bytes(hs) + header_line_bytes(p));
    } else {
        assert(hs.push(p)[0] == hs[0]);
        assert(hs.push(p).drop_first() =~= hs.drop_first().push(p));
        lemma_headers_bytes_push(hs.drop_first(), p);
        assert(headers_bytes(hs.push(p)) =~= headers_bytes(hs) + header_line_bytes(p));
    }
}

impl Response {
    /// Sets a header: replaces the value of the first pair already carrying
    /// the key, or appends a new pair.
    pub fn add_header(&mut self, key: &'static str, value: Vec<u8>)
        ensures
            final(self).code_chars() == old(self).code_chars(),
            final(self).message_opt() == old(self).message_opt(),
            final(self).headers_opt() matches Some(newh) && {
                let oldh = match old(self).headers_opt() {
                    Some(h) => h,
                    None => Seq::empty(),
                };
                newh == match first_key(oldh, key.spec_bytes()) {
                    Some(i) => oldh.update(i, (key.spec_bytes(), value@)),
                    None => oldh.push((key.spec_bytes(), value@)),
                }
            },
    {
        let key_bytes = vstd::slice::slice_to_vec(key.as_bytes());
        match &mut self.headers {
            None => {
                let mut h: Vec<(Vec<u8>, Vec<u8>)> = Vec::new();
                h.push((key_bytes, value));
                proof {
                    assert(h@.map_values(|p: (Vec<u8>, Vec<u8>)| (p.0@, p.1@)) =~= Seq::<
                        (Seq<u8>, Seq<u8>),
                    >::empty().push((key.spec_bytes(), value@)));
                }
                self.headers = Some(h);
            },
            Some(h) => {
                let ghost oldh = h@.map_values(|p: (Vec<u8>, Vec<u8>)| (p.0@, p.1@));
                proof {
                    lemma_first_key(oldh, key.spec_bytes());
                }
                let n = h.len();
                let mut i: usize = 0;
                let mut found: Option<usize> = None;
                while i < n
                    invariant
                        i <= n,
                        n == h@.len(),
                        oldh == h@.map_values(|p: (Vec<u8>, Vec<u8>)| (p.0@, p.1@)),
                        match found {
                            Some(f) => f < i && oldh[f as int].0 == key.spec_bytes() && (forall|
                                j: int,
                            | 0 <= j < f ==> (#[trigger] oldh[j]).0 != key.spec_bytes()),
                            None => forall|j: int|
                                0 <= j < i ==> (#[trigger] oldh[j]).0 != key.spec_bytes(),
                        },
                    decreases n - i,
                {
                    if found.is_none() && bytes_eq(h[i].0.as_slice(), key.as_bytes()) {
                        found = Some(i);
                    }
                    i = i + 1;
                }
                match found {
                    Some(f) => {
                        proof {
                            assert(first_key(oldh, key.spec_bytes()) == Some(f as int));
                        }
                        let mut updated: Vec<(Vec<u8>, Vec<u8>)> = Vec::new();
                        let mut p: usize = 0;
                        while p < n
                            invariant
                                p <= n,
                                n == h@.len(),
                                f < n,
                                updated@.len() == p,
                                forall|k: int|
                                    0 <= k < p && k != f ==> (#[trigger] updated@[k]).0@
                                        == h@[k].0@ && updated@[k].1@ == h@[k].1@,
                                f < p ==> updated@[f as int].0@ == key.spec_bytes()
                                    && updated@[f as int].1@ == value@,
                            decreases n - p,
                        {
                            if p == f {
                                let kb = vstd::slice::slice_to_vec(key.as_bytes());
                                let vb = crate::script::clone_bytes(&value);
                                updated.push((kb, vb));
                            } else {
                                let kb = crate::script::clone_bytes(&h[p].0);
                                let vb = crate::script::clone_bytes(&h[p].1);
                                updated.push((kb, vb));
                            }
                            p = p + 1;
                        }
                        proof {
                            assert(updated@.map_values(|q: (Vec<u8>, Vec<u8>)| (q.0@, q.1@))
                                =~= oldh.update(f as int, (key.spec_bytes(), value@)));
                        }
                        self.headers = Some(updated);
                    },
                    None => {
                        proof {
                            assert(first_key(oldh, key.spec_bytes()) is None);
                        }
                        h.push((key_bytes, value));
                        proof {
                            assert(h@.map_values(|p: (Vec<u8>, Vec<u8>)| (p.0@, p.1@))
                                =~= oldh.push((key.spec_bytes(), value@)));
                        }
                    },
                }
            },
        }
    }
}

/// The exact bytes of a rendered response: the status line; the headers in
/// insertion order, with a plain-text content type supplied when none was
/// set; and, when a body was set, a `Content-Length` header counting the
/// body plus its closing line break, a blank line, and the body.
pub open spec fn format_bytes(r: &Response) -> Seq<u8> {
    encode_utf8("HTTP/1.1 "@) + encode_utf8(r.code_chars()) + crlf() + (match r.headers_opt() {
        None => encode_utf8("content-type: text/plain; charset=utf-8\r\n"@),
        Some(hs) => headers_bytes(hs) + (if first_key(hs, encode_utf8("content-type"@)) is Some {
            Seq::<u8>::empty()
        } else {
            encode_utf8("content-Type: text/plain; charset=utf-8\r\n"@)
        }),
    }) + (match r.message_opt() {
        None => Seq::<u8>::empty(),
        Some(m) => encode_utf8("Content-Length: "@) + dec_digits((m.len() + 2) as nat) + crlf()
            + crlf() + m + crlf(),
    })
}

proof fn lemma_encode_concat(a: Seq<char>, b: Seq<char>)
    ensures
        encode_utf8(a + b) == encode_utf8(a) + encode_utf8(b),
    decreases a.len(),
{
    reveal_with_fuel(encode_utf8, 2);
    if a.len() == 0 {
        assert(a + b =~= b);
        assert(encode_utf8(a) =~= Seq::<u8>::empty());
        assert(encode_utf8(a + b) =~= encode_utf8(a) + encode_utf8(b));
    } else {
        assert((a + b)[0] == a[0]);
        assert((a + b).drop_first() =~= a.drop_first() + b);
        lemma_encode_concat(a.drop_first(), b);
        assert(encode_utf8(a + b) =~= encode_utf8(a) + encode_utf8(b));
    }
}

impl Response {
    /// Renders this response as the bytes to send.
    #[verifier::rlimit(100)]
    pub fn format(&self) -> (r: Vec<u8>)
        requires
            self.message_opt() matches Some(m) ==> m.len() + 2 <= usize::MAX,
        ensures
            r@ == format_bytes(self),
    {
        let mut v: Vec<u8> = Vec::new();
        v.extend_from_slice("HTTP/1.1 ".as_bytes());
        v.extend_from_slice(self.code.as_bytes());
        v.extend_from_slice("\r\n".as_bytes());
        match &self.headers {
            None => {
                v.extend_from_slice("content-type: text/plain; charset=utf-8\r\n".as_bytes());
            },
            Some(h) => {
                let ghost hs = h@.map_values(|p: (Vec<u8>, Vec<u8>)| (p.0@, p.1@));
                let ghost before = v@;
                let n = h.len();
                let mut i: usize = 0;
                let mut has_content_type = false;
                while i < n
                    invariant
                        i <= n,
                        n == h@.len(),
                        hs == h@.map_values(|p: (Vec<u8>, Vec<u8>)| (p.0@, p.1@)),
                        v@ == before + headers_bytes(hs.take(i as int)),
                        has_content_type == exists|k: int|
                            0 <= k < i && (#[trigger] hs[k]).0 == encode_utf8("content-type"@),
                    decreases n - i,
                {
                    v.extend_from_slice(h[i].0.as_slice());
                    v.extend_from_slice(": ".as_bytes());
                    v.extend_from_slice(h[i].1.as_slice());
                    v.extend_from_slice("\r\n".as_bytes());
                    if bytes_eq(h[i].0.as_slice(), "content-type".as_bytes()) {
                        has_content_type = true;
                    }
                    proof {
                        assert(hs.take(i + 1) =~= hs.take(i as int).push(hs[i as int]));
                        lemma_headers_bytes_push(hs.take(i as int), hs[i as int]);
                        assert(v@ =~= before + headers_bytes(hs.take(i + 1)));
                    }
                    i = i + 1;
                }
                proof {
                    assert(hs.take(n as int) =~= hs);
                    lemma_first_key(hs, encode_utf8("content-type"@));
                    if has_content_type {
                        let k = choose|k: int|
                            0 <= k < n && (#[trigger] hs[k]).0 == encode_utf8("content-type"@);
                        assert(hs[k].0 == encode_utf8("content-type"@));
                        assert(first_key(hs, encode_utf8("content-type"@)) is Some);
                    } else {
                        assert(first_key(hs, encode_utf8("content-type"@)) is None);
                    }
                }
                if !has_content_type {
                    v.extend_from_slice("content-Type: text/plain; charset=utf-8\r\n".as_bytes());
                }
            },
        }
        match &self.message {
            None => {},
            Some(m) => {
                let content_length = dec_bytes(m.len() + 2);
                v.extend_from_slice("Content-Length: ".as_bytes());
                v.extend_from_slice(content_length.as_slice());
                v.extend_from_slice("\r\n\r\n".as_bytes());
                v.extend_from_slice(m.as_slice());
                v.extend_from_slice("\r\n".as_bytes());
                proof {
                    assert(encode_utf8("\r\n\r\n"@) =~= crlf() + crlf()) by {
                        reveal_strlit("\r\n\r\n");
                        reveal_strlit("\r\n");
                        assert("\r\n\r\n"@ =~= "\r\n"@ + "\r\n"@);
                        lemma_encode_concat("\r\n"@, "\r\n"@);
                    }
                }
            },
        }
        proof {
            assert(v@ =~= format_bytes(self));
        }
        v
    }
}

/// How many bytes one read from the client may fill at most.
pub const REQUEST_BUFFER_SIZE: usize = 4096;

/// How long one request line may be at most.
pub const MAX_LINE_LENGTH: usize = 1024;

/// The byte value of a line feed.
pub const LF: u8 = 10;

/// The byte value of a carriage return.
pub const CR: u8 = 13;

/// A byte of ASCII whitespace, as request-line tokens are delimited.
pub open spec fn is_ws_byte(b: u8) -> bool {
    b == 32 || b == 9 || b == 10 || b == 13 || b == 12
}

/// The bytes most recently read from the client, and how far they have been
/// consumed.
pub struct RequestBuffer {
    pub index: usize,
    pub size: usize,
    pub buffer: [u8; 4096],
}

impl RequestBuffer {
    /// An empty buffer.
    pub fn new() -> (r: RequestBuffer)
        ensures
            r.index == 0,
            r.size == 0,
    {
        RequestBuffer { size: 0, index: 0, buffer: [0; 4096] }
    }
}

/// What one scan of the buffered bytes produced: a finished line, or a call
/// for more bytes from the stream.
pub enum LineStatus {
    Complete,
    NeedMore,
}

/// Takes bytes from the buffer into `line` up to the next line feed.  When
/// no line feed is buffered yet, everything available is taken and the
/// caller must read more.  A finished line must end with a carriage return,
/// which is stripped; an empty line or a dangling line feed is rejected, as
/// is a line longer than the server accepts.
pub fn take_line(buf: &mut RequestBuffer, line: &mut Vec<u8>) -> (r: Result<LineStatus, Response>)
    requires
        old(buf).index <= old(buf).size <= 4096,
    ensures
        final(buf).buffer == old(buf).buffer,
        final(buf).size == old(buf).size,
        r matches Ok(LineStatus::NeedMore) ==> {
            &&& forall|p: int|
                old(buf).index <= p < old(buf).size ==> old(buf).buffer@[p] != LF
            &&& final(line)@ == old(line)@ + old(buf).buffer@.subrange(
                old(buf).index as int,
                old(buf).size as int,
            )
            &&& final(buf).index == old(buf).size + 1
        },
        r matches Ok(LineStatus::Complete) ==> exists|e: int|
            {
                &&& old(buf).index <= e < old(buf).size
                &&& #[trigger] old(buf).buffer@[e] == LF
                &&& (forall|p: int| old(buf).index <= p < e ==> old(buf).buffer@[p] != LF)
                &&& {
                    let full = old(line)@ + old(buf).buffer@.subrange(old(buf).index as int, e);
                    &&& full.len() > 0
                    &&& full.last() == CR
                    &&& final(line)@ == full.drop_last()
                }
                &&& final(buf).index == e + 1
            },
        r matches Err(resp) ==> (resp.code_chars() == "413 Content Too Large"@
            || resp.code_chars() == "400 Bad Request"@) && ({
            let avail = old(buf).buffer@.subrange(old(buf).index as int, old(buf).size as int);
            let chunk = match first_byte(avail, LF) {
                None => avail.len() as int,
                Some(e) => e,
            };
            ||| old(line)@.len() + chunk >= MAX_LINE_LENGTH
            ||| (first_byte(avail, LF) is Some && {
                let full = old(line)@ + avail.take(chunk);
                full.len() == 0 || full.last() != CR
            })
        }),
{
    let start = buf.index;
    let sz = buf.size;
    let mut e: usize = start;
    let mut found = false;
    while e < sz && !found
        invariant
            start <= e <= sz <= 4096,
            buf.buffer@.len() == 4096,
            forall|p: int| start <= p < e ==> buf.buffer@[p] != LF,
            found ==> e < sz && buf.buffer@[e as int] == LF,
        decreases sz - e + (if found { 0int } else { 1int }),
    {
        if buf.buffer[e] == LF {
            found = true;
        } else {
            e = e + 1;
        }
    }
    proof {
        let avail = buf.buffer@.subrange(start as int, sz as int);
        lemma_first_byte(avail, LF);
        if found {
            assert(first_byte(avail, LF) == Some(e - start)) by {
                match first_byte(avail, LF) {
                    Some(k) => {
                        assert(avail[k] == buf.buffer@[start + k]);
                        if k < e - start {
                            assert(buf.buffer@[start + k] != LF);
                        }
                        if k > e - start {
                            assert(avail[e - start] != LF);
                            assert(buf.buffer@[e as int] == LF);
                        }
                    },
                    None => {
                        assert(avail[e - start] == buf.buffer@[e as int]);
                    },
                }
            }
        } else {
            assert(first_byte(avail, LF) is None) by {
                match first_byte(avail, LF) {
                    Some(k) => {
                        assert(avail[k] == buf.buffer@[start + k]);
                        assert(buf.buffer@[start + k] != LF);
                    },
                    None => {},
                }
            }
        }
    }
    let chunk_len = e - start;
    if line.len() >= MAX_LINE_LENGTH || chunk_len >= MAX_LINE_LENGTH || line.len() + chunk_len
        >= MAX_LINE_LENGTH {
        let mut resp = Response::content_too_large();
        let note = vstd::slice::slice_to_vec(
            "Server will not accept a message with a line this long".as_bytes(),
        );
        resp.add_message(note);
        return Err(resp);
    }
    let mut p: usize = start;
    while p < e
        invariant
            start <= p <= e <= sz <= 4096,
            buf.buffer@.len() == 4096,
            line@ == old(line)@ + buf.buffer@.subrange(start as int, p as int),
            buf.buffer == old(buf).buffer,
            buf.size == old(buf).size,
            buf.index == old(buf).index,
        decreases e - p,
    {
        line.push(buf.buffer[p]);
        proof {
            assert(buf.buffer@.subrange(start as int, p + 1) =~= buf.buffer@.subrange(
                start as int,
                p as int,
            ).push(buf.buffer@[p as int]));
            assert(line@ =~= old(line)@ + buf.buffer@.subrange(start as int, p + 1));
        }
        p = p + 1;
    }
    if !found {
        buf.index = sz + 1;
        return Ok(LineStatus::NeedMore);
    }
    buf.index = e + 1;
    if line.len() == 0 {
        let mut resp = Response::bad_request();
        let note = vstd::slice::slice_to_vec(
            "A line contains only a single line feed. This is not allowed on this server".as_bytes(),
        );
        resp.add_message(note);
        return Err(resp);
    }
    let last = line[line.len() - 1];
    if last != CR {
        let mut resp = Response::bad_request();
        let note = vstd::slice::slice_to_vec(
            "There was a dangling LF (line feed). This is not permitted for this server".as_bytes(),
        );
        resp.add_message(note);
        return Err(resp);
    }
    line.pop();
    proof {
        let full = old(line)@ + old(buf).buffer@.subrange(old(buf).index as int, e as int);
        assert(full.drop_last() =~= line@);
    }
    Ok(LineStatus::Complete)
}

/// The body of a request: raw bytes, multipart form entries, or nothing.
pub enum Body {
    Single(Vec<u8>),
    MultiPart(Vec<FormData>),
    Empty,
}

/// One entry of a multipart body: its headers and its own body.
pub struct FormData {
    pub headers: Vec<(Vec<u8>, Vec<u8>)>,
    pub body: Body,
}

impl Body {
    /// The raw bytes of a single-part body.
    pub fn single(&self) -> (r: Result<&Vec<u8>, &'static str>)
        ensures
            (r is Ok) == (self is Single),
            r matches Ok(v) ==> v@ == self->Single_0@,
    {
        match self {
            Body::Single(body) => Ok(body),
            _ => Err("Could not convert Body struct to byte array"),
        }
    }
}

/// All relevant information of one parsed request.
pub struct HttpRequest {
    pub method: Vec<u8>,
    pub location: Vec<u8>,
    pub query: Vec<(Vec<u8>, Vec<u8>)>,
    pub version: Vec<u8>,
    pub headers: Vec<(Vec<u8>, Vec<u8>)>,
    pub body: Body,
}

impl HttpRequest {
    /// A request with the given control data and no headers or body yet.
    pub fn new(method: Vec<u8>, location: Vec<u8>, query: Vec<(Vec<u8>, Vec<u8>)>, version: Vec<u8>) -> (r:
        HttpRequest)
        ensures
            r.method@ == method@,
            r.location@ == location@,
            r.query@ == query@,
            r.version@ == version@,
            r.headers@.len() == 0,
            r.body is Empty,
    {
        HttpRequest { method, location, query, version, headers: Vec::new(), body: Body::Empty }
    }
}

/// How many headers one request may carry at most.
pub const MAX_HEADERS: usize = 32;

impl HttpRequest {
    /// Records one parsed header line.  A repeated key's value is joined to
    /// the one already recorded, separated by a comma, as one combined
    /// field; a request carrying more distinct headers than the server
    /// accepts is rejected.
    pub fn add_request_header(&mut self, key: Vec<u8>, value: Vec<u8>) -> (r: Result<
        (),
        Response,
    >)
        ensures
            final(self).method@ == old(self).method@,
            final(self).location@ == old(self).location@,
            ({
                let oldh = old(self).headers@.map_values(|p: (Vec<u8>, Vec<u8>)| (p.0@, p.1@));
                let newh = final(self).headers@.map_values(|p: (Vec<u8>, Vec<u8>)| (p.0@, p.1@));
                match first_key(oldh, key@) {
                    Some(i) => newh == oldh.update(
                        i,
                        (key@, oldh[i].1 + encode_utf8(", "@) + value@),
                    ) && r is Ok,
                    None => newh == oldh.push((key@, value@)) && ((r is Err) == (newh.len()
                        > MAX_HEADERS)),
                }
            }),
            r matches Err(resp) ==> resp.code_chars() == "413 Content Too Large"@,
    {
        let ghost oldh = self.headers@.map_values(|p: (Vec<u8>, Vec<u8>)| (p.0@, p.1@));
        proof {
            lemma_first_key(oldh, key@);
        }
        let n = self.headers.len();
        let mut i: usize = 0;
        let mut found: Option<usize> = None;
        while i < n
            invariant
                i <= n,
                n == self.headers@.len(),
                *self == *old(self),
                oldh == self.headers@.map_values(|p: (Vec<u8>, Vec<u8>)| (p.0@, p.1@)),
                match found {
                    Some(f) => f < i && oldh[f as int].0 == key@ && (forall|j: int|
                        0 <= j < f ==> (#[trigger] oldh[j]).0 != key@),
                    None => forall|j: int| 0 <= j < i ==> (#[trigger] oldh[j]).0 != key@,
                },
            decreases n - i,
        {
            if found.is_none() && bytes_eq(self.headers[i].0.as_slice(), key.as_slice()) {
                found = Some(i);
            }
            i = i + 1;
        }
        match found {
            Some(f) => {
                proof {
                    assert(first_key(oldh, key@) == Some(f as int));
                }
                let mut updated: Vec<(Vec<u8>, Vec<u8>)> = Vec::new();
                let mut p: usize = 0;
                while p < n
                    invariant
                        p <= n,
                        f < n == self.headers@.len(),
                        *self == *old(self),
                        oldh == self.headers@.map_values(|q: (Vec<u8>, Vec<u8>)| (q.0@, q.1@)),
                        updated@.len() == p,
                        forall|k: int|
                            0 <= k < p && k != f ==> (#[trigger] updated@[k]).0@
                                == self.headers@[k].0@ && updated@[k].1@ == self.headers@[k].1@,
                        f < p ==> updated@[f as int].0@ == key@ && updated@[f as int].1@
                            == oldh[f as int].1 + encode_utf8(", "@) + value@,
                    decreases n - p,
                {
                    if p == f {
                        let kb = crate::script::clone_bytes(&key);
                        let mut joined = crate::script::clone_bytes(&self.headers[p].1);
                        joined.extend_from_slice(", ".as_bytes());
                        joined.extend_from_slice(value.as_slice());
                        updated.push((kb, joined));
                    } else {
                        let kb = crate::script::clone_bytes(&self.headers[p].0);
                        let vb = crate::script::clone_bytes(&self.headers[p].1);
                        updated.push((kb, vb));
                    }
                    p = p + 1;
                }
                proof {
                    assert(updated@.map_values(|q: (Vec<u8>, Vec<u8>)| (q.0@, q.1@)) =~= oldh.update(
                        f as int,
                        (key@, oldh[f as int].1 + encode_utf8(", "@) + value@),
                    ));
                }
                self.headers = updated;
                Ok(())
            },
            None => {
                proof {
                    assert(first_key(oldh, key@) is None);
                }
                self.headers.push((key, value));
                proof {
                    assert(self.headers@.map_values(|q: (Vec<u8>, Vec<u8>)| (q.0@, q.1@))
                        =~= oldh.push((key@, value@)));
                }
                if self.headers.len() > MAX_HEADERS {
                    let mut resp = Response::content_too_large();
                    let note = vstd::slice::slice_to_vec(
                        "This server will not accept a request with this many headers".as_bytes(),
                    );
                    resp.add_message(note);
                    return Err(resp);
                }
                Ok(())
            },
        }
    }
}

/// The header separator `: ` stands at position `i`.
pub open spec fn header_sep_at(s: Seq<u8>, i: int) -> bool {
    0 <= i && i + 2 <= s.len() && s[i] == 58 && s[i + 1] == 32
}

/// Splits one header line at its single `: ` separator into key and value.
pub fn parse_header_line(line: &Vec<u8>) -> (r: Result<(Vec<u8>, Vec<u8>), Response>)
    ensures
        r matches Ok((k, v)) ==> {
            &&& header_sep_at(line@, k@.len() as int)
            &&& line@ == k@ + seq![58u8, 32u8] + v@
            &&& forall|i: int| i != k@.len() ==> !header_sep_at(line@, i)
        },
        r matches Err(resp) ==> {
            &&& resp.code_chars() == "400 Bad Request"@
            &&& !(exists|i: int|
                #[trigger] header_sep_at(line@, i) && (forall|j: int|
                    j != i ==> !header_sep_at(line@, j)))
        },
{
    let n = line.len();
    let mut i: usize = 0;
    let mut sep: Option<usize> = None;
    while i < n
        invariant
            i <= n,
            n == line@.len(),
            match sep {
                Some(s0) => s0 + 2 <= i && header_sep_at(line@, s0 as int) && (forall|j: int|
                    0 <= j < s0 ==> !header_sep_at(line@, j)),
                None => forall|j: int| 0 <= j < i ==> !header_sep_at(line@, j),
            },
        decreases n - i,
    {
        if sep.is_none() && i + 1 < n && line[i] == 58 && line[i + 1] == 32 {
            sep = Some(i);
            i = i + 2;
        } else {
            proof {
                if sep is None && i + 2 <= n {
                    assert(!header_sep_at(line@, i as int));
                }
            }
            i = i + 1;
        }
    }
    let s0 = match sep {
        Some(s0) => s0,
        None => {
            let mut resp = Response::bad_request();
            let note = vstd::slice::slice_to_vec(
                "A header line was improperly formatted".as_bytes(),
            );
            resp.add_message(note);
            return Err(resp);
        },
    };
    // A second separator makes three parts, which is rejected too.
    let mut j: usize = s0 + 2;
    while j < n
        invariant
            s0 + 2 <= j <= n,
            n == line@.len(),
            header_sep_at(line@, s0 as int),
            forall|q: int| 0 <= q < s0 ==> !header_sep_at(line@, q),
            forall|q: int| s0 < q < j ==> !header_sep_at(line@, q),
        decreases n - j,
    {
        if j + 1 < n && line[j] == 58 && line[j + 1] == 32 {
            let mut resp = Response::bad_request();
            let note = vstd::slice::slice_to_vec(
                "A header line was improperly formatted".as_bytes(),
            );
            resp.add_message(note);
            proof {
                assert(header_sep_at(line@, j as int));
                assert forall|i2: int|
                    !(#[trigger] header_sep_at(line@, i2) && (forall|j2: int|
                        j2 != i2 ==> !header_sep_at(line@, j2))) by {
                    if header_sep_at(line@, i2) {
                        if i2 != s0 as int {
                            assert(!(forall|j2: int| j2 != i2 ==> !header_sep_at(line@, j2)))
                                by {
                                assert(header_sep_at(line@, s0 as int));
                            }
                        } else {
                            assert(header_sep_at(line@, j as int));
                        }
                    }
                }
            }
            return Err(resp);
        }
        proof {
            if j + 2 <= n {
                assert(!header_sep_at(line@, j as int));
            }
        }
        j = j + 1;
    }
    let mut key: Vec<u8> = Vec::new();
    let mut p: usize = 0;
    while p < s0
        invariant
            p <= s0,
            s0 + 2 <= n == line@.len(),
            key@ == line@.subrange(0, p as int),
        decreases s0 - p,
    {
        key.push(line[p]);
        proof {
            assert(line@.subrange(0, p + 1) =~= line@.subrange(0, p as int).push(line@[p as int]));
        }
        p = p + 1;
    }
    let mut value: Vec<u8> = Vec::new();
    let mut q: usize = s0 + 2;
    while q < n
        invariant
            s0 + 2 <= q <= n,
            n == line@.len(),
            value@ == line@.subrange(s0 + 2, q as int),
        decreases n - q,
    {
        value.push(line[q]);
        proof {
            assert(line@.subrange(s0 + 2, q + 1) =~= line@.subrange(s0 + 2, q as int).push(
                line@[q as int],
            ));
        }
        q = q + 1;
    }
    proof {
        assert(line@ =~= key@ + seq![58u8, 32u8] + value@);
        assert forall|i2: int| i2 != key@.len() implies !header_sep_at(line@, i2) by {}
    }
    Ok((key, value))
}

/// What `urlencoding::decode` makes of the given bytes: the percent-decoded
/// text, or nothing when the bytes or the decoded text are not UTF-8.
pub uninterp spec fn url_decoded(s: Seq<u8>) -> Option<Seq<u8>>;

/// Relies on `urlencoding::decode`: replaces each `%`-escaped hex pair with
/// its byte and leaves everything else alone; the result depends on the
/// given bytes alone.
#[verifier::external_body]
fn url_decode(s: &Vec<u8>) -> (r: Option<Vec<u8>>)
    ensures
        (r is Some) == (url_decoded(s@) is Some),
        r matches Some(v) ==> Some(v@) == url_decoded(s@),
{
    let text = core::str::from_utf8(s.as_slice()).ok()?;
    let decoded = urlencoding::decode(text).ok()?;
    Some(decoded.as_bytes().to_vec())
}

/// The first position of byte `b` in `s`.
pub open spec fn first_byte(s: Seq<u8>, b: u8) -> Option<int>
    decreases s.len(),
{
    if s.len() == 0 {
        None
    } else if s[0] == b {
        Some(0int)
    } else {
        match first_byte(s.drop_first(), b) {
            Some(i) => Some(i + 1),
            None => None,
        }
    }
}

proof fn lemma_first_byte(s: Seq<u8>, b: u8)
    ensures
        match first_byte(s, b) {
            Some(i) => 0 <= i < s.len() && s[i] == b && (forall|j: int| 0 <= j < i ==> s[j] != b),
            None => forall|j: int| 0 <= j < s.len() ==> s[j] != b,
        },
    decreases s.len(),
{
    if s.len() > 0 && s[0] != b {
        lemma_first_byte(s.drop_first(), b);
        match first_byte(s.drop_first(), b) {
            Some(i) => {
                assert(s.drop_first()[i] == s[i + 1]);
                assert forall|j: int| 0 <= j < i + 1 implies s[j] != b by {
                    if j > 0 {
                        assert(s.drop_first()[j - 1] == s[j]);
                    }
                }
            },
            None => {
                assert forall|j: int| 0 <= j < s.len() implies s[j] != b by {
                    if j > 0 {
                        assert(s.drop_first()[j - 1] == s[j]);
                    }
                }
            },
        }
    }
}

/// Finds the first position of byte `b` in `v` at or after `from`.
fn find_byte(v: &Vec<u8>, from: usize, b: u8) -> (r: Option<usize>)
    requires
        from <= v@.len(),
    ensures
        match r {
            Some(i) => from <= i < v@.len() && v@[i as int] == b && (forall|j: int|
                from <= j < i ==> v@[j] != b),
            None => forall|j: int| from <= j < v@.len() ==> v@[j] != b,
        },
{
    let n = v.len();
    let mut i: usize = from;
    while i < n
        invariant
            from <= i <= n,
            n == v@.len(),
            forall|j: int| from <= j < i ==> v@[j] != b,
        decreases n - i,
    {
        if v[i] == b {
            return Some(i);
        }
        i = i + 1;
    }
    None
}

/// One query segment's key/value pair: the text before its first `=` and
/// the text between that and the next `=` (or the end).  A segment without
/// `=` yields no pair.
pub open spec fn segment_pair(seg: Seq<u8>) -> Option<(Seq<u8>, Seq<u8>)> {
    match first_byte(seg, 61) {
        None => None,
        Some(i) => {
            let rest = seg.skip(i + 1);
            let value = match first_byte(rest, 61) {
                None => rest,
                Some(j) => rest.take(j),
            };
            Some((seg.take(i), value))
        },
    }
}

/// Records one query pair: a repeated key's value is overwritten in place,
/// a new key is appended.
pub open spec fn query_update(
    acc: Seq<(Seq<u8>, Seq<u8>)>,
    k: Seq<u8>,
    v: Seq<u8>,
) -> Seq<(Seq<u8>, Seq<u8>)> {
    match first_key(acc, k) {
        Some(i) => acc.update(i, (k, v)),
        None => acc.push((k, v)),
    }
}

/// The pairs recorded after processing a query string's segments into
/// `acc`: segments split on `&`, each contributing its pair if it holds an
/// `=`, later duplicates overwriting earlier values.
pub open spec fn query_pairs_from(
    s: Seq<u8>,
    acc: Seq<(Seq<u8>, Seq<u8>)>,
) -> Seq<(Seq<u8>, Seq<u8>)>
    decreases s.len(),
{
    match first_byte(s, 38) {
        None => match segment_pair(s) {
            None => acc,
            Some(p) => query_update(acc, p.0, p.1),
        },
        Some(i) => {
            if 0 <= i < s.len() {
                query_pairs_from(
                    s.skip(i + 1),
                    match segment_pair(s.take(i)) {
                        None => acc,
                        Some(p) => query_update(acc, p.0, p.1),
                    },
                )
            } else {
                acc
            }
        },
    }
}

/// The key/value pairs of a whole query string.
pub open spec fn query_pairs(s: Seq<u8>) -> Seq<(Seq<u8>, Seq<u8>)> {
    query_pairs_from(s, Seq::empty())
}

/// Copies `v[from..to]` out as its own buffer.
fn copy_range(v: &Vec<u8>, from: usize, to: usize) -> (r: Vec<u8>)
    requires
        from <= to <= v@.len(),
    ensures
        r@ == v@.subrange(from as int, to as int),
{
    let mut r: Vec<u8> = Vec::new();
    let mut i: usize = from;
    while i < to
        invariant
            from <= i <= to <= v@.len(),
            r@ == v@.subrange(from as int, i as int),
        decreases to - i,
    {
        r.push(v[i]);
        proof {
            assert(v@.subrange(from as int, i + 1) =~= v@.subrange(from as int, i as int).push(
                v@[i as int],
            ));
        }
        i = i + 1;
    }
    r
}

/// Parses the query part of a location into its key/value pairs.
#[verifier::rlimit(100)]
fn parse_query(q: &Vec<u8>) -> (r: Vec<(Vec<u8>, Vec<u8>)>)
    ensures
        r@.map_values(|p: (Vec<u8>, Vec<u8>)| (p.0@, p.1@)) == query_pairs(q@),
{
    let n = q.len();
    let mut pairs: Vec<(Vec<u8>, Vec<u8>)> = Vec::new();
    let mut start: usize = 0;
    proof {
        assert(q@.skip(0) =~= q@);
        assert(pairs@.map_values(|p: (Vec<u8>, Vec<u8>)| (p.0@, p.1@)) =~= Seq::<
            (Seq<u8>, Seq<u8>),
        >::empty());
    }
    loop
        invariant
            start <= n,
            n == q@.len(),
            query_pairs(q@) == query_pairs_from(
                q@.skip(start as int),
                pairs@.map_values(|p: (Vec<u8>, Vec<u8>)| (p.0@, p.1@)),
            ),
        decreases n - start,
    {
        let seg_end = match find_byte(q, start, 38) {
            Some(i) => i,
            None => n,
        };
        let ghost seg = q@.subrange(start as int, seg_end as int);
        proof {
            lemma_first_byte(q@.skip(start as int), 38);
            if seg_end < n {
                assert(first_byte(q@.skip(start as int), 38) == Some(seg_end - start)) by {
                    match first_byte(q@.skip(start as int), 38) {
                        Some(i) => {
                            assert(q@.skip(start as int)[i] == q@[start + i]);
                            if i < seg_end - start {
                                assert(q@[start + i] != 38);
                            }
                            if i > seg_end - start {
                                assert(q@.skip(start as int)[seg_end - start] != 38);
                                assert(q@[seg_end as int] == 38);
                            }
                        },
                        None => {
                            assert(q@.skip(start as int)[seg_end - start] == 38);
                        },
                    }
                }
                assert(q@.skip(start as int).take(seg_end - start) =~= seg);
            } else {
                assert(first_byte(q@.skip(start as int), 38) is None) by {
                    match first_byte(q@.skip(start as int), 38) {
                        Some(i) => {
                            assert(q@.skip(start as int)[i] == q@[start + i]);
                            assert(q@[start + i] != 38);
                        },
                        None => {},
                    }
                }
                assert(q@.skip(start as int) =~= seg);
            }
        }
        // The segment's pair, if it holds an `=`.
        match find_byte_range(q, start, seg_end, 61) {
            Some(eq1) => {
                let key = copy_range(q, start, eq1);
                let value_end = match find_byte_range(q, eq1 + 1, seg_end, 61) {
                    Some(eq2) => eq2,
                    None => seg_end,
                };
                let value = copy_range(q, eq1 + 1, value_end);
                proof {
                    lemma_first_byte(seg, 61);
                    assert(first_byte(seg, 61) == Some(eq1 - start)) by {
                        match first_byte(seg, 61) {
                            Some(i) => {
                                assert(seg[i] == q@[start + i]);
                                if i < eq1 - start {
                                    assert(q@[start + i] != 61);
                                }
                                if i > eq1 - start {
                                    assert(seg[eq1 - start] != 61);
                                    assert(q@[eq1 as int] == 61);
                                }
                            },
                            None => {
                                assert(seg[eq1 - start] == 61);
                            },
                        }
                    }
                    let rest = seg.skip(eq1 - start + 1);
                    lemma_first_byte(rest, 61);
                    if value_end < seg_end {
                        assert(first_byte(rest, 61) == Some(value_end - eq1 - 1)) by {
                            match first_byte(rest, 61) {
                                Some(i) => {
                                    assert(rest[i] == q@[eq1 + 1 + i]);
                                    if i < value_end - eq1 - 1 {
                                        assert(q@[eq1 + 1 + i] != 61);
                                    }
                                    if i > value_end - eq1 - 1 {
                                        assert(rest[value_end - eq1 - 1] != 61);
                                        assert(q@[value_end as int] == 61);
                                    }
                                },
                                None => {
                                    assert(rest[value_end - eq1 - 1] == 61);
                                },
                            }
                        }
                        assert(rest.take(value_end - eq1 - 1) =~= q@.subrange(
                            eq1 + 1,
                            value_end as int,
                        ));
                    } else {
                        assert(first_byte(rest, 61) is None) by {
                            match first_byte(rest, 61) {
                                Some(i) => {
                                    assert(rest[i] == q@[eq1 + 1 + i]);
                                    assert(q@[eq1 + 1 + i] != 61);
                                },
                                None => {},
                            }
                        }
                        assert(rest =~= q@.subrange(eq1 + 1, value_end as int));
                    }
                    assert(seg.take(eq1 - start) =~= q@.subrange(start as int, eq1 as int));
                    assert(segment_pair(seg) == Some((key@, value@)));
                }
                // Record the pair: a repeated key's value is overwritten.
                let ghost before = pairs@.map_values(|p: (Vec<u8>, Vec<u8>)| (p.0@, p.1@));
                proof {
                    lemma_first_key(before, key@);
                }
                let np = pairs.len();
                let mut fi: usize = 0;
                let mut found: Option<usize> = None;
                while fi < np
                    invariant
                        fi <= np,
                        np == pairs@.len(),
                        before == pairs@.map_values(|p: (Vec<u8>, Vec<u8>)| (p.0@, p.1@)),
                        match found {
                            Some(f) => f < fi && before[f as int].0 == key@ && (forall|j: int|
                                0 <= j < f ==> (#[trigger] before[j]).0 != key@),
                            None => forall|j: int|
                                0 <= j < fi ==> (#[trigger] before[j]).0 != key@,
                        },
                    decreases np - fi,
                {
                    if found.is_none() && bytes_eq(pairs[fi].0.as_slice(), key.as_slice()) {
                        found = Some(fi);
                    }
                    fi = fi + 1;
                }
                match found {
                    Some(f) => {
                        proof {
                            assert(first_key(before, key@) == Some(f as int));
                        }
                        let mut updated: Vec<(Vec<u8>, Vec<u8>)> = Vec::new();
                        let mut w: usize = 0;
                        while w < np
                            invariant
                                w <= np,
                                f < np == pairs@.len(),
                                before == pairs@.map_values(
                                    |p: (Vec<u8>, Vec<u8>)| (p.0@, p.1@),
                                ),
                                updated@.len() == w,
                                forall|x: int|
                                    0 <= x < w && x != f ==> (#[trigger] updated@[x]).0@
                                        == pairs@[x].0@ && updated@[x].1@ == pairs@[x].1@,
                                f < w ==> updated@[f as int].0@ == key@ && updated@[f as int].1@
                                    == value@,
                            decreases np - w,
                        {
                            if w == f {
                                let kb = crate::script::clone_bytes(&key);
                                let vb = crate::script::clone_bytes(&value);
                                updated.push((kb, vb));
                            } else {
                                let kb = crate::script::clone_bytes(&pairs[w].0);
                                let vb = crate::script::clone_bytes(&pairs[w].1);
                                updated.push((kb, vb));
                            }
                            w = w + 1;
                        }
                        pairs = updated;
                        proof {
                            assert(pairs@.map_values(|p: (Vec<u8>, Vec<u8>)| (p.0@, p.1@))
                                =~= before.update(f as int, (key@, value@)));
                        }
                    },
                    None => {
                        proof {
                            assert(first_key(before, key@) is None);
                        }
                        pairs.push((key, value));
                        proof {
                            assert(pairs@.map_values(|p: (Vec<u8>, Vec<u8>)| (p.0@, p.1@))
                                =~= before.push((key@, value@)));
                        }
                    },
                }
                proof {
                    assert(pairs@.map_values(|p: (Vec<u8>, Vec<u8>)| (p.0@, p.1@)) == query_update(
                        before,
                        key@,
                        value@,
                    ));
                }
            },
            None => {
                proof {
                    lemma_first_byte(seg, 61);
                    assert(first_byte(seg, 61) is None) by {
                        match first_byte(seg, 61) {
                            Some(i) => {
                                assert(seg[i] == q@[start + i]);
                                assert(q@[start + i] != 61);
                            },
                            None => {},
                        }
                    }
                    assert(segment_pair(seg) is None);
                }
            },
        }
        proof {
            if seg_end < n {
                assert(q@.skip(start as int).skip(seg_end - start + 1) =~= q@.skip(seg_end + 1));
            }
        }
        if seg_end >= n {
            proof {
                assert(query_pairs(q@) == pairs@.map_values(|p: (Vec<u8>, Vec<u8>)| (p.0@, p.1@)));
            }
            return pairs;
        }
        start = seg_end + 1;
    }
}

/// Finds the first position of byte `b` in `v[from..to)`.
fn find_byte_range(v: &Vec<u8>, from: usize, to: usize, b: u8) -> (r: Option<usize>)
    requires
        from <= to <= v@.len(),
    ensures
        match r {
            Some(i) => from <= i < to && v@[i as int] == b && (forall|j: int|
                from <= j < i ==> v@[j] != b),
            None => forall|j: int| from <= j < to ==> v@[j] != b,
        },
{
    let mut i: usize = from;
    while i < to
        invariant
            from <= i <= to <= v@.len(),
            forall|j: int| from <= j < i ==> v@[j] != b,
        decreases to - i,
    {
        if v[i] == b {
            return Some(i);
        }
        i = i + 1;
    }
    None
}

/// The scheme separator `://` stands at position `i`.
pub open spec fn scheme_sep_at(s: Seq<u8>, i: int) -> bool {
    0 <= i && i + 3 <= s.len() && s[i] == 58 && s[i + 1] == 47 && s[i + 2] == 47
}

/// A location with its scheme and authority stripped: everything after the
/// first `://`, or the whole text when there is none.
pub open spec fn after_scheme(s: Seq<u8>) -> Seq<u8> {
    if exists|i: int| scheme_sep_at(s, i) {
        let f = choose|i: int|
            scheme_sep_at(s, i) && (forall|j: int| 0 <= j < i ==> !scheme_sep_at(s, j));
        s.skip(f + 3)
    } else {
        s
    }
}

/// How a parsed location and query relate to the location token's text: at
/// most one `?` splits it; the part before is percent-decoded, the part
/// after contributes the query pairs.
pub open spec fn location_parse_ok(
    tok: Seq<u8>,
    loc: Seq<u8>,
    query: Seq<(Seq<u8>, Seq<u8>)>,
) -> bool {
    let a = after_scheme(tok);
    match first_byte(a, 63) {
        None => url_decoded(a) == Some(loc) && query.len() == 0,
        Some(qi) => {
            &&& forall|j: int| qi < j < a.len() ==> a[j] != 63
            &&& url_decoded(a.take(qi)) == Some(loc)
            &&& query == query_pairs(a.skip(qi + 1))
        },
    }
}

/// No parse of a location token exists: its path part cannot be
/// percent-decoded, or a second `?` follows the first.
pub open spec fn location_parse_fails(tok: Seq<u8>) -> bool {
    let a = after_scheme(tok);
    match first_byte(a, 63) {
        None => url_decoded(a) is None,
        Some(qi) => (exists|j: int| qi < j < a.len() && a[j] == 63) || url_decoded(a.take(qi))
            is None,
    }
}

/// Splits a request target into its decoded path and its query pairs.  The
/// scheme and authority, when present, are stripped; more than one `?` or
/// an undecodable path is rejected.
#[verifier::rlimit(100)]
pub fn parse_location(location_line: &Vec<u8>) -> (r: Result<(Vec<u8>, Vec<(Vec<u8>, Vec<u8>)>), Response>)
    ensures
        r matches Ok((loc, query)) ==> location_parse_ok(
            location_line@,
            loc@,
            query@.map_values(|p: (Vec<u8>, Vec<u8>)| (p.0@, p.1@)),
        ),
        r matches Err(resp) ==> resp.code_chars() == "400 Bad Request"@
            && location_parse_fails(location_line@),
{
    let n = location_line.len();
    // Find the first `://`, if any.
    let mut i: usize = 0;
    let mut sep: Option<usize> = None;
    while i < n
        invariant
            i <= n,
            n == location_line@.len(),
            match sep {
                Some(f) => scheme_sep_at(location_line@, f as int) && (forall|j: int|
                    0 <= j < f ==> !scheme_sep_at(location_line@, j)) && i == n,
                None => forall|j: int| 0 <= j < i ==> !scheme_sep_at(location_line@, j),
            },
        decreases n - i,
    {
        if n - i >= 3 && location_line[i] == 58 && location_line[i + 1] == 47 && location_line[i
            + 2] == 47 {
            sep = Some(i);
            i = n;
        } else {
            proof {
                assert(!scheme_sep_at(location_line@, i as int));
            }
            i = i + 1;
        }
    }
    let rel_start = match sep {
        Some(f) => f + 3,
        None => 0,
    };
    let ghost a = after_scheme(location_line@);
    proof {
        match sep {
            Some(f) => {
                assert(exists|k: int| scheme_sep_at(location_line@, k));
                let c = choose|k: int|
                    scheme_sep_at(location_line@, k) && (forall|j: int|
                        0 <= j < k ==> !scheme_sep_at(location_line@, j));
                assert(c == f as int);
                assert(a =~= location_line@.subrange(rel_start as int, n as int));
            },
            None => {
                assert(!(exists|k: int| scheme_sep_at(location_line@, k)));
                assert(a =~= location_line@.subrange(rel_start as int, n as int));
            },
        }
    }
    let rel = copy_range(location_line, rel_start, n);
    // At most one `?` may split path and query.
    let q1 = find_byte(&rel, 0, 63);
    match q1 {
        None => {
            proof {
                lemma_first_byte(a, 63);
                assert(first_byte(a, 63) is None) by {
                    match first_byte(a, 63) {
                        Some(k) => {
                            assert(a[k] == rel@[k]);
                        },
                        None => {},
                    }
                }
            }
            let decoded = match url_decode(&rel) {
                Some(d) => d,
                None => {
                    let mut resp = Response::bad_request();
                    let note = vstd::slice::slice_to_vec(
                        "The location in the url could not be decoded".as_bytes(),
                    );
                    resp.add_message(note);
                    proof {
                        assert(a == rel@);
                    }
                    return Err(resp);
                },
            };
            Ok((decoded, Vec::new()))
        },
        Some(q1) => {
            proof {
                lemma_first_byte(a, 63);
                assert(first_byte(a, 63) == Some(q1 as int)) by {
                    match first_byte(a, 63) {
                        Some(k) => {
                            assert(a[k] == rel@[k]);
                            if k < q1 as int {
                                assert(rel@[k] != 63);
                            }
                            if k > q1 as int {
                                assert(a[q1 as int] != 63);
                                assert(rel@[q1 as int] == 63);
                            }
                        },
                        None => {
                            assert(a[q1 as int] == rel@[q1 as int]);
                        },
                    }
                }
            }
            match find_byte(&rel, q1 + 1, 63) {
                Some(q2) => {
                    let mut resp = Response::bad_request();
                    let note = vstd::slice::slice_to_vec(
                        "Cannot have more than two '?' characters in a URL".as_bytes(),
                    );
                    resp.add_message(note);
                    proof {
                        assert(a[q2 as int] == rel@[q2 as int]);
                        assert((q1 as int) < (q2 as int) < a.len() && a[q2 as int] == 63);
                    }
                    Err(resp)
                },
                None => {
                    let path_part = copy_range(&rel, 0, q1);
                    let ghost path_view = a.take(q1 as int);
                    proof {
                        assert(path_view =~= path_part@);
                    }
                    let decoded = match url_decode(&path_part) {
                        Some(d) => d,
                        None => {
                            let mut resp = Response::bad_request();
                            let note = vstd::slice::slice_to_vec(
                                "The location in the url could not be decoded".as_bytes(),
                            );
                            resp.add_message(note);
                            return Err(resp);
                        },
                    };
                    let query_part = copy_range(&rel, q1 + 1, rel.len());
                    let query = parse_query(&query_part);
                    proof {
                        assert(a.skip(q1 + 1) =~= query_part@);
                        assert forall|j: int| q1 < j < a.len() implies a[j] != 63 by {
                            assert(a[j] == rel@[j]);
                        }
                    }
                    Ok((decoded, query))
                },
            }
        },
    }
}

/// The positions `ps` and token list `toks` are exactly the maximal
/// whitespace-free runs of `s`, in order.
pub open spec fn tokens_of(s: Seq<u8>, toks: Seq<Vec<u8>>, ps: Seq<int>) -> bool {
    &&& ps.len() == toks.len()
    &&& forall|t: int|
        0 <= t < toks.len() ==> {
            &&& 0 <= #[trigger] ps[t]
            &&& ps[t] + toks[t]@.len() <= s.len()
            &&& toks[t]@.len() > 0
            &&& toks[t]@ == s.subrange(ps[t], ps[t] + toks[t]@.len())
            &&& (forall|j: int| ps[t] <= j < ps[t] + toks[t]@.len() ==> !is_ws_byte(s[j]))
            &&& (ps[t] > 0 ==> is_ws_byte(s[ps[t] - 1]))
            &&& (ps[t] + toks[t]@.len() < s.len() ==> is_ws_byte(s[ps[t] + toks[t]@.len()]))
        }
    &&& forall|t1: int, t2: int|
        0 <= t1 < t2 < toks.len() ==> #[trigger] ps[t1] + toks[t1]@.len() < #[trigger] ps[t2]
    &&& forall|p: int|
        0 <= p < s.len() && !is_ws_byte(s[p]) ==> exists|t: int|
            0 <= t < toks.len() && #[trigger] ps[t] <= p < ps[t] + toks[t]@.len()
}

/// The first token of one decomposition begins no later than the other's,
/// and ends no earlier.
proof fn lemma_first_tokens_agree(
    s: Seq<u8>,
    toks1: Seq<Vec<u8>>,
    ps1: Seq<int>,
    toks2: Seq<Vec<u8>>,
    ps2: Seq<int>,
)
    requires
        tokens_of(s, toks1, ps1),
        tokens_of(s, toks2, ps2),
        toks1.len() > 0,
        toks2.len() > 0,
    ensures
        ps2[0] <= ps1[0],
        ps1[0] + toks1[0]@.len() <= ps2[0] + toks2[0]@.len(),
{
    // The first byte of this first token is non-whitespace, so some token
    // of the other decomposition covers it; sortedness forces that token to
    // be the other's first.
    assert(!is_ws_byte(s[ps1[0]]));
    let t = choose|t: int|
        0 <= t < toks2.len() && #[trigger] ps2[t] <= ps1[0] < ps2[t] + toks2[t]@.len();
    if t > 0 {
        assert(ps2[0] < ps2[t]);
        assert(!is_ws_byte(s[ps2[0]]));
        let t0 = choose|t0: int|
            0 <= t0 < toks1.len() && #[trigger] ps1[t0] <= ps2[0] < ps1[t0] + toks1[t0]@.len();
        assert(ps2[0] < ps2[t] <= ps1[0]);
        if t0 == 0 {
            assert(ps1[0] <= ps2[0]);
        } else {
            assert(ps1[0] < ps1[t0]);
            assert(ps1[t0] <= ps2[0]);
            assert(ps1[0] < ps2[0]);
        }
        assert(false);
    }
    assert(ps2[0] <= ps1[0]);
    // Past this first token's end stands whitespace; the other's first
    // token covers its whole run, so it reaches at least as far.
    let e1 = ps1[0] + toks1[0]@.len();
    let e2 = ps2[0] + toks2[0]@.len();
    if e2 < e1 {
        assert(ps2[0] <= ps1[0] < e2);
        assert(e2 < s.len());
        assert(is_ws_byte(s[e2]));
        assert(ps1[0] <= e2 < e1);
        assert(!is_ws_byte(s[e2]));
        assert(false);
    }
}

/// Dropping a decomposition's first token leaves a decomposition of the
/// text after that token.
proof fn lemma_tokens_suffix(s: Seq<u8>, toks: Seq<Vec<u8>>, ps: Seq<int>)
    requires
        tokens_of(s, toks, ps),
        toks.len() > 0,
    ensures
        tokens_of(
            s.skip(ps[0] + toks[0]@.len()),
            toks.drop_first(),
            ps.drop_first().map_values(|p: int| p - (ps[0] + toks[0]@.len())),
        ),
{
    let cut = ps[0] + toks[0]@.len();
    let s2 = s.skip(cut);
    let toks2 = toks.drop_first();
    let ps2 = ps.drop_first().map_values(|p: int| p - cut);
    assert forall|t: int| 0 <= t < toks2.len() implies {
        &&& 0 <= #[trigger] ps2[t]
        &&& ps2[t] + toks2[t]@.len() <= s2.len()
        &&& toks2[t]@.len() > 0
        &&& toks2[t]@ == s2.subrange(ps2[t], ps2[t] + toks2[t]@.len())
        &&& (forall|j: int| ps2[t] <= j < ps2[t] + toks2[t]@.len() ==> !is_ws_byte(s2[j]))
        &&& (ps2[t] > 0 ==> is_ws_byte(s2[ps2[t] - 1]))
        &&& (ps2[t] + toks2[t]@.len() < s2.len() ==> is_ws_byte(s2[ps2[t] + toks2[t]@.len()]))
    } by {
        assert(toks2[t] == toks[t + 1]);
        assert(ps2[t] == ps[t + 1] - cut);
        assert(ps[0] + toks[0]@.len() < ps[t + 1]);
        assert(toks[t + 1]@ == s.subrange(ps[t + 1], ps[t + 1] + toks[t + 1]@.len()));
        assert(toks2[t]@ =~= s2.subrange(ps2[t], ps2[t] + toks2[t]@.len()));
        assert forall|j: int| ps2[t] <= j < ps2[t] + toks2[t]@.len() implies !is_ws_byte(
            s2[j],
        ) by {
            assert(s2[j] == s[j + cut]);
        }
        assert(is_ws_byte(s[ps[t + 1] - 1]));
        assert(s2[ps2[t] - 1] == s[ps[t + 1] - 1]);
        if ps2[t] + toks2[t]@.len() < s2.len() {
            assert(s2[ps2[t] + toks2[t]@.len()] == s[ps[t + 1] + toks[t + 1]@.len()]);
        }
    }
    assert forall|t1: int, t2: int| 0 <= t1 < t2 < toks2.len() implies #[trigger] ps2[t1]
        + toks2[t1]@.len() < #[trigger] ps2[t2] by {
        assert(toks2[t1] == toks[t1 + 1]);
        assert(toks2[t2] == toks[t2 + 1]);
        assert(ps[t1 + 1] + toks[t1 + 1]@.len() < ps[t2 + 1]);
    }
    assert forall|p: int| 0 <= p < s2.len() && !is_ws_byte(s2[p]) implies exists|t: int|
        0 <= t < toks2.len() && #[trigger] ps2[t] <= p < ps2[t] + toks2[t]@.len() by {
        assert(s2[p] == s[p + cut]);
        let t = choose|t: int|
            0 <= t < toks.len() && #[trigger] ps[t] <= p + cut < ps[t] + toks[t]@.len();
        assert(t != 0);
        assert(ps2[t - 1] == ps[t] - cut);
        assert(toks2[t - 1] == toks[t]);
        assert(ps2[t - 1] <= p < ps2[t - 1] + toks2[t - 1]@.len());
    }
}

/// A line has only one decomposition into maximal whitespace-free runs:
/// any two lists satisfying `tokens_of` agree in positions and contents.
proof fn lemma_tokens_unique(
    s: Seq<u8>,
    toks1: Seq<Vec<u8>>,
    ps1: Seq<int>,
    toks2: Seq<Vec<u8>>,
    ps2: Seq<int>,
)
    requires
        tokens_of(s, toks1, ps1),
        tokens_of(s, toks2, ps2),
    ensures
        ps1 == ps2,
        toks1.map_values(|v: Vec<u8>| v@) == toks2.map_values(|v: Vec<u8>| v@),
    decreases toks1.len(),
{
    if toks1.len() == 0 {
        // With no token on one side, every byte is whitespace, so the other
        // side has no token either.
        if toks2.len() > 0 {
            assert(!is_ws_byte(s[ps2[0]]));
            let t = choose|t: int|
                0 <= t < toks1.len() && #[trigger] ps1[t] <= ps2[0] < ps1[t] + toks1[t]@.len();
            assert(false);
        }
        assert(ps1 =~= ps2);
        assert(toks1.map_values(|v: Vec<u8>| v@) =~= toks2.map_values(|v: Vec<u8>| v@));
    } else {
        if toks2.len() == 0 {
            assert(!is_ws_byte(s[ps1[0]]));
            let t = choose|t: int|
                0 <= t < toks2.len() && #[trigger] ps2[t] <= ps1[0] < ps2[t] + toks2[t]@.len();
            assert(false);
        }
        lemma_first_tokens_agree(s, toks1, ps1, toks2, ps2);
        lemma_first_tokens_agree(s, toks2, ps2, toks1, ps1);
        assert(ps1[0] == ps2[0] && toks1[0]@.len() == toks2[0]@.len());
        let cut = ps1[0] + toks1[0]@.len();
        lemma_tokens_suffix(s, toks1, ps1);
        lemma_tokens_suffix(s, toks2, ps2);
        assert(ps2.drop_first().map_values(|p: int| p - (ps2[0] + toks2[0]@.len()))
            =~= ps2.drop_first().map_values(|p: int| p - cut));
        lemma_tokens_unique(
            s.skip(cut),
            toks1.drop_first(),
            ps1.drop_first().map_values(|p: int| p - cut),
            toks2.drop_first(),
            ps2.drop_first().map_values(|p: int| p - cut),
        );
        assert(ps1 =~= ps2) by {
            assert forall|t: int| 0 <= t < ps1.len() implies ps1[t] == ps2[t] by {
                if t > 0 {
                    assert(ps1.drop_first().map_values(|p: int| p - cut)[t - 1] == ps1[t] - cut);
                    assert(ps2.drop_first().map_values(|p: int| p - cut)[t - 1] == ps2[t] - cut);
                }
            }
        }
        assert(toks1.map_values(|v: Vec<u8>| v@) =~= toks2.map_values(|v: Vec<u8>| v@)) by {
            assert forall|t: int| 0 <= t < toks1.len() implies toks1[t]@ == toks2[t]@ by {
                if t > 0 {
                    assert(toks1.drop_first().map_values(|v: Vec<u8>| v@)[t - 1] == toks1[t]@);
                    assert(toks2.drop_first().map_values(|v: Vec<u8>| v@)[t - 1] == toks2[t]@);
                } else {
                    assert(toks1[0]@ == s.subrange(ps1[0], ps1[0] + toks1[0]@.len()));
                    assert(toks2[0]@ == s.subrange(ps2[0], ps2[0] + toks2[0]@.len()));
                }
            }
        }
    }
}

/// Splits a line into its whitespace-separated tokens, with the position
/// each token starts at.
#[verifier::rlimit(100)]
fn split_ws_tokens(s: &Vec<u8>) -> (r: (Vec<Vec<u8>>, Ghost<Seq<int>>))
    ensures
        tokens_of(s@, r.0@, r.1@),
{
    let n = s.len();
    let mut toks: Vec<Vec<u8>> = Vec::new();
    let ghost mut ps: Seq<int> = Seq::empty();
    let mut cur: usize = 0;
    while cur < n
        invariant
            cur <= n,
            n == s@.len(),
            ps.len() == toks@.len(),
            forall|t: int|
                0 <= t < toks@.len() ==> {
                    &&& 0 <= #[trigger] ps[t]
                    &&& ps[t] + toks@[t]@.len() <= cur
                    &&& toks@[t]@.len() > 0
                    &&& toks@[t]@ == s@.subrange(ps[t], ps[t] + toks@[t]@.len())
                    &&& (forall|j: int| ps[t] <= j < ps[t] + toks@[t]@.len() ==> !is_ws_byte(s@[j]))
                    &&& (ps[t] > 0 ==> is_ws_byte(s@[ps[t] - 1]))
                    &&& (ps[t] + toks@[t]@.len() < n ==> is_ws_byte(s@[ps[t] + toks@[t]@.len()]))
                },
            forall|t1: int, t2: int|
                0 <= t1 < t2 < toks@.len() ==> #[trigger] ps[t1] + toks@[t1]@.len() < #[trigger] ps[t2],
            forall|p: int|
                0 <= p < cur && !is_ws_byte(s@[p]) ==> exists|t: int|
                    0 <= t < toks@.len() && #[trigger] ps[t] <= p < ps[t] + toks@[t]@.len(),
            cur > 0 ==> is_ws_byte(s@[cur - 1]) || (cur < n && is_ws_byte(s@[cur as int])),
        decreases n - cur,
    {
        let b = s[cur];
        if b == 32 || b == 9 || b == 10 || b == 13 || b == 12 {
            cur = cur + 1;
        } else {
            // A token starts here; it ends at the next whitespace byte.
            let mut e: usize = cur;
            let mut stopped = false;
            while e < n && !stopped
                invariant
                    cur <= e <= n,
                    n == s@.len(),
                    forall|j: int| cur <= j < e ==> !is_ws_byte(s@[j]),
                    stopped ==> e < n && is_ws_byte(s@[e as int]),
                decreases n - e + (if stopped {
                    0int
                } else {
                    1int
                }),
            {
                let c = s[e];
                if c == 32 || c == 9 || c == 10 || c == 13 || c == 12 {
                    stopped = true;
                } else {
                    e = e + 1;
                }
            }
            proof {
                assert(!is_ws_byte(s@[cur as int]));
            }
            let tok = copy_range(s, cur, e);
            let ghost old_ps = ps;
            let ghost old_toks = toks@;
            toks.push(tok);
            proof {
                ps = ps.push(cur as int);
            }
            // The scan above stopped either at the end or at whitespace.
            let at_ws = stopped;
            proof {
                assert(toks@ =~= old_toks.push(tok));
                assert(ps =~= old_ps.push(cur as int));
                let new_t = toks@.len() - 1;
                assert(toks@[new_t] == tok);
                assert(ps[new_t] == cur as int);
                assert forall|t: int| 0 <= t < toks@.len() implies {
                    &&& 0 <= #[trigger] ps[t]
                    &&& ps[t] + toks@[t]@.len() <= e
                    &&& toks@[t]@.len() > 0
                    &&& toks@[t]@ == s@.subrange(ps[t], ps[t] + toks@[t]@.len())
                    &&& (forall|j: int| ps[t] <= j < ps[t] + toks@[t]@.len() ==> !is_ws_byte(s@[j]))
                    &&& (ps[t] > 0 ==> is_ws_byte(s@[ps[t] - 1]))
                    &&& (ps[t] + toks@[t]@.len() < n ==> is_ws_byte(s@[ps[t] + toks@[t]@.len()]))
                } by {
                    if t < old_toks.len() {
                        assert(toks@[t] == old_toks[t]);
                        assert(ps[t] == old_ps[t]);
                    } else {
                        assert(!is_ws_byte(s@[cur as int]));
                    }
                }
                assert forall|t1: int, t2: int| 0 <= t1 < t2 < toks@.len() implies #[trigger] ps[t1]
                    + toks@[t1]@.len() < #[trigger] ps[t2] by {
                    if t2 < old_toks.len() {
                        assert(toks@[t1] == old_toks[t1]);
                        assert(ps[t1] == old_ps[t1]);
                        assert(ps[t2] == old_ps[t2]);
                    } else {
                        assert(toks@[t1] == old_toks[t1]);
                        assert(ps[t1] == old_ps[t1]);
                        let end1 = old_ps[t1] + old_toks[t1]@.len();
                        assert(end1 <= cur as int);
                        if end1 == cur as int {
                            assert(is_ws_byte(s@[end1 - 1]) || !is_ws_byte(s@[end1 - 1]));
                            assert(end1 < n ==> is_ws_byte(s@[end1]));
                            assert(!is_ws_byte(s@[cur as int]));
                            assert(false);
                        }
                    }
                }
                assert forall|p: int|
                    0 <= p < e && !is_ws_byte(s@[p]) implies exists|t: int|
                    0 <= t < toks@.len() && #[trigger] ps[t] <= p < ps[t] + toks@[t]@.len() by {
                    if p < cur {
                        let t = choose|t: int|
                            0 <= t < old_toks.len() && #[trigger] old_ps[t] <= p < old_ps[t]
                                + old_toks[t]@.len();
                        assert(ps[t] <= p < ps[t] + toks@[t]@.len());
                    } else {
                        assert(ps[new_t] <= p < ps[new_t] + toks@[new_t]@.len());
                    }
                }
                if at_ws {
                    assert(is_ws_byte(s@[e as int]));
                }
            }
            if !at_ws {
                return (toks, Ghost(ps));
            }
            cur = e;
        }
    }
    (toks, Ghost(ps))
}

/// Parses a request's control-data line: method, target and version,
/// separated by whitespace.
pub fn parse_control_data_line(line: &Vec<u8>) -> (r: Result<HttpRequest, Response>)
    ensures
        r matches Ok(req) ==> {
            &&& req.headers@.len() == 0
            &&& req.body is Empty
            &&& exists|ps: Seq<int>, m: Vec<u8>, l: Vec<u8>, v: Vec<u8>|
                {
                    &&& tokens_of(line@, #[trigger] seq![m, l, v], ps)
                    &&& req.method@ == m@
                    &&& v@.len() >= 6
                    &&& req.version@ == v@.skip(5)
                    &&& location_parse_ok(
                        l@,
                        req.location@,
                        req.query@.map_values(|p: (Vec<u8>, Vec<u8>)| (p.0@, p.1@)),
                    )
                }
        },
        r matches Err(resp) ==> resp.code_chars() == "400 Bad Request"@ && !(exists|
            ps: Seq<int>,
            m: Vec<u8>,
            l: Vec<u8>,
            v: Vec<u8>,
        |
            tokens_of(line@, #[trigger] seq![m, l, v], ps) && v@.len() >= 6
                && !location_parse_fails(l@)),
{
    let (mut tokens, ps) = split_ws_tokens(line);
    let ghost toks0 = tokens@;
    if tokens.len() != 3 {
        let mut resp = Response::bad_request();
        let note = vstd::slice::slice_to_vec("Control line was improperly formatted".as_bytes());
        resp.add_message(note);
        proof {
            assert forall|ps2: Seq<int>, m: Vec<u8>, l: Vec<u8>, v: Vec<u8>|
                !(tokens_of(line@, #[trigger] seq![m, l, v], ps2) && v@.len() >= 6
                    && !location_parse_fails(l@)) by {
                if tokens_of(line@, seq![m, l, v], ps2) {
                    lemma_tokens_unique(line@, toks0, ps@, seq![m, l, v], ps2);
                    assert(toks0.map_values(|w: Vec<u8>| w@).len() == 3);
                }
            }
        }
        return Err(resp);
    }
    let version_tok = match tokens.pop() {
        Some(t) => t,
        None => {
            proof {
                assert(false);
            }
            return Err(Response::bad_request());
        },
    };
    let location_tok = match tokens.pop() {
        Some(t) => t,
        None => {
            proof {
                assert(false);
            }
            return Err(Response::bad_request());
        },
    };
    let method = match tokens.pop() {
        Some(t) => t,
        None => {
            proof {
                assert(false);
            }
            return Err(Response::bad_request());
        },
    };
    if version_tok.len() < 6 {
        let mut resp = Response::bad_request();
        let note = vstd::slice::slice_to_vec("HTTP version was improperly formatted".as_bytes());
        resp.add_message(note);
        proof {
            assert forall|ps2: Seq<int>, m: Vec<u8>, l: Vec<u8>, v: Vec<u8>|
                !(tokens_of(line@, #[trigger] seq![m, l, v], ps2) && v@.len() >= 6
                    && !location_parse_fails(l@)) by {
                if tokens_of(line@, seq![m, l, v], ps2) {
                    lemma_tokens_unique(line@, toks0, ps@, seq![m, l, v], ps2);
                    assert(v@ == toks0.map_values(|w: Vec<u8>| w@)[2]);
                    assert(v@ == version_tok@);
                }
            }
        }
        return Err(resp);
    }
    let mut version_head = version_tok;
    let version = version_head.split_off(5);
    let (location, query) = match parse_location(&location_tok) {
        Ok(lq) => lq,
        Err(resp) => {
            proof {
                assert forall|ps2: Seq<int>, m: Vec<u8>, l: Vec<u8>, v: Vec<u8>|
                    !(tokens_of(line@, #[trigger] seq![m, l, v], ps2) && v@.len() >= 6
                        && !location_parse_fails(l@)) by {
                    if tokens_of(line@, seq![m, l, v], ps2) {
                        lemma_tokens_unique(line@, toks0, ps@, seq![m, l, v], ps2);
                        assert(l@ == toks0.map_values(|w: Vec<u8>| w@)[1]);
                        assert(l@ == location_tok@);
                        assert(location_parse_fails(l@));
                    }
                }
            }
            return Err(resp);
        },
    };
    let req = HttpRequest::new(method, location, query, version);
    proof {
        let m = toks0[0];
        let l = toks0[1];
        let v = toks0[2];
        assert(seq![m, l, v] =~= toks0);
        assert(tokens_of(line@, seq![m, l, v], ps@));
        assert(req.method@ == m@);
        assert(v@.len() >= 6);
        assert(req.version@ =~= v@.skip(5));
        assert(location_parse_ok(
            l@,
            req.location@,
            req.query@.map_values(|p: (Vec<u8>, Vec<u8>)| (p.0@, p.1@)),
        ));
    }
    Ok(req)
}

} // verus!
