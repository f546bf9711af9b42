//! The control packet: a status line, `name: value` headers and a body,
//! framed as `<status>\r\n(<name>: <value>\r\n)*\r\n<body>`.
use vstd::prelude::*;
use vstd::utf8::{decode_utf8, encode_scalar, encode_utf8, valid_utf8};

use crate::text::{
    chars_of, find, find_in, lemma_find_from_absent, lemma_find_from_first,
    lemma_find_from_found, occurs_at, slice_string,
};

verus! {

pub open spec fn crlf() -> Seq<char> {
    seq!['\r', '\n']
}

/// Separates a header's name from its value.
pub open spec fn separator() -> Seq<char> {
    seq![':', ' ']
}

/// Ends the header section.
pub open spec fn blank_line() -> Seq<char> {
    seq!['\r', '\n', '\r', '\n']
}

/// Mathematical model of a packet.
pub ghost struct PacketView {
    pub method: Seq<char>,
    pub headers: Seq<(Seq<char>, Seq<char>)>,
    pub body: Seq<char>,
}

/// No two headers share a name.
pub open spec fn unique_names(hs: Seq<(Seq<char>, Seq<char>)>) -> bool {
    forall|i: int, j: int| 0 <= i < j < hs.len() ==> hs[i].0 != hs[j].0
}

pub open spec fn has_name(hs: Seq<(Seq<char>, Seq<char>)>, k: Seq<char>) -> bool {
    exists|i: int| 0 <= i < hs.len() && hs[i].0 == k
}

/// Sets header `k` to `v`: replaces the value of an existing header of that
/// name, or appends a new header.
pub open spec fn insert_header(
    hs: Seq<(Seq<char>, Seq<char>)>,
    k: Seq<char>,
    v: Seq<char>,
) -> Seq<(Seq<char>, Seq<char>)> {
    if has_name(hs, k) {
        hs.update(choose|i: int| 0 <= i < hs.len() && hs[i].0 == k, (k, v))
    } else {
        hs.push((k, v))
    }
}

/// The value of header `k`, if the packet has one.
pub open spec fn header_value(hs: Seq<(Seq<char>, Seq<char>)>, k: Seq<char>) -> Option<Seq<char>> {
    if has_name(hs, k) {
        Some(hs[choose|i: int| 0 <= i < hs.len() && hs[i].0 == k].1)
    } else {
        None
    }
}

pub open spec fn header_line(h: (Seq<char>, Seq<char>)) -> Seq<char> {
    h.0 + separator() + h.1
}

/// Lines joined by `\r\n`.
pub open spec fn join_lines(ls: Seq<Seq<char>>) -> Seq<char>
    decreases ls.len(),
{
    if ls.len() == 0 {
        seq![]
    } else if ls.len() == 1 {
        ls[0]
    } else {
        ls[0] + crlf() + join_lines(ls.drop_first())
    }
}

/// The status line followed by one line per header.
pub open spec fn packet_lines(p: PacketView) -> Seq<Seq<char>> {
    seq![p.method] + p.headers.map_values(|h: (Seq<char>, Seq<char>)| header_line(h))
}

/// The text of a packet on the wire.
pub open spec fn encode_text(p: PacketView) -> Seq<char> {
    join_lines(packet_lines(p)) + blank_line() + p.body
}

proof fn lemma_join_push(ls: Seq<Seq<char>>, x: Seq<char>)
    requires
        ls.len() >= 1,
    ensures
        join_lines(ls.push(x)) == join_lines(ls) + crlf() + x,
    decreases ls.len(),
{
    if ls.len() == 1 {
        assert(ls.push(x).drop_first() =~= seq![x]);
        assert(join_lines(seq![x]) == x);
        assert(join_lines(ls.push(x)) =~= join_lines(ls) + crlf() + x);
    } else {
        assert(ls.push(x).drop_first() =~= ls.drop_first().push(x));
        lemma_join_push(ls.drop_first(), x);
        assert(join_lines(ls.push(x)) =~= join_lines(ls) + crlf() + x);
    }
}

/// Lines separated by `\r\n`, split at each first occurrence in turn.
pub open spec fn split_lines(h: Seq<char>) -> Seq<Seq<char>>
    decreases h.len(),
{
    let j = find(h, crlf());
    if j < 0 || j + 2 > h.len() {
        seq![h]
    } else {
        seq![h.subrange(0, j)] + split_lines(h.subrange(j + 2, h.len() as int))
    }
}

/// A header line split at its first `": "`.
pub open spec fn split_header(line: Seq<char>) -> Option<(Seq<char>, Seq<char>)> {
    let j = find(line, separator());
    if j < 0 || j + 2 > line.len() {
        None
    } else {
        Some((line.subrange(0, j), line.subrange(j + 2, line.len() as int)))
    }
}

/// Header lines read in order, each setting its header; `None` when a line
/// has no `": "`.
pub open spec fn parse_headers(ls: Seq<Seq<char>>) -> Option<Seq<(Seq<char>, Seq<char>)>>
    decreases ls.len(),
{
    if ls.len() == 0 {
        Some(seq![])
    } else {
        match parse_headers(ls.drop_last()) {
            None => None,
            Some(hs) => match split_header(ls.last()) {
                None => None,
                Some(kv) => Some(insert_header(hs, kv.0, kv.1)),
            },
        }
    }
}

/// Why a buffer is not a packet. Each is a format error.
#[derive(Debug, Clone, Copy, PartialEq, Eq, Structural)]
pub enum PacketError {
    /// No blank line separates the headers from the body.
    BadFormat,
    /// A header line has no `": "`.
    BadHeader,
    /// The buffer is not valid UTF-8 text.
    NotText,
}

/// The packet that a text holds: the status line and header lines come
/// before the first `\r\n\r\n`, the body is everything after it.
pub open spec fn decode_text(t: Seq<char>) -> Result<PacketView, PacketError> {
    let i = find(t, blank_line());
    if i < 0 || i + 4 > t.len() {
        Err(PacketError::BadFormat)
    } else {
        let ls = split_lines(t.subrange(0, i));
        match parse_headers(ls.drop_first()) {
            Some(hs) => Ok(
                PacketView { method: ls[0], headers: hs, body: t.subrange(i + 4, t.len() as int) },
            ),
            None => Err(PacketError::BadHeader),
        }
    }
}

/// The packet that a buffer holds.
pub open spec fn decode_bytes(b: Seq<u8>) -> Result<PacketView, PacketError> {
    if valid_utf8(b) {
        decode_text(decode_utf8(b))
    } else {
        Err(PacketError::NotText)
    }
}

pub open spec fn headers_view(hs: Seq<(String, String)>) -> Seq<(Seq<char>, Seq<char>)> {
    hs.map_values(|h: (String, String)| (h.0@, h.1@))
}

proof fn lemma_parse_headers_stays_none(a: Seq<Seq<char>>, b: Seq<Seq<char>>)
    requires
        parse_headers(a) is None,
    ensures
        parse_headers(a + b) is None,
    decreases b.len(),
{
    if b.len() == 0 {
        assert(a + b =~= a);
    } else {
        lemma_parse_headers_stays_none(a, b.drop_last());
        assert((a + b).drop_last() =~= a + b.drop_last());
    }
}

/// Relies on `String::from_utf8`: it succeeds exactly on valid UTF-8, with
/// the string whose encoding the bytes are.
#[verifier::external_body]
fn utf8_string(b: Vec<u8>) -> (r: Option<String>)
    ensures
        match r {
            Some(s) => encode_utf8(s@) == b@,
            None => !valid_utf8(b@),
        },
{
    String::from_utf8(b).ok()
}

/// Sets header `k` to `v` in place.
fn set_header(hs: &mut Vec<(String, String)>, k: String, v: String)
    requires
        unique_names(headers_view(old(hs)@)),
    ensures
        headers_view(final(hs)@) == insert_header(headers_view(old(hs)@), k@, v@),
        unique_names(headers_view(final(hs)@)),
{
    let ghost hv = headers_view(hs@);
    let mut i: usize = 0;
    while i < hs.len()
        invariant
            i <= hs.len(),
            hs@ == old(hs)@,
            hv == headers_view(hs@),
            unique_names(hv),
            forall|j: int| 0 <= j < i ==> hv[j].0 != k@,
        decreases hs.len() - i,
    {
        if hs[i].0 == k {
            assert(hv[i as int].0 == k@);
            proof {
                let c = choose|j: int| 0 <= j < hv.len() && hv[j].0 == k@;
                assert(c == i);
            }
            hs.set(i, (k, v));
            assert(headers_view(hs@) =~= hv.update(i as int, (k@, v@)));
            return;
        }
        i = i + 1;
    }
    hs.push((k, v));
    assert(headers_view(hs@) =~= hv.push((k@, v@)));
}

/// Decodes a packet from the bytes read off the socket.
pub fn decode_packet(buffer: Vec<u8>) -> (r: Result<Packet, PacketError>)
    ensures
        match r {
            Ok(p) => decode_bytes(buffer@) == Ok::<PacketView, PacketError>(p@) && unique_names(
                p@.headers,
            ),
            Err(e) => decode_bytes(buffer@) == Err::<PacketView, PacketError>(e),
        },
{
    let ghost b = buffer@;
    let text = match utf8_string(buffer) {
        Some(s) => s,
        None => {
            return Err(PacketError::NotText);
        },
    };
    proof {
        vstd::utf8::encode_utf8_decode_utf8(text@);
        vstd::utf8::encode_utf8_valid_utf8(text@);
    }
    let t = chars_of(text.as_str());
    let blank = vec!['\r', '\n', '\r', '\n'];
    let crlf_chars = vec!['\r', '\n'];
    let sep = vec![':', ' '];
    assert(blank@ =~= blank_line());
    assert(crlf_chars@ =~= crlf());
    assert(sep@ =~= separator());
    assert(t@.subrange(0, t@.len() as int) =~= t@);
    let end = match find_in(&t, 0, t.len(), &blank) {
        Some(i) => i,
        None => {
            return Err(PacketError::BadFormat);
        },
    };
    proof {
        lemma_find_from_found(t@, blank_line(), 0);
    }
    let body = slice_string(text.as_str(), end + 4, t.len());
    let ghost head = t@.subrange(0, end as int);
    let ghost all = split_lines(head);
    let mut method = String::new();
    let mut headers: Vec<(String, String)> = Vec::new();
    let mut pos: usize = 0;
    let mut first = true;
    let ghost mut done: Seq<Seq<char>> = seq![];
    assert(decode_bytes(b) == decode_text(text@));
    assert(head.subrange(0, head.len() as int) =~= head);
    loop
        invariant_except_break
            done + split_lines(head.subrange(pos as int, end as int)) == all,
        invariant
            pos <= end,
            end + 4 <= t.len(),
            t@ == text@,
            head == t@.subrange(0, end as int),
            all == split_lines(head),
            crlf_chars@ == crlf(),
            sep@ == separator(),
            first == (done.len() == 0),
            first ==> headers@.len() == 0,
            b == buffer@,
            decode_bytes(b) == decode_text(text@),
            find(text@, blank_line()) == end as int,
            done.len() > 0 ==> method@ == done[0],
            done.len() > 0 ==> parse_headers(done.drop_first()) == Some(headers_view(headers@)),
            unique_names(headers_view(headers@)),
        ensures
            all.len() > 0,
            method@ == all[0],
            parse_headers(all.drop_first()) == Some(headers_view(headers@)),
            unique_names(headers_view(headers@)),
        decreases end - pos,
    {
        let ghost u = head.subrange(pos as int, end as int);
        assert(u =~= t@.subrange(pos as int, end as int));
        let found = find_in(&t, pos, end, &crlf_chars);
        proof {
            lemma_find_from_found(u, crlf(), 0);
        }
        let line_end = match found {
            Some(j) => j,
            None => end,
        };
        let ghost line = t@.subrange(pos as int, line_end as int);
        let ghost rest = if found is Some {
            t@.subrange(line_end + 2, end as int)
        } else {
            seq![]
        };
        proof {
            if found is Some {
                assert(u.subrange(0, line_end - pos) =~= line);
                assert(u.subrange(line_end - pos + 2, u.len() as int) =~= rest);
                assert(split_lines(u) == seq![line] + split_lines(rest));
            } else {
                assert(u =~= line);
                assert(split_lines(u) == seq![line]);
            }
        }
        let ghost next_done = done.push(line);
        if first {
            method = slice_string(text.as_str(), pos, line_end);
            first = false;
            assert(next_done.drop_first() =~= seq![]);
            assert(headers_view(headers@) =~= seq![]);
        } else {
            assert(next_done.drop_first() =~= done.drop_first().push(line));
            assert(next_done.drop_first().drop_last() =~= done.drop_first());
            let colon = find_in(&t, pos, line_end, &sep);
            proof {
                lemma_find_from_found(line, separator(), 0);
            }
            match colon {
                None => {
                    proof {
                        assert(parse_headers(next_done.drop_first()) is None);
                        if found is Some {
                            assert(all =~= next_done + split_lines(rest));
                            assert(all.drop_first() =~= next_done.drop_first() + split_lines(
                                rest,
                            ));
                            lemma_parse_headers_stays_none(
                                next_done.drop_first(),
                                split_lines(rest),
                            );
                        } else {
                            assert(all =~= next_done);
                        }
                        assert(t@.subrange(0, end as int) == head);
                        assert(split_lines(text@.subrange(0, end as int)) == all);
                        assert(decode_text(text@) == Err::<PacketView, PacketError>(
                            PacketError::BadHeader,
                        ));
                    }
                    return Err(PacketError::BadHeader);
                },
                Some(c) => {
                    let k = slice_string(text.as_str(), pos, c);
                    let v = slice_string(text.as_str(), c + 2, line_end);
                    assert(k@ =~= line.subrange(0, c - pos));
                    assert(v@ =~= line.subrange(c - pos + 2, line.len() as int));
                    let ghost old_hv = headers_view(headers@);
                    assert(split_header(line) == Some((k@, v@)));
                    set_header(&mut headers, k, v);
                    assert(parse_headers(next_done.drop_first()) == Some(
                        insert_header(old_hv, k@, v@),
                    ));
                },
            }
        }
        proof {
            done = next_done;
        }
        match found {
            None => {
                assert(all =~= done);
                break;
            },
            Some(j) => {
                assert(done + split_lines(rest) =~= all);
                assert(head.subrange(j + 2, end as int) =~= rest);
                pos = j + 2;
            },
        }
    }
    let ghost hv = headers_view(headers@);
    assert(decode_text(text@) == Ok::<PacketView, PacketError>(
        PacketView { method: method@, headers: hv, body: body@ },
    ));
    Ok(Packet { method, headers, body })
}

/// A packet under construction or decoded from the wire.
pub struct Packet {
    pub method: String,
    pub headers: Vec<(String, String)>,
    pub body: String,
}

impl View for Packet {
    type V = PacketView;

    open spec fn view(&self) -> PacketView {
        PacketView {
            method: self.method@,
            headers: self.headers@.map_values(|h: (String, String)| (h.0@, h.1@)),
            body: self.body@,
        }
    }
}

/// A character with the Unicode `White_Space` property.
pub open spec fn is_white_space(c: char) -> bool {
    let u = c as u32;
    ||| 0x09 <= u <= 0x0D
    ||| u == 0x20
    ||| u == 0x85
    ||| u == 0xA0
    ||| u == 0x1680
    ||| 0x2000 <= u <= 0x200A
    ||| u == 0x2028
    ||| u == 0x2029
    ||| u == 0x202F
    ||| u == 0x205F
    ||| u == 0x3000
}

/// `s` without its leading white space.
pub open spec fn trim_start_of(s: Seq<char>) -> Seq<char>
    decreases s.len(),
{
    if s.len() > 0 && is_white_space(s[0]) {
        trim_start_of(s.drop_first())
    } else {
        s
    }
}

/// `s` without its trailing white space.
pub open spec fn trim_end_of(s: Seq<char>) -> Seq<char>
    decreases s.len(),
{
    if s.len() > 0 && is_white_space(s.last()) {
        trim_end_of(s.drop_last())
    } else {
        s
    }
}

/// `s` without leading and trailing white space.
pub open spec fn trim_of(s: Seq<char>) -> Seq<char> {
    trim_end_of(trim_start_of(s))
}

fn white_space(c: char) -> (r: bool)
    ensures
        r == is_white_space(c),
{
    let u = c as u32;
    (0x09 <= u && u <= 0x0D) || u == 0x20 || u == 0x85 || u == 0xA0 || u == 0x1680 || (0x2000
        <= u && u <= 0x200A) || u == 0x2028 || u == 0x2029 || u == 0x202F || u == 0x205F || u
        == 0x3000
}

/// `s` without leading and trailing white space.
pub fn trim_str(s: &str) -> (r: String)
    ensures
        r@ == trim_of(s@),
{
    let t = chars_of(s);
    let n = t.len();
    let mut i: usize = 0;
    assert(t@.subrange(0, n as int) =~= t@);
    while i < n && white_space(t[i])
        invariant
            i <= n,
            n == t@.len(),
            trim_start_of(t@) == trim_start_of(t@.subrange(i as int, n as int)),
        decreases n - i,
    {
        assert(t@.subrange(i as int, n as int).drop_first() =~= t@.subrange(i + 1, n as int));
        i = i + 1;
    }
    let ghost u = t@.subrange(i as int, n as int);
    assert(trim_start_of(u) == u);
    let mut j: usize = n;
    assert(u.subrange(0, (n - i) as int) =~= u);
    while j > i && white_space(t[j - 1])
        invariant
            i <= j <= n,
            n == t@.len(),
            u == t@.subrange(i as int, n as int),
            trim_end_of(u) == trim_end_of(t@.subrange(i as int, j as int)),
        decreases j - i,
    {
        assert(t@.subrange(i as int, j as int).drop_last() =~= t@.subrange(i as int, j - 1));
        j = j - 1;
    }
    assert(trim_end_of(t@.subrange(i as int, j as int)) == t@.subrange(i as int, j as int));
    slice_string(s, i, j)
}

impl Packet {
    /// An empty request packet: status line `POST /`, no headers, no body.
    pub fn new() -> (r: Packet)
        ensures
            r@ == (PacketView { method: "POST /"@, headers: seq![], body: seq![] }),
    {
        let r = Packet { method: String::from_str("POST /"), headers: Vec::new(), body: String::new() };
        assert(r@.headers =~= seq![]);
        r
    }

    /// Sets the status line to `HTTP/1.1 ` followed by `method` without
    /// surrounding whitespace.
    pub fn method(self, method: &str) -> (r: Packet)
        ensures
            r@ == (PacketView { method: "HTTP/1.1 "@ + trim_of(method@), ..self@ }),
    {
        let mut line = String::from_str("HTTP/1.1 ");
        line.append(trim_str(method).as_str());
        Packet { method: line, headers: self.headers, body: self.body }
    }

    /// Sets header `key` to `value`, both without surrounding whitespace.
    pub fn header(self, key: &str, value: &str) -> (r: Packet)
        requires
            unique_names(self@.headers),
        ensures
            r@ == (PacketView {
                headers: insert_header(self@.headers, trim_of(key@), trim_of(value@)),
                ..self@
            }),
            unique_names(r@.headers),
    {
        let mut headers = self.headers;
        set_header(
            &mut headers,
            trim_str(key),
            trim_str(value),
        );
        Packet { method: self.method, headers, body: self.body }
    }

    /// Sets the body.
    pub fn body(self, body: &str) -> (r: Packet)
        ensures
            r@ == (PacketView { body: body@, ..self@ }),
    {
        Packet { method: self.method, headers: self.headers, body: String::from_str(body) }
    }

    /// The value of header `key`, if the packet has one.
    pub fn get_header(&self, key: &str) -> (r: Option<String>)
        requires
            unique_names(self@.headers),
        ensures
            match r {
                Some(v) => header_value(self@.headers, key@) == Some(v@),
                None => header_value(self@.headers, key@) is None,
            },
    {
        let ghost hv = self@.headers;
        let k = String::from_str(key);
        let mut i: usize = 0;
        while i < self.headers.len()
            invariant
                i <= self.headers.len(),
                hv == self@.headers,
                k@ == key@,
                unique_names(hv),
                forall|j: int| 0 <= j < i ==> hv[j].0 != key@,
            decreases self.headers.len() - i,
        {
            if self.headers[i].0 == k {
                assert(hv[i as int].0 == key@);
                proof {
                    let c = choose|j: int| 0 <= j < hv.len() && hv[j].0 == key@;
                    assert(c == i);
                }
                return Some(self.headers[i].1.clone());
            }
            i = i + 1;
        }
        None
    }

    /// Decodes a packet from raw bytes.
    pub fn from_bytes(buffer: Vec<u8>) -> (r: Result<Packet, PacketError>)
        ensures
            match r {
                Ok(p) => decode_bytes(buffer@) == Ok::<PacketView, PacketError>(p@) && unique_names(
                    p@.headers,
                ),
                Err(e) => decode_bytes(buffer@) == Err::<PacketView, PacketError>(e),
            },
    {
        decode_packet(buffer)
    }

    /// The packet text: status line, header lines, blank line, body.
    pub fn to_text(&self) -> (r: String)
        ensures
            r@ == encode_text(self@),
    {
        let ghost lines = packet_lines(self@);
        let mut s = self.method.clone();
        let mut i: usize = 0;
        proof {
            reveal_strlit("\r\n");
            reveal_strlit(": ");
            reveal_strlit("\r\n\r\n");
            assert(lines.take(1) =~= seq![self.method@]);
        }
        while i < self.headers.len()
            invariant
                i <= self.headers.len(),
                lines == packet_lines(self@),
                lines.len() == self.headers.len() + 1,
                s@ == join_lines(lines.take(i + 1)),
            decreases self.headers.len() - i,
        {
            let h = &self.headers[i];
            s.append("\r\n");
            s.append(h.0.as_str());
            s.append(": ");
            s.append(h.1.as_str());
            proof {
                reveal_strlit("\r\n");
                reveal_strlit(": ");
                assert("\r\n"@ =~= crlf());
                assert(": "@ =~= separator());
                assert(self@.headers[i as int] == (h.0@, h.1@));
                assert(lines[i + 1] == header_line(self@.headers[i as int]));
                assert(lines.take(i + 2) =~= lines.take(i + 1).push(lines[i + 1]));
                lemma_join_push(lines.take(i + 1), lines[i + 1]);
                assert(s@ =~= join_lines(lines.take(i + 1)) + crlf() + lines[i + 1]);
            }
            i = i + 1;
        }
        assert(lines.take(i + 1) =~= lines);
        assert("\r\n\r\n"@ =~= blank_line());
        s.append("\r\n\r\n");
        s.append(self.body.as_str());
        assert(s@ =~= encode_text(self@));
        s
    }

    /// The packet as UTF-8 bytes, ready to be written to the socket.
    pub fn as_bytes(&self) -> (r: Vec<u8>)
        ensures
            r@ == encode_utf8(encode_text(self@)),
    {
        let text = self.to_text();
        text.as_str().as_bytes_vec()
    }
}

/// `s` holds no `\r\n`.
pub open spec fn no_crlf(s: Seq<char>) -> bool {
    forall|j: int| !#[trigger] occurs_at(s, crlf(), j)
}

/// A packet that the wire format carries unchanged: no `\r\n` inside the
/// status line, header names or values, header names free of `": "` and
/// distinct.
pub open spec fn well_formed(p: PacketView) -> bool {
    &&& no_crlf(p.method)
    &&& unique_names(p.headers)
    &&& forall|i: int|
        0 <= i < p.headers.len() ==> {
            &&& no_crlf(#[trigger] p.headers[i].0)
            &&& no_crlf(p.headers[i].1)
            &&& forall|j: int| !#[trigger] occurs_at(p.headers[i].0, separator(), j)
        }
}

/// `h` ends with `\r\n`.
spec fn ends_crlf(h: Seq<char>) -> bool {
    h.len() >= 2 && h[h.len() - 2] == '\r' && h[h.len() - 1] == '\n'
}

/// No `\r\n\r\n` in `h`, and `h` does not end with `\r\n`: appending a
/// blank line cannot make an earlier one.
spec fn blank_free(h: Seq<char>) -> bool {
    &&& forall|j: int| !#[trigger] occurs_at(h, blank_line(), j)
    &&& !ends_crlf(h)
}

proof fn lemma_occurs_chars(t: Seq<char>, pat: Seq<char>, j: int, q: int)
    requires
        occurs_at(t, pat, j),
        0 <= q < pat.len(),
    ensures
        t[j + q] == pat[q],
{
    assert(t.subrange(j, j + pat.len())[q] == t[j + q]);
}

proof fn lemma_no_crlf_concat(a: Seq<char>, b: Seq<char>)
    requires
        no_crlf(a),
        no_crlf(b),
        !(a.len() > 0 && b.len() > 0 && a[a.len() - 1] == '\r' && b[0] == '\n'),
    ensures
        no_crlf(a + b),
{
    let t = a + b;
    assert forall|j: int| !#[trigger] occurs_at(t, crlf(), j) by {
        if occurs_at(t, crlf(), j) {
            lemma_occurs_chars(t, crlf(), j, 0);
            lemma_occurs_chars(t, crlf(), j, 1);
            if j + 2 <= a.len() {
                assert(a.subrange(j, j + 2) =~= t.subrange(j, j + 2));
                assert(occurs_at(a, crlf(), j));
            } else if j >= a.len() {
                assert(b.subrange(j - a.len(), j - a.len() + 2) =~= t.subrange(j, j + 2));
                assert(occurs_at(b, crlf(), j - a.len()));
            } else {
                assert(t[j] == a[a.len() - 1]);
                assert(t[j + 1] == b[0]);
            }
        }
    }
}

proof fn lemma_header_line_no_crlf(h: (Seq<char>, Seq<char>))
    requires
        no_crlf(h.0),
        no_crlf(h.1),
    ensures
        no_crlf(header_line(h)),
        header_line(h).len() > 0,
{
    assert forall|j: int| !#[trigger] occurs_at(separator(), crlf(), j) by {
        if occurs_at(separator(), crlf(), j) {
            lemma_occurs_chars(separator(), crlf(), j, 0);
        }
    }
    lemma_no_crlf_concat(h.0, separator());
    lemma_no_crlf_concat(h.0 + separator(), h.1);
}

proof fn lemma_join_blank_free(ls: Seq<Seq<char>>)
    requires
        ls.len() >= 1,
        forall|i: int| 0 <= i < ls.len() ==> no_crlf(#[trigger] ls[i]),
        forall|i: int| 1 <= i < ls.len() ==> (#[trigger] ls[i]).len() > 0,
    ensures
        blank_free(join_lines(ls)),
        ls[0].len() > 0 ==> !occurs_at(join_lines(ls), crlf(), 0),
        ls[0].len() > 0 ==> join_lines(ls).len() > 0,
    decreases ls.len(),
{
    let a = ls[0];
    let h = join_lines(ls);
    if ls.len() == 1 {
        assert(h == a);
        assert forall|j: int| !#[trigger] occurs_at(h, blank_line(), j) by {
            if occurs_at(h, blank_line(), j) {
                lemma_occurs_chars(h, blank_line(), j, 0);
                lemma_occurs_chars(h, blank_line(), j, 1);
                assert(h.subrange(j, j + 2) =~= crlf());
                assert(occurs_at(a, crlf(), j));
            }
        }
        if ends_crlf(h) {
            assert(h.subrange(h.len() - 2, h.len() as int) =~= crlf());
            assert(occurs_at(a, crlf(), h.len() - 2));
        }
        assert(!occurs_at(a, crlf(), 0));
    } else {
        let rest = ls.drop_first();
        lemma_join_blank_free(rest);
        let r = join_lines(rest);
        assert(rest[0] == ls[1]);
        assert(h == a + crlf() + r);
        let n = a.len() as int;
        assert(h[n] == '\r' && h[n + 1] == '\n');
        assert forall|j: int| !#[trigger] occurs_at(h, blank_line(), j) by {
            if occurs_at(h, blank_line(), j) {
                lemma_occurs_chars(h, blank_line(), j, 0);
                lemma_occurs_chars(h, blank_line(), j, 1);
                lemma_occurs_chars(h, blank_line(), j, 2);
                lemma_occurs_chars(h, blank_line(), j, 3);
                if j + 2 <= n {
                    assert(a.subrange(j, j + 2) =~= crlf());
                    assert(occurs_at(a, crlf(), j));
                } else if j == n - 1 {
                } else if j == n {
                    assert(r.subrange(0, 2) =~= crlf());
                    assert(occurs_at(r, crlf(), 0));
                } else if j == n + 1 {
                } else {
                    assert(r.subrange(j - n - 2, j - n + 2) =~= blank_line());
                    assert(occurs_at(r, blank_line(), j - n - 2));
                }
            }
        }
        if ends_crlf(h) {
            if r.len() >= 2 {
                assert(h[h.len() - 2] == r[r.len() - 2]);
                assert(h[h.len() - 1] == r[r.len() - 1]);
            } else {
                assert(h[h.len() - 2] == '\n');
            }
        }
        if a.len() > 0 && occurs_at(h, crlf(), 0) {
            lemma_occurs_chars(h, crlf(), 0, 0);
            lemma_occurs_chars(h, crlf(), 0, 1);
            if a.len() >= 2 {
                assert(a.subrange(0, 2) =~= crlf());
                assert(occurs_at(a, crlf(), 0));
            } else {
                assert(h[1] == '\r');
            }
        }
    }
}

proof fn lemma_split_join(ls: Seq<Seq<char>>)
    requires
        ls.len() >= 1,
        forall|i: int| 0 <= i < ls.len() ==> no_crlf(#[trigger] ls[i]),
    ensures
        split_lines(join_lines(ls)) == ls,
    decreases ls.len(),
{
    let a = ls[0];
    if ls.len() == 1 {
        lemma_find_from_absent(a, crlf(), 0);
        assert(split_lines(a) == seq![a]);
        assert(seq![a] =~= ls);
    } else {
        let rest = ls.drop_first();
        lemma_split_join(rest);
        let h = join_lines(ls);
        let r = join_lines(rest);
        assert(h == a + crlf() + r);
        assert forall|j: int| 0 <= j < a.len() implies !occurs_at(h, crlf(), j) by {
            if occurs_at(h, crlf(), j) {
                lemma_occurs_chars(h, crlf(), j, 0);
                lemma_occurs_chars(h, crlf(), j, 1);
                if j + 2 <= a.len() {
                    assert(a.subrange(j, j + 2) =~= crlf());
                    assert(occurs_at(a, crlf(), j));
                } else {
                    assert(h[j + 1] == '\r');
                }
            }
        }
        assert(h.subrange(a.len() as int, a.len() + 2 as int) =~= crlf());
        lemma_find_from_first(h, crlf(), 0, a.len() as int);
        assert(h.subrange(0, a.len() as int) =~= a);
        assert(h.subrange(a.len() + 2 as int, h.len() as int) =~= r);
        assert(seq![a] + rest =~= ls);
    }
}

proof fn lemma_split_header_line(h: (Seq<char>, Seq<char>))
    requires
        forall|j: int| !#[trigger] occurs_at(h.0, separator(), j),
    ensures
        split_header(header_line(h)) == Some(h),
{
    let k = h.0;
    let line = header_line(h);
    assert forall|j: int| 0 <= j < k.len() implies !occurs_at(line, separator(), j) by {
        if occurs_at(line, separator(), j) {
            assert(line.subrange(j, j + 2)[0] == line[j]);
            assert(line.subrange(j, j + 2)[1] == line[j + 1]);
            if j + 1 < k.len() {
                assert(k.subrange(j, j + 2) =~= line.subrange(j, j + 2));
                assert(occurs_at(k, separator(), j));
            } else {
                assert((k + separator())[j + 1] == separator()[0]);
                assert(line[j + 1] == ':');
            }
        }
    }
    assert(line.subrange(k.len() as int, k.len() + 2 as int) =~= separator());
    lemma_find_from_first(line, separator(), 0, k.len() as int);
    assert(line.subrange(0, k.len() as int) =~= k);
    assert(line.subrange(k.len() + 2 as int, line.len() as int) =~= h.1);
}

proof fn lemma_parse_header_lines(hs: Seq<(Seq<char>, Seq<char>)>)
    requires
        unique_names(hs),
        forall|i: int|
            0 <= i < hs.len() ==> forall|j: int| !#[trigger] occurs_at(#[trigger] hs[i].0, separator(), j),
    ensures
        parse_headers(hs.map_values(|h: (Seq<char>, Seq<char>)| header_line(h))) == Some(hs),
    decreases hs.len(),
{
    let ls = hs.map_values(|h: (Seq<char>, Seq<char>)| header_line(h));
    if hs.len() == 0 {
        assert(ls.len() == 0);
        assert(hs =~= seq![]);
    } else {
        let init = hs.drop_last();
        lemma_parse_header_lines(init);
        assert(ls.drop_last() =~= init.map_values(|h: (Seq<char>, Seq<char>)| header_line(h)));
        let last = hs.last();
        assert(forall|j: int| !#[trigger] occurs_at(hs[hs.len() - 1].0, separator(), j));
        lemma_split_header_line(last);
        assert(!has_name(init, last.0)) by {
            if has_name(init, last.0) {
                let i = choose|i: int| 0 <= i < init.len() && init[i].0 == last.0;
                assert(hs[i].0 == hs[hs.len() - 1].0);
            }
        }
        assert(init.push(last) =~= hs);
    }
}

/// Decoding the encoding of a well-formed packet gives the packet back.
pub proof fn lemma_round_trip(p: PacketView)
    requires
        well_formed(p),
    ensures
        decode_text(encode_text(p)) == Ok::<PacketView, PacketError>(p),
        decode_bytes(encode_utf8(encode_text(p))) == Ok::<PacketView, PacketError>(p),
{
    let ls = packet_lines(p);
    let hl = p.headers.map_values(|h: (Seq<char>, Seq<char>)| header_line(h));
    assert(ls.drop_first() =~= hl);
    assert forall|i: int| 0 <= i < ls.len() implies no_crlf(#[trigger] ls[i]) && (i >= 1
        ==> ls[i].len() > 0) by {
        if i > 0 {
            let h = p.headers[i - 1];
            assert(ls[i] == header_line(h));
            assert(no_crlf(h.0) && no_crlf(h.1));
            lemma_header_line_no_crlf(h);
        }
    }
    lemma_join_blank_free(ls);
    lemma_split_join(ls);
    let h = join_lines(ls);
    let t = encode_text(p);
    let n = h.len() as int;
    assert forall|j: int| 0 <= j < n implies !occurs_at(t, blank_line(), j) by {
        if occurs_at(t, blank_line(), j) {
            lemma_occurs_chars(t, blank_line(), j, 0);
            lemma_occurs_chars(t, blank_line(), j, 1);
            lemma_occurs_chars(t, blank_line(), j, 2);
            lemma_occurs_chars(t, blank_line(), j, 3);
            if j + 4 <= n {
                assert(h.subrange(j, j + 4) =~= blank_line());
                assert(occurs_at(h, blank_line(), j));
            } else if j == n - 2 {
                assert(h[n - 2] == t[j] && h[n - 1] == t[j + 1]);
            } else if j == n - 1 {
                assert(t[j + 1] == '\r');
            } else {
                assert(t[j + 3] == '\r');
            }
        }
    }
    assert(t.subrange(n, n + 4) =~= blank_line());
    lemma_find_from_first(t, blank_line(), 0, n);
    assert(t.subrange(0, n) =~= h);
    assert(t.subrange(n + 4, t.len() as int) =~= p.body);
    lemma_parse_header_lines(p.headers);
    vstd::utf8::encode_utf8_valid_utf8(t);
    vstd::utf8::encode_utf8_decode_utf8(t);
}

proof fn lemma_encode_concat(a: Seq<char>, b: Seq<char>)
    ensures
        encode_utf8(a + b) == encode_utf8(a) + encode_utf8(b),
    decreases a.len(),
{
    if a.len() == 0 {
        assert(a + b =~= b);
        assert(encode_utf8(a) + encode_utf8(b) =~= encode_utf8(b));
    } else {
        assert((a + b).drop_first() =~= a.drop_first() + b);
        lemma_encode_concat(a.drop_first(), b);
        assert(encode_utf8(a + b) =~= encode_utf8(a) + encode_utf8(b));
    }
}

/// The four bytes `\r\n\r\n`.
pub open spec fn blank_line_bytes() -> Seq<u8> {
    seq![13u8, 10u8, 13u8, 10u8]
}

proof fn lemma_encode_blank_line()
    ensures
        encode_utf8(blank_line()) == blank_line_bytes(),
{
    assert(('\r' as u32) == 13u32);
    assert(('\n' as u32) == 10u32);
    assert((13u32 & 0x7F) as u8 == 13u8) by (bit_vector);
    assert((10u32 & 0x7F) as u8 == 10u8) by (bit_vector);
    let s = blank_line();
    assert(encode_scalar(13u32) == seq![13u8]);
    assert(encode_scalar(10u32) == seq![10u8]);
    assert(s.drop_first() =~= seq!['\n', '\r', '\n']);
    assert(s.drop_first().drop_first() =~= seq!['\r', '\n']);
    assert(s.drop_first().drop_first().drop_first() =~= seq!['\n']);
    assert(s.drop_first().drop_first().drop_first().drop_first() =~= seq![]);
    assert(seq!['\n'].drop_first() =~= Seq::<char>::empty());
    assert(encode_utf8(Seq::<char>::empty()) =~= Seq::<u8>::empty());
    assert(encode_utf8(seq!['\n']) =~= seq![10u8]);
    assert(seq!['\r', '\n'].drop_first() =~= seq!['\n']);
    assert(seq!['\n', '\r', '\n'].drop_first() =~= seq!['\r', '\n']);
    assert(encode_utf8(seq!['\r', '\n']) =~= seq![13u8, 10u8]);
    assert(encode_utf8(seq!['\n', '\r', '\n']) =~= seq![10u8, 13u8, 10u8]);
    assert(encode_utf8(s) =~= blank_line_bytes());
}

/// A buffer without the bytes `\r\n\r\n` never decodes: it is rejected as
/// text that is not UTF-8, or as lacking the blank line.
pub proof fn lemma_no_blank_line_rejected(b: Seq<u8>)
    requires
        forall|j: int| 0 <= j && j + 4 <= b.len() ==> #[trigger] b.subrange(j, j + 4) != blank_line_bytes(),
    ensures
        decode_bytes(b) == if valid_utf8(b) {
            Err::<PacketView, PacketError>(PacketError::BadFormat)
        } else {
            Err::<PacketView, PacketError>(PacketError::NotText)
        },
{
    if valid_utf8(b) {
        let t = decode_utf8(b);
        vstd::utf8::decode_utf8_encode_utf8(b);
        lemma_find_from_found(t, blank_line(), 0);
        let k = find(t, blank_line());
        if k >= 0 {
            let pre = t.subrange(0, k);
            let post = t.subrange(k + 4, t.len() as int);
            assert(t =~= pre + blank_line() + post);
            lemma_encode_concat(pre + blank_line(), post);
            lemma_encode_concat(pre, blank_line());
            lemma_encode_blank_line();
            let j = encode_utf8(pre).len() as int;
            assert(b.subrange(j, j + 4) =~= blank_line_bytes());
        }
    }
}

} // verus!
