//! The server side of the request protocol. Requests arrive on a stream as
//! lines: a header decoded as text and split into white-space separated
//! words, followed, for a binary write, by its payload. Each request is
//! answered by one line of text; the answer to a read carries, after that
//! line, the bytes read.

use vstd::prelude::*;
use vstd::utf8::encode_utf8;
use crate::bridge::{
    BridgeView, SystemMemoryBridge, allocation_overflows, is_listing, read_overflows,
    spec_allocate, spec_delete, spec_info, spec_read, spec_write, status_text, text_result,
    uuid_text, write_overflows,
};
use crate::encoding::{
    decode_lossy, lossy_utf8, same_chars, str_chars, string_of, string_views, utf8_bytes,
};
use crate::text::{decimal, decimal_text, parse_usize, parse_usize_spec, split_whitespace, views_of, words};

verus! {

/// Which request was missing words.
#[derive(PartialEq, Eq, Structural, Clone, Copy, Debug)]
pub enum UsageKind {
    Allocate,
    Write,
    WriteBin,
    Read,
    ReadBin,
    Delete,
    Info,
}

/// A decoded request.
pub enum Request {
    /// Allocate a pool of `size_mb` MiB; `name` only labels the request.
    Allocate { name: String, size_mb: usize },
    /// Write `data` into a pool at `offset`.
    Write { pool_id: String, offset: usize, data: Vec<u8> },
    /// Read `size` bytes of a pool from `offset` on.
    Read { pool_id: String, offset: usize, size: usize },
    /// Delete a pool.
    Delete { pool_id: String },
    /// Describe a pool.
    Info { pool_id: String },
    /// List the pools.
    List,
    /// Describe the registered memory.
    Status,
    /// Liveness check.
    Ping,
    /// A known request with too few words.
    Usage(UsageKind),
    /// Anything else.
    Unknown,
}

/// The mathematical form of a request.
pub enum RequestView {
    Allocate { name: Seq<char>, size_mb: nat },
    Write { pool_id: Seq<char>, offset: nat, data: Seq<u8> },
    Read { pool_id: Seq<char>, offset: nat, size: nat },
    Delete { pool_id: Seq<char> },
    Info { pool_id: Seq<char> },
    List,
    Status,
    Ping,
    Usage(UsageKind),
    Unknown,
}

impl View for Request {
    type V = RequestView;

    open spec fn view(&self) -> RequestView {
        match self {
            Request::Allocate { name, size_mb } => RequestView::Allocate {
                name: name@,
                size_mb: *size_mb as nat,
            },
            Request::Write { pool_id, offset, data } => RequestView::Write {
                pool_id: pool_id@,
                offset: *offset as nat,
                data: data@,
            },
            Request::Read { pool_id, offset, size } => RequestView::Read {
                pool_id: pool_id@,
                offset: *offset as nat,
                size: *size as nat,
            },
            Request::Delete { pool_id } => RequestView::Delete { pool_id: pool_id@ },
            Request::Info { pool_id } => RequestView::Info { pool_id: pool_id@ },
            Request::List => RequestView::List,
            Request::Status => RequestView::Status,
            Request::Ping => RequestView::Ping,
            Request::Usage(k) => RequestView::Usage(*k),
            Request::Unknown => RequestView::Unknown,
        }
    }
}

/// A word read as a number, 0 where it is not one.
pub open spec fn number_or_zero(w: Seq<char>) -> nat {
    match parse_usize_spec(w) {
        Some(v) => v as nat,
        None => 0,
    }
}

/// The words `ws` joined by single spaces.
pub open spec fn join_words(ws: Seq<Seq<char>>) -> Seq<char>
    decreases ws.len(),
{
    if ws.len() == 0 {
        Seq::empty()
    } else if ws.len() == 1 {
        ws[0]
    } else {
        join_words(ws.drop_last()) + seq![' '] + ws.last()
    }
}

/// Whether `i` is the first position of a line feed in `raw`.
pub open spec fn is_first_newline(raw: Seq<u8>, i: int) -> bool {
    &&& 0 <= i < raw.len()
    &&& raw[i] == 10u8
    &&& forall|j: int| 0 <= j < i ==> raw[j] != 10u8
}

/// The position of the first line feed of `raw`, if any.
pub open spec fn first_line_feed(raw: Seq<u8>) -> Option<int> {
    if exists|i: int| is_first_newline(raw, i) {
        Some(choose|i: int| is_first_newline(raw, i))
    } else {
        None
    }
}

/// The payload of a binary write: the bytes after the first line feed, or
/// all bytes but the first where there is none.
pub open spec fn binary_payload(raw: Seq<u8>) -> Seq<u8> {
    match first_line_feed(raw) {
        Some(i) => raw.skip(i + 1),
        None => raw.skip(1),
    }
}

/// The request that the bytes `raw`, decoded as the characters `chars`, make.
pub open spec fn parse_request_spec(raw: Seq<u8>, chars: Seq<char>) -> RequestView {
    let parts = words(chars);
    if parts.len() == 0 {
        RequestView::Unknown
    } else if parts[0] == "ALLOCATE"@ {
        if parts.len() < 3 {
            RequestView::Usage(UsageKind::Allocate)
        } else {
            RequestView::Allocate { name: parts[1], size_mb: number_or_zero(parts[2]) }
        }
    } else if parts[0] == "WRITE"@ {
        if parts.len() < 3 {
            RequestView::Usage(UsageKind::Write)
        } else {
            RequestView::Write {
                pool_id: parts[1],
                offset: number_or_zero(parts[2]),
                data: encode_utf8(join_words(parts.skip(3))),
            }
        }
    } else if parts[0] == "WRITE_BIN"@ {
        if parts.len() < 3 {
            RequestView::Usage(UsageKind::WriteBin)
        } else {
            RequestView::Write {
                pool_id: parts[1],
                offset: number_or_zero(parts[2]),
                data: binary_payload(raw),
            }
        }
    } else if parts[0] == "READ"@ {
        if parts.len() < 4 {
            RequestView::Usage(UsageKind::Read)
        } else {
            RequestView::Read {
                pool_id: parts[1],
                offset: number_or_zero(parts[2]),
                size: number_or_zero(parts[3]),
            }
        }
    } else if parts[0] == "READ_BIN"@ {
        if parts.len() < 4 {
            RequestView::Usage(UsageKind::ReadBin)
        } else {
            RequestView::Read {
                pool_id: parts[1],
                offset: number_or_zero(parts[2]),
                size: number_or_zero(parts[3]),
            }
        }
    } else if parts[0] == "DELETE"@ {
        if parts.len() < 2 {
            RequestView::Usage(UsageKind::Delete)
        } else {
            RequestView::Delete { pool_id: parts[1] }
        }
    } else if parts[0] == "INFO"@ {
        if parts.len() < 2 {
            RequestView::Usage(UsageKind::Info)
        } else {
            RequestView::Info { pool_id: parts[1] }
        }
    } else if parts[0] == "LIST"@ {
        RequestView::List
    } else if parts[0] == "STATUS"@ {
        RequestView::Status
    } else if parts[0] == "PING"@ {
        RequestView::Ping
    } else {
        RequestView::Unknown
    }
}

/// The answer to a request with too few words.
pub open spec fn usage_text(k: UsageKind) -> Seq<char> {
    match k {
        UsageKind::Allocate => "ERROR: ALLOCATE <name> <size_mb>"@,
        UsageKind::Write => "ERROR: WRITE <pool_id> <offset>"@,
        UsageKind::WriteBin => "ERROR: WRITE_BIN <pool_id> <offset>"@,
        UsageKind::Read => "ERROR: READ <pool_id> <offset> <size>"@,
        UsageKind::ReadBin => "ERROR: READ_BIN <pool_id> <offset> <size>"@,
        UsageKind::Delete => "ERROR: DELETE <pool_id>"@,
        UsageKind::Info => "ERROR: INFO <pool_id>"@,
    }
}

pub open spec fn error_line(e: Seq<char>) -> Seq<char> {
    "ERROR: "@ + e
}

pub open spec fn ok_line(x: Seq<char>) -> Seq<char> {
    "OK "@ + x
}

/// Bytes in one MiB.
pub open spec fn mib() -> nat {
    1048576
}

/// The words `ws` joined by `, `.
pub open spec fn join_list(ws: Seq<Seq<char>>) -> Seq<char>
    decreases ws.len(),
{
    if ws.len() == 0 {
        Seq::empty()
    } else if ws.len() == 1 {
        ws[0]
    } else {
        join_list(ws.drop_last()) + seq![',', ' '] + ws.last()
    }
}

/// The answer to a listing of the pools named by `listing`.
pub open spec fn list_line(listing: Seq<Seq<char>>) -> Seq<char> {
    "OK ["@ + join_list(listing) + "]"@
}

/// An answer that is one line of text, as bytes.
pub open spec fn line_bytes(x: Seq<char>) -> Seq<u8> {
    encode_utf8(x)
}

/// The answer to a successful read: the line `OK <count>`, a line feed,
/// and the bytes read.
pub open spec fn data_answer(d: Seq<u8>) -> Seq<u8> {
    line_bytes(ok_line(decimal_text(d.len()))) + seq![10u8] + d
}

/// The state after a request and the answer to it (without the line feed
/// that ends it), where an allocation takes `uuid` as the random part of
/// the new pool's id and a listing names the pools in the order `listing`.
pub open spec fn respond_spec(
    s: BridgeView,
    req: RequestView,
    uuid: Seq<char>,
    listing: Seq<Seq<char>>,
) -> (BridgeView, Seq<u8>) {
    match req {
        RequestView::Allocate { name, size_mb } => {
            let (s2, r) = spec_allocate(s, size_mb * mib(), uuid);
            (
                s2,
                line_bytes(
                    match r {
                        Ok(id) => ok_line(id),
                        Err(e) => error_line(e),
                    },
                ),
            )
        },
        RequestView::Write { pool_id, offset, data } => {
            let (s2, r) = spec_write(s, pool_id, offset, data);
            (
                s2,
                line_bytes(
                    match r {
                        Ok(n) => ok_line(decimal_text(n)),
                        Err(e) => error_line(e),
                    },
                ),
            )
        },
        RequestView::Read { pool_id, offset, size } => {
            let (s2, r) = spec_read(s, pool_id, offset, size);
            (
                s2,
                match r {
                    Ok(d) => data_answer(d),
                    Err(e) => line_bytes(error_line(e)),
                },
            )
        },
        RequestView::Delete { pool_id } => {
            let (s2, r) = spec_delete(s, pool_id);
            (
                s2,
                line_bytes(
                    match r {
                        Ok(_) => "OK"@,
                        Err(e) => error_line(e),
                    },
                ),
            )
        },
        RequestView::Info { pool_id } => (
            s,
            line_bytes(
                match spec_info(s, pool_id) {
                    Ok(t) => ok_line(t),
                    Err(e) => error_line(e),
                },
            ),
        ),
        RequestView::List => (s, line_bytes(list_line(listing))),
        RequestView::Status => (s, line_bytes(status_text(s))),
        RequestView::Ping => (s, line_bytes("PONG"@)),
        RequestView::Usage(k) => (s, line_bytes(usage_text(k))),
        RequestView::Unknown => (s, line_bytes("ERROR: Unknown command"@)),
    }
}

/// One request served: the state `s2` and the answer `reply` are what the
/// request gives for some random id and some order of the pools.
pub open spec fn step_ok(s: BridgeView, req: RequestView, s2: BridgeView, reply: Seq<u8>) -> bool {
    exists|a: u32, b: u16, listing: Seq<Seq<char>>|
        is_listing(listing, s.pools.dom()) && #[trigger] respond_spec(
            s,
            req,
            uuid_text(a, b),
            listing,
        ) == (s2, reply)
}

/// The first request at the front of the buffered bytes `buf`, and how many
/// bytes it takes; `None` while it is not complete. A request is a header
/// line ended by a line feed; a binary write whose header gives a fourth
/// word, a byte count, is followed by that many bytes of payload, and one
/// without a count takes all the bytes buffered after its header.
pub open spec fn frame_spec(buf: Seq<u8>) -> Option<(RequestView, nat)> {
    match first_line_feed(buf) {
        None => None,
        Some(i) => {
            let line = buf.take(i);
            let parts = words(lossy_utf8(line));
            let start = i + 1;
            if parts.len() >= 3 && parts[0] == "WRITE_BIN"@ {
                let pool_id = parts[1];
                let offset = number_or_zero(parts[2]);
                if parts.len() >= 4 && parse_usize_spec(parts[3]) is Some {
                    let n = parse_usize_spec(parts[3])->Some_0 as int;
                    if start + n <= buf.len() {
                        Some(
                            (
                                RequestView::Write {
                                    pool_id,
                                    offset,
                                    data: buf.subrange(start, start + n),
                                },
                                (start + n) as nat,
                            ),
                        )
                    } else {
                        None
                    }
                } else {
                    Some(
                        (
                            RequestView::Write { pool_id, offset, data: buf.skip(start) },
                            buf.len(),
                        ),
                    )
                }
            } else {
                Some((parse_request_spec(line, lossy_utf8(line)), start as nat))
            }
        },
    }
}

/// Where serving a request would overflow a machine word.
pub open spec fn request_overflows(s: BridgeView, req: RequestView) -> bool {
    match req {
        RequestView::Allocate { name, size_mb } => size_mb * mib() > usize::MAX
            || allocation_overflows(s, size_mb * mib()),
        RequestView::Write { pool_id, offset, data } => write_overflows(
            s,
            pool_id,
            offset,
            data.len(),
        ),
        RequestView::Read { pool_id, offset, size } => read_overflows(s, pool_id, offset, size),
        _ => false,
    }
}

pub fn number_or_zero_of(w: &[char]) -> (r: usize)
    ensures
        r as nat == number_or_zero(w@),
{
    match parse_usize(w) {
        Some(v) => v,
        None => 0,
    }
}

/// The words `parts[from..]` joined by single spaces.
fn join_from(parts: &Vec<Vec<char>>, from: usize) -> (r: Vec<char>)
    requires
        from <= parts@.len(),
    ensures
        r@ == join_words(views_of(parts@).skip(from as int)),
{
    let ghost vs = views_of(parts@);
    let mut acc: Vec<char> = Vec::new();
    let mut i = from;
    assert(vs.subrange(from as int, from as int) =~= Seq::<Seq<char>>::empty());
    while i < parts.len()
        invariant
            from <= i <= parts@.len(),
            vs == views_of(parts@),
            acc@ == join_words(vs.subrange(from as int, i as int)),
        decreases parts@.len() - i,
    {
        let ghost before = acc@;
        let w = &parts[i];
        assert(vs[i as int] == w@);
        if i > from {
            acc.push(' ');
        }
        let mut k: usize = 0;
        let ghost base = acc@;
        while k < w.len()
            invariant
                k <= w@.len(),
                acc@ == base + w@.take(k as int),
            decreases w@.len() - k,
        {
            acc.push(w[k]);
            assert(acc@ =~= base + w@.take(k + 1));
            k += 1;
        }
        assert(w@.take(w@.len() as int) =~= w@);
        let ghost next = vs.subrange(from as int, i + 1);
        assert(next.drop_last() =~= vs.subrange(from as int, i as int));
        assert(next.last() == w@);
        if i > from {
            assert(acc@ =~= before + seq![' '] + w@);
        } else {
            assert(next =~= seq![w@]);
            assert(acc@ =~= w@);
        }
        i += 1;
    }
    assert(vs.subrange(from as int, parts@.len() as int) =~= vs.skip(from as int));
    acc
}

/// The position of the first line feed of `raw`, if any.
pub fn find_line_feed(raw: &[u8]) -> (r: Option<usize>)
    ensures
        match r {
            Some(i) => i < raw@.len() && first_line_feed(raw@) == Some(i as int),
            None => first_line_feed(raw@) == None::<int>,
        },
{
    let mut i: usize = 0;
    while i < raw.len() && raw[i] != 10u8
        invariant
            i <= raw@.len(),
            forall|j: int| 0 <= j < i ==> raw@[j] != 10u8,
        decreases raw@.len() - i,
    {
        i += 1;
    }
    if i < raw.len() {
        assert(is_first_newline(raw@, i as int));
        assert forall|k: int| is_first_newline(raw@, k) implies k == i by {
            if k > i {
                assert(raw@[i as int] == 10u8);
            }
        }
        Some(i)
    } else {
        assert forall|k: int| !is_first_newline(raw@, k) by {}
        None
    }
}

/// Copies `raw[from..to]` into a new vector.
pub fn copy_bytes(raw: &[u8], from: usize, to: usize) -> (r: Vec<u8>)
    requires
        from <= to <= raw@.len(),
    ensures
        r@ == raw@.subrange(from as int, to as int),
{
    let mut r: Vec<u8> = Vec::new();
    let mut k = from;
    while k < to
        invariant
            from <= k <= to <= raw@.len(),
            r@ == raw@.subrange(from as int, k as int),
        decreases to - k,
    {
        r.push(raw[k]);
        assert(r@ =~= raw@.subrange(from as int, k + 1));
        k += 1;
    }
    r
}

/// The bytes of `raw` after its first line feed, or from the second byte on
/// where it has none.
fn binary_payload_of(raw: &[u8]) -> (r: Vec<u8>)
    requires
        raw@.len() > 0,
    ensures
        r@ == binary_payload(raw@),
{
    let start = match find_line_feed(raw) {
        Some(i) => {
            assert(i < raw.len());
            i + 1
        },
        None => 1,
    };
    let r = copy_bytes(raw, start, raw.len());
    assert(raw@.subrange(start as int, raw@.len() as int) =~= raw@.skip(start as int));
    r
}

/// Decodes a request from the bytes `raw`, of which `chars` is the text.
pub fn parse_request_text(raw: &[u8], chars: &[char]) -> (r: Request)
    requires
        raw@.len() == 0 ==> chars@.len() == 0,
    ensures
        r@ == parse_request_spec(raw@, chars@),
{
    let parts = split_whitespace(chars);
    let ghost ws = views_of(parts@);
    assert(ws == words(chars@));
    if parts.len() == 0 {
        return Request::Unknown;
    }
    assert(ws[0] == parts@[0]@);
    let head = &parts[0];
    if same_chars(head, str_chars("ALLOCATE").as_slice()) {
        if parts.len() < 3 {
            return Request::Usage(UsageKind::Allocate);
        }
        assert(ws[1] == parts@[1]@ && ws[2] == parts@[2]@);
        let name = string_of(parts[1].as_slice());
        let size_mb = number_or_zero_of(parts[2].as_slice());
        return Request::Allocate { name, size_mb };
    }
    if same_chars(head, str_chars("WRITE").as_slice()) {
        if parts.len() < 3 {
            return Request::Usage(UsageKind::Write);
        }
        assert(ws[1] == parts@[1]@ && ws[2] == parts@[2]@);
        let pool_id = string_of(parts[1].as_slice());
        let offset = number_or_zero_of(parts[2].as_slice());
        let text = string_of(join_from(&parts, 3).as_slice());
        let data = utf8_bytes(text.as_str());
        return Request::Write { pool_id, offset, data };
    }
    if same_chars(head, str_chars("WRITE_BIN").as_slice()) {
        if parts.len() < 3 {
            return Request::Usage(UsageKind::WriteBin);
        }
        assert(ws[1] == parts@[1]@ && ws[2] == parts@[2]@);
        let pool_id = string_of(parts[1].as_slice());
        let offset = number_or_zero_of(parts[2].as_slice());
        proof {
            if raw@.len() == 0 {
                assert(chars@ =~= Seq::<char>::empty());
                assert(words(chars@) =~= Seq::<Seq<char>>::empty());
            }
        }
        let data = binary_payload_of(raw);
        return Request::Write { pool_id, offset, data };
    }
    if same_chars(head, str_chars("READ").as_slice()) {
        if parts.len() < 4 {
            return Request::Usage(UsageKind::Read);
        }
        assert(ws[1] == parts@[1]@ && ws[2] == parts@[2]@ && ws[3] == parts@[3]@);
        let pool_id = string_of(parts[1].as_slice());
        let offset = number_or_zero_of(parts[2].as_slice());
        let size = number_or_zero_of(parts[3].as_slice());
        return Request::Read { pool_id, offset, size };
    }
    if same_chars(head, str_chars("READ_BIN").as_slice()) {
        if parts.len() < 4 {
            return Request::Usage(UsageKind::ReadBin);
        }
        assert(ws[1] == parts@[1]@ && ws[2] == parts@[2]@ && ws[3] == parts@[3]@);
        let pool_id = string_of(parts[1].as_slice());
        let offset = number_or_zero_of(parts[2].as_slice());
        let size = number_or_zero_of(parts[3].as_slice());
        return Request::Read { pool_id, offset, size };
    }
    if same_chars(head, str_chars("DELETE").as_slice()) {
        if parts.len() < 2 {
            return Request::Usage(UsageKind::Delete);
        }
        assert(ws[1] == parts@[1]@);
        return Request::Delete { pool_id: string_of(parts[1].as_slice()) };
    }
    if same_chars(head, str_chars("INFO").as_slice()) {
        if parts.len() < 2 {
            return Request::Usage(UsageKind::Info);
        }
        assert(ws[1] == parts@[1]@);
        return Request::Info { pool_id: string_of(parts[1].as_slice()) };
    }
    if same_chars(head, str_chars("LIST").as_slice()) {
        return Request::List;
    }
    if same_chars(head, str_chars("STATUS").as_slice()) {
        return Request::Status;
    }
    if same_chars(head, str_chars("PING").as_slice()) {
        return Request::Ping;
    }
    Request::Unknown
}

/// Decodes a request from the bytes of one read.
pub fn parse_request(raw: &[u8]) -> (r: Request)
    ensures
        r@ == parse_request_spec(raw@, lossy_utf8(raw@)),
{
    let chars = decode_lossy(raw);
    proof {
        if raw@.len() == 0 {
            assert(vstd::utf8::valid_utf8(raw@));
            assert(vstd::utf8::decode_utf8(raw@) =~= Seq::<char>::empty());
        }
    }
    parse_request_text(raw, chars.as_slice())
}


/// The first request buffered in `buf` and the number of bytes it takes;
/// `None` while the first request is not complete.
pub fn next_request(buf: &[u8]) -> (r: Option<(Request, usize)>)
    ensures
        match r {
            Some((req, used)) => frame_spec(buf@) == Some((req@, used as nat)),
            None => frame_spec(buf@) == None::<(RequestView, nat)>,
        },
{
    let i = match find_line_feed(buf) {
        None => return None,
        Some(i) => i,
    };
    let line = copy_bytes(buf, 0, i);
    assert(line@ =~= buf@.take(i as int));
    let chars = decode_lossy(line.as_slice());
    let parts = split_whitespace(chars.as_slice());
    let ghost ws = views_of(parts@);
    assert(i < buf.len());
    let start = i + 1;
    if parts.len() >= 3 && same_chars(parts[0].as_slice(), str_chars("WRITE_BIN").as_slice()) {
        assert(ws[0] == parts@[0]@ && ws[1] == parts@[1]@ && ws[2] == parts@[2]@);
        let pool_id = string_of(parts[1].as_slice());
        let offset = number_or_zero_of(parts[2].as_slice());
        if parts.len() >= 4 {
            assert(ws[3] == parts@[3]@);
            match parse_usize(parts[3].as_slice()) {
                Some(n) => {
                    if n > buf.len() - start {
                        return None;
                    }
                    let data = copy_bytes(buf, start, start + n);
                    return Some((Request::Write { pool_id, offset, data }, start + n));
                },
                None => {},
            }
        }
        let data = copy_bytes(buf, start, buf.len());
        assert(buf@.subrange(start as int, buf@.len() as int) =~= buf@.skip(start as int));
        return Some((Request::Write { pool_id, offset, data }, buf.len()));
    }
    proof {
        if line@.len() == 0 {
            assert(vstd::utf8::valid_utf8(line@));
            assert(vstd::utf8::decode_utf8(line@) =~= Seq::<char>::empty());
        }
        if parts@.len() >= 3 && ws[0] == "WRITE_BIN"@ {
            assert(ws[0] == parts@[0]@);
        }
    }
    let req = parse_request_text(line.as_slice(), chars.as_slice());
    Some((req, start))
}

fn text_answer(x: &String) -> (r: Vec<u8>)
    ensures
        r@ == line_bytes(x@),
{
    utf8_bytes(x.as_str())
}

fn ok_text(x: &str) -> (r: String)
    ensures
        r@ == ok_line(x@),
{
    let mut m = String::from_str("OK ");
    m.append(x);
    m
}

fn error_text(e: &str) -> (r: String)
    ensures
        r@ == error_line(e@),
{
    let mut m = String::from_str("ERROR: ");
    m.append(e);
    m
}

fn count_text(n: usize) -> (r: String)
    ensures
        r@ == ok_line(decimal_text(n as nat)),
{
    ok_text(string_of(decimal(n).as_slice()).as_str())
}

/// The answer to a listing of `ids`, in their order.
fn list_text(ids: &Vec<String>) -> (r: String)
    ensures
        r@ == list_line(string_views(ids@)),
{
    let ghost vs = string_views(ids@);
    let mut m = String::from_str("OK [");
    let mut i: usize = 0;
    assert(vs.take(0) =~= Seq::<Seq<char>>::empty());
    while i < ids.len()
        invariant
            i <= ids@.len(),
            vs == string_views(ids@),
            m@ == "OK ["@ + join_list(vs.take(i as int)),
        decreases ids@.len() - i,
    {
        let ghost before = m@;
        assert(vs[i as int] == ids@[i as int]@);
        if i > 0 {
            m.append(", ");
        }
        m.append(ids[i].as_str());
        let ghost next = vs.take(i + 1);
        assert(next.drop_last() =~= vs.take(i as int));
        proof { reveal_strlit(", "); }
        if i > 0 {
            assert(m@ =~= "OK ["@ + (join_list(vs.take(i as int)) + seq![',', ' '] + vs[i as int]));
        } else {
            assert(vs.take(i as int) =~= Seq::<Seq<char>>::empty());
            assert(next =~= seq![vs[0]]);
            assert(m@ =~= "OK ["@ + vs[0]);
        }
        i += 1;
    }
    assert(vs.take(ids@.len() as int) =~= vs);
    m.append("]");
    m
}

/// What a server hands back of one serving of buffered requests.
pub struct Served {
    /// The answers, each ended by a line feed, in the order of the requests.
    pub output: Vec<u8>,
    /// How many bytes at the front of the buffer were served.
    pub consumed: usize,
    /// Whether serving stopped at a request that would overflow a machine
    /// word, which was left unserved at `consumed`.
    pub halted: bool,
}

/// Serving the requests buffered in `buf` from state `s` may end in state
/// `s2`, having written `out` and taken `consumed` bytes: each complete
/// request in turn gets its answer and a line feed, until the buffer holds
/// no complete request (`halted` false) or the next one would overflow
/// (`halted` true).
pub open spec fn serves(
    s: BridgeView,
    buf: Seq<u8>,
    s2: BridgeView,
    out: Seq<u8>,
    consumed: int,
    halted: bool,
) -> bool
    decreases buf.len(),
{
    match frame_spec(buf) {
        None => s2 == s && out == Seq::<u8>::empty() && consumed == 0 && !halted,
        Some((req, used)) => {
            if request_overflows(s, req) {
                s2 == s && out == Seq::<u8>::empty() && consumed == 0 && halted
            } else if 0 < used <= buf.len() {
                exists|mid: BridgeView, reply: Seq<u8>|
                    #[trigger] step_ok(s, req, mid, reply) && out.len() >= reply.len() + 1
                        && out.take(reply.len() + 1 as int) == reply.push(10u8) && serves(
                        mid,
                        buf.skip(used as int),
                        s2,
                        out.skip(reply.len() + 1 as int),
                        consumed - used,
                        halted,
                    )
            } else {
                false
            }
        },
    }
}

/// A complete request takes at least one byte and no more than are buffered.
pub proof fn lemma_frame_takes_bytes(buf: Seq<u8>)
    ensures
        frame_spec(buf) matches Some((req, used)) ==> 0 < used <= buf.len(),
{
    if exists|i: int| is_first_newline(buf, i) {
        let i = choose|i: int| is_first_newline(buf, i);
        assert(is_first_newline(buf, i));
    }
}

impl SystemMemoryBridge {
    /// Serves, in order, every complete request at the front of the
    /// buffered bytes `buf`, until none is left or the next one would
    /// overflow a machine word; the unserved rest of `buf`, from `consumed`
    /// on, waits for more bytes.
    pub fn serve_buffer(&mut self, buf: &[u8]) -> (r: Served)
        requires
            old(self)@.inv(),
        ensures
            final(self)@.inv(),
            r.consumed <= buf@.len(),
            serves(old(self)@, buf@, final(self)@, r.output@, r.consumed as int, r.halted),
    {
        let ghost s0 = self@;
        let mut out: Vec<u8> = Vec::new();
        let mut pos: usize = 0;
        assert(buf@.skip(0) =~= buf@);
        loop
            invariant
                s0 == old(self)@,
                self@.inv(),
                pos <= buf@.len(),
                forall|s2: BridgeView, o: Seq<u8>, c: int, h: bool|
                    #[trigger] serves(self@, buf@.skip(pos as int), s2, o, c, h) ==> serves(
                        s0,
                        buf@,
                        s2,
                        out@ + o,
                        pos + c,
                        h,
                    ),
            decreases buf@.len() - pos,
        {
            let rest = &buf[pos..buf.len()];
            assert(rest@ =~= buf@.skip(pos as int));
            match next_request(rest) {
                None => {
                    assert(serves(self@, buf@.skip(pos as int), self@, Seq::<u8>::empty(), 0, false));
                    assert(out@ + Seq::<u8>::empty() =~= out@);
                    assert(serves(s0, buf@, self@, out@ + Seq::<u8>::empty(), pos + 0, false));
                    let r = Served { output: out, consumed: pos, halted: false };
                    return r;
                },
                Some((req, used)) => {
                    proof {
                        lemma_frame_takes_bytes(rest@);
                    }
                    if self.request_would_overflow(&req) {
                        assert(serves(self@, buf@.skip(pos as int), self@, Seq::<u8>::empty(), 0, true));
                        assert(out@ + Seq::<u8>::empty() =~= out@);
                        assert(serves(s0, buf@, self@, out@ + Seq::<u8>::empty(), pos + 0, true));
                        return Served { output: out, consumed: pos, halted: true };
                    }
                    let ghost cur = self@;
                    let ghost rv = req@;
                    let reply = self.handle_request(req);
                    let ghost mid = self@;
                    let ghost rep = reply@;
                    let ghost old_out = out@;
                    let mut line = reply;
                    line.push(10u8);
                    let ghost lv = line@;
                    assert(lv =~= rep.push(10u8));
                    out.append(&mut line);
                    assert(out@ =~= old_out + lv);
                    let ghost old_pos = pos;
                    pos = pos + used;
                    proof {
                        assert(rest@.skip(used as int) =~= buf@.skip(pos as int));
                        assert forall|s2: BridgeView, o: Seq<u8>, c: int, h: bool|
                            #[trigger] serves(mid, buf@.skip(pos as int), s2, o, c, h) implies serves(
                            s0,
                            buf@,
                            s2,
                            out@ + o,
                            pos + c,
                            h,
                        ) by {
                            let o2 = lv + o;
                            assert(o2.take(rep.len() + 1 as int) =~= rep.push(10u8));
                            assert(o2.skip(rep.len() + 1 as int) =~= o);
                            assert(serves(
                                mid,
                                rest@.skip(used as int),
                                s2,
                                o2.skip(rep.len() + 1 as int),
                                (used + c) - used,
                                h,
                            ));
                            assert(serves(cur, rest@, s2, o2, used + c, h));
                            assert(old_out + o2 =~= out@ + o);
                        }
                    }
                },
            }
        }
    }

    /// Whether serving `req` would overflow a machine word.
    pub fn request_would_overflow(&self, req: &Request) -> (r: bool)
        requires
            self@.inv(),
        ensures
            r == request_overflows(self@, req@),
    {
        match req {
            Request::Allocate { name, size_mb } => {
                if *size_mb > usize::MAX / 1048576 {
                    return true;
                }
                let size = *size_mb * 1048576;
                size <= self.max_single_pool() && (size > isize::MAX as usize || (
                self.registers_with_system() && size > usize::MAX - self.total_remote_ram()))
            },
            Request::Write { pool_id, offset, data } => {
                self.has_pool(pool_id.as_str()) && *offset > usize::MAX - data.len()
            },
            Request::Read { pool_id, offset, size } => {
                self.has_pool(pool_id.as_str()) && *offset > usize::MAX - *size
            },
            _ => false,
        }
    }

    /// Serves one request and gives the answer to it (without the line
    /// feed that ends it on the stream).
    pub fn handle_request(&mut self, req: Request) -> (r: Vec<u8>)
        requires
            old(self)@.inv(),
            !request_overflows(old(self)@, req@),
        ensures
            final(self)@.inv(),
            step_ok(old(self)@, req@, final(self)@, r@),
    {
        let ghost s0 = self@;
        let ghost rv = req@;
        let ghost any_listing = choose|l: Seq<Seq<char>>| is_listing(l, s0.pools.dom());
        proof {
            crate::bridge::lemma_listing_exists(s0);
        }
        match req {
            Request::Allocate { name, size_mb } => {
                let size = size_mb * 1024 * 1024;
                let res = self.allocate_pool(name.as_str(), size);
                let ghost pick = choose|a: u32, b: u16|
                    (self@, text_result(res)) == spec_allocate(
                        s0,
                        size as nat,
                        #[trigger] uuid_text(a, b),
                    );
                let t = match res {
                    Ok(id) => ok_text(id.as_str()),
                    Err(e) => error_text(e.as_str()),
                };
                let r = text_answer(&t);
                assert(respond_spec(s0, rv, uuid_text(pick.0, pick.1), any_listing) == (self@, r@));
                r
            },
            Request::Write { pool_id, offset, data } => {
                let res = self.write_to_pool_fast(pool_id.as_str(), offset, data.as_slice());
                let t = match res {
                    Ok(n) => count_text(n),
                    Err(e) => error_text(e.as_str()),
                };
                let r = text_answer(&t);
                assert(respond_spec(s0, rv, uuid_text(0, 0), any_listing) == (self@, r@));
                r
            },
            Request::Read { pool_id, offset, size } => {
                let res = self.read_from_pool_fast(pool_id.as_str(), offset, size);
                let r = match res {
                    Ok(d) => {
                        let mut r = text_answer(&count_text(d.len()));
                        r.push(10u8);
                        let ghost head = r@;
                        let mut d = d;
                        let ghost dv = d@;
                        r.append(&mut d);
                        assert(r@ =~= head + dv);
                        r
                    },
                    Err(e) => text_answer(&error_text(e.as_str())),
                };
                assert(respond_spec(s0, rv, uuid_text(0, 0), any_listing) == (self@, r@));
                r
            },
            Request::Delete { pool_id } => {
                let res = self.delete_pool(pool_id.as_str());
                let t = match res {
                    Ok(_) => String::from_str("OK"),
                    Err(e) => error_text(e.as_str()),
                };
                let r = text_answer(&t);
                assert(respond_spec(s0, rv, uuid_text(0, 0), any_listing) == (self@, r@));
                r
            },
            Request::Info { pool_id } => {
                let res = self.pool_info(pool_id.as_str());
                let t = match res {
                    Ok(i) => ok_text(i.as_str()),
                    Err(e) => error_text(e.as_str()),
                };
                let r = text_answer(&t);
                assert(respond_spec(s0, rv, uuid_text(0, 0), any_listing) == (self@, r@));
                r
            },
            Request::List => {
                let ids = self.list_pool_ids();
                let r = text_answer(&list_text(&ids));
                assert(respond_spec(s0, rv, uuid_text(0, 0), string_views(ids@)) == (self@, r@));
                r
            },
            Request::Status => {
                let r = text_answer(&self.get_system_memory_info());
                assert(respond_spec(s0, rv, uuid_text(0, 0), any_listing) == (self@, r@));
                r
            },
            Request::Ping => {
                let r = text_answer(&String::from_str("PONG"));
                assert(respond_spec(s0, rv, uuid_text(0, 0), any_listing) == (self@, r@));
                r
            },
            Request::Usage(k) => {
                let t = match k {
                    UsageKind::Allocate => String::from_str("ERROR: ALLOCATE <name> <size_mb>"),
                    UsageKind::Write => String::from_str("ERROR: WRITE <pool_id> <offset>"),
                    UsageKind::WriteBin => String::from_str("ERROR: WRITE_BIN <pool_id> <offset>"),
                    UsageKind::Read => String::from_str("ERROR: READ <pool_id> <offset> <size>"),
                    UsageKind::ReadBin => String::from_str(
                        "ERROR: READ_BIN <pool_id> <offset> <size>",
                    ),
                    UsageKind::Delete => String::from_str("ERROR: DELETE <pool_id>"),
                    UsageKind::Info => String::from_str("ERROR: INFO <pool_id>"),
                };
                let r = text_answer(&t);
                assert(respond_spec(s0, rv, uuid_text(0, 0), any_listing) == (self@, r@));
                r
            },
            Request::Unknown => {
                let r = text_answer(&String::from_str("ERROR: Unknown command"));
                assert(respond_spec(s0, rv, uuid_text(0, 0), any_listing) == (self@, r@));
                r
            },
        }
    }
}

} // verus!
