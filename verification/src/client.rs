//! The client side of the request protocol: the text of each request and
//! what is made of the server's answer to it.

use vstd::prelude::*;
use vstd::utf8::encode_utf8;
use crate::encoding::{decode_lossy, lossy_utf8, same_chars, str_chars, string_of, string_views, utf8_bytes};
use crate::protocol::{copy_bytes, find_line_feed, first_line_feed, number_or_zero, number_or_zero_of};
use crate::text::{copy_range, decimal, decimal_text, split_whitespace, trim, trim_whitespace, views_of, words};

verus! {

/// The request that asks for a list of the pools.
pub const LIST_REQUEST: &'static str = "LIST\n";

/// The request that checks that the server is alive.
pub const PING_REQUEST: &'static str = "PING\n";

/// Whether an answer reports success: it starts with `OK`.
pub open spec fn starts_ok(text: Seq<char>) -> bool {
    text.len() >= 2 && text[0] == 'O' && text[1] == 'K'
}

/// What follows `OK ` at the start of `s`, or nothing where `s` does not
/// start so.
pub open spec fn after_ok(s: Seq<char>) -> Seq<char> {
    if s.len() >= 3 && s[0] == 'O' && s[1] == 'K' && s[2] == ' ' {
        s.skip(3)
    } else {
        Seq::empty()
    }
}

pub open spec fn is_bracket(c: char) -> bool {
    c == '[' || c == ']'
}

/// `s` without its leading brackets.
pub open spec fn trim_brackets_start(s: Seq<char>) -> Seq<char>
    decreases s.len(),
{
    if s.len() > 0 && is_bracket(s[0]) {
        trim_brackets_start(s.drop_first())
    } else {
        s
    }
}

/// `s` without its trailing brackets.
pub open spec fn trim_brackets_end(s: Seq<char>) -> Seq<char>
    decreases s.len(),
{
    if s.len() > 0 && is_bracket(s.last()) {
        trim_brackets_end(s.drop_last())
    } else {
        s
    }
}

/// `s` without leading and trailing `[` and `]`.
pub open spec fn trim_brackets(s: Seq<char>) -> Seq<char> {
    trim_brackets_end(trim_brackets_start(s))
}

/// How many characters `s` starts with before its first `, ` (all of them
/// where it has none).
pub open spec fn piece_end(s: Seq<char>) -> nat
    decreases s.len(),
{
    if s.len() < 2 {
        s.len()
    } else if s[0] == ',' && s[1] == ' ' {
        0
    } else {
        1 + piece_end(s.drop_first())
    }
}

/// The pieces of `s` between the separators `, `, in order: the piece
/// before the first separator, then the pieces of what follows it (one
/// piece more than there are separators).
pub open spec fn split_list(s: Seq<char>) -> Seq<Seq<char>>
    decreases s.len(),
{
    if piece_end(s) + 2 <= s.len() {
        seq![s.take(piece_end(s) as int)] + split_list(s.skip(piece_end(s) + 2 as int))
    } else {
        seq![s]
    }
}

/// Each of `ws` followed by `, `, one after another.
pub open spec fn joined_pieces(ws: Seq<Seq<char>>) -> Seq<char>
    decreases ws.len(),
{
    if ws.len() == 0 {
        Seq::empty()
    } else {
        joined_pieces(ws.drop_last()) + ws.last() + seq![',', ' ']
    }
}

/// Text without a separator, followed by text that does not start a
/// separator with its last character: the first separator is found in
/// the text that follows.
proof fn lemma_piece_end_append(a: Seq<char>, t: Seq<char>)
    requires
        piece_end(a) == a.len(),
        !(a.len() > 0 && a.last() == ',' && t.len() > 0 && t[0] == ' '),
    ensures
        piece_end(a + t) == a.len() + piece_end(t),
    decreases a.len(),
{
    let s = a + t;
    if a.len() == 0 {
        assert(s =~= t);
    } else {
        assert(s[0] == a[0]);
        if a.len() >= 2 {
            assert(s[1] == a[1]);
        } else {
            assert(s.len() >= 2 ==> s[1] == t[0]);
        }
        let r = a.drop_first();
        if s.len() >= 2 {
            assert(s.drop_first() =~= r + t);
            if r.len() > 0 {
                assert(r.last() == a.last());
            }
            lemma_piece_end_append(r, t);
        }
    }
}

/// Text without a separator keeps none when its last character goes.
proof fn lemma_piece_end_drop_last(a: Seq<char>)
    requires
        a.len() > 0,
        piece_end(a) == a.len(),
    ensures
        piece_end(a.drop_last()) == a.len() - 1,
    decreases a.len(),
{
    if a.len() >= 3 {
        let r = a.drop_first();
        lemma_piece_end_drop_last(r);
        assert(a.drop_last().drop_first() =~= r.drop_last());
        assert(a.drop_last()[0] == a[0] && a.drop_last()[1] == a[1]);
    }
}

/// A piece without a separator, a separator, and more text: that piece,
/// then the pieces of the rest.
proof fn lemma_split_after_piece(a: Seq<char>, b: Seq<char>)
    requires
        piece_end(a) == a.len(),
    ensures
        split_list(a + seq![',', ' '] + b) == seq![a] + split_list(b),
{
    let t = seq![',', ' '] + b;
    assert(a + seq![',', ' '] + b =~= a + t);
    lemma_piece_end_append(a, t);
    let s = a + t;
    assert(s.take(a.len() as int) =~= a);
    assert(s.skip(a.len() + 2 as int) =~= b);
}

/// Pieces without separators, each followed by a separator, and then more
/// text: those pieces, then the pieces of the rest.
pub proof fn lemma_split_joined(ws: Seq<Seq<char>>, z: Seq<char>)
    requires
        forall|j: int| 0 <= j < ws.len() ==> piece_end(#[trigger] ws[j]) == ws[j].len(),
    ensures
        split_list(joined_pieces(ws) + z) == ws + split_list(z),
    decreases ws.len(),
{
    if ws.len() == 0 {
        assert(joined_pieces(ws) + z =~= z);
        assert(ws + split_list(z) =~= split_list(z));
    } else {
        let front = ws.drop_last();
        let w = ws.last();
        assert forall|j: int| 0 <= j < front.len() implies piece_end(#[trigger] front[j])
            == front[j].len() by {
            assert(front[j] == ws[j]);
        }
        let z2 = w + seq![',', ' '] + z;
        lemma_split_joined(front, z2);
        assert(joined_pieces(ws) + z =~= joined_pieces(front) + z2);
        lemma_split_after_piece(w, z);
        assert(front + (seq![w] + split_list(z)) =~= ws + split_list(z));
    }
}

/// The id that an answer to an allocation carries: its second word.
pub open spec fn second_word(text: Seq<char>) -> Seq<char> {
    let ws = words(trim(text));
    if ws.len() > 1 {
        ws[1]
    } else {
        Seq::empty()
    }
}

/// What the client makes of the answer `text` to an allocation.
pub open spec fn allocate_answer(text: Seq<char>) -> Result<Seq<char>, Seq<char>> {
    if starts_ok(text) {
        Ok(second_word(text))
    } else {
        Err(text)
    }
}

/// What the client makes of an answer that only reports success or failure.
pub open spec fn ack_answer(text: Seq<char>) -> Result<(), Seq<char>> {
    if starts_ok(text) {
        Ok(())
    } else {
        Err(text)
    }
}

/// What the client makes of the answer `resp` to a read: after an `OK`
/// header line that gives a count, that many bytes; otherwise, or where
/// fewer bytes follow, the whole answer as the error.
pub open spec fn read_answer(resp: Seq<u8>) -> Result<Seq<u8>, Seq<char>> {
    match first_line_feed(resp) {
        None => Err(lossy_utf8(resp)),
        Some(i) => {
            let header = lossy_utf8(resp.take(i));
            let n = number_or_zero(second_word(header));
            if starts_ok(header) && i + 1 + n <= resp.len() {
                Ok(resp.subrange(i + 1, i + 1 + n))
            } else {
                Err(lossy_utf8(resp))
            }
        },
    }
}

/// Whether all of the answer to a read has arrived: its header line, and
/// after an `OK` header the bytes it counts and the closing line feed.
pub open spec fn read_answer_complete(resp: Seq<u8>) -> bool {
    match first_line_feed(resp) {
        None => false,
        Some(i) => {
            let header = lossy_utf8(resp.take(i));
            !starts_ok(header) || i + 2 + number_or_zero(second_word(header)) <= resp.len()
        },
    }
}

/// What the client makes of the answer `text` to a pool-info request.
pub open spec fn info_answer(text: Seq<char>) -> Result<Seq<char>, Seq<char>> {
    if starts_ok(text) {
        Ok(after_ok(trim(text)))
    } else {
        Err(text)
    }
}

/// What the client makes of the answer `text` to a listing.
pub open spec fn list_answer(text: Seq<char>) -> Result<Seq<Seq<char>>, Seq<char>> {
    if starts_ok(text) {
        Ok(split_list(trim_brackets(after_ok(trim(text)))))
    } else {
        Err(text)
    }
}

pub open spec fn allocate_request_text(name: Seq<char>, size_mb: nat) -> Seq<char> {
    "ALLOCATE "@ + name + " "@ + decimal_text(size_mb) + "\n"@
}

/// The header of a binary write of `len` bytes.
pub open spec fn write_header_text(pool_id: Seq<char>, offset: nat, len: nat) -> Seq<char> {
    "WRITE_BIN "@ + pool_id + " "@ + decimal_text(offset) + " "@ + decimal_text(len)
}

/// A binary write: its header line, then the bytes themselves.
pub open spec fn write_request_bytes(pool_id: Seq<char>, offset: nat, data: Seq<u8>) -> Seq<u8> {
    encode_utf8(write_header_text(pool_id, offset, data.len()) + "\n"@) + data
}

pub open spec fn read_request_text(pool_id: Seq<char>, offset: nat, size: nat) -> Seq<char> {
    "READ "@ + pool_id + " "@ + decimal_text(offset) + " "@ + decimal_text(size) + "\n"@
}

pub open spec fn info_request_text(pool_id: Seq<char>) -> Seq<char> {
    "INFO "@ + pool_id + "\n"@
}

pub open spec fn delete_request_text(pool_id: Seq<char>) -> Seq<char> {
    "DELETE "@ + pool_id + "\n"@
}

fn append_decimal(s: &mut String, n: usize)
    ensures
        final(s)@ == old(s)@ + decimal_text(n as nat),
{
    let d = string_of(decimal(n).as_slice());
    s.append(d.as_str());
}

/// The request that allocates a pool of `size_mb` MiB labelled `name`.
pub fn allocate_request(name: &str, size_mb: usize) -> (r: String)
    ensures
        r@ == allocate_request_text(name@, size_mb as nat),
{
    let mut m = String::from_str("ALLOCATE ");
    m.append(name);
    m.append(" ");
    append_decimal(&mut m, size_mb);
    m.append("\n");
    m
}

/// The request that writes `data`, as raw bytes, into a pool at `offset`.
pub fn write_request(pool_id: &str, offset: usize, data: &[u8]) -> (r: Vec<u8>)
    ensures
        r@ == write_request_bytes(pool_id@, offset as nat, data@),
{
    let mut m = String::from_str("WRITE_BIN ");
    m.append(pool_id);
    m.append(" ");
    append_decimal(&mut m, offset);
    m.append(" ");
    append_decimal(&mut m, data.len());
    m.append("\n");
    let mut r = utf8_bytes(m.as_str());
    let ghost head = r@;
    let mut k: usize = 0;
    while k < data.len()
        invariant
            k <= data@.len(),
            r@ == head + data@.take(k as int),
        decreases data@.len() - k,
    {
        r.push(data[k]);
        assert(r@ =~= head + data@.take(k + 1));
        k += 1;
    }
    assert(data@.take(data@.len() as int) =~= data@);
    r
}

/// The request that reads `size` bytes of a pool from `offset` on.
pub fn read_request(pool_id: &str, offset: usize, size: usize) -> (r: String)
    ensures
        r@ == read_request_text(pool_id@, offset as nat, size as nat),
{
    let mut m = String::from_str("READ ");
    m.append(pool_id);
    m.append(" ");
    append_decimal(&mut m, offset);
    m.append(" ");
    append_decimal(&mut m, size);
    m.append("\n");
    m
}

/// The request that asks about a pool.
pub fn info_request(pool_id: &str) -> (r: String)
    ensures
        r@ == info_request_text(pool_id@),
{
    let mut m = String::from_str("INFO ");
    m.append(pool_id);
    m.append("\n");
    m
}

/// The request that deletes a pool.
pub fn delete_request(pool_id: &str) -> (r: String)
    ensures
        r@ == delete_request_text(pool_id@),
{
    let mut m = String::from_str("DELETE ");
    m.append(pool_id);
    m.append("\n");
    m
}

fn starts_ok_exec(text: &[char]) -> (r: bool)
    ensures
        r == starts_ok(text@),
{
    text.len() >= 2 && text[0] == 'O' && text[1] == 'K'
}

fn after_ok_exec(s: &[char]) -> (r: Vec<char>)
    ensures
        r@ == after_ok(s@),
{
    if s.len() >= 3 && s[0] == 'O' && s[1] == 'K' && s[2] == ' ' {
        copy_range(s, 3, s.len())
    } else {
        Vec::new()
    }
}

/// What the client makes of the answer to an allocation: the new pool's id,
/// or the whole answer as the error.
pub fn parse_allocate_response(response: &[u8]) -> (r: Result<String, String>)
    ensures
        match r {
            Ok(id) => allocate_answer(lossy_utf8(response@)) == Ok::<Seq<char>, Seq<char>>(id@),
            Err(e) => allocate_answer(lossy_utf8(response@)) == Err::<Seq<char>, Seq<char>>(e@),
        },
{
    let text = decode_lossy(response);
    if starts_ok_exec(text.as_slice()) {
        let t = trim_whitespace(text.as_slice());
        let ws = split_whitespace(t.as_slice());
        if ws.len() > 1 {
            assert(views_of(ws@)[1] == ws@[1]@);
            Ok(string_of(ws[1].as_slice()))
        } else {
            Ok(String::new())
        }
    } else {
        Err(string_of(text.as_slice()))
    }
}

/// What the client makes of an answer that reports success or failure.
pub fn parse_ack_response(response: &[u8]) -> (r: Result<(), String>)
    ensures
        match r {
            Ok(_) => ack_answer(lossy_utf8(response@)) == Ok::<(), Seq<char>>(()),
            Err(e) => ack_answer(lossy_utf8(response@)) == Err::<(), Seq<char>>(e@),
        },
{
    let text = decode_lossy(response);
    if starts_ok_exec(text.as_slice()) {
        Ok(())
    } else {
        Err(string_of(text.as_slice()))
    }
}

fn second_word_exec(header: &[char]) -> (r: Vec<char>)
    ensures
        r@ == second_word(header@),
{
    let t = trim_whitespace(header);
    let ws = split_whitespace(t.as_slice());
    if ws.len() > 1 {
        assert(views_of(ws@)[1] == ws@[1]@);
        copy_range(ws[1].as_slice(), 0, ws[1].len())
    } else {
        Vec::new()
    }
}

/// The header of an answer, decoded, and the position of its line feed.
fn answer_header(response: &[u8]) -> (r: Option<(Vec<char>, usize)>)
    ensures
        match r {
            Some((h, i)) => first_line_feed(response@) == Some(i as int) && i < response@.len()
                && h@ == lossy_utf8(response@.take(i as int)),
            None => first_line_feed(response@) == None::<int>,
        },
{
    match find_line_feed(response) {
        None => None,
        Some(i) => {
            let line = copy_bytes(response, 0, i);
            assert(line@ =~= response@.take(i as int));
            Some((decode_lossy(line.as_slice()), i))
        },
    }
}

/// Whether all of the answer to a read has arrived.
pub fn read_answer_is_complete(response: &[u8]) -> (r: bool)
    ensures
        r == read_answer_complete(response@),
{
    match answer_header(response) {
        None => false,
        Some((h, i)) => {
            if !starts_ok_exec(h.as_slice()) {
                return true;
            }
            let n = number_or_zero_of(second_word_exec(h.as_slice()).as_slice());
            n <= response.len() && i < response.len() - n && i + 1 < response.len() - n
        },
    }
}

/// What the client makes of the answer to a read: the bytes counted in
/// its `OK` header.
pub fn parse_read_response(response: &[u8]) -> (r: Result<Vec<u8>, String>)
    ensures
        match r {
            Ok(d) => read_answer(response@) == Ok::<Seq<u8>, Seq<char>>(d@),
            Err(e) => read_answer(response@) == Err::<Seq<u8>, Seq<char>>(e@),
        },
{
    match answer_header(response) {
        None => Err(string_of(decode_lossy(response).as_slice())),
        Some((h, i)) => {
            let n = number_or_zero_of(second_word_exec(h.as_slice()).as_slice());
            if starts_ok_exec(h.as_slice()) && n <= response.len() && i + 1 <= response.len() - n {
                Ok(copy_bytes(response, i + 1, i + 1 + n))
            } else {
                Err(string_of(decode_lossy(response).as_slice()))
            }
        },
    }
}

/// What the client makes of the answer to a pool-info request.
pub fn parse_info_response(response: &[u8]) -> (r: Result<String, String>)
    ensures
        match r {
            Ok(i) => info_answer(lossy_utf8(response@)) == Ok::<Seq<char>, Seq<char>>(i@),
            Err(e) => info_answer(lossy_utf8(response@)) == Err::<Seq<char>, Seq<char>>(e@),
        },
{
    let text = decode_lossy(response);
    if starts_ok_exec(text.as_slice()) {
        let t = trim_whitespace(text.as_slice());
        Ok(string_of(after_ok_exec(t.as_slice()).as_slice()))
    } else {
        Err(string_of(text.as_slice()))
    }
}

/// Whether the answer to a liveness check is `PONG`, white space aside.
pub fn parse_ping_response(response: &[u8]) -> (r: bool)
    ensures
        r == (trim(lossy_utf8(response@)) == "PONG"@),
{
    let text = decode_lossy(response);
    let t = trim_whitespace(text.as_slice());
    same_chars(t.as_slice(), str_chars("PONG").as_slice())
}


/// Removes leading and trailing `[` and `]`.
fn trim_brackets_exec(s: &[char]) -> (r: Vec<char>)
    ensures
        r@ == trim_brackets(s@),
{
    let mut i: usize = 0;
    assert(s@.skip(0) =~= s@);
    while i < s.len() && (s[i] == '[' || s[i] == ']')
        invariant
            i <= s.len(),
            trim_brackets_start(s@) == trim_brackets_start(s@.skip(i as int)),
        decreases s.len() - i,
    {
        assert(s@.skip(i as int).drop_first() =~= s@.skip(i + 1));
        i += 1;
    }
    assert(trim_brackets_start(s@) == s@.skip(i as int)) by {
        if i < s.len() {
            assert(s@.skip(i as int)[0] == s@[i as int]);
        }
    }
    let mut j: usize = s.len();
    assert(s@.skip(i as int) =~= s@.subrange(i as int, s.len() as int));
    while j > i && (s[j - 1] == '[' || s[j - 1] == ']')
        invariant
            i <= j <= s.len(),
            trim_brackets(s@) == trim_brackets_end(s@.subrange(i as int, j as int)),
        decreases j,
    {
        assert(s@.subrange(i as int, j as int).drop_last() =~= s@.subrange(i as int, j - 1));
        j -= 1;
    }
    copy_range(s, i, j)
}

/// The pieces of `s` between the separators `, `.
fn split_list_exec(s: &[char]) -> (r: Vec<String>)
    ensures
        string_views(r@) == split_list(s@),
{
    let mut done: Vec<String> = Vec::new();
    let mut cur: Vec<char> = Vec::new();
    let mut i: usize = 0;
    while i < s.len()
        invariant
            i <= s.len(),
            s@.take(i as int) == joined_pieces(string_views(done@)) + cur@,
            piece_end(cur@) == cur@.len(),
            forall|j: int|
                0 <= j < done@.len() ==> piece_end(#[trigger] string_views(done@)[j])
                    == string_views(done@)[j].len(),
        decreases s.len() - i,
    {
        let c = s[i];
        let ghost cv = cur@;
        let ghost d = string_views(done@);
        assert(s@.take(i + 1) =~= s@.take(i as int).push(c));
        if c == ' ' && cur.len() > 0 && cur[cur.len() - 1] == ',' {
            cur.pop();
            assert(cur@ =~= cv.drop_last());
            proof {
                lemma_piece_end_drop_last(cv);
            }
            let piece = string_of(cur.as_slice());
            done.push(piece);
            assert(string_views(done@) =~= d.push(cv.drop_last()));
            assert(string_views(done@).drop_last() =~= d);
            assert(joined_pieces(string_views(done@)) =~= joined_pieces(d) + cv.drop_last()
                + seq![',', ' ']);
            assert(cv =~= cv.drop_last().push(','));
            cur = Vec::new();
            assert(s@.take(i + 1) =~= joined_pieces(string_views(done@)) + cur@);
        } else {
            cur.push(c);
            proof {
                assert(piece_end(seq![c]) == 1);
                lemma_piece_end_append(cv, seq![c]);
                assert(cv + seq![c] =~= cur@);
            }
            assert(s@.take(i + 1) =~= joined_pieces(string_views(done@)) + cur@);
        }
        i += 1;
    }
    proof {
        assert(s@.take(s.len() as int) =~= s@);
        lemma_split_joined(string_views(done@), cur@);
    }
    let ghost d = string_views(done@);
    let last = string_of(cur.as_slice());
    done.push(last);
    assert(string_views(done@) =~= d.push(cur@));
    assert(d + seq![cur@] =~= d.push(cur@));
    done
}

/// What the client makes of the answer to a listing: the pool ids between
/// the brackets, separated by `, `.
pub fn parse_list_response(response: &[u8]) -> (r: Result<Vec<String>, String>)
    ensures
        match r {
            Ok(ids) => list_answer(lossy_utf8(response@)) == Ok::<Seq<Seq<char>>, Seq<char>>(
                string_views(ids@),
            ),
            Err(e) => list_answer(lossy_utf8(response@)) == Err::<Seq<Seq<char>>, Seq<char>>(e@),
        },
{
    let text = decode_lossy(response);
    if starts_ok_exec(text.as_slice()) {
        let t = trim_whitespace(text.as_slice());
        let rest = after_ok_exec(t.as_slice());
        let inner = trim_brackets_exec(rest.as_slice());
        Ok(split_list_exec(inner.as_slice()))
    } else {
        Err(string_of(text.as_slice()))
    }
}

} // verus!
