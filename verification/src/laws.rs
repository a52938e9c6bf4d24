//! Laws of the pool store: what a read gives back of a write, what a fresh
//! pool holds, and what a refused request leaves behind.

use vstd::prelude::*;
use crate::bridge::{BridgeView, spec_allocate, spec_read, spec_write};
use crate::bridge::{pool_id_text, uuid_text};
use crate::client::{allocate_answer, allocate_request_text, read_request_text, starts_ok};
use crate::pool::{fresh_pool, next_count, overwrite};
use crate::protocol::{RequestView, join_words, line_bytes, ok_line, parse_request_spec, respond_spec, mib};
use crate::text::{
    decimal_text, hex_text, is_white_space, lemma_decimal_text, lemma_parse_decimal, lemma_trim_line,
    lemma_words_single, lemma_words_split, no_white_space, trim, words, hex_digit_char,
};
use vstd::utf8::encode_utf8;

verus! {

/// Reading back the range that a successful write just wrote gives exactly
/// the bytes written.
pub proof fn law_read_after_write(s: BridgeView, id: Seq<char>, offset: nat, bytes: Seq<u8>)
    requires
        s.inv(),
        spec_write(s, id, offset, bytes).1 is Ok,
    ensures
        spec_read(spec_write(s, id, offset, bytes).0, id, offset, bytes.len()).1 == Ok::<
            Seq<u8>,
            Seq<char>,
        >(bytes),
{
    let p = s.pools[id];
    let d = overwrite(p.data, offset, bytes);
    assert(d.subrange(offset as int, (offset + bytes.len()) as int) =~= bytes);
}

/// A successful write leaves every other pool, and every byte of its own
/// pool outside the written range, as it was.
pub proof fn law_write_keeps_the_rest(
    s: BridgeView,
    id: Seq<char>,
    offset: nat,
    bytes: Seq<u8>,
    other: Seq<char>,
    at: nat,
    size: nat,
)
    requires
        s.inv(),
        spec_write(s, id, offset, bytes).1 is Ok,
        other != id || at + size <= offset || offset + bytes.len() <= at,
    ensures
        spec_read(spec_write(s, id, offset, bytes).0, other, at, size).1 == spec_read(
            s,
            other,
            at,
            size,
        ).1,
{
    if other == id && at + size <= s.pools[id].max_size {
        let p = s.pools[id];
        let d = overwrite(p.data, offset, bytes);
        assert(d.subrange(at as int, (at + size) as int) =~= p.data.subrange(
            at as int,
            (at + size) as int,
        ));
    }
}

/// A successful write raises the pool's high-water mark to at least the
/// end of the write, never lowers it, and counts one access.
pub proof fn law_write_marks(s: BridgeView, id: Seq<char>, offset: nat, bytes: Seq<u8>)
    requires
        s.inv(),
        spec_write(s, id, offset, bytes).1 is Ok,
    ensures
        ({
            let after = spec_write(s, id, offset, bytes).0.pools[id];
            &&& after.current_size >= offset + bytes.len()
            &&& after.current_size >= s.pools[id].current_size
            &&& after.access_count == next_count(s.pools[id].access_count)
        }),
{
}

/// A pool that was just allocated reads as zeros everywhere inside it.
pub proof fn law_fresh_pool_reads_zero(
    s: BridgeView,
    size: nat,
    uuid: Seq<char>,
    at: nat,
    len: nat,
)
    requires
        s.inv(),
        spec_allocate(s, size, uuid).1 is Ok,
        at + len <= size,
    ensures
        ({
            let (s2, r) = spec_allocate(s, size, uuid);
            spec_read(s2, r->Ok_0, at, len).1 == Ok::<Seq<u8>, Seq<char>>(
                Seq::new(len, |i: int| 0u8),
            )
        }),
{
    let (s2, r) = spec_allocate(s, size, uuid);
    let id = r->Ok_0;
    assert(s2.pools[id] == fresh_pool(id, size));
    assert(fresh_pool(id, size).data.subrange(at as int, (at + len) as int) =~= Seq::new(
        len,
        |i: int| 0u8,
    ));
}

/// An allocation succeeds exactly when the size is within the single-pool
/// limit; then the new pool is stored under the id handed out, the
/// registered total grows by the size, and a new id adds one pool.
pub proof fn law_allocate_accounting(s: BridgeView, size: nat, uuid: Seq<char>)
    requires
        s.inv(),
    ensures
        ({
            let (s2, r) = spec_allocate(s, size, uuid);
            &&& (r is Ok <==> size <= s.max_single_pool)
            &&& r is Ok ==> {
                &&& s2.pools.contains_key(r->Ok_0)
                &&& s2.pools[r->Ok_0] == fresh_pool(r->Ok_0, size)
                &&& s2.total_remote_ram == crate::bridge::registered_total(s, size)
                &&& !s.pools.contains_key(r->Ok_0) ==> s2.pools.len() == s.pools.len() + 1
            }
        }),
{
}

/// A refused allocation, write or read leaves the state as it was.
pub proof fn law_refusals_change_nothing(
    s: BridgeView,
    size: nat,
    uuid: Seq<char>,
    id: Seq<char>,
    offset: nat,
    bytes: Seq<u8>,
    len: nat,
)
    ensures
        spec_allocate(s, size, uuid).1 is Err ==> spec_allocate(s, size, uuid).0 == s,
        spec_write(s, id, offset, bytes).1 is Err ==> spec_write(s, id, offset, bytes).0 == s,
        spec_read(s, id, offset, len).1 is Err ==> spec_read(s, id, offset, len).0 == s,
{
}

/// Reading changes no byte of any pool, and the set of pools stays the same.
pub proof fn law_read_keeps_data(s: BridgeView, id: Seq<char>, offset: nat, len: nat, other: Seq<
    char,
>)
    requires
        s.inv(),
    ensures
        spec_read(s, id, offset, len).0.pools.dom() == s.pools.dom(),
        s.pools.contains_key(other) ==> spec_read(s, id, offset, len).0.pools[other].data
            == s.pools[other].data,
{
    if s.pools.contains_key(id) {
        assert(spec_read(s, id, offset, len).0.pools.dom() =~= s.pools.dom());
    }
}

/// Every operation keeps the state well formed.
pub proof fn law_operations_keep_inv(
    s: BridgeView,
    size: nat,
    uuid: Seq<char>,
    id: Seq<char>,
    offset: nat,
    bytes: Seq<u8>,
    len: nat,
)
    requires
        s.inv(),
        no_white_space(uuid),
    ensures
        size <= s.max_single_pool && crate::bridge::registered_total(s, size) <= usize::MAX ==> spec_allocate(
            s,
            size,
            uuid,
        ).0.inv(),
        spec_write(s, id, offset, bytes).0.inv(),
        spec_read(s, id, offset, len).0.inv(),
        crate::bridge::spec_delete(s, id).0.inv(),
{
    if size <= s.max_single_pool && crate::bridge::registered_total(s, size) <= usize::MAX {
        let s2 = spec_allocate(s, size, uuid).0;
        crate::bridge::lemma_pool_id_word(uuid);
        assert forall|k: Seq<char>| #[trigger] s2.pools.contains_key(k) implies s2.pools[k].wf()
            && s2.pools[k].id == k && no_white_space(k) by {
            if k != crate::bridge::pool_id_text(uuid) {
                assert(s.pools.contains_key(k));
            }
        }
    }
    let s3 = spec_write(s, id, offset, bytes).0;
    assert forall|k: Seq<char>| #[trigger] s3.pools.contains_key(k) implies s3.pools[k].wf()
        && s3.pools[k].id == k by {
        assert(s.pools.contains_key(k));
    }
    let s4 = spec_read(s, id, offset, len).0;
    assert forall|k: Seq<char>| #[trigger] s4.pools.contains_key(k) implies s4.pools[k].wf()
        && s4.pools[k].id == k by {
        assert(s.pools.contains_key(k));
    }
    let s5 = crate::bridge::spec_delete(s, id).0;
    assert forall|k: Seq<char>| #[trigger] s5.pools.contains_key(k) implies s5.pools[k].wf()
        && s5.pools[k].id == k by {
        assert(s.pools.contains_key(k));
    }
}


pub(crate) proof fn lemma_keywords()
    ensures
        "ALLOCATE"@ == seq!['A', 'L', 'L', 'O', 'C', 'A', 'T', 'E'],
        "WRITE"@ == seq!['W', 'R', 'I', 'T', 'E'],
        "WRITE_BIN"@ == seq!['W', 'R', 'I', 'T', 'E', '_', 'B', 'I', 'N'],
        "READ"@ == seq!['R', 'E', 'A', 'D'],
        "STATUS"@ == seq!['S', 'T', 'A', 'T', 'U', 'S'],
        "PING"@ == seq!['P', 'I', 'N', 'G'],
        "READ_BIN"@ == seq!['R', 'E', 'A', 'D', '_', 'B', 'I', 'N'],
        "DELETE"@ == seq!['D', 'E', 'L', 'E', 'T', 'E'],
        "INFO"@ == seq!['I', 'N', 'F', 'O'],
        "LIST"@ == seq!['L', 'I', 'S', 'T'],
        "PONG"@ == seq!['P', 'O', 'N', 'G'],
        "OK "@ == seq!['O', 'K', ' '],
        " "@ == seq![' '],
        "\n"@ == seq!['\n'],
{
    reveal_strlit("ALLOCATE");
    reveal_strlit("WRITE");
    reveal_strlit("WRITE_BIN");
    reveal_strlit("READ");
    reveal_strlit("STATUS");
    reveal_strlit("PING");
    reveal_strlit("READ_BIN");
    reveal_strlit("DELETE");
    reveal_strlit("INFO");
    reveal_strlit("LIST");
    reveal_strlit("PONG");
    reveal_strlit("OK ");
    reveal_strlit(" ");
    reveal_strlit("\n");
}

pub(crate) proof fn lemma_plain_keyword(k: Seq<char>)
    requires
        k.len() > 0,
        forall|i: int| 0 <= i < k.len() ==> 0x41 <= (#[trigger] k[i] as u32) <= 0x5f,
    ensures
        words(k) == seq![k],
        no_white_space(k),
{
    assert forall|i: int| 0 <= i < k.len() implies !is_white_space(#[trigger] k[i]) by {
        assert(0x41 <= (k[i] as u32) <= 0x5f);
    }
    lemma_words_single(k);
}

/// The words of `a`, a white-space character, `b`, a line feed: those of
/// `a` and then those of `b`.
proof fn lemma_words_line(a: Seq<char>, b: Seq<char>)
    requires
        a.len() > 0,
        no_white_space(a),
        b.len() > 0,
        no_white_space(b),
    ensures
        words(a + seq![' '] + (b + seq!['\n'])) == seq![a, b],
{
    lemma_words_single(a);
    lemma_words_single(b);
    assert(b + seq!['\n'] =~= b + seq!['\n'] + Seq::<char>::empty());
    lemma_words_split(b, '\n', Seq::<char>::empty());
    assert(words(Seq::<char>::empty()) =~= Seq::<Seq<char>>::empty());
    lemma_words_split(a, ' ', b + seq!['\n']);
    assert(seq![a] + (seq![b] + Seq::<Seq<char>>::empty()) =~= seq![a, b]);
}

/// The server reads the client's allocation request back as the name and
/// size that the client put in it, where the name is one word.
pub proof fn law_allocate_request_round_trip(name: Seq<char>, size_mb: usize)
    requires
        name.len() > 0,
        no_white_space(name),
    ensures
        ({
            let t = allocate_request_text(name, size_mb as nat);
            parse_request_spec(encode_utf8(t), t) == RequestView::Allocate {
                name,
                size_mb: size_mb as nat,
            }
        }),
{
    lemma_keywords();
    reveal_strlit("ALLOCATE ");
    let t = allocate_request_text(name, size_mb as nat);
    let k = "ALLOCATE"@;
    let dec = decimal_text(size_mb as nat);
    lemma_decimal_text(size_mb as nat);
    lemma_parse_decimal(size_mb);
    lemma_plain_keyword(k);
    lemma_words_line(name, dec);
    assert(t =~= k + seq![' '] + (name + seq![' '] + (dec + seq!['\n'])));
    lemma_words_split(k, ' ', name + seq![' '] + (dec + seq!['\n']));
    assert(words(t) =~= seq![k, name, dec]);
}

/// The server reads the client's read request back as the pool, offset
/// and size that the client put in it, where the pool id is one word.
pub proof fn law_read_request_round_trip(pool_id: Seq<char>, offset: usize, size: usize)
    requires
        pool_id.len() > 0,
        no_white_space(pool_id),
    ensures
        ({
            let t = read_request_text(pool_id, offset as nat, size as nat);
            parse_request_spec(encode_utf8(t), t) == RequestView::Read {
                pool_id,
                offset: offset as nat,
                size: size as nat,
            }
        }),
{
    lemma_keywords();
    reveal_strlit("READ ");
    let t = read_request_text(pool_id, offset as nat, size as nat);
    let k = "READ"@;
    let d1 = decimal_text(offset as nat);
    let d2 = decimal_text(size as nat);
    lemma_decimal_text(offset as nat);
    lemma_decimal_text(size as nat);
    lemma_parse_decimal(offset);
    lemma_parse_decimal(size);
    lemma_plain_keyword(k);
    lemma_words_single(pool_id);
    lemma_words_line(d1, d2);
    let rest = d1 + seq![' '] + (d2 + seq!['\n']);
    lemma_words_split(pool_id, ' ', rest);
    lemma_words_split(k, ' ', pool_id + seq![' '] + rest);
    assert(t =~= k + seq![' '] + (pool_id + seq![' '] + rest));
    assert(words(t) =~= seq![k, pool_id, d1, d2]);
}

/// The server reads a text write back as a write, at the pool and offset
/// given, of the UTF-8 bytes of the text's words joined by single spaces.
pub proof fn law_write_request_words(pool_id: Seq<char>, offset: usize, text: Seq<char>)
    requires
        pool_id.len() > 0,
        no_white_space(pool_id),
    ensures
        ({
            let t = "WRITE "@ + pool_id + " "@ + decimal_text(offset as nat) + " "@ + text
                + "\n"@;
            parse_request_spec(encode_utf8(t), t) == RequestView::Write {
                pool_id,
                offset: offset as nat,
                data: encode_utf8(join_words(words(text))),
            }
        }),
{
    lemma_keywords();
    reveal_strlit("WRITE ");
    let t = "WRITE "@ + pool_id + " "@ + decimal_text(offset as nat) + " "@ + text + "\n"@;
    let k = "WRITE"@;
    let d = decimal_text(offset as nat);
    lemma_decimal_text(offset as nat);
    lemma_parse_decimal(offset);
    lemma_plain_keyword(k);
    lemma_words_single(pool_id);
    lemma_words_single(d);
    assert(text + seq!['\n'] =~= text + seq!['\n'] + Seq::<char>::empty());
    lemma_words_split(text, '\n', Seq::<char>::empty());
    assert(words(Seq::<char>::empty()) =~= Seq::<Seq<char>>::empty());
    assert(words(text + seq!['\n']) =~= words(text));
    lemma_words_split(d, ' ', text + seq!['\n']);
    let rest = d + seq![' '] + (text + seq!['\n']);
    lemma_words_split(pool_id, ' ', rest);
    lemma_words_split(k, ' ', pool_id + seq![' '] + rest);
    assert(t =~= k + seq![' '] + (pool_id + seq![' '] + rest));
    let parts = words(t);
    assert(parts =~= seq![k, pool_id, d] + words(text));
    assert(parts.skip(3) =~= words(text));
}

/// Text that is one word arrives as exactly its UTF-8 bytes.
pub proof fn law_write_request_round_trip(pool_id: Seq<char>, offset: usize, text: Seq<char>)
    requires
        pool_id.len() > 0,
        no_white_space(pool_id),
        text.len() > 0,
        no_white_space(text),
    ensures
        ({
            let t = "WRITE "@ + pool_id + " "@ + decimal_text(offset as nat) + " "@ + text
                + "\n"@;
            parse_request_spec(encode_utf8(t), t) == RequestView::Write {
                pool_id,
                offset: offset as nat,
                data: encode_utf8(text),
            }
        }),
{
    law_write_request_words(pool_id, offset, text);
    lemma_words_single(text);
}

/// A one-word text written by the client into a pool, within its bounds,
/// is answered with the number of bytes written, and reading that range of
/// the pool afterwards gives the text's UTF-8 bytes.
pub proof fn law_text_write_lands(
    s: BridgeView,
    pool_id: Seq<char>,
    offset: usize,
    text: Seq<char>,
    uuid: Seq<char>,
    listing: Seq<Seq<char>>,
)
    requires
        s.inv(),
        s.pools.contains_key(pool_id),
        pool_id.len() > 0,
        no_white_space(pool_id),
        text.len() > 0,
        no_white_space(text),
        offset + encode_utf8(text).len() <= s.pools[pool_id].max_size,
    ensures
        ({
            let t = "WRITE "@ + pool_id + " "@ + decimal_text(offset as nat) + " "@ + text
                + "\n"@;
            let bytes = encode_utf8(text);
            let (s2, line) = respond_spec(s, parse_request_spec(encode_utf8(t), t), uuid, listing);
            &&& line == line_bytes(ok_line(decimal_text(bytes.len())))
            &&& spec_read(s2, pool_id, offset as nat, bytes.len()).1 == Ok::<
                Seq<u8>,
                Seq<char>,
            >(bytes)
        }),
{
    law_write_request_round_trip(pool_id, offset, text);
    law_read_after_write(s, pool_id, offset as nat, encode_utf8(text));
}

/// A liveness check is answered `PONG`, and the state is left as it was.
pub proof fn law_ping_answered(s: BridgeView, uuid: Seq<char>, listing: Seq<Seq<char>>)
    ensures
        ({
            let t = "PING\n"@;
            respond_spec(s, parse_request_spec(encode_utf8(t), t), uuid, listing) == (
                s,
                line_bytes("PONG"@),
            )
        }),
        trim("PONG"@ + "\n"@) == "PONG"@,
{
    lemma_keywords();
    reveal_strlit("PING\n");
    let k = "PING"@;
    lemma_plain_keyword(k);
    assert("PING\n"@ =~= k + seq!['\n'] + Seq::<char>::empty());
    lemma_words_split(k, '\n', Seq::<char>::empty());
    assert(words(Seq::<char>::empty()) =~= Seq::<Seq<char>>::empty());
    assert(words("PING\n"@) =~= seq![k]);
    assert("PONG"@ + "\n"@ =~= "PONG"@ + seq!['\n']);
    lemma_trim_line("PONG"@);
}


/// Pool ids are single words: non-empty and free of white space.
pub proof fn law_pool_ids_are_words(a: u32, b: u16)
    ensures
        pool_id_text(uuid_text(a, b)).len() > 0,
        no_white_space(pool_id_text(uuid_text(a, b))),
{
    crate::bridge::lemma_uuid_word(a, b);
    crate::bridge::lemma_pool_id_word(uuid_text(a, b));
}

/// The client reads an `OK` answer that carries an id, one word, as that id.
pub proof fn law_allocate_answer_round_trip(id: Seq<char>)
    requires
        id.len() > 0,
        no_white_space(id),
    ensures
        allocate_answer(ok_line(id) + "\n"@) == Ok::<Seq<char>, Seq<char>>(id),
{
    lemma_keywords();
    let line = ok_line(id);
    let ok = seq!['O', 'K'];
    assert(line =~= ok + seq![' '] + id);
    assert(line[0] == 'O');
    assert(line.last() == id.last());
    lemma_trim_line(line);
    assert(ok_line(id) + "\n"@ =~= line + seq!['\n']);
    lemma_plain_keyword(ok);
    lemma_words_single(id);
    lemma_words_split(ok, ' ', id);
    assert(words(line) =~= seq![ok, id]);
    assert(starts_ok(ok_line(id) + "\n"@));
}

/// An allocation within the limit, sent by the client and served, leaves a
/// zeroed pool of the requested size under a new id, and the client reads
/// that id from the answer.
pub proof fn law_allocation_exchange(
    s: BridgeView,
    name: Seq<char>,
    size_mb: usize,
    a: u32,
    b: u16,
    listing: Seq<Seq<char>>,
)
    requires
        s.inv(),
        name.len() > 0,
        no_white_space(name),
        size_mb * mib() <= s.max_single_pool,
    ensures
        ({
            let t = allocate_request_text(name, size_mb as nat);
            let (s2, line) = respond_spec(
                s,
                parse_request_spec(encode_utf8(t), t),
                uuid_text(a, b),
                listing,
            );
            let id = pool_id_text(uuid_text(a, b));
            &&& line == line_bytes(ok_line(id))
            &&& allocate_answer(ok_line(id) + "\n"@) == Ok::<Seq<char>, Seq<char>>(id)
            &&& s2.pools.contains_key(id)
            &&& s2.pools[id] == fresh_pool(id, (size_mb as nat) * mib())
        }),
{
    law_allocate_request_round_trip(name, size_mb);
    law_pool_ids_are_words(a, b);
    law_allocate_answer_round_trip(pool_id_text(uuid_text(a, b)));
}

} // verus!
