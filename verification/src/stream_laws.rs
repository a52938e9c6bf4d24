//! Laws of the request stream: how buffered bytes are cut into requests,
//! that each request gets exactly one answer, and what the client makes of
//! the server's answers to its binary writes and reads.

use vstd::prelude::*;
use vstd::utf8::encode_utf8;
use crate::bridge::{BridgeView, spec_delete, spec_read, spec_write, not_found_text};
use crate::client::{
    read_answer, read_answer_complete, second_word, starts_ok, write_header_text,
    write_request_bytes,
};
use crate::encoding::{
    lemma_encode_concat, lemma_encode_no_line_feed, lemma_word_has_no_line_feed, lossy_utf8,
    no_line_feed,
};
use crate::laws::{lemma_keywords, lemma_plain_keyword, law_read_after_write};
use crate::protocol::{
    RequestView, data_answer, first_line_feed, frame_spec, is_first_newline, line_bytes,
    number_or_zero, ok_line, parse_request_spec, respond_spec, serves, step_ok,
};
use crate::text::{
    decimal_text, lemma_decimal_text, lemma_parse_decimal, lemma_trim_plain, lemma_words_single,
    lemma_words_split, no_white_space, trim, words,
};

verus! {

/// After bytes without a line feed, the first line feed is the one that
/// follows them.
pub proof fn lemma_first_line_feed_after(a: Seq<u8>, rest: Seq<u8>)
    requires
        no_line_feed(a),
    ensures
        first_line_feed(a + seq![10u8] + rest) == Some(a.len() as int),
{
    let b = a + seq![10u8] + rest;
    let n = a.len() as int;
    assert(b[n] == 10u8);
    assert forall|j: int| 0 <= j < n implies b[j] != 10u8 by {
        assert(b[j] == a[j]);
    }
    assert(is_first_newline(b, n));
    assert forall|k: int| is_first_newline(b, k) implies k == n by {
        if k < n {
            assert(b[k] == a[k]);
        }
    }
}

/// A header line of text that is not a binary write.
pub open spec fn is_text_line(a: Seq<u8>) -> bool {
    let parts = words(lossy_utf8(a));
    &&& no_line_feed(a)
    &&& !(parts.len() >= 3 && parts[0] == "WRITE_BIN"@)
}

/// A line of text ended by a line feed is one request: the one its text
/// makes, taking the line and its line feed.
pub proof fn law_text_line_is_one_request(a: Seq<u8>, rest: Seq<u8>)
    requires
        is_text_line(a),
    ensures
        frame_spec(a + seq![10u8] + rest) == Some(
            (parse_request_spec(a, lossy_utf8(a)), (a.len() + 1) as nat),
        ),
{
    lemma_first_line_feed_after(a, rest);
    assert((a + seq![10u8] + rest).take(a.len() as int) =~= a);
}

/// The lines `lines`, each ended by a line feed, one after another.
pub open spec fn join_lines(lines: Seq<Seq<u8>>) -> Seq<u8>
    decreases lines.len(),
{
    if lines.len() == 0 {
        Seq::empty()
    } else {
        lines[0] + seq![10u8] + join_lines(lines.drop_first())
    }
}

/// Answering the request lines `lines` in turn, from state `s`, may end in
/// state `s2` having written `out`: one answer and a line feed for each
/// line, in order.
pub open spec fn answers_each(s: BridgeView, lines: Seq<Seq<u8>>, s2: BridgeView, out: Seq<u8>) -> bool
    decreases lines.len(),
{
    if lines.len() == 0 {
        s2 == s && out == Seq::<u8>::empty()
    } else {
        exists|mid: BridgeView, reply: Seq<u8>|
            #[trigger] step_ok(
                s,
                parse_request_spec(lines[0], lossy_utf8(lines[0])),
                mid,
                reply,
            ) && out.len() >= reply.len() + 1 && out.take(reply.len() + 1 as int) == reply.push(
                10u8,
            ) && answers_each(mid, lines.drop_first(), s2, out.skip(reply.len() + 1 as int))
    }
}

/// Pipelining: when several request lines arrive together, serving them
/// takes all of them and writes exactly one answer line for each, in order.
pub proof fn law_each_line_one_answer(
    s: BridgeView,
    lines: Seq<Seq<u8>>,
    s2: BridgeView,
    out: Seq<u8>,
    consumed: int,
    halted: bool,
)
    requires
        forall|i: int| 0 <= i < lines.len() ==> is_text_line(#[trigger] lines[i]),
        serves(s, join_lines(lines), s2, out, consumed, halted),
        !halted,
    ensures
        consumed == join_lines(lines).len(),
        answers_each(s, lines, s2, out),
    decreases lines.len(),
{
    let buf = join_lines(lines);
    if lines.len() == 0 {
        assert(first_line_feed(buf) == None::<int>);
    } else {
        let rest = join_lines(lines.drop_first());
        assert(is_text_line(lines[0]));
        law_text_line_is_one_request(lines[0], rest);
        let req = parse_request_spec(lines[0], lossy_utf8(lines[0]));
        let used = lines[0].len() + 1;
        assert(buf.skip(used as int) =~= rest);
        let (mid, reply) = choose|mid: BridgeView, reply: Seq<u8>|
            #[trigger] step_ok(s, req, mid, reply) && out.len() >= reply.len() + 1 && out.take(
                reply.len() + 1 as int,
            ) == reply.push(10u8) && serves(
                mid,
                buf.skip(used as int),
                s2,
                out.skip(reply.len() + 1 as int),
                consumed - used,
                halted,
            );
        assert forall|i: int| 0 <= i < lines.drop_first().len() implies is_text_line(
            #[trigger] lines.drop_first()[i],
        ) by {
            assert(lines.drop_first()[i] == lines[i + 1]);
        }
        law_each_line_one_answer(
            mid,
            lines.drop_first(),
            s2,
            out.skip(reply.len() + 1 as int),
            consumed - used,
            halted,
        );
        assert(rest.len() + used == buf.len());
    }
}

proof fn lemma_line_feed_bytes()
    ensures
        encode_utf8(seq!['\n']) == seq![10u8],
{
    let v = '\n' as u32;
    assert(v == 10);
    assert((v & 0x7F) as u8 == 10u8) by (bit_vector)
        requires
            v == 10,
    ;
    assert(encode_utf8(seq!['\n']) =~= vstd::utf8::encode_scalar(v) + encode_utf8(
        seq!['\n'].drop_first(),
    ));
    assert(seq!['\n'].drop_first() =~= Seq::<char>::empty());
}

/// The words of a binary write's header.
proof fn lemma_write_header_words(pool_id: Seq<char>, offset: nat, len: nat)
    requires
        pool_id.len() > 0,
        no_white_space(pool_id),
    ensures
        words(write_header_text(pool_id, offset, len)) == seq![
            "WRITE_BIN"@,
            pool_id,
            decimal_text(offset),
            decimal_text(len),
        ],
        forall|i: int|
            0 <= i < write_header_text(pool_id, offset, len).len() ==> #[trigger] write_header_text(
                pool_id,
                offset,
                len,
            )[i] != '\n',
{
    lemma_keywords();
    reveal_strlit("WRITE_BIN ");
    let k = "WRITE_BIN"@;
    let d1 = decimal_text(offset);
    let d2 = decimal_text(len);
    lemma_decimal_text(offset);
    lemma_decimal_text(len);
    lemma_plain_keyword(k);
    lemma_words_single(pool_id);
    lemma_words_single(d1);
    lemma_words_single(d2);
    lemma_words_split(d1, ' ', d2);
    let r1 = d1 + seq![' '] + d2;
    lemma_words_split(pool_id, ' ', r1);
    let r2 = pool_id + seq![' '] + r1;
    lemma_words_split(k, ' ', r2);
    let h = write_header_text(pool_id, offset, len);
    assert(h =~= k + seq![' '] + r2);
    assert(words(h) =~= seq![k, pool_id, d1, d2]);
    assert forall|i: int| 0 <= i < h.len() implies #[trigger] h[i] != '\n' by {
        if i < 10 {
        } else if i < 10 + pool_id.len() {
            assert(h[i] == pool_id[i - 10]);
        } else if i == 10 + pool_id.len() {
        } else if i < 11 + pool_id.len() + d1.len() {
            assert(h[i] == d1[i - 11 - pool_id.len()]);
        } else if i == 11 + pool_id.len() + d1.len() {
        } else {
            assert(h[i] == d2[i - 12 - pool_id.len() - d1.len()]);
        }
    }
}

/// The client's binary write is cut from the stream as one write of exactly
/// its bytes, at the pool and offset given, however many line feeds or
/// other bytes the data holds. (`decode_lossy` gives back the header's own
/// text, as it does for all valid UTF-8.)
pub proof fn law_binary_write_is_one_request(pool_id: Seq<char>, offset: usize, data: Seq<u8>)
    requires
        pool_id.len() > 0,
        no_white_space(pool_id),
        data.len() <= usize::MAX,
        lossy_utf8(encode_utf8(write_header_text(pool_id, offset as nat, data.len())))
            == write_header_text(pool_id, offset as nat, data.len()),
    ensures
        frame_spec(write_request_bytes(pool_id, offset as nat, data)) == Some(
            (
                RequestView::Write { pool_id, offset: offset as nat, data },
                write_request_bytes(pool_id, offset as nat, data).len(),
            ),
        ),
{
    lemma_keywords();
    let h = write_header_text(pool_id, offset as nat, data.len());
    lemma_write_header_words(pool_id, offset as nat, data.len());
    lemma_encode_concat(h, "\n"@);
    lemma_line_feed_bytes();
    assert("\n"@ == seq!['\n']);
    lemma_encode_no_line_feed(h);
    let eh = encode_utf8(h);
    let b = write_request_bytes(pool_id, offset as nat, data);
    assert(b =~= eh + seq![10u8] + data);
    lemma_first_line_feed_after(eh, data);
    assert(b.take(eh.len() as int) =~= eh);
    lemma_parse_decimal(offset);
    lemma_parse_decimal(data.len() as usize);
    assert(b.subrange(eh.len() + 1 as int, eh.len() + 1 + data.len() as int) =~= data);
}

/// A binary write from the client to a pool, within its bounds, is answered
/// with the number of bytes written, and reading the range afterwards gives
/// back exactly those bytes.
pub proof fn law_binary_write_lands(
    s: BridgeView,
    pool_id: Seq<char>,
    offset: usize,
    data: Seq<u8>,
    uuid: Seq<char>,
    listing: Seq<Seq<char>>,
)
    requires
        s.inv(),
        s.pools.contains_key(pool_id),
        pool_id.len() > 0,
        no_white_space(pool_id),
        offset + data.len() <= s.pools[pool_id].max_size,
        lossy_utf8(encode_utf8(write_header_text(pool_id, offset as nat, data.len())))
            == write_header_text(pool_id, offset as nat, data.len()),
    ensures
        ({
            let req = frame_spec(write_request_bytes(pool_id, offset as nat, data))->Some_0.0;
            let (s2, reply) = respond_spec(s, req, uuid, listing);
            &&& reply == line_bytes(ok_line(decimal_text(data.len())))
            &&& spec_read(s2, pool_id, offset as nat, data.len()).1 == Ok::<Seq<u8>, Seq<char>>(
                data,
            )
        }),
{
    law_binary_write_is_one_request(pool_id, offset, data);
    law_read_after_write(s, pool_id, offset as nat, data);
}

/// The client reads the server's answer to a read, `OK <count>`, a line
/// feed, the bytes and the closing line feed, as exactly those bytes, and
/// sees the answer as complete. (`decode_lossy` gives back the header's own
/// text, as it does for all valid UTF-8.)
pub proof fn law_read_answer_round_trip(d: Seq<u8>)
    requires
        d.len() <= usize::MAX,
        lossy_utf8(encode_utf8(ok_line(decimal_text(d.len())))) == ok_line(
            decimal_text(d.len()),
        ),
    ensures
        read_answer(data_answer(d) + seq![10u8]) == Ok::<Seq<u8>, Seq<char>>(d),
        read_answer_complete(data_answer(d) + seq![10u8]),
{
    lemma_keywords();
    let dec = decimal_text(d.len());
    lemma_decimal_text(d.len());
    let hdr = ok_line(dec);
    let ok = seq!['O', 'K'];
    assert(hdr =~= ok + seq![' '] + dec);
    lemma_word_has_no_line_feed(dec);
    assert forall|i: int| 0 <= i < hdr.len() implies #[trigger] hdr[i] != '\n' by {
        if i >= 3 {
            assert(hdr[i] == dec[i - 3]);
        }
    }
    lemma_encode_no_line_feed(hdr);
    let eh = encode_utf8(hdr);
    let resp = data_answer(d) + seq![10u8];
    assert(resp =~= eh + seq![10u8] + (d + seq![10u8]));
    lemma_first_line_feed_after(eh, d + seq![10u8]);
    assert(resp.take(eh.len() as int) =~= eh);
    assert(starts_ok(hdr));
    assert(hdr.last() == dec.last());
    lemma_trim_plain(hdr);
    lemma_plain_keyword(ok);
    lemma_words_single(dec);
    lemma_words_split(ok, ' ', dec);
    assert(words(hdr) =~= seq![ok, dec]);
    assert(second_word(hdr) == dec);
    lemma_parse_decimal(d.len() as usize);
    assert(number_or_zero(dec) == d.len());
    assert(resp.subrange(eh.len() + 1 as int, eh.len() + 1 + d.len() as int) =~= d);
}

/// A read of a range just written is answered with the bytes written, and
/// the client reads them back from the answer.
pub proof fn law_read_back_exchange(
    s: BridgeView,
    pool_id: Seq<char>,
    offset: nat,
    data: Seq<u8>,
    uuid: Seq<char>,
    listing: Seq<Seq<char>>,
)
    requires
        s.inv(),
        spec_write(s, pool_id, offset, data).1 is Ok,
        lossy_utf8(encode_utf8(ok_line(decimal_text(data.len())))) == ok_line(
            decimal_text(data.len()),
        ),
    ensures
        ({
            let s1 = spec_write(s, pool_id, offset, data).0;
            let (s2, reply) = respond_spec(
                s1,
                RequestView::Read { pool_id, offset, size: data.len() },
                uuid,
                listing,
            );
            &&& reply == data_answer(data)
            &&& read_answer(reply + seq![10u8]) == Ok::<Seq<u8>, Seq<char>>(data)
        }),
{
    law_read_after_write(s, pool_id, offset, data);
    law_read_answer_round_trip(data);
}

/// A deletion succeeds exactly for a stored pool; afterwards the pool is
/// gone, and a read of it is refused as not found.
pub proof fn law_delete_removes(s: BridgeView, pool_id: Seq<char>, at: nat, len: nat)
    ensures
        (spec_delete(s, pool_id).1 is Ok) == s.pools.contains_key(pool_id),
        !spec_delete(s, pool_id).0.pools.contains_key(pool_id),
        spec_read(spec_delete(s, pool_id).0, pool_id, at, len).1 == Err::<Seq<u8>, Seq<char>>(
            not_found_text(),
        ),
{
}

/// The name of an allocation only labels it: the state and the answer do
/// not depend on it.
pub proof fn law_allocation_name_is_a_label(
    s: BridgeView,
    n1: Seq<char>,
    n2: Seq<char>,
    size_mb: nat,
    uuid: Seq<char>,
    listing: Seq<Seq<char>>,
)
    ensures
        respond_spec(s, RequestView::Allocate { name: n1, size_mb }, uuid, listing)
            == respond_spec(s, RequestView::Allocate { name: n2, size_mb }, uuid, listing),
{
}

} // verus!
