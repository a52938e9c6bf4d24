//! Laws that requests and answers keep their contents whole: the payload of
//! a binary write, every word of a text write, every pool of a listing, the
//! registered memory in a status line, and the high-water mark of a pool.

use vstd::prelude::*;
use crate::bridge::{BridgeView, pool_id_text, pool_info_text, spec_allocate, spec_delete, status_text};
use crate::client::{
    delete_request_text, info_request_text,
    is_bracket, joined_pieces, lemma_split_joined, list_answer, piece_end, split_list, trim_brackets,
    trim_brackets_end, trim_brackets_start,
};
use crate::encoding::{lossy_utf8, no_line_feed};
use crate::pool::{PoolView, next_count, overwrite, pool_after_write};
use crate::protocol::{RequestView, frame_spec, is_first_newline, parse_request_spec, join_list, join_words, list_line, number_or_zero};
use crate::laws::{lemma_keywords, lemma_plain_keyword};
use crate::stream_laws::lemma_first_line_feed_after;
use vstd::utf8::encode_utf8;
use crate::text::{
    all_digits, decimal_text, decimal_value, is_digit, is_white_space, lemma_decimal_text,
    lemma_trim_plain, lemma_words_single, lemma_words_split, no_white_space, parse_usize_spec,
    trim, words,
};

verus! {

/// A binary write whose header gives no byte count takes, as its data,
/// every byte buffered after the header's line feed, whatever they are
/// (a final line feed included), and consumes the whole buffer.
pub proof fn law_uncounted_binary_write_takes_the_rest(header: Seq<u8>, payload: Seq<u8>)
    requires
        no_line_feed(header),
        words(lossy_utf8(header)).len() >= 3,
        words(lossy_utf8(header))[0] == "WRITE_BIN"@,
        !(words(lossy_utf8(header)).len() >= 4 && parse_usize_spec(
            words(lossy_utf8(header))[3],
        ) is Some),
    ensures
        frame_spec(header + seq![10u8] + payload) == Some(
            (
                RequestView::Write {
                    pool_id: words(lossy_utf8(header))[1],
                    offset: number_or_zero(words(lossy_utf8(header))[2]),
                    data: payload,
                },
                (header.len() + 1 + payload.len()) as nat,
            ),
        ),
{
    let buf = header + seq![10u8] + payload;
    lemma_first_line_feed_after(header, payload);
    assert(buf.take(header.len() as int) =~= header);
    assert(buf.skip(header.len() + 1 as int) =~= payload);
}

/// Words joined by single spaces split back into the same words: a text
/// write keeps every one of its words, in order.
pub proof fn law_joined_words_split_back(ws: Seq<Seq<char>>)
    requires
        forall|i: int| 0 <= i < ws.len() ==> #[trigger] ws[i].len() > 0 && no_white_space(ws[i]),
    ensures
        words(join_words(ws)) == ws,
    decreases ws.len(),
{
    if ws.len() == 0 {
        assert(words(join_words(ws)) =~= ws);
    } else if ws.len() == 1 {
        assert(ws[0].len() > 0);
        lemma_words_single(ws[0]);
        assert(seq![ws[0]] =~= ws);
    } else {
        let front = ws.drop_last();
        assert forall|i: int| 0 <= i < front.len() implies #[trigger] front[i].len() > 0
            && no_white_space(front[i]) by {
            assert(front[i] == ws[i]);
            assert(ws[i].len() > 0);
        }
        law_joined_words_split_back(front);
        assert(ws.last().len() > 0);
        lemma_words_single(ws.last());
        assert(is_white_space(' '));
        lemma_words_split(join_words(front), ' ', ws.last());
        assert(front + seq![ws.last()] =~= ws);
    }
}

/// Writing a pool moves its high-water mark to the end of the write where
/// that lies beyond it, and leaves it where it was otherwise: the mark is
/// at least its old value and the end of the write, and it is one of them.
pub proof fn law_high_water_mark(p: PoolView, offset: nat, bytes: Seq<u8>)
    ensures
        pool_after_write(p, offset, bytes).current_size >= p.current_size,
        pool_after_write(p, offset, bytes).current_size >= offset + bytes.len(),
        pool_after_write(p, offset, bytes).current_size == p.current_size
            || pool_after_write(p, offset, bytes).current_size == offset + bytes.len(),
{
}

/// Writing the same bytes to the same place twice leaves the pool as one
/// write did, but for one more access.
pub proof fn law_rewrite_only_counts(p: PoolView, offset: nat, bytes: Seq<u8>)
    requires
        offset + bytes.len() <= p.data.len(),
    ensures
        pool_after_write(pool_after_write(p, offset, bytes), offset, bytes) == (PoolView {
            access_count: next_count(next_count(p.access_count)),
            ..pool_after_write(p, offset, bytes)
        }),
{
    let d1 = overwrite(p.data, offset, bytes);
    let d2 = overwrite(d1, offset, bytes);
    assert(d1.len() == p.data.len());
    assert(d2 =~= d1);
}

/// Text without white space holds no separator `, `.
proof fn lemma_word_has_no_separator(w: Seq<char>)
    requires
        no_white_space(w),
    ensures
        piece_end(w) == w.len(),
    decreases w.len(),
{
    if w.len() >= 2 {
        assert(!is_white_space(w[1]));
        let r = w.drop_first();
        assert forall|i: int| 0 <= i < r.len() implies !is_white_space(#[trigger] r[i]) by {
            assert(r[i] == w[i + 1]);
        }
        lemma_word_has_no_separator(r);
    }
}

/// A non-empty listing is its first pieces, each followed by `, `, and
/// then its last one.
proof fn lemma_join_list_pieces(ws: Seq<Seq<char>>)
    requires
        ws.len() > 0,
    ensures
        join_list(ws) == joined_pieces(ws.drop_last()) + ws.last(),
    decreases ws.len(),
{
    if ws.len() == 1 {
        assert(joined_pieces(ws.drop_last()) + ws.last() =~= ws[0]);
    } else {
        let front = ws.drop_last();
        lemma_join_list_pieces(front);
        assert(front.drop_last() == ws.drop_last().drop_last());
        assert(joined_pieces(front) =~= joined_pieces(front.drop_last()) + front.last() + seq![
            ',',
            ' ',
        ]);
        assert(join_list(ws) =~= joined_pieces(front) + ws.last());
    }
}

/// The first character of pieces joined with separators is that of the
/// first piece.
proof fn lemma_joined_pieces_first(ws: Seq<Seq<char>>)
    requires
        ws.len() > 0,
        ws[0].len() > 0,
    ensures
        joined_pieces(ws).len() > 0,
        joined_pieces(ws)[0] == ws[0][0],
    decreases ws.len(),
{
    let front = ws.drop_last();
    let t = joined_pieces(ws);
    assert(t == joined_pieces(front) + ws.last() + seq![',', ' ']);
    if ws.len() == 1 {
        assert(joined_pieces(front) =~= Seq::<char>::empty());
        assert(t[0] == ws.last()[0]);
    } else {
        assert(front[0] == ws[0]);
        lemma_joined_pieces_first(front);
        assert(t[0] == joined_pieces(front)[0]);
    }
}

/// Pool ids joined with `, ` split back into the same ids: a listing names
/// every pool, in its order.
pub proof fn law_listing_splits_back(ws: Seq<Seq<char>>)
    requires
        ws.len() > 0,
        forall|i: int| 0 <= i < ws.len() ==> no_white_space(#[trigger] ws[i]),
    ensures
        split_list(join_list(ws)) == ws,
{
    let front = ws.drop_last();
    assert forall|j: int| 0 <= j < front.len() implies piece_end(#[trigger] front[j])
        == front[j].len() by {
        assert(front[j] == ws[j]);
        lemma_word_has_no_separator(ws[j]);
    }
    lemma_join_list_pieces(ws);
    lemma_split_joined(front, ws.last());
    lemma_word_has_no_separator(ws.last());
    assert(split_list(ws.last()) == seq![ws.last()]);
    assert(front + seq![ws.last()] =~= ws);
}

/// The client reads the server's answer to a listing back as exactly the
/// pools listed, in order, where the ids are words that neither start nor
/// end with a bracket.
pub proof fn law_list_answer_round_trip(ws: Seq<Seq<char>>)
    requires
        ws.len() > 0,
        forall|i: int| 0 <= i < ws.len() ==> #[trigger] ws[i].len() > 0 && no_white_space(ws[i]),
        !is_bracket(ws[0][0]),
        !is_bracket(ws.last().last()),
    ensures
        list_answer(list_line(ws)) == Ok::<Seq<Seq<char>>, Seq<char>>(ws),
{
    reveal_strlit("OK [");
    reveal_strlit("]");
    assert forall|i: int| 0 <= i < ws.len() implies no_white_space(#[trigger] ws[i]) by {
        assert(ws[i].len() > 0 && no_white_space(ws[i]));
    }
    law_listing_splits_back(ws);
    let j = join_list(ws);
    lemma_join_list_pieces(ws);
    let front = ws.drop_last();
    assert(ws.last().len() > 0) by {
        assert(ws[ws.len() - 1].len() > 0);
    }
    assert(ws[0].len() > 0);
    assert(j.len() > 0 && j[0] != '[' && j[0] != ']') by {
        if front.len() > 0 {
            assert(front[0] == ws[0]);
            lemma_joined_pieces_first(front);
            assert(j[0] == joined_pieces(front)[0]);
        } else {
            assert(j =~= ws[0]);
        }
        assert(!is_white_space(ws[0][0]));
    }
    assert(j.last() == ws.last().last());
    let text = list_line(ws);
    assert(text =~= seq!['O', 'K', ' ', '['] + j + seq![']']);
    lemma_trim_plain(text);
    let inner = seq!['['] + j + seq![']'];
    assert(text.skip(3) =~= inner);
    assert(inner.drop_first() =~= j + seq![']']);
    assert(trim_brackets_start(inner) == trim_brackets_start(j + seq![']']));
    assert((j + seq![']'])[0] == j[0]);
    assert(trim_brackets_start(j + seq![']']) == j + seq![']']);
    assert((j + seq![']']).drop_last() =~= j);
    assert(trim_brackets_end(j + seq![']']) == trim_brackets_end(j));
    assert(trim_brackets_end(j) == j);
    assert(trim_brackets(inner) == j);
}

/// How many digits `t` starts with.
pub open spec fn digit_run(t: Seq<char>) -> nat
    decreases t.len(),
{
    if t.len() > 0 && is_digit(t[0]) {
        1 + digit_run(t.drop_first())
    } else {
        0
    }
}

proof fn lemma_digit_run(d: Seq<char>, r: Seq<char>)
    requires
        all_digits(d),
        r.len() == 0 || !is_digit(r[0]),
    ensures
        digit_run(d + r) == d.len(),
    decreases d.len(),
{
    if d.len() == 0 {
        assert(d + r =~= r);
    } else {
        assert((d + r)[0] == d[0]);
        assert((d + r).drop_first() =~= d.drop_first() + r);
        lemma_digit_run(d.drop_first(), r);
    }
}

/// The status line starts with `Remote RAM: ` and then the registered
/// memory in whole MiB, as decimal digits followed by `MB | Pools: ` and
/// the number of pools.
#[verifier::spinoff_prover]
#[verifier::rlimit(40)]
pub proof fn law_status_reports_memory_and_pools(s: BridgeView)
    ensures
        ({
            let t = status_text(s);
            let m = t.skip(12);
            let k = digit_run(m);
            let rest = m.skip(k + 12 as int);
            &&& t.take(12) == "Remote RAM: "@
            &&& k > 0
            &&& decimal_value(m.take(k as int)) == s.total_remote_ram / 1048576
            &&& m.skip(k as int).take(12) == "MB | Pools: "@
            &&& digit_run(rest) > 0
            &&& decimal_value(rest.take(digit_run(rest) as int)) == s.pools.len()
        }),
{
    reveal_strlit("Remote RAM: ");
    reveal_strlit("MB | Pools: ");
    reveal_strlit(" | Registered with system");
    let mb = s.total_remote_ram / 1024 / 1024;
    vstd::arithmetic::div_mod::lemma_div_denominator(s.total_remote_ram as int, 1024, 1024);
    assert(mb == s.total_remote_ram / 1048576);
    let c = s.pools.len();
    lemma_decimal_text(mb);
    lemma_decimal_text(c);
    let dm = decimal_text(mb);
    let dc = decimal_text(c);
    let tail = " | Registered with system"@;
    let t = status_text(s);
    assert(t =~= "Remote RAM: "@ + dm + "MB | Pools: "@ + dc + tail);
    let m = t.skip(12);
    assert(t.take(12) =~= "Remote RAM: "@);
    assert(m =~= dm + ("MB | Pools: "@ + dc + tail));
    lemma_digit_run(dm, "MB | Pools: "@ + dc + tail);
    assert(m.take(dm.len() as int) =~= dm);
    assert(m.skip(dm.len() as int).take(12) =~= "MB | Pools: "@);
    let rest = m.skip(dm.len() + 12 as int);
    assert(rest =~= dc + tail);
    lemma_digit_run(dc, tail);
    assert(rest.take(dc.len() as int) =~= dc);
}

/// Deleting a pool just allocated undoes the allocation: the table and
/// the registered total are as they were before.
pub proof fn law_delete_undoes_allocate(s: BridgeView, size: nat, uuid: Seq<char>)
    requires
        size <= s.max_single_pool,
        !s.pools.contains_key(pool_id_text(uuid)),
    ensures
        spec_allocate(s, size, uuid).1 == Ok::<Seq<char>, Seq<char>>(pool_id_text(uuid)),
        spec_delete(spec_allocate(s, size, uuid).0, pool_id_text(uuid)) == (s, Ok::<
            (),
            Seq<char>,
        >(())),
{
    let id = pool_id_text(uuid);
    let s1 = spec_allocate(s, size, uuid).0;
    assert(s1.pools.remove(id) =~= s.pools);
}

/// The description of a pool gives, as decimal numbers, its size after
/// `size=`, its high-water mark after ` used=` and its access count after
/// ` accesses=`, which ends it.
#[verifier::spinoff_prover]
#[verifier::rlimit(40)]
pub proof fn law_info_reports_pool(p: PoolView)
    ensures
        ({
            let t = pool_info_text(p);
            let a = t.skip(5);
            let ka = digit_run(a);
            let b = a.skip(ka + 6 as int);
            let kb = digit_run(b);
            let c = b.skip(kb + 10 as int);
            &&& t.take(5) == "size="@
            &&& ka > 0 && decimal_value(a.take(ka as int)) == p.max_size
            &&& a.skip(ka as int).take(6) == " used="@
            &&& kb > 0 && decimal_value(b.take(kb as int)) == p.current_size
            &&& b.skip(kb as int).take(10) == " accesses="@
            &&& digit_run(c) == c.len() && c.len() > 0
            &&& decimal_value(c) == p.access_count
        }),
{
    reveal_strlit("size=");
    reveal_strlit(" used=");
    reveal_strlit(" accesses=");
    lemma_decimal_text(p.max_size);
    lemma_decimal_text(p.current_size);
    lemma_decimal_text(p.access_count);
    let da = decimal_text(p.max_size);
    let db = decimal_text(p.current_size);
    let dc = decimal_text(p.access_count);
    let t = pool_info_text(p);
    assert(t =~= "size="@ + da + " used="@ + db + " accesses="@ + dc);
    assert(t.take(5) =~= "size="@);
    let a = t.skip(5);
    assert(a =~= da + (" used="@ + db + " accesses="@ + dc));
    lemma_digit_run(da, " used="@ + db + " accesses="@ + dc);
    assert(a.take(da.len() as int) =~= da);
    assert(a.skip(da.len() as int).take(6) =~= " used="@);
    let b = a.skip(da.len() + 6 as int);
    assert(b =~= db + (" accesses="@ + dc));
    lemma_digit_run(db, " accesses="@ + dc);
    assert(b.take(db.len() as int) =~= db);
    assert(b.skip(db.len() as int).take(10) =~= " accesses="@);
    let c = b.skip(db.len() + 10 as int);
    assert(c =~= dc);
    lemma_digit_run(dc, Seq::<char>::empty());
    assert(dc + Seq::<char>::empty() =~= dc);
}

/// The words of a command keyword, a space, one word and a line feed.
proof fn lemma_command_with_id(k: Seq<char>, id: Seq<char>)
    requires
        k.len() > 0,
        no_white_space(k),
        id.len() > 0,
        no_white_space(id),
    ensures
        words(k + seq![' '] + (id + seq!['\n'])) == seq![k, id],
{
    lemma_words_single(k);
    lemma_words_single(id);
    assert(is_white_space('\n') && is_white_space(' '));
    assert(id + seq!['\n'] =~= id + seq!['\n'] + Seq::<char>::empty());
    lemma_words_split(id, '\n', Seq::<char>::empty());
    assert(words(Seq::<char>::empty()) =~= Seq::<Seq<char>>::empty());
    assert(words(id + seq!['\n']) =~= seq![id]);
    lemma_words_split(k, ' ', id + seq!['\n']);
    assert(seq![k] + seq![id] =~= seq![k, id]);
}

/// The server reads the client's deletion request back as a deletion of
/// the pool the client named, where the id is one word.
pub proof fn law_delete_request_round_trip(pool_id: Seq<char>)
    requires
        pool_id.len() > 0,
        no_white_space(pool_id),
    ensures
        ({
            let t = delete_request_text(pool_id);
            parse_request_spec(encode_utf8(t), t) == RequestView::Delete { pool_id }
        }),
{
    lemma_keywords();
    reveal_strlit("DELETE ");
    let k = "DELETE"@;
    lemma_plain_keyword(k);
    lemma_command_with_id(k, pool_id);
    assert(delete_request_text(pool_id) =~= k + seq![' '] + (pool_id + seq!['\n']));
}

/// The server reads the client's description request back as a request
/// to describe the pool the client named, where the id is one word.
pub proof fn law_info_request_round_trip(pool_id: Seq<char>)
    requires
        pool_id.len() > 0,
        no_white_space(pool_id),
    ensures
        ({
            let t = info_request_text(pool_id);
            parse_request_spec(encode_utf8(t), t) == RequestView::Info { pool_id }
        }),
{
    lemma_keywords();
    reveal_strlit("INFO ");
    let k = "INFO"@;
    lemma_plain_keyword(k);
    lemma_command_with_id(k, pool_id);
    assert(info_request_text(pool_id) =~= k + seq![' '] + (pool_id + seq!['\n']));
}

/// Bytes without a line feed are not yet a request: the server waits for
/// more.
pub proof fn law_no_request_before_a_line_feed(buf: Seq<u8>)
    requires
        no_line_feed(buf),
    ensures
        frame_spec(buf) == None::<(RequestView, nat)>,
{
    assert forall|i: int| !is_first_newline(buf, i) by {
        if 0 <= i < buf.len() {
            assert(buf[i] != 10u8);
        }
    }
}

/// A binary write whose header counts more bytes than have arrived after
/// its line feed is not yet a request: the server waits for the rest.
pub proof fn law_counted_write_waits_for_its_bytes(header: Seq<u8>, part: Seq<u8>)
    requires
        no_line_feed(header),
        words(lossy_utf8(header)).len() >= 4,
        words(lossy_utf8(header))[0] == "WRITE_BIN"@,
        parse_usize_spec(words(lossy_utf8(header))[3]) is Some,
        part.len() < parse_usize_spec(words(lossy_utf8(header))[3])->Some_0,
    ensures
        frame_spec(header + seq![10u8] + part) == None::<(RequestView, nat)>,
{
    let buf = header + seq![10u8] + part;
    lemma_first_line_feed_after(header, part);
    assert(buf.take(header.len() as int) =~= header);
}

} // verus!
