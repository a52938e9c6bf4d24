//! Every answer of the server is one line: its text holds no line feed, so
//! the line feed that the server writes after it ends it; only the answer
//! to a read goes on, after that line, with the bytes read.

use vstd::prelude::*;
use crate::bridge::{
    BridgeView, is_listing, lemma_pool_id_word, lemma_uuid_word, uuid_text, not_found_text, pool_id_text, pool_info_text,
    read_error_text, size_error_text, spec_allocate, spec_delete, spec_info, spec_read,
    spec_write, status_text, write_error_text,
};
use crate::encoding::{lemma_encode_no_line_feed, lemma_word_has_no_line_feed, no_line_feed};
use crate::pool::PoolView;
use crate::protocol::{
    RequestView, UsageKind, error_line, first_line_feed, join_list, line_bytes, list_line, mib,
    ok_line, respond_spec, step_ok, usage_text,
};
use crate::stream_laws::lemma_first_line_feed_after;
use crate::text::{decimal_text, lemma_decimal_text, no_white_space};

verus! {

/// Text that holds no line feed.
pub open spec fn single_line(x: Seq<char>) -> bool {
    forall|i: int| 0 <= i < x.len() ==> #[trigger] x[i] != '\n'
}

proof fn lemma_concat_single(a: Seq<char>, b: Seq<char>)
    requires
        single_line(a),
        single_line(b),
    ensures
        single_line(a + b),
{
    assert forall|i: int| 0 <= i < (a + b).len() implies #[trigger] (a + b)[i] != '\n' by {
        if i < a.len() {
            assert((a + b)[i] == a[i]);
        } else {
            assert((a + b)[i] == b[i - a.len()]);
        }
    }
}

proof fn lemma_word_single(w: Seq<char>)
    requires
        no_white_space(w),
    ensures
        single_line(w),
{
    lemma_word_has_no_line_feed(w);
}

proof fn lemma_decimal_single(n: nat)
    ensures
        single_line(decimal_text(n)),
{
    lemma_decimal_text(n);
    lemma_word_single(decimal_text(n));
}

proof fn lemma_join_list_single(ws: Seq<Seq<char>>)
    requires
        forall|i: int| 0 <= i < ws.len() ==> no_white_space(#[trigger] ws[i]),
    ensures
        single_line(join_list(ws)),
    decreases ws.len(),
{
    if ws.len() == 1 {
        lemma_word_single(ws[0]);
    } else if ws.len() > 1 {
        let front = ws.drop_last();
        assert forall|i: int| 0 <= i < front.len() implies no_white_space(#[trigger] front[i]) by {
            assert(front[i] == ws[i]);
        }
        lemma_join_list_single(front);
        lemma_word_single(ws.last());
        assert(single_line(seq![',', ' ']));
        lemma_concat_single(join_list(front), seq![',', ' ']);
        lemma_concat_single(join_list(front) + seq![',', ' '], ws.last());
    }
}

proof fn lemma_usage_single(k: UsageKind)
    ensures
        single_line(usage_text(k)),
{
    reveal_strlit("ERROR: ALLOCATE <name> <size_mb>");
    reveal_strlit("ERROR: WRITE <pool_id> <offset>");
    reveal_strlit("ERROR: WRITE_BIN <pool_id> <offset>");
    reveal_strlit("ERROR: READ <pool_id> <offset> <size>");
    reveal_strlit("ERROR: READ_BIN <pool_id> <offset> <size>");
    reveal_strlit("ERROR: DELETE <pool_id>");
    reveal_strlit("ERROR: INFO <pool_id>");
}

proof fn lemma_error_single(e: Seq<char>)
    requires
        single_line(e),
    ensures
        single_line(error_line(e)),
{
    reveal_strlit("ERROR: ");
    lemma_concat_single("ERROR: "@, e);
}

proof fn lemma_ok_single(x: Seq<char>)
    requires
        single_line(x),
    ensures
        single_line(ok_line(x)),
{
    reveal_strlit("OK ");
    lemma_concat_single("OK "@, x);
}

proof fn lemma_bridge_texts_single(s: BridgeView, a: nat, b: nat)
    ensures
        single_line(size_error_text(a, b)),
        single_line(write_error_text(a, b)),
        single_line(not_found_text()),
        single_line(read_error_text()),
        single_line(status_text(s)),
{
    reveal_strlit("Pool size ");
    reveal_strlit(" exceeds maximum ");
    reveal_strlit("Write exceeds pool size: ");
    reveal_strlit(" > ");
    reveal_strlit("Pool not found");
    reveal_strlit("Read exceeds pool size");
    reveal_strlit("Remote RAM: ");
    reveal_strlit("MB | Pools: ");
    reveal_strlit(" | Registered with system");
    lemma_decimal_single(a);
    lemma_decimal_single(b);
    lemma_concat_single("Pool size "@, decimal_text(a));
    lemma_concat_single("Pool size "@ + decimal_text(a), " exceeds maximum "@);
    lemma_concat_single("Pool size "@ + decimal_text(a) + " exceeds maximum "@, decimal_text(b));
    lemma_concat_single("Write exceeds pool size: "@, decimal_text(a));
    lemma_concat_single("Write exceeds pool size: "@ + decimal_text(a), " > "@);
    lemma_concat_single("Write exceeds pool size: "@ + decimal_text(a) + " > "@, decimal_text(b));
    let m = s.total_remote_ram / 1024 / 1024;
    let c = s.pools.len();
    lemma_decimal_single(m);
    lemma_decimal_single(c);
    lemma_concat_single("Remote RAM: "@, decimal_text(m));
    lemma_concat_single("Remote RAM: "@ + decimal_text(m), "MB | Pools: "@);
    lemma_concat_single("Remote RAM: "@ + decimal_text(m) + "MB | Pools: "@, decimal_text(c));
    lemma_concat_single(
        "Remote RAM: "@ + decimal_text(m) + "MB | Pools: "@ + decimal_text(c),
        " | Registered with system"@,
    );
}

proof fn lemma_pool_info_single(p: PoolView)
    ensures
        single_line(pool_info_text(p)),
{
    reveal_strlit("size=");
    reveal_strlit(" used=");
    reveal_strlit(" accesses=");
    lemma_decimal_single(p.max_size);
    lemma_decimal_single(p.current_size);
    lemma_decimal_single(p.access_count);
    let t1 = "size="@ + decimal_text(p.max_size);
    lemma_concat_single("size="@, decimal_text(p.max_size));
    lemma_concat_single(t1, " used="@);
    lemma_concat_single(t1 + " used="@, decimal_text(p.current_size));
    lemma_concat_single(t1 + " used="@ + decimal_text(p.current_size), " accesses="@);
    lemma_concat_single(
        t1 + " used="@ + decimal_text(p.current_size) + " accesses="@,
        decimal_text(p.access_count),
    );
}

/// Every answer starts with one line of text that holds no line feed, so
/// the line feed written after it ends it. Only the answer to a read that
/// succeeds goes on: after that line and a line feed come exactly the
/// bytes read. The random part of a new pool's id is one word, as are the
/// ids that a listing names.
pub proof fn law_answers_are_lines(
    s: BridgeView,
    req: RequestView,
    uuid: Seq<char>,
    listing: Seq<Seq<char>>,
)
    requires
        s.inv(),
        no_white_space(uuid),
        is_listing(listing, s.pools.dom()),
    ensures
        ({
            let reply = respond_spec(s, req, uuid, listing).1;
            match req {
                RequestView::Read { pool_id, offset, size } => match spec_read(
                    s,
                    pool_id,
                    offset,
                    size,
                ).1 {
                    Ok(d) => reply.len() > d.len() && first_line_feed(reply) == Some(
                        reply.len() - d.len() - 1,
                    ) && reply.skip(reply.len() - d.len()) == d,
                    Err(_) => no_line_feed(reply),
                },
                _ => no_line_feed(reply),
            }
        }),
{
    let reply = respond_spec(s, req, uuid, listing).1;
    match req {
        RequestView::Allocate { name, size_mb } => {
            lemma_bridge_texts_single(s, size_mb * mib(), s.max_single_pool);
            lemma_pool_id_word(uuid);
            lemma_word_single(pool_id_text(uuid));
            lemma_ok_single(pool_id_text(uuid));
            lemma_error_single(size_error_text(size_mb * mib(), s.max_single_pool));
            let (s2, r) = spec_allocate(s, size_mb * mib(), uuid);
            let line = match r {
                Ok(id) => ok_line(id),
                Err(e) => error_line(e),
            };
            lemma_encode_no_line_feed(line);
        },
        RequestView::Write { pool_id, offset, data } => {
            let max = if s.pools.contains_key(pool_id) { s.pools[pool_id].max_size } else { 0 };
            lemma_bridge_texts_single(s, offset + data.len(), max);
            lemma_error_single(not_found_text());
            lemma_error_single(write_error_text(offset + data.len(), max));
            lemma_decimal_single(data.len());
            lemma_ok_single(decimal_text(data.len()));
            let (s2, r) = spec_write(s, pool_id, offset, data);
            let line = match r {
                Ok(n) => ok_line(decimal_text(n)),
                Err(e) => error_line(e),
            };
            lemma_encode_no_line_feed(line);
        },
        RequestView::Read { pool_id, offset, size } => {
            lemma_bridge_texts_single(s, 0, 0);
            let (s2, r) = spec_read(s, pool_id, offset, size);
            match r {
                Ok(d) => {
                    lemma_decimal_single(d.len());
                    lemma_ok_single(decimal_text(d.len()));
                    let head = line_bytes(ok_line(decimal_text(d.len())));
                    lemma_encode_no_line_feed(ok_line(decimal_text(d.len())));
                    lemma_first_line_feed_after(head, d);
                    assert(reply == head + seq![10u8] + d);
                    assert(reply.skip(reply.len() - d.len()) =~= d);
                },
                Err(e) => {
                    lemma_error_single(e);
                    lemma_encode_no_line_feed(error_line(e));
                },
            }
        },
        RequestView::Delete { pool_id } => {
            reveal_strlit("OK");
            lemma_bridge_texts_single(s, 0, 0);
            lemma_error_single(not_found_text());
            let line = match spec_delete(s, pool_id).1 {
                Ok(_) => "OK"@,
                Err(e) => error_line(e),
            };
            lemma_encode_no_line_feed(line);
        },
        RequestView::Info { pool_id } => {
            lemma_bridge_texts_single(s, 0, 0);
            lemma_error_single(not_found_text());
            if s.pools.contains_key(pool_id) {
                lemma_pool_info_single(s.pools[pool_id]);
                lemma_ok_single(pool_info_text(s.pools[pool_id]));
            }
            let line = match spec_info(s, pool_id) {
                Ok(t) => ok_line(t),
                Err(e) => error_line(e),
            };
            lemma_encode_no_line_feed(line);
        },
        RequestView::List => {
            assert forall|i: int| 0 <= i < listing.len() implies no_white_space(
                #[trigger] listing[i],
            ) by {
                assert(listing.contains(listing[i]));
                assert(s.pools.contains_key(listing[i]));
            }
            lemma_join_list_single(listing);
            reveal_strlit("OK [");
            reveal_strlit("]");
            lemma_concat_single("OK ["@, join_list(listing));
            lemma_concat_single("OK ["@ + join_list(listing), "]"@);
            lemma_encode_no_line_feed(list_line(listing));
        },
        RequestView::Status => {
            lemma_bridge_texts_single(s, 0, 0);
            lemma_encode_no_line_feed(status_text(s));
        },
        RequestView::Ping => {
            reveal_strlit("PONG");
            lemma_encode_no_line_feed("PONG"@);
        },
        RequestView::Usage(k) => {
            lemma_usage_single(k);
            lemma_encode_no_line_feed(usage_text(k));
        },
        RequestView::Unknown => {
            reveal_strlit("ERROR: Unknown command");
            lemma_encode_no_line_feed("ERROR: Unknown command"@);
        },
    }
}

/// Whatever random id and order of the pools serving a request met, its
/// answer is a line as the law above says: without a line feed, except that
/// the answer to a read that succeeds is followed by the bytes read.
pub proof fn law_served_answer_is_a_line(
    s: BridgeView,
    req: RequestView,
    s2: BridgeView,
    reply: Seq<u8>,
)
    requires
        s.inv(),
        step_ok(s, req, s2, reply),
    ensures
        match req {
            RequestView::Read { pool_id, offset, size } => match spec_read(
                s,
                pool_id,
                offset,
                size,
            ).1 {
                Ok(d) => reply.len() > d.len() && first_line_feed(reply) == Some(
                    reply.len() - d.len() - 1,
                ) && reply.skip(reply.len() - d.len()) == d,
                Err(_) => no_line_feed(reply),
            },
            _ => no_line_feed(reply),
        },
{
    let (a, b, listing) = choose|a: u32, b: u16, listing: Seq<Seq<char>>|
        is_listing(listing, s.pools.dom()) && #[trigger] respond_spec(
            s,
            req,
            uuid_text(a, b),
            listing,
        ) == (s2, reply);
    lemma_uuid_word(a, b);
    law_answers_are_lines(s, req, uuid_text(a, b), listing);
}

} // verus!
