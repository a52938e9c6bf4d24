//! The memory bridge: the table of pools, the memory registered with the
//! system so far, and the operations that the server offers on them.

use vstd::prelude::*;
use dashmap::DashMap;
use crate::encoding::{string_of, string_views};
use crate::pool::{MemoryPool, PoolView, fresh_pool, pool_after_read, pool_after_write};
use crate::table::{table_contains, table_contents, table_insert, table_keys, table_len, table_new, table_remove};
use crate::text::{decimal, decimal_text, hex_digit_char, hex_digits, hex_text, is_white_space, no_white_space};

verus! {

/// The mathematical state of a bridge.
pub struct BridgeView {
    pub pools: Map<Seq<char>, PoolView>,
    pub total_remote_ram: nat,
    pub max_single_pool: nat,
    pub auto_register_syscalls: bool,
    pub registers_with_system: bool,
}

impl BridgeView {
    /// The table is finite, each pool is well formed and stored under its own
    /// id, and the counters fit machine words.
    pub open spec fn inv(self) -> bool {
        &&& self.pools.dom().finite()
        &&& forall|k: Seq<char>| #[trigger]
            self.pools.contains_key(k) ==> self.pools[k].wf() && self.pools[k].id == k
                && no_white_space(k)
        &&& self.total_remote_ram <= usize::MAX
        &&& self.max_single_pool <= usize::MAX
    }
}

/// The random part of a pool id made from two random words: the first as
/// eight hexadecimal digits, the second as four.
pub open spec fn uuid_text(a: u32, b: u16) -> Seq<char> {
    hex_text(a as nat, 8) + hex_text(b as nat, 4)
}

proof fn lemma_hex_text_plain(n: nat, w: nat)
    ensures
        no_white_space(hex_text(n, w)),
        hex_text(n, w).len() == w,
    decreases w,
{
    if w > 0 {
        lemma_hex_text_plain(n / 16, (w - 1) as nat);
        let t = hex_text(n, w);
        let c = hex_digit_char(n % 16);
        assert(c as u32 == 0x30 + n % 16 || c as u32 == 0x57 + n % 16);
        assert forall|i: int| 0 <= i < t.len() implies !is_white_space(#[trigger] t[i]) by {
            if i < t.len() - 1 {
                assert(t[i] == hex_text(n / 16, (w - 1) as nat)[i]);
            }
        }
    }
}

/// The random part of a pool id is one word of twelve characters.
pub proof fn lemma_uuid_word(a: u32, b: u16)
    ensures
        no_white_space(uuid_text(a, b)),
        uuid_text(a, b).len() == 12,
{
    lemma_hex_text_plain(a as nat, 8);
    lemma_hex_text_plain(b as nat, 4);
    let h = uuid_text(a, b);
    assert forall|i: int| 0 <= i < h.len() implies !is_white_space(#[trigger] h[i]) by {
        if i < 8 {
            assert(h[i] == hex_text(a as nat, 8)[i]);
        } else {
            assert(h[i] == hex_text(b as nat, 4)[i - 8]);
        }
    }
}

/// A pool id is one word where its random part is.
pub proof fn lemma_pool_id_word(uuid: Seq<char>)
    requires
        no_white_space(uuid),
    ensures
        no_white_space(pool_id_text(uuid)),
        pool_id_text(uuid).len() > 0,
{
    reveal_strlit("pool_");
    let id = pool_id_text(uuid);
    assert("pool_"@ == seq!['p', 'o', 'o', 'l', '_']);
    assert forall|i: int| 0 <= i < id.len() implies !is_white_space(#[trigger] id[i]) by {
        if i >= 5 {
            assert(id[i] == uuid[i - 5]);
        }
    }
}

/// The id of a pool whose random part is `uuid`.
pub open spec fn pool_id_text(uuid: Seq<char>) -> Seq<char> {
    "pool_"@ + uuid
}

pub open spec fn size_error_text(size: nat, max: nat) -> Seq<char> {
    "Pool size "@ + decimal_text(size) + " exceeds maximum "@ + decimal_text(max)
}

pub open spec fn write_error_text(needed: nat, max: nat) -> Seq<char> {
    "Write exceeds pool size: "@ + decimal_text(needed) + " > "@ + decimal_text(max)
}

pub open spec fn not_found_text() -> Seq<char> {
    "Pool not found"@
}

pub open spec fn read_error_text() -> Seq<char> {
    "Read exceeds pool size"@
}

/// The line that describes the bridge: registered memory in whole MiB and
/// the number of pools.
pub open spec fn status_text(s: BridgeView) -> Seq<char> {
    "Remote RAM: "@ + decimal_text(s.total_remote_ram / 1024 / 1024) + "MB | Pools: "@
        + decimal_text(s.pools.len()) + " | Registered with system"@
}

pub open spec fn text_result(r: Result<String, String>) -> Result<Seq<char>, Seq<char>> {
    match r {
        Ok(s) => Ok(s@),
        Err(e) => Err(e@),
    }
}

/// The registered total after registering `size` more bytes: grown where
/// the bridge registers memory with the system, unchanged elsewhere.
pub open spec fn registered_total(s: BridgeView, size: nat) -> nat {
    if s.registers_with_system {
        s.total_remote_ram + size
    } else {
        s.total_remote_ram
    }
}

/// Allocating `size` bytes under the random part `uuid`: refused above the
/// single-pool limit; otherwise a zeroed pool is stored under its new id
/// and its size is registered.
pub open spec fn spec_allocate(s: BridgeView, size: nat, uuid: Seq<char>) -> (
    BridgeView,
    Result<Seq<char>, Seq<char>>,
) {
    if size > s.max_single_pool {
        (s, Err(size_error_text(size, s.max_single_pool)))
    } else {
        let id = pool_id_text(uuid);
        (
            BridgeView {
                pools: s.pools.insert(id, fresh_pool(id, size)),
                total_remote_ram: registered_total(s, size),
                ..s
            },
            Ok(id),
        )
    }
}

/// Where an allocation would overflow a machine word: a buffer larger than
/// `isize::MAX` bytes, or a registered total above `usize::MAX`.
pub open spec fn allocation_overflows(s: BridgeView, size: nat) -> bool {
    size <= s.max_single_pool && (size > isize::MAX || registered_total(s, size) > usize::MAX)
}

/// Writing `bytes` at `offset` of pool `id`: refused for an unknown pool or
/// a write past its end; otherwise the bytes land there and their number
/// is returned.
pub open spec fn spec_write(s: BridgeView, id: Seq<char>, offset: nat, bytes: Seq<u8>) -> (
    BridgeView,
    Result<nat, Seq<char>>,
) {
    if !s.pools.contains_key(id) {
        (s, Err(not_found_text()))
    } else if offset + bytes.len() > s.pools[id].max_size {
        (s, Err(write_error_text(offset + bytes.len(), s.pools[id].max_size)))
    } else {
        (
            BridgeView {
                pools: s.pools.insert(id, pool_after_write(s.pools[id], offset, bytes)),
                ..s
            },
            Ok(bytes.len()),
        )
    }
}

/// Where a write would overflow a machine word computing its end.
pub open spec fn write_overflows(s: BridgeView, id: Seq<char>, offset: nat, len: nat) -> bool {
    s.pools.contains_key(id) && offset + len > usize::MAX
}

/// Reading `size` bytes at `offset` of pool `id`: refused for an unknown
/// pool or a read past its end; otherwise those bytes.
pub open spec fn spec_read(s: BridgeView, id: Seq<char>, offset: nat, size: nat) -> (
    BridgeView,
    Result<Seq<u8>, Seq<char>>,
) {
    if !s.pools.contains_key(id) {
        (s, Err(not_found_text()))
    } else if offset + size > s.pools[id].max_size {
        (s, Err(read_error_text()))
    } else {
        (
            BridgeView { pools: s.pools.insert(id, pool_after_read(s.pools[id])), ..s },
            Ok(s.pools[id].data.subrange(offset as int, (offset + size) as int)),
        )
    }
}

/// Where a read would overflow a machine word computing its end.
pub open spec fn read_overflows(s: BridgeView, id: Seq<char>, offset: nat, size: nat) -> bool {
    s.pools.contains_key(id) && offset + size > usize::MAX
}

/// The registered total less `size`, and 0 where it is smaller.
pub open spec fn unregistered_total(total: nat, size: nat) -> nat {
    if total >= size {
        (total - size) as nat
    } else {
        0
    }
}

/// Deleting pool `id`: refused for an unknown pool; otherwise the pool
/// leaves the table and, where the bridge registers memory with the system,
/// its size leaves the registered total.
pub open spec fn spec_delete(s: BridgeView, id: Seq<char>) -> (BridgeView, Result<(), Seq<char>>) {
    if !s.pools.contains_key(id) {
        (s, Err(not_found_text()))
    } else {
        (
            BridgeView {
                pools: s.pools.remove(id),
                total_remote_ram: if s.registers_with_system {
                    unregistered_total(s.total_remote_ram, s.pools[id].max_size)
                } else {
                    s.total_remote_ram
                },
                ..s
            },
            Ok(()),
        )
    }
}

/// The description of a pool: its size, its high-water mark and its
/// access count.
pub open spec fn pool_info_text(p: PoolView) -> Seq<char> {
    "size="@ + decimal_text(p.max_size) + " used="@ + decimal_text(p.current_size)
        + " accesses="@ + decimal_text(p.access_count)
}

/// Describing pool `id`: refused for an unknown pool.
pub open spec fn spec_info(s: BridgeView, id: Seq<char>) -> Result<Seq<char>, Seq<char>> {
    if !s.pools.contains_key(id) {
        Err(not_found_text())
    } else {
        Ok(pool_info_text(s.pools[id]))
    }
}

/// `l` names each of `ids` exactly once, in some order.
pub open spec fn is_listing(l: Seq<Seq<char>>, ids: Set<Seq<char>>) -> bool {
    &&& l.no_duplicates()
    &&& forall|k: Seq<char>| ids.contains(k) <==> #[trigger] l.contains(k)
}

/// Every finite set of ids has a listing.
pub proof fn lemma_listing_of(ids: Set<Seq<char>>)
    requires
        ids.finite(),
    ensures
        exists|l: Seq<Seq<char>>| is_listing(l, ids),
    decreases ids.len(),
{
    if ids.len() == 0 {
        let l = Seq::<Seq<char>>::empty();
        assert(ids =~= Set::<Seq<char>>::empty());
        assert(is_listing(l, ids));
    } else {
        let x = ids.choose();
        assert(ids.contains(x));
        lemma_listing_of(ids.remove(x));
        let l0 = choose|l: Seq<Seq<char>>| is_listing(l, ids.remove(x));
        let l = l0.push(x);
        assert(!l0.contains(x));
        assert forall|k: Seq<char>| ids.contains(k) <==> #[trigger] l.contains(k) by {
            if ids.contains(k) && k != x {
                assert(l0.contains(k));
                let j = choose|j: int| 0 <= j < l0.len() && l0[j] == k;
                assert(l[j] == k);
            }
            if k == x {
                assert(l[l0.len() as int] == x);
            }
            if l.contains(k) && k != x {
                let j = choose|j: int| 0 <= j < l.len() && l[j] == k;
                assert(j < l0.len());
                assert(l0[j] == k);
                assert(l0.contains(k));
                assert(ids.remove(x).contains(k));
            }
        }
        assert(is_listing(l, ids));
    }
}

/// The pools of a well-formed state have a listing.
pub proof fn lemma_listing_exists(s: BridgeView)
    requires
        s.inv(),
    ensures
        exists|l: Seq<Seq<char>>| is_listing(l, s.pools.dom()),
{
    lemma_listing_of(s.pools.dom());
}

/// Two random words from the thread-local generator (`rand::random`,
/// called once for a `u32` and once for a `u16`). Nothing is claimed of
/// the values: any pair may come back.
#[verifier::external_body]
fn random_words() -> (u32, u16) {
    (rand::random::<u32>(), rand::random::<u16>())
}

/// The random part of a pool id made from the words `a` and `b`.
pub fn uuid_from_words(a: u32, b: u16) -> (r: String)
    ensures
        r@ == uuid_text(a, b),
{
    let mut high = hex_digits(a as u64, 8);
    let mut low = hex_digits(b as u64, 4);
    high.append(&mut low);
    string_of(high.as_slice())
}

/// A fresh random part for a pool id: twelve hexadecimal digits.
pub fn uuid_v4() -> (r: String)
    ensures
        exists|a: u32, b: u16| r@ == uuid_text(a, b),
{
    let (a, b) = random_words();
    let r = uuid_from_words(a, b);
    assert(r@ == uuid_text(a, b));
    r
}

/// Appends the decimal numeral of `n` to `s`.
fn push_decimal(s: &mut String, n: usize)
    ensures
        final(s)@ == old(s)@ + decimal_text(n as nat),
{
    let d = string_of(decimal(n).as_slice());
    s.append(d.as_str());
}

fn size_error(size: usize, max: usize) -> (r: String)
    ensures
        r@ == size_error_text(size as nat, max as nat),
{
    let mut m = String::from_str("Pool size ");
    push_decimal(&mut m, size);
    m.append(" exceeds maximum ");
    push_decimal(&mut m, max);
    m
}

fn write_error(needed: usize, max: usize) -> (r: String)
    ensures
        r@ == write_error_text(needed as nat, max as nat),
{
    let mut m = String::from_str("Write exceeds pool size: ");
    push_decimal(&mut m, needed);
    m.append(" > ");
    push_decimal(&mut m, max);
    m
}

/// The pools and the memory registered for them.
pub struct SystemMemoryBridge {
    pools: DashMap<String, MemoryPool>,
    total_remote_ram: usize,
    max_single_pool: usize,
    auto_register_syscalls: bool,
    registers_with_system: bool,
}

impl View for SystemMemoryBridge {
    type V = BridgeView;

    closed spec fn view(&self) -> BridgeView {
        BridgeView {
            pools: table_contents(self.pools),
            total_remote_ram: self.total_remote_ram as nat,
            max_single_pool: self.max_single_pool as nat,
            auto_register_syscalls: self.auto_register_syscalls,
            registers_with_system: self.registers_with_system,
        }
    }
}

impl SystemMemoryBridge {
    /// A bridge with no pools that accepts pools of up to `max_single_pool`
    /// bytes; it counts the memory of its pools as registered with the
    /// system where `registers_with_system` holds (the targets whose memory
    /// management the server informs).
    pub fn new(max_single_pool: usize, registers_with_system: bool) -> (r: Self)
        ensures
            r@ == (BridgeView {
                pools: Map::empty(),
                total_remote_ram: 0,
                max_single_pool: max_single_pool as nat,
                auto_register_syscalls: true,
                registers_with_system,
            }),
            r@.inv(),
    {
        SystemMemoryBridge {
            pools: table_new(),
            total_remote_ram: 0,
            max_single_pool,
            auto_register_syscalls: true,
            registers_with_system,
        }
    }

    /// Adds `size` bytes to the memory registered with the system, where the
    /// bridge registers memory at all.
    pub fn register_memory_with_system(&mut self, pool_id: &str, size: usize) -> (r: Result<
        (),
        String,
    >)
        requires
            old(self)@.inv(),
            registered_total(old(self)@, size as nat) <= usize::MAX,
        ensures
            final(self)@ == (BridgeView {
                total_remote_ram: registered_total(old(self)@, size as nat),
                ..old(self)@
            }),
            final(self)@.inv(),
            r is Ok,
    {
        if self.registers_with_system {
            self.total_remote_ram = self.total_remote_ram + size;
        }
        Ok(())
    }

    /// Allocates a pool of `size` bytes whose id has the random part `uuid`,
    /// one word.
    pub fn allocate_pool_with_uuid(&mut self, name: &str, size: usize, uuid: String) -> (r: Result<
        String,
        String,
    >)
        requires
            old(self)@.inv(),
            no_white_space(uuid@),
            !allocation_overflows(old(self)@, size as nat),
        ensures
            final(self)@.inv(),
            (final(self)@, text_result(r)) == spec_allocate(old(self)@, size as nat, uuid@),
    {
        if size > self.max_single_pool {
            return Err(size_error(size, self.max_single_pool));
        }
        let mut pool_id = String::from_str("pool_");
        pool_id.append(uuid.as_str());
        let pool = MemoryPool::new(pool_id.clone(), size);
        self.register_memory_with_system(pool_id.as_str(), size)?;
        let key = pool_id.clone();
        table_insert(&mut self.pools, key, pool);
        proof {
            lemma_pool_id_word(uuid@);
            let s = final(self)@;
            assert forall|k: Seq<char>| #[trigger] s.pools.contains_key(k) implies s.pools[k].wf()
                && s.pools[k].id == k && no_white_space(k) by {
                if k != pool_id@ {
                    assert(old(self)@.pools.contains_key(k));
                }
            }
        }
        Ok(pool_id)
    }

    /// Allocates a pool of `size` bytes under a fresh random id.
    pub fn allocate_pool(&mut self, name: &str, size: usize) -> (r: Result<String, String>)
        requires
            old(self)@.inv(),
            !allocation_overflows(old(self)@, size as nat),
        ensures
            final(self)@.inv(),
            exists|a: u32, b: u16|
                (final(self)@, text_result(r)) == spec_allocate(
                    old(self)@,
                    size as nat,
                    #[trigger] uuid_text(a, b),
                ),
    {
        if size > self.max_single_pool {
            let r = Err(size_error(size, self.max_single_pool));
            assert((final(self)@, text_result(r)) == spec_allocate(
                old(self)@,
                size as nat,
                uuid_text(0, 0),
            ));
            return r;
        }
        let uuid = uuid_v4();
        proof {
            let (a, b) = choose|a: u32, b: u16| uuid@ == uuid_text(a, b);
            lemma_uuid_word(a, b);
        }
        self.allocate_pool_with_uuid(name, size, uuid)
    }

    /// Writes `data` into pool `pool_id` at `offset`.
    pub fn write_to_pool_fast(&mut self, pool_id: &str, offset: usize, data: &[u8]) -> (r: Result<
        usize,
        String,
    >)
        requires
            old(self)@.inv(),
            !write_overflows(old(self)@, pool_id@, offset as nat, data@.len()),
        ensures
            final(self)@.inv(),
            final(self)@ == spec_write(old(self)@, pool_id@, offset as nat, data@).0,
            match r {
                Ok(n) => spec_write(old(self)@, pool_id@, offset as nat, data@).1 == Ok::<
                    nat,
                    Seq<char>,
                >(n as nat),
                Err(e) => spec_write(old(self)@, pool_id@, offset as nat, data@).1 == Err::<
                    nat,
                    Seq<char>,
                >(e@),
            },
    {
        let ghost s0 = self@;
        match table_remove(&mut self.pools, pool_id) {
            None => Err(String::from_str("Pool not found")),
            Some((key, mut pool)) => {
                assert(s0.pools.contains_key(pool_id@));
                let needed = offset + data.len();
                let max = pool.max_size();
                if needed > max {
                    table_insert(&mut self.pools, key, pool);
                    assert(self@.pools =~= s0.pools);
                    return Err(write_error(needed, max));
                }
                pool.write_bytes(offset, data);
                table_insert(&mut self.pools, key, pool);
                assert(self@.pools =~= s0.pools.insert(
                    pool_id@,
                    pool_after_write(s0.pools[pool_id@], offset as nat, data@),
                ));
                proof {
                    let s = self@;
                    assert forall|k: Seq<char>| #[trigger] s.pools.contains_key(k) implies s.pools[
                        k].wf() && s.pools[k].id == k by {
                        assert(s0.pools.contains_key(k));
                    }
                }
                Ok(data.len())
            },
        }
    }

    /// Reads `size` bytes of pool `pool_id` from `offset` on.
    pub fn read_from_pool_fast(&mut self, pool_id: &str, offset: usize, size: usize) -> (r: Result<
        Vec<u8>,
        String,
    >)
        requires
            old(self)@.inv(),
            !read_overflows(old(self)@, pool_id@, offset as nat, size as nat),
        ensures
            final(self)@.inv(),
            final(self)@ == spec_read(old(self)@, pool_id@, offset as nat, size as nat).0,
            match r {
                Ok(v) => spec_read(old(self)@, pool_id@, offset as nat, size as nat).1 == Ok::<
                    Seq<u8>,
                    Seq<char>,
                >(v@),
                Err(e) => spec_read(old(self)@, pool_id@, offset as nat, size as nat).1 == Err::<
                    Seq<u8>,
                    Seq<char>,
                >(e@),
            },
    {
        let ghost s0 = self@;
        match table_remove(&mut self.pools, pool_id) {
            None => Err(String::from_str("Pool not found")),
            Some((key, mut pool)) => {
                assert(s0.pools.contains_key(pool_id@));
                if offset + size > pool.max_size() {
                    table_insert(&mut self.pools, key, pool);
                    assert(self@.pools =~= s0.pools);
                    return Err(String::from_str("Read exceeds pool size"));
                }
                let data = pool.read_bytes(offset, size);
                table_insert(&mut self.pools, key, pool);
                assert(self@.pools =~= s0.pools.insert(
                    pool_id@,
                    pool_after_read(s0.pools[pool_id@]),
                ));
                proof {
                    let s = self@;
                    assert forall|k: Seq<char>| #[trigger] s.pools.contains_key(k) implies s.pools[
                        k].wf() && s.pools[k].id == k by {
                        assert(s0.pools.contains_key(k));
                    }
                }
                Ok(data)
            },
        }
    }

    /// A line describing the registered memory and the number of pools.
    pub fn get_system_memory_info(&self) -> (r: String)
        requires
            self@.inv(),
        ensures
            r@ == status_text(self@),
    {
        let remote_ram_mb = self.total_remote_ram / 1024 / 1024;
        let pool_count = table_len(&self.pools);
        let mut m = String::from_str("Remote RAM: ");
        push_decimal(&mut m, remote_ram_mb);
        m.append("MB | Pools: ");
        push_decimal(&mut m, pool_count);
        m.append(" | Registered with system");
        m
    }

    /// Deletes pool `pool_id`, and takes its size off the registered total.
    pub fn delete_pool(&mut self, pool_id: &str) -> (r: Result<(), String>)
        requires
            old(self)@.inv(),
        ensures
            final(self)@.inv(),
            final(self)@ == spec_delete(old(self)@, pool_id@).0,
            match r {
                Ok(_) => spec_delete(old(self)@, pool_id@).1 == Ok::<(), Seq<char>>(()),
                Err(e) => spec_delete(old(self)@, pool_id@).1 == Err::<(), Seq<char>>(e@),
            },
    {
        let ghost s0 = self@;
        match table_remove(&mut self.pools, pool_id) {
            None => Err(String::from_str("Pool not found")),
            Some((_key, pool)) => {
                let size = pool.max_size();
                if self.registers_with_system {
                    self.total_remote_ram = self.total_remote_ram.saturating_sub(size);
                }
                proof {
                    let s = self@;
                    assert forall|k: Seq<char>| #[trigger] s.pools.contains_key(k) implies s.pools[
                        k].wf() && s.pools[k].id == k by {
                        assert(s0.pools.contains_key(k));
                    }
                }
                Ok(())
            },
        }
    }

    /// Describes pool `pool_id`.
    pub fn pool_info(&mut self, pool_id: &str) -> (r: Result<String, String>)
        requires
            old(self)@.inv(),
        ensures
            final(self)@ == old(self)@,
            text_result(r) == spec_info(old(self)@, pool_id@),
    {
        let ghost s0 = self@;
        match table_remove(&mut self.pools, pool_id) {
            None => Err(String::from_str("Pool not found")),
            Some((key, pool)) => {
                let mut m = String::from_str("size=");
                push_decimal(&mut m, pool.max_size());
                m.append(" used=");
                push_decimal(&mut m, pool.current_size());
                m.append(" accesses=");
                push_decimal(&mut m, pool.access_count());
                table_insert(&mut self.pools, key, pool);
                assert(self@.pools =~= s0.pools);
                Ok(m)
            },
        }
    }

    /// The ids of all pools, each once, in the order the table walks them.
    pub fn list_pool_ids(&self) -> (r: Vec<String>)
        requires
            self@.inv(),
        ensures
            is_listing(string_views(r@), self@.pools.dom()),
    {
        table_keys(&self.pools)
    }

    /// Whether a pool is stored under `pool_id`.
    pub fn has_pool(&self, pool_id: &str) -> (r: bool)
        ensures
            r == self@.pools.contains_key(pool_id@),
    {
        table_contains(&self.pools, pool_id)
    }

    pub fn registers_with_system(&self) -> (r: bool)
        ensures
            r == self@.registers_with_system,
    {
        self.registers_with_system
    }

    pub fn max_single_pool(&self) -> (r: usize)
        ensures
            r == self@.max_single_pool,
    {
        self.max_single_pool
    }

    pub fn total_remote_ram(&self) -> (r: usize)
        ensures
            r == self@.total_remote_ram,
    {
        self.total_remote_ram
    }
}

} // verus!
