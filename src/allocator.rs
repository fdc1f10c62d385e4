//! The recycling pool: regions mapped from the operating system, carved into
//! cells of `BUFFER_SIZE` bytes, handed out and taken back per thread.
//!
//! Threads are known to the pool by a key that `register_thread` hands out.
//! Each thread has a free list of its own; a cell released on a thread other
//! than the one that created it waits in the mailbox under its creator's key
//! until the creator next acquires.
use crate::codec::{native_order, ByteOrder};
use crate::error::{MByteBufferError, Result};
use dashmap::DashMap;
use mmap_rs::{MmapMut, MmapOptions};
use vstd::prelude::*;
use vstd::slice::slice_to_vec;

verus! {

/// The capacity of every cell, in bytes.
pub const BUFFER_SIZE: usize = 1024;

/// How many pages one region maps.
pub const PAGE_CREATION_COUNT: usize = 8;

/// A read-write memory mapping.
#[verifier::external_type_specification]
#[verifier::external_body]
pub struct ExMmapMut(MmapMut);

/// A concurrent map.
#[verifier::external_type_specification]
#[verifier::external_body]
#[verifier::reject_recursive_types(K)]
#[verifier::reject_recursive_types(V)]
#[verifier::reject_recursive_types(S)]
pub struct ExDashMap<K, V, S>(DashMap<K, V, S>);

/// The bytes that a mapping holds.
pub uninterp spec fn mapped_bytes(m: MmapMut) -> Seq<u8>;

/// What a mailbox holds: for each thread key, the cells waiting for that thread.
pub uninterp spec fn mailbox_entries(m: DashMap<usize, Vec<Node>>) -> Map<usize, Seq<Node>>;

/// Relies on `MmapOptions::page_size`: the platform's smallest page size.
#[verifier::external_body]
fn page_size() -> usize {
    MmapOptions::page_size()
}

/// Relies on `MmapOptions::new` and `MmapOptions::map_mut`: an anonymous
/// read-write mapping of exactly `size` bytes; a size of zero is refused.
#[verifier::external_body]
fn map_pages(size: usize) -> (r: core::result::Result<MmapMut, mmap_rs::Error>)
    ensures
        r matches Ok(m) ==> mapped_bytes(m).len() == size,
        size == 0 ==> r is Err,
{
    match MmapOptions::new(size) {
        Ok(options) => options.map_mut(),
        Err(e) => Err(e),
    }
}

/// Relies on `DerefMut` of `MmapMut`: the mapping's bytes as one mutable
/// slice, into which `src` is copied at `at`.
#[verifier::external_body]
fn write_mapped(m: &mut MmapMut, at: usize, src: &[u8])
    requires
        at + src@.len() <= mapped_bytes(*old(m)).len(),
    ensures
        mapped_bytes(*final(m)) == spliced(mapped_bytes(*old(m)), at as int, src@),
{
    m[at..at + src.len()].copy_from_slice(src);
}

/// Relies on `Deref` of `MmapMut`: the mapping's bytes as one slice, of which
/// `len` bytes from `at` are lent out.
#[verifier::external_body]
fn read_mapped(m: &MmapMut, at: usize, len: usize) -> (r: &[u8])
    requires
        at + len <= mapped_bytes(*m).len(),
    ensures
        r@ == mapped_bytes(*m).subrange(at as int, at + len),
{
    &m[at..at + len]
}

/// Relies on `DashMap::new`: an empty map.
#[verifier::external_body]
fn mailbox_new() -> (r: DashMap<usize, Vec<Node>>)
    ensures
        mailbox_entries(r).dom().is_empty(),
{
    DashMap::new()
}

/// Relies on `DashMap::remove`: takes out the entry of `key`, if there is one.
#[verifier::external_body]
fn mailbox_remove(m: &mut DashMap<usize, Vec<Node>>, key: usize) -> (r: Option<Vec<Node>>)
    ensures
        mailbox_entries(*final(m)) == mailbox_entries(*old(m)).remove(key),
        mailbox_entries(*old(m)).contains_key(key) <==> r is Some,
        r matches Some(v) ==> v@ == mailbox_entries(*old(m))[key],
{
    m.remove(&key).map(|entry| entry.1)
}

/// Relies on `DashMap::insert`: sets the entry of `key` and hands back the
/// one it replaces, if there was one.
#[verifier::external_body]
fn mailbox_insert(m: &mut DashMap<usize, Vec<Node>>, key: usize, value: Vec<Node>) -> (r: Option<
    Vec<Node>,
>)
    ensures
        mailbox_entries(*final(m)) == mailbox_entries(*old(m)).insert(key, value@),
        mailbox_entries(*old(m)).contains_key(key) <==> r is Some,
        r matches Some(v) ==> v@ == mailbox_entries(*old(m))[key],
{
    m.insert(key, value)
}

/// `bytes` with `src` copied over them from `at`.
pub open spec fn spliced(bytes: Seq<u8>, at: int, src: Seq<u8>) -> Seq<u8> {
    bytes.take(at) + src + bytes.skip(at + src.len())
}

/// `a` and `b` name the same slot of the same region.
pub open spec fn same_slot(a: Node, b: Node) -> bool {
    a.region == b.region && a.offset == b.offset
}

/// Two different cell offsets are at least a cell apart.
proof fn lemma_slots_apart(a: int, b: int)
    requires
        a >= 0,
        b >= 0,
        a % (BUFFER_SIZE as int) == 0,
        b % (BUFFER_SIZE as int) == 0,
        a != b,
    ensures
        a + BUFFER_SIZE <= b || b + BUFFER_SIZE <= a,
{
    assert(a + 1024 <= b || b + 1024 <= a) by (nonlinear_arith)
        requires
            a >= 0,
            b >= 0,
            a % 1024 == 0,
            b % 1024 == 0,
            a != b,
    ;
}

/// Where a released cell lies: the region it belongs to, its byte offset in
/// that region, and the key of the thread that created it.
#[derive(Clone, Copy, Debug, PartialEq, Eq, Structural)]
pub struct Node {
    pub region: usize,
    pub offset: usize,
    pub thread_id: usize,
}

/// A free list of released cells, with the flag that is set while its thread
/// tears it down.
pub struct List {
    pub list: Vec<Node>,
    pub dropping: bool,
}

impl List {
    pub fn new() -> (r: List)
        ensures
            r.list@.len() == 0,
            !r.dropping,
    {
        List { list: Vec::new(), dropping: false }
    }
}

/// A cell handed out by the pool: `BUFFER_SIZE` bytes at an offset of a
/// region, tagged with the thread that created it.
#[derive(Debug)]
pub struct Buffer {
    region: usize,
    offset: usize,
    thread_id: usize,
}

impl View for Buffer {
    type V = Node;

    closed spec fn view(&self) -> Node {
        Node { region: self.region, offset: self.offset, thread_id: self.thread_id }
    }
}

/// What acquiring a cell for thread `t` from pool `p` gives: the pool `q` and
/// the cell `got`, if any.
///
/// The cell comes from the end of `t`'s free list; else, where the list is
/// empty, `t`'s mailbox entry is taken out and its oldest cell returned while
/// the others go onto the free list; else a region of `PAGE_CREATION_COUNT`
/// pages is mapped, its first cell returned and the others queued. Only that
/// mapping can fail. The cell was not handed out before, and is afterwards.
pub open spec fn acquire_outcome(p: BufferPool, t: usize, got: Option<Node>, q: BufferPool) -> bool {
    &&& q.wf()
    &&& q.native() == p.native()
    &&& q.threads() == p.threads()
    &&& q.regions_len() >= p.regions_len()
    &&& q.keeps_held(&p)
    &&& q.others_unchanged(&p, t as int)
    &&& q.tearing_down(t as int) == p.tearing_down(t as int)
    &&& got matches Some(b) ==> {
        &&& q.holds(b)
        &&& !p.held_slot(slot_of(b))
        &&& b.thread_id == t
    }
    &&& p.free_list(t as int).len() > 0 ==> {
        &&& got == Some(p.free_list(t as int).last())
        &&& q.free_list(t as int) == p.free_list(t as int).drop_last()
        &&& q.mailbox() == p.mailbox()
        &&& q.regions_len() == p.regions_len()
    }
    &&& p.free_list(t as int).len() == 0 ==> q.mailbox() == p.mailbox().remove(t)
    &&& p.free_list(t as int).len() == 0 && p.pending(t).len() > 0 ==> {
        &&& got == Some(p.pending(t)[0])
        &&& q.free_list(t as int) == if p.tearing_down(t as int) {
            p.free_list(t as int)
        } else {
            p.pending(t).skip(1)
        }
        &&& q.regions_len() == p.regions_len()
    }
    &&& p.free_list(t as int).len() == 0 && p.pending(t).len() == 0 ==> {
        &&& got matches Some(b) ==> {
            &&& b == Node { region: p.regions_len() as usize, offset: 0, thread_id: t }
            &&& q.regions_len() == p.regions_len() + 1
            &&& region_of_pages(q.region_bytes(p.regions_len() as int).len() as int)
            &&& q.free_list(t as int) == if p.tearing_down(t as int) {
                p.free_list(t as int)
            } else {
                q.carved(p.regions_len() as int, t)
            }
        }
        &&& got is None ==> {
            &&& q.regions_len() == p.regions_len()
            &&& q.free_list(t as int) == p.free_list(t as int)
        }
    }
}

/// What releasing the handed-out `cell` on thread `current` does to pool
/// `p`, giving `q`: the cell is no longer handed out. While `current` tears
/// down it is dropped, and its region unmapped if it was the region's last
/// live cell; else it goes onto `current`'s free list if `current` created
/// it, or into the mailbox of the thread that did, after the cells already
/// waiting there.
pub open spec fn release_outcome(p: BufferPool, cell: Node, current: usize, q: BufferPool) -> bool {
    &&& q.wf()
    &&& q.native() == p.native()
    &&& q.threads() == p.threads()
    &&& q.regions_len() == p.regions_len()
    &&& q.keeps_held_but(&p, cell)
    &&& !q.held_slot(slot_of(cell))
    &&& p.tearing_down(current as int) ==> {
        &&& !q.owner().contains_key(slot_of(cell))
        &&& q.mailbox() == p.mailbox()
        &&& q.lists_unchanged(&p)
        &&& q.region_refs(cell.region as int) == p.region_refs(cell.region as int) - 1
        &&& q.region_refs(cell.region as int) == 0 ==> !q.mapped(cell.region as int)
    }
    &&& !p.tearing_down(current as int) && cell.thread_id == current ==> {
        &&& q.free_list(current as int) == p.free_list(current as int).push(cell)
        &&& q.tearing_down(current as int) == p.tearing_down(current as int)
        &&& q.mailbox() == p.mailbox()
        &&& q.others_unchanged(&p, current as int)
    }
    &&& !p.tearing_down(current as int) && cell.thread_id != current ==> {
        &&& q.mailbox() == p.mailbox().insert(cell.thread_id, p.pending(cell.thread_id).push(cell))
        &&& q.lists_unchanged(&p)
    }
}

/// A cell released on the thread that created it is the one that thread's
/// next acquisition returns, from the same region and with no new mapping.
pub proof fn lemma_reuse_on_same_thread(
    p0: BufferPool,
    t: usize,
    cell: Node,
    p1: BufferPool,
    p2: BufferPool,
    again: Option<Node>,
    p3: BufferPool,
)
    requires
        p0.wf(),
        t < p0.threads(),
        !p0.tearing_down(t as int),
        acquire_outcome(p0, t, Some(cell), p1),
        release_outcome(p1, cell, t, p2),
        acquire_outcome(p2, t, again, p3),
    ensures
        again == Some(cell),
        p3.regions_len() == p2.regions_len(),
{
}

/// A cell that its creating thread `a` handed to another thread, released
/// there, waits in `a`'s mailbox.
pub proof fn lemma_release_files_under_creator(p0: BufferPool, cell: Node, b: usize, p1: BufferPool)
    requires
        p0.wf(),
        p0.holds(cell),
        b < p0.threads(),
        cell.thread_id != b,
        !p0.tearing_down(b as int),
        release_outcome(p0, cell, b, p1),
    ensures
        p1.pending(cell.thread_id).contains(cell),
{
    assert(p1.pending(cell.thread_id)[p0.pending(cell.thread_id).len() as int] == cell);
}

/// A cell waiting for thread `a`, in its mailbox or on its free list, is not
/// lost by `a`'s next acquisition: the acquisition returns it, or it still
/// waits for `a`. Draining the mailbox moves it onto the free list.
pub proof fn lemma_creator_keeps_waiting_cell(
    p: BufferPool,
    a: usize,
    cell: Node,
    got: Option<Node>,
    q: BufferPool,
)
    requires
        p.wf(),
        a < p.threads(),
        !p.tearing_down(a as int),
        p.pending(a).contains(cell) || p.free_list(a as int).contains(cell),
        acquire_outcome(p, a, got, q),
    ensures
        got == Some(cell) || q.pending(a).contains(cell) || q.free_list(a as int).contains(cell),
        p.free_list(a as int).len() == 0 ==> got == Some(cell) || q.free_list(a as int).contains(cell),
{
    let fl = p.free_list(a as int);
    if fl.len() > 0 {
        if fl.contains(cell) {
            let i = choose|i: int| 0 <= i < fl.len() && fl[i] == cell;
            if i < fl.len() - 1 {
                assert(q.free_list(a as int)[i] == cell);
            }
        } else {
            assert(q.pending(a) == p.pending(a));
        }
    } else {
        let w = p.pending(a);
        let i = choose|i: int| 0 <= i < w.len() && w[i] == cell;
        if i > 0 {
            assert(q.free_list(a as int)[i - 1] == cell);
        }
    }
}

impl Buffer {
    /// Where the cell lies.
    pub fn node(&self) -> (r: Node)
        ensures
            r == self@,
    {
        Node { region: self.region, offset: self.offset, thread_id: self.thread_id }
    }

    /// Acquires a cell for thread `thread`: the one it released last, else the
    /// oldest waiting for it in the mailbox (queueing the others on its free
    /// list), else the first of a freshly mapped region (queueing the rest).
    pub fn new(pool: &mut BufferPool, thread: usize) -> (r: Result<Buffer>)
        requires
            old(pool).wf(),
            thread < old(pool).threads(),
        ensures
            acquire_outcome(*old(pool), thread, cell_of(r), *final(pool)),
            r matches Err(e) ==> (e is Mmap || e is AllocationFailure),
    {
        let ghost s0 = *pool;
        if let Some(node) = pool.free_lists[thread].list.pop() {
            proof {
                let gone = Place { mailbox: false, key: thread as int, index: s0.free_list(thread as int).len() - 1 };
                assert(s0.placed(gone));
                assert(s0.queued_at(gone));
                assert forall|p: Place| #[trigger] pool.placed(p) implies s0.placed(p) && pool.node_at(p) == s0.node_at(p) by {
                    if !p.mailbox && p.key == thread {
                        assert(pool.free_list(p.key)[p.index] == s0.free_list(p.key)[p.index]);
                    } else if !p.mailbox {
                        assert(pool.free_list(p.key) == s0.free_list(p.key));
                    }
                }
                pool.lemma_wf_fewer_places(&s0);
                assert(!pool.placed(gone));
            }
            let ghost s1 = *pool;
            pool.owner = Ghost(pool.owner@.insert(slot_of(node), Slot::Held));
            proof {
                pool.lemma_wf_retag(&s1, slot_of(node), Slot::Held);
                assert forall|u: int|
                    0 <= u < s0.threads() && u != thread implies {
                        &&& #[trigger] pool.free_list(u) == s0.free_list(u)
                        &&& pool.tearing_down(u) == s0.tearing_down(u)
                    } by {
                    assert(s1.free_list(u) == s0.free_list(u));
                }
                assert forall|n: Node| #[trigger] s0.holds(n) implies pool.holds(n)
                    && pool.cell_bytes(n) == s0.cell_bytes(n) by {
                    assert(slot_of(n) != slot_of(node));
                }
            }
            return Ok(Buffer { region: node.region, offset: node.offset, thread_id: thread });
        }
        let removed = mailbox_remove(&mut pool.mailbox, thread);
        proof {
            assert forall|p: Place| #[trigger] pool.placed(p) implies s0.placed(p) && pool.node_at(p) == s0.node_at(p) by {
                if p.mailbox {
                    assert(pool.mailbox()[p.key as usize] == s0.mailbox()[p.key as usize]);
                } else {
                    assert(pool.free_list(p.key) == s0.free_list(p.key));
                }
            }
            pool.lemma_wf_fewer_places(&s0);
        }
        if let Some(list) = removed {
            let n = list.len();
            if n > 0 {
                let ghost mid = *pool;
                proof {
                    assert forall|j: int| 0 <= j < n implies {
                        &&& #[trigger] mid.owner().contains_key(slot_of(list@[j]))
                        &&& mid.owner()[slot_of(list@[j])] == Slot::Queued(Place { mailbox: true, key: thread as int, index: j })
                        &&& list@[j].thread_id == thread
                    } by {
                        let pl = Place { mailbox: true, key: thread as int, index: j };
                        assert(s0.placed(pl));
                        assert(s0.queued_at(pl));
                    }
                    assert forall|j: int| 0 <= j < n implies (#[trigger] list@[j]).thread_id == thread by {
                        let pl = Place { mailbox: true, key: thread as int, index: j };
                        assert(s0.placed(pl));
                        assert(s0.queued_at(pl));
                    }
                }
                let mut i: usize = 1;
                while i < n
                    invariant
                        1 <= i <= n,
                        n == list@.len(),
                        list@ == s0.pending(thread),
                        pool.wf(),
                        thread < pool.threads(),
                        pool.native() == s0.native(),
                        pool.threads() == s0.threads(),
                        pool.regions_len() == s0.regions_len(),
                        pool.mailbox() == mid.mailbox(),
                        !pool.mailbox().contains_key(thread),
                        pool.keeps_held(&s0),
                        pool.others_unchanged(&s0, thread as int),
                        pool.tearing_down(thread as int) == s0.tearing_down(thread as int),
                        pool.free_list(thread as int) == if s0.tearing_down(thread as int) {
                            s0.free_list(thread as int)
                        } else {
                            list@.subrange(1, i as int)
                        },
                        s0.free_list(thread as int).len() == 0,
                        forall|j: int| 0 <= j < n ==> (#[trigger] list@[j]).thread_id == thread,
                        forall|j: int|
                            (j == 0 || i <= j < n) ==> {
                                &&& #[trigger] pool.owner().contains_key(slot_of(list@[j]))
                                &&& pool.owner()[slot_of(list@[j])] == Slot::Queued(Place { mailbox: true, key: thread as int, index: j })
                            },
                    decreases n - i,
                {
                    let ghost before = *pool;
                    let node = list[i];
                    proof {
                        assert(pool.owner().contains_key(slot_of(list@[i as int])));
                        assert(pool.slot_fits(slot_of(node)));
                        assert(!pool.placed(Place { mailbox: true, key: thread as int, index: i as int }));
                    }
                    pool.queue(node, thread);
                    proof {
                        if !s0.tearing_down(thread as int) {
                            assert(pool.free_list(thread as int) =~= list@.subrange(1, i + 1));
                        }
                        assert forall|j: int| (j == 0 || i + 1 <= j < n) implies {
                            &&& #[trigger] pool.owner().contains_key(slot_of(list@[j]))
                            &&& pool.owner()[slot_of(list@[j])] == Slot::Queued(Place { mailbox: true, key: thread as int, index: j })
                        } by {
                            assert(before.owner().contains_key(slot_of(list@[j])));
                            assert(slot_of(list@[j]) != slot_of(node));
                        }
                        assert forall|nn: Node| #[trigger] s0.holds(nn) implies pool.holds(nn)
                            && pool.cell_bytes(nn) == s0.cell_bytes(nn) by {
                            assert(before.holds(nn));
                            assert(slot_of(nn) != slot_of(node));
                        }
                        pool.lemma_others_chain(&before, &s0, thread as int);
                    }
                    i = i + 1;
                }
                let first = list[0];
                let ghost s1 = *pool;
                proof {
                    assert(pool.owner().contains_key(slot_of(first)));
                    assert(!pool.placed(Place { mailbox: true, key: thread as int, index: 0 }));
                }
                pool.owner = Ghost(pool.owner@.insert(slot_of(first), Slot::Held));
                proof {
                    pool.lemma_wf_retag(&s1, slot_of(first), Slot::Held);
                    if !s0.tearing_down(thread as int) {
                        assert(list@.subrange(1, n as int) =~= s0.pending(thread).skip(1));
                    }
                    assert(pool.slot_fits(slot_of(first)));
                    assert forall|nn: Node| #[trigger] s0.holds(nn) implies pool.holds(nn)
                        && pool.cell_bytes(nn) == s0.cell_bytes(nn) by {
                        assert(s1.holds(nn));
                        assert(slot_of(nn) != slot_of(first));
                    }
                    assert forall|u: int|
                        0 <= u < s0.threads() && u != thread implies {
                            &&& #[trigger] pool.free_list(u) == s0.free_list(u)
                            &&& pool.tearing_down(u) == s0.tearing_down(u)
                        } by {
                        assert(s1.free_list(u) == s0.free_list(u));
                    }
                }
                return Ok(Buffer { region: first.region, offset: first.offset, thread_id: thread });
            }
        }
        let ghost pre = *pool;
        proof {
            if !s0.mailbox().contains_key(thread) {
                assert(pool.mailbox() =~= s0.mailbox().remove(thread));
            }
            assert forall|u: int|
                0 <= u < s0.threads() && u != thread implies {
                    &&& #[trigger] pool.free_list(u) == s0.free_list(u)
                    &&& pool.tearing_down(u) == s0.tearing_down(u)
                } by {}
        }
        let r = Buffer::carve_region(pool, thread);
        proof {
            pool.lemma_others_chain(&pre, &s0, thread as int);
            assert forall|nn: Node| #[trigger] s0.holds(nn) implies pool.holds(nn)
                && pool.cell_bytes(nn) == s0.cell_bytes(nn) by {
                assert(pre.holds(nn));
            }
        }
        r
    }

    /// Maps a region of `PAGE_CREATION_COUNT` pages for `thread`, returns its
    /// first cell and queues the rest. Fails with `AllocationFailure` where
    /// the platform's page size makes no such region of at least one cell,
    /// and with the mapping's own error where the mapping fails.
    fn carve_region(pool: &mut BufferPool, thread: usize) -> (r: Result<Buffer>)
        requires
            old(pool).wf(),
            thread < old(pool).threads(),
        ensures
            final(pool).wf(),
            final(pool).keeps_held(old(pool)),
            final(pool).native() == old(pool).native(),
            final(pool).threads() == old(pool).threads(),
            final(pool).mailbox() == old(pool).mailbox(),
            final(pool).others_unchanged(old(pool), thread as int),
            final(pool).tearing_down(thread as int) == old(pool).tearing_down(thread as int),
            r matches Ok(b) ==> {
                &&& final(pool).holds(b@)
                &&& !old(pool).held_slot(slot_of(b@))
                &&& b@ == Node { region: old(pool).regions_len() as usize, offset: 0, thread_id: thread }
                &&& final(pool).regions_len() == old(pool).regions_len() + 1
                &&& region_of_pages(final(pool).region_bytes(old(pool).regions_len() as int).len() as int)
                &&& final(pool).free_list(thread as int) == if old(pool).tearing_down(thread as int) {
                    old(pool).free_list(thread as int)
                } else {
                    old(pool).free_list(thread as int) + final(pool).carved(
                        old(pool).regions_len() as int,
                        thread,
                    )
                }
            },
            r matches Err(e) ==> (e is Mmap || e is AllocationFailure),
            r is Err ==> *final(pool) == *old(pool),
    {
        let page = page_size();
        if page == 0 || page > usize::MAX / PAGE_CREATION_COUNT {
            return Err(MByteBufferError::AllocationFailure { size: usize::MAX });
        }
        let size = PAGE_CREATION_COUNT * page;
        if size < BUFFER_SIZE {
            return Err(MByteBufferError::AllocationFailure { size });
        }
        let mapping = match map_pages(size) {
            Ok(m) => m,
            Err(e) => {
                return Err(MByteBufferError::Mmap(e));
            },
        };
        let region = pool.regions.len();
        pool.regions.push(Some(mapping));
        pool.refs.push(0);
        pool.live = Ghost(pool.live@.push(Set::empty()));
        proof {
            let o = old(pool);
            assert forall|q: int| 0 <= q < pool.regions@.len() implies {
                &&& (#[trigger] pool.live@[q]).finite()
                &&& pool.refs@[q] == pool.live@[q].len()
                &&& pool.refs@[q] > 0 ==> pool.regions@[q] is Some
            } by {
                if q < region {
                    assert(o.live@[q].finite());
                }
            }
            assert forall|q: int, x: int|
                0 <= q < pool.regions@.len() implies (#[trigger] pool.live@[q].contains(x)
                    <==> pool.owner@.contains_key((q, x))) by {
                if q < region {
                    assert(o.live@[q].contains(x) <==> o.owner@.contains_key((q, x)));
                } else {
                    if o.owner().contains_key((q, x)) {
                        assert(o.slot_fits((q, x)));
                    }
                }
            }
            assert forall|t: (int, int)| #[trigger] pool.owner().contains_key(t) implies pool.slot_fits(t) by {
                assert(o.owner().contains_key(t));
                assert(pool.regions@[t.0] == o.regions@[t.0]);
            }
            assert forall|p: Place| #[trigger] pool.placed(p) implies pool.queued_at(p) by {
                assert(o.placed(p));
                assert(o.queued_at(p));
                assert(pool.regions@[o.node_at(p).region as int] == o.regions@[o.node_at(p).region as int]);
            }
            assert(pool.region_bytes(region as int).len() == size);
            assert forall|r: int| 0 <= r < o.regions_len() implies #[trigger] pool.region_bytes(r) == o.region_bytes(r) by {
                assert(pool.regions@[r] == o.regions@[r]);
            }
        }
        let first = Node { region, offset: 0, thread_id: thread };
        let ghost fresh = *pool;
        proof {
            assert(!pool.owner().contains_key((region as int, 0))) by {
                if pool.owner().contains_key((region as int, 0)) {
                    assert(old(pool).owner().contains_key((region as int, 0)));
                    assert(old(pool).slot_fits((region as int, 0)));
                }
            }
            assert(pool.live@[region as int] =~= Set::<int>::empty());
            assert((0 as int) % 1024 == 0);
        }
        pool.adopt(first);
        let ghost mid = *pool;
        proof {
            assert(pool.free_list(thread as int) == fresh.free_list(thread as int));
            assert(!old(pool).held_slot(slot_of(first))) by {
                if old(pool).owner().contains_key(slot_of(first)) {
                    assert(old(pool).slot_fits(slot_of(first)));
                }
            }
            assert forall|o: int| #[trigger] pool.owner().contains_key((region as int, o)) implies o == 0 by {
                if o != 0 {
                    assert(fresh.owner().contains_key((region as int, o)));
                    assert(old(pool).owner().contains_key((region as int, o)));
                    assert(old(pool).slot_fits((region as int, o)));
                }
            }
            assert forall|u: int|
                0 <= u < old(pool).threads() && u != thread implies {
                    &&& #[trigger] pool.free_list(u) == old(pool).free_list(u)
                    &&& pool.tearing_down(u) == old(pool).tearing_down(u)
                } by {
                assert(fresh.free_list(u) == old(pool).free_list(u));
            }
            assert forall|nn: Node| #[trigger] old(pool).holds(nn) implies pool.holds(nn)
                && pool.cell_bytes(nn) == old(pool).cell_bytes(nn) by {
                assert(fresh.holds(nn));
                assert(slot_of(nn) != slot_of(first));
            }
        }
        let count = size / BUFFER_SIZE;
        let mut k: usize = 1;
        while k < count
            invariant
                1 <= k <= count,
                count == size / BUFFER_SIZE,
                size == mid.region_bytes(region as int).len(),
                size <= usize::MAX,
                region == old(pool).regions_len(),
                region < mid.regions_len(),
                mid.mapped(region as int),
                thread < mid.threads(),
                pool.wf(),
                pool.native() == mid.native(),
                pool.threads() == mid.threads(),
                mid.threads() == old(pool).threads(),
                pool.regions_len() == mid.regions_len(),
                pool.mapped(region as int),
                pool.region_bytes(region as int) == mid.region_bytes(region as int),
                1 <= pool.region_refs(region as int) <= k,
                pool.held_slot(slot_of(first)),
                pool.holds(first),
                pool.mailbox() == mid.mailbox(),
                pool.keeps_held(old(pool)),
                pool.others_unchanged(old(pool), thread as int),
                pool.tearing_down(thread as int) == old(pool).tearing_down(thread as int),
                forall|o: int| #[trigger] pool.owner().contains_key((region as int, o)) ==> o == 0 || BUFFER_SIZE <= o < k * BUFFER_SIZE,
                pool.free_list(thread as int) == if old(pool).tearing_down(thread as int) {
                    old(pool).free_list(thread as int)
                } else {
                    old(pool).free_list(thread as int) + mid.carved(region as int, thread).take(k - 1)
                },
            decreases count - k,
        {
            let ghost before = *pool;
            proof {
                assert(k * 1024 + 1024 <= size) by (nonlinear_arith)
                    requires
                        k < count,
                        count == size / 1024,
                ;
                assert((k * 1024) % 1024 == 0) by (nonlinear_arith);
                assert(pool.region_refs(region as int) < usize::MAX) by (nonlinear_arith)
                    requires pool.region_refs(region as int) <= k, k < count, count == size / 1024, size <= usize::MAX;
            }
            let node = Node { region, offset: k * BUFFER_SIZE, thread_id: thread };
            proof {
                assert(!pool.owner().contains_key(slot_of(node)));
            }
            pool.adopt(node);
            let ghost adopted = *pool;
            proof {
                assert(pool.valid_cell(node));
                assert(pool.free_list(thread as int) == before.free_list(thread as int));
                assert(pool.held_slot(slot_of(first)));
                assert(adopted.holds(first));
            }
            pool.queue(node, thread);
            proof {
                if !old(pool).tearing_down(thread as int) {
                    assert(mid.carved(region as int, thread).take(k as int) =~= mid.carved(region as int, thread).take(k - 1).push(node));
                    assert(pool.free_list(thread as int) =~= old(pool).free_list(thread as int) + mid.carved(region as int, thread).take(k as int));
                } else {
                    assert(pool.free_list(thread as int) == adopted.free_list(thread as int));
                }
                if old(pool).tearing_down(thread as int) {
                    assert(pool.region_refs(region as int) == adopted.region_refs(region as int) - 1);
                } else {
                    assert(pool.refs == adopted.refs);
                }
                assert(pool.mapped(region as int));
                assert(pool.holds(first));
                assert forall|o: int| #[trigger] pool.owner().contains_key((region as int, o)) implies o == 0 || BUFFER_SIZE <= o < (k + 1) * BUFFER_SIZE by {
                    if o != k * BUFFER_SIZE {
                        assert(adopted.owner().contains_key((region as int, o)));
                        assert(before.owner().contains_key((region as int, o)));
                    }
                }
                assert forall|nn: Node| #[trigger] old(pool).holds(nn) implies pool.holds(nn)
                    && pool.cell_bytes(nn) == old(pool).cell_bytes(nn) by {
                    assert(before.holds(nn));
                    assert(slot_of(nn) != slot_of(node));
                    assert(adopted.holds(nn));
                }
                adopted.lemma_others_from_lists(&before, thread as int);
                adopted.lemma_others_chain(&before, old(pool), thread as int);
                pool.lemma_others_chain(&adopted, old(pool), thread as int);
            }
            k = k + 1;
        }
        proof {
            assert(mid.carved(region as int, thread).take(count - 1) =~= mid.carved(region as int, thread));
            assert(pool.carved(region as int, thread) == mid.carved(region as int, thread));
            assert(region_of_pages(size as int)) by {
                assert(size == pages_len(page as int));
            }
        }
        Ok(Buffer { region, offset: 0, thread_id: thread })
    }

    /// Gives the cell back to the pool, from thread `current`.
    pub fn release(self, pool: &mut BufferPool, current: usize)
        requires
            old(pool).wf(),
            old(pool).holds(self@),
            current < old(pool).threads(),
        ensures
            release_outcome(*old(pool), self@, current, *final(pool)),
    {
        let node = Node { region: self.region, offset: self.offset, thread_id: self.thread_id };
        pool.queue(node, current);
    }

    /// A new cell for `thread`, not the one of this buffer nor any other that
    /// is handed out, holding a copy of this cell's bytes. Fails only as the
    /// acquisition does.
    pub fn try_clone(&self, pool: &mut BufferPool, thread: usize) -> (r: Result<Buffer>)
        requires
            old(pool).wf(),
            old(pool).holds(self@),
            thread < old(pool).threads(),
        ensures
            final(pool).wf(),
            final(pool).threads() == old(pool).threads(),
            final(pool).native() == old(pool).native(),
            r matches Ok(b) ==> {
                &&& final(pool).holds(b@)
                &&& !old(pool).held_slot(slot_of(b@))
                &&& !same_slot(b@, self@)
                &&& b@.thread_id == thread
                &&& final(pool).cell_bytes(b@) == old(pool).cell_bytes(self@)
                &&& final(pool).keeps_held_but(old(pool), b@)
            },
            r is Err ==> final(pool).keeps_held(old(pool)),
            r matches Err(e) ==> (e is Mmap || e is AllocationFailure),
            old(pool).free_list(thread as int).len() > 0 || old(pool).pending(thread).len() > 0
                ==> r is Ok,
    {
        let bytes = slice_to_vec(pool.read_cell(self, 0, BUFFER_SIZE));
        let b = Buffer::new(pool, thread)?;
        let ghost mid = *pool;
        proof {
            assert(mid.holds(self@));
            assert(mid.cell_bytes(self@) == old(pool).cell_bytes(self@));
        }
        pool.write_cell(&b, 0, bytes.as_slice());
        proof {
            assert(pool.cell_bytes(b@) =~= old(pool).cell_bytes(self@));
            assert forall|n: Node| #[trigger] old(pool).holds(n) && !same_slot(n, b@) implies pool.holds(n)
                && pool.cell_bytes(n) == old(pool).cell_bytes(n) by {
                assert(mid.holds(n));
            }
        }
        Ok(b)
    }
}

/// Where a queued cell waits: position `index` of the free list of thread
/// `key`, or of the mailbox entry of thread `key`.
pub struct Place {
    pub mailbox: bool,
    pub key: int,
    pub index: int,
}

/// What the pool records of a live cell: handed out, or queued at a place.
pub enum Slot {
    Held,
    Queued(Place),
}

/// The slot that a node names: its region and its offset there.
pub open spec fn slot_of(n: Node) -> (int, int) {
    (n.region as int, n.offset as int)
}

/// The cell of an acquisition's result, if it succeeded.
pub open spec fn cell_of(r: Result<Buffer>) -> Option<Node> {
    match r {
        Ok(b) => Some(b@),
        Err(_) => None,
    }
}

/// Whether `len` bytes are `PAGE_CREATION_COUNT` pages of some size.
pub open spec fn region_of_pages(len: int) -> bool {
    exists|page: int| page > 0 && len == #[trigger] pages_len(page)
}

/// The bytes in `PAGE_CREATION_COUNT` pages of `page` bytes.
pub open spec fn pages_len(page: int) -> int {
    PAGE_CREATION_COUNT * page
}

/// The allocator: the mapped regions with the count of live cells in each,
/// one free list per registered thread, and the mailbox of cells on their way
/// back to the thread that created them. A region is unmapped once none of
/// its cells is live.
pub struct BufferPool {
    regions: Vec<Option<MmapMut>>,
    refs: Vec<usize>,
    free_lists: Vec<List>,
    mailbox: DashMap<usize, Vec<Node>>,
    native: ByteOrder,
    owner: Ghost<Map<(int, int), Slot>>,
    live: Ghost<Seq<Set<int>>>,
}

impl BufferPool {
    /// How many threads are registered.
    pub closed spec fn threads(&self) -> nat {
        self.free_lists@.len()
    }

    /// How many regions have been mapped, those since unmapped included.
    pub closed spec fn regions_len(&self) -> nat {
        self.regions@.len()
    }

    /// Whether region `r` is still mapped.
    pub closed spec fn mapped(&self, r: int) -> bool {
        self.regions@[r] is Some
    }

    /// The bytes of region `r`; none once it is unmapped.
    pub closed spec fn region_bytes(&self, r: int) -> Seq<u8> {
        match self.regions@[r] {
            Some(m) => mapped_bytes(m),
            None => Seq::empty(),
        }
    }

    /// How many cells of region `r` are live: handed out or queued.
    pub closed spec fn region_refs(&self, r: int) -> int {
        self.refs@[r] as int
    }

    /// The free list of thread `t`, most recently released last.
    pub closed spec fn free_list(&self, t: int) -> Seq<Node> {
        self.free_lists@[t].list@
    }

    /// Whether thread `t` is tearing its free list down.
    pub closed spec fn tearing_down(&self, t: int) -> bool {
        self.free_lists@[t].dropping
    }

    /// The cells waiting for each thread.
    pub closed spec fn mailbox(&self) -> Map<usize, Seq<Node>> {
        mailbox_entries(self.mailbox)
    }

    /// The byte order that native reads and writes use.
    pub closed spec fn native(&self) -> ByteOrder {
        self.native
    }

    /// The live slots, each handed out or queued at a place.
    pub closed spec fn owner(&self) -> Map<(int, int), Slot> {
        self.owner@
    }

    /// The cells waiting in the mailbox for thread `t`, oldest first.
    pub open spec fn pending(&self, t: usize) -> Seq<Node> {
        if self.mailbox().contains_key(t) {
            self.mailbox()[t]
        } else {
            Seq::empty()
        }
    }

    /// `n` names a whole cell of a mapped region, created by a registered thread.
    pub open spec fn valid_cell(&self, n: Node) -> bool {
        &&& n.region < self.regions_len()
        &&& self.mapped(n.region as int)
        &&& n.offset % BUFFER_SIZE == 0
        &&& n.offset + BUFFER_SIZE <= self.region_bytes(n.region as int).len() <= usize::MAX
        &&& n.thread_id < self.threads()
    }

    /// The bytes of cell `n`.
    pub open spec fn cell_bytes(&self, n: Node) -> Seq<u8> {
        self.region_bytes(n.region as int).subrange(n.offset as int, n.offset + BUFFER_SIZE)
    }

    /// Slot `s` is handed out.
    pub open spec fn held_slot(&self, s: (int, int)) -> bool {
        self.owner().contains_key(s) && self.owner()[s] == Slot::Held
    }

    /// Cell `n` is valid and handed out: some buffer owns it.
    pub open spec fn holds(&self, n: Node) -> bool {
        self.valid_cell(n) && self.held_slot(slot_of(n))
    }

    /// Place `p` holds a cell now.
    pub open spec fn placed(&self, p: Place) -> bool {
        if p.mailbox {
            &&& 0 <= p.key <= usize::MAX
            &&& self.mailbox().contains_key(p.key as usize)
            &&& 0 <= p.index < self.mailbox()[p.key as usize].len()
        } else {
            0 <= p.key < self.threads() && 0 <= p.index < self.free_list(p.key).len()
        }
    }

    /// The cell at place `p`.
    pub open spec fn node_at(&self, p: Place) -> Node {
        if p.mailbox {
            self.mailbox()[p.key as usize][p.index]
        } else {
            self.free_list(p.key)[p.index]
        }
    }

    /// The cell at `p` is a valid cell of thread `key`, recorded as queued there.
    pub open spec fn queued_at(&self, p: Place) -> bool {
        let n = self.node_at(p);
        &&& self.valid_cell(n)
        &&& n.thread_id == p.key
        &&& self.owner().contains_key(slot_of(n))
        &&& self.owner()[slot_of(n)] == Slot::Queued(p)
    }

    /// Slot `s` is live, and no list holds it now.
    pub open spec fn unplaced(&self, s: (int, int)) -> bool {
        &&& self.owner().contains_key(s)
        &&& match self.owner()[s] {
            Slot::Held => true,
            Slot::Queued(p) => !self.placed(p),
        }
    }

    /// Live slot `s` is a whole cell of a mapped region.
    pub open spec fn slot_fits(&self, s: (int, int)) -> bool {
        &&& 0 <= s.0 < self.regions_len()
        &&& self.mapped(s.0)
        &&& s.1 >= 0
        &&& s.1 % (BUFFER_SIZE as int) == 0
        &&& s.1 + BUFFER_SIZE <= self.region_bytes(s.0).len() <= usize::MAX
    }

    /// Each region's count is the number of its live slots, and a region with
    /// live slots is mapped.
    closed spec fn counts_wf(&self) -> bool {
        &&& self.refs@.len() == self.regions@.len()
        &&& self.live@.len() == self.regions@.len()
        &&& forall|r: int|
            0 <= r < self.regions@.len() ==> {
                &&& (#[trigger] self.live@[r]).finite()
                &&& self.refs@[r] == self.live@[r].len()
                &&& self.refs@[r] > 0 ==> self.regions@[r] is Some
            }
        &&& forall|r: int, o: int|
            0 <= r < self.regions@.len() ==> (#[trigger] self.live@[r].contains(o)
                <==> self.owner@.contains_key((r, o)))
    }

    /// Every queued cell is valid, filed under its creating thread and recorded
    /// at its place, so that no cell is queued twice or queued while handed
    /// out; every live slot is a whole cell of a mapped region, counted in it.
    pub closed spec fn wf(&self) -> bool {
        &&& self.counts_wf()
        &&& forall|p: Place| #[trigger] self.placed(p) ==> self.queued_at(p)
        &&& forall|s: (int, int)| #[trigger] self.owner().contains_key(s) ==> self.slot_fits(s)
    }

    /// Every cell that `old` held is still held, with the same bytes.
    pub open spec fn keeps_held(&self, old: &BufferPool) -> bool {
        forall|n: Node|
            #[trigger] old.holds(n) ==> self.holds(n) && self.cell_bytes(n) == old.cell_bytes(n)
    }

    /// Every cell that `old` held, but `cell`, is still held with the same bytes.
    pub open spec fn keeps_held_but(&self, old: &BufferPool, cell: Node) -> bool {
        forall|n: Node|
            #[trigger] old.holds(n) && !same_slot(n, cell) ==> self.holds(n) && self.cell_bytes(n)
                == old.cell_bytes(n)
    }

    /// Threads other than `t` have the same free list and flag as in `old`.
    pub open spec fn others_unchanged(&self, old: &BufferPool, t: int) -> bool {
        forall|u: int|
            0 <= u < old.threads() && u != t ==> {
                &&& #[trigger] self.free_list(u) == old.free_list(u)
                &&& self.tearing_down(u) == old.tearing_down(u)
            }
    }

    /// Every thread has the same free list and flag as in `old`.
    pub open spec fn lists_unchanged(&self, old: &BufferPool) -> bool {
        forall|u: int|
            0 <= u < old.threads() ==> {
                &&& #[trigger] self.free_list(u) == old.free_list(u)
                &&& self.tearing_down(u) == old.tearing_down(u)
            }
    }

    /// Only the bytes of cells differ from `old`: the same threads, lists,
    /// mailbox, live slots and region sizes.
    pub open spec fn same_but_bytes(&self, old: &BufferPool) -> bool {
        &&& self.native() == old.native()
        &&& self.threads() == old.threads()
        &&& self.regions_len() == old.regions_len()
        &&& self.mailbox() == old.mailbox()
        &&& self.owner() == old.owner()
        &&& self.lists_unchanged(old)
        &&& forall|r: int| 0 <= r < old.regions_len() ==> #[trigger] self.mapped(r) == old.mapped(r)
        &&& forall|r: int|
            0 <= r < old.regions_len() ==> #[trigger] self.region_refs(r) == old.region_refs(r)
        &&& forall|r: int|
            0 <= r < old.regions_len() ==> #[trigger] self.region_bytes(r).len()
                == old.region_bytes(r).len()
        &&& forall|n: Node| #[trigger] old.holds(n) ==> self.holds(n)
    }

    /// Two steps that change only bytes change only bytes.
    pub proof fn lemma_same_but_bytes_trans(&self, mid: &BufferPool, base: &BufferPool)
        requires
            mid.same_but_bytes(base),
            self.same_but_bytes(mid),
        ensures
            self.same_but_bytes(base),
    {
        assert forall|u: int|
            0 <= u < base.threads() implies {
                &&& #[trigger] self.free_list(u) == base.free_list(u)
                &&& self.tearing_down(u) == base.tearing_down(u)
            } by {
            assert(mid.free_list(u) == base.free_list(u));
            assert(self.free_list(u) == mid.free_list(u));
        }
        assert forall|r: int| 0 <= r < base.regions_len() implies {
            &&& #[trigger] self.region_bytes(r).len() == base.region_bytes(r).len()
            &&& self.mapped(r) == base.mapped(r)
            &&& self.region_refs(r) == base.region_refs(r)
        } by {
            assert(mid.region_bytes(r).len() == base.region_bytes(r).len());
            assert(self.region_bytes(r).len() == mid.region_bytes(r).len());
            assert(mid.mapped(r) == base.mapped(r));
            assert(self.mapped(r) == mid.mapped(r));
            assert(mid.region_refs(r) == base.region_refs(r));
            assert(self.region_refs(r) == mid.region_refs(r));
        }
        assert forall|r: int| 0 <= r < base.regions_len() implies #[trigger] self.mapped(r) == base.mapped(r) by {
            assert(self.region_bytes(r).len() == base.region_bytes(r).len());
        }
        assert forall|r: int| 0 <= r < base.regions_len() implies #[trigger] self.region_refs(r) == base.region_refs(r) by {
            assert(self.region_bytes(r).len() == base.region_bytes(r).len());
        }
        assert forall|n: Node| #[trigger] base.holds(n) implies self.holds(n) by {
            assert(mid.holds(n));
        }
    }

    /// How many whole cells region `r` holds.
    pub open spec fn region_cells(&self, r: int) -> int {
        self.region_bytes(r).len() as int / BUFFER_SIZE as int
    }

    /// The cells of region `r` after its first, as a fresh region is queued
    /// for thread `t`.
    pub open spec fn carved(&self, r: int, t: usize) -> Seq<Node> {
        Seq::new(
            (self.region_cells(r) - 1) as nat,
            |k: int| Node { region: r as usize, offset: ((k + 1) * BUFFER_SIZE) as usize, thread_id: t },
        )
    }

    /// The fields but the lists, the mailbox and the live slots are those of `old`.
    closed spec fn same_storage(&self, old: &BufferPool) -> bool {
        &&& self.regions == old.regions
        &&& self.refs == old.refs
        &&& self.live == old.live
        &&& self.native == old.native
        &&& self.free_lists@.len() == old.free_lists@.len()
    }

    /// Taking cells off the lists keeps `wf`.
    proof fn lemma_wf_fewer_places(&self, base: &BufferPool)
        requires
            base.wf(),
            self.same_storage(base),
            self.owner == base.owner,
            forall|p: Place| #[trigger] self.placed(p) ==> base.placed(p) && self.node_at(p) == base.node_at(p),
        ensures
            self.wf(),
    {
        assert forall|p: Place| #[trigger] self.placed(p) implies self.queued_at(p) by {
            assert(base.placed(p));
        }
        assert forall|s: (int, int)| #[trigger] self.owner().contains_key(s) implies self.slot_fits(s) by {
            assert(base.owner().contains_key(s));
        }
    }

    /// Recording an unplaced live slot under a new value, with one new place
    /// `np` holding it if the value is `Queued(np)`, keeps `wf`.
    proof fn lemma_wf_retag(&self, base: &BufferPool, s: (int, int), v: Slot)
        requires
            base.wf(),
            base.unplaced(s),
            self.same_storage(base),
            self.owner@ == base.owner@.insert(s, v),
            v matches Slot::Queued(np) ==> {
                &&& self.placed(np)
                &&& slot_of(self.node_at(np)) == s
                &&& self.node_at(np).thread_id == np.key
                &&& self.node_at(np).thread_id < self.threads()
            },
            forall|p: Place|
                #[trigger] self.placed(p) && v != Slot::Queued(p) ==> base.placed(p) && self.node_at(p)
                    == base.node_at(p),
        ensures
            self.wf(),
    {
        assert forall|p: Place| #[trigger] self.placed(p) implies self.queued_at(p) by {
            if v == Slot::Queued(p) {
                assert(base.owner().contains_key(s));
                assert(base.slot_fits(s));
            } else {
                assert(base.placed(p));
                assert(base.queued_at(p));
                let t = slot_of(base.node_at(p));
                if t == s {
                    assert(base.owner()[s] == Slot::Queued(p));
                }
            }
        }
        assert forall|q: (int, int)| #[trigger] self.owner().contains_key(q) implies self.slot_fits(q) by {
            assert(base.owner().contains_key(q));
        }
        assert forall|r: int, o: int|
            0 <= r < self.regions@.len() implies (#[trigger] self.live@[r].contains(o)
                <==> self.owner@.contains_key((r, o))) by {
            assert(base.live@[r].contains(o) <==> base.owner@.contains_key((r, o)));
        }
    }

    /// Lists and flags were kept from `mid`, which kept others but `t` from `old`.
    proof fn lemma_others_chain(&self, mid: &BufferPool, base: &BufferPool, t: int)
        requires
            mid.others_unchanged(base, t),
            self.others_unchanged(mid, t),
            mid.threads() == base.threads(),
        ensures
            self.others_unchanged(base, t),
    {
        assert forall|u: int|
            0 <= u < base.threads() && u != t implies {
                &&& #[trigger] self.free_list(u) == base.free_list(u)
                &&& self.tearing_down(u) == base.tearing_down(u)
            } by {
            assert(mid.free_list(u) == base.free_list(u));
            assert(mid.tearing_down(u) == base.tearing_down(u));
            assert(self.free_list(u) == mid.free_list(u));
            assert(self.tearing_down(u) == mid.tearing_down(u));
        }
    }

    /// Keeping every list keeps those of the threads other than `t`.
    proof fn lemma_others_from_lists(&self, base: &BufferPool, t: int)
        requires
            self.lists_unchanged(base),
        ensures
            self.others_unchanged(base, t),
    {
        assert forall|u: int|
            #![trigger self.free_list(u)]
            #![trigger self.tearing_down(u)]
            0 <= u < base.threads() && u != t implies {
                &&& self.free_list(u) == base.free_list(u)
                &&& self.tearing_down(u) == base.tearing_down(u)
            } by {
            assert(self.free_list(u) == base.free_list(u));
        }
    }

    /// A pool with no regions and no threads.
    pub fn new() -> (r: BufferPool)
        ensures
            r.wf(),
            r.threads() == 0,
            r.regions_len() == 0,
            r.mailbox() == Map::<usize, Seq<Node>>::empty(),
    {
        let r = BufferPool {
            regions: Vec::new(),
            refs: Vec::new(),
            free_lists: Vec::new(),
            mailbox: mailbox_new(),
            native: native_order(),
            owner: Ghost(Map::empty()),
            live: Ghost(Seq::empty()),
        };
        proof {
            assert(r.mailbox() =~= Map::<usize, Seq<Node>>::empty());
            assert forall|p: Place| #[trigger] r.placed(p) implies r.queued_at(p) by {}
        }
        r
    }

    /// Makes a new thread known to the pool and returns its key.
    pub fn register_thread(&mut self) -> (t: usize)
        requires
            old(self).wf(),
            old(self).threads() < usize::MAX,
        ensures
            final(self).wf(),
            t == old(self).threads(),
            final(self).threads() == old(self).threads() + 1,
            final(self).free_list(t as int).len() == 0,
            !final(self).tearing_down(t as int),
            final(self).mailbox() == old(self).mailbox(),
            final(self).regions_len() == old(self).regions_len(),
            final(self).native() == old(self).native(),
            final(self).keeps_held(old(self)),
            final(self).others_unchanged(old(self), t as int),
    {
        let t = self.free_lists.len();
        self.free_lists.push(List::new());
        proof {
            assert forall|p: Place| #[trigger] self.placed(p) implies self.queued_at(p) by {
                assert(old(self).placed(p));
                if !p.mailbox {
                    assert(self.free_list(p.key) == old(self).free_list(p.key));
                }
            }
            assert forall|s: (int, int)| #[trigger] self.owner().contains_key(s) implies self.slot_fits(s) by {
                assert(old(self).owner().contains_key(s));
            }
            assert forall|u: int|
                0 <= u < old(self).threads() && u != t implies {
                    &&& #[trigger] self.free_list(u) == old(self).free_list(u)
                    &&& self.tearing_down(u) == old(self).tearing_down(u)
                } by {}
        }
        t
    }

    /// Drops a live cell that no list holds: its region counts one live cell
    /// less, and is unmapped when that was its last.
    fn drop_cell(&mut self, node: Node)
        requires
            old(self).wf(),
            old(self).unplaced(slot_of(node)),
        ensures
            final(self).wf(),
            final(self).owner() == old(self).owner().remove(slot_of(node)),
            final(self).native() == old(self).native(),
            final(self).threads() == old(self).threads(),
            final(self).regions_len() == old(self).regions_len(),
            final(self).mailbox() == old(self).mailbox(),
            final(self).lists_unchanged(old(self)),
            final(self).keeps_held_but(old(self), node),
            final(self).region_refs(node.region as int) == old(self).region_refs(node.region as int) - 1,
            final(self).region_refs(node.region as int) == 0 ==> !final(self).mapped(node.region as int),
            forall|r: int|
                0 <= r < old(self).regions_len() && #[trigger] final(self).mapped(r) ==> old(self).mapped(r)
                    && final(self).region_bytes(r) == old(self).region_bytes(r),
            forall|r: int| 0 <= r < old(self).regions_len() && final(self).region_refs(r) > 0 ==> #[trigger] final(self).mapped(r),
            forall|r: int| 0 <= r < old(self).regions_len() && r != node.region ==> #[trigger] final(self).region_refs(r) == old(self).region_refs(r),
    {
        let ghost s = slot_of(node);
        let r = node.region;
        proof {
            assert(old(self).owner().contains_key(s));
            assert(old(self).slot_fits(s));
            assert(old(self).live@[r as int].contains(node.offset as int));
        }
        let count = self.refs[r] - 1;
        self.refs.set(r, count);
        self.owner = Ghost(self.owner@.remove(s));
        self.live = Ghost(self.live@.update(r as int, self.live@[r as int].remove(node.offset as int)));
        if count == 0 {
            self.regions.set(r, None);
        }
        proof {
            let o = old(self);
            assert forall|q: int| 0 <= q < self.regions@.len() implies {
                &&& (#[trigger] self.live@[q]).finite()
                &&& self.refs@[q] == self.live@[q].len()
                &&& self.refs@[q] > 0 ==> self.regions@[q] is Some
            } by {
                assert(o.live@[q].finite());
            }
            assert forall|q: int, x: int|
                0 <= q < self.regions@.len() implies (#[trigger] self.live@[q].contains(x)
                    <==> self.owner@.contains_key((q, x))) by {
                assert(o.live@[q].contains(x) <==> o.owner@.contains_key((q, x)));
            }
            assert forall|t: (int, int)| #[trigger] self.owner().contains_key(t) implies self.slot_fits(t) by {
                assert(o.owner().contains_key(t));
                assert(o.slot_fits(t));
                assert(self.live@[t.0].contains(t.1));
                assert(self.live@[t.0].len() > 0);
            }
            assert forall|p: Place| #[trigger] self.placed(p) implies self.queued_at(p) by {
                assert(o.placed(p));
                assert(o.queued_at(p));
                let t = slot_of(o.node_at(p));
                assert(t != s);
                assert(self.owner().contains_key(t));
                assert(self.slot_fits(t));
            }
            assert forall|n: Node| #[trigger] o.holds(n) && !same_slot(n, node) implies self.holds(n)
                && self.cell_bytes(n) == o.cell_bytes(n) by {
                assert(o.owner().contains_key(slot_of(n)));
                assert(self.owner().contains_key(slot_of(n)));
                assert(self.slot_fits(slot_of(n)));
            }
            assert forall|u: int|
                0 <= u < o.threads() implies {
                    &&& #[trigger] self.free_list(u) == o.free_list(u)
                    &&& self.tearing_down(u) == o.tearing_down(u)
                } by {}
            assert forall|q: int|
                0 <= q < o.regions_len() && #[trigger] self.mapped(q) implies o.mapped(q)
                    && self.region_bytes(q) == o.region_bytes(q) by {}
            assert forall|q: int| 0 <= q < o.regions_len() && self.region_refs(q) > 0 implies #[trigger] self.mapped(q) by {
                assert(self.live@[q].finite());
            }
        }
    }

    /// Thread `t` tears its free list down: from now on the cells it releases
    /// are dropped rather than queued, and those it had queued are dropped.
    pub fn retire_thread(&mut self, t: usize)
        requires
            old(self).wf(),
            t < old(self).threads(),
        ensures
            final(self).wf(),
            final(self).tearing_down(t as int),
            final(self).free_list(t as int).len() == 0,
            final(self).threads() == old(self).threads(),
            final(self).regions_len() == old(self).regions_len(),
            final(self).native() == old(self).native(),
            final(self).mailbox() == old(self).mailbox(),
            final(self).keeps_held(old(self)),
            final(self).others_unchanged(old(self), t as int),
    {
        self.free_lists[t].dropping = true;
        proof {
            self.lemma_wf_fewer_places(old(self));
            assert forall|u: int|
                0 <= u < old(self).threads() && u != t implies {
                    &&& #[trigger] self.free_list(u) == old(self).free_list(u)
                    &&& self.tearing_down(u) == old(self).tearing_down(u)
                } by {}
        }
        while self.free_lists[t].list.len() > 0
            invariant
                self.wf(),
                t < self.threads(),
                self.tearing_down(t as int),
                self.threads() == old(self).threads(),
                self.regions_len() == old(self).regions_len(),
                self.native() == old(self).native(),
                self.mailbox() == old(self).mailbox(),
                self.keeps_held(old(self)),
                self.others_unchanged(old(self), t as int),
            decreases self.free_list(t as int).len(),
        {
            let ghost before = *self;
            let node = self.free_lists[t].list.pop().unwrap();
            proof {
                let gone = Place { mailbox: false, key: t as int, index: before.free_list(t as int).len() - 1 };
                assert(before.placed(gone));
                assert(before.queued_at(gone));
                assert forall|p: Place| #[trigger] self.placed(p) implies before.placed(p) && self.node_at(p) == before.node_at(p) by {}
                self.lemma_wf_fewer_places(&before);
                assert(!self.placed(gone));
            }
            let ghost popped = *self;
            self.drop_cell(node);
            proof {
                assert(self.free_list(t as int) == popped.free_list(t as int));
                assert forall|n: Node| #[trigger] old(self).holds(n) implies self.holds(n)
                    && self.cell_bytes(n) == old(self).cell_bytes(n) by {
                    assert(before.holds(n));
                    assert(popped.holds(n));
                    assert(!same_slot(n, node));
                }
                assert forall|u: int|
                    0 <= u < old(self).threads() && u != t implies {
                        &&& #[trigger] self.free_list(u) == old(self).free_list(u)
                        &&& self.tearing_down(u) == old(self).tearing_down(u)
                    } by {
                    assert(before.free_list(u) == old(self).free_list(u));
                    assert(popped.free_list(u) == before.free_list(u));
                }
            }
        }
    }

    /// Takes a fresh, valid slot into the pool as handed out.
    fn adopt(&mut self, node: Node)
        requires
            old(self).wf(),
            !old(self).owner().contains_key(slot_of(node)),
            old(self).slot_fits(slot_of(node)),
            old(self).region_refs(node.region as int) < usize::MAX,
        ensures
            final(self).wf(),
            final(self).owner() == old(self).owner().insert(slot_of(node), Slot::Held),
            final(self).native() == old(self).native(),
            final(self).threads() == old(self).threads(),
            final(self).regions_len() == old(self).regions_len(),
            final(self).mailbox() == old(self).mailbox(),
            final(self).lists_unchanged(old(self)),
            final(self).region_refs(node.region as int) == old(self).region_refs(node.region as int) + 1,
            forall|r: int| 0 <= r < old(self).regions_len() ==> #[trigger] final(self).region_bytes(r) == old(self).region_bytes(r),
            forall|r: int| 0 <= r < old(self).regions_len() ==> #[trigger] final(self).mapped(r) == old(self).mapped(r),
    {
        let ghost s = slot_of(node);
        let r = node.region;
        let count = self.refs[r] + 1;
        self.refs.set(r, count);
        self.owner = Ghost(self.owner@.insert(s, Slot::Held));
        self.live = Ghost(self.live@.update(r as int, self.live@[r as int].insert(node.offset as int)));
        proof {
            let o = old(self);
            assert(!o.live@[r as int].contains(node.offset as int));
            assert forall|q: int| 0 <= q < self.regions@.len() implies {
                &&& (#[trigger] self.live@[q]).finite()
                &&& self.refs@[q] == self.live@[q].len()
                &&& self.refs@[q] > 0 ==> self.regions@[q] is Some
            } by {
                assert(o.live@[q].finite());
            }
            assert forall|q: int, x: int|
                0 <= q < self.regions@.len() implies (#[trigger] self.live@[q].contains(x)
                    <==> self.owner@.contains_key((q, x))) by {
                assert(o.live@[q].contains(x) <==> o.owner@.contains_key((q, x)));
            }
            assert forall|t: (int, int)| #[trigger] self.owner().contains_key(t) implies self.slot_fits(t) by {
                if t != s {
                    assert(o.owner().contains_key(t));
                }
            }
            assert forall|p: Place| #[trigger] self.placed(p) implies self.queued_at(p) by {
                assert(o.placed(p));
                assert(o.queued_at(p));
            }
            assert forall|u: int|
                0 <= u < o.threads() implies {
                    &&& #[trigger] self.free_list(u) == o.free_list(u)
                    &&& self.tearing_down(u) == o.tearing_down(u)
                } by {}
        }
    }

    /// Files `node` as released on thread `current`: dropped while `current`
    /// tears down, onto `current`'s free list if it created the cell, else
    /// into the mailbox of the thread that did.
    fn queue(&mut self, node: Node, current: usize)
        requires
            old(self).wf(),
            old(self).valid_cell(node),
            old(self).unplaced(slot_of(node)),
            current < old(self).threads(),
        ensures
            final(self).wf(),
            final(self).native() == old(self).native(),
            final(self).threads() == old(self).threads(),
            final(self).regions_len() == old(self).regions_len(),
            final(self).keeps_held_but(old(self), node),
            !final(self).held_slot(slot_of(node)),
            final(self).tearing_down(current as int) == old(self).tearing_down(current as int),
            final(self).others_unchanged(old(self), current as int),
            old(self).tearing_down(current as int) ==> {
                &&& final(self).owner() == old(self).owner().remove(slot_of(node))
                &&& final(self).mailbox() == old(self).mailbox()
                &&& final(self).lists_unchanged(old(self))
                &&& final(self).region_refs(node.region as int) == old(self).region_refs(node.region as int) - 1
                &&& final(self).region_refs(node.region as int) == 0 ==> !final(self).mapped(node.region as int)
            },
            forall|r: int|
                0 <= r < old(self).regions_len() && #[trigger] final(self).mapped(r) ==> old(self).mapped(r)
                    && final(self).region_bytes(r) == old(self).region_bytes(r),
            forall|r: int| 0 <= r < old(self).regions_len() && final(self).region_refs(r) > 0 ==> #[trigger] final(self).mapped(r),
            forall|r: int| 0 <= r < old(self).regions_len() && r != node.region ==> #[trigger] final(self).region_refs(r) == old(self).region_refs(r),
            !old(self).tearing_down(current as int) ==> final(self).same_storage(old(self)),
            !old(self).tearing_down(current as int) && node.thread_id == current ==> {
                &&& final(self).free_list(current as int) == old(self).free_list(current as int).push(node)
                &&& final(self).tearing_down(current as int) == old(self).tearing_down(current as int)
                &&& final(self).mailbox() == old(self).mailbox()
                &&& final(self).others_unchanged(old(self), current as int)
                &&& final(self).owner() == old(self).owner().insert(
                    slot_of(node),
                    Slot::Queued(Place { mailbox: false, key: current as int, index: old(self).free_list(current as int).len() as int }),
                )
            },
            !old(self).tearing_down(current as int) && node.thread_id != current ==> {
                &&& final(self).mailbox() == old(self).mailbox().insert(
                    node.thread_id,
                    old(self).pending(node.thread_id).push(node),
                )
                &&& final(self).lists_unchanged(old(self))
                &&& final(self).owner() == old(self).owner().insert(
                    slot_of(node),
                    Slot::Queued(Place { mailbox: true, key: node.thread_id as int, index: old(self).pending(node.thread_id).len() as int }),
                )
            },
    {
        if self.free_lists[current].dropping {
            self.drop_cell(node);
            proof {
                self.lemma_others_from_lists(old(self), current as int);
            }
            return;
        }
        let ghost s = slot_of(node);
        if node.thread_id == current {
            let ghost np = Place { mailbox: false, key: current as int, index: self.free_list(current as int).len() as int };
            self.free_lists[current].list.push(node);
            self.owner = Ghost(self.owner@.insert(s, Slot::Queued(np)));
            proof {
                assert forall|p: Place|
                    #[trigger] self.placed(p) && Slot::Queued(np) != Slot::Queued(p) implies old(self).placed(p)
                        && self.node_at(p) == old(self).node_at(p) by {
                    if !p.mailbox && p.key == current {
                        assert(self.free_list(p.key)[p.index] == old(self).free_list(p.key)[p.index]);
                    }
                }
                self.lemma_wf_retag(old(self), s, Slot::Queued(np));
                assert forall|u: int|
                    0 <= u < old(self).threads() && u != current implies {
                        &&& #[trigger] self.free_list(u) == old(self).free_list(u)
                        &&& self.tearing_down(u) == old(self).tearing_down(u)
                    } by {}
            }
        } else {
            let owner_key = node.thread_id;
            let ghost np = Place { mailbox: true, key: owner_key as int, index: old(self).pending(owner_key).len() as int };
            let mut list = match mailbox_remove(&mut self.mailbox, owner_key) {
                Some(list) => list,
                None => Vec::new(),
            };
            list.push(node);
            let displaced = mailbox_insert(&mut self.mailbox, owner_key, list);
            self.owner = Ghost(self.owner@.insert(s, Slot::Queued(np)));
            proof {
                assert(displaced is None);
                assert(self.mailbox() =~= old(self).mailbox().insert(owner_key, old(self).pending(owner_key).push(node)));
                assert forall|p: Place|
                    #[trigger] self.placed(p) && Slot::Queued(np) != Slot::Queued(p) implies old(self).placed(p)
                        && self.node_at(p) == old(self).node_at(p) by {
                    if p.mailbox && p.key == owner_key {
                        assert(self.mailbox()[owner_key][p.index] == old(self).mailbox()[owner_key][p.index]);
                    } else if p.mailbox {
                        assert(self.mailbox()[p.key as usize] == old(self).mailbox()[p.key as usize]);
                    } else {
                        assert(self.free_list(p.key) == old(self).free_list(p.key));
                    }
                }
                self.lemma_wf_retag(old(self), s, Slot::Queued(np));
                assert forall|u: int|
                    0 <= u < old(self).threads() implies {
                        &&& #[trigger] self.free_list(u) == old(self).free_list(u)
                        &&& self.tearing_down(u) == old(self).tearing_down(u)
                    } by {}
                self.lemma_others_from_lists(old(self), current as int);
            }
        }
        proof {
            assert forall|n: Node| #[trigger] old(self).holds(n) && !same_slot(n, node) implies self.holds(n)
                && self.cell_bytes(n) == old(self).cell_bytes(n) by {}
            assert forall|q: int|
                0 <= q < old(self).regions_len() && #[trigger] self.mapped(q) implies old(self).mapped(q)
                    && self.region_bytes(q) == old(self).region_bytes(q) by {}
            assert forall|q: int| 0 <= q < old(self).regions_len() && self.region_refs(q) > 0 implies #[trigger] self.mapped(q) by {
                assert(old(self).live@[q].finite());
            }
        }
    }

    /// How many regions have been mapped, those since unmapped included.
    pub fn region_count(&self) -> (r: usize)
        ensures
            r == self.regions_len(),
    {
        self.regions.len()
    }

    /// Whether region `r` is still mapped.
    pub fn region_mapped(&self, r: usize) -> (b: bool)
        requires
            r < self.regions_len(),
        ensures
            b == self.mapped(r as int),
    {
        self.regions[r].is_some()
    }

    /// How many cells wait on thread `t`'s free list.
    pub fn free_len(&self, t: usize) -> (r: usize)
        requires
            t < self.threads(),
        ensures
            r == self.free_list(t as int).len(),
    {
        self.free_lists[t].list.len()
    }

    /// The byte order that native reads and writes use.
    pub fn native_order(&self) -> (r: ByteOrder)
        ensures
            r == self.native(),
    {
        self.native
    }

    /// `len` bytes of `cell` from `at`.
    pub fn read_cell<'a>(&'a self, cell: &Buffer, at: usize, len: usize) -> (r: &'a [u8])
        requires
            self.valid_cell(cell@),
            at + len <= BUFFER_SIZE,
        ensures
            r@ == self.cell_bytes(cell@).subrange(at as int, at + len),
    {
        let m = self.regions[cell.region].as_ref().unwrap();
        let r = read_mapped(m, cell.offset + at, len);
        assert(r@ =~= self.cell_bytes(cell@).subrange(at as int, at + len));
        r
    }

    /// Copies `src` into `cell` at `at`; no other cell changes.
    pub fn write_cell(&mut self, cell: &Buffer, at: usize, src: &[u8])
        requires
            old(self).wf(),
            old(self).valid_cell(cell@),
            at + src@.len() <= BUFFER_SIZE,
        ensures
            final(self).wf(),
            final(self).same_but_bytes(old(self)),
            final(self).cell_bytes(cell@) == spliced(old(self).cell_bytes(cell@), at as int, src@),
            forall|n: Node|
                old(self).valid_cell(n) && !same_slot(n, cell@) ==> #[trigger] final(self).cell_bytes(n)
                    == old(self).cell_bytes(n),
    {
        let r = cell.region;
        match &mut self.regions[r] {
            Some(m) => write_mapped(m, cell.offset + at, src),
            None => {},
        }
        proof {
            let o = old(self);
            let c = cell@;
            assert(self.region_bytes(r as int).len() == o.region_bytes(r as int).len());
            assert(self.cell_bytes(c) =~= spliced(o.cell_bytes(c), at as int, src@));
            assert forall|n: Node|
                o.valid_cell(n) && !same_slot(n, c) implies #[trigger] self.cell_bytes(n)
                    == o.cell_bytes(n) by {
                if n.region == r {
                    lemma_slots_apart(n.offset as int, c.offset as int);
                    assert(self.cell_bytes(n) =~= o.cell_bytes(n));
                }
            }
            assert forall|q: int| 0 <= q < self.regions@.len() implies {
                &&& (#[trigger] self.live@[q]).finite()
                &&& self.refs@[q] == self.live@[q].len()
                &&& self.refs@[q] > 0 ==> self.regions@[q] is Some
            } by {
                assert(o.live@[q].finite());
                assert(o.refs@[q] > 0 ==> o.regions@[q] is Some);
            }
            assert forall|q: int, x: int|
                0 <= q < self.regions@.len() implies (#[trigger] self.live@[q].contains(x)
                    <==> self.owner@.contains_key((q, x))) by {
                assert(o.live@[q].contains(x) <==> o.owner@.contains_key((q, x)));
            }
            assert forall|q: int| 0 <= q < o.regions_len() implies #[trigger] self.mapped(q) == o.mapped(q) by {}
            assert forall|q: int| 0 <= q < o.regions_len() implies #[trigger] self.region_refs(q) == o.region_refs(q) by {}
            assert forall|q: int| 0 <= q < o.regions_len() implies #[trigger] self.region_bytes(q).len() == o.region_bytes(q).len() by {}
            assert forall|t: (int, int)| #[trigger] self.owner().contains_key(t) implies self.slot_fits(t) by {
                assert(o.owner().contains_key(t));
                assert(self.region_bytes(t.0).len() == o.region_bytes(t.0).len());
            }
            assert forall|n: Node| #[trigger] o.holds(n) implies self.holds(n) by {
                assert(self.region_bytes(n.region as int).len() == o.region_bytes(n.region as int).len());
            }
            assert forall|p: Place| #[trigger] self.placed(p) implies self.queued_at(p) by {
                assert(o.placed(p));
                assert(o.queued_at(p));
                let n = o.node_at(p);
                assert(self.region_bytes(n.region as int).len() == o.region_bytes(n.region as int).len());
            }
            assert forall|u: int|
                0 <= u < o.threads() implies {
                    &&& #[trigger] self.free_list(u) == o.free_list(u)
                    &&& self.tearing_down(u) == o.tearing_down(u)
                } by {}
        }
    }
}

} // verus!
