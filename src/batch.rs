//! The batch renderer: many small geometries in two shared buffers, drawn by
//! one indexed draw call.
use crate::device::{
    lemma_run_concat, lemma_run_one, lemma_run_two, ops_of, restart_fill, run, runs_in_bounds, Command,
    DeviceModel, Op, RESTART_INDEX,
};
use crate::mesh::Mesh;
use crate::span::{disjoint, placed, BufferAlloc, SpanAllocator};
use std::marker::PhantomData;
use vstd::prelude::*;

verus! {

/// Where one geometry lives: a run of vertex slots and a run of index slots.
/// Handed out by [`BatchRenderer::push_with`], and needed by every later
/// `modify` or `drop` of that geometry.
#[derive(Debug, Clone, Copy, PartialEq, Eq, Structural)]
pub struct Idx {
    pub vbo: BufferAlloc,
    pub ibo: BufferAlloc,
}

/// A pending effect: upload a geometry's content at its handle, or, for
/// `None`, fill the handle's index run with restart indices.
pub type Entry<M> = (Option<M>, Idx);

/// The work that one log entry turns into.
pub open spec fn entry_ops<M: Mesh<V>, V>(e: Entry<M>) -> Seq<Op<V>> {
    match e.0 {
        Some(m) => seq![
            Op::WriteVertices(e.1.vbo.offset as nat, m.vertex_seq()),
            Op::WriteIndices(e.1.ibo.offset as nat, m.index_seq(e.1.vbo.offset as u32)),
        ],
        None => seq![Op::WriteIndices(e.1.ibo.offset as nat, Seq::new(e.1.ibo.len as nat, |k: int| RESTART_INDEX))],
    }
}

/// The work that a whole log turns into, entry by entry in order.
pub open spec fn log_ops<M: Mesh<V>, V>(log: Seq<Entry<M>>) -> Seq<Op<V>>
    decreases log.len(),
{
    if log.len() == 0 {
        Seq::empty()
    } else {
        log_ops(log.drop_last()) + entry_ops(log.last())
    }
}

/// The capacity of a buffer once `requested` slots must fit: unchanged if
/// they already do, else twice what is requested.
pub open spec fn grown(capacity: nat, requested: nat) -> nat {
    if requested > capacity {
        2 * requested
    } else {
        capacity
    }
}

/// A log entry is sound: its runs lie below the tails, and a geometry to
/// upload produces exactly as many vertices and indices as its runs hold.
pub open spec fn entry_ok<M: Mesh<V>, V>(e: Entry<M>, vertex_tail: nat, index_tail: nat) -> bool {
    &&& e.1.vbo.end() <= vertex_tail
    &&& e.1.ibo.end() <= index_tail
    &&& match e.0 {
        Some(m) => {
            &&& m.vertex_seq().len() == e.1.vbo.len
            &&& m.index_seq(e.1.vbo.offset as u32).len() == e.1.ibo.len
        },
        None => true,
    }
}

/// Packs geometries of type `M`, made of vertices of type `V`, into one
/// vertex buffer and one index buffer.
///
/// `push_with`, `modify` and `drop` only keep books; `generate`, once per
/// frame, turns the books into GPU work.
pub struct BatchRenderer<M, V> {
    vbo: SpanAllocator,
    ibo: SpanAllocator,
    vbo_capacity: u64,
    ibo_capacity: u64,
    modified: Vec<Entry<M>>,
    live: Ghost<Seq<Idx>>,
    vertex: PhantomData<V>,
}

impl<M: Mesh<V>, V> BatchRenderer<M, V> {
    /// The vertex address space.
    pub closed spec fn vertex_space(&self) -> SpanAllocator {
        self.vbo
    }

    /// The index address space.
    pub closed spec fn index_space(&self) -> SpanAllocator {
        self.ibo
    }

    /// Capacity, in elements, of the vertex buffer on the device.
    pub closed spec fn vertex_capacity(&self) -> nat {
        self.vbo_capacity as nat
    }

    /// Capacity, in elements, of the index buffer on the device.
    pub closed spec fn index_capacity(&self) -> nat {
        self.ibo_capacity as nat
    }

    /// The pending effects, oldest first.
    pub closed spec fn log(&self) -> Seq<Entry<M>> {
        self.modified@
    }

    /// The handles that were pushed and not dropped yet.
    pub closed spec fn live_handles(&self) -> Seq<Idx> {
        self.live@
    }

    /// The handle has a pending effect.
    pub open spec fn pending(&self, h: Idx) -> bool {
        exists|i: int| 0 <= i < self.log().len() && (#[trigger] self.log()[i]).1 == h
    }

    /// The number of indices that one draw call covers.
    pub open spec fn index_count(&self) -> nat {
        self.index_space().next_offset()
    }

    /// The GPU work that `generate` hands out in this state: growth first,
    /// vertex buffer before index buffer, then the log in order.
    pub open spec fn generate_ops(&self) -> Seq<Op<V>> {
        let v = if self.vertex_space().next_offset() > self.vertex_capacity() {
            seq![Op::GrowVertices(2 * self.vertex_space().next_offset())]
        } else {
            Seq::empty()
        };
        let i = if self.index_space().next_offset() > self.index_capacity() {
            seq![Op::GrowIndices(2 * self.index_space().next_offset())]
        } else {
            Seq::empty()
        };
        v + i + log_ops(self.log())
    }

    /// `after` is this renderer once `generate` has run: same books, log
    /// drained, each buffer grown if its requested length exceeded it.
    pub open spec fn generated(&self, after: Self) -> bool {
        &&& after.vertex_space() == self.vertex_space()
        &&& after.index_space() == self.index_space()
        &&& after.live_handles() == self.live_handles()
        &&& after.log().len() == 0
        &&& after.vertex_capacity() == grown(self.vertex_capacity(), self.vertex_space().next_offset())
        &&& after.index_capacity() == grown(self.index_capacity(), self.index_space().next_offset())
    }

    /// The books are consistent:
    /// - live runs and free blocks of each address space lie below its tail
    ///   and share no slot;
    /// - both tails fit in a `u32`, the type of an index;
    /// - every log entry is sound;
    /// - a live handle without a pending effect shares no slot with any
    ///   handle in the log.
    pub closed spec fn wf(&self) -> bool {
        &&& self.vbo.layout_ok(self.live@.map_values(|h: Idx| h.vbo))
        &&& self.ibo.layout_ok(self.live@.map_values(|h: Idx| h.ibo))
        &&& self.vbo.next_offset() <= u32::MAX
        &&& self.ibo.next_offset() <= u32::MAX
        &&& forall|i: int|
            0 <= i < self.modified@.len() ==> entry_ok(
                #[trigger] self.modified@[i],
                self.vbo.next_offset(),
                self.ibo.next_offset(),
            )
        &&& forall|j: int, i: int|
            #![trigger self.live@[j], self.modified@[i]]
            0 <= j < self.live@.len() && 0 <= i < self.modified@.len() && !self.pending(self.live@[j])
                ==> disjoint(self.live@[j].vbo, self.modified@[i].1.vbo) && disjoint(
                self.live@[j].ibo,
                self.modified@[i].1.ibo,
            )
    }

    /// An empty renderer, with empty buffers.
    pub fn new() -> (r: Self)
        ensures
            r.wf(),
            r.vertex_space().next_offset() == 0,
            r.index_space().next_offset() == 0,
            r.vertex_space().free_blocks().len() == 0,
            r.index_space().free_blocks().len() == 0,
            r.vertex_capacity() == 0,
            r.index_capacity() == 0,
            r.log().len() == 0,
            r.live_handles().len() == 0,
    {
        let r = BatchRenderer {
            vbo: SpanAllocator::new(),
            ibo: SpanAllocator::new(),
            vbo_capacity: 0,
            ibo_capacity: 0,
            modified: Vec::new(),
            live: Ghost(Seq::empty()),
            vertex: PhantomData,
        };
        proof {
            assert(r.live@.map_values(|h: Idx| h.vbo) =~= Seq::empty());
            assert(r.live@.map_values(|h: Idx| h.ibo) =~= Seq::empty());
        }
        r
    }

    /// Number of vertex slots requested so far.
    pub fn vertex_len(&self) -> (r: u64)
        ensures
            r == self.vertex_space().next_offset(),
    {
        self.vbo.requested()
    }

    /// Number of index slots requested so far: the index count of the draw call.
    pub fn index_len(&self) -> (r: u64)
        ensures
            r == self.index_count(),
    {
        self.ibo.requested()
    }

    /// Capacity, in elements, of the vertex buffer on the device.
    pub fn vbo_capacity(&self) -> (r: u64)
        ensures
            r == self.vertex_capacity(),
    {
        self.vbo_capacity
    }

    /// Capacity, in elements, of the index buffer on the device.
    pub fn ibo_capacity(&self) -> (r: u64)
        ensures
            r == self.index_capacity(),
    {
        self.ibo_capacity
    }

    /// Number of pending effects.
    pub fn pending_len(&self) -> (r: usize)
        ensures
            r == self.log().len(),
    {
        self.modified.len()
    }

    /// Places a new geometry: its vertex run and its index run are each
    /// carved from the best-fitting free block of their address space, or
    /// taken from its tail, independently of each other. Its upload is queued.
    pub fn push_with(&mut self, mesh: M) -> (r: Idx)
        requires
            old(self).wf(),
            old(self).vertex_space().next_offset() + mesh.vertex_seq().len() <= u32::MAX,
            old(self).index_space().next_offset() + mesh.index_seq(0).len() <= u32::MAX,
        ensures
            final(self).wf(),
            r.vbo.len == mesh.vertex_seq().len(),
            r.ibo.len == mesh.index_seq(0).len(),
            placed(old(self).vertex_space(), final(self).vertex_space(), r.vbo.len, r.vbo),
            placed(old(self).index_space(), final(self).index_space(), r.ibo.len, r.ibo),
            final(self).log() == old(self).log().push((Some(mesh), r)),
            final(self).live_handles() == old(self).live_handles().push(r),
            final(self).vertex_capacity() == old(self).vertex_capacity(),
            final(self).index_capacity() == old(self).index_capacity(),
    {
        let ghost before = *self;
        let vlen = mesh.vbo_alloc();
        let ilen = mesh.ibo_alloc();
        let vbo = self.vbo.allocate(vlen as u64);
        let ibo = self.ibo.allocate(ilen as u64);
        let idx = Idx { vbo, ibo };
        self.live = Ghost(self.live@.push(idx));
        self.modified.push((Some(mesh), idx));
        proof {
            let lv = before.live@;
            assert(self.live@.map_values(|h: Idx| h.vbo) =~= lv.map_values(|h: Idx| h.vbo).push(vbo));
            assert(self.live@.map_values(|h: Idx| h.ibo) =~= lv.map_values(|h: Idx| h.ibo).push(ibo));
            assert(before.vbo.layout_ok(lv.map_values(|h: Idx| h.vbo)));
            assert(before.ibo.layout_ok(lv.map_values(|h: Idx| h.ibo)));
            let vl = self.live@.map_values(|h: Idx| h.vbo);
            let il = self.live@.map_values(|h: Idx| h.ibo);
            assert(vl[lv.len() as int] == vbo);
            assert(il[lv.len() as int] == ibo);
            assert forall|i: int|
                0 <= i < self.modified@.len() implies entry_ok(
                #[trigger] self.modified@[i],
                self.vbo.next_offset(),
                self.ibo.next_offset(),
            ) by {
                if i < before.modified@.len() {
                    assert(self.modified@[i] == before.modified@[i]);
                    assert(entry_ok(before.modified@[i], before.vbo.next_offset(), before.ibo.next_offset()));
                }
            }
            assert forall|j: int, i: int|
                #![trigger self.live@[j], self.modified@[i]]
                0 <= j < self.live@.len() && 0 <= i < self.modified@.len() && !self.pending(self.live@[j])
                    implies disjoint(self.live@[j].vbo, self.modified@[i].1.vbo) && disjoint(
                self.live@[j].ibo,
                self.modified@[i].1.ibo,
            ) by {
                let n = before.modified@.len() as int;
                assert(self.log()[n].1 == idx);
                if j == lv.len() {
                    assert(self.live@[j] == idx);
                    assert(self.pending(idx));
                } else {
                    assert(self.live@[j] == lv[j]);
                    assert(vl[j] == lv[j].vbo);
                    assert(il[j] == lv[j].ibo);
                    if i < n {
                        assert(self.modified@[i] == before.modified@[i]);
                        if before.pending(lv[j]) {
                            let w = choose|w: int|
                                0 <= w < before.log().len() && (#[trigger] before.log()[w]).1 == lv[j];
                            assert(self.log()[w] == before.log()[w]);
                            assert(self.pending(self.live@[j]));
                        }
                    } else {
                        assert(disjoint(vl[j], vl[lv.len() as int]));
                        assert(disjoint(il[j], il[lv.len() as int]));
                    }
                }
            }
        }
        idx
    }

    /// Queues a new upload for a live geometry, at the same runs. The new
    /// content must have the sizes the geometry was placed with.
    pub fn modify(&mut self, mesh: M, idx: Idx)
        requires
            old(self).wf(),
            old(self).live_handles().contains(idx),
            mesh.vertex_seq().len() == idx.vbo.len,
            mesh.index_seq(idx.vbo.offset as u32).len() == idx.ibo.len,
        ensures
            final(self).wf(),
            final(self).log() == old(self).log().push((Some(mesh), idx)),
            final(self).live_handles() == old(self).live_handles(),
            final(self).vertex_space() == old(self).vertex_space(),
            final(self).index_space() == old(self).index_space(),
            final(self).vertex_capacity() == old(self).vertex_capacity(),
            final(self).index_capacity() == old(self).index_capacity(),
    {
        let ghost before = *self;
        self.modified.push((Some(mesh), idx));
        proof {
            let lv = self.live@;
            let k = choose|k: int| 0 <= k < lv.len() && lv[k] == idx;
            assert(lv.map_values(|h: Idx| h.vbo)[k] == idx.vbo);
            assert(lv.map_values(|h: Idx| h.ibo)[k] == idx.ibo);
            self.lemma_log_grew(before, idx);
        }
    }

    /// Ends a geometry: its runs go back to the free sets at once, and a
    /// fill of its index run with restart indices is queued, so the shared
    /// draw call skips it.
    pub fn drop(&mut self, idx: Idx)
        requires
            old(self).wf(),
            old(self).live_handles().contains(idx),
        ensures
            final(self).wf(),
            final(self).log() == old(self).log().push((None, idx)),
            exists|k: int|
                0 <= k < old(self).live_handles().len() && old(self).live_handles()[k] == idx
                    && final(self).live_handles() == old(self).live_handles().remove(k),
            final(self).vertex_space().free_blocks() == old(self).vertex_space().free_blocks().push(idx.vbo),
            final(self).index_space().free_blocks() == old(self).index_space().free_blocks().push(idx.ibo),
            final(self).vertex_space().next_offset() == old(self).vertex_space().next_offset(),
            final(self).index_space().next_offset() == old(self).index_space().next_offset(),
            final(self).vertex_capacity() == old(self).vertex_capacity(),
            final(self).index_capacity() == old(self).index_capacity(),
    {
        let ghost before = *self;
        let ghost lv = self.live@;
        let ghost k = choose|k: int| 0 <= k < lv.len() && lv[k] == idx;
        let ghost vl = lv.map_values(|h: Idx| h.vbo);
        let ghost il = lv.map_values(|h: Idx| h.ibo);
        proof {
            assert(vl[k] == idx.vbo);
            assert(il[k] == idx.ibo);
        }
        self.modified.push((None, idx));
        self.vbo.free(idx.vbo);
        self.ibo.free(idx.ibo);
        self.live = Ghost(lv.remove(k));
        proof {
            assert(self.live@.map_values(|h: Idx| h.vbo) =~= vl.remove(k));
            assert(self.live@.map_values(|h: Idx| h.ibo) =~= il.remove(k));
            assert forall|i: int|
                0 <= i < self.modified@.len() implies entry_ok(
                #[trigger] self.modified@[i],
                self.vbo.next_offset(),
                self.ibo.next_offset(),
            ) by {
                if i < before.modified@.len() {
                    assert(self.modified@[i] == before.modified@[i]);
                }
            }
            assert forall|j: int, i: int|
                #![trigger self.live@[j], self.modified@[i]]
                0 <= j < self.live@.len() && 0 <= i < self.modified@.len() && !self.pending(self.live@[j])
                    implies disjoint(self.live@[j].vbo, self.modified@[i].1.vbo) && disjoint(
                self.live@[j].ibo,
                self.modified@[i].1.ibo,
            ) by {
                let n = before.modified@.len() as int;
                let jj = if j < k {
                    j
                } else {
                    j + 1
                };
                assert(self.live@[j] == lv[jj]);
                assert(self.log()[n].1 == idx);
                if lv[jj] == idx {
                    assert(self.pending(self.live@[j]));
                } else {
                    assert(vl[jj] == lv[jj].vbo);
                    assert(il[jj] == lv[jj].ibo);
                    if i < n {
                        assert(self.modified@[i] == before.modified@[i]);
                        if before.pending(lv[jj]) {
                            let w = choose|w: int|
                                0 <= w < before.log().len() && (#[trigger] before.log()[w]).1 == lv[jj];
                            assert(self.log()[w] == before.log()[w]);
                            assert(self.pending(self.live@[j]));
                        }
                    } else {
                        assert(disjoint(vl[jj], vl[k]));
                        assert(disjoint(il[jj], il[k]));
                    }
                }
            }
        }
    }

    /// Reconciles the books with the device, once per frame. Returns the GPU
    /// work to record, in order, and the index count of the draw call that
    /// covers the whole index buffer:
    /// 1. a buffer whose requested length exceeds its capacity is replaced by
    ///    one of twice the requested length, the old content copied to its front;
    /// 2. each pending effect, oldest first: a geometry's vertices and indices
    ///    written at its runs, or a dropped geometry's index run filled with
    ///    restart indices.
    pub fn generate(&mut self) -> (r: (Vec<Command<V>>, u32))
        requires
            old(self).wf(),
        ensures
            final(self).wf(),
            old(self).generated(*final(self)),
            ops_of(r.0@) == old(self).generate_ops(),
            r.1 == old(self).index_count(),
    {
        let ghost before = *self;
        let mut out: Vec<Command<V>> = Vec::new();
        let vreq = self.vbo.requested();
        if vreq > self.vbo_capacity {
            let capacity = 2 * vreq;
            out.push(Command::GrowVertices { capacity });
            self.vbo_capacity = capacity;
        }
        let ireq = self.ibo.requested();
        if ireq > self.ibo_capacity {
            let capacity = 2 * ireq;
            out.push(Command::GrowIndices { capacity });
            self.ibo_capacity = capacity;
        }
        let ghost grow = ops_of(out@);
        proof {
            let v = if before.vbo.next_offset() > before.vertex_capacity() {
                seq![Op::GrowVertices(2 * before.vbo.next_offset())]
            } else {
                Seq::<Op<V>>::empty()
            };
            let i = if before.ibo.next_offset() > before.index_capacity() {
                seq![Op::GrowIndices(2 * before.ibo.next_offset())]
            } else {
                Seq::<Op<V>>::empty()
            };
            assert(grow =~= v + i);
        }
        let mut log: Vec<Entry<M>> = Vec::new();
        std::mem::swap(&mut log, &mut self.modified);
        let mut i: usize = 0;
        while i < log.len()
            invariant
                i <= log@.len(),
                log@ == before.modified@,
                before.wf(),
                ops_of(out@) == grow + log_ops(log@.take(i as int)),
            decreases log@.len() - i,
        {
            let ghost prev = out@;
            let e = &log[i];
            assert(entry_ok(log@[i as int], before.vbo.next_offset(), before.ibo.next_offset()));
            match &e.0 {
                Some(mesh) => {
                    let vertices = mesh.vertices();
                    let indices = mesh.indices(e.1.vbo.offset as u32);
                    out.push(Command::WriteVertices { offset: e.1.vbo.offset, vertices });
                    out.push(Command::WriteIndices { offset: e.1.ibo.offset, indices });
                    proof {
                        assert(ops_of(out@) =~= ops_of(prev) + entry_ops(log@[i as int]));
                    }
                },
                None => {
                    let indices = restart_fill(e.1.ibo.len);
                    out.push(Command::WriteIndices { offset: e.1.ibo.offset, indices });
                    proof {
                        assert(ops_of(out@) =~= ops_of(prev) + entry_ops(log@[i as int]));
                    }
                },
            }
            proof {
                assert(log@.take(i + 1).drop_last() =~= log@.take(i as int));
                assert(log@.take(i + 1).last() == log@[i as int]);
            }
            i = i + 1;
        }
        proof {
            assert(log@.take(log@.len() as int) =~= log@);
        }
        (out, ireq as u32)
    }

    /// A live handle's new log entry keeps the books consistent.
    proof fn lemma_log_grew(&self, before: Self, idx: Idx)
        requires
            before.wf(),
            before.live@.contains(idx),
            self.vbo == before.vbo,
            self.ibo == before.ibo,
            self.live == before.live,
            self.modified@.len() == before.modified@.len() + 1,
            forall|i: int| 0 <= i < before.modified@.len() ==> self.modified@[i] == before.modified@[i],
            self.modified@.last().1 == idx,
            entry_ok(self.modified@.last(), self.vbo.next_offset(), self.ibo.next_offset()),
        ensures
            self.wf(),
    {
        let lv = self.live@;
        let vl = lv.map_values(|h: Idx| h.vbo);
        let il = lv.map_values(|h: Idx| h.ibo);
        let k = choose|k: int| 0 <= k < lv.len() && lv[k] == idx;
        assert forall|i: int|
            0 <= i < self.modified@.len() implies entry_ok(
            #[trigger] self.modified@[i],
            self.vbo.next_offset(),
            self.ibo.next_offset(),
        ) by {
            if i < before.modified@.len() {
                assert(self.modified@[i] == before.modified@[i]);
            }
        }
        assert forall|j: int, i: int|
            #![trigger self.live@[j], self.modified@[i]]
            0 <= j < self.live@.len() && 0 <= i < self.modified@.len() && !self.pending(self.live@[j])
                implies disjoint(self.live@[j].vbo, self.modified@[i].1.vbo) && disjoint(
            self.live@[j].ibo,
            self.modified@[i].1.ibo,
        ) by {
            let n = before.modified@.len() as int;
            assert(self.log()[n].1 == idx);
            if lv[j] == idx {
                assert(self.pending(self.live@[j]));
            } else {
                assert(vl[j] == lv[j].vbo);
                assert(il[j] == lv[j].ibo);
                if i < n {
                    if before.pending(lv[j]) {
                        let w = choose|w: int|
                            0 <= w < before.log().len() && (#[trigger] before.log()[w]).1 == lv[j];
                        assert(self.log()[w] == before.log()[w]);
                        assert(self.pending(self.live@[j]));
                    }
                } else {
                    assert(vl[k] == idx.vbo);
                    assert(il[k] == idx.ibo);
                    assert(disjoint(vl[j], vl[k]));
                    assert(disjoint(il[j], il[k]));
                }
            }
        }
    }
}

/// The content of slots `span` agrees between `a` and `b`: the same slots are
/// known, with the same values.
pub open spec fn agree_on<T>(a: Map<int, T>, b: Map<int, T>, span: BufferAlloc) -> bool {
    forall|k: int|
        span.holds(k) ==> (#[trigger] a.contains_key(k) == b.contains_key(k)) && (b.contains_key(k) ==> a[k]
            == b[k])
}

/// Running the work of a log leaves capacities alone, and the device accepts
/// it when every entry lies below tails that fit in the buffers.
proof fn lemma_log_run<M: Mesh<V>, V>(d: DeviceModel<V>, log: Seq<Entry<M>>, vt: nat, it: nat)
    requires
        forall|i: int| 0 <= i < log.len() ==> entry_ok(#[trigger] log[i], vt, it),
        vt <= d.vertex_capacity,
        it <= d.index_capacity,
    ensures
        run(d, log_ops(log)).vertex_capacity == d.vertex_capacity,
        run(d, log_ops(log)).index_capacity == d.index_capacity,
        runs_in_bounds(d, log_ops(log)),
    decreases log.len(),
{
    if log.len() > 0 {
        let dl = log.drop_last();
        assert forall|i: int| 0 <= i < dl.len() implies entry_ok(#[trigger] dl[i], vt, it) by {
            assert(dl[i] == log[i]);
        }
        lemma_log_run(d, dl, vt, it);
        lemma_run_concat(d, log_ops(dl), entry_ops(log.last()));
        let m = run(d, log_ops(dl));
        let e = log.last();
        assert(entry_ok(log[log.len() - 1], vt, it));
        match e.0 {
            Some(mesh) => {
                lemma_run_two(
                    m,
                    Op::WriteVertices(e.1.vbo.offset as nat, mesh.vertex_seq()),
                    Op::WriteIndices(e.1.ibo.offset as nat, mesh.index_seq(e.1.vbo.offset as u32)),
                );
            },
            None => {
                lemma_run_one(
                    m,
                    Op::WriteIndices(e.1.ibo.offset as nat, Seq::new(e.1.ibo.len as nat, |k: int| RESTART_INDEX)),
                );
            },
        }
    } else {
        assert(log_ops(log) == Seq::<Op<V>>::empty());
    }
}

/// Running the work of a log leaves alone the content of runs that no entry touches.
proof fn lemma_log_avoids<M: Mesh<V>, V>(d: DeviceModel<V>, log: Seq<Entry<M>>, h: Idx, vt: nat, it: nat)
    requires
        forall|i: int| 0 <= i < log.len() ==> entry_ok(#[trigger] log[i], vt, it),
        forall|i: int|
            0 <= i < log.len() ==> disjoint(h.vbo, (#[trigger] log[i]).1.vbo) && disjoint(h.ibo, log[i].1.ibo),
    ensures
        agree_on(run(d, log_ops(log)).vertices, d.vertices, h.vbo),
        agree_on(run(d, log_ops(log)).indices, d.indices, h.ibo),
    decreases log.len(),
{
    if log.len() > 0 {
        let dl = log.drop_last();
        assert forall|i: int| 0 <= i < dl.len() implies entry_ok(#[trigger] dl[i], vt, it) && disjoint(
            h.vbo,
            dl[i].1.vbo,
        ) && disjoint(h.ibo, dl[i].1.ibo) by {
            assert(dl[i] == log[i]);
        }
        lemma_log_avoids(d, dl, h, vt, it);
        lemma_run_concat(d, log_ops(dl), entry_ops(log.last()));
        let m = run(d, log_ops(dl));
        let e = log.last();
        assert(entry_ok(log[log.len() - 1], vt, it));
        assert(disjoint(h.vbo, log[log.len() - 1].1.vbo));
        match e.0 {
            Some(mesh) => {
                lemma_run_two(
                    m,
                    Op::WriteVertices(e.1.vbo.offset as nat, mesh.vertex_seq()),
                    Op::WriteIndices(e.1.ibo.offset as nat, mesh.index_seq(e.1.vbo.offset as u32)),
                );
            },
            None => {
                lemma_run_one(
                    m,
                    Op::WriteIndices(e.1.ibo.offset as nat, Seq::new(e.1.ibo.len as nat, |k: int| RESTART_INDEX)),
                );
            },
        }
        let f = run(d, log_ops(log));
        assert forall|k: int| h.vbo.holds(k) implies (#[trigger] f.vertices.contains_key(k)
            == d.vertices.contains_key(k)) && (d.vertices.contains_key(k) ==> f.vertices[k] == d.vertices[k]) by {
            assert(m.vertices.contains_key(k) == d.vertices.contains_key(k));
        }
        assert forall|k: int| h.ibo.holds(k) implies (#[trigger] f.indices.contains_key(k)
            == d.indices.contains_key(k)) && (d.indices.contains_key(k) ==> f.indices[k] == d.indices[k]) by {
            assert(m.indices.contains_key(k) == d.indices.contains_key(k));
        }
    } else {
        assert(log_ops(log) == Seq::<Op<V>>::empty());
    }
}

/// The work of `generate` is its growth commands followed by the work of the
/// log. Growth keeps the content of both buffers, and on a device with the
/// recorded capacities it is accepted and leaves room for both tails.
proof fn lemma_grow_keeps<M: Mesh<V>, V>(b: BatchRenderer<M, V>, d: DeviceModel<V>)
    ensures
        ({
            let g = b.generate_ops().subrange(0, b.generate_ops().len() - log_ops(b.log()).len());
            &&& b.generate_ops() == g + log_ops(b.log())
            &&& run(d, g).vertices == d.vertices
            &&& run(d, g).indices == d.indices
            &&& d.vertex_capacity == b.vertex_capacity() && d.index_capacity == b.index_capacity() ==> {
                &&& runs_in_bounds(d, g)
                &&& b.vertex_space().next_offset() <= run(d, g).vertex_capacity
                &&& b.index_space().next_offset() <= run(d, g).index_capacity
            }
        }),
{
    let vn = b.vertex_space().next_offset();
    let inx = b.index_space().next_offset();
    let v = if vn > b.vertex_capacity() {
        seq![Op::GrowVertices(2 * vn)]
    } else {
        Seq::<Op<V>>::empty()
    };
    let i = if inx > b.index_capacity() {
        seq![Op::GrowIndices(2 * inx)]
    } else {
        Seq::<Op<V>>::empty()
    };
    let g = b.generate_ops().subrange(0, b.generate_ops().len() - log_ops(b.log()).len());
    assert(g =~= v + i);
    assert(b.generate_ops() =~= g + log_ops(b.log()));
    lemma_run_concat(d, v, i);
    if vn > b.vertex_capacity() {
        lemma_run_one(d, Op::GrowVertices(2 * vn));
    } else {
        assert(run(d, v) == d);
    }
    let dv = run(d, v);
    if inx > b.index_capacity() {
        lemma_run_one(dv, Op::GrowIndices(2 * inx));
    } else {
        assert(run(dv, i) == dv);
    }
}

/// Live geometries never share a slot: in each address space the runs of
/// any two live handles are disjoint, and lie below the tail.
pub proof fn lemma_live_disjoint<M: Mesh<V>, V>(b: BatchRenderer<M, V>)
    requires
        b.wf(),
    ensures
        forall|i: int, j: int|
            0 <= i < b.live_handles().len() && 0 <= j < b.live_handles().len() && i != j ==> disjoint(
                #[trigger] b.live_handles()[i].vbo,
                #[trigger] b.live_handles()[j].vbo,
            ) && disjoint(b.live_handles()[i].ibo, b.live_handles()[j].ibo),
        forall|i: int|
            0 <= i < b.live_handles().len() ==> (#[trigger] b.live_handles()[i]).vbo.end()
                <= b.vertex_space().next_offset() && b.live_handles()[i].ibo.end() <= b.index_count(),
{
    let lv = b.live_handles();
    let vl = lv.map_values(|h: Idx| h.vbo);
    let il = lv.map_values(|h: Idx| h.ibo);
    assert forall|i: int, j: int|
        0 <= i < lv.len() && 0 <= j < lv.len() && i != j implies disjoint(
        #[trigger] lv[i].vbo,
        #[trigger] lv[j].vbo,
    ) && disjoint(lv[i].ibo, lv[j].ibo) by {
        assert(vl[i] == lv[i].vbo && vl[j] == lv[j].vbo);
        assert(il[i] == lv[i].ibo && il[j] == lv[j].ibo);
    }
    assert forall|i: int| 0 <= i < lv.len() implies (#[trigger] lv[i]).vbo.end()
        <= b.vertex_space().next_offset() && lv[i].ibo.end() <= b.index_count() by {
        assert(vl[i] == lv[i].vbo);
        assert(il[i] == lv[i].ibo);
    }
}

/// The device accepts all the work `generate` hands out, when its buffers
/// have the capacities the renderer recorded.
pub proof fn lemma_generate_fits<M: Mesh<V>, V>(b: BatchRenderer<M, V>, d: DeviceModel<V>)
    requires
        b.wf(),
        d.vertex_capacity == b.vertex_capacity(),
        d.index_capacity == b.index_capacity(),
    ensures
        runs_in_bounds(d, b.generate_ops()),
{
    lemma_grow_keeps(b, d);
    let g = b.generate_ops().subrange(0, b.generate_ops().len() - log_ops(b.log()).len());
    lemma_run_concat(d, g, log_ops(b.log()));
    lemma_log_run(run(d, g), b.log(), b.vertex_space().next_offset(), b.index_space().next_offset());
}

/// Growth does not disturb settled geometry: a live handle with no pending
/// effect keeps the content of its runs across `generate`, whether or not the
/// buffers grow, and its runs stay where they were.
pub proof fn lemma_generate_keeps_settled<M: Mesh<V>, V>(b: BatchRenderer<M, V>, h: Idx, d: DeviceModel<V>)
    requires
        b.wf(),
        b.live_handles().contains(h),
        !b.pending(h),
    ensures
        agree_on(run(d, b.generate_ops()).vertices, d.vertices, h.vbo),
        agree_on(run(d, b.generate_ops()).indices, d.indices, h.ibo),
{
    lemma_grow_keeps(b, d);
    let g = b.generate_ops().subrange(0, b.generate_ops().len() - log_ops(b.log()).len());
    lemma_run_concat(d, g, log_ops(b.log()));
    let j = choose|j: int| 0 <= j < b.live_handles().len() && b.live_handles()[j] == h;
    assert forall|i: int|
        0 <= i < b.log().len() implies disjoint(h.vbo, (#[trigger] b.log()[i]).1.vbo) && disjoint(
        h.ibo,
        b.log()[i].1.ibo,
    ) by {
        assert(b.live_handles()[j] == h);
    }
    lemma_log_avoids(run(d, g), b.log(), h, b.vertex_space().next_offset(), b.index_space().next_offset());
}

/// A dropped geometry draws nothing: when the last pending effect is the drop
/// of `h`, `generate` leaves only restart indices in the index run of `h`, and
/// the draw call still covers that run.
pub proof fn lemma_drop_then_generate<M: Mesh<V>, V>(b: BatchRenderer<M, V>, h: Idx, d: DeviceModel<V>)
    requires
        b.wf(),
        b.log().len() > 0,
        b.log().last() == (None::<M>, h),
    ensures
        forall|k: int|
            h.ibo.holds(k) ==> #[trigger] run(d, b.generate_ops()).indices.contains_key(k) && run(
                d,
                b.generate_ops(),
            ).indices[k] == RESTART_INDEX,
        h.ibo.end() <= b.index_count(),
{
    let log = b.log();
    let ops = b.generate_ops();
    let x = Op::WriteIndices(h.ibo.offset as nat, Seq::new(h.ibo.len as nat, |k: int| RESTART_INDEX));
    assert(entry_ops::<M, V>(log.last()) =~= seq![x]);
    assert(ops.last() == x);
    assert(entry_ok(log[log.len() - 1], b.vertex_space().next_offset(), b.index_space().next_offset()));
}

/// Round trip: when the last pending effect is the upload of `mesh` at `h`,
/// `generate` leaves exactly the vertices of `mesh`, in order, in the vertex
/// run of `h`, and its indices for that placement in the index run of `h`.
pub proof fn lemma_push_then_generate<M: Mesh<V>, V>(
    b: BatchRenderer<M, V>,
    mesh: M,
    h: Idx,
    d: DeviceModel<V>,
)
    requires
        b.wf(),
        b.log().len() > 0,
        b.log().last() == (Some(mesh), h),
    ensures
        mesh.vertex_seq().len() == h.vbo.len,
        mesh.index_seq(h.vbo.offset as u32).len() == h.ibo.len,
        forall|k: int|
            0 <= k < h.vbo.len ==> #[trigger] run(d, b.generate_ops()).vertices.contains_key(h.vbo.offset + k)
                && run(d, b.generate_ops()).vertices[h.vbo.offset + k] == mesh.vertex_seq()[k],
        forall|k: int|
            0 <= k < h.ibo.len ==> #[trigger] run(d, b.generate_ops()).indices.contains_key(h.ibo.offset + k)
                && run(d, b.generate_ops()).indices[h.ibo.offset + k] == mesh.index_seq(
                h.vbo.offset as u32,
            )[k],
{
    let log = b.log();
    let ops = b.generate_ops();
    let xv = Op::WriteVertices(h.vbo.offset as nat, mesh.vertex_seq());
    let xi = Op::WriteIndices(h.ibo.offset as nat, mesh.index_seq(h.vbo.offset as u32));
    assert(entry_ops::<M, V>(log.last()) =~= seq![xv, xi]);
    assert(ops.last() == xi);
    assert(ops.drop_last().last() == xv);
    assert(entry_ok(log[log.len() - 1], b.vertex_space().next_offset(), b.index_space().next_offset()));
    let f = run(d, ops);
    assert(f == crate::device::apply_op(run(d, ops.drop_last()), xi));
    assert(ops.drop_last().len() > 0);
    assert(run(d, ops.drop_last()) == crate::device::apply_op(run(d, ops.drop_last().drop_last()), xv));
}

/// `generate` is idempotent: right after it, a second `generate` hands out no
/// work, keeps both buffers, and returns the same index count.
pub proof fn lemma_generate_twice<M: Mesh<V>, V>(b: BatchRenderer<M, V>, b2: BatchRenderer<M, V>)
    requires
        b.wf(),
        b.generated(b2),
    ensures
        b2.generate_ops() == Seq::<Op<V>>::empty(),
        b2.index_count() == b.index_count(),
        forall|b3: BatchRenderer<M, V>|
            #[trigger] b2.generated(b3) ==> b3.vertex_capacity() == b2.vertex_capacity()
                && b3.index_capacity() == b2.index_capacity(),
{
    assert(log_ops(b2.log()) == Seq::<Op<V>>::empty());
    assert(b2.generate_ops() =~= Seq::<Op<V>>::empty());
}

} // verus!
