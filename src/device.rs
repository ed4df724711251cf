//! The GPU work that the batch renderer asks for, and what that work does to
//! the two device buffers.
use vstd::prelude::*;

verus! {

/// The index value that ends a primitive strip: a slot holding it draws nothing.
pub const RESTART_INDEX: u32 = 0xFFFF_FFFF;

/// One piece of GPU work, recorded against the current frame.
#[derive(Debug, PartialEq, Eq)]
pub enum Command<V> {
    /// Replace the vertex buffer by a new one of `capacity` elements, with
    /// the whole old buffer copied to its front.
    GrowVertices { capacity: u64 },
    /// Replace the index buffer by a new one of `capacity` elements, with
    /// the whole old buffer copied to its front.
    GrowIndices { capacity: u64 },
    /// Write `vertices` into the vertex buffer from element `offset` on.
    WriteVertices { offset: u64, vertices: Vec<V> },
    /// Write `indices` into the index buffer from element `offset` on.
    WriteIndices { offset: u64, indices: Vec<u32> },
}

/// A command as a mathematical value.
pub ghost enum Op<V> {
    GrowVertices(nat),
    GrowIndices(nat),
    WriteVertices(nat, Seq<V>),
    WriteIndices(nat, Seq<u32>),
}

impl<V> View for Command<V> {
    type V = Op<V>;

    open spec fn view(&self) -> Op<V> {
        match self {
            Command::GrowVertices { capacity } => Op::GrowVertices(*capacity as nat),
            Command::GrowIndices { capacity } => Op::GrowIndices(*capacity as nat),
            Command::WriteVertices { offset, vertices } => Op::WriteVertices(*offset as nat, vertices@),
            Command::WriteIndices { offset, indices } => Op::WriteIndices(*offset as nat, indices@),
        }
    }
}

/// A list of commands as mathematical values.
pub open spec fn ops_of<V>(cmds: Seq<Command<V>>) -> Seq<Op<V>> {
    cmds.map_values(|c: Command<V>| c@)
}

/// The two device buffers: their capacities in elements, and the elements
/// whose content is known. A slot outside a map holds whatever the device
/// left there.
pub ghost struct DeviceModel<V> {
    pub vertex_capacity: nat,
    pub index_capacity: nat,
    pub vertices: Map<int, V>,
    pub indices: Map<int, u32>,
}

/// `m` with `data` written from slot `offset` on.
pub open spec fn written<T>(m: Map<int, T>, offset: nat, data: Seq<T>) -> Map<int, T> {
    m.union_prefer_right(Map::new(|k: int| offset <= k < offset + data.len(), |k: int| data[k - offset]))
}

/// The device accepts `op`: a buffer only grows, and a write stays inside its buffer.
pub open spec fn op_fits<V>(d: DeviceModel<V>, op: Op<V>) -> bool {
    match op {
        Op::GrowVertices(c) => c >= d.vertex_capacity,
        Op::GrowIndices(c) => c >= d.index_capacity,
        Op::WriteVertices(o, data) => o + data.len() <= d.vertex_capacity,
        Op::WriteIndices(o, data) => o + data.len() <= d.index_capacity,
    }
}

/// The device after `op`. Growing keeps every element, since the old buffer
/// is copied to the front of the new one.
pub open spec fn apply_op<V>(d: DeviceModel<V>, op: Op<V>) -> DeviceModel<V> {
    match op {
        Op::GrowVertices(c) => DeviceModel {
            vertex_capacity: c,
            index_capacity: d.index_capacity,
            vertices: d.vertices,
            indices: d.indices,
        },
        Op::GrowIndices(c) => DeviceModel {
            vertex_capacity: d.vertex_capacity,
            index_capacity: c,
            vertices: d.vertices,
            indices: d.indices,
        },
        Op::WriteVertices(o, data) => DeviceModel {
            vertex_capacity: d.vertex_capacity,
            index_capacity: d.index_capacity,
            vertices: written(d.vertices, o, data),
            indices: d.indices,
        },
        Op::WriteIndices(o, data) => DeviceModel {
            vertex_capacity: d.vertex_capacity,
            index_capacity: d.index_capacity,
            vertices: d.vertices,
            indices: written(d.indices, o, data),
        },
    }
}

/// The device after `ops`, in order.
pub open spec fn run<V>(d: DeviceModel<V>, ops: Seq<Op<V>>) -> DeviceModel<V>
    decreases ops.len(),
{
    if ops.len() == 0 {
        d
    } else {
        apply_op(run(d, ops.drop_last()), ops.last())
    }
}

/// The device accepts each of `ops` in turn.
pub open spec fn runs_in_bounds<V>(d: DeviceModel<V>, ops: Seq<Op<V>>) -> bool
    decreases ops.len(),
{
    ops.len() == 0 || (runs_in_bounds(d, ops.drop_last()) && op_fits(run(d, ops.drop_last()), ops.last()))
}

/// Running `a` then `b` is running `a + b`.
pub proof fn lemma_run_concat<V>(d: DeviceModel<V>, a: Seq<Op<V>>, b: Seq<Op<V>>)
    ensures
        run(d, a + b) == run(run(d, a), b),
        runs_in_bounds(d, a + b) <==> runs_in_bounds(d, a) && runs_in_bounds(run(d, a), b),
    decreases b.len(),
{
    if b.len() == 0 {
        assert(a + b =~= a);
    } else {
        assert((a + b).drop_last() =~= a + b.drop_last());
        assert((a + b).last() == b.last());
        lemma_run_concat(d, a, b.drop_last());
    }
}

/// Running one command is applying it.
pub proof fn lemma_run_one<V>(d: DeviceModel<V>, a: Op<V>)
    ensures
        run(d, seq![a]) == apply_op(d, a),
        runs_in_bounds(d, seq![a]) == op_fits(d, a),
{
    assert(seq![a].drop_last() =~= Seq::<Op<V>>::empty());
    assert(seq![a].last() == a);
    assert(run(d, Seq::<Op<V>>::empty()) == d);
    assert(runs_in_bounds(d, Seq::<Op<V>>::empty()));
}

/// Running two commands is applying them in turn.
pub proof fn lemma_run_two<V>(d: DeviceModel<V>, a: Op<V>, b: Op<V>)
    ensures
        run(d, seq![a, b]) == apply_op(apply_op(d, a), b),
        runs_in_bounds(d, seq![a, b]) == (op_fits(d, a) && op_fits(
            apply_op(d, a),
            b,
        )),
{
    assert(seq![a, b].drop_last() =~= seq![a]);
    assert(seq![a, b].last() == b);
    lemma_run_one(d, a);
}

/// A list of `len` restart indices.
pub fn restart_fill(len: u64) -> (r: Vec<u32>)
    ensures
        r@ == Seq::new(len as nat, |k: int| RESTART_INDEX),
{
    let mut r: Vec<u32> = Vec::new();
    let mut i: u64 = 0;
    while i < len
        invariant
            i <= len,
            r@ == Seq::new(i as nat, |k: int| RESTART_INDEX),
        decreases len - i,
    {
        r.push(RESTART_INDEX);
        i = i + 1;
        assert(r@ =~= Seq::new(i as nat, |k: int| RESTART_INDEX));
    }
    r
}

} // verus!
