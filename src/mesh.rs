//! What a geometry must provide to be packed by the batch renderer.
use crate::device::RESTART_INDEX;
use vstd::prelude::*;

verus! {

/// A shape that knows how many vertex and index slots it needs and produces
/// exactly that many vertices and indices. Indices are produced relative to
/// a base offset chosen by the caller, so the same shape can land anywhere in
/// a shared buffer.
pub trait Mesh<V>: Sized {
    /// The vertices this shape produces.
    spec fn vertex_seq(&self) -> Seq<V>;

    /// The indices this shape produces when its first vertex sits at `offset`.
    spec fn index_seq(&self, offset: u32) -> Seq<u32>;

    /// Produces the vertices, self-contained and in order.
    fn vertices(&self) -> (r: Vec<V>)
        ensures
            r@ == self.vertex_seq(),
    ;

    /// Produces the indices, each one `offset` plus a local index, or the
    /// primitive-restart value.
    fn indices(&self, offset: u32) -> (r: Vec<u32>)
        requires
            offset + self.vertex_seq().len() <= u32::MAX,
        ensures
            r@ == self.index_seq(offset),
    ;

    /// Number of vertex slots this shape needs: the number of vertices it produces.
    fn vbo_alloc(&self) -> (r: u32)
        ensures
            r == self.vertex_seq().len(),
    ;

    /// Number of index slots this shape needs: the number of indices it
    /// produces, wherever it lands.
    fn ibo_alloc(&self) -> (r: u32)
        ensures
            forall|offset: u32| #[trigger] self.index_seq(offset).len() == r,
    ;
}

/// The indices of a triangle strip of `n` vertices whose first vertex sits at
/// `offset`, capped by a restart index.
pub open spec fn strip_indices(offset: u32, n: nat) -> Seq<u32> {
    Seq::new(n, |k: int| (offset + k) as u32).push(RESTART_INDEX)
}

/// A triangle strip over given vertices, capped by a restart index so that
/// strips packed side by side in one index buffer stay apart.
pub struct TriangleStrip<V> {
    vertices: Vec<V>,
}

impl<V> TriangleStrip<V> {
    /// Its slot counts fit in a `u32`.
    #[verifier::type_invariant]
    spec fn counts_fit(self) -> bool {
        self.vertices@.len() < u32::MAX
    }

    /// The vertices of the strip, in order.
    pub closed spec fn corners(&self) -> Seq<V> {
        self.vertices@
    }

    /// A strip through `vertices`, in order.
    pub fn new(vertices: Vec<V>) -> (r: Self)
        requires
            vertices@.len() < u32::MAX,
        ensures
            r.corners() == vertices@,
    {
        TriangleStrip { vertices }
    }
}

impl<V: Copy> Mesh<V> for TriangleStrip<V> {
    open spec fn vertex_seq(&self) -> Seq<V> {
        self.corners()
    }

    open spec fn index_seq(&self, offset: u32) -> Seq<u32> {
        strip_indices(offset, self.corners().len())
    }

    fn vertices(&self) -> (r: Vec<V>) {
        let mut r: Vec<V> = Vec::new();
        let mut i: usize = 0;
        while i < self.vertices.len()
            invariant
                i <= self.vertices@.len(),
                r@ == self.vertices@.take(i as int),
            decreases self.vertices@.len() - i,
        {
            let v = self.vertices[i];
            r.push(v);
            i = i + 1;
            assert(r@ =~= self.vertices@.take(i as int));
        }
        assert(self.vertices@.take(i as int) =~= self.vertices@);
        r
    }

    fn indices(&self, offset: u32) -> (r: Vec<u32>) {
        let n = self.vertices.len();
        let mut r: Vec<u32> = Vec::new();
        let mut i: usize = 0;
        while i < n
            invariant
                n == self.vertices@.len(),
                offset + n <= u32::MAX,
                i <= n,
                r@ == Seq::new(i as nat, |k: int| (offset + k) as u32),
            decreases n - i,
        {
            r.push(offset + i as u32);
            i = i + 1;
            assert(r@ =~= Seq::new(i as nat, |k: int| (offset + k) as u32));
        }
        r.push(RESTART_INDEX);
        r
    }

    fn vbo_alloc(&self) -> (r: u32) {
        proof {
            use_type_invariant(self);
        }
        self.vertices.len() as u32
    }

    fn ibo_alloc(&self) -> (r: u32) {
        proof {
            use_type_invariant(self);
        }
        self.vertices.len() as u32 + 1
    }
}

} // verus!
