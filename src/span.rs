//! A best-fit allocator over a linear address space of element slots.
use vstd::prelude::*;

verus! {

/// A contiguous run of slots in one address space, counted in elements.
#[derive(Debug, Clone, Copy, PartialEq, Eq, Structural)]
pub struct BufferAlloc {
    /// First slot of the run.
    pub offset: u64,
    /// Number of slots in the run.
    pub len: u64,
}

impl BufferAlloc {
    /// One past the last slot of the run.
    pub open spec fn end(self) -> int {
        self.offset + self.len
    }

    /// Whether slot `k` belongs to the run.
    pub open spec fn holds(self, k: int) -> bool {
        self.offset <= k < self.end()
    }
}

/// Two runs share no slot.
pub open spec fn disjoint(a: BufferAlloc, b: BufferAlloc) -> bool {
    a.len == 0 || b.len == 0 || a.end() <= b.offset || b.end() <= a.offset
}

/// No two runs of `s`, taken at distinct positions, share a slot.
pub open spec fn pairwise_disjoint(s: Seq<BufferAlloc>) -> bool {
    forall|i: int, j: int|
        0 <= i < s.len() && 0 <= j < s.len() && i != j ==> disjoint(#[trigger] s[i], #[trigger] s[j])
}

/// Every run of `s` shares no slot with any run of `t`.
pub open spec fn cross_disjoint(s: Seq<BufferAlloc>, t: Seq<BufferAlloc>) -> bool {
    forall|i: int, j: int|
        0 <= i < s.len() && 0 <= j < t.len() ==> disjoint(#[trigger] s[i], #[trigger] t[j])
}

/// Every run of `s` ends at or before `bound`.
pub open spec fn all_below(s: Seq<BufferAlloc>, bound: int) -> bool {
    forall|i: int| 0 <= i < s.len() ==> (#[trigger] s[i]).end() <= bound
}

/// `a` orders before `b` when blocks are ranked by length, then by offset.
pub open spec fn ranks_before(a: BufferAlloc, b: BufferAlloc) -> bool {
    a.len < b.len || (a.len == b.len && a.offset < b.offset)
}

/// Position `i` of `free` holds the best fit for `required` slots: the smallest
/// block that is long enough, the lowest offset among equally long ones, and the
/// first position among equal blocks.
pub open spec fn is_best_fit(free: Seq<BufferAlloc>, required: u64, i: int) -> bool {
    &&& 0 <= i < free.len()
    &&& free[i].len >= required
    &&& forall|j: int|
        0 <= j < free.len() && (#[trigger] free[j]).len >= required && j != i ==> (
        if j < i {
            ranks_before(free[i], free[j])
        } else {
            ranks_before(free[i], free[j]) || free[i] == free[j]
        })
}

/// Some block of `free` can hold `required` slots.
pub open spec fn has_fit(free: Seq<BufferAlloc>, required: u64) -> bool {
    exists|j: int| 0 <= j < free.len() && (#[trigger] free[j]).len >= required
}

/// The free set after carving `required` slots out of block `i`: the block
/// leaves, and what is left of it past the carved part comes back, if anything is.
pub open spec fn carve(free: Seq<BufferAlloc>, required: u64, i: int) -> Seq<BufferAlloc> {
    if free[i].len > required {
        free.remove(i).push(
            BufferAlloc { offset: (free[i].offset + required) as u64, len: (free[i].len - required) as u64 },
        )
    } else {
        free.remove(i)
    }
}

/// `after` is `before` once a run `a` of `len` slots was placed: carved from
/// the best-fitting free block if one is long enough, else taken from the tail.
pub open spec fn placed(before: SpanAllocator, after: SpanAllocator, len: u64, a: BufferAlloc) -> bool {
    if has_fit(before.free_blocks(), len) {
        exists|i: int|
            {
                &&& is_best_fit(before.free_blocks(), len, i)
                &&& a == BufferAlloc { offset: before.free_blocks()[i].offset, len }
                &&& after.free_blocks() == carve(before.free_blocks(), len, i)
                &&& after.next_offset() == before.next_offset()
            }
    } else {
        &&& a == BufferAlloc { offset: before.next_offset() as u64, len }
        &&& after.free_blocks() == before.free_blocks()
        &&& after.next_offset() == before.next_offset() + len
    }
}

/// Hands out runs of slots from one address space. Freed runs are kept as
/// free blocks and reused best-fit; fresh runs come from the tail.
/// Adjacent free blocks are not merged.
#[derive(Debug)]
pub struct SpanAllocator {
    next: u64,
    free: Vec<BufferAlloc>,
}

impl SpanAllocator {
    /// The first slot that was never handed out; it also counts every slot
    /// requested so far.
    pub closed spec fn next_offset(&self) -> nat {
        self.next as nat
    }

    /// The free blocks, in the order they were freed or left over.
    pub closed spec fn free_blocks(&self) -> Seq<BufferAlloc> {
        self.free@
    }

    /// The free blocks lie below the tail and share no slot.
    pub open spec fn wf(&self) -> bool {
        &&& pairwise_disjoint(self.free_blocks())
        &&& all_below(self.free_blocks(), self.next_offset() as int)
    }

    /// The runs of `live` together with the free blocks lie below the tail and
    /// share no slot.
    pub open spec fn layout_ok(&self, live: Seq<BufferAlloc>) -> bool {
        &&& self.wf()
        &&& pairwise_disjoint(live)
        &&& cross_disjoint(live, self.free_blocks())
        &&& all_below(live, self.next_offset() as int)
    }

    /// An empty address space.
    pub fn new() -> (r: SpanAllocator)
        ensures
            r.next_offset() == 0,
            r.free_blocks() == Seq::<BufferAlloc>::empty(),
            r.wf(),
    {
        SpanAllocator { next: 0, free: Vec::new() }
    }

    /// The first slot that was never handed out.
    pub fn next(&self) -> (r: u64)
        ensures
            r == self.next_offset(),
    {
        self.next
    }

    /// Total number of slots requested from the tail so far.
    pub fn requested(&self) -> (r: u64)
        ensures
            r == self.next_offset(),
    {
        self.next
    }

    /// The free blocks, in the order they were freed or left over.
    pub fn free_list(&self) -> (r: Vec<BufferAlloc>)
        ensures
            r@ == self.free_blocks(),
    {
        self.free.clone()
    }

    /// Position of the best fit for `required` slots, if any block is long enough.
    fn find_best_fit(&self, required: u64) -> (r: Option<usize>)
        ensures
            match r {
                Some(i) => is_best_fit(self.free_blocks(), required, i as int),
                None => !has_fit(self.free_blocks(), required),
            },
    {
        let mut best: Option<usize> = None;
        let mut j: usize = 0;
        while j < self.free.len()
            invariant
                j <= self.free@.len(),
                match best {
                    Some(i) => {
                        &&& i < j
                        &&& self.free@[i as int].len >= required
                        &&& forall|k: int|
                            0 <= k < j && (#[trigger] self.free@[k]).len >= required && k != i
                                ==> (if k < i {
                                ranks_before(self.free@[i as int], self.free@[k])
                            } else {
                                ranks_before(self.free@[i as int], self.free@[k])
                                    || self.free@[i as int] == self.free@[k]
                            })
                    },
                    None => forall|k: int| 0 <= k < j ==> (#[trigger] self.free@[k]).len < required,
                },
            decreases self.free@.len() - j,
        {
            let b = self.free[j];
            if b.len >= required {
                match best {
                    None => {
                        best = Some(j);
                    },
                    Some(i) => {
                        let c = self.free[i];
                        if b.len < c.len || (b.len == c.len && b.offset < c.offset) {
                            best = Some(j);
                        }
                    },
                }
            }
            j = j + 1;
        }
        best
    }

    /// Carves `required` slots out of the best-fitting free block, if there is
    /// one. What is left of that block past the carved part stays free. `None`
    /// is no error: the caller then takes the run from the tail.
    pub fn try_allocate(&mut self, required: u64) -> (r: Option<BufferAlloc>)
        requires
            old(self).wf(),
        ensures
            final(self).wf(),
            final(self).next_offset() == old(self).next_offset(),
            match r {
                Some(a) => exists|i: int|
                    {
                        &&& is_best_fit(old(self).free_blocks(), required, i)
                        &&& a == BufferAlloc { offset: old(self).free_blocks()[i].offset, len: required }
                        &&& final(self).free_blocks() == carve(old(self).free_blocks(), required, i)
                    },
                None => {
                    &&& !has_fit(old(self).free_blocks(), required)
                    &&& final(self).free_blocks() == old(self).free_blocks()
                },
            },
    {
        match self.find_best_fit(required) {
            None => None,
            Some(i) => {
                let ghost before = self.free@;
                let b = self.free.remove(i);
                if b.len > required {
                    self.free.push(BufferAlloc { offset: b.offset + required, len: b.len - required });
                }
                proof {
                    lemma_carve_layout(Seq::empty(), before, required, i as int, self.next as int);
                }
                Some(BufferAlloc { offset: b.offset, len: required })
            },
        }
    }

    /// Takes `len` slots from the tail and returns where they start.
    pub fn allocate_at_tail(&mut self, len: u64) -> (r: u64)
        requires
            old(self).wf(),
            old(self).next_offset() + len <= u64::MAX,
        ensures
            final(self).wf(),
            r == old(self).next_offset(),
            final(self).next_offset() == old(self).next_offset() + len,
            final(self).free_blocks() == old(self).free_blocks(),
    {
        let r = self.next;
        self.next = self.next + len;
        proof {
            assert forall|i: int| 0 <= i < self.free@.len() implies (#[trigger] self.free@[i]).end()
                <= self.next by {}
        }
        r
    }

    /// Places a run of `len` slots: in the best-fitting free block if one is
    /// long enough, else at the tail.
    pub fn allocate(&mut self, len: u64) -> (r: BufferAlloc)
        requires
            old(self).wf(),
            old(self).next_offset() + len <= u64::MAX,
        ensures
            final(self).wf(),
            r.len == len,
            placed(*old(self), *final(self), len, r),
            forall|live: Seq<BufferAlloc>| #[trigger]
                old(self).layout_ok(live) ==> final(self).layout_ok(live.push(r)),
    {
        let ghost before = *self;
        match self.try_allocate(len) {
            Some(a) => {
                proof {
                    let i = choose|i: int|
                        {
                            &&& is_best_fit(before.free_blocks(), len, i)
                            &&& a == BufferAlloc { offset: before.free_blocks()[i].offset, len: len }
                            &&& self.free_blocks() == carve(before.free_blocks(), len, i)
                        };
                    assert forall|live: Seq<BufferAlloc>| #[trigger]
                        before.layout_ok(live) implies self.layout_ok(live.push(a)) by {
                        lemma_carve_layout(live, before.free_blocks(), len, i, self.next as int);
                    }
                }
                a
            },
            None => {
                let offset = self.allocate_at_tail(len);
                let a = BufferAlloc { offset, len };
                proof {
                    assert forall|live: Seq<BufferAlloc>| #[trigger]
                        before.layout_ok(live) implies self.layout_ok(live.push(a)) by {
                        lemma_tail_layout(live, before.free_blocks(), before.next, len);
                    }
                }
                a
            },
        }
    }

    /// Returns the run `a` to the free set.
    pub fn free(&mut self, a: BufferAlloc)
        requires
            old(self).wf(),
            a.end() <= old(self).next_offset(),
            forall|j: int|
                0 <= j < old(self).free_blocks().len() ==> disjoint(a, #[trigger] old(self).free_blocks()[j]),
        ensures
            final(self).wf(),
            final(self).next_offset() == old(self).next_offset(),
            final(self).free_blocks() == old(self).free_blocks().push(a),
            forall|live: Seq<BufferAlloc>, k: int|
                #![trigger old(self).layout_ok(live), live[k]]
                old(self).layout_ok(live) && 0 <= k < live.len() && live[k] == a
                    ==> final(self).layout_ok(live.remove(k)),
    {
        let ghost before = *self;
        self.free.push(a);
        proof {
            let s = self.free@;
            assert forall|i: int, j: int|
                0 <= i < s.len() && 0 <= j < s.len() && i != j implies disjoint(
                #[trigger] s[i],
                #[trigger] s[j],
            ) by {
                if i < s.len() - 1 && j < s.len() - 1 {
                    assert(s[i] == old(self).free@[i]);
                    assert(s[j] == old(self).free@[j]);
                }
            }
            assert forall|live: Seq<BufferAlloc>, k: int|
                #![trigger before.layout_ok(live), live[k]]
                before.layout_ok(live) && 0 <= k < live.len() && live[k] == a implies self.layout_ok(
                    live.remove(k),
                ) by {
                lemma_release_layout(live, before.free_blocks(), self.next as int, k);
            }
        }
    }
}

/// A run that lies inside `c` is disjoint from whatever `c` is disjoint from.
proof fn lemma_inside(a: BufferAlloc, c: BufferAlloc, x: BufferAlloc)
    requires
        c.offset <= a.offset,
        a.end() <= c.end(),
        disjoint(c, x),
    ensures
        disjoint(a, x),
{
}

/// Carving block `i` for `required` slots, and adding the carved run to the live
/// runs, keeps every run below `bound` and no two sharing a slot.
pub(crate) proof fn lemma_carve_layout(
    live: Seq<BufferAlloc>,
    free: Seq<BufferAlloc>,
    required: u64,
    i: int,
    bound: int,
)
    requires
        pairwise_disjoint(free),
        all_below(free, bound),
        pairwise_disjoint(live),
        cross_disjoint(live, free),
        all_below(live, bound),
        0 <= i < free.len(),
        free[i].len >= required,
        bound <= u64::MAX,
    ensures
        ({
            let a = BufferAlloc { offset: free[i].offset, len: required };
            let s = carve(free, required, i);
            &&& pairwise_disjoint(s)
            &&& all_below(s, bound)
            &&& pairwise_disjoint(live.push(a))
            &&& cross_disjoint(live.push(a), s)
            &&& all_below(live.push(a), bound)
        }),
{
    let r = free.remove(i);
    let c = free[i];
    let a = BufferAlloc { offset: c.offset, len: required };
    let l = live.push(a);
    // every block that stays was a block other than `i`
    assert forall|j: int| 0 <= j < r.len() implies (#[trigger] r[j]) == free[if j < i {
        j
    } else {
        j + 1
    }] by {}
    assert forall|j: int| 0 <= j < r.len() implies disjoint(a, #[trigger] r[j]) by {
        let k = if j < i {
            j
        } else {
            j + 1
        };
        assert(disjoint(free[i], free[k]));
        lemma_inside(a, c, r[j]);
    }
    assert forall|x: int, y: int|
        0 <= x < r.len() && 0 <= y < r.len() && x != y implies disjoint(#[trigger] r[x], #[trigger] r[y]) by {
        let kx = if x < i {
            x
        } else {
            x + 1
        };
        let ky = if y < i {
            y
        } else {
            y + 1
        };
        assert(disjoint(free[kx], free[ky]));
    }
    assert forall|j: int| 0 <= j < r.len() implies (#[trigger] r[j]).end() <= bound by {
        let k = if j < i {
            j
        } else {
            j + 1
        };
        assert(free[k].end() <= bound);
    }
    assert forall|x: int, j: int| 0 <= x < live.len() && 0 <= j < r.len() implies disjoint(
        #[trigger] live[x],
        #[trigger] r[j],
    ) by {
        let k = if j < i {
            j
        } else {
            j + 1
        };
        assert(disjoint(live[x], free[k]));
    }
    assert forall|x: int| 0 <= x < live.len() implies disjoint(#[trigger] live[x], a) by {
        assert(disjoint(live[x], free[i]));
        lemma_inside(a, c, live[x]);
    }
    assert(c.end() <= bound);
    assert forall|x: int, y: int|
        0 <= x < l.len() && 0 <= y < l.len() && x != y implies disjoint(#[trigger] l[x], #[trigger] l[y]) by {
        if x < live.len() && y < live.len() {
            assert(l[x] == live[x] && l[y] == live[y]);
        } else if x < live.len() {
            assert(l[x] == live[x]);
        } else if y < live.len() {
            assert(l[y] == live[y]);
        }
    }
    assert forall|x: int| 0 <= x < l.len() implies (#[trigger] l[x]).end() <= bound by {
        if x < live.len() {
            assert(l[x] == live[x]);
        }
    }
    if c.len > required {
        let rest = BufferAlloc { offset: (c.offset + required) as u64, len: (c.len - required) as u64 };
        let s = r.push(rest);
        assert(s == carve(free, required, i));
        assert forall|j: int| 0 <= j < r.len() implies disjoint(rest, #[trigger] r[j]) by {
            let k = if j < i {
                j
            } else {
                j + 1
            };
            assert(disjoint(free[i], free[k]));
            lemma_inside(rest, c, r[j]);
        }
        assert forall|x: int| 0 <= x < live.len() implies disjoint(#[trigger] live[x], rest) by {
            assert(disjoint(live[x], free[i]));
            lemma_inside(rest, c, live[x]);
        }
        assert forall|x: int, y: int|
            0 <= x < s.len() && 0 <= y < s.len() && x != y implies disjoint(#[trigger] s[x], #[trigger] s[y]) by {
            if x < r.len() && y < r.len() {
                assert(s[x] == r[x] && s[y] == r[y]);
            } else if x < r.len() {
                assert(s[x] == r[x]);
            } else if y < r.len() {
                assert(s[y] == r[y]);
            }
        }
        assert forall|j: int| 0 <= j < s.len() implies (#[trigger] s[j]).end() <= bound by {
            if j < r.len() {
                assert(s[j] == r[j]);
            }
        }
        assert forall|x: int, j: int| 0 <= x < l.len() && 0 <= j < s.len() implies disjoint(
            #[trigger] l[x],
            #[trigger] s[j],
        ) by {
            if x < live.len() {
                assert(l[x] == live[x]);
            }
            if j < r.len() {
                assert(s[j] == r[j]);
            }
        }
    } else {
        assert(r == carve(free, required, i));
        assert forall|x: int, j: int| 0 <= x < l.len() && 0 <= j < r.len() implies disjoint(
            #[trigger] l[x],
            #[trigger] r[j],
        ) by {
            if x < live.len() {
                assert(l[x] == live[x]);
            }
        }
    }
}

/// Taking `len` slots at the tail `bound` and adding them to the live runs keeps
/// every run below the new tail and no two sharing a slot.
pub(crate) proof fn lemma_tail_layout(live: Seq<BufferAlloc>, free: Seq<BufferAlloc>, bound: u64, len: u64)
    requires
        pairwise_disjoint(free),
        all_below(free, bound as int),
        pairwise_disjoint(live),
        cross_disjoint(live, free),
        all_below(live, bound as int),
        bound + len <= u64::MAX,
    ensures
        ({
            let l = live.push(BufferAlloc { offset: bound, len });
            &&& all_below(free, bound + len)
            &&& pairwise_disjoint(l)
            &&& cross_disjoint(l, free)
            &&& all_below(l, bound + len)
        }),
{
    let a = BufferAlloc { offset: bound, len };
    let l = live.push(a);
    assert forall|j: int| 0 <= j < free.len() implies (#[trigger] free[j]).end() <= bound + len by {}
    assert forall|x: int, y: int|
        0 <= x < l.len() && 0 <= y < l.len() && x != y implies disjoint(#[trigger] l[x], #[trigger] l[y]) by {
        if x < live.len() {
            assert(l[x] == live[x]);
        }
        if y < live.len() {
            assert(l[y] == live[y]);
        }
    }
    assert forall|x: int, j: int| 0 <= x < l.len() && 0 <= j < free.len() implies disjoint(
        #[trigger] l[x],
        #[trigger] free[j],
    ) by {
        if x < live.len() {
            assert(l[x] == live[x]);
        }
    }
    assert forall|x: int| 0 <= x < l.len() implies (#[trigger] l[x]).end() <= bound + len by {
        if x < live.len() {
            assert(l[x] == live[x]);
        }
    }
}

/// Moving live run `k` to the free blocks keeps every run below `bound` and no
/// two sharing a slot.
pub(crate) proof fn lemma_release_layout(live: Seq<BufferAlloc>, free: Seq<BufferAlloc>, bound: int, k: int)
    requires
        pairwise_disjoint(free),
        all_below(free, bound),
        pairwise_disjoint(live),
        cross_disjoint(live, free),
        all_below(live, bound),
        0 <= k < live.len(),
    ensures
        ({
            let l = live.remove(k);
            let f = free.push(live[k]);
            &&& pairwise_disjoint(f)
            &&& all_below(f, bound)
            &&& pairwise_disjoint(l)
            &&& cross_disjoint(l, f)
            &&& all_below(l, bound)
        }),
{
    let l = live.remove(k);
    let f = free.push(live[k]);
    assert forall|j: int| 0 <= j < l.len() implies (#[trigger] l[j]) == live[if j < k {
        j
    } else {
        j + 1
    }] by {}
    assert forall|x: int, y: int|
        0 <= x < f.len() && 0 <= y < f.len() && x != y implies disjoint(#[trigger] f[x], #[trigger] f[y]) by {
        if x < free.len() {
            assert(f[x] == free[x]);
        }
        if y < free.len() {
            assert(f[y] == free[y]);
        }
    }
    assert forall|x: int| 0 <= x < f.len() implies (#[trigger] f[x]).end() <= bound by {
        if x < free.len() {
            assert(f[x] == free[x]);
        }
    }
    assert forall|x: int, y: int|
        0 <= x < l.len() && 0 <= y < l.len() && x != y implies disjoint(#[trigger] l[x], #[trigger] l[y]) by {
        let kx = if x < k {
            x
        } else {
            x + 1
        };
        let ky = if y < k {
            y
        } else {
            y + 1
        };
        assert(disjoint(live[kx], live[ky]));
    }
    assert forall|x: int, j: int| 0 <= x < l.len() && 0 <= j < f.len() implies disjoint(
        #[trigger] l[x],
        #[trigger] f[j],
    ) by {
        let kx = if x < k {
            x
        } else {
            x + 1
        };
        if j < free.len() {
            assert(f[j] == free[j]);
            assert(disjoint(live[kx], free[j]));
        } else {
            assert(disjoint(live[kx], live[k]));
        }
    }
    assert forall|x: int| 0 <= x < l.len() implies (#[trigger] l[x]).end() <= bound by {
        let kx = if x < k {
            x
        } else {
            x + 1
        };
        assert(live[kx].end() <= bound);
    }
}

} // verus!
