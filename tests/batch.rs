use srs2dge::{BatchRenderer, BufferAlloc, Command, Idx, Mesh, SpanAllocator, TriangleStrip, RESTART_INDEX};

/// A test vertex: which geometry it belongs to, and its place in it.
type Vert = (u32, u32);

type Strip = TriangleStrip<Vert>;

/// A strip of `n` vertices tagged `tag`.
fn strip(tag: u32, n: u32) -> Strip {
    TriangleStrip::new((0..n).map(|i| (tag, i)).collect())
}

fn quad(tag: u32) -> Strip {
    strip(tag, 4)
}

/// The two device buffers, with `None` where nothing was written.
#[derive(Default)]
struct Device {
    vbo: Vec<Option<Vert>>,
    ibo: Vec<Option<u32>>,
    writes: usize,
}

impl Device {
    fn run(&mut self, cmds: &[Command<Vert>]) {
        for c in cmds {
            match c {
                Command::GrowVertices { capacity } => {
                    assert!(*capacity as usize >= self.vbo.len());
                    let mut new = vec![None; *capacity as usize];
                    new[..self.vbo.len()].copy_from_slice(&self.vbo);
                    self.vbo = new;
                }
                Command::GrowIndices { capacity } => {
                    assert!(*capacity as usize >= self.ibo.len());
                    let mut new = vec![None; *capacity as usize];
                    new[..self.ibo.len()].copy_from_slice(&self.ibo);
                    self.ibo = new;
                }
                Command::WriteVertices { offset, vertices } => {
                    let o = *offset as usize;
                    assert!(o + vertices.len() <= self.vbo.len());
                    for (k, v) in vertices.iter().enumerate() {
                        self.vbo[o + k] = Some(*v);
                    }
                    self.writes += 1;
                }
                Command::WriteIndices { offset, indices } => {
                    let o = *offset as usize;
                    assert!(o + indices.len() <= self.ibo.len());
                    for (k, v) in indices.iter().enumerate() {
                        self.ibo[o + k] = Some(*v);
                    }
                    self.writes += 1;
                }
            }
        }
    }

    fn vertices_at(&self, a: BufferAlloc) -> Vec<Option<Vert>> {
        self.vbo[a.offset as usize..(a.offset + a.len) as usize].to_vec()
    }

    fn indices_at(&self, a: BufferAlloc) -> Vec<Option<u32>> {
        self.ibo[a.offset as usize..(a.offset + a.len) as usize].to_vec()
    }
}

fn overlaps(a: BufferAlloc, b: BufferAlloc) -> bool {
    a.len > 0 && b.len > 0 && a.offset < b.offset + b.len && b.offset < a.offset + a.len
}

#[test]
fn best_fit_takes_smallest_sufficient_block() {
    let mut s = SpanAllocator::new();
    let a = s.allocate_at_tail(4);
    let b = s.allocate_at_tail(10);
    let c = s.allocate_at_tail(7);
    assert_eq!((a, b, c), (0, 4, 14));
    s.free(BufferAlloc { offset: a, len: 4 });
    s.free(BufferAlloc { offset: b, len: 10 });
    s.free(BufferAlloc { offset: c, len: 7 });

    let got = s.try_allocate(6);
    assert_eq!(got, Some(BufferAlloc { offset: 14, len: 6 }));
    let free = s.free_list();
    assert_eq!(free.len(), 3);
    assert!(free.contains(&BufferAlloc { offset: 0, len: 4 }));
    assert!(free.contains(&BufferAlloc { offset: 4, len: 10 }));
    assert!(free.contains(&BufferAlloc { offset: 20, len: 1 }));
    assert_eq!(s.next(), 21);
}

#[test]
fn try_allocate_on_empty_free_set_is_none() {
    let mut s = SpanAllocator::new();
    assert_eq!(s.try_allocate(3), None);
    assert_eq!(s.next(), 0);
    assert_eq!(s.allocate(3), BufferAlloc { offset: 0, len: 3 });
    assert_eq!(s.requested(), 3);
}

#[test]
fn too_small_blocks_fall_back_to_tail() {
    let mut s = SpanAllocator::new();
    let a = s.allocate(2);
    s.free(a);
    assert_eq!(s.try_allocate(3), None);
    assert_eq!(s.allocate(3), BufferAlloc { offset: 2, len: 3 });
    assert_eq!(s.free_list(), vec![BufferAlloc { offset: 0, len: 2 }]);
}

#[test]
fn exact_fit_leaves_no_remainder() {
    let mut s = SpanAllocator::new();
    let a = s.allocate(5);
    s.allocate(1);
    s.free(a);
    assert_eq!(s.allocate(5), BufferAlloc { offset: 0, len: 5 });
    assert!(s.free_list().is_empty());
}

#[test]
fn equal_length_free_blocks_are_both_reusable() {
    let mut s = SpanAllocator::new();
    let a = s.allocate(5);
    let b = s.allocate(5);
    s.free(a);
    s.free(b);
    let x = s.allocate(5);
    let y = s.allocate(5);
    assert_eq!(x, BufferAlloc { offset: 0, len: 5 });
    assert_eq!(y, BufferAlloc { offset: 5, len: 5 });
    assert_eq!(s.next(), 10);
}

#[test]
fn first_quad_grows_buffers_to_twice_the_request() {
    let mut b: BatchRenderer<Strip, Vert> = BatchRenderer::new();
    assert_eq!(b.vbo_capacity(), 0);
    let h = b.push_with(quad(1));
    assert_eq!(h.vbo, BufferAlloc { offset: 0, len: 4 });
    assert_eq!(h.ibo, BufferAlloc { offset: 0, len: 5 });
    let (cmds, count) = b.generate();
    assert_eq!(count, 5);
    assert_eq!(
        cmds,
        vec![
            Command::GrowVertices { capacity: 8 },
            Command::GrowIndices { capacity: 10 },
            Command::WriteVertices { offset: 0, vertices: vec![(1, 0), (1, 1), (1, 2), (1, 3)] },
            Command::WriteIndices { offset: 0, indices: vec![0, 1, 2, 3, RESTART_INDEX] },
        ]
    );
    assert!(b.vbo_capacity() >= 8);
    assert_eq!(b.vbo_capacity(), 8);
    assert_eq!(b.ibo_capacity(), 10);
}

#[test]
fn push_modify_drop_touch_no_device_until_generate() {
    let mut b: BatchRenderer<Strip, Vert> = BatchRenderer::new();
    let h = b.push_with(quad(1));
    b.modify(quad(2), h);
    b.drop(h);
    assert_eq!(b.pending_len(), 3);
    assert_eq!(b.vbo_capacity(), 0);
    assert_eq!(b.ibo_capacity(), 0);
}

#[test]
fn dropped_geometry_is_filled_with_restart_indices() {
    let mut b: BatchRenderer<Strip, Vert> = BatchRenderer::new();
    let mut dev = Device::default();
    let h1 = b.push_with(quad(1));
    let h2 = b.push_with(quad(2));
    dev.run(&b.generate().0);
    b.drop(h1);
    let (cmds, count) = b.generate();
    assert_eq!(cmds, vec![Command::WriteIndices { offset: 0, indices: vec![RESTART_INDEX; 5] }]);
    dev.run(&cmds);
    assert_eq!(count, 10);
    assert_eq!(dev.indices_at(h1.ibo), vec![Some(RESTART_INDEX); 5]);
    assert_eq!(dev.indices_at(h2.ibo), vec![Some(4), Some(5), Some(6), Some(7), Some(RESTART_INDEX)]);
}

#[test]
fn second_generate_does_nothing() {
    let mut b: BatchRenderer<Strip, Vert> = BatchRenderer::new();
    let mut dev = Device::default();
    b.push_with(quad(1));
    b.push_with(quad(2));
    let (cmds, count) = b.generate();
    dev.run(&cmds);
    let writes = dev.writes;
    let caps = (b.vbo_capacity(), b.ibo_capacity());
    let (again, count2) = b.generate();
    dev.run(&again);
    assert!(again.is_empty());
    assert_eq!(count2, count);
    assert_eq!(dev.writes, writes);
    assert_eq!((b.vbo_capacity(), b.ibo_capacity()), caps);
}

#[test]
fn pushed_quad_reads_back_its_vertices() {
    let mut b: BatchRenderer<Strip, Vert> = BatchRenderer::new();
    let mut dev = Device::default();
    b.push_with(quad(9));
    let m = quad(7);
    let expect_v: Vec<Option<Vert>> = m.vertices().into_iter().map(Some).collect();
    let expect_i: Vec<Option<u32>> = m.indices(4).into_iter().map(Some).collect();
    let h = b.push_with(m);
    assert_eq!(h.vbo.offset, 4);
    dev.run(&b.generate().0);
    assert_eq!(dev.vertices_at(h.vbo), expect_v);
    assert_eq!(dev.vertices_at(h.vbo), vec![Some((7, 0)), Some((7, 1)), Some((7, 2)), Some((7, 3))]);
    assert_eq!(dev.indices_at(h.ibo), expect_i);
    assert_eq!(dev.indices_at(h.ibo), vec![Some(4), Some(5), Some(6), Some(7), Some(RESTART_INDEX)]);
}

#[test]
fn growth_keeps_earlier_handles_and_content() {
    let mut b: BatchRenderer<Strip, Vert> = BatchRenderer::new();
    let mut dev = Device::default();
    let first = b.push_with(quad(1));
    dev.run(&b.generate().0);
    let kept = first;
    let before_v = dev.vertices_at(first.vbo);
    let before_i = dev.indices_at(first.ibo);
    let cap = b.vbo_capacity();
    for t in 2..20 {
        b.push_with(quad(t));
    }
    let (cmds, count) = b.generate();
    assert!(cmds.iter().any(|c| matches!(c, Command::GrowVertices { .. })));
    dev.run(&cmds);
    assert!(b.vbo_capacity() > cap);
    assert_eq!(b.vbo_capacity(), 2 * 19 * 4);
    assert_eq!(count, 19 * 5);
    assert_eq!(first, kept);
    assert_eq!(dev.vertices_at(first.vbo), before_v);
    assert_eq!(dev.indices_at(first.ibo), before_i);
}

#[test]
fn drop_then_push_reuses_the_span() {
    let mut b: BatchRenderer<Strip, Vert> = BatchRenderer::new();
    let h1 = b.push_with(quad(1));
    let _h2 = b.push_with(quad(2));
    b.drop(h1);
    let h3 = b.push_with(quad(3));
    assert_eq!(h3, h1);
    assert_eq!(b.vertex_len(), 8);
    assert_eq!(b.index_len(), 10);
}

#[test]
fn vertex_and_index_spaces_allocate_independently() {
    let mut b: BatchRenderer<Strip, Vert> = BatchRenderer::new();
    let a = b.push_with(strip(1, 3));
    let c = b.push_with(strip(2, 1));
    b.drop(a);
    b.drop(c);
    let d = b.push_with(strip(3, 2));
    assert_eq!(d.vbo, BufferAlloc { offset: 0, len: 2 });
    assert_eq!(d.ibo, BufferAlloc { offset: 0, len: 3 });
    let e = b.push_with(strip(4, 1));
    assert_eq!(e.vbo, BufferAlloc { offset: 2, len: 1 });
    assert_eq!(e.ibo, BufferAlloc { offset: 4, len: 2 });
    // one vertex still fits in a freed vertex run; two indices no longer fit
    // in any freed index run, so they come from the index tail alone
    let f = b.push_with(strip(5, 1));
    assert_eq!(f.vbo, BufferAlloc { offset: 3, len: 1 });
    assert_eq!(f.ibo, BufferAlloc { offset: 6, len: 2 });
    assert_eq!(b.vertex_len(), 4);
    assert_eq!(b.index_len(), 8);
}

#[test]
fn modify_uploads_at_the_same_handle() {
    let mut b: BatchRenderer<Strip, Vert> = BatchRenderer::new();
    let mut dev = Device::default();
    let h = b.push_with(quad(1));
    let other = b.push_with(quad(2));
    dev.run(&b.generate().0);
    b.modify(quad(5), h);
    let (cmds, count) = b.generate();
    assert_eq!(count, 10);
    assert_eq!(
        cmds,
        vec![
            Command::WriteVertices { offset: 0, vertices: vec![(5, 0), (5, 1), (5, 2), (5, 3)] },
            Command::WriteIndices { offset: 0, indices: vec![0, 1, 2, 3, RESTART_INDEX] },
        ]
    );
    dev.run(&cmds);
    assert_eq!(dev.vertices_at(other.vbo), vec![Some((2, 0)), Some((2, 1)), Some((2, 2)), Some((2, 3))]);
}

#[test]
fn live_spans_never_overlap() {
    let mut b: BatchRenderer<Strip, Vert> = BatchRenderer::new();
    let mut live: Vec<Idx> = Vec::new();
    let mut seed: u32 = 12345;
    for step in 0..400u32 {
        seed = seed.wrapping_mul(1103515245).wrapping_add(12345);
        let r = (seed >> 16) % 3;
        if r == 0 && !live.is_empty() {
            let k = (seed as usize >> 4) % live.len();
            let h = live.swap_remove(k);
            b.drop(h);
        } else {
            let n = (seed >> 8) % 7;
            live.push(b.push_with(strip(step, n)));
        }
        for i in 0..live.len() {
            for j in 0..live.len() {
                if i != j {
                    assert!(!overlaps(live[i].vbo, live[j].vbo));
                    assert!(!overlaps(live[i].ibo, live[j].ibo));
                }
            }
        }
        if step % 50 == 0 {
            b.generate();
        }
    }
}

#[test]
fn restart_index_has_all_bits_set() {
    assert_eq!(RESTART_INDEX, 0xFFFF_FFFF);
    assert_eq!(RESTART_INDEX, !0u32);
}

#[test]
fn triangle_strip_counts_and_indices() {
    let s = strip(3, 3);
    assert_eq!(s.vbo_alloc(), 3);
    assert_eq!(s.ibo_alloc(), 4);
    assert_eq!(s.vertices(), vec![(3, 0), (3, 1), (3, 2)]);
    assert_eq!(s.indices(10), vec![10, 11, 12, RESTART_INDEX]);
    assert_eq!(s.indices(0), vec![0, 1, 2, RESTART_INDEX]);
}

#[test]
fn empty_strip_takes_only_its_restart_index() {
    let mut b: BatchRenderer<Strip, Vert> = BatchRenderer::new();
    let h = b.push_with(strip(1, 0));
    assert_eq!(h.vbo, BufferAlloc { offset: 0, len: 0 });
    assert_eq!(h.ibo, BufferAlloc { offset: 0, len: 1 });
    let (cmds, count) = b.generate();
    assert_eq!(count, 1);
    assert_eq!(
        cmds,
        vec![
            Command::GrowIndices { capacity: 2 },
            Command::WriteVertices { offset: 0, vertices: vec![] },
            Command::WriteIndices { offset: 0, indices: vec![RESTART_INDEX] },
        ]
    );
}

#[test]
fn two_dropped_quads_are_both_reused() {
    let mut b: BatchRenderer<Strip, Vert> = BatchRenderer::new();
    let h1 = b.push_with(quad(1));
    let h2 = b.push_with(quad(2));
    let _h3 = b.push_with(quad(3));
    b.drop(h1);
    b.drop(h2);
    let a = b.push_with(quad(4));
    let c = b.push_with(quad(5));
    assert_eq!(a, h1);
    assert_eq!(c, h2);
    assert_eq!(b.vertex_len(), 12);
    assert_eq!(b.index_len(), 15);
}

#[test]
fn generate_orders_tombstone_before_reupload() {
    let mut b: BatchRenderer<Strip, Vert> = BatchRenderer::new();
    let mut dev = Device::default();
    let h1 = b.push_with(quad(1));
    dev.run(&b.generate().0);
    b.drop(h1);
    let h2 = b.push_with(quad(2));
    assert_eq!(h2, h1);
    let (cmds, _) = b.generate();
    assert_eq!(cmds.len(), 3);
    dev.run(&cmds);
    assert_eq!(dev.indices_at(h2.ibo), vec![Some(0), Some(1), Some(2), Some(3), Some(RESTART_INDEX)]);
    assert_eq!(dev.vertices_at(h2.vbo), vec![Some((2, 0)), Some((2, 1)), Some((2, 2)), Some((2, 3))]);
}
