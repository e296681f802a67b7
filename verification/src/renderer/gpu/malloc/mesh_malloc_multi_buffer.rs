use crate::renderer::gpu::malloc::common::{
    block_weight, checked_block_sizes, map_weight, padded_decimal, push_padded, push_str,
    string_from_chars, VirtualMemSlot,
};
use crate::renderer::gpu::malloc::ff_malloc::{ff_has_fit, VMallocFirstFit};
use crate::renderer::gpu::malloc::mesh_malloc::MeshVMalloc;
use crate::renderer::gpu::malloc::virtual_malloc::{MallocError, VirtualMalloc};
use vstd::prelude::*;

verus! {

/// Where a mesh went: its vertex and index offsets and counts, as the shaders
/// read them.
#[derive(Copy, Debug, Clone)]
pub struct MultiBufferMeshAllocation {
    pub vertex_offset: u32,
    pub index_offset: u32,
    pub vertex_size: u32,
    pub index_size: u32,
}

#[derive(Debug)]
pub struct MultiBufferMeshAllocationRequest {
    pub buffer_index: usize,
    pub vertex_size: usize,
    pub index_size: usize,
}

/// `N` GPU buffers, each with its own vertex and index arenas.
pub struct MeshVMallocMultiBuffer<const N: usize> {
    virtual_buffers: Vec<MeshVMalloc>,
}

impl<const N: usize> MeshVMallocMultiBuffer<N> {
    /// The arenas of the buffers.
    pub closed spec fn buffers(&self) -> Seq<MeshVMalloc> {
        self.virtual_buffers@
    }

    pub open spec fn wf(&self) -> bool {
        &&& self.buffers().len() == N
        &&& forall|i: int| 0 <= i < N ==> (#[trigger] self.buffers()[i]).wf()
    }

    pub fn new(vertices_per_buffer: usize, indices_per_buffer: usize, offset: usize) -> (r: Self)
        requires
            offset + vertices_per_buffer <= usize::MAX,
            offset + indices_per_buffer <= usize::MAX,
        ensures
            r.wf(),
            forall|i: int|
                0 <= i < N ==> {
                    &&& (#[trigger] r.buffers()[i]).vertex_malloc.fresh(vertices_per_buffer, offset)
                    &&& r.buffers()[i].index_malloc.fresh(indices_per_buffer, offset)
                },
    {
        let mut virtual_buffers: Vec<MeshVMalloc> = Vec::with_capacity(N);
        let mut i: usize = 0;
        while i < N
            invariant
                i <= N,
                offset + vertices_per_buffer <= usize::MAX,
                offset + indices_per_buffer <= usize::MAX,
                virtual_buffers@.len() == i,
                forall|j: int|
                    0 <= j < i ==> {
                        &&& (#[trigger] virtual_buffers@[j]).wf()
                        &&& virtual_buffers@[j].vertex_malloc.fresh(vertices_per_buffer, offset)
                        &&& virtual_buffers@[j].index_malloc.fresh(indices_per_buffer, offset)
                    },
            decreases N - i,
        {
            virtual_buffers.push(MeshVMalloc::with_counts(vertices_per_buffer, indices_per_buffer, offset));
            i = i + 1;
        }
        Self { virtual_buffers }
    }

    /// Allocates a mesh in buffer `buffer_index`; any failure is reported as
    /// out of memory.
    pub fn allocate(&mut self, allocation_request: MultiBufferMeshAllocationRequest) -> (r: Result<
        MultiBufferMeshAllocation,
        MallocError,
    >)
        requires
            old(self).wf(),
            allocation_request.buffer_index < N,
        ensures
            final(self).wf(),
            ({
                let i = allocation_request.buffer_index as int;
                let request = (allocation_request.vertex_size, allocation_request.index_size);
                &&& exists|inner: Result<(usize, usize), MallocError>|
                    {
                        &&& #[trigger] old(self).buffers()[i].alloc_outcome(
                            request,
                            inner,
                            final(self).buffers()[i],
                        )
                        &&& (inner is Err <==> r is Err)
                        &&& (r matches Err(e) ==> e == MallocError::OutOfMemory)
                        &&& (inner matches Ok((v, x)) ==> r == Ok::<MultiBufferMeshAllocation, MallocError>(
                            MultiBufferMeshAllocation {
                                vertex_offset: v as u32,
                                index_offset: x as u32,
                                vertex_size: allocation_request.vertex_size as u32,
                                index_size: allocation_request.index_size as u32,
                            },
                        ))
                    }
                &&& forall|j: int| 0 <= j < N && j != i ==> #[trigger] final(self).buffers()[j] == old(
                    self,
                ).buffers()[j]
            }),
    {
        let ghost i = allocation_request.buffer_index as int;
        let ghost request = (allocation_request.vertex_size, allocation_request.index_size);
        let result = self.virtual_buffers[allocation_request.buffer_index].allocate(
            (allocation_request.vertex_size, allocation_request.index_size),
        );
        proof {
            assert(old(self).buffers()[i].alloc_outcome(request, result, self.buffers()[i]));
        }
        let allocation = match result {
            Ok(a) => a,
            Err(_) => {
                return Err(MallocError::OutOfMemory);
            },
        };
        Ok(
            MultiBufferMeshAllocation {
                vertex_offset: allocation.0 as u32,
                vertex_size: allocation_request.vertex_size as u32,
                index_offset: allocation.1 as u32,
                index_size: allocation_request.index_size as u32,
            },
        )
    }

    /// Frees a mesh allocation of buffer `allocation.0`.
    pub fn free(&mut self, allocation: (usize, MultiBufferMeshAllocation)) -> (r: Result<(), MallocError>)
        requires
            old(self).wf(),
            allocation.0 < N,
        ensures
            final(self).wf(),
            ({
                let i = allocation.0 as int;
                let v = allocation.1.vertex_offset as usize;
                let x = allocation.1.index_offset as usize;
                &&& old(self).buffers()[i].free_outcome((v, x), r, final(self).buffers()[i])
                &&& forall|j: int| 0 <= j < N && j != i ==> #[trigger] final(self).buffers()[j] == old(
                    self,
                ).buffers()[j]
            }),
    {
        let ghost i = allocation.0 as int;
        let result = self.virtual_buffers[allocation.0].free(
            (allocation.1.vertex_offset as usize, allocation.1.index_offset as usize),
        );
        match result {
            Ok(()) => Ok(()),
            Err(e) => Err(e),
        }
    }
}

/// The width of the usage gauges.
pub const BAR_SIZE: usize = 30;

/// The units in use in an arena.
pub open spec fn used_units(used: Map<usize, VirtualMemSlot>) -> nat {
    map_weight(used, block_weight::<VirtualMemSlot>())
}

/// A gauge of `BAR_SIZE` characters: `#` for the used part of an arena, in
/// steps of `arena_size / BAR_SIZE`, and spaces for the rest.
pub open spec fn gauge(used: nat, arena_size: nat) -> Seq<char> {
    let filled = used / (arena_size / BAR_SIZE as nat);
    Seq::new(filled, |j: int| '#') + Seq::new((BAR_SIZE - filled) as nat, |j: int| ' ')
}

/// The gauge can be drawn: the arena has at least `BAR_SIZE` units, and the
/// used part, summed in a `usize`, does not overflow the gauge.
pub open spec fn gauge_fits(used: nat, arena_size: nat) -> bool {
    &&& arena_size >= BAR_SIZE
    &&& used <= usize::MAX
    &&& used / (arena_size / BAR_SIZE as nat) <= BAR_SIZE
}

/// The two gauges of buffer `i`.
pub open spec fn buffer_lines(i: nat, b: MeshVMalloc) -> Seq<char> {
    "vertex "@ + padded_decimal(i, 2) + ": ["@ + gauge(
        used_units(b.vertex_malloc.used_blocks@),
        b.vertex_malloc.arena_size as nat,
    ) + "]\n"@ + "index  "@ + padded_decimal(i, 2) + ": ["@ + gauge(
        used_units(b.index_malloc.used_blocks@),
        b.index_malloc.arena_size as nat,
    ) + "]\n\n"@
}

pub open spec fn buffer_fits(b: MeshVMalloc) -> bool {
    &&& gauge_fits(used_units(b.vertex_malloc.used_blocks@), b.vertex_malloc.arena_size as nat)
    &&& gauge_fits(used_units(b.index_malloc.used_blocks@), b.index_malloc.arena_size as nat)
}

/// The gauges of all the buffers, in order.
pub open spec fn buffers_text(bufs: Seq<MeshVMalloc>) -> Seq<char>
    decreases bufs.len(),
{
    if bufs.len() == 0 {
        Seq::empty()
    } else {
        buffers_text(bufs.drop_last()) + buffer_lines((bufs.len() - 1) as nat, bufs.last())
    }
}

/// A gauge bar showing `filled` steps of `BAR_SIZE`.
pub open spec fn bar_of(filled: nat) -> Seq<char> {
    Seq::new(BAR_SIZE as nat, |j: int| if j < filled { '#' } else { ' ' })
}

/// The lines of buffer `i` show, in their brackets, the vertex arena's use and
/// then the index arena's use, each as `#` per `arena_size / BAR_SIZE` units
/// used, padded with spaces to `BAR_SIZE` characters.
pub proof fn lemma_buffer_lines_gauges(i: nat, b: MeshVMalloc)
    requires
        buffer_fits(b),
    ensures
        ({
            let t = buffer_lines(i, b);
            let p = padded_decimal(i, 2).len();
            let v = p + 10;
            let x = v + BAR_SIZE + 2 + 7 + p + 3;
            let vm = b.vertex_malloc;
            let im = b.index_malloc;
            &&& t.len() == x + BAR_SIZE + 3
            &&& t.subrange(0, v as int) == "vertex "@ + padded_decimal(i, 2) + ": ["@
            &&& t.subrange(v as int, v + BAR_SIZE) == bar_of(
                used_units(vm.used_blocks@) / (vm.arena_size as nat / BAR_SIZE as nat),
            )
            &&& t.subrange(v + BAR_SIZE, x as int) == "]\n"@ + "index  "@ + padded_decimal(i, 2) + ": ["@
            &&& t.subrange(x as int, x + BAR_SIZE) == bar_of(
                used_units(im.used_blocks@) / (im.arena_size as nat / BAR_SIZE as nat),
            )
            &&& t.subrange(x + BAR_SIZE, t.len() as int) == "]\n\n"@
        }),
{
    reveal_strlit("vertex ");
    reveal_strlit(": [");
    reveal_strlit("]\n");
    reveal_strlit("index  ");
    reveal_strlit("]\n\n");
    let t = buffer_lines(i, b);
    let d = padded_decimal(i, 2);
    let p = d.len();
    let v = p + 10;
    let x = v + BAR_SIZE + 2 + 7 + p + 3;
    let vm = b.vertex_malloc;
    let im = b.index_malloc;
    let hv = used_units(vm.used_blocks@) / (vm.arena_size as nat / BAR_SIZE as nat);
    let hi = used_units(im.used_blocks@) / (im.arena_size as nat / BAR_SIZE as nat);
    let gv = gauge(used_units(vm.used_blocks@), vm.arena_size as nat);
    let gi = gauge(used_units(im.used_blocks@), im.arena_size as nat);
    assert(gv =~= bar_of(hv));
    assert(gi =~= bar_of(hi));
    let a = "vertex "@ + d + ": ["@;
    let c = "]\n"@ + "index  "@ + d + ": ["@;
    assert(t =~= a + gv + c + gi + "]\n\n"@);
    assert(a.len() == v);
    assert(c.len() == 12 + p);
    assert(t.subrange(0, v as int) =~= a);
    assert(t.subrange(v as int, v + BAR_SIZE) =~= gv);
    assert(t.subrange(v + BAR_SIZE, x as int) =~= c);
    assert(t.subrange(x as int, x + BAR_SIZE) =~= gi);
    assert(t.subrange(x + BAR_SIZE, t.len() as int) =~= "]\n\n"@);
}

/// The text of all the buffers holds the lines of buffer `i` right after those
/// of the buffers before it.
pub proof fn lemma_buffers_text_block(bufs: Seq<MeshVMalloc>, i: int)
    requires
        0 <= i < bufs.len(),
    ensures
        ({
            let o = buffers_text(bufs.take(i)).len();
            let l = buffer_lines(i as nat, bufs[i]);
            &&& o + l.len() <= buffers_text(bufs).len()
            &&& buffers_text(bufs).subrange(o as int, (o + l.len()) as int) == l
        }),
    decreases bufs.len(),
{
    let n = bufs.len() - 1;
    let b1 = bufs.drop_last();
    let l = buffer_lines(i as nat, bufs[i]);
    if i == n {
        assert(bufs.take(i) =~= b1);
        assert(buffers_text(bufs) == buffers_text(b1) + l);
        assert(buffers_text(bufs).subrange(buffers_text(b1).len() as int, buffers_text(bufs).len() as int) =~= l);
    } else {
        lemma_buffers_text_block(b1, i);
        assert(b1.take(i) =~= bufs.take(i));
        assert(b1[i] == bufs[i]);
        let o = buffers_text(bufs.take(i)).len();
        let last = buffer_lines(n as nat, bufs.last());
        assert(buffers_text(bufs) == buffers_text(b1) + last);
        assert(buffers_text(bufs).subrange(o as int, (o + l.len()) as int) =~= buffers_text(b1).subrange(o as int, (o + l.len()) as int));
    }
}

/// In the text of all the buffers (what `debug_text` returns), the vertex
/// gauge of buffer `i` shows its vertex arena's use and its index gauge its
/// index arena's use, at the places where its two lines put them.
pub proof fn lemma_buffers_text_gauges(bufs: Seq<MeshVMalloc>, i: int)
    requires
        0 <= i < bufs.len(),
        buffer_fits(bufs[i]),
    ensures
        ({
            let t = buffers_text(bufs);
            let o = buffers_text(bufs.take(i)).len();
            let p = padded_decimal(i as nat, 2).len();
            let v = o + p + 10;
            let x = v + BAR_SIZE + 2 + 7 + p + 3;
            let vm = bufs[i].vertex_malloc;
            let im = bufs[i].index_malloc;
            &&& x + BAR_SIZE <= t.len()
            &&& t.subrange(v as int, v + BAR_SIZE) == bar_of(
                used_units(vm.used_blocks@) / (vm.arena_size as nat / BAR_SIZE as nat),
            )
            &&& t.subrange(x as int, x + BAR_SIZE) == bar_of(
                used_units(im.used_blocks@) / (im.arena_size as nat / BAR_SIZE as nat),
            )
        }),
{
    lemma_buffers_text_block(bufs, i);
    lemma_buffer_lines_gauges(i as nat, bufs[i]);
    let t = buffers_text(bufs);
    let o = buffers_text(bufs.take(i)).len();
    let l = buffer_lines(i as nat, bufs[i]);
    let p = padded_decimal(i as nat, 2).len();
    let v = p + 10;
    let x = v + BAR_SIZE + 2 + 7 + p + 3;
    assert(t.subrange(o as int, (o + l.len()) as int) == l);
    assert(t.subrange((o + v) as int, o + v + BAR_SIZE) =~= l.subrange(v as int, v + BAR_SIZE));
    assert(t.subrange((o + x) as int, o + x + BAR_SIZE) =~= l.subrange(x as int, x + BAR_SIZE));
}

/// Appends the gauge of an arena; false where it cannot be drawn.
fn push_gauge(out: &mut Vec<char>, m: &VMallocFirstFit) -> (ok: bool)
    ensures
        ok <==> gauge_fits(used_units(m.used_blocks@), m.arena_size as nat),
        ok ==> final(out)@ == old(out)@ + gauge(used_units(m.used_blocks@), m.arena_size as nat),
        !ok ==> final(out)@ == old(out)@,
{
    let used = match checked_block_sizes(&m.used_blocks) {
        Some(u) => u,
        None => {
            return false;
        },
    };
    if m.arena_size < BAR_SIZE {
        return false;
    }
    let width_ratio = m.arena_size / BAR_SIZE;
    let filled = used / width_ratio;
    if filled > BAR_SIZE {
        return false;
    }
    let ghost start = out@;
    for j in 0..filled
        invariant
            out@ == start + Seq::new(j as nat, |k: int| '#'),
    {
        out.push('#');
        proof {
            assert(Seq::new((j + 1) as nat, |k: int| '#') =~= Seq::new(j as nat, |k: int| '#').push(
                '#',
            ));
        }
    }
    let ghost mid = out@;
    for j in 0..BAR_SIZE - filled
        invariant
            out@ == mid + Seq::new(j as nat, |k: int| ' '),
    {
        out.push(' ');
        proof {
            assert(Seq::new((j + 1) as nat, |k: int| ' ') =~= Seq::new(j as nat, |k: int| ' ').push(
                ' ',
            ));
        }
    }
    proof {
        assert(out@ =~= start + gauge(used_units(m.used_blocks@), m.arena_size as nat));
    }
    true
}

/// Appends the gauges of buffer `i`; false where they cannot be drawn.
fn push_buffer_lines(out: &mut Vec<char>, i: usize, b: &MeshVMalloc) -> (ok: bool)
    ensures
        ok <==> buffer_fits(*b),
        ok ==> final(out)@ == old(out)@ + buffer_lines(i as nat, *b),
{
    let ghost start = out@;
    push_str(out, "vertex ");
    push_padded(out, i, 2);
    push_str(out, ": [");
    if !push_gauge(out, &b.vertex_malloc) {
        return false;
    }
    push_str(out, "]\n");
    push_str(out, "index  ");
    push_padded(out, i, 2);
    push_str(out, ": [");
    if !push_gauge(out, &b.index_malloc) {
        return false;
    }
    push_str(out, "]\n\n");
    proof {
        assert(out@ =~= start + buffer_lines(i as nat, *b));
    }
    true
}

impl<const N: usize> MeshVMallocMultiBuffer<N> {
    /// A gauge of the vertices and one of the indices in use, per buffer;
    /// `None` where one of them cannot be drawn.
    pub fn debug_text(&self) -> (r: Option<String>)
        ensures
            r is Some <==> forall|i: int| 0 <= i < self.buffers().len() ==> #[trigger] buffer_fits(
                self.buffers()[i],
            ),
            r matches Some(t) ==> t@ == buffers_text(self.buffers()),
    {
        let mut debug_display: Vec<char> = Vec::new();
        let ghost bufs = self.buffers();
        for i in 0..self.virtual_buffers.len()
            invariant
                bufs == self.buffers(),
                bufs == self.virtual_buffers@,
                forall|j: int| 0 <= j < i ==> #[trigger] buffer_fits(bufs[j]),
                debug_display@ == buffers_text(bufs.take(i as int)),
        {
            proof {
                assert(bufs.take(i + 1).drop_last() =~= bufs.take(i as int));
            }
            if !push_buffer_lines(&mut debug_display, i, &self.virtual_buffers[i]) {
                return None;
            }
        }
        proof {
            assert(bufs.take(bufs.len() as int) =~= bufs);
        }
        Some(string_from_chars(&debug_display))
    }
}

} // verus!
