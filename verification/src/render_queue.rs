//! Which meshes of the world buffer are drawn this frame, and the indirect
//! draw calls that draw them. The GPU buffers themselves stay with the caller.
use vstd::prelude::*;
use std::collections::HashSet;
use rustc_hash::FxBuildHasher;
use crate::fx::{fx_set_u32_clear, fx_set_u32_extend, fx_set_u32_insert, fx_set_u32_new};
use crate::allocator::{GpuAllocator, entry_in};
use crate::entry::{AllocEntry, EntryId};

verus! {

/// One indirect draw call: a run of vertices of the world buffer.
#[derive(Debug, Clone, Copy, PartialEq, Eq, Structural)]
pub struct DrawArgs {
    pub vertex_count: u32,
    pub instance_count: u32,
    pub first_vertex: u32,
    pub first_instance: u32,
}

/// The draw call for entry `e` when a vertex takes `vertex_size` bytes.
pub open spec fn draw_args_of(e: AllocEntry, vertex_size: usize) -> DrawArgs {
    DrawArgs {
        vertex_count: (e.length / vertex_size) as u32,
        instance_count: 1,
        first_vertex: (e.position / vertex_size) as u32,
        first_instance: 0,
    }
}

/// The meshes queued for drawing and the draw calls last built for them.
pub struct RenderManager {
    pub indirect_commands: Vec<DrawArgs>,
    pub ids_to_render: HashSet<EntryId, FxBuildHasher>,
}

impl RenderManager {
    /// Nothing queued, no draw call.
    pub fn new() -> (r: Self)
        ensures
            r.indirect_commands@ == Seq::<DrawArgs>::empty(),
            r.ids_to_render@ == Set::<EntryId>::empty(),
    {
        Self { indirect_commands: Vec::with_capacity(64), ids_to_render: fx_set_u32_new() }
    }

    /// The ids of the entries of `alloc` that are queued, in buffer order.
    pub fn get_meshes_to_render(&self, alloc: &GpuAllocator) -> (r: Vec<EntryId>)
        ensures
            r@ == alloc.entries().filter(entry_in(self.ids_to_render@)).map_values(|e: AllocEntry| e.id),
    {
        let entries = alloc.iter_entries_by_intersection(&self.ids_to_render);
        let mut out: Vec<EntryId> = Vec::new();
        let mut i: usize = 0;
        while i < entries.len()
            invariant
                i <= entries@.len(),
                out@ == entries@.take(i as int).map_values(|e: AllocEntry| e.id),
            decreases entries@.len() - i,
        {
            out.push(entries[i].id);
            proof {
                assert(out@ =~= entries@.take(i + 1).map_values(|e: AllocEntry| e.id));
            }
            i = i + 1;
        }
        proof {
            assert(entries@.take(entries@.len() as int) =~= entries@);
        }
        out
    }

    /// Queues mesh `id`.
    pub fn mark_mesh_for_rendering(&mut self, id: EntryId)
        ensures
            final(self).ids_to_render@ == old(self).ids_to_render@.insert(id),
            final(self).indirect_commands@ == old(self).indirect_commands@,
    {
        fx_set_u32_insert(&mut self.ids_to_render, id);
    }

    /// Queues every mesh of `ids`.
    pub fn mark_meshes_for_rendering(&mut self, ids: &HashSet<EntryId, FxBuildHasher>)
        ensures
            final(self).ids_to_render@ == old(self).ids_to_render@.union(ids@),
            final(self).indirect_commands@ == old(self).indirect_commands@,
    {
        fx_set_u32_extend(&mut self.ids_to_render, ids);
    }

    /// Queues exactly the meshes of `ids`.
    pub fn replace_rendering_queue(&mut self, ids: HashSet<EntryId, FxBuildHasher>)
        ensures
            final(self).ids_to_render@ == ids@,
            final(self).indirect_commands@ == old(self).indirect_commands@,
    {
        self.ids_to_render = ids;
    }

    /// Queues nothing.
    pub fn clear_render_queue(&mut self)
        ensures
            final(self).ids_to_render@ == Set::<EntryId>::empty(),
            final(self).indirect_commands@ == old(self).indirect_commands@,
    {
        fx_set_u32_clear(&mut self.ids_to_render);
    }

    /// Rebuilds the draw calls: one per queued entry of `alloc`, in buffer
    /// order, counting vertices of `vertex_size` bytes; returns whether there
    /// is any, the caller then uploading them.
    pub fn update_indirect_buffer(&mut self, alloc: &GpuAllocator, vertex_size: usize) -> (r: bool)
        requires
            vertex_size > 0,
        ensures
            final(self).indirect_commands@ == alloc.entries().filter(entry_in(old(self).ids_to_render@)).map_values(
                |e: AllocEntry| draw_args_of(e, vertex_size),
            ),
            final(self).ids_to_render@ == old(self).ids_to_render@,
            r == (final(self).indirect_commands@.len() > 0),
    {
        self.indirect_commands.clear();
        let entries = alloc.iter_entries_by_intersection(&self.ids_to_render);
        let mut i: usize = 0;
        while i < entries.len()
            invariant
                vertex_size > 0,
                i <= entries@.len(),
                self.ids_to_render@ == old(self).ids_to_render@,
                self.indirect_commands@ == entries@.take(i as int).map_values(
                    |e: AllocEntry| draw_args_of(e, vertex_size),
                ),
            decreases entries@.len() - i,
        {
            let entry = entries[i];
            self.indirect_commands.push(
                DrawArgs {
                    vertex_count: (entry.length / vertex_size) as u32,
                    instance_count: 1,
                    first_vertex: (entry.position / vertex_size) as u32,
                    first_instance: 0,
                },
            );
            proof {
                assert(self.indirect_commands@ =~= entries@.take(i + 1).map_values(
                    |e: AllocEntry| draw_args_of(e, vertex_size),
                ));
            }
            i = i + 1;
        }
        proof {
            assert(entries@.take(entries@.len() as int) =~= entries@);
        }
        self.indirect_commands.len() > 0
    }
}

} // verus!
