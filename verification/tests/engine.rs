use rustc_hash::FxHashSet;

use ascendustry::allocator::{
    clamp_buffer_capacity, AllocError, GpuAllocator, GpuCommand, BUFFER_BASE_SIZE, BUFFER_MAX_CAPACITY, BUFFER_MIN_CAPACITY,
};
use ascendustry::entry::{AllocEntry, WriteOperation};
use ascendustry::gap::{Gap, GapManager};
use ascendustry::id_pool::IdPool;
use ascendustry::render_queue::{DrawArgs, RenderManager};
use ascendustry::report::{allocator_report, footprint_bytes, memory_row, size_units};

/// The capacity the renderer grows the buffer to when `len` more bytes do not
/// fit: a quarter more than the bytes in use with them, within the buffer sizes.
fn grown(alloc: &GpuAllocator, len: usize) -> u32 {
    let needed = alloc.get_entries_length() + len;
    clamp_buffer_capacity((needed as f32 * 1.25) as u32)
}

fn add(alloc: &mut GpuAllocator, data: &[u8]) -> Result<u32, AllocError> {
    let g = grown(alloc, data.len());
    alloc.add(data, g)
}

/// The buffer contents after carrying out `commands` on a buffer of `capacity` zeros.
fn replay(capacity: usize, commands: Vec<GpuCommand>) -> Vec<u8> {
    let mut image = vec![0u8; capacity];
    for c in commands {
        match c {
            GpuCommand::Write { offset, bytes } => image[offset..offset + bytes.len()].copy_from_slice(&bytes),
            GpuCommand::Reallocate { capacity, copies } => {
                let mut next = vec![0u8; capacity as usize];
                for copy in copies {
                    next[copy.dst_offset..copy.dst_offset + copy.len]
                        .copy_from_slice(&image[copy.src_offset..copy.src_offset + copy.len]);
                }
                image = next;
            }
        }
    }
    image
}

#[test]
fn allocator() {
    let mut alloc = GpuAllocator::new();

    // ADD

    assert_eq!(add(&mut alloc, &[0, 2, 4, 8]), Ok(0));
    assert_eq!(add(&mut alloc, &[3, 6, 9, 12]), Ok(1));

    // FREE

    assert_eq!(alloc.free(0), Ok(()));

    // IN-GAP ADD

    assert_eq!(add(&mut alloc, &[0, 2, 4, 8]), Ok(0));
    assert_eq!(
        alloc.get_entry(0).ok(),
        Some(&AllocEntry {
            id: 0,
            position: 0,
            length: 4
        })
    );

    // DEFRAG

    assert_eq!(alloc.free(0), Ok(()));
    alloc.reallocate_defragment(clamp_buffer_capacity((4 as f32 * 1.25) as u32));
    assert_eq!(
        alloc.data,
        vec![AllocEntry {
            id: 1,
            position: 0,
            length: 4
        }]
    );
}

#[test]
fn allocator_starts_without_gaps_and_grows_on_first_add() {
    let mut alloc = GpuAllocator::new();
    assert_eq!(alloc.capacity(), BUFFER_BASE_SIZE);
    assert!(alloc.gaps().is_empty());
    assert_eq!(alloc.get_entries_length(), 0);
    assert_eq!(add(&mut alloc, &[1, 2, 3]), Ok(0));
    assert_eq!(alloc.capacity(), BUFFER_MIN_CAPACITY);
    assert_eq!(alloc.gaps(), &vec![Gap::new(3, BUFFER_MIN_CAPACITY as usize - 3)]);
}

#[test]
fn allocator_free_unknown_id_is_invalid() {
    let mut alloc = GpuAllocator::new();
    assert_eq!(alloc.free(7), Err(AllocError::InvalidId));
    assert_eq!(alloc.get_entry(7).err(), Some(AllocError::InvalidId));
    assert_eq!(alloc.update(7, &[1, 2], BUFFER_BASE_SIZE), Err(AllocError::InvalidId));
}

#[test]
fn allocator_free_merges_with_the_gap_before() {
    let mut alloc = GpuAllocator::new();
    assert_eq!(add(&mut alloc, &[1, 2, 3]), Ok(0));
    assert_eq!(add(&mut alloc, &[4, 5]), Ok(1));
    assert_eq!(alloc.free(0), Ok(()));
    assert_eq!(alloc.gaps(), &vec![Gap::new(0, 3), Gap::new(5, BUFFER_MIN_CAPACITY as usize - 5)]);
    // The freed region joins the gap before it; the merge with the gap after
    // it looks one place too far once the first merge removed a gap.
    assert_eq!(alloc.free(1), Ok(()));
    assert_eq!(alloc.gaps(), &vec![Gap::new(0, 5), Gap::new(5, BUFFER_MIN_CAPACITY as usize - 5)]);
    assert!(alloc.data.is_empty());
}

#[test]
fn allocator_flush_writes_the_staged_bytes() {
    let mut alloc = GpuAllocator::new();
    assert_eq!(add(&mut alloc, &[1, 2, 3]), Ok(0));
    assert_eq!(add(&mut alloc, &[4, 5]), Ok(1));
    alloc.flush();
    let commands = alloc.take_gpu_commands();
    let image = replay(BUFFER_BASE_SIZE as usize, commands);
    assert_eq!(image.len(), BUFFER_MIN_CAPACITY as usize);
    assert_eq!(&image[..6], &[1, 2, 3, 4, 5, 0]);
    assert!(alloc.take_gpu_commands().is_empty());
}

#[test]
fn allocator_update_in_place_keeps_position() {
    let mut alloc = GpuAllocator::new();
    assert_eq!(add(&mut alloc, &[1, 2, 3]), Ok(0));
    assert_eq!(add(&mut alloc, &[4, 5]), Ok(1));
    assert_eq!(alloc.update(0, &[9, 9], BUFFER_BASE_SIZE), Ok(()));
    let e = alloc.get_entry(0).unwrap();
    assert_eq!(e.position, 0);
    assert_eq!(e.length, 2);
    assert_eq!(alloc.get_entries_length(), 4);
}

#[test]
fn allocator_grows_when_nothing_fits() {
    let mut alloc = GpuAllocator::new();
    let big = vec![7u8; 200_000];
    assert_eq!(add(&mut alloc, &big), Ok(0));
    assert_eq!(alloc.capacity(), BUFFER_MIN_CAPACITY);
    let more = vec![9u8; 100_000];
    let expected = grown(&alloc, more.len());
    assert_eq!(expected, 375_000);
    assert_eq!(add(&mut alloc, &more), Ok(1));
    assert_eq!(alloc.capacity(), expected);
    let e = alloc.get_entry(1).unwrap();
    assert_eq!(e.position, 200_000);
    alloc.flush();
    let commands = alloc.take_gpu_commands();
    assert!(commands.iter().any(|c| matches!(c, GpuCommand::Reallocate { capacity, .. } if *capacity == expected)));
    let image = replay(BUFFER_BASE_SIZE as usize, commands);
    assert_eq!(image.len(), 375_000);
    assert_eq!(image[199_999], 7);
    assert_eq!(image[200_000], 9);
    assert_eq!(image[299_999], 9);
    assert_eq!(image[300_000], 0);
}

#[test]
fn allocator_entries_by_intersection_keep_buffer_order() {
    let mut alloc = GpuAllocator::new();
    assert_eq!(add(&mut alloc, &[1]), Ok(0));
    assert_eq!(add(&mut alloc, &[2, 2]), Ok(1));
    assert_eq!(add(&mut alloc, &[3, 3, 3]), Ok(2));
    let ids: FxHashSet<u32> = [2u32, 0u32].into_iter().collect();
    let found = alloc.iter_entries_by_intersection(&ids);
    assert_eq!(found.iter().map(|e| e.id).collect::<Vec<_>>(), vec![0, 2]);
    let counts = alloc.memory_counts();
    assert_eq!(counts.entries_len, 3);
    assert_eq!(counts.data_bytes, 6);
    assert!(counts.entries_capacity >= 3);
    assert_eq!(counts.gpu_capacity, BUFFER_MIN_CAPACITY);
}

#[test]
fn buffer_capacity_is_clamped() {
    assert_eq!(clamp_buffer_capacity(5), BUFFER_MIN_CAPACITY);
    assert_eq!(clamp_buffer_capacity(1_000_000), 1_000_000);
    assert_eq!(clamp_buffer_capacity(u32::MAX), BUFFER_MAX_CAPACITY);
}

#[test]
fn gap_edges_and_resizing() {
    let mut g = Gap::new(10, 5);
    assert_eq!(g.start(), 10);
    assert_eq!(g.end(), 15);
    g.shrink_left(2);
    assert_eq!((g.start(), g.end()), (12, 15));
    g.extend_left(4);
    assert_eq!((g.start(), g.end()), (8, 15));
    g.extend_right(5);
    assert_eq!((g.start(), g.end()), (8, 20));
}

#[test]
fn gap_manager_finds_first_fitting_gap_and_merges() {
    let mut m = GapManager::new();
    m.insert_gap_at(Gap::new(0, 4), 0);
    m.insert_gap_at(Gap::new(10, 8), 10);
    assert_eq!(m.find_place(6), Some(1));
    assert_eq!(m.find_place(3), Some(0));
    assert_eq!(m.find_place(9), None);
    assert_eq!(m.get_gap_index_at(10), Ok(1));
    assert_eq!(m.get_gap_index_at(5), Err(1));
    let at = m.consume_gap(1, 8);
    assert_eq!(at, 10);
    assert_eq!(m.gaps(), &vec![Gap::new(0, 4)]);
    m.release_after(4, 6);
    assert_eq!(m.gaps(), &vec![Gap::new(0, 10)]);
}

#[test]
fn id_pool_reuses_last_freed_first() {
    let mut pool = IdPool::new();
    assert_eq!(pool.get_new_id(), 0);
    assert_eq!(pool.get_new_id(), 1);
    assert_eq!(pool.get_new_id(), 2);
    pool.free_id(0);
    pool.free_id(2);
    assert_eq!(pool.free_ids_len(), 2);
    assert!(pool.capacity() >= 2);
    assert_eq!(pool.get_new_id(), 2);
    assert_eq!(pool.get_new_id(), 0);
    assert_eq!(pool.get_new_id(), 3);
}

#[test]
fn write_operation_and_entry_keep_their_fields() {
    let op = WriteOperation::new(3, 4, 5, 6);
    assert_eq!((op.id, op.len, op.buffer_offset, op.arena_offset), (3, 4, 5, 6));
    let e = AllocEntry::new(1, 2, 3);
    assert_eq!((e.id, e.position, e.length), (1, 2, 3));
}

#[test]
fn render_queue_builds_draws_for_queued_entries_in_order() {
    let mut alloc = GpuAllocator::new();
    assert_eq!(add(&mut alloc, &[0; 24]), Ok(0));
    assert_eq!(add(&mut alloc, &[0; 48]), Ok(1));
    assert_eq!(add(&mut alloc, &[0; 12]), Ok(2));
    let mut rm = RenderManager::new();
    assert!(!rm.update_indirect_buffer(&alloc, 12));
    rm.mark_mesh_for_rendering(2);
    let more: FxHashSet<u32> = [1u32].into_iter().collect();
    rm.mark_meshes_for_rendering(&more);
    assert_eq!(rm.get_meshes_to_render(&alloc), vec![1, 2]);
    assert!(rm.update_indirect_buffer(&alloc, 12));
    assert_eq!(
        rm.indirect_commands,
        vec![
            DrawArgs { vertex_count: 4, instance_count: 1, first_vertex: 2, first_instance: 0 },
            DrawArgs { vertex_count: 1, instance_count: 1, first_vertex: 6, first_instance: 0 },
        ]
    );
    rm.replace_rendering_queue([0u32].into_iter().collect());
    assert_eq!(rm.get_meshes_to_render(&alloc), vec![0]);
    rm.clear_render_queue();
    assert!(rm.get_meshes_to_render(&alloc).is_empty());
}

#[test]
fn memory_report_lines() {
    assert_eq!(size_units(3 * 1024 * 1024 + 5), (3, 3072, 3 * 1024 * 1024 + 5));
    assert_eq!(footprint_bytes(&[(10, 4), (3, 16), (0, 100)]), 88);
    assert_eq!(memory_row("x ", (1, 22, 333)), "x   1Mb |     22Kb |       333b");
    let lines = allocator_report(2, 2048, 4096, 1024 * 1024, 4 * 1024 * 1024);
    assert_eq!(
        lines,
        vec![
            "Mesh count: 2".to_string(),
            format!("Allocated Memory (CPU) {:3}Mb | {:6}Kb | {:9}b", 0, 4, 4096),
            format!("└─ Free                {:3}Mb | {:6}Kb | {:9}b", 0, 2, 2048),
            format!("└─ Used                {:3}Mb | {:6}Kb | {:9}b", 0, 2, 2048),
            format!("Allocated Memory (GPU) {:3}Mb | {:6}Kb | {:9}b", 4, 4096, 4194304),
            format!("└─ Free                {:3}Mb | {:6}Kb | {:9}b", 3, 3072, 3145728),
            format!("└─ Used                {:3}Mb | {:6}Kb | {:9}b", 1, 1024, 1048576),
        ]
    );
}

#[test]
fn allocator_moves_and_frees_leave_other_entries_intact() {
    let mut alloc = GpuAllocator::new();
    assert_eq!(add(&mut alloc, &[1, 2, 3]), Ok(0));
    assert_eq!(add(&mut alloc, &[4, 5]), Ok(1));
    assert_eq!(add(&mut alloc, &[6]), Ok(2));
    // Entry 0 grows with no gap after it: it moves.
    let g = grown(&alloc, 5);
    assert_eq!(alloc.update(0, &[7, 7, 7, 7, 7], g), Ok(()));
    assert_eq!(alloc.free(1), Ok(()));
    alloc.flush();
    let image = replay(BUFFER_BASE_SIZE as usize, alloc.take_gpu_commands());
    let a = *alloc.get_entry(0).unwrap();
    let c = *alloc.get_entry(2).unwrap();
    assert_eq!(&image[a.position..a.position + a.length], &[7, 7, 7, 7, 7]);
    assert_eq!(&image[c.position..c.position + c.length], &[6]);
    assert_eq!(alloc.get_entry(1).err(), Some(AllocError::InvalidId));
}

#[test]
fn allocator_shrinking_update_frees_the_tail_into_the_next_gap() {
    let mut alloc = GpuAllocator::new();
    assert_eq!(add(&mut alloc, &[1, 2, 3, 4]), Ok(0));
    let cap = alloc.capacity() as usize;
    assert_eq!(alloc.gaps(), &vec![Gap::new(4, cap - 4)]);
    assert_eq!(alloc.update(0, &[9, 9], BUFFER_BASE_SIZE), Ok(()));
    assert_eq!(alloc.get_entry(0).unwrap().position, 0);
    assert_eq!(alloc.gaps(), &vec![Gap::new(2, cap - 2)]);
    // The freed tail starts the first gap that fits.
    assert_eq!(add(&mut alloc, &[5, 5]), Ok(1));
    assert_eq!(alloc.get_entry(1).unwrap().position, 2);
}

#[test]
fn allocator_refuses_when_the_buffer_cannot_grow_enough() {
    let mut alloc = GpuAllocator::new();
    assert_eq!(alloc.add(&[1, 2, 3, 4], 2), Err(AllocError::NotEnoughSpace));
    assert!(alloc.data.is_empty());
    assert_eq!(alloc.capacity(), BUFFER_BASE_SIZE);
    assert_eq!(alloc.add(&[1, 2, 3, 4], 8), Ok(0));
    assert_eq!(add(&mut alloc, &[5, 6]), Ok(1));
    // Entry 0 must move and no gap takes 10 bytes within a buffer of 8.
    let cap = alloc.capacity();
    assert_eq!(alloc.update(0, &[7; 10], cap), Err(AllocError::NotEnoughSpace));
    assert_eq!(alloc.get_entry(0).err(), Some(AllocError::InvalidId));
    assert_eq!(alloc.get_entry(1).unwrap().length, 2);
}

#[test]
fn allocator_moving_update_takes_the_first_fitting_gap_before_growing() {
    let mut alloc = GpuAllocator::new();
    assert_eq!(alloc.add(&[1, 2, 3, 4], 100), Ok(0));
    assert_eq!(alloc.add(&[5, 6, 7, 8], 100), Ok(1));
    assert_eq!(alloc.update(0, &[9; 6], 100), Ok(()));
    assert_eq!(alloc.capacity(), 100);
    assert_eq!(alloc.get_entry(0).unwrap().position, 8);
    assert_eq!(alloc.gaps(), &vec![Gap::new(0, 4), Gap::new(14, 86)]);
}
