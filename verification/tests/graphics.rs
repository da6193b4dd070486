use xenotech::graphics::buffer::{
    next_power_of_two, GrowableBuffer, IndirectBuffer, IndirectProvider, INITIAL_BUFFER_BYTES,
};
use xenotech::graphics::handle::{Bucket, Indirect, Mesh};

#[derive(Clone, Copy, Debug, PartialEq)]
struct Entry(u32);

impl IndirectProvider for Entry {}

#[test]
fn powers_of_two() {
    assert_eq!(next_power_of_two(0), Some(1));
    assert_eq!(next_power_of_two(1), Some(1));
    assert_eq!(next_power_of_two(2), Some(2));
    assert_eq!(next_power_of_two(5), Some(8));
    assert_eq!(next_power_of_two(8), Some(8));
    assert_eq!(next_power_of_two(1025), Some(2048));
    assert_eq!(next_power_of_two(usize::MAX / 2 + 1), Some(usize::MAX / 2 + 1));
    assert_eq!(next_power_of_two(usize::MAX / 2 + 2), None);
    assert_eq!(next_power_of_two(usize::MAX), None);
    for n in 1..3000usize {
        assert_eq!(next_power_of_two(n), Some(n.next_power_of_two()));
    }
}

#[test]
fn a_buffer_grows_to_a_power_of_two_and_never_shrinks() {
    let mut buffer = GrowableBuffer::new();
    assert_eq!(buffer.size(), 250_000_000);
    assert_eq!(INITIAL_BUFFER_BYTES, 250_000_000);
    assert!(!buffer.grow_to_atleast(10));
    assert!(!buffer.grow_to_atleast(134_217_728));
    assert_eq!(buffer.size(), 250_000_000);
    // The room asked for is rounded up to a power of two first.
    assert!(buffer.grow_to_atleast(250_000_000));
    assert_eq!(buffer.size(), 268_435_456);
    assert!(buffer.grow_to_atleast(300_000_000));
    assert_eq!(buffer.size(), 536_870_912);
    assert!(!buffer.grow_to_atleast(536_870_912));
    assert!(!buffer.grow_to_atleast(usize::MAX));
    assert_eq!(buffer.size(), 536_870_912);
}

#[test]
fn handles_stay_valid_when_entries_move() {
    let mut buffer: IndirectBuffer<Entry> = IndirectBuffer::new(32);
    let a = buffer.add(Entry(10));
    let b = buffer.add(Entry(20));
    let c = buffer.add(Entry(30));
    assert_eq!((a, b, c), (Indirect(0), Indirect(1), Indirect(2)));
    assert_eq!(buffer.count(), 3);
    assert_eq!(buffer.data, vec![Entry(10), Entry(20), Entry(30)]);
    buffer.remove(a);
    assert_eq!(buffer.count(), 2);
    assert_eq!(buffer.data, vec![Entry(30), Entry(20)]);
    assert_eq!(buffer.get(b), Entry(20));
    assert_eq!(buffer.get(c), Entry(30));
    let d = buffer.add(Entry(40));
    assert_eq!(d, Indirect(3));
    buffer.remove(d);
    assert_eq!(buffer.data, vec![Entry(30), Entry(20)]);
    buffer.set(b, Entry(21));
    assert_eq!(buffer.get(b), Entry(21));
    assert_eq!(buffer.get(c), Entry(30));
    buffer.remove(c);
    assert_eq!(buffer.data, vec![Entry(21)]);
    assert_eq!(buffer.get(b), Entry(21));
    buffer.remove(b);
    assert_eq!(buffer.count(), 0);
}

#[test]
fn what_changed_is_noted_for_the_device() {
    let mut buffer: IndirectBuffer<Entry> = IndirectBuffer::new(16);
    assert!(!buffer.dirty);
    let a = buffer.add(Entry(1));
    let b = buffer.add(Entry(2));
    assert!(buffer.dirty);
    assert_eq!(buffer.uploads, vec![(0, Entry(1)), (1, Entry(2))]);
    buffer.remove(a);
    // The last entry moved to the first place.
    assert_eq!(buffer.uploads, vec![(0, Entry(1)), (1, Entry(2)), (0, Entry(2))]);
    buffer.set(b, Entry(5));
    assert_eq!(buffer.uploads.last(), Some(&(0, Entry(5))));
    buffer.remove(b);
    assert_eq!(buffer.uploads.len(), 4);
    assert_eq!(buffer.size(), 250_000_000);
}

#[test]
fn the_device_buffer_holds_as_many_entries_as_handles_were_given_out() {
    let mut buffer: IndirectBuffer<Entry> = IndirectBuffer::new(200_000_000);
    buffer.add(Entry(0));
    assert_eq!(buffer.size(), 268_435_456);
    buffer.add(Entry(1));
    assert_eq!(buffer.size(), 536_870_912);
    let mut small: IndirectBuffer<Entry> = IndirectBuffer::new(4);
    small.add(Entry(0));
    assert_eq!(small.size(), 250_000_000);
}

#[test]
fn a_mesh_lists_its_sections_and_entries() {
    let mesh = Mesh { vertices: vec![Bucket(1), Bucket(4)], indices: vec![Bucket(0)], indirect: vec![Indirect(9)] };
    assert_eq!(mesh.vertices, vec![Bucket(1), Bucket(4)]);
    assert_eq!(mesh.indices[0], Bucket(0));
    assert_eq!(mesh.indirect[0].0, 9);
}

use xenotech::graphics::atlas::{atlas_origin, Atlas};
use xenotech::graphics::pool::{DrawIndirectCommand, Pool};
use xenotech::graphics::staging::{StagingBuffer, Upload};
use xenotech::world::block::Block;
use xenotech::world::direction::Direction;

#[test]
fn the_atlas_numbers_the_faces_that_have_a_texture() {
    let atlas = Atlas::load();
    for d in Direction::all() {
        assert_eq!(atlas.block_mapping(Block::Air, d), None);
        assert_eq!(atlas.block_mapping(Block::Stone, d), Some(d.bit() as u32));
        assert_eq!(atlas.block_mapping(Block::Machine, d), Some(6 + d.bit() as u32));
        assert_eq!(atlas.block_mapping(Block::Wire, d), Some(12 + d.bit() as u32));
        assert_eq!(atlas.block_mapping(Block::Source, d), Some(18 + d.bit() as u32));
    }
    let table = atlas.table();
    assert_eq!(&table[..6], &[0; 6]);
    assert_eq!(&table[6..12], &[0, 1, 2, 3, 4, 5]);
    assert_eq!(table[29], 23);
    assert_eq!(atlas_origin(0), (0, 0));
    assert_eq!(atlas_origin(17), (16, 16));
    assert_eq!(atlas_origin(255), (240, 240));
}

#[test]
fn a_pool_cuts_items_into_sections() {
    let mut pool: Pool<u32> = Pool::new(4, 3);
    let items: Vec<u32> = (0..8).collect();
    let buckets = pool.section(&items);
    assert_eq!(buckets, vec![Bucket(0), Bucket(1), Bucket(2)]);
    assert_eq!(
        pool.uploads,
        vec![(0, vec![0, 1, 2]), (12, vec![3, 4, 5]), (24, vec![6, 7])]
    );
    assert_eq!(pool.count(), 3);
    assert_eq!(pool.counter, 3);
    assert_eq!(
        pool.cmd(Bucket(2)),
        DrawIndirectCommand { vertex_count: 2, instance_count: 1, first_vertex: 6, first_instance: 0 }
    );
    assert_eq!(
        pool.cmd(Bucket(0)),
        DrawIndirectCommand { vertex_count: 3, instance_count: 1, first_vertex: 0, first_instance: 0 }
    );
    assert_eq!(pool.section(&[]), Vec::<Bucket>::new());
    assert_eq!(pool.max_count_per_bucket(), 3);
    assert_eq!(pool.size(), 250_000_000);
}

#[test]
fn a_pool_uses_the_sections_that_were_given_back_first() {
    let mut pool: Pool<u8> = Pool::new(1, 2);
    let first = pool.section(&[1, 2, 3, 4, 5, 6]);
    assert_eq!(first, vec![Bucket(0), Bucket(1), Bucket(2)]);
    pool.unsection(Bucket(0));
    pool.unsection(Bucket(2));
    // The last one given back is taken first; then new ones.
    let second = pool.section(&[7, 8, 9, 10, 11]);
    assert_eq!(second, vec![Bucket(2), Bucket(0), Bucket(3)]);
    assert!(pool.free.is_empty());
    assert_eq!(pool.counter, 4);
    assert_eq!(pool.uploads[3], (4, vec![7, 8]));
    assert_eq!(pool.uploads[4], (0, vec![9, 10]));
    assert_eq!(pool.uploads[5], (6, vec![11]));
    assert_eq!(pool.cmd(Bucket(3)).vertex_count, 1);
    pool.unsection(Bucket(1));
    let third = pool.section(&[12]);
    assert_eq!(third, vec![Bucket(1)]);
    assert_eq!(pool.counter, 4);
}

#[test]
fn the_staging_ring_starts_over_at_its_end() {
    let mut staging = StagingBuffer::new();
    assert_eq!(staging.size, 1_000_000_000);
    assert_eq!(staging.staging_offset_block(100), 0);
    assert_eq!(staging.staging_offset_block(50), 100);
    assert_eq!(staging.offset, 150);
    assert_eq!(staging.staging_offset_block(999_999_849), 150);
    assert_eq!(staging.offset, 999_999_999);
    assert_eq!(staging.staging_offset_block(1), 0);
    assert_eq!(staging.offset, 0);
    assert_eq!(staging.staging_offset_block(usize::MAX), 0);
    assert_eq!(staging.staging_offset_block(1_000_000_000), 0);
    assert_eq!(staging.offset, 0);
}

#[test]
fn uploads_are_cleared_by_their_kind() {
    let mut staging = StagingBuffer::new();
    staging.upload_buffer(1, 0, vec![1]);
    staging.upload_image(9, (0, 0, 0), (16, 16, 1), vec![2]);
    staging.upload_buffer(2, 8, vec![3]);
    staging.clear_buffer_uploads();
    assert_eq!(
        staging.uploads,
        vec![Upload::Image { image: 9, dst: (0, 0, 0), size: (16, 16, 1), data: vec![2] }]
    );
    staging.upload_buffer(3, 4, vec![4]);
    staging.clear_image_uploads();
    assert_eq!(staging.uploads, vec![Upload::Buffer { buffer: 3, dst: 4, data: vec![4] }]);
}
