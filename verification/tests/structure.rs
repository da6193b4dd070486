use xenotech::world::block::Block;
use xenotech::world::direction::Direction;
use xenotech::world::position::{floor_div, floor_mod, toward_zero_div, ChunkPosition, LocalPosition};
use xenotech::world::structure::{
    chunk_axis, chunk_lod, chunk_size, delinearize, linearize, CHUNK_AXIS, CHUNK_SIZE, MAX_LOD,
};

#[test]
fn chunk_lod_is_a_power_of_two() {
    assert_eq!(chunk_lod(0), 1);
    assert_eq!(chunk_lod(1), 2);
    assert_eq!(chunk_lod(3), 8);
    assert_eq!(chunk_lod(5), 32);
    assert_eq!(chunk_lod(6), 64);
}

#[test]
fn chunk_axis_halves_with_every_level() {
    assert_eq!(chunk_axis(0), LocalPosition::new(32, 32, 32));
    assert_eq!(chunk_axis(1), LocalPosition::new(16, 16, 16));
    assert_eq!(chunk_axis(2), LocalPosition::new(8, 8, 8));
    assert_eq!(chunk_axis(5), LocalPosition::new(1, 1, 1));
    assert_eq!(chunk_axis(6), LocalPosition::new(0, 0, 0));
}

#[test]
fn chunk_size_is_the_cube_of_the_axis() {
    assert_eq!(chunk_size(0), 32768);
    assert_eq!(chunk_size(1), 4096);
    assert_eq!(chunk_size(2), 512);
    assert_eq!(chunk_size(3), 64);
    assert_eq!(chunk_size(4), 8);
    assert_eq!(chunk_size(5), 1);
    assert_eq!(chunk_size(6), 0);
    assert_eq!(CHUNK_SIZE, CHUNK_AXIS * CHUNK_AXIS * CHUNK_AXIS);
    assert_eq!(MAX_LOD, 5);
}

#[test]
fn linearize_runs_x_fastest() {
    let axis = LocalPosition::new(32, 32, 32);
    assert_eq!(linearize(axis, LocalPosition::new(0, 0, 0)), 0);
    assert_eq!(linearize(axis, LocalPosition::new(1, 0, 0)), 1);
    assert_eq!(linearize(axis, LocalPosition::new(0, 1, 0)), 32);
    assert_eq!(linearize(axis, LocalPosition::new(0, 0, 1)), 1024);
    assert_eq!(linearize(axis, LocalPosition::new(1, 2, 3)), 3137);
    assert_eq!(linearize(axis, LocalPosition::new(31, 31, 31)), 32767);
}

#[test]
fn delinearize_names_the_cell() {
    let axis = LocalPosition::new(32, 32, 32);
    assert_eq!(delinearize(axis, 3137), LocalPosition::new(1, 2, 3));
    assert_eq!(delinearize(axis, 32767), LocalPosition::new(31, 31, 31));
    let three = LocalPosition::new(3, 3, 3);
    assert_eq!(delinearize(three, 13), LocalPosition::new(1, 1, 1));
    assert_eq!(delinearize(three, 26), LocalPosition::new(2, 2, 2));
    assert_eq!(delinearize(three, 5), LocalPosition::new(2, 1, 0));
}

#[test]
fn delinearize_undoes_linearize_at_every_level() {
    for lod in 0..=MAX_LOD {
        let axis = chunk_axis(lod);
        for z in 0..axis.z {
            for y in 0..axis.y {
                for x in 0..axis.x {
                    let p = LocalPosition::new(x, y, z);
                    assert_eq!(delinearize(axis, linearize(axis, p)), p);
                }
            }
        }
    }
}

#[test]
fn linearize_undoes_delinearize_in_a_box_with_unequal_edges() {
    let axis = LocalPosition::new(3, 5, 7);
    for i in 0..105usize {
        let p = delinearize(axis, i);
        assert!(p.x < 3 && p.y < 5 && p.z < 7);
        assert_eq!(linearize(axis, p), i);
    }
}

#[test]
fn opposite_flips_along_the_axis() {
    assert_eq!(Direction::Left.opposite(), Direction::Right);
    assert_eq!(Direction::Right.opposite(), Direction::Left);
    assert_eq!(Direction::Forward.opposite(), Direction::Back);
    assert_eq!(Direction::Back.opposite(), Direction::Forward);
    assert_eq!(Direction::Up.opposite(), Direction::Down);
    assert_eq!(Direction::Down.opposite(), Direction::Up);
    for d in Direction::all() {
        assert_eq!(d.opposite().opposite(), d);
        assert_eq!(d.opposite().axis_index(), d.axis_index());
        assert_ne!(d.opposite().is_positive(), d.is_positive());
    }
}

#[test]
fn directions_are_numbered_in_order() {
    let all = Direction::all();
    for i in 0..6usize {
        assert_eq!(all[i].bit() as usize, i);
        assert_eq!(Direction::from_index(i), Some(all[i]));
        assert_eq!(all[i].axis_index(), i / 2);
        assert_eq!(all[i].is_positive(), i % 2 == 1);
    }
    assert_eq!(Direction::from_index(6), None);
}

#[test]
fn only_air_is_not_opaque() {
    assert!(!Block::Air.is_opaque());
    assert!(Block::Stone.is_opaque());
    assert!(Block::Machine.is_opaque());
    assert!(Block::Wire.is_opaque());
    assert!(Block::Source.is_opaque());
}

#[test]
fn texture_names_follow_the_block_and_the_face() {
    assert_eq!(Block::Air.texture_name(Direction::Left), None);
    assert_eq!(Block::Stone.texture_name(Direction::Up), Some("stone".to_string()));
    assert_eq!(Block::Machine.texture_name(Direction::Forward), Some("machine_front".to_string()));
    assert_eq!(Block::Machine.texture_name(Direction::Back), Some("machine_side".to_string()));
    assert_eq!(Block::Machine.texture_name(Direction::Down), Some("machine_side".to_string()));
    assert_eq!(Block::Wire.texture_name(Direction::Right), Some("wire".to_string()));
    assert_eq!(Block::Source.texture_name(Direction::Left), Some("source".to_string()));
}

#[test]
fn only_stone_has_extra_texture_layers() {
    for b in [Block::Air, Block::Machine, Block::Wire, Block::Source] {
        assert!(!b.parallax());
        assert!(!b.normal());
    }
    assert!(Block::Stone.parallax());
    assert!(Block::Stone.normal());
}

#[test]
fn block_ids_round_trip() {
    let all = [Block::Air, Block::Stone, Block::Machine, Block::Wire, Block::Source];
    for (i, b) in all.iter().enumerate() {
        assert_eq!(b.to_id() as usize, i);
        assert_eq!(Block::from_id(i as u16), Some(*b));
    }
    assert_eq!(Block::from_id(5), None);
    assert_eq!(Block::from_id(65535), None);
    assert_eq!(Block::default(), Block::Air);
}

#[test]
fn tiles_belong_to_machines_wires_and_sources() {
    assert!(!Block::Air.has_tile());
    assert!(!Block::Stone.has_tile());
    assert!(Block::Machine.has_tile());
    assert!(Block::Wire.has_tile());
    assert!(Block::Source.has_tile());
}

#[test]
fn floor_division_rounds_down() {
    assert_eq!(floor_div(31, 32), 0);
    assert_eq!(floor_div(32, 32), 1);
    assert_eq!(floor_div(-1, 32), -1);
    assert_eq!(floor_div(-32, 32), -1);
    assert_eq!(floor_div(-33, 32), -2);
    assert_eq!(floor_mod(-1, 32), 31);
    assert_eq!(floor_mod(-32, 32), 0);
    assert_eq!(floor_mod(33, 32), 1);
    assert_eq!(toward_zero_div(-1, 2), 0);
    assert_eq!(toward_zero_div(-3, 2), -1);
    assert_eq!(toward_zero_div(7, 2), 3);
    assert_eq!(floor_div(isize::MIN, 1), isize::MIN);
    assert_eq!(toward_zero_div(isize::MIN, 1), isize::MIN);
}

#[test]
fn offset_stops_at_the_end_of_the_range() {
    let p = ChunkPosition::new(isize::MAX, 0, isize::MIN);
    assert_eq!(p.offset(1, 0, 0), None);
    assert_eq!(p.offset(0, 0, -1), None);
    assert_eq!(p.offset(-1, 2, 1), Some(ChunkPosition::new(isize::MAX - 1, 2, isize::MIN + 1)));
}
