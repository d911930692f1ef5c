use lib_tower_defense::entity_system::{add, remove, EntityFactory};
use lib_tower_defense::map::{
    Axis, Bound, CellLayer, MapCell, MapError, WorldMap, MAX_LAYERS_PER_CELL, MAX_MAP_HEIGHT,
    MAX_MAP_WIDTH,
};

fn cell_of(layers: Vec<CellLayer>) -> MapCell {
    MapCell { layers }
}

fn empty_cell() -> MapCell {
    MapCell { layers: Vec::new() }
}

#[test]
fn create64x128() {
    let the_map = WorldMap::create(64, 128).unwrap();
    assert_eq!(the_map.get_cell(0, 0).unwrap().layers.len(), 0); // when freshly created, each/any layers are empty
}

#[test]
fn can_update_layer() {
    let mut the_map = WorldMap::create(64, 128).unwrap();
    let pos_x = 0;
    let pos_y = 0;
    let layer_id = 0;
    let new_entity_id = 5u16;
    let mut cell = the_map.get_cell(pos_x, pos_y).unwrap();
    let _the_result = cell.set(layer_id, new_entity_id).unwrap();
    the_map.set(pos_x, pos_y, cell).unwrap();
    assert_eq!(
        the_map.get_cell(pos_x, pos_y).unwrap().layers[layer_id as usize].entity,
        new_entity_id
    );
}

#[test]
fn test_set_map_row() {
    let mut the_map = WorldMap::create(16, 32).unwrap();
    let map_y = 8;
    let x_offset = 4;
    let row_slice = the_map.get_cell_row(x_offset, map_y, 8).unwrap();
    the_map
        .set_row(map_y as u16, x_offset as u8, row_slice)
        .unwrap();
}

#[test]
fn test_view_for_rendering() {
    let map_width = 16;
    let map_height = 32;
    let the_map = WorldMap::create(map_width, map_height).unwrap();
    let view_x = 2;
    let view_y = 2;
    let view_width = 4;
    let view_height = 8;
    let view = the_map
        .build_view(view_x, view_y, view_width, view_height)
        .unwrap();
    assert_ne!(0, view.len());
    for h in 0..view_height as u16 {
        let mut line = String::new();
        for w in 0..view_width as u16 {
            let i = ((h * view_width as u16) + w) as usize;
            line.push_str(&format!(
                "{}",
                match view[i] {
                    Some(v) => v,
                    None => 0,
                }
            ));
        }
        println!("{}", line);
    }
}

#[test]
fn test_serialize_deserialize() {
    let mut the_map = WorldMap::create(64, 128).unwrap();
    let pos_x = 3;
    let pos_y = 5;
    let layer_id = 0;
    let new_val = 666;
    let mut cell = the_map.get_cell(pos_x, pos_y).unwrap();
    let _the_result = cell.set(layer_id, new_val).unwrap();
    the_map.set(pos_x, pos_y, cell).unwrap();

    // serialize to buffer
    let my_map_serialized = the_map.serialize_for_save().unwrap();

    // deserialize the buffer that was just serialized
    let my_map_deserialized = WorldMap::deserialize_for_load(&my_map_serialized).unwrap();

    // should be about to just do struct equate
    assert_eq!(the_map, my_map_deserialized);

    // but just in case, we'll also check that the value we set is valid...
    assert_eq!(
        my_map_deserialized.get_cell(pos_x, pos_y).unwrap().layers[layer_id as usize].entity,
        new_val
    );
}

#[test]
fn create_gives_the_size_asked_for_and_empty_cells() {
    for (w, h) in [(1u16, 1u16), (3, 2), (16, 32), (MAX_MAP_WIDTH, 1), (1, MAX_MAP_HEIGHT)] {
        let map = WorldMap::create(w, h).unwrap();
        assert_eq!(map.get_width(), w);
        assert_eq!(map.get_height(), h);
        assert_eq!(map.get_upper_left(), (0, 0));
        for (x, y) in [(0, 0), (w - 1, 0), (0, h - 1), (w - 1, h - 1)] {
            assert_eq!(map.get_cell(x, y).unwrap(), empty_cell());
        }
    }
}

#[test]
fn create_largest_map() {
    let map = WorldMap::create(MAX_MAP_WIDTH, MAX_MAP_HEIGHT).unwrap();
    assert_eq!((map.get_width(), map.get_height()), (1024, 1024));
    assert_eq!(map.get_cell(1023, 1023).unwrap().layers.len(), 0);
}

#[test]
fn create_map_without_cells() {
    let map = WorldMap::create(0, 0).unwrap();
    assert_eq!((map.get_width(), map.get_height()), (0, 0));
    assert_eq!(map.get_cell(0, 0), Err(MapError::Bounds(Bound::MapX)));
    assert_eq!(map.build_view(0, 0, 0, 0), Ok(Vec::new()));
}

#[test]
fn create_refuses_too_wide_and_too_tall() {
    assert_eq!(WorldMap::create(1025, 10), Err(MapError::Dimension(Axis::Width)));
    assert_eq!(WorldMap::create(10, 1025), Err(MapError::Dimension(Axis::Height)));
    assert_eq!(WorldMap::create(1025, 1025), Err(MapError::Dimension(Axis::Width)));
    assert_eq!(WorldMap::create(u16::MAX, 1), Err(MapError::Dimension(Axis::Width)));
}

#[test]
fn set_then_get_cell_gives_the_cell_back() {
    let mut map = WorldMap::create(5, 4).unwrap();
    let cell = cell_of(vec![CellLayer::new(3, 77), CellLayer::new(1, 9)]);
    for y in 0..4u16 {
        for x in 0..5u16 {
            map.set(x, y, cell.clone()).unwrap();
            assert_eq!(map.get_cell(x, y).unwrap(), cell);
        }
    }
}

#[test]
fn set_leaves_other_cells_alone() {
    let mut map = WorldMap::create(3, 3).unwrap();
    map.set(1, 1, cell_of(vec![CellLayer::new(0, 1)])).unwrap();
    map.set(2, 1, cell_of(vec![CellLayer::new(0, 2)])).unwrap();
    assert_eq!(map.get_cell(1, 1).unwrap(), cell_of(vec![CellLayer::new(0, 1)]));
    assert_eq!(map.get_cell(2, 1).unwrap(), cell_of(vec![CellLayer::new(0, 2)]));
    assert_eq!(map.get_cell(0, 1).unwrap(), empty_cell());
    assert_eq!(map.get_cell(1, 0).unwrap(), empty_cell());
    assert_eq!(map.get_cell(1, 2).unwrap(), empty_cell());
}

#[test]
fn get_cell_out_of_bounds() {
    let map = WorldMap::create(16, 32).unwrap();
    assert_eq!(map.get_cell(16, 0), Err(MapError::Bounds(Bound::MapX)));
    assert_eq!(map.get_cell(17, 0), Err(MapError::Bounds(Bound::MapX)));
    assert_eq!(map.get_cell(0, 32), Err(MapError::Bounds(Bound::MapY)));
    assert_eq!(map.get_cell(16, 32), Err(MapError::Bounds(Bound::MapX)));
    assert_eq!(map.get_cell(u16::MAX, u16::MAX), Err(MapError::Bounds(Bound::MapX)));
    assert!(map.get_cell(15, 31).is_ok());
}

#[test]
fn set_out_of_bounds_leaves_the_grid_unchanged() {
    let mut map = WorldMap::create(16, 32).unwrap();
    map.set(15, 31, cell_of(vec![CellLayer::new(2, 20)])).unwrap();
    let before = map.clone();
    let cell = cell_of(vec![CellLayer::new(0, 1)]);
    assert_eq!(map.set(16, 0, cell.clone()), Err(MapError::Bounds(Bound::MapX)));
    assert_eq!(map.set(0, 32, cell.clone()), Err(MapError::Bounds(Bound::MapY)));
    assert_eq!(map.set(40, 40, cell), Err(MapError::Bounds(Bound::MapX)));
    assert_eq!(map, before);
}

#[test]
fn cell_set_twice_keeps_one_layer_and_last_value() {
    let mut cell = empty_cell();
    cell.set(4, 100).unwrap();
    cell.set(4, 200).unwrap();
    assert_eq!(cell.layers, vec![CellLayer::new(4, 200)]);
}

#[test]
fn cell_set_replaces_the_layer_where_it_stands() {
    let mut cell = cell_of(vec![CellLayer::new(0, 1), CellLayer::new(1, 2)]);
    cell.set(0, 9).unwrap();
    assert_eq!(cell.layers, vec![CellLayer::new(0, 9), CellLayer::new(1, 2)]);

    let mut cell = empty_cell();
    cell.set(1, 10).unwrap();
    cell.set(2, 20).unwrap();
    cell.set(3, 30).unwrap();
    cell.set(2, 21).unwrap();
    assert_eq!(
        cell.layers,
        vec![CellLayer::new(1, 10), CellLayer::new(2, 21), CellLayer::new(3, 30)]
    );
    cell.set(1, 11).unwrap();
    cell.set(3, 31).unwrap();
    assert_eq!(
        cell.layers,
        vec![CellLayer::new(1, 11), CellLayer::new(2, 21), CellLayer::new(3, 31)]
    );
    assert_eq!(cell.first(), Some(CellLayer::new(1, 11)));
    assert_eq!(cell.last(), Some(CellLayer::new(3, 31)));
}

#[test]
fn cell_set_puts_a_new_id_last() {
    let mut cell = cell_of(vec![CellLayer::new(5, 1), CellLayer::new(1, 2)]);
    cell.set(3, 7).unwrap();
    assert_eq!(
        cell.layers,
        vec![CellLayer::new(5, 1), CellLayer::new(1, 2), CellLayer::new(3, 7)]
    );
}

#[test]
fn cell_set_changes_what_the_view_shows() {
    let mut map = WorldMap::create(2, 1).unwrap();
    let mut cell = cell_of(vec![CellLayer::new(0, 1), CellLayer::new(1, 2)]);
    cell.set(0, 9).unwrap();
    map.set(0, 0, cell).unwrap();
    assert_eq!(map.build_view(0, 0, 2, 1), Ok(vec![Some(9), None]));
}

#[test]
fn cell_set_drops_every_further_layer_of_that_id() {
    let mut cell = cell_of(vec![
        CellLayer::new(8, 2),
        CellLayer::new(7, 1),
        CellLayer::new(9, 5),
        CellLayer::new(7, 3),
        CellLayer::new(6, 6),
        CellLayer::new(7, 8),
    ]);
    cell.set(7, 4).unwrap();
    assert_eq!(
        cell.layers,
        vec![
            CellLayer::new(8, 2),
            CellLayer::new(7, 4),
            CellLayer::new(9, 5),
            CellLayer::new(6, 6),
        ]
    );
}

#[test]
fn cell_takes_sixteen_layers_and_refuses_the_seventeenth() {
    let mut cell = empty_cell();
    for id in 0..16u8 {
        cell.set(id, 1000 + id as u16).unwrap();
    }
    assert_eq!(cell.layers.len(), MAX_LAYERS_PER_CELL);
    let before = cell.clone();
    assert_eq!(cell.set(16, 5), Err(MapError::Capacity));
    assert_eq!(cell, before);
    assert_eq!(cell.set(255, 5), Err(MapError::Capacity));
    assert_eq!(cell, before);
}

#[test]
fn full_cell_still_takes_a_known_layer() {
    let mut cell = empty_cell();
    for id in 0..16u8 {
        cell.set(id, id as u16).unwrap();
    }
    cell.set(3, 333).unwrap();
    assert_eq!(cell.layers.len(), 16);
    assert_eq!(cell.layers[3], CellLayer::new(3, 333));
    assert_eq!(cell.last(), Some(CellLayer::new(15, 15)));
    assert_eq!(cell.first(), Some(CellLayer::new(0, 0)));
}

#[test]
fn overfull_cell_takes_no_layer() {
    // a cell put together by hand, with more layers than a cell takes
    let mut cell = cell_of((0..20u8).map(|id| CellLayer::new(id, id as u16)).collect());
    let before = cell.clone();
    assert_eq!(cell.set(3, 333), Err(MapError::Capacity));
    assert_eq!(cell.set(30, 333), Err(MapError::Capacity));
    assert_eq!(cell, before);
}

#[test]
fn cell_update_get_first_last() {
    let mut cell = empty_cell();
    assert_eq!(cell.first(), None);
    assert_eq!(cell.last(), None);
    assert_eq!(cell.get(), Vec::new());
    let layers = vec![CellLayer::new(9, 1), CellLayer::new(8, 2), CellLayer::new(7, 3)];
    assert_eq!(cell.update(layers.clone()), Ok(()));
    assert_eq!(cell.get(), layers);
    assert_eq!(cell.first(), Some(CellLayer::new(9, 1)));
    assert_eq!(cell.last(), Some(CellLayer::new(7, 3)));
    assert_eq!(cell.update(Vec::new()), Ok(()));
    assert_eq!(cell, empty_cell());
}

#[test]
fn cell_update_takes_sixteen_layers_and_refuses_seventeen() {
    let stack = |count: u8| -> Vec<CellLayer> {
        (0..count).map(|id| CellLayer::new(200 - id, id as u16)).collect()
    };
    let mut cell = cell_of(vec![CellLayer::new(1, 1)]);
    let before = cell.clone();
    assert_eq!(cell.update(stack(17)), Err(MapError::Capacity));
    assert_eq!(cell.update(stack(100)), Err(MapError::Capacity));
    assert_eq!(cell, before);
    // too many layers is what is said of a stack that also holds an id twice
    let mut twice = stack(17);
    twice[16] = twice[0];
    assert_eq!(cell.update(twice), Err(MapError::Capacity));
    assert_eq!(cell, before);
    assert_eq!(cell.update(stack(16)), Ok(()));
    assert_eq!(cell.layers, stack(16));
}

#[test]
fn cell_update_refuses_an_id_twice() {
    let mut cell = cell_of(vec![CellLayer::new(1, 1)]);
    let before = cell.clone();
    for layers in [
        vec![CellLayer::new(9, 1), CellLayer::new(8, 2), CellLayer::new(9, 3)],
        vec![CellLayer::new(9, 1), CellLayer::new(9, 1)],
        vec![CellLayer::new(0, 1), CellLayer::new(1, 1), CellLayer::new(2, 1), CellLayer::new(2, 1)],
    ] {
        assert_eq!(cell.update(layers), Err(MapError::DuplicateLayer));
        assert_eq!(cell, before);
    }
    // two layers may name one entity
    assert_eq!(cell.update(vec![CellLayer::new(0, 5), CellLayer::new(1, 5)]), Ok(()));
}

#[test]
fn cell_stays_a_cell_through_set_and_update() {
    let mut cell = empty_cell();
    for round in 0..200u16 {
        let id = ((round * 7) % 23) as u8;
        let _ = cell.set(id, round);
        if round % 50 == 49 {
            let _ = cell.update(cell.layers.iter().rev().copied().collect());
        }
        assert!(cell.layers.len() <= MAX_LAYERS_PER_CELL);
        for (i, a) in cell.layers.iter().enumerate() {
            for b in cell.layers.iter().skip(i + 1) {
                assert_ne!(a.id, b.id);
            }
        }
    }
    assert_eq!(cell.layers.len(), 16);
}

#[test]
fn cell_layer_new() {
    let layer = CellLayer::new(7, 4242);
    assert_eq!(layer.id, 7);
    assert_eq!(layer.entity, 4242);
}

#[test]
fn viewport_is_clamped_to_the_map() {
    let mut map = WorldMap::create(16, 32).unwrap();
    assert_eq!(map.set_upper_left(3, 4), (3, 4));
    assert_eq!(map.get_upper_left(), (3, 4));
    assert_eq!(map.set_upper_left(16, 4), (16, 4));
    assert_eq!(map.set_upper_left(200, 31), (16, 31));
    assert_eq!(map.set_upper_left(2, 32), (2, 32));
    assert_eq!(map.set_upper_left(2, 5000), (2, 32));
    assert_eq!(map.set_upper_left(u16::MAX, u16::MAX), (16, 32));
    assert_eq!(map.get_upper_left(), (16, 32));
}

#[test]
fn cell_view_is_relative_to_the_viewport() {
    let mut map = WorldMap::create(16, 32).unwrap();
    map.set_upper_left(10, 20);
    let cell = cell_of(vec![CellLayer::new(0, 7)]);
    map.set_view(2, 3, cell.clone()).unwrap();
    assert_eq!(map.get_cell(12, 23).unwrap(), cell);
    assert_eq!(map.get_cell_view(2, 3).unwrap(), cell);
    assert_eq!(map.get_cell_view(0, 0).unwrap(), empty_cell());
    assert_eq!(map.get_cell_view(6, 0), Err(MapError::Bounds(Bound::MapX)));
    assert_eq!(map.get_cell_view(5, 12), Err(MapError::Bounds(Bound::MapY)));
    assert_eq!(map.set_view(6, 0, cell.clone()), Err(MapError::Bounds(Bound::MapX)));
    assert_eq!(map.set_view(0, 12, cell), Err(MapError::Bounds(Bound::MapY)));
    assert_eq!(map.get_cell_view(255, 255), Err(MapError::Bounds(Bound::MapX)));
}

#[test]
fn cell_row_is_a_slice_of_the_row() {
    let mut map = WorldMap::create(6, 3).unwrap();
    for x in 0..6u16 {
        map.set(x, 1, cell_of(vec![CellLayer::new(0, 100 + x)])).unwrap();
    }
    let row = map.get_cell_row(2, 1, 3).unwrap();
    assert_eq!(
        row,
        vec![
            cell_of(vec![CellLayer::new(0, 102)]),
            cell_of(vec![CellLayer::new(0, 103)]),
            cell_of(vec![CellLayer::new(0, 104)]),
        ]
    );
    assert_eq!(map.get_cell_row(0, 1, 6).unwrap().len(), 6);
    assert_eq!(map.get_cell_row(0, 0, 6).unwrap(), vec![empty_cell(); 6]);
}

#[test]
fn cell_row_ends_where_the_row_ends() {
    let mut map = WorldMap::create(6, 3).unwrap();
    map.set(5, 2, cell_of(vec![CellLayer::new(1, 55)])).unwrap();
    let row = map.get_cell_row(4, 2, 5).unwrap();
    assert_eq!(row, vec![empty_cell(), cell_of(vec![CellLayer::new(1, 55)])]);
    assert_eq!(map.get_cell_row(5, 2, 1).unwrap().len(), 1);
}

#[test]
fn cell_row_errors() {
    let map = WorldMap::create(6, 3).unwrap();
    assert_eq!(map.get_cell_row(0, 0, 0), Err(MapError::Bounds(Bound::EmptyRow)));
    assert_eq!(map.get_cell_row(9, 9, 0), Err(MapError::Bounds(Bound::EmptyRow)));
    assert_eq!(map.get_cell_row(0, 0, 7), Err(MapError::Bounds(Bound::RowWidth)));
    assert_eq!(map.get_cell_row(0, 3, 7), Err(MapError::Bounds(Bound::RowWidth)));
    assert_eq!(map.get_cell_row(0, 3, 2), Err(MapError::Bounds(Bound::MapY)));
    assert_eq!(map.get_cell_row(6, 3, 2), Err(MapError::Bounds(Bound::MapY)));
    assert_eq!(map.get_cell_row(6, 2, 2), Err(MapError::Bounds(Bound::MapX)));
    assert_eq!(map.get_cell_row(7, 2, 2), Err(MapError::Bounds(Bound::MapX)));
}

#[test]
fn set_row_writes_every_cell_of_the_slice() {
    let mut map = WorldMap::create(6, 3).unwrap();
    let slice = vec![
        cell_of(vec![CellLayer::new(0, 1)]),
        cell_of(vec![CellLayer::new(0, 2)]),
        cell_of(vec![CellLayer::new(0, 3)]),
    ];
    map.set_row(2, 3, slice.clone()).unwrap();
    assert_eq!(map.get_cell(2, 2).unwrap(), empty_cell());
    assert_eq!(map.get_cell(3, 2).unwrap(), slice[0]);
    assert_eq!(map.get_cell(4, 2).unwrap(), slice[1]);
    assert_eq!(map.get_cell(5, 2).unwrap(), slice[2]);
    assert_eq!(map.get_cell(3, 1).unwrap(), empty_cell());
}

#[test]
fn set_row_of_no_cells_changes_nothing() {
    let mut map = WorldMap::create(6, 3).unwrap();
    let before = map.clone();
    assert_eq!(map.set_row(0, 6, Vec::new()), Ok(()));
    assert_eq!(map, before);
}

#[test]
fn set_row_errors_leave_the_map_unchanged() {
    let mut map = WorldMap::create(6, 3).unwrap();
    let before = map.clone();
    let slice = vec![cell_of(vec![CellLayer::new(0, 1)]); 3];
    assert_eq!(map.set_row(3, 0, slice.clone()), Err(MapError::Bounds(Bound::MapY)));
    assert_eq!(map.set_row(0, 4, slice.clone()), Err(MapError::Bounds(Bound::RowEnd)));
    assert_eq!(map.set_row(0, 255, slice), Err(MapError::Bounds(Bound::RowEnd)));
    assert_eq!(
        map.set_row(0, 0, vec![empty_cell(); 7]),
        Err(MapError::Bounds(Bound::RowEnd))
    );
    assert_eq!(map, before);
}

#[test]
fn view_shows_one_entity_at_index_36() {
    let mut map = WorldMap::create(16, 32).unwrap();
    map.set(4, 4, cell_of(vec![CellLayer::new(0, 42)])).unwrap();
    let view = map.build_view(0, 0, 8, 8).unwrap();
    assert_eq!(view.len(), 64);
    for (i, entry) in view.iter().enumerate() {
        if i == 8 * 4 + 4 {
            assert_eq!(*entry, Some(42));
        } else {
            assert_eq!(*entry, None);
        }
    }
}

#[test]
fn view_of_a_cell_set_at_4_8() {
    let mut map = WorldMap::create(16, 32).unwrap();
    map.set(4, 8, cell_of(vec![CellLayer::new(0, 42)])).unwrap();
    let view = map.build_view(0, 0, 8, 16).unwrap();
    assert_eq!(view.len(), 128);
    for (i, entry) in view.iter().enumerate() {
        if i == 8 * 8 + 4 {
            assert_eq!(*entry, Some(42));
        } else {
            assert_eq!(*entry, None);
        }
    }
    // row 8 lies below a window of eight rows
    assert_eq!(map.build_view(0, 0, 8, 8).unwrap(), vec![None; 64]);
}

#[test]
fn view_is_row_major_and_shows_the_first_layer() {
    let mut map = WorldMap::create(5, 4).unwrap();
    for y in 0..4u16 {
        for x in 0..5u16 {
            let id = 100 * y + x;
            map.set(x, y, cell_of(vec![CellLayer::new(1, id), CellLayer::new(0, 9999)]))
                .unwrap();
        }
    }
    map.set(2, 2, empty_cell()).unwrap();
    let view = map.build_view(1, 1, 3, 2).unwrap();
    assert_eq!(
        view,
        vec![Some(101), Some(102), Some(103), Some(201), None, Some(203)]
    );
    map.set_upper_left(1, 1);
    assert_eq!(
        map.build_view(1, 1, 3, 2).unwrap(),
        vec![None, Some(203), Some(204), Some(302), Some(303), Some(304)]
    );
}

#[test]
fn view_has_width_times_height_entries() {
    let map = WorldMap::create(300, 300).unwrap();
    for (w, h) in [(0u8, 0u8), (0, 9), (9, 0), (1, 1), (7, 3), (255, 255)] {
        let view = map.build_view(0, 0, w, h).unwrap();
        assert_eq!(view.len(), w as usize * h as usize);
    }
}

#[test]
fn view_errors_name_the_bound() {
    let mut map = WorldMap::create(16, 32).unwrap();
    assert_eq!(map.build_view(17, 0, 0, 0), Err(MapError::Bounds(Bound::ViewLeft)));
    assert_eq!(map.build_view(17, 33, 0, 0), Err(MapError::Bounds(Bound::ViewLeft)));
    assert_eq!(map.build_view(0, 33, 0, 0), Err(MapError::Bounds(Bound::ViewTop)));
    assert_eq!(map.build_view(9, 0, 8, 1), Err(MapError::Bounds(Bound::ViewRight)));
    assert_eq!(map.build_view(0, 0, 17, 1), Err(MapError::Bounds(Bound::ViewRight)));
    assert_eq!(map.build_view(0, 0, 17, 33), Err(MapError::Bounds(Bound::ViewRight)));
    assert_eq!(map.build_view(0, 25, 8, 8), Err(MapError::Bounds(Bound::ViewBottom)));
    assert_eq!(map.build_view(0, 0, 16, 33), Err(MapError::Bounds(Bound::ViewBottom)));
    assert_eq!(map.build_view(16, 32, 0, 0), Ok(Vec::new()));
    assert_eq!(map.build_view(8, 24, 8, 8).unwrap().len(), 64);
    map.set_upper_left(16, 32);
    assert_eq!(map.build_view(1, 0, 0, 0), Err(MapError::Bounds(Bound::ViewLeft)));
    assert_eq!(map.build_view(0, 1, 0, 0), Err(MapError::Bounds(Bound::ViewTop)));
    assert_eq!(map.build_view(0, 0, 1, 0), Err(MapError::Bounds(Bound::ViewRight)));
    assert_eq!(map.build_view(0, 0, 0, 1), Err(MapError::Bounds(Bound::ViewBottom)));
}

#[test]
fn operations_that_are_not_offered() {
    let map = WorldMap::create(2, 2).unwrap();
    assert_eq!(map.auto_generate(), Err(MapError::Unsupported));
    assert_eq!(WorldMap::load(&"a.bin".to_owned()), Err(MapError::Unsupported));
    assert_eq!(map.save(&"a.bin".to_owned()), Err(MapError::Unsupported));
}

#[test]
fn map_error_messages() {
    assert_eq!(
        MapError::Dimension(Axis::Width).message(),
        "Invalid Dimension: Width is greater than 1024"
    );
    assert_eq!(
        MapError::Dimension(Axis::Height).message(),
        "Invalid Dimension: Height is greater than 1024"
    );
    assert_eq!(MapError::Bounds(Bound::EmptyRow).message(), "Width request was 0");
    assert_eq!(MapError::EmptyInput.message(), "bin_data buffer is 0 bytes");
    let all = [
        MapError::Dimension(Axis::Width),
        MapError::Dimension(Axis::Height),
        MapError::Bounds(Bound::MapX),
        MapError::Bounds(Bound::MapY),
        MapError::Bounds(Bound::EmptyRow),
        MapError::Bounds(Bound::RowWidth),
        MapError::Bounds(Bound::RowEnd),
        MapError::Bounds(Bound::ViewLeft),
        MapError::Bounds(Bound::ViewTop),
        MapError::Bounds(Bound::ViewRight),
        MapError::Bounds(Bound::ViewBottom),
        MapError::Bounds(Bound::ViewWidth),
        MapError::Bounds(Bound::ViewHeight),
        MapError::Capacity,
        MapError::DuplicateLayer,
        MapError::EmptyInput,
        MapError::Malformed,
        MapError::Oversized,
        MapError::Unsupported,
    ];
    for (i, a) in all.iter().enumerate() {
        assert!(!a.message().is_empty());
        for b in all.iter().skip(i + 1) {
            assert_ne!(a.message(), b.message());
        }
    }
}

fn registry_of(weights: &[u8]) -> EntityFactory {
    let mut entities = EntityFactory::new();
    for weight in weights {
        add(&mut entities, 500, *weight).unwrap();
    }
    entities
}

#[test]
fn lightest_layer_is_the_first_of_least_weight() {
    // entities 1 to 5
    let entities = registry_of(&[0x80, 3, 200, 3, 0]);
    let cell = cell_of(vec![CellLayer::new(0, 1), CellLayer::new(1, 2), CellLayer::new(2, 3)]);
    assert_eq!(cell.lightest(Some(&entities)), Ok(Some(CellLayer::new(1, 2))));
    // of two that weigh the same the first shows
    let cell = cell_of(vec![CellLayer::new(7, 4), CellLayer::new(1, 2), CellLayer::new(2, 3)]);
    assert_eq!(cell.lightest(Some(&entities)), Ok(Some(CellLayer::new(7, 4))));
    let cell = cell_of(vec![CellLayer::new(7, 3), CellLayer::new(1, 2), CellLayer::new(2, 5)]);
    assert_eq!(cell.lightest(Some(&entities)), Ok(Some(CellLayer::new(2, 5))));
    let cell = cell_of(vec![CellLayer::new(9, 3)]);
    assert_eq!(cell.lightest(Some(&entities)), Ok(Some(CellLayer::new(9, 3))));
    // the same entity under two ids
    let cell = cell_of(vec![CellLayer::new(4, 1), CellLayer::new(5, 1)]);
    assert_eq!(cell.lightest(Some(&entities)), Ok(Some(CellLayer::new(4, 1))));
}

#[test]
fn lightest_layer_of_a_cell_without_layers() {
    let entities = registry_of(&[1]);
    assert_eq!(empty_cell().lightest(Some(&entities)), Ok(None));
    assert_eq!(empty_cell().lightest(None), Ok(None));
}

#[test]
fn lightest_layer_names_the_first_entity_that_is_not_there() {
    let mut entities = registry_of(&[9, 8, 7]);
    let cell = cell_of(vec![
        CellLayer::new(0, 3),
        CellLayer::new(1, 44),
        CellLayer::new(2, 1),
        CellLayer::new(3, 55),
    ]);
    assert_eq!(cell.lightest(Some(&entities)), Err(44));
    remove(&mut entities, 3).unwrap();
    assert_eq!(cell.lightest(Some(&entities)), Err(3));
    // a busy registry knows no entity
    assert_eq!(cell.lightest(None), Err(3));
    let known = cell_of(vec![CellLayer::new(0, 2), CellLayer::new(1, 1)]);
    assert_eq!(known.lightest(Some(&entities)), Ok(Some(CellLayer::new(0, 2))));
    assert_eq!(known.lightest(None), Err(2));
}
