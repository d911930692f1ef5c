//! How a map lies in bytes.
//!
//! A saved map is one MessagePack array of five items: the grid, the width,
//! the height, and the column and the row of the viewport.  The grid is an
//! array of rows, a row is an array of cells, a cell is an array of one item,
//! its stack, the stack is an array of layers, and a layer is an array of two
//! numbers, its id and its entity.  Every array says how many items it has, so
//! the bytes describe themselves, and every number takes the fewest bytes
//! that hold it.
//!
//! Read back, the bytes give the map that was written: see
//! [`lemma_saved_map_loads`].

use crate::map::{grid_view, row_view, CellLayer, MapCell, MapView};
use crate::wire::{
    array_header, decode_array_header, decode_array_of, decode_uint_within, items_bytes,
    lemma_array_header_read_back, lemma_items_bytes_push, lemma_items_read_back,
    lemma_read_items_stays_none, lemma_stands_split, lemma_uint_read_back, read_array_header,
    read_array_of, read_items, read_uint_within, stands_at, uint_bytes, write_array_header,
    write_uint,
};
use vstd::prelude::*;

verus! {

/// The bytes of a layer.
pub open spec fn layer_bytes(layer: CellLayer) -> Seq<u8> {
    array_header(2) + uint_bytes(layer.id as u16) + uint_bytes(layer.entity)
}

/// [`layer_bytes`], as a value.
pub open spec fn layer_writer() -> spec_fn(CellLayer) -> Seq<u8> {
    |layer: CellLayer| layer_bytes(layer)
}

/// The bytes of a cell with the stack `layers`.
pub open spec fn cell_bytes(layers: Seq<CellLayer>) -> Seq<u8> {
    array_header(1) + array_header(layers.len() as u32) + items_bytes(layers, layer_writer())
}

/// [`cell_bytes`], as a value.
pub open spec fn cell_writer() -> spec_fn(Seq<CellLayer>) -> Seq<u8> {
    |layers: Seq<CellLayer>| cell_bytes(layers)
}

/// The bytes of a row of cells.
pub open spec fn row_bytes(row: Seq<Seq<CellLayer>>) -> Seq<u8> {
    array_header(row.len() as u32) + items_bytes(row, cell_writer())
}

/// [`row_bytes`], as a value.
pub open spec fn row_writer() -> spec_fn(Seq<Seq<CellLayer>>) -> Seq<u8> {
    |row: Seq<Seq<CellLayer>>| row_bytes(row)
}

/// The bytes of a grid of cells.
pub open spec fn grid_bytes(cells: Seq<Seq<Seq<CellLayer>>>) -> Seq<u8> {
    array_header(cells.len() as u32) + items_bytes(cells, row_writer())
}

/// The bytes of a map.
pub open spec fn map_bytes(map: MapView) -> Seq<u8> {
    array_header(5) + grid_bytes(map.cells) + uint_bytes(map.width) + uint_bytes(map.height)
        + uint_bytes(map.origin_x) + uint_bytes(map.origin_y)
}

/// The stack is short enough for its length to be written.
pub open spec fn sound_cell() -> spec_fn(Seq<CellLayer>) -> bool {
    |layers: Seq<CellLayer>| layers.len() <= u32::MAX
}

/// The row is short enough for its length to be written, and so is the
/// stack of each of its cells.
pub open spec fn sound_row() -> spec_fn(Seq<Seq<CellLayer>>) -> bool {
    |row: Seq<Seq<CellLayer>>|
        row.len() <= u32::MAX && forall|x: int| 0 <= x < row.len() ==> sound_cell()(#[trigger] row[x])
}

/// The grid has few enough rows for their number to be written, and each of
/// its rows is sound.
pub open spec fn sound_grid(cells: Seq<Seq<Seq<CellLayer>>>) -> bool {
    cells.len() <= u32::MAX && forall|y: int|
        0 <= y < cells.len() ==> sound_row()(#[trigger] cells[y])
}

/// Reads the layer that begins at place `at` and says where the next item
/// begins.
pub open spec fn read_layer(bytes: Seq<u8>, at: int) -> Option<(CellLayer, int)> {
    match read_array_of(bytes, at, 2) {
        Some(at_id) => match read_uint_within(bytes, at_id, u8::MAX as int) {
            Some((id, at_entity)) => match read_uint_within(bytes, at_entity, u16::MAX as int) {
                Some((entity, next)) => Some(
                    (CellLayer { id: id as u8, entity: entity as u16 }, next),
                ),
                None => None,
            },
            None => None,
        },
        None => None,
    }
}

/// [`read_layer`], as a value.
pub open spec fn layer_reader() -> spec_fn(Seq<u8>, int) -> Option<(CellLayer, int)> {
    |bytes: Seq<u8>, at: int| read_layer(bytes, at)
}

/// Reads the cell that begins at place `at` and says where the next item
/// begins.
pub open spec fn read_cell(bytes: Seq<u8>, at: int) -> Option<(Seq<CellLayer>, int)> {
    match read_array_of(bytes, at, 1) {
        Some(at_stack) => match read_array_header(bytes, at_stack) {
            Some((count, at_layers)) => read_items(
                bytes,
                at_layers,
                count as nat,
                layer_reader(),
            ),
            None => None,
        },
        None => None,
    }
}

/// [`read_cell`], as a value.
pub open spec fn cell_reader() -> spec_fn(Seq<u8>, int) -> Option<(Seq<CellLayer>, int)> {
    |bytes: Seq<u8>, at: int| read_cell(bytes, at)
}

/// Reads the row of cells that begins at place `at` and says where the next
/// item begins.
pub open spec fn read_row(bytes: Seq<u8>, at: int) -> Option<(Seq<Seq<CellLayer>>, int)> {
    match read_array_header(bytes, at) {
        Some((count, at_cells)) => read_items(bytes, at_cells, count as nat, cell_reader()),
        None => None,
    }
}

/// [`read_row`], as a value.
pub open spec fn row_reader() -> spec_fn(Seq<u8>, int) -> Option<(Seq<Seq<CellLayer>>, int)> {
    |bytes: Seq<u8>, at: int| read_row(bytes, at)
}

/// Reads the grid that begins at place `at` and says where the next item
/// begins.
pub open spec fn read_grid(bytes: Seq<u8>, at: int) -> Option<(Seq<Seq<Seq<CellLayer>>>, int)> {
    match read_array_header(bytes, at) {
        Some((count, at_rows)) => read_items(bytes, at_rows, count as nat, row_reader()),
        None => None,
    }
}

/// Reads the map that begins at place `at`, whatever its grid and its
/// numbers are, and says where it ends.
pub open spec fn read_map(bytes: Seq<u8>, at: int) -> Option<(MapView, int)> {
    match read_array_of(bytes, at, 5) {
        Some(at_grid) => match read_grid(bytes, at_grid) {
            Some((cells, at_width)) => match read_uint_within(bytes, at_width, u16::MAX as int) {
                Some((width, at_height)) => match read_uint_within(
                    bytes,
                    at_height,
                    u16::MAX as int,
                ) {
                    Some((height, at_x)) => match read_uint_within(bytes, at_x, u16::MAX as int) {
                        Some((origin_x, at_y)) => match read_uint_within(
                            bytes,
                            at_y,
                            u16::MAX as int,
                        ) {
                            Some((origin_y, end)) => Some(
                                (
                                    MapView {
                                        cells,
                                        width: width as u16,
                                        height: height as u16,
                                        origin_x: origin_x as u16,
                                        origin_y: origin_y as u16,
                                    },
                                    end,
                                ),
                            ),
                            None => None,
                        },
                        None => None,
                    },
                    None => None,
                },
                None => None,
            },
            None => None,
        },
        None => None,
    }
}

/// The map that `bytes` hold: the one that is read from their beginning, if
/// its grid is as large as its numbers say and it is a map that
/// [`crate::map::WorldMap::create`] could have made the frame of.  What
/// follows the map in `bytes` is of no account.
pub open spec fn decoded(bytes: Seq<u8>) -> Option<MapView> {
    match read_map(bytes, 0) {
        Some((map, _)) => if map.wf() {
            Some(map)
        } else {
            None
        },
        None => None,
    }
}

/// A layer is read as it was written.
pub proof fn lemma_layer_read_back(bytes: Seq<u8>, at: int, layer: CellLayer)
    requires
        stands_at(bytes, at, layer_bytes(layer)),
    ensures
        read_layer(bytes, at) == Some((layer, at + layer_bytes(layer).len())),
{
    let head = array_header(2);
    let id = uint_bytes(layer.id as u16);
    let entity = uint_bytes(layer.entity);
    assert(layer_bytes(layer) == (head + id) + entity);
    lemma_stands_split(bytes, at, head + id, entity);
    lemma_stands_split(bytes, at, head, id);
    lemma_array_header_read_back(bytes, at, 2);
    lemma_uint_read_back(bytes, at + head.len(), layer.id as u16);
    lemma_uint_read_back(bytes, at + head.len() + id.len(), layer.entity);
}

/// A cell is read as it was written.
pub proof fn lemma_cell_read_back(bytes: Seq<u8>, at: int, layers: Seq<CellLayer>)
    requires
        sound_cell()(layers),
        stands_at(bytes, at, cell_bytes(layers)),
    ensures
        read_cell(bytes, at) == Some((layers, at + cell_bytes(layers).len())),
{
    let head = array_header(1);
    let count = array_header(layers.len() as u32);
    let items = items_bytes(layers, layer_writer());
    assert(cell_bytes(layers) == (head + count) + items);
    lemma_stands_split(bytes, at, head + count, items);
    lemma_stands_split(bytes, at, head, count);
    lemma_array_header_read_back(bytes, at, 1);
    lemma_array_header_read_back(bytes, at + head.len(), layers.len() as u32);
    let always = |layer: CellLayer| true;
    assert forall|layer: CellLayer, from: int|
        always(layer) && #[trigger] stands_at(
            bytes,
            from,
            layer_writer()(layer),
        ) implies layer_reader()(bytes, from) == Some(
        (layer, from + layer_writer()(layer).len()),
    ) by {
        lemma_layer_read_back(bytes, from, layer);
    }
    lemma_items_read_back(
        bytes,
        at + head.len() + count.len(),
        layers,
        always,
        layer_writer(),
        layer_reader(),
    );
}

/// A row of cells is read as it was written.
pub proof fn lemma_row_read_back(bytes: Seq<u8>, at: int, row: Seq<Seq<CellLayer>>)
    requires
        sound_row()(row),
        stands_at(bytes, at, row_bytes(row)),
    ensures
        read_row(bytes, at) == Some((row, at + row_bytes(row).len())),
{
    let count = array_header(row.len() as u32);
    let items = items_bytes(row, cell_writer());
    lemma_stands_split(bytes, at, count, items);
    lemma_array_header_read_back(bytes, at, row.len() as u32);
    assert forall|layers: Seq<CellLayer>, from: int|
        sound_cell()(layers) && #[trigger] stands_at(
            bytes,
            from,
            cell_writer()(layers),
        ) implies cell_reader()(bytes, from) == Some(
        (layers, from + cell_writer()(layers).len()),
    ) by {
        lemma_cell_read_back(bytes, from, layers);
    }
    lemma_items_read_back(bytes, at + count.len(), row, sound_cell(), cell_writer(), cell_reader());
}

/// A grid is read as it was written.
pub proof fn lemma_grid_read_back(bytes: Seq<u8>, at: int, cells: Seq<Seq<Seq<CellLayer>>>)
    requires
        sound_grid(cells),
        stands_at(bytes, at, grid_bytes(cells)),
    ensures
        read_grid(bytes, at) == Some((cells, at + grid_bytes(cells).len())),
{
    let count = array_header(cells.len() as u32);
    let items = items_bytes(cells, row_writer());
    lemma_stands_split(bytes, at, count, items);
    lemma_array_header_read_back(bytes, at, cells.len() as u32);
    assert forall|row: Seq<Seq<CellLayer>>, from: int|
        sound_row()(row) && #[trigger] stands_at(
            bytes,
            from,
            row_writer()(row),
        ) implies row_reader()(bytes, from) == Some((row, from + row_writer()(row).len())) by {
        lemma_row_read_back(bytes, from, row);
    }
    lemma_items_read_back(bytes, at + count.len(), cells, sound_row(), row_writer(), row_reader());
}

/// A map is read as it was written, whatever follows it.
pub proof fn lemma_map_read_back(bytes: Seq<u8>, at: int, map: MapView)
    requires
        sound_grid(map.cells),
        stands_at(bytes, at, map_bytes(map)),
    ensures
        read_map(bytes, at) == Some((map, at + map_bytes(map).len())),
{
    let head = array_header(5);
    let grid = grid_bytes(map.cells);
    let width = uint_bytes(map.width);
    let height = uint_bytes(map.height);
    let x = uint_bytes(map.origin_x);
    let y = uint_bytes(map.origin_y);
    assert(map_bytes(map) == ((((head + grid) + width) + height) + x) + y);
    lemma_stands_split(bytes, at, (((head + grid) + width) + height) + x, y);
    lemma_stands_split(bytes, at, ((head + grid) + width) + height, x);
    lemma_stands_split(bytes, at, (head + grid) + width, height);
    lemma_stands_split(bytes, at, head + grid, width);
    lemma_stands_split(bytes, at, head, grid);
    lemma_array_header_read_back(bytes, at, 5);
    let at_grid = at + head.len();
    lemma_grid_read_back(bytes, at_grid, map.cells);
    let at_width = at_grid + grid.len();
    lemma_uint_read_back(bytes, at_width, map.width);
    let at_height = at_width + width.len();
    lemma_uint_read_back(bytes, at_height, map.height);
    let at_x = at_height + height.len();
    lemma_uint_read_back(bytes, at_x, map.origin_x);
    let at_y = at_x + x.len();
    lemma_uint_read_back(bytes, at_y, map.origin_y);
}

/// What [`crate::map::WorldMap::serialize_for_save`] writes,
/// [`crate::map::WorldMap::deserialize_for_load`] reads as the same map:
/// every cell comes back with its stack, be it empty or full, and so do the
/// size of the map and the place of its viewport.
pub proof fn lemma_saved_map_loads(map: MapView)
    requires
        map.wf(),
        map.writable(),
    ensures
        decoded(map_bytes(map)) == Some(map),
{
    let bytes = map_bytes(map);
    assert(bytes.subrange(0, bytes.len() as int) =~= bytes);
    lemma_writable_is_sound(map);
    lemma_map_read_back(bytes, 0, map);
}

/// In a map whose stacks can be written, every length can be written.
pub proof fn lemma_writable_is_sound(map: MapView)
    requires
        map.wf(),
    ensures
        map.writable() == sound_grid(map.cells),
{
    if map.writable() {
        assert forall|y: int| 0 <= y < map.cells.len() implies sound_row()(
            #[trigger] map.cells[y],
        ) by {
            assert forall|x: int| 0 <= x < map.cells[y].len() implies sound_cell()(
                #[trigger] map.cells[y][x],
            ) by {
                assert(map.cell(x, y).len() <= u32::MAX);
            }
        }
    }
    if sound_grid(map.cells) {
        assert forall|x: int, y: int|
            0 <= y < map.cells.len() && 0 <= x < map.cells[y].len() implies (#[trigger] map.cell(
            x,
            y,
        )).len() <= u32::MAX by {
            assert(sound_row()(map.cells[y]));
            assert(sound_cell()(map.cells[y][x]));
        }
    }
}

/// Writes `layer` behind what `buf` holds.
pub fn write_layer(buf: &mut Vec<u8>, layer: &CellLayer)
    ensures
        final(buf)@ == old(buf)@ + layer_bytes(*layer),
{
    write_array_header(buf, 2);
    write_uint(buf, layer.id as u16);
    write_uint(buf, layer.entity);
    assert(buf@ =~= old(buf)@ + layer_bytes(*layer));
}

/// Writes `cell` behind what `buf` holds, if its stack is short enough for
/// that.  Says whether it was.
pub fn write_cell(buf: &mut Vec<u8>, cell: &MapCell) -> (fits: bool)
    ensures
        fits == sound_cell()(cell@),
        fits ==> final(buf)@ == old(buf)@ + cell_bytes(cell@),
{
    if cell.layers.len() > 0xffff_ffff {
        return false;
    }
    write_array_header(buf, 1);
    write_array_header(buf, cell.layers.len() as u32);
    let ghost head = old(buf)@ + array_header(1) + array_header(cell@.len() as u32);
    let mut i: usize = 0;
    while i < cell.layers.len()
        invariant
            i <= cell@.len(),
            cell@ == cell.layers@,
            head == old(buf)@ + array_header(1) + array_header(cell@.len() as u32),
            buf@ == head + items_bytes(cell@.take(i as int), layer_writer()),
        decreases cell@.len() - i,
    {
        proof {
            lemma_items_bytes_push(cell@.take(i as int), cell@[i as int], layer_writer());
            assert(cell@.take(i + 1) =~= cell@.take(i as int).push(cell@[i as int]));
        }
        write_layer(buf, &cell.layers[i]);
        assert(buf@ =~= head + items_bytes(cell@.take(i + 1), layer_writer()));
        i += 1;
    }
    assert(cell@.take(i as int) =~= cell@);
    assert(buf@ =~= old(buf)@ + cell_bytes(cell@));
    true
}

/// Writes the cells of `row` behind what `buf` holds, if every stack is
/// short enough for that.  Says whether it was.
pub fn write_row(buf: &mut Vec<u8>, row: &Vec<MapCell>) -> (fits: bool)
    requires
        row@.len() <= u32::MAX,
    ensures
        fits == sound_row()(row_view(row@)),
        fits ==> final(buf)@ == old(buf)@ + row_bytes(row_view(row@)),
{
    let ghost cells = row_view(row@);
    write_array_header(buf, row.len() as u32);
    let ghost head = old(buf)@ + array_header(cells.len() as u32);
    let mut x: usize = 0;
    while x < row.len()
        invariant
            x <= row@.len(),
            cells == row_view(row@),
            head == old(buf)@ + array_header(cells.len() as u32),
            buf@ == head + items_bytes(cells.take(x as int), cell_writer()),
            forall|k: int| 0 <= k < x ==> sound_cell()(#[trigger] cells[k]),
        decreases row@.len() - x,
    {
        proof {
            lemma_items_bytes_push(cells.take(x as int), cells[x as int], cell_writer());
            assert(cells.take(x + 1) =~= cells.take(x as int).push(cells[x as int]));
        }
        if !write_cell(buf, &row[x]) {
            assert(!sound_cell()(cells[x as int]));
            return false;
        }
        assert(buf@ =~= head + items_bytes(cells.take(x + 1), cell_writer()));
        x += 1;
    }
    assert(cells.take(x as int) =~= cells);
    true
}

/// Writes the rows of `grid` behind what `buf` holds, if every stack is
/// short enough for that.  Says whether it was.
pub fn write_grid(buf: &mut Vec<u8>, grid: &Vec<Vec<MapCell>>) -> (fits: bool)
    requires
        grid@.len() <= u32::MAX,
        forall|y: int| 0 <= y < grid@.len() ==> (#[trigger] grid@[y])@.len() <= u32::MAX,
    ensures
        fits == sound_grid(grid_view(grid@)),
        fits ==> final(buf)@ == old(buf)@ + grid_bytes(grid_view(grid@)),
{
    let ghost cells = grid_view(grid@);
    write_array_header(buf, grid.len() as u32);
    let ghost head = old(buf)@ + array_header(cells.len() as u32);
    let mut y: usize = 0;
    while y < grid.len()
        invariant
            y <= grid@.len(),
            cells == grid_view(grid@),
            forall|k: int| 0 <= k < grid@.len() ==> (#[trigger] grid@[k])@.len() <= u32::MAX,
            head == old(buf)@ + array_header(cells.len() as u32),
            buf@ == head + items_bytes(cells.take(y as int), row_writer()),
            forall|k: int| 0 <= k < y ==> sound_row()(#[trigger] cells[k]),
        decreases grid@.len() - y,
    {
        proof {
            lemma_items_bytes_push(cells.take(y as int), cells[y as int], row_writer());
            assert(cells.take(y + 1) =~= cells.take(y as int).push(cells[y as int]));
        }
        if !write_row(buf, &grid[y]) {
            assert(!sound_row()(cells[y as int]));
            return false;
        }
        assert(buf@ =~= head + items_bytes(cells.take(y + 1), row_writer()));
        y += 1;
    }
    assert(cells.take(y as int) =~= cells);
    true
}

/// Reads the layer that begins at place `at`; see [`read_layer`].
pub fn decode_layer(bytes: &Vec<u8>, at: usize) -> (r: Option<(CellLayer, usize)>)
    ensures
        match r {
            Some((layer, next)) => read_layer(bytes@, at as int) == Some((layer, next as int)),
            None => read_layer(bytes@, at as int) is None,
        },
{
    let at_id = match decode_array_of(bytes, at, 2) {
        Some(next) => next,
        None => {
            return None;
        },
    };
    let (id, at_entity) = match decode_uint_within(bytes, at_id, 255) {
        Some(read) => read,
        None => {
            return None;
        },
    };
    let (entity, next) = match decode_uint_within(bytes, at_entity, 65535) {
        Some(read) => read,
        None => {
            return None;
        },
    };
    Some((CellLayer { id: id as u8, entity }, next))
}

/// Reads the cell that begins at place `at`; see [`read_cell`].
pub fn decode_cell(bytes: &Vec<u8>, at: usize) -> (r: Option<(MapCell, usize)>)
    ensures
        match r {
            Some((cell, next)) => read_cell(bytes@, at as int) == Some((cell@, next as int)),
            None => read_cell(bytes@, at as int) is None,
        },
{
    let at_stack = match decode_array_of(bytes, at, 1) {
        Some(next) => next,
        None => {
            return None;
        },
    };
    let (count, at_layers) = match decode_array_header(bytes, at_stack) {
        Some(read) => read,
        None => {
            return None;
        },
    };
    let mut layers: Vec<CellLayer> = Vec::new();
    let mut next: usize = at_layers;
    let mut i: u32 = 0;
    while i < count
        invariant
            i <= count,
            read_array_of(bytes@, at as int, 1) == Some(at_stack as int),
            read_array_header(bytes@, at_stack as int) == Some((count as int, at_layers as int)),
            read_items(bytes@, at_layers as int, i as nat, layer_reader()) == Some(
                (layers@, next as int),
            ),
        decreases count - i,
    {
        match decode_layer(bytes, next) {
            Some((layer, end)) => {
                layers.push(layer);
                next = end;
            },
            None => {
                proof {
                    assert(read_items(bytes@, at_layers as int, (i + 1) as nat, layer_reader())
                        is None);
                    lemma_read_items_stays_none(
                        bytes@,
                        at_layers as int,
                        (i + 1) as nat,
                        count as nat,
                        layer_reader(),
                    );
                }
                return None;
            },
        }
        i += 1;
    }
    Some((MapCell { layers }, next))
}

/// Reads the row of cells that begins at place `at`; see [`read_row`].
pub fn decode_row(bytes: &Vec<u8>, at: usize) -> (r: Option<(Vec<MapCell>, usize)>)
    ensures
        match r {
            Some((row, next)) => read_row(bytes@, at as int) == Some(
                (row_view(row@), next as int),
            ),
            None => read_row(bytes@, at as int) is None,
        },
{
    let (count, at_cells) = match decode_array_header(bytes, at) {
        Some(read) => read,
        None => {
            return None;
        },
    };
    let mut row: Vec<MapCell> = Vec::new();
    let mut next: usize = at_cells;
    let mut i: u32 = 0;
    while i < count
        invariant
            i <= count,
            read_array_header(bytes@, at as int) == Some((count as int, at_cells as int)),
            read_items(bytes@, at_cells as int, i as nat, cell_reader()) == Some(
                (row_view(row@), next as int),
            ),
        decreases count - i,
    {
        let ghost so_far = row_view(row@);
        match decode_cell(bytes, next) {
            Some((cell, end)) => {
                row.push(cell);
                next = end;
                assert(row_view(row@) =~= so_far.push(cell@));
            },
            None => {
                proof {
                    assert(read_items(bytes@, at_cells as int, (i + 1) as nat, cell_reader())
                        is None);
                    lemma_read_items_stays_none(
                        bytes@,
                        at_cells as int,
                        (i + 1) as nat,
                        count as nat,
                        cell_reader(),
                    );
                }
                return None;
            },
        }
        i += 1;
    }
    Some((row, next))
}

/// Reads the grid that begins at place `at`; see [`read_grid`].
pub fn decode_grid(bytes: &Vec<u8>, at: usize) -> (r: Option<(Vec<Vec<MapCell>>, usize)>)
    ensures
        match r {
            Some((grid, next)) => read_grid(bytes@, at as int) == Some(
                (grid_view(grid@), next as int),
            ),
            None => read_grid(bytes@, at as int) is None,
        },
{
    let (count, at_rows) = match decode_array_header(bytes, at) {
        Some(read) => read,
        None => {
            return None;
        },
    };
    let mut grid: Vec<Vec<MapCell>> = Vec::new();
    let mut next: usize = at_rows;
    let mut i: u32 = 0;
    while i < count
        invariant
            i <= count,
            read_array_header(bytes@, at as int) == Some((count as int, at_rows as int)),
            read_items(bytes@, at_rows as int, i as nat, row_reader()) == Some(
                (grid_view(grid@), next as int),
            ),
        decreases count - i,
    {
        let ghost so_far = grid_view(grid@);
        match decode_row(bytes, next) {
            Some((row, end)) => {
                let ghost cells = row_view(row@);
                grid.push(row);
                next = end;
                assert(grid_view(grid@) =~= so_far.push(cells));
            },
            None => {
                proof {
                    assert(read_items(bytes@, at_rows as int, (i + 1) as nat, row_reader())
                        is None);
                    lemma_read_items_stays_none(
                        bytes@,
                        at_rows as int,
                        (i + 1) as nat,
                        count as nat,
                        row_reader(),
                    );
                }
                return None;
            },
        }
        i += 1;
    }
    Some((grid, next))
}

} // verus!
