//! The world map: a grid of cells, each holding a short stack of layers.
//!
//! The upper left corner of the map is `(0, 0)`; `x` grows to the right and `y`
//! grows downwards.  The grid is stored row by row, so a view window is read as
//! a run of horizontal slices.

use crate::entity_system::{entity_with_id, EntityFactory, TEntityID};
use crate::ids::{lemma_first_index, lemma_no_index};
use crate::layout::{decode_grid, decoded, lemma_writable_is_sound, map_bytes, read_map, write_grid};
use crate::wire::{decode_array_of, decode_uint_within, write_array_header, write_uint};
use vstd::arithmetic::div_mod::lemma_fundamental_div_mod_converse;
use vstd::prelude::*;

verus! {

/// Widest map that can be created.
pub const MAX_MAP_WIDTH: u16 = 1024;

/// Tallest map that can be created.
pub const MAX_MAP_HEIGHT: u16 = 1024;

/// Number of layers a cell takes through [`MapCell::set`] and
/// [`MapCell::update`].
pub const MAX_LAYERS_PER_CELL: usize = 16;

/// The two sides of a map.
#[derive(Debug, PartialEq, Eq, Structural, Clone, Copy)]
pub enum Axis {
    Width,
    Height,
}

/// The bound that a request on a map went beyond.
#[derive(Debug, PartialEq, Eq, Structural, Clone, Copy)]
pub enum Bound {
    /// A column at or past the right edge of the map.
    MapX,
    /// A row at or past the bottom edge of the map.
    MapY,
    /// A row slice of no cells was asked for.
    EmptyRow,
    /// A row slice wider than the whole map was asked for.
    RowWidth,
    /// A row of cells would have been written past the right edge.
    RowEnd,
    /// The left edge of a view window lies past the right edge of the map.
    ViewLeft,
    /// The top edge of a view window lies past the bottom edge of the map.
    ViewTop,
    /// The right edge of a view window lies past the right edge of the map.
    ViewRight,
    /// The bottom edge of a view window lies past the bottom edge of the map.
    ViewBottom,
    /// A view window wider than the whole map was asked for.
    ViewWidth,
    /// A view window taller than the whole map was asked for.
    ViewHeight,
}

/// Why an operation on a map or on one of its cells was refused.
#[derive(Debug, PartialEq, Eq, Structural, Clone, Copy)]
pub enum MapError {
    /// The map to create would be larger than [`MAX_MAP_WIDTH`] by
    /// [`MAX_MAP_HEIGHT`].
    Dimension(Axis),
    /// A coordinate or a rectangle lies outside the grid.
    Bounds(Bound),
    /// The cell would hold more than [`MAX_LAYERS_PER_CELL`] layers.
    Capacity,
    /// The cell would hold two layers under one id.
    DuplicateLayer,
    /// There were no bytes to read a map from.
    EmptyInput,
    /// The bytes are not the encoding of a map.
    Malformed,
    /// A cell holds more layers than the byte encoding can count.
    Oversized,
    /// The operation is not offered by this library.
    Unsupported,
}

impl MapError {
    /// The text of [`MapError::message`].
    pub open spec fn text(self) -> Seq<char> {
        match self {
            MapError::Dimension(Axis::Width) => "Invalid Dimension: Width is greater than 1024"@,
            MapError::Dimension(Axis::Height) => "Invalid Dimension: Height is greater than 1024"@,
            MapError::Bounds(Bound::MapX) => "X position exceeds the width of the map"@,
            MapError::Bounds(Bound::MapY) => "Y position exceeds the height of the map"@,
            MapError::Bounds(Bound::EmptyRow) => "Width request was 0"@,
            MapError::Bounds(Bound::RowWidth) => "Width request exceeds the width of the map"@,
            MapError::Bounds(Bound::RowEnd) => "Row of cells exceeds the width of the map"@,
            MapError::Bounds(Bound::ViewLeft) => "ViewXTop exceeds max width dimension"@,
            MapError::Bounds(Bound::ViewTop) => "ViewYTop exceeds max height dimension"@,
            MapError::Bounds(Bound::ViewRight) => "ViewXBottom exceeds max width dimension"@,
            MapError::Bounds(Bound::ViewBottom) => "ViewYBottom exceeds max height dimension"@,
            MapError::Bounds(Bound::ViewWidth) => "ViewWidth exceeds max width dimension of this map"@,
            MapError::Bounds(Bound::ViewHeight) =>
                "ViewHeight exceeds max height dimension of this map"@,
            MapError::Capacity => "Cell cannot hold more than 16 layers"@,
            MapError::DuplicateLayer => "Cell cannot hold two layers under one id"@,
            MapError::EmptyInput => "bin_data buffer is 0 bytes"@,
            MapError::Malformed => "bin_data buffer does not hold a map"@,
            MapError::Oversized => "A cell holds more layers than can be written"@,
            MapError::Unsupported => "Operation is not supported"@,
        }
    }

    /// A sentence that describes the error, for logs and for people.
    pub fn message(&self) -> (s: String)
        ensures
            s@ == self.text(),
    {
        match self {
            MapError::Dimension(Axis::Width) =>
                "Invalid Dimension: Width is greater than 1024".to_owned(),
            MapError::Dimension(Axis::Height) =>
                "Invalid Dimension: Height is greater than 1024".to_owned(),
            MapError::Bounds(Bound::MapX) => "X position exceeds the width of the map".to_owned(),
            MapError::Bounds(Bound::MapY) => "Y position exceeds the height of the map".to_owned(),
            MapError::Bounds(Bound::EmptyRow) => "Width request was 0".to_owned(),
            MapError::Bounds(Bound::RowWidth) =>
                "Width request exceeds the width of the map".to_owned(),
            MapError::Bounds(Bound::RowEnd) => "Row of cells exceeds the width of the map".to_owned(),
            MapError::Bounds(Bound::ViewLeft) => "ViewXTop exceeds max width dimension".to_owned(),
            MapError::Bounds(Bound::ViewTop) => "ViewYTop exceeds max height dimension".to_owned(),
            MapError::Bounds(Bound::ViewRight) =>
                "ViewXBottom exceeds max width dimension".to_owned(),
            MapError::Bounds(Bound::ViewBottom) =>
                "ViewYBottom exceeds max height dimension".to_owned(),
            MapError::Bounds(Bound::ViewWidth) =>
                "ViewWidth exceeds max width dimension of this map".to_owned(),
            MapError::Bounds(Bound::ViewHeight) =>
                "ViewHeight exceeds max height dimension of this map".to_owned(),
            MapError::Capacity => "Cell cannot hold more than 16 layers".to_owned(),
            MapError::DuplicateLayer => "Cell cannot hold two layers under one id".to_owned(),
            MapError::EmptyInput => "bin_data buffer is 0 bytes".to_owned(),
            MapError::Malformed => "bin_data buffer does not hold a map".to_owned(),
            MapError::Oversized => "A cell holds more layers than can be written".to_owned(),
            MapError::Unsupported => "Operation is not supported".to_owned(),
        }
    }
}

/// One entity bound into a cell under a layer id.
///
/// The weight by which entities stack belongs to the entity, not to the layer:
/// the map only records who stands where.
#[derive(Debug, PartialEq, Eq, Structural, Clone, Copy)]
pub struct CellLayer {
    pub id: u8,
    pub entity: TEntityID,
}

impl CellLayer {
    /// The layer that binds the entity `new_val` under the id `new_id`.
    pub fn new(new_id: u8, new_val: TEntityID) -> (layer: CellLayer)
        ensures
            layer == (CellLayer { id: new_id, entity: new_val }),
    {
        CellLayer { id: new_id, entity: new_val }
    }
}

/// Selects the layers that are bound under another id than `id`.
pub open spec fn other_than(id: u8) -> spec_fn(CellLayer) -> bool {
    |layer: CellLayer| layer.id != id
}

/// Selects the layers that are bound under `id`.
pub open spec fn bound_under(id: u8) -> spec_fn(CellLayer) -> bool {
    |layer: CellLayer| layer.id == id
}

/// Whether binding an entity under `id` keeps the stack within
/// [`MAX_LAYERS_PER_CELL`].  A layer already bound under `id` makes room for
/// the new one.
pub open spec fn layer_fits(layers: Seq<CellLayer>, id: u8) -> bool {
    layers.filter(other_than(id)).len() < MAX_LAYERS_PER_CELL
}

/// The ids under which the layers are bound, in the order of the layers.
pub open spec fn layer_ids(layers: Seq<CellLayer>) -> Seq<u8> {
    layers.map_values(|layer: CellLayer| layer.id)
}

/// The stack after `entity` was bound under `id`.  Where a layer is bound
/// under `id`, the new layer stands where the first such layer stood, and
/// any further layer under `id` is gone; where none is, the new layer comes
/// last.  The other layers keep their places.
pub open spec fn layers_with(layers: Seq<CellLayer>, id: u8, entity: TEntityID) -> Seq<CellLayer> {
    let bound = CellLayer { id, entity };
    match layer_ids(layers).index_of_first(id) {
        Some(at) => layers.take(at).push(bound) + layers.skip(at + 1).filter(other_than(id)),
        None => layers.push(bound),
    }
}

/// The stack is one that a cell may hold: no more than
/// [`MAX_LAYERS_PER_CELL`] layers, and no two under one id.
pub open spec fn cell_stack(layers: Seq<CellLayer>) -> bool {
    layers.len() <= MAX_LAYERS_PER_CELL && distinct_layer_ids(layers)
}

/// The weight of the entity that `layer` names, as far as the registry can
/// tell: a busy registry (`None`) knows no entity.
pub open spec fn weight_of(entities: Option<&EntityFactory>, layer: CellLayer) -> Option<u8> {
    match entities {
        Some(registry) => match entity_with_id(registry@.entities, layer.entity) {
            Some(entity) => Some(entity.layer_weight),
            None => None,
        },
        None => None,
    }
}

/// The layer at place `at` is the first whose entity the registry does not
/// know.
pub open spec fn first_unknown(
    layers: Seq<CellLayer>,
    entities: Option<&EntityFactory>,
    at: int,
) -> bool {
    &&& 0 <= at < layers.len()
    &&& weight_of(entities, layers[at]) is None
    &&& forall|j: int| 0 <= j < at ==> weight_of(entities, #[trigger] layers[j]) is Some
}

/// The registry knows the entity of every layer, and the layer at place `at`
/// is the first among those whose entity is lightest.
pub open spec fn first_lightest(
    layers: Seq<CellLayer>,
    entities: Option<&EntityFactory>,
    at: int,
) -> bool {
    &&& 0 <= at < layers.len()
    &&& forall|j: int|
        0 <= j < layers.len() ==> {
            &&& weight_of(entities, #[trigger] layers[j]) is Some
            &&& weight_of(entities, layers[at])->Some_0 <= weight_of(entities, layers[j])->Some_0
            &&& j < at ==> weight_of(entities, layers[at])->Some_0 < weight_of(
                entities,
                layers[j],
            )->Some_0
        }
}

/// No two layers of the stack are bound under the same id.
pub open spec fn distinct_layer_ids(layers: Seq<CellLayer>) -> bool {
    forall|i: int, j: int|
        0 <= i < j < layers.len() ==> (#[trigger] layers[i]).id != (#[trigger] layers[j]).id
}

/// The entity that a cell shows: that of its first layer, if it has one.
pub open spec fn topmost(layers: Seq<CellLayer>) -> Option<TEntityID> {
    if layers.len() > 0 {
        Some(layers[0].entity)
    } else {
        None
    }
}

/// One cell of the map: a stack of layers, kept in the order in which they
/// were bound.
#[derive(Debug, PartialEq)]
pub struct MapCell {
    pub layers: Vec<CellLayer>,
}

impl View for MapCell {
    type V = Seq<CellLayer>;

    open spec fn view(&self) -> Seq<CellLayer> {
        self.layers@
    }
}

impl Clone for MapCell {
    fn clone(&self) -> (copy: Self)
        ensures
            copy@ == self@,
    {
        MapCell { layers: self.layers.clone() }
    }
}

impl MapCell {
    /// Binds `new_val` under `new_id`, in place of whatever was bound under
    /// that id before.  The new layer stands where the old one stood; under
    /// an id that the cell does not know it goes to the end of the stack.
    /// The other layers keep their places.  A cell that would then hold more
    /// than [`MAX_LAYERS_PER_CELL`] layers is left as it was.
    pub fn set(&mut self, new_id: u8, new_val: TEntityID) -> (r: Result<(), MapError>)
        ensures
            layer_fits(old(self)@, new_id) ==> r is Ok && final(self)@ == layers_with(
                old(self)@,
                new_id,
                new_val,
            ),
            !layer_fits(old(self)@, new_id) ==> r == Err::<(), MapError>(MapError::Capacity)
                && final(self)@ == old(self)@,
            cell_stack(old(self)@) ==> cell_stack(final(self)@),
            r is Ok && distinct_layer_ids(old(self)@) ==> final(self)@ == match layer_ids(
                old(self)@,
            ).index_of_first(new_id) {
                Some(at) => old(self)@.update(at, CellLayer { id: new_id, entity: new_val }),
                None => old(self)@.push(CellLayer { id: new_id, entity: new_val }),
            },
    {
        let bound = CellLayer::new(new_id, new_val);
        let mut new_layers: Vec<CellLayer> = Vec::new();
        let mut placed: bool = false;
        let ghost mut at: int = 0;
        let mut i: usize = 0;
        while i < self.layers.len()
            invariant
                i <= self.layers.len(),
                bound == (CellLayer { id: new_id, entity: new_val }),
                !placed ==> new_layers@ == self.layers@.take(i as int) && forall|j: int|
                    0 <= j < i ==> layer_ids(self.layers@)[j] != new_id,
                placed ==> 0 <= at < i && layer_ids(self.layers@).index_of_first(new_id) == Some(
                    at,
                ) && new_layers@ == self.layers@.take(at).push(bound) + self.layers@.subrange(
                    at + 1,
                    i as int,
                ).filter(other_than(new_id)),
            decreases self.layers.len() - i,
        {
            let layer = self.layers[i];
            proof {
                if placed {
                    let seen = self.layers@.subrange(at + 1, i as int);
                    assert(self.layers@.subrange(at + 1, i + 1) == seen.push(layer));
                    seen.lemma_filter_push(layer, other_than(new_id));
                } else {
                    assert(self.layers@.take(i + 1) == self.layers@.take(i as int).push(layer));
                }
            }
            if layer.id != new_id {
                new_layers.push(layer);
                assert(placed ==> new_layers@ == self.layers@.take(at).push(bound)
                    + self.layers@.subrange(at + 1, i + 1).filter(other_than(new_id)));
            } else if !placed {
                proof {
                    lemma_first_index(layer_ids(self.layers@), new_id, i as int);
                    at = i as int;
                    lemma_filter_keeps_all(
                        self.layers@.subrange(at + 1, i + 1),
                        other_than(new_id),
                    );
                }
                new_layers.push(bound);
                placed = true;
                assert(new_layers@ == self.layers@.take(at).push(bound) + self.layers@.subrange(
                    at + 1,
                    i + 1,
                ).filter(other_than(new_id)));
            }
            i += 1;
        }
        proof {
            lemma_set_binds_once(self.layers@, new_id, new_val);
            if placed {
                assert(self.layers@.subrange(at + 1, i as int) == self.layers@.skip(at + 1));
            } else {
                lemma_no_index(layer_ids(self.layers@), new_id);
                assert(self.layers@.take(i as int) == self.layers@);
            }
        }
        if !placed {
            new_layers.push(bound);
        }
        if new_layers.len() > MAX_LAYERS_PER_CELL {
            return Err(MapError::Capacity);
        }
        self.layers = new_layers;
        Ok(())
    }

    /// Replaces the whole stack by `layers`, if that is a stack that a cell
    /// may hold.  A stack of more than [`MAX_LAYERS_PER_CELL`] layers, or
    /// one with two layers under one id, is refused, and the cell is left
    /// as it was.
    pub fn update(&mut self, layers: Vec<CellLayer>) -> (r: Result<(), MapError>)
        ensures
            layers@.len() > MAX_LAYERS_PER_CELL ==> r == Err::<(), MapError>(MapError::Capacity)
                && final(self)@ == old(self)@,
            layers@.len() <= MAX_LAYERS_PER_CELL && !distinct_layer_ids(layers@) ==> r == Err::<
                (),
                MapError,
            >(MapError::DuplicateLayer) && final(self)@ == old(self)@,
            cell_stack(layers@) ==> r is Ok && final(self)@ == layers@,
    {
        if layers.len() > MAX_LAYERS_PER_CELL {
            return Err(MapError::Capacity);
        }
        if !MapCell::ids_differ(&layers) {
            return Err(MapError::DuplicateLayer);
        }
        self.layers = layers;
        Ok(())
    }

    /// Whether no two of the layers are bound under one id.
    fn ids_differ(layers: &Vec<CellLayer>) -> (differ: bool)
        ensures
            differ == distinct_layer_ids(layers@),
    {
        let mut j: usize = 0;
        while j < layers.len()
            invariant
                j <= layers@.len(),
                forall|a: int, b: int|
                    0 <= a < b < j ==> (#[trigger] layers@[a]).id != (#[trigger] layers@[b]).id,
            decreases layers@.len() - j,
        {
            let mut i: usize = 0;
            while i < j
                invariant
                    i <= j < layers@.len(),
                    forall|a: int| 0 <= a < i ==> (#[trigger] layers@[a]).id != layers@[j as int].id,
                decreases j - i,
            {
                if layers[i].id == layers[j].id {
                    return false;
                }
                i += 1;
            }
            j += 1;
        }
        true
    }

    /// The layer that shows where entities stack by weight: the first among
    /// the layers whose entity is lightest, and `None` in a cell without
    /// layers.  `entities` is the registry if it could be had without
    /// waiting, and `None` if it is busy.  An entity that the registry does
    /// not know is a fault of whoever keeps the map and the registry
    /// together: the id of the first such entity comes back as the error.
    pub fn lightest(&self, entities: Option<&EntityFactory>) -> (r: Result<
        Option<CellLayer>,
        TEntityID,
    >)
        requires
            entities matches Some(registry) ==> registry.wf(),
        ensures
            match r {
                Err(missing) => exists|at: int|
                    first_unknown(self@, entities, at) && missing == self@[at].entity,
                Ok(None) => self@.len() == 0,
                Ok(Some(layer)) => exists|at: int|
                    first_lightest(self@, entities, at) && layer == self@[at],
            },
    {
        if self.layers.len() == 0 {
            return Ok(None);
        }
        let mut best: usize = 0;
        let mut least: u8 = 0;
        let mut i: usize = 0;
        while i < self.layers.len()
            invariant
                i <= self.layers@.len(),
                self.layers@.len() > 0,
                entities matches Some(registry) ==> registry.wf(),
                i > 0 ==> best < i && weight_of(entities, self.layers@[best as int]) == Some(least),
                forall|j: int|
                    0 <= j < i ==> {
                        &&& weight_of(entities, #[trigger] self.layers@[j]) is Some
                        &&& least <= weight_of(entities, self.layers@[j])->Some_0
                        &&& j < best ==> least < weight_of(entities, self.layers@[j])->Some_0
                    },
            decreases self.layers@.len() - i,
        {
            let layer = self.layers[i];
            match crate::entity_system::try_get(entities, layer.entity) {
                Some(entity) => {
                    if i == 0 || entity.layer_weight < least {
                        best = i;
                        least = entity.layer_weight;
                    }
                },
                None => {
                    assert(first_unknown(self@, entities, i as int));
                    return Err(layer.entity);
                },
            }
            i += 1;
        }
        assert(first_lightest(self@, entities, best as int));
        Ok(Some(self.layers[best]))
    }

    /// A copy of the stack.
    pub fn get(&self) -> (layers: Vec<CellLayer>)
        ensures
            layers@ == self@,
    {
        self.layers.clone()
    }

    /// The layer that was bound first among those still in the cell.
    pub fn first(&self) -> (layer: Option<CellLayer>)
        ensures
            self@.len() == 0 ==> layer is None,
            self@.len() > 0 ==> layer == Some(self@.first()),
    {
        if self.layers.is_empty() {
            None
        } else {
            Some(self.layers[0])
        }
    }

    /// The layer that was bound last.
    pub fn last(&self) -> (layer: Option<CellLayer>)
        ensures
            self@.len() == 0 ==> layer is None,
            self@.len() > 0 ==> layer == Some(self@.last()),
    {
        if self.layers.is_empty() {
            None
        } else {
            Some(self.layers[self.layers.len() - 1])
        }
    }
}

/// What a [`WorldMap`] holds, as plain mathematics: the stacks of all cells, row by
/// row, the size of the grid and the upper left corner of the viewport.
pub struct MapView {
    pub cells: Seq<Seq<Seq<CellLayer>>>,
    pub width: u16,
    pub height: u16,
    pub origin_x: u16,
    pub origin_y: u16,
}

impl MapView {
    /// The grid has `height` rows of `width` cells, is no larger than the
    /// largest map, and the viewport starts on the map or on its edge.
    pub open spec fn wf(self) -> bool {
        &&& self.width <= MAX_MAP_WIDTH
        &&& self.height <= MAX_MAP_HEIGHT
        &&& self.origin_x <= self.width
        &&& self.origin_y <= self.height
        &&& self.cells.len() == self.height
        &&& forall|y: int| 0 <= y < self.cells.len() ==> (#[trigger] self.cells[y]).len() == self.width
    }

    /// The stack of the cell in column `x` of row `y`.
    pub open spec fn cell(self, x: int, y: int) -> Seq<CellLayer> {
        self.cells[y][x]
    }

    /// No stack is longer than a saved map can say: its length fits in four
    /// bytes.
    pub open spec fn writable(self) -> bool {
        forall|x: int, y: int|
            0 <= y < self.cells.len() && 0 <= x < self.cells[y].len() ==> (#[trigger] self.cell(
                x,
                y,
            )).len() <= u32::MAX
    }

    /// A map of the given size on which nothing stands.
    pub open spec fn blank(width: u16, height: u16) -> MapView {
        MapView {
            cells: Seq::new(
                height as nat,
                |y: int| Seq::new(width as nat, |x: int| Seq::<CellLayer>::empty()),
            ),
            width,
            height,
            origin_x: 0,
            origin_y: 0,
        }
    }

    /// The same map with `layers` as the stack of the cell at `(x, y)`.
    pub open spec fn with_cell(self, x: int, y: int, layers: Seq<CellLayer>) -> MapView {
        MapView { cells: self.cells.update(y, self.cells[y].update(x, layers)), ..self }
    }

    /// The same map with the cells of `row` written into row `y`, from column
    /// `x` on.
    pub open spec fn with_row(self, x: int, y: int, row: Seq<Seq<CellLayer>>) -> MapView {
        MapView {
            cells: self.cells.update(
                y,
                Seq::new(
                    self.cells[y].len(),
                    |c: int|
                        if x <= c < x + row.len() {
                            row[c - x]
                        } else {
                            self.cells[y][c]
                        },
                ),
            ),
            ..self
        }
    }

    /// The same map with the viewport moved to `(x, y)`.
    pub open spec fn with_origin(self, x: u16, y: u16) -> MapView {
        MapView { origin_x: x, origin_y: y, ..self }
    }

    /// The bound that a window of `width` by `height` cells with its upper
    /// left corner at `(x, y)` goes beyond, if it goes beyond any.  The left
    /// and the top edge are looked at first, then the right and the bottom
    /// edge, then the size of the window.
    pub open spec fn window_fault(self, x: int, y: int, width: int, height: int) -> Option<Bound> {
        if x > self.width {
            Some(Bound::ViewLeft)
        } else if y > self.height {
            Some(Bound::ViewTop)
        } else if x + width > self.width {
            Some(Bound::ViewRight)
        } else if y + height > self.height {
            Some(Bound::ViewBottom)
        } else if width > self.width {
            Some(Bound::ViewWidth)
        } else if height > self.height {
            Some(Bound::ViewHeight)
        } else {
            None
        }
    }

    /// The window of `width` by `height` cells with its upper left corner at
    /// `(x, y)`, flattened row after row: entry `i` shows the cell in column
    /// `i % width` of row `i / width` of the window.
    pub open spec fn window(self, x: int, y: int, width: int, height: int) -> Seq<
        Option<TEntityID>,
    > {
        Seq::new(
            (width * height) as nat,
            |i: int| topmost(self.cell(x + i % width, y + i / width)),
        )
    }
}

/// Cells of a row, each by its stack.
pub open spec fn row_view(row: Seq<MapCell>) -> Seq<Seq<CellLayer>> {
    Seq::new(row.len(), |x: int| row[x]@)
}

/// Rows of a grid, each by the stacks of its cells.
pub open spec fn grid_view(grid: Seq<Vec<MapCell>>) -> Seq<Seq<Seq<CellLayer>>> {
    Seq::new(grid.len(), |y: int| row_view(grid[y]@))
}

/// The world map.
#[derive(Debug, PartialEq)]
pub struct WorldMap {
    grid: Vec<Vec<MapCell>>,
    width: u16,
    height: u16,
    current_x: u16,
    current_y: u16,
}

impl View for WorldMap {
    type V = MapView;

    closed spec fn view(&self) -> MapView {
        MapView {
            cells: grid_view(self.grid@),
            width: self.width,
            height: self.height,
            origin_x: self.current_x,
            origin_y: self.current_y,
        }
    }
}

/// A copy of a row of cells.
fn copy_row(row: &Vec<MapCell>) -> (copy: Vec<MapCell>)
    ensures
        row_view(copy@) == row_view(row@),
{
    let mut copy: Vec<MapCell> = Vec::new();
    let mut x: usize = 0;
    while x < row.len()
        invariant
            x <= row@.len(),
            copy@.len() == x,
            forall|i: int| 0 <= i < x ==> (#[trigger] copy@[i])@ == row@[i]@,
        decreases row@.len() - x,
    {
        copy.push(row[x].clone());
        x += 1;
    }
    assert(row_view(copy@) =~= row_view(row@));
    copy
}

impl Clone for WorldMap {
    fn clone(&self) -> (copy: Self)
        ensures
            copy@ == self@,
    {
        let mut grid: Vec<Vec<MapCell>> = Vec::new();
        let mut y: usize = 0;
        while y < self.grid.len()
            invariant
                y <= self.grid@.len(),
                grid@.len() == y,
                forall|j: int| 0 <= j < y ==> row_view((#[trigger] grid@[j])@) == row_view(
                    self.grid@[j]@,
                ),
            decreases self.grid@.len() - y,
        {
            grid.push(copy_row(&self.grid[y]));
            y += 1;
        }
        assert(grid_view(grid@) =~= grid_view(self.grid@));
        WorldMap {
            grid,
            width: self.width,
            height: self.height,
            current_x: self.current_x,
            current_y: self.current_y,
        }
    }
}

impl WorldMap {
    /// What every map that this library hands out satisfies, and what its
    /// operations rely on.
    pub open spec fn wf(&self) -> bool {
        self@.wf()
    }

    /// The rows and cells of a well-formed map are there to be indexed.
    proof fn lemma_grid_shape(&self)
        requires
            self.wf(),
        ensures
            self.grid@.len() == self.height,
            forall|y: int| 0 <= y < self.height ==> (#[trigger] self.grid@[y])@.len() == self.width,
    {
        assert(self@.cells.len() == self.grid@.len());
        assert forall|y: int| 0 <= y < self.height implies (#[trigger] self.grid@[y])@.len()
            == self.width by {
            assert(self@.cells[y].len() == self.grid@[y]@.len());
        }
    }

    /// The number of columns of the map.
    pub fn get_width(&self) -> (width: u16)
        ensures
            width == self@.width,
    {
        self.width
    }

    /// The number of rows of the map.
    pub fn get_height(&self) -> (height: u16)
        ensures
            height == self@.height,
    {
        self.height
    }

    /// Makes a map of `width` by `height` cells on which nothing stands, with
    /// the viewport in the upper left corner.
    pub fn create(width: u16, height: u16) -> (r: Result<WorldMap, MapError>)
        ensures
            width > MAX_MAP_WIDTH ==> r == Err::<WorldMap, MapError>(MapError::Dimension(Axis::Width)),
            width <= MAX_MAP_WIDTH && height > MAX_MAP_HEIGHT ==> r == Err::<WorldMap, MapError>(
                MapError::Dimension(Axis::Height),
            ),
            width <= MAX_MAP_WIDTH && height <= MAX_MAP_HEIGHT ==> r is Ok && r->Ok_0.wf()
                && r->Ok_0@ == MapView::blank(width, height),
    {
        if width > MAX_MAP_WIDTH {
            return Err(MapError::Dimension(Axis::Width));
        }
        if height > MAX_MAP_HEIGHT {
            return Err(MapError::Dimension(Axis::Height));
        }
        let mut grid: Vec<Vec<MapCell>> = Vec::new();
        let mut y: u16 = 0;
        while y < height
            invariant
                y <= height,
                grid@.len() == y,
                forall|j: int|
                    0 <= j < y ==> row_view((#[trigger] grid@[j])@) == Seq::new(
                        width as nat,
                        |x: int| Seq::<CellLayer>::empty(),
                    ),
            decreases height - y,
        {
            let mut row: Vec<MapCell> = Vec::new();
            let mut x: u16 = 0;
            while x < width
                invariant
                    x <= width,
                    row@.len() == x,
                    forall|i: int| 0 <= i < x ==> (#[trigger] row@[i])@ == Seq::<CellLayer>::empty(),
                decreases width - x,
            {
                row.push(MapCell { layers: Vec::new() });
                x += 1;
            }
            assert(row_view(row@) == Seq::new(width as nat, |x: int| Seq::<CellLayer>::empty()));
            grid.push(row);
            y += 1;
        }
        let map = WorldMap { width, height, grid, current_x: 0, current_y: 0 };
        assert(map@.cells == MapView::blank(width, height).cells);
        Ok(map)
    }

    /// The upper left corner of the viewport.
    pub fn get_upper_left(&self) -> (origin: (u16, u16))
        ensures
            origin == (self@.origin_x, self@.origin_y),
    {
        (self.current_x, self.current_y)
    }

    /// Moves the viewport to `(x, y)`, or as far towards it as the map goes:
    /// a coordinate past the edge of the map becomes that edge.  Returns where
    /// the viewport now is.
    pub fn set_upper_left(&mut self, x: u16, y: u16) -> (origin: (u16, u16))
        requires
            old(self).wf(),
        ensures
            final(self).wf(),
            origin.0 == if x >= old(self)@.width {
                old(self)@.width
            } else {
                x
            },
            origin.1 == if y >= old(self)@.height {
                old(self)@.height
            } else {
                y
            },
            final(self)@ == old(self)@.with_origin(origin.0, origin.1),
    {
        let mut new_x: u16 = x;
        let mut new_y: u16 = y;
        if x >= self.width {
            new_x = self.width;
        }
        if y >= self.height {
            new_y = self.height;
        }
        self.current_x = new_x;
        self.current_y = new_y;
        (new_x, new_y)
    }

    /// A copy of the cell in column `map_x` of row `map_y`.
    pub fn get_cell(&self, map_x: u16, map_y: u16) -> (r: Result<MapCell, MapError>)
        requires
            self.wf(),
        ensures
            map_x >= self@.width ==> r == Err::<MapCell, MapError>(MapError::Bounds(Bound::MapX)),
            map_x < self@.width && map_y >= self@.height ==> r == Err::<MapCell, MapError>(
                MapError::Bounds(Bound::MapY),
            ),
            map_x < self@.width && map_y < self@.height ==> r is Ok && r->Ok_0@ == self@.cell(
                map_x as int,
                map_y as int,
            ),
    {
        if map_x >= self.width {
            return Err(MapError::Bounds(Bound::MapX));
        }
        if map_y >= self.height {
            return Err(MapError::Bounds(Bound::MapY));
        }
        proof {
            self.lemma_grid_shape();
        }
        Ok(self.grid[map_y as usize][map_x as usize].clone())
    }

    /// A copy of the cell that lies `view_offset_x` columns and
    /// `view_offset_y` rows from the upper left corner of the viewport.
    pub fn get_cell_view(&self, view_offset_x: u8, view_offset_y: u8) -> (r: Result<
        MapCell,
        MapError,
    >)
        requires
            self.wf(),
        ensures
            self@.origin_x + view_offset_x >= self@.width ==> r == Err::<MapCell, MapError>(
                MapError::Bounds(Bound::MapX),
            ),
            self@.origin_x + view_offset_x < self@.width && self@.origin_y + view_offset_y
                >= self@.height ==> r == Err::<MapCell, MapError>(MapError::Bounds(Bound::MapY)),
            self@.origin_x + view_offset_x < self@.width && self@.origin_y + view_offset_y
                < self@.height ==> r is Ok && r->Ok_0@ == self@.cell(
                self@.origin_x + view_offset_x,
                self@.origin_y + view_offset_y,
            ),
    {
        self.get_cell(self.current_x + view_offset_x as u16, self.current_y + view_offset_y as u16)
    }

    /// Copies of up to `width` cells of row `map_y`, from column `map_x` on:
    /// the slice ends where the row ends.
    pub fn get_cell_row(&self, map_x: u16, map_y: u16, width: u8) -> (r: Result<
        Vec<MapCell>,
        MapError,
    >)
        requires
            self.wf(),
        ensures
            match WorldMap::row_fault(self@, map_x, map_y, width) {
                Some(bound) => r == Err::<Vec<MapCell>, MapError>(MapError::Bounds(bound)),
                None => r is Ok && row_view(r->Ok_0@) == self@.cells[map_y as int].subrange(
                    map_x as int,
                    WorldMap::row_end(self@, map_x, width),
                ),
            },
    {
        if width == 0 {
            return Err(MapError::Bounds(Bound::EmptyRow));
        }
        if width as u16 > self.width {
            return Err(MapError::Bounds(Bound::RowWidth));
        }
        if map_y >= self.height {
            return Err(MapError::Bounds(Bound::MapY));
        }
        if map_x >= self.width {
            return Err(MapError::Bounds(Bound::MapX));
        }
        proof {
            self.lemma_grid_shape();
        }
        let row = &self.grid[map_y as usize];
        let end: u16 = if self.width - map_x < width as u16 {
            self.width
        } else {
            map_x + width as u16
        };
        let mut vslice: Vec<MapCell> = Vec::new();
        let mut x: u16 = map_x;
        while x < end
            invariant
                map_x <= x <= end <= row@.len(),
                vslice@.len() == x - map_x,
                forall|i: int| 0 <= i < vslice@.len() ==> (#[trigger] vslice@[i])@ == row@[map_x + i]@,
            decreases end - x,
        {
            vslice.push(row[x as usize].clone());
            x += 1;
        }
        assert(row_view(vslice@) =~= self@.cells[map_y as int].subrange(
            map_x as int,
            end as int,
        ));
        Ok(vslice)
    }

    /// The bound that a slice of `width` cells of row `y`, from column `x`
    /// on, goes beyond, if it goes beyond any.
    pub open spec fn row_fault(map: MapView, x: u16, y: u16, width: u8) -> Option<Bound> {
        if width == 0 {
            Some(Bound::EmptyRow)
        } else if width > map.width {
            Some(Bound::RowWidth)
        } else if y >= map.height {
            Some(Bound::MapY)
        } else if x >= map.width {
            Some(Bound::MapX)
        } else {
            None
        }
    }

    /// The column before which a slice of `width` cells from column `x` on
    /// ends.
    pub open spec fn row_end(map: MapView, x: u16, width: u8) -> int {
        if x + width > map.width {
            map.width as int
        } else {
            x + width
        }
    }

    /// Puts `cell` into column `map_x` of row `map_y`.
    pub fn set(&mut self, map_x: u16, map_y: u16, cell: MapCell) -> (r: Result<(), MapError>)
        requires
            old(self).wf(),
        ensures
            final(self).wf(),
            map_x >= old(self)@.width ==> r == Err::<(), MapError>(MapError::Bounds(Bound::MapX))
                && final(self)@ == old(self)@,
            map_x < old(self)@.width && map_y >= old(self)@.height ==> r == Err::<(), MapError>(
                MapError::Bounds(Bound::MapY),
            ) && final(self)@ == old(self)@,
            map_x < old(self)@.width && map_y < old(self)@.height ==> r is Ok && final(self)@
                == old(self)@.with_cell(map_x as int, map_y as int, cell@),
    {
        if map_x >= self.width {
            return Err(MapError::Bounds(Bound::MapX));
        }
        if map_y >= self.height {
            return Err(MapError::Bounds(Bound::MapY));
        }
        proof {
            self.lemma_grid_shape();
        }
        self.grid[map_y as usize][map_x as usize] = cell;
        assert(self@.cells =~~= old(self)@.with_cell(map_x as int, map_y as int, cell@).cells);
        Ok(())
    }

    /// Puts `cell` where [`WorldMap::get_cell_view`] with the same offsets reads.
    pub fn set_view(&mut self, view_offset_x: u8, view_offset_y: u8, cell: MapCell) -> (r: Result<
        (),
        MapError,
    >)
        requires
            old(self).wf(),
        ensures
            final(self).wf(),
            old(self)@.origin_x + view_offset_x >= old(self)@.width ==> r == Err::<(), MapError>(
                MapError::Bounds(Bound::MapX),
            ) && final(self)@ == old(self)@,
            old(self)@.origin_x + view_offset_x < old(self)@.width && old(self)@.origin_y
                + view_offset_y >= old(self)@.height ==> r == Err::<(), MapError>(
                MapError::Bounds(Bound::MapY),
            ) && final(self)@ == old(self)@,
            old(self)@.origin_x + view_offset_x < old(self)@.width && old(self)@.origin_y
                + view_offset_y < old(self)@.height ==> r is Ok && final(self)@ == old(self)@.with_cell(
                old(self)@.origin_x + view_offset_x,
                old(self)@.origin_y + view_offset_y,
                cell@,
            ),
    {
        let map_x: u16 = self.current_x + view_offset_x as u16;
        let map_y: u16 = self.current_y + view_offset_y as u16;
        self.set(map_x, map_y, cell)
    }

    /// Writes the cells of `row_slice` into row `map_y`, from column
    /// `x_offset` on.  A slice that does not fit leaves the map as it was.
    pub fn set_row(&mut self, map_y: u16, x_offset: u8, row_slice: Vec<MapCell>) -> (r: Result<
        (),
        MapError,
    >)
        requires
            old(self).wf(),
        ensures
            final(self).wf(),
            map_y >= old(self)@.height ==> r == Err::<(), MapError>(MapError::Bounds(Bound::MapY))
                && final(self)@ == old(self)@,
            map_y < old(self)@.height && x_offset + row_slice@.len() > old(self)@.width ==> r
                == Err::<(), MapError>(MapError::Bounds(Bound::RowEnd)) && final(self)@ == old(self)@,
            map_y < old(self)@.height && x_offset + row_slice@.len() <= old(self)@.width ==> r
                is Ok && final(self)@ == old(self)@.with_row(
                x_offset as int,
                map_y as int,
                row_view(row_slice@),
            ),
    {
        if map_y >= self.height {
            return Err(MapError::Bounds(Bound::MapY));
        }
        if row_slice.len() > self.width as usize || x_offset as usize > self.width as usize
            - row_slice.len() {
            return Err(MapError::Bounds(Bound::RowEnd));
        }
        let ghost before = self@;
        let ghost wanted = row_view(row_slice@);
        assert(before.cells =~~= before.with_row(
            x_offset as int,
            map_y as int,
            wanted.take(0),
        ).cells);
        let mut i: usize = 0;
        while i < row_slice.len()
            invariant
                i <= row_slice@.len(),
                self.wf(),
                before.wf(),
                map_y < before.height,
                x_offset + row_slice@.len() <= before.width,
                wanted == row_view(row_slice@),
                self@ == before.with_row(x_offset as int, map_y as int, wanted.take(i as int)),
            decreases row_slice@.len() - i,
        {
            let cell = row_slice[i].clone();
            let stored = self.set(x_offset as u16 + i as u16, map_y, cell);
            assert(stored is Ok);
            assert(self@.cells =~~= before.with_row(
                x_offset as int,
                map_y as int,
                wanted.take(i + 1),
            ).cells);
            i += 1;
        }
        assert(wanted.take(i as int) == wanted);
        Ok(())
    }

    /// What the viewport shows: the window of `view_width` by `view_height`
    /// cells whose upper left corner lies `view_offset_x` columns and
    /// `view_offset_y` rows from that of the viewport, flattened row after
    /// row.  Each entry is the entity of the first layer of its cell, or
    /// `None` for a cell without layers.  A window that does not lie on the
    /// map gives an error and no entries.
    pub fn build_view(
        &self,
        view_offset_x: u8,
        view_offset_y: u8,
        view_width: u8,
        view_height: u8,
    ) -> (r: Result<Vec<Option<TEntityID>>, MapError>)
        requires
            self.wf(),
        ensures
            match self@.window_fault(
                self@.origin_x + view_offset_x,
                self@.origin_y + view_offset_y,
                view_width as int,
                view_height as int,
            ) {
                Some(bound) => r == Err::<Vec<Option<TEntityID>>, MapError>(
                    MapError::Bounds(bound),
                ),
                None => r is Ok && r->Ok_0@ == self@.window(
                    self@.origin_x + view_offset_x,
                    self@.origin_y + view_offset_y,
                    view_width as int,
                    view_height as int,
                ),
            },
    {
        let map_x: u16 = self.current_x + view_offset_x as u16;
        let map_y: u16 = self.current_y + view_offset_y as u16;
        if map_x > self.width {
            return Err(MapError::Bounds(Bound::ViewLeft));
        }
        if map_y > self.height {
            return Err(MapError::Bounds(Bound::ViewTop));
        }
        if map_x as usize + view_width as usize > self.width as usize {
            return Err(MapError::Bounds(Bound::ViewRight));
        }
        if map_y as usize + view_height as usize > self.height as usize {
            return Err(MapError::Bounds(Bound::ViewBottom));
        }
        if view_width as u16 > self.width {
            return Err(MapError::Bounds(Bound::ViewWidth));
        }
        if view_height as u16 > self.height {
            return Err(MapError::Bounds(Bound::ViewHeight));
        }
        proof {
            self.lemma_grid_shape();
        }
        let ghost wanted = self@.window(
            map_x as int,
            map_y as int,
            view_width as int,
            view_height as int,
        );
        let mut flattened: Vec<Option<TEntityID>> = Vec::new();
        let mut h_index: u8 = 0;
        while h_index < view_height
            invariant
                self.wf(),
                h_index <= view_height,
                map_x + view_width <= self.width,
                map_y + view_height <= self.height,
                self.grid@.len() == self.height,
                forall|y: int|
                    0 <= y < self.height ==> (#[trigger] self.grid@[y])@.len() == self.width,
                wanted == self@.window(
                    map_x as int,
                    map_y as int,
                    view_width as int,
                    view_height as int,
                ),
                flattened@.len() == h_index * view_width,
                forall|i: int| 0 <= i < flattened@.len() ==> flattened@[i] == wanted[i],
            decreases view_height - h_index,
        {
            let row = &self.grid[(map_y + h_index as u16) as usize];
            let mut w_index: u8 = 0;
            while w_index < view_width
                invariant
                    self.wf(),
                    h_index < view_height,
                    w_index <= view_width,
                    map_x + view_width <= self.width,
                    map_y + view_height <= self.height,
                    row@ == self.grid@[map_y + h_index]@,
                    row@.len() == self.width,
                    wanted == self@.window(
                        map_x as int,
                        map_y as int,
                        view_width as int,
                        view_height as int,
                    ),
                    flattened@.len() == h_index * view_width + w_index,
                    forall|i: int| 0 <= i < flattened@.len() ==> flattened@[i] == wanted[i],
                decreases view_width - w_index,
            {
                let cell = &row[(map_x + w_index as u16) as usize];
                let mut top_most: Option<TEntityID> = None;
                if cell.layers.len() > 0 {
                    top_most = Some(cell.layers[0].entity);
                }
                proof {
                    let i = h_index * view_width + w_index;
                    lemma_fundamental_div_mod_converse(
                        i,
                        view_width as int,
                        h_index as int,
                        w_index as int,
                    );
                    assert(i < view_width * view_height) by (nonlinear_arith)
                        requires
                            i == h_index * view_width + w_index,
                            0 <= w_index < view_width,
                            0 <= h_index < view_height,
                    ;
                    assert(wanted[i] == topmost(
                        self@.cell(map_x + w_index, map_y + h_index),
                    ));
                    assert(self@.cell(map_x + w_index, map_y + h_index) == cell@);
                }
                flattened.push(top_most);
                w_index += 1;
            }
            assert((h_index + 1) * view_width == h_index * view_width + view_width)
                by (nonlinear_arith);
            h_index += 1;
        }
        assert(view_height * view_width == view_width * view_height) by (nonlinear_arith);
        assert(flattened@ =~= wanted);
        Ok(flattened)
    }

    /// The map as bytes, for whoever stores them: the whole map, with its
    /// grid, its size and its viewport, in the layout of [`map_bytes`].  A
    /// map with a stack too long to be written is refused.
    pub fn serialize_for_save(&self) -> (r: Result<Vec<u8>, MapError>)
        requires
            self.wf(),
        ensures
            self@.writable() ==> r is Ok && r->Ok_0@ == map_bytes(self@),
            !self@.writable() ==> r == Err::<Vec<u8>, MapError>(MapError::Oversized),
    {
        proof {
            self.lemma_grid_shape();
            lemma_writable_is_sound(self@);
        }
        let mut dest_buffer: Vec<u8> = Vec::new();
        write_array_header(&mut dest_buffer, 5);
        if !write_grid(&mut dest_buffer, &self.grid) {
            return Err(MapError::Oversized);
        }
        write_uint(&mut dest_buffer, self.width);
        write_uint(&mut dest_buffer, self.height);
        write_uint(&mut dest_buffer, self.current_x);
        write_uint(&mut dest_buffer, self.current_y);
        assert(dest_buffer@ =~= map_bytes(self@));
        Ok(dest_buffer)
    }

    /// The map that `bin_data` holds; see [`decoded`].  Bytes that do not
    /// hold a map are refused: bytes that end too early, hold something else
    /// than the arrays and numbers of a map, or describe a grid that is not
    /// as large as they say.
    pub fn deserialize_for_load(bin_data: &Vec<u8>) -> (r: Result<WorldMap, MapError>)
        ensures
            bin_data@.len() == 0 ==> r == Err::<WorldMap, MapError>(MapError::EmptyInput),
            bin_data@.len() > 0 ==> match decoded(bin_data@) {
                Some(map) => r is Ok && r->Ok_0.wf() && r->Ok_0@ == map,
                None => r == Err::<WorldMap, MapError>(MapError::Malformed),
            },
    {
        if bin_data.len() == 0 {
            return Err(MapError::EmptyInput);
        }
        let at_grid = match decode_array_of(bin_data, 0, 5) {
            Some(next) => next,
            None => {
                return Err(MapError::Malformed);
            },
        };
        let (grid, at_width) = match decode_grid(bin_data, at_grid) {
            Some(read) => read,
            None => {
                return Err(MapError::Malformed);
            },
        };
        let (width, at_height) = match decode_uint_within(bin_data, at_width, 65535) {
            Some(read) => read,
            None => {
                return Err(MapError::Malformed);
            },
        };
        let (height, at_x) = match decode_uint_within(bin_data, at_height, 65535) {
            Some(read) => read,
            None => {
                return Err(MapError::Malformed);
            },
        };
        let (current_x, at_y) = match decode_uint_within(bin_data, at_x, 65535) {
            Some(read) => read,
            None => {
                return Err(MapError::Malformed);
            },
        };
        let (current_y, _end) = match decode_uint_within(bin_data, at_y, 65535) {
            Some(read) => read,
            None => {
                return Err(MapError::Malformed);
            },
        };
        let shaped = WorldMap::has_shape(&grid, width, height);
        let map = WorldMap { grid, width, height, current_x, current_y };
        assert(read_map(bin_data@, 0) == Some((map@, _end as int)));
        if width > MAX_MAP_WIDTH || height > MAX_MAP_HEIGHT || current_x > width || current_y
            > height || !shaped {
            return Err(MapError::Malformed);
        }
        Ok(map)
    }

    /// Whether `grid` has `height` rows of `width` cells.
    fn has_shape(grid: &Vec<Vec<MapCell>>, width: u16, height: u16) -> (shaped: bool)
        ensures
            shaped == (grid_view(grid@).len() == height && forall|y: int|
                0 <= y < grid_view(grid@).len() ==> (#[trigger] grid_view(grid@)[y]).len()
                    == width),
    {
        if grid.len() != height as usize {
            return false;
        }
        let mut y: usize = 0;
        while y < grid.len()
            invariant
                y <= grid@.len(),
                forall|k: int| 0 <= k < y ==> (#[trigger] grid_view(grid@)[k]).len() == width,
            decreases grid@.len() - y,
        {
            if grid[y].len() != width as usize {
                assert(grid_view(grid@)[y as int].len() != width);
                return false;
            }
            assert(grid_view(grid@)[y as int].len() == width);
            y += 1;
        }
        true
    }

    /// Fills a map of the same size with generated terrain.  Not offered:
    /// always refused.
    pub fn auto_generate(&self) -> (r: Result<WorldMap, MapError>)
        ensures
            r == Err::<WorldMap, MapError>(MapError::Unsupported),
    {
        Err(MapError::Unsupported)
    }

    /// Reads a map from a file.  Not offered: always refused.  A map is read
    /// from bytes with [`WorldMap::deserialize_for_load`].
    pub fn load(_file_path: &String) -> (r: Result<WorldMap, MapError>)
        ensures
            r == Err::<WorldMap, MapError>(MapError::Unsupported),
    {
        Err(MapError::Unsupported)
    }

    /// Writes the map to a file.  Not offered: always refused.  A map is
    /// turned into bytes with [`WorldMap::serialize_for_save`].
    pub fn save(&self, _file_path: &String) -> (r: Result<WorldMap, MapError>)
        ensures
            r == Err::<WorldMap, MapError>(MapError::Unsupported),
    {
        Err(MapError::Unsupported)
    }
}

/// A filter that every item passes keeps the whole list.
proof fn lemma_filter_keeps_all<A>(items: Seq<A>, pred: spec_fn(A) -> bool)
    requires
        forall|i: int| 0 <= i < items.len() ==> pred(#[trigger] items[i]),
    ensures
        items.filter(pred) == items,
    decreases items.len(),
{
    if items.len() == 0 {
        reveal(Seq::filter);
    } else {
        let before = items.drop_last();
        assert forall|i: int| 0 <= i < before.len() implies pred(#[trigger] before[i]) by {
            assert(before[i] == items[i]);
        }
        lemma_filter_keeps_all(before, pred);
        before.lemma_filter_push(items.last(), pred);
        assert(before.push(items.last()) =~= items);
    }
}

/// A filter that no item passes keeps nothing.
proof fn lemma_filter_keeps_none<A>(items: Seq<A>, pred: spec_fn(A) -> bool)
    requires
        forall|i: int| 0 <= i < items.len() ==> !pred(#[trigger] items[i]),
    ensures
        items.filter(pred) == Seq::<A>::empty(),
    decreases items.len(),
{
    if items.len() == 0 {
        reveal(Seq::filter);
    } else {
        let before = items.drop_last();
        assert forall|i: int| 0 <= i < before.len() implies !pred(#[trigger] before[i]) by {
            assert(before[i] == items[i]);
        }
        lemma_filter_keeps_none(before, pred);
        before.lemma_filter_push(items.last(), pred);
        assert(before.push(items.last()) =~= items);
    }
}

/// After an entity was bound under `id`, exactly one layer is bound under
/// `id`, and it names that entity.  The other layers are those that were
/// there before, in their order, so the stack is one longer than they are.
/// In a stack without two layers under one id the new layer takes the place
/// of the old one and nothing else changes, and the stack stays such a
/// stack.
pub proof fn lemma_set_binds_once(layers: Seq<CellLayer>, id: u8, entity: TEntityID)
    ensures
        layers_with(layers, id, entity).filter(bound_under(id)) == seq![CellLayer { id, entity }],
        layers_with(layers, id, entity).filter(other_than(id)) == layers.filter(other_than(id)),
        layers_with(layers, id, entity).len() == layers.filter(other_than(id)).len() + 1,
        distinct_layer_ids(layers) ==> distinct_layer_ids(layers_with(layers, id, entity)),
        distinct_layer_ids(layers) ==> (layer_ids(layers).index_of_first(id) matches Some(at)
            ==> layers_with(layers, id, entity) == layers.update(at, CellLayer { id, entity })),
{
    let ids = layer_ids(layers);
    let bound = CellLayer { id, entity };
    let after = layers_with(layers, id, entity);
    ids.index_of_first_ensures(id);
    assert(Seq::<CellLayer>::empty().push(bound) =~= seq![bound]);
    match ids.index_of_first(id) {
        Some(at) => {
            let head = layers.take(at);
            let old = layers[at];
            let tail = layers.skip(at + 1);
            let kept = tail.filter(other_than(id));
            assert(old.id == ids[at]);
            assert forall|j: int| 0 <= j < head.len() implies other_than(id)(
                #[trigger] head[j],
            ) by {
                assert(ids[j] != id);
            }
            lemma_filter_keeps_all(head, other_than(id));
            lemma_filter_keeps_none(head, bound_under(id));
            assert forall|j: int| 0 <= j < kept.len() implies other_than(id)(
                #[trigger] kept[j],
            ) by {
                tail.lemma_filter_pred(other_than(id), j);
            }
            lemma_filter_keeps_all(kept, other_than(id));
            lemma_filter_keeps_none(kept, bound_under(id));
            head.lemma_filter_push(bound, other_than(id));
            head.lemma_filter_push(bound, bound_under(id));
            head.lemma_filter_push(old, other_than(id));
            Seq::filter_distributes_over_add(head.push(bound), kept, other_than(id));
            Seq::filter_distributes_over_add(head.push(bound), kept, bound_under(id));
            Seq::filter_distributes_over_add(head.push(old), tail, other_than(id));
            assert(layers =~= head.push(old) + tail);
            assert(after.filter(bound_under(id)) =~= seq![bound]);
            if distinct_layer_ids(layers) {
                assert forall|j: int| 0 <= j < tail.len() implies other_than(id)(
                    #[trigger] tail[j],
                ) by {
                    assert(layers[at].id != layers[at + 1 + j].id);
                }
                lemma_filter_keeps_all(tail, other_than(id));
                assert(after =~= layers.update(at, bound));
                assert forall|i: int, j: int| 0 <= i < j < after.len() implies (
                #[trigger] after[i]).id != (#[trigger] after[j]).id by {
                    assert(layers[i].id != layers[j].id);
                }
            }
        },
        None => {
            assert forall|j: int| 0 <= j < layers.len() implies other_than(id)(
                #[trigger] layers[j],
            ) by {
                assert(ids[j] != id);
            }
            lemma_filter_keeps_all(layers, other_than(id));
            lemma_filter_keeps_none(layers, bound_under(id));
            layers.lemma_filter_push(bound, other_than(id));
            layers.lemma_filter_push(bound, bound_under(id));
            if distinct_layer_ids(layers) {
                assert forall|i: int, j: int| 0 <= i < j < after.len() implies (
                #[trigger] after[i]).id != (#[trigger] after[j]).id by {
                    if j < layers.len() {
                        assert(layers[i].id != layers[j].id);
                    } else {
                        assert(ids[i] != id);
                    }
                }
            }
        },
    }
}

/// Binding under the same id twice leaves the cell as binding the second
/// entity alone would: one layer under that id, where the first such layer
/// stood, and the last entity wins.  If the first binding found room, so
/// does the second.
pub proof fn lemma_set_twice(layers: Seq<CellLayer>, id: u8, first: TEntityID, second: TEntityID)
    ensures
        layers_with(layers_with(layers, id, first), id, second) == layers_with(layers, id, second),
        layers_with(layers_with(layers, id, first), id, second).filter(bound_under(id))
            == seq![CellLayer { id, entity: second }],
        layer_fits(layers, id) == layer_fits(layers_with(layers, id, first), id),
{
    lemma_set_binds_once(layers, id, first);
    lemma_set_binds_once(layers, id, second);
    let ids = layer_ids(layers);
    let once = layers_with(layers, id, first);
    let bound = CellLayer { id, entity: first };
    ids.index_of_first_ensures(id);
    match ids.index_of_first(id) {
        Some(at) => {
            let head = layers.take(at);
            let kept = layers.skip(at + 1).filter(other_than(id));
            assert forall|j: int| 0 <= j < at implies layer_ids(once)[j] != id by {
                assert(once[j] == head[j]);
                assert(ids[j] != id);
            }
            assert(once[at] == bound);
            lemma_first_index(layer_ids(once), id, at);
            assert(once.take(at) =~= head);
            assert(once.skip(at + 1) =~= kept);
            assert forall|j: int| 0 <= j < kept.len() implies other_than(id)(
                #[trigger] kept[j],
            ) by {
                layers.skip(at + 1).lemma_filter_pred(other_than(id), j);
            }
            lemma_filter_keeps_all(kept, other_than(id));
        },
        None => {
            let at = layers.len() as int;
            assert forall|j: int| 0 <= j < at implies layer_ids(once)[j] != id by {
                assert(once[j] == layers[j]);
                assert(ids[j] != id);
            }
            assert(once[at] == bound);
            lemma_first_index(layer_ids(once), id, at);
            assert(once.take(at) =~= layers);
            assert(once.skip(at + 1) =~= Seq::<CellLayer>::empty());
            lemma_filter_keeps_all(once.skip(at + 1), other_than(id));
            assert(layers_with(once, id, second) =~= layers.push(
                CellLayer { id, entity: second },
            ));
        },
    }
}

/// A full cell has no room for a layer under an id that it does not know:
/// [`MapCell::set`] then reports [`MapError::Capacity`] and leaves the cell
/// with the layers it had.
pub proof fn lemma_full_cell_has_no_room(layers: Seq<CellLayer>, id: u8)
    requires
        layers.len() >= MAX_LAYERS_PER_CELL,
        forall|i: int| 0 <= i < layers.len() ==> (#[trigger] layers[i]).id != id,
    ensures
        !layer_fits(layers, id),
{
    lemma_filter_keeps_all(layers, other_than(id));
}

/// A cell that was put into the map is the cell that is read from there, and
/// every other cell is what it was.
pub proof fn lemma_set_then_get(
    map: MapView,
    x: int,
    y: int,
    layers: Seq<CellLayer>,
    other_x: int,
    other_y: int,
)
    requires
        map.wf(),
        0 <= x < map.width,
        0 <= y < map.height,
        0 <= other_x < map.width,
        0 <= other_y < map.height,
    ensures
        map.with_cell(x, y, layers).wf(),
        map.with_cell(x, y, layers).cell(x, y) == layers,
        (other_x != x || other_y != y) ==> map.with_cell(x, y, layers).cell(other_x, other_y)
            == map.cell(other_x, other_y),
{
}

/// A window is as many entries long as it has cells, and the entry of the
/// cell in column `column` of row `row` of the window comes after those of
/// all rows above it and of the cells to its left in its row.
pub proof fn lemma_window_row_major(
    map: MapView,
    x: int,
    y: int,
    width: int,
    height: int,
    column: int,
    row: int,
)
    requires
        0 <= column < width,
        0 <= row < height,
    ensures
        map.window(x, y, width, height).len() == width * height,
        0 <= row * width + column < width * height,
        map.window(x, y, width, height)[row * width + column] == topmost(
            map.cell(x + column, y + row),
        ),
{
    let i = row * width + column;
    assert(0 <= i < width * height) by (nonlinear_arith)
        requires
            i == row * width + column,
            0 <= column < width,
            0 <= row < height,
    ;
    lemma_fundamental_div_mod_converse(i, width, row, column);
}

/// A window that reaches past the right or the bottom edge of the map is
/// refused: [`WorldMap::build_view`] then returns an error, and with it no
/// entry at all.
pub proof fn lemma_window_past_edge_is_refused(
    map: MapView,
    x: int,
    y: int,
    width: int,
    height: int,
)
    requires
        x + width > map.width || y + height > map.height,
        0 <= width,
        0 <= height,
    ensures
        map.window_fault(x, y, width, height) is Some,
{
}

/// A window that is wider or taller than the map also reaches past an edge
/// of the map, and the edges are looked at first: the size of a window as
/// such is never what a request is refused for.
pub proof fn lemma_window_size_is_never_the_fault(
    map: MapView,
    x: int,
    y: int,
    width: int,
    height: int,
)
    requires
        0 <= x,
        0 <= y,
    ensures
        map.window_fault(x, y, width, height) != Some(Bound::ViewWidth),
        map.window_fault(x, y, width, height) != Some(Bound::ViewHeight),
{
}

} // verus!
