use vstd::prelude::*;

use crate::component::ComponentType;
use crate::component::EcsComponent;
use crate::keys::EntityIndex;

verus! {

/// A vector of `capacity` copies of `template`.
pub fn boxed_slice<T: Copy>(template: T, capacity: usize) -> (r: Vec<T>)
    ensures
        r@ == Seq::new(capacity as nat, |i: int| template),
{
    let mut r: Vec<T> = Vec::new();
    let mut i: usize = 0;
    while i < capacity
        invariant
            i <= capacity,
            r@ == Seq::new(i as nat, |k: int| template),
        decreases capacity - i,
    {
        r.push(template);
        i = i + 1;
    }
    r
}

/// Doubles the length of `slice`; the new half holds `default`.
pub fn expand_slice<T: Copy>(slice: &mut Vec<T>, default: T)
    requires
        old(slice)@.len() * 2 <= usize::MAX,
    ensures
        final(slice)@ == old(slice)@ + Seq::new(old(slice)@.len(), |i: int| default),
{
    let len = slice.len();
    let mut i: usize = 0;
    while i < len
        invariant
            i <= len,
            len == old(slice)@.len(),
            slice@ == old(slice)@ + Seq::new(i as nat, |k: int| default),
        decreases len - i,
    {
        slice.push(default);
        i = i + 1;
    }
}

/// Position of cell `col` of row `row` in a table of rows of `width` cells.
pub open spec fn cell_index(row: int, width: int, col: int) -> int {
    row * width + col
}

proof fn lemma_cell_in_table(row: int, rows: int, width: int, col: int)
    requires
        0 <= row < rows,
        0 <= col < width,
    ensures
        0 <= cell_index(row, width, col) < rows * width,
        cell_index(row, width, col) + (width - col) <= rows * width,
{
    assert(row * width + col < rows * width) by (nonlinear_arith)
        requires
            0 <= row < rows,
            0 <= col < width,
    ;
    assert(row * width + width <= rows * width) by (nonlinear_arith)
        requires
            0 <= row < rows,
            0 <= col < width,
    ;
    assert(0 <= row * width) by (nonlinear_arith)
        requires
            0 <= row,
            0 <= col < width,
    ;
}

proof fn lemma_row_bounds(row: int, rows: int, width: int, col: int)
    requires
        0 <= row < rows,
        0 <= col <= width,
    ensures
        0 <= row * width,
        0 <= cell_index(row, width, col) <= rows * width,
        width <= rows * width,
{
    assert(0 <= row * width) by (nonlinear_arith)
        requires
            0 <= row,
            0 <= col <= width,
    ;
    assert(row * width + col <= rows * width) by (nonlinear_arith)
        requires
            0 <= row < rows,
            0 <= col <= width,
    ;
    assert(width <= rows * width) by (nonlinear_arith)
        requires
            0 <= row < rows,
            0 <= width,
    ;
}

proof fn lemma_cell_injective(r1: int, c1: int, r2: int, c2: int, width: int)
    requires
        0 <= c1 < width,
        0 <= c2 < width,
        0 <= r1,
        0 <= r2,
        cell_index(r1, width, c1) == cell_index(r2, width, c2),
    ensures
        r1 == r2,
        c1 == c2,
{
    if r1 < r2 {
        assert(r1 * width + width <= r2 * width) by (nonlinear_arith)
            requires
                r1 < r2,
                0 <= c1 < width,
        ;
    } else if r2 < r1 {
        assert(r2 * width + width <= r1 * width) by (nonlinear_arith)
            requires
                r2 < r1,
                0 <= c2 < width,
        ;
    }
}

/// The component type that fills unused cells.
struct NoneComponent;

impl EcsComponent for NoneComponent {
    const INDEX: u16 = 0;

    const NAME: &'static str = "::reactex_core::entity_component_index::NullType";
}

/// The component types attached to each entity, as one table with a row of
/// `width` cells per entity slot; the first `count` cells of a row are used.
pub struct EntityComponentIndex {
    component_count: Vec<u16>,
    component_types: Vec<ComponentType>,
    component_types_width: usize,
}

/// The state of a row after the removal pass of `delete_component_type`:
/// the cells of the row (those used when the pass started) and the count.
pub open spec fn delete_pass(
    cells: Seq<ComponentType>,
    count: int,
    i: int,
    component_type: ComponentType,
) -> (Seq<ComponentType>, int)
    decreases cells.len() - i,
{
    if i < 0 || i >= cells.len() {
        (cells, count)
    } else if cells[i] != component_type {
        delete_pass(cells, count, i + 1, component_type)
    } else {
        delete_pass(cells.update(i, cells[count - 1]), count - 1, i + 1, component_type)
    }
}

/// The row left by removing `component_type` from `row`.
pub open spec fn row_without(row: Seq<ComponentType>, component_type: ComponentType) -> Seq<
    ComponentType,
> {
    let (cells, count) = delete_pass(row, row.len() as int, 0, component_type);
    cells.take(count)
}

proof fn lemma_delete_pass_skips(
    cells: Seq<ComponentType>,
    count: int,
    i: int,
    component_type: ComponentType,
)
    requires
        0 <= i,
        forall|j: int| i <= j < cells.len() ==> cells[j] != component_type,
    ensures
        delete_pass(cells, count, i, component_type) == (cells, count),
    decreases cells.len() - i,
{
    if i < cells.len() {
        lemma_delete_pass_skips(cells, count, i + 1, component_type);
    }
}

proof fn lemma_delete_pass_unique(
    cells: Seq<ComponentType>,
    k: int,
    i: int,
    component_type: ComponentType,
)
    requires
        0 <= i <= k < cells.len(),
        cells[k] == component_type,
        forall|j: int| 0 <= j < cells.len() && j != k ==> cells[j] != component_type,
    ensures
        delete_pass(cells, cells.len() as int, i, component_type) == (
            cells.update(k, cells[cells.len() - 1]),
            cells.len() - 1,
        ),
    decreases cells.len() - i,
{
    if i < k {
        lemma_delete_pass_unique(cells, k, i + 1, component_type);
    } else {
        let next = cells.update(k, cells[cells.len() - 1]);
        assert forall|j: int| k + 1 <= j < next.len() implies next[j] != component_type by {
            assert(next[j] == cells[j]);
        }
        lemma_delete_pass_skips(next, cells.len() - 1, k + 1, component_type);
    }
}

/// Removing a type that a row does not hold leaves the row as it is; removing
/// one that it holds once moves the last type into its place.
pub proof fn lemma_row_without(row: Seq<ComponentType>, component_type: ComponentType)
    ensures
        !row.contains(component_type) ==> row_without(row, component_type) == row,
        forall|k: int|
            0 <= k < row.len() && row[k] == component_type && (forall|j: int|
                0 <= j < row.len() && j != k ==> row[j] != component_type) ==> row_without(
                row,
                component_type,
            ) == row.update(k, row.last()).drop_last(),
{
    if !row.contains(component_type) {
        assert forall|j: int| 0 <= j < row.len() implies row[j] != component_type by {
            if row[j] == component_type {
                assert(row.contains(component_type));
            }
        }
        lemma_delete_pass_skips(row, row.len() as int, 0, component_type);
        assert(row.take(row.len() as int) == row);
    }
    assert forall|k: int|
        0 <= k < row.len() && row[k] == component_type && (forall|j: int|
            0 <= j < row.len() && j != k ==> row[j] != component_type) implies row_without(
        row,
        component_type,
    ) == row.update(k, row.last()).drop_last() by {
        lemma_delete_pass_unique(row, k, 0, component_type);
        assert(row.update(k, row.last()).take(row.len() - 1) == row.update(
            k,
            row.last(),
        ).drop_last());
    }
}

impl View for EntityComponentIndex {
    type V = Seq<Seq<ComponentType>>;

    closed spec fn view(&self) -> Seq<Seq<ComponentType>> {
        Seq::new(self.component_count@.len(), |e: int| self.row(e))
    }
}

impl EntityComponentIndex {
    closed spec fn row(&self, e: int) -> Seq<ComponentType> {
        let w = self.component_types_width as int;
        self.component_types@.subrange(
            cell_index(e, w, 0),
            cell_index(e, w, self.component_count@[e] as int),
        )
    }

    /// Cells per row.
    pub closed spec fn width(&self) -> nat {
        self.component_types_width as nat
    }

    /// Number of cells in the table.
    pub closed spec fn table_len(&self) -> nat {
        self.component_types@.len()
    }

    pub closed spec fn wf(&self) -> bool {
        &&& self.component_types@.len() == self.component_count@.len()
            * self.component_types_width
        &&& self.component_types@.len() <= usize::MAX
        &&& forall|e: int|
            0 <= e < self.component_count@.len() ==> #[trigger] self.component_count@[e]
                <= self.component_types_width
    }

    pub fn new(initial_capacity: usize, initial_component_types_width: usize) -> (r: Self)
        requires
            initial_capacity * initial_component_types_width <= usize::MAX,
        ensures
            r.wf(),
            r@ == Seq::new(initial_capacity as nat, |e: int| Seq::<ComponentType>::empty()),
            r.width() == initial_component_types_width,
            r.table_len() == initial_capacity * initial_component_types_width,
    {
        let r = EntityComponentIndex {
            component_count: boxed_slice(0u16, initial_capacity),
            component_types: boxed_slice(
                NoneComponent::get_component_type(),
                initial_capacity * initial_component_types_width,
            ),
            component_types_width: initial_component_types_width,
        };
        assert forall|e: int| 0 <= e < initial_capacity implies #[trigger] r@[e]
            == Seq::<ComponentType>::empty() by {
            assert(r.component_count@[e] == 0);
            lemma_row_bounds(e, initial_capacity as int, initial_component_types_width as int, 0);
            assert(r.row(e).len() == 0);
        }
        assert(r@ == Seq::new(initial_capacity as nat, |e: int| Seq::<ComponentType>::empty()));
        r
    }

    /// The table has one row of `width` cells per slot.
    pub proof fn lemma_table_len(&self)
        requires
            self.wf(),
        ensures
            self.table_len() == self@.len() * self.width(),
    {
    }

    /// Number of cells of the table.
    pub fn table_len_exec(&self) -> (r: usize)
        ensures
            r == self.table_len(),
    {
        self.component_types.len()
    }

    /// Whether `add_component_type` can append to the row of `entity` within
    /// the limits of the machine (row counts are `u16`).
    pub fn can_add_component_type(&self, entity: EntityIndex) -> (r: bool)
        requires
            self.wf(),
            (entity.index as int) < self@.len(),
        ensures
            r == (self.width() > 0 && self@[entity.index as int].len() < u16::MAX && (self@[entity.index as int].len()
                < self.width() || self.table_len() * 2 <= usize::MAX)),
    {
        let e = entity.index as usize;
        let count = self.component_count[e] as usize;
        proof {
            lemma_row_bounds(
                e as int,
                self.component_count@.len() as int,
                self.component_types_width as int,
                count as int,
            );
            assert(self@[e as int] == self.row(e as int));
        }
        self.component_types_width > 0 && count < 0xffff && (count < self.component_types_width
            || self.component_types.len() <= usize::MAX / 2)
    }

    /// Appends `component_type` to the row of `entity`; doubles the row width
    /// when the row is full.
    pub fn add_component_type(&mut self, entity: EntityIndex, component_type: ComponentType)
        requires
            old(self).wf(),
            (entity.index as int) < old(self)@.len(),
            old(self).width() > 0,
            old(self)@[entity.index as int].len() < u16::MAX,
            old(self)@[entity.index as int].len() < old(self).width() || old(self).table_len() * 2
                <= usize::MAX,
        ensures
            final(self).wf(),
            final(self)@ == old(self)@.update(
                entity.index as int,
                old(self)@[entity.index as int].push(component_type),
            ),
            final(self).width() == (if old(self)@[entity.index as int].len() < old(self).width() {
                old(self).width()
            } else {
                old(self).width() * 2
            }),
            final(self).table_len() == final(self)@.len() * final(self).width(),
    {
        let e = entity.index as usize;
        let ghost old_view = self@;
        let component_count_before = self.component_count[e] as usize;
        proof {
            lemma_row_bounds(
                e as int,
                self.component_count@.len() as int,
                self.component_types_width as int,
                component_count_before as int,
            );
        }
        if component_count_before >= self.component_types_width {
            self.widen();
        }
        let w = self.component_types_width;
        let offset = self.component_count[e];
        proof {
            lemma_cell_in_table(e as int, self.component_count@.len() as int, w as int, offset as int);
        }
        let ghost before = self.component_types@;
        let ghost mid = self@;
        proof {
            assert(mid == old_view);
            assert forall|e2: int| 0 <= e2 < self.component_count@.len() implies #[trigger] mid[e2]
                == before.subrange(
                cell_index(e2, w as int, 0),
                cell_index(e2, w as int, self.component_count@[e2] as int),
            ) by {
                assert(mid[e2] == self.row(e2));
            }
        }
        self.component_types.set(e * w + offset as usize, component_type);
        self.component_count.set(e, offset + 1);
        proof {
            assert forall|e2: int| 0 <= e2 < self.component_count@.len() implies #[trigger] self.component_count@[e2]
                <= self.component_types_width by {
                if e2 != e {
                    assert(self.component_count@[e2] == old(self).component_count@[e2]);
                }
            }
            assert(self.row(e as int) == old_view[e as int].push(component_type)) by {
                lemma_cell_in_table(e as int, self.component_count@.len() as int, w as int, 0);
            }
            assert forall|e2: int| 0 <= e2 < self.component_count@.len() && e2 != e implies self.row(e2)
                == old_view[e2] by {
                let c2 = self.component_count@[e2] as int;
                lemma_row_bounds(e2, self.component_count@.len() as int, w as int, c2);
                assert(mid[e2] == before.subrange(cell_index(e2, w as int, 0), cell_index(e2, w as int, c2)));
                assert forall|j: int| 0 <= j < c2 implies #[trigger] self.component_types@[cell_index(e2, w as int, j)]
                    == before[cell_index(e2, w as int, j)] by {
                    lemma_cell_in_table(e2, self.component_count@.len() as int, w as int, j);
                    if cell_index(e2, w as int, j) == cell_index(e as int, w as int, offset as int) {
                        lemma_cell_injective(e2, j, e as int, offset as int, w as int);
                    }
                }
                assert forall|j: int| 0 <= j < c2 implies #[trigger] self.row(e2)[j] == old_view[e2][j] by {
                    assert(self.row(e2)[j] == self.component_types@[cell_index(e2, w as int, j)]);
                    assert(old_view[e2][j] == before[cell_index(e2, w as int, j)]);
                }
                assert(self.row(e2) =~= old_view[e2]);
            }
            assert(self@ =~= old_view.update(e as int, old_view[e as int].push(component_type)));
            assert(self.component_types@.len() == self.component_count@.len() * self.component_types_width);
        }
    }

    /// Doubles the row width, keeping every row.
    fn widen(&mut self)
        requires
            old(self).wf(),
            old(self).width() > 0,
            old(self).table_len() * 2 <= usize::MAX,
            old(self)@.len() > 0,
        ensures
            final(self).wf(),
            final(self)@ == old(self)@,
            final(self).width() == old(self).width() * 2,
            final(self).component_count@ == old(self).component_count@,
    {
        let rows = self.component_count.len();
        let row_size_before = self.component_types_width;
        let mut new_table = boxed_slice(
            NoneComponent::get_component_type(),
            self.component_types.len() * 2,
        );
        proof {
            lemma_row_bounds(0, rows as int, row_size_before as int, 0);
        }
        let row_size_after = row_size_before * 2;
        proof {
            assert(rows * row_size_after == self.component_types@.len() * 2) by (nonlinear_arith)
                requires
                    self.component_types@.len() == rows * row_size_before,
                    row_size_after == row_size_before * 2,
            ;
        }
        let mut i: usize = 0;
        while i < rows
            invariant
                i <= rows,
                rows == self.component_count@.len(),
                row_size_before == self.component_types_width,
                row_size_before > 0,
                row_size_after == row_size_before * 2,
                self.wf(),
                self == old(self),
                new_table@.len() == rows * row_size_after,
                rows * row_size_after <= usize::MAX,
                forall|r: int, c: int|
                    0 <= r < i && 0 <= c < row_size_before ==> #[trigger] new_table@[cell_index(
                        r,
                        row_size_after as int,
                        c,
                    )] == self.component_types@[cell_index(r, row_size_before as int, c)],
            decreases rows - i,
        {
            let mut j: usize = 0;
            while j < row_size_before
                invariant
                    i < rows,
                    j <= row_size_before,
                    rows == self.component_count@.len(),
                    row_size_before == self.component_types_width,
                    row_size_before > 0,
                    row_size_after == row_size_before * 2,
                    self.wf(),
                    self == old(self),
                    new_table@.len() == rows * row_size_after,
                    rows * row_size_after <= usize::MAX,
                    forall|r: int, c: int|
                        (0 <= r < i && 0 <= c < row_size_before) || (r == i && 0 <= c < j)
                            ==> #[trigger] new_table@[cell_index(r, row_size_after as int, c)]
                            == self.component_types@[cell_index(r, row_size_before as int, c)],
                decreases row_size_before - j,
            {
                proof {
                    lemma_cell_in_table(i as int, rows as int, row_size_after as int, j as int);
                    lemma_cell_in_table(i as int, rows as int, row_size_before as int, j as int);
                }
                let ghost before = new_table@;
                let value = self.component_types[i * row_size_before + j];
                new_table.set(j + i * row_size_after, value);
                proof {
                    assert forall|r: int, c: int|
                        (0 <= r < i && 0 <= c < row_size_before) || (r == i && 0 <= c < j + 1)
                            implies #[trigger] new_table@[cell_index(r, row_size_after as int, c)]
                            == self.component_types@[cell_index(r, row_size_before as int, c)] by {
                        if r != i || c != j {
                            lemma_cell_in_table(r, rows as int, row_size_after as int, c);
                            if cell_index(r, row_size_after as int, c) == cell_index(
                                i as int,
                                row_size_after as int,
                                j as int,
                            ) {
                                lemma_cell_injective(
                                    r,
                                    c,
                                    i as int,
                                    j as int,
                                    row_size_after as int,
                                );
                            }
                            assert(new_table@[cell_index(r, row_size_after as int, c)]
                                == before[cell_index(r, row_size_after as int, c)]);
                        }
                    }
                }
                j = j + 1;
            }
            i = i + 1;
        }
        let ghost old_types = self.component_types@;
        self.component_types = new_table;
        self.component_types_width = row_size_after;
        proof {
            assert forall|e: int| 0 <= e < rows implies #[trigger] self.row(e) == old(self).row(e) by {
                let c = self.component_count@[e] as int;
                lemma_cell_in_table(e, rows as int, row_size_after as int, 0);
                lemma_cell_in_table(e, rows as int, row_size_before as int, 0);
                assert forall|k: int| 0 <= k < c implies #[trigger] self.row(e)[k] == old(self).row(e)[k] by {
                    lemma_cell_in_table(e, rows as int, row_size_after as int, k);
                    lemma_cell_in_table(e, rows as int, row_size_before as int, k);
                    assert(self.component_types@[cell_index(e, row_size_after as int, k)]
                        == old_types[cell_index(e, row_size_before as int, k)]);
                }
                assert(self.row(e) =~= old(self).row(e));
            }
            assert(self@ =~= old(self)@);
            assert forall|e: int| 0 <= e < self.component_count@.len() implies #[trigger] self.component_count@[e]
                <= self.component_types_width by {
                assert(self.component_count@[e] <= row_size_before);
            }
        }
    }

    /// Removes `component_type` from the row of `entity`: each matching cell
    /// among the used ones takes the value of the last used cell.
    pub fn delete_component_type(&mut self, entity: EntityIndex, component_type: ComponentType)
        requires
            old(self).wf(),
            (entity.index as int) < old(self)@.len(),
        ensures
            final(self).wf(),
            final(self).width() == old(self).width(),
            final(self).table_len() == old(self).table_len(),
            final(self)@ == old(self)@.update(
                entity.index as int,
                row_without(old(self)@[entity.index as int], component_type),
            ),
    {
        let entity_index = entity.index as usize;
        let w = self.component_types_width;
        let n = self.component_count[entity_index] as usize;
        let ghost row0 = self@[entity_index as int];
        let ghost rows = self.component_count@.len() as int;
        proof {
            lemma_row_bounds(entity_index as int, rows, w as int, n as int);
        }
        let mut i: usize = 0;
        while i < n
            invariant
                i <= n,
                n <= w,
                entity_index < rows,
                rows == self.component_count@.len(),
                w == self.component_types_width,
                self.wf(),
                self.component_types@.len() == old(self).component_types@.len(),
                (self.component_count@[entity_index as int] as int) <= n,
                (self.component_count@[entity_index as int] as int) >= n - i,
                forall|e2: int| 0 <= e2 < rows && e2 != entity_index ==> #[trigger] self.component_count@[e2]
                    == old(self).component_count@[e2],
                forall|k: int| 0 <= k < self.component_types@.len() && (k < cell_index(entity_index as int, w as int, 0) || k >= cell_index(entity_index as int, w as int, n as int)) ==>
                    #[trigger] self.component_types@[k] == old(self).component_types@[k],
                delete_pass(
                    self.component_types@.subrange(
                        cell_index(entity_index as int, w as int, 0),
                        cell_index(entity_index as int, w as int, n as int),
                    ),
                    self.component_count@[entity_index as int] as int,
                    i as int,
                    component_type,
                ) == delete_pass(row0, n as int, 0, component_type),
                0 <= cell_index(entity_index as int, w as int, 0),
                cell_index(entity_index as int, w as int, n as int) <= self.component_types@.len(),
            decreases n - i,
        {
            let base = entity_index * w;
            let this_component_type = self.component_types[base + i];
            let ghost cells = self.component_types@.subrange(
                cell_index(entity_index as int, w as int, 0),
                cell_index(entity_index as int, w as int, n as int),
            );
            if this_component_type == component_type {
                let count = self.component_count[entity_index] - 1;
                self.component_count.set(entity_index, count);
                let moved = self.component_types[base + count as usize];
                self.component_types.set(base + i, moved);
                proof {
                    assert(cells[i as int] == component_type);
                    assert(self.component_types@.subrange(
                        cell_index(entity_index as int, w as int, 0),
                        cell_index(entity_index as int, w as int, n as int),
                    ) =~= cells.update(i as int, cells[count as int]));
                }
            } else {
                proof {
                    assert(cells[i as int] != component_type);
                }
            }
            i = i + 1;
        }
        proof {
            let cells = self.component_types@.subrange(
                cell_index(entity_index as int, w as int, 0),
                cell_index(entity_index as int, w as int, n as int),
            );
            let c = self.component_count@[entity_index as int] as int;
            assert(delete_pass(cells, c, i as int, component_type) == (cells, c));
            assert(row0.len() == n);
            assert(self.row(entity_index as int) =~= cells.take(c));
            assert forall|e2: int| 0 <= e2 < rows && e2 != entity_index implies self.row(e2)
                == old(self).row(e2) by {
                let c2 = self.component_count@[e2] as int;
                lemma_row_bounds(e2, rows, w as int, c2);
                assert forall|k: int| 0 <= k < c2 implies #[trigger] self.component_types@[cell_index(e2, w as int, k)]
                    == old(self).component_types@[cell_index(e2, w as int, k)] by {
                    lemma_cell_in_table(e2, rows, w as int, k);
                    if e2 < entity_index {
                        lemma_cell_in_table(e2, entity_index as int, w as int, k);
                    } else {
                        assert(cell_index(entity_index as int, w as int, n as int) <= cell_index(e2, w as int, 0)) by (nonlinear_arith)
                            requires
                                entity_index < e2,
                                n <= w,
                        ;
                        assert(cell_index(e2, w as int, 0) <= cell_index(e2, w as int, k));
                    }
                }
                assert forall|k: int| 0 <= k < c2 implies #[trigger] self.row(e2)[k] == old(self).row(e2)[k] by {
                    assert(self.row(e2)[k] == self.component_types@[cell_index(e2, w as int, k)]);
                    assert(old(self).row(e2)[k] == old(self).component_types@[cell_index(e2, w as int, k)]);
                }
                assert(self.row(e2) =~= old(self).row(e2));
            }
            assert(self@ =~= old(self)@.update(
                entity_index as int,
                row_without(old(self)@[entity_index as int], component_type),
            ));
        }
    }

    /// The component types of `entity`, in the order of its row.
    pub fn get_component_types(&self, entity: EntityIndex) -> (r: Vec<ComponentType>)
        requires
            self.wf(),
            (entity.index as int) < self@.len(),
        ensures
            r@ == self@[entity.index as int],
    {
        let e = entity.index as usize;
        let w = self.component_types_width;
        let count = self.component_count[e] as usize;
        proof {
            lemma_row_bounds(e as int, self.component_count@.len() as int, w as int, count as int);
        }
        let mut r: Vec<ComponentType> = Vec::new();
        let mut i: usize = 0;
        while i < count
            invariant
                i <= count,
                count <= w,
                e < self.component_count@.len(),
                count == self.component_count@[e as int],
                w == self.component_types_width,
                self.wf(),
                0 <= cell_index(e as int, w as int, 0),
                cell_index(e as int, w as int, count as int) <= self.component_types@.len(),
                r@ == self.row(e as int).take(i as int),
            decreases count - i,
        {
            r.push(self.component_types[e * w + i]);
            i = i + 1;
        }
        assert(r@ =~= self.row(e as int));
        r
    }

    /// Prepares the row of `entity` for a new entity: the row becomes empty;
    /// the table doubles its number of rows when `entity` lies past the end.
    pub fn add_entity(&mut self, entity: EntityIndex)
        requires
            old(self).wf(),
            (entity.index as int) < old(self)@.len() * 2,
            (entity.index as int) >= old(self)@.len() ==> old(self).table_len() * 2 <= usize::MAX
                && old(self)@.len() * 2 <= usize::MAX,
        ensures
            final(self).wf(),
            final(self).width() == old(self).width(),
            final(self).table_len() == final(self)@.len() * final(self).width(),
            final(self)@.len() == (if (entity.index as int) < old(self)@.len() {
                old(self)@.len()
            } else {
                old(self)@.len() * 2
            }),
            final(self)@[entity.index as int] == Seq::<ComponentType>::empty(),
            forall|e: int|
                0 <= e < final(self)@.len() && e != entity.index ==> #[trigger] final(self)@[e] == (
                if e < old(self)@.len() {
                    old(self)@[e]
                } else {
                    Seq::<ComponentType>::empty()
                }),
    {
        let e = entity.index as usize;
        let ghost old_view = self@;
        let ghost n = self.component_count@.len();
        let w = self.component_types_width;
        if e >= self.component_count.len() {
            expand_slice(&mut self.component_count, 0u16);
            expand_slice(&mut self.component_types, NoneComponent::get_component_type());
            proof {
                assert(self.component_types@.len() == self.component_count@.len() * w) by (nonlinear_arith)
                    requires
                        self.component_types@.len() == n * w * 2,
                        self.component_count@.len() == n * 2,
                ;
            }
        }
        self.component_count.set(e, 0);
        proof {
            lemma_row_bounds(e as int, self.component_count@.len() as int, w as int, 0);
        }
        proof {
            let rows = self.component_count@.len() as int;
            assert forall|e2: int| 0 <= e2 < rows implies #[trigger] self.component_count@[e2]
                <= self.component_types_width by {
                if e2 < n && e2 != e {
                    assert(self.component_count@[e2] == old(self).component_count@[e2]);
                }
            }
            assert forall|e2: int| 0 <= e2 < rows && e2 != e implies #[trigger] self@[e2] == (
            if e2 < n {
                old_view[e2]
            } else {
                Seq::<ComponentType>::empty()
            }) by {
                if e2 < n {
                    let c2 = self.component_count@[e2] as int;
                    assert forall|k: int| 0 <= k < c2 implies #[trigger] self.component_types@[cell_index(e2, w as int, k)]
                        == old(self).component_types@[cell_index(e2, w as int, k)] by {
                        lemma_cell_in_table(e2, n as int, w as int, k);
                    }
                    lemma_row_bounds(e2, n as int, w as int, c2);
                    lemma_row_bounds(e2, rows, w as int, c2);
                    assert(self.row(e2) =~= old(self).row(e2));
                } else {
                    lemma_row_bounds(e2, rows, w as int, 0);
                    assert(self.row(e2) =~= Seq::<ComponentType>::empty());
                }
            }
            assert(self.row(e as int) =~= Seq::<ComponentType>::empty());
        }
    }
}

/// Removing a type from a row without repetitions leaves the other types,
/// still without repetitions.
pub proof fn lemma_row_without_keeps_others(row: Seq<ComponentType>, component_type: ComponentType)
    requires
        row.no_duplicates(),
    ensures
        row_without(row, component_type).no_duplicates(),
        forall|x: ComponentType| #[trigger]
            row_without(row, component_type).contains(x) <==> (row.contains(x) && x != component_type),
{
    lemma_row_without(row, component_type);
    if row.contains(component_type) {
        let k = choose|k: int| 0 <= k < row.len() && row[k] == component_type;
        assert forall|j: int| 0 <= j < row.len() && j != k implies row[j] != component_type by {}
        let r = row.update(k, row.last()).drop_last();
        assert(row_without(row, component_type) == r);
        let n = row.len() - 1;
        assert forall|a: int, b: int| 0 <= a < b < r.len() implies r[a] != r[b] by {
            let a2 = if a == k { n } else { a };
            let b2 = if b == k { n } else { b };
            assert(r[a] == row[a2]);
            assert(r[b] == row[b2]);
            assert(a2 != b2);
        }
        assert forall|x: ComponentType| #[trigger] r.contains(x) <==> (row.contains(x) && x
            != component_type) by {
            if r.contains(x) {
                let i = choose|i: int| 0 <= i < r.len() && r[i] == x;
                let i2 = if i == k { n } else { i };
                assert(row[i2] == x);
                assert(i2 != k);
            }
            if row.contains(x) && x != component_type {
                let i = choose|i: int| 0 <= i < row.len() && row[i] == x;
                assert(i != k);
                if i == n {
                    assert(r[k] == x);
                } else {
                    assert(r[i] == x);
                }
            }
        }
    }
}

/// Deleting a component type just added to a row that lacked it gives the
/// row back as it was.
pub proof fn lemma_delete_undoes_add(row: Seq<ComponentType>, component_type: ComponentType)
    requires
        !row.contains(component_type),
    ensures
        row_without(row.push(component_type), component_type) == row,
{
    let pushed = row.push(component_type);
    let k = row.len() as int;
    assert forall|j: int| 0 <= j < pushed.len() && j != k implies pushed[j] != component_type by {
        assert(pushed[j] == row[j]);
        if row[j] == component_type {
            assert(row.contains(component_type));
        }
    }
    lemma_row_without(pushed, component_type);
    assert(pushed.update(k, pushed.last()).drop_last() =~= row);
}

/// Removing a type that a row holds at most once leaves the other types:
/// the row that remains holds the types of the row with that one taken out.
pub proof fn law_delete_keeps_the_other_types(row: Seq<ComponentType>, component_type: ComponentType)
    requires
        forall|i: int, j: int|
            0 <= i < row.len() && 0 <= j < row.len() && row[i] == component_type && row[j] == component_type
                ==> i == j,
    ensures
        row_without(row, component_type).to_multiset() =~= row.to_multiset().remove(component_type),
{
    broadcast use vstd::multiset::group_multiset_axioms;
    broadcast use vstd::seq_lib::group_to_multiset_ensures;
    broadcast use vstd::seq_lib::to_multiset_update;

    lemma_row_without(row, component_type);
    if !row.contains(component_type) {
        assert(row.to_multiset().count(component_type) == 0);
    } else {
        let k = choose|k: int| 0 <= k < row.len() && row[k] == component_type;
        let u = row.update(k, row.last());
        assert(u.to_multiset() == row.to_multiset().insert(row.last()).remove(row[k]));
        assert(u.last() == row.last());
        assert(u =~= u.drop_last().push(u.last()));
        assert(u.drop_last().push(u.last()).to_multiset() == u.drop_last().to_multiset().insert(u.last()));
        assert(u.drop_last().to_multiset() =~= u.to_multiset().remove(u.last()));
        assert(row_without(row, component_type) == u.drop_last());
    }
}

} // verus!
