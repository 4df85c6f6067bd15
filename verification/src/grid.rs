//! Grid arithmetic for the zoomable thumbnail view: which cells exist, in
//! which row they stand, and how the cursor moves. Pixels are the
//! application's business.
use vstd::prelude::*;

verus! {

/// Zoom ladder: number of columns per step; index 6 (1 column) is the loupe
/// in the one-axis zoom model.
pub const ZOOM_COLUMNS: [usize; 7] = [12, 8, 6, 4, 3, 2, 1];

/// The columns of a zoom step; beyond the ladder it is its last step.
pub open spec fn columns_of(step: int) -> int {
    if step <= 0 {
        12
    } else if step == 1 {
        8
    } else if step == 2 {
        6
    } else if step == 3 {
        4
    } else if step == 4 {
        3
    } else if step == 5 {
        2
    } else {
        1
    }
}

/// How many columns a zoom step has.
pub fn columns_at(zoom_step: usize) -> (n: usize)
    ensures
        n == columns_of(zoom_step as int),
{
    let step: usize = if zoom_step < 6 {
        zoom_step
    } else {
        6
    };
    ZOOM_COLUMNS[step]
}

/// How many rows so many items fill.
pub open spec fn rows_of(items: int, columns: int) -> int {
    (items + columns - 1) / columns
}

/// How many rows so many items fill; the last may be partial.
pub fn rows_for(item_count: usize, columns: usize) -> (n: usize)
    requires
        columns > 0,
    ensures
        n == rows_of(item_count as int, columns as int),
{
    let whole: usize = item_count / columns;
    proof {
        let (i, c) = (item_count as int, columns as int);
        assert(i == c * (i / c) + i % c) by (nonlinear_arith)
            requires
                c > 0,
        ;
        assert(0 <= i % c < c) by (nonlinear_arith)
            requires
                c > 0,
        ;
        let (w, r) = (i / c, i % c);
        assert((i + c - 1) / c == if r == 0 {
            w
        } else {
            w + 1
        }) by (nonlinear_arith)
            requires
                c > 0,
                i == c * w + r,
                0 <= r < c,
        ;
        assert(w <= i && (r > 0 ==> w < i)) by (nonlinear_arith)
            requires
                c > 0,
                i == c * w + r,
                0 <= r < c,
                w >= 0,
        ;
    }
    if item_count % columns == 0 {
        whole
    } else {
        whole + 1
    }
}

/// The row of an item.
pub fn row_of(index: usize, columns: usize) -> (row: usize)
    requires
        columns > 0,
    ensures
        row == index as int / (columns as int),
{
    index / columns
}

/// The column of an item.
pub fn column_of(index: usize, columns: usize) -> (col: usize)
    requires
        columns > 0,
    ensures
        col == index as int % (columns as int),
{
    index % columns
}

/// Rows and columns place every item on its own cell: the row and the column
/// give the item back.
pub proof fn lemma_cells_are_items(index: int, columns: int)
    requires
        0 <= index,
        0 < columns,
    ensures
        (index / columns) * columns + index % columns == index,
        0 <= index % columns < columns,
        0 <= index / columns,
{
    assert((index / columns) * columns + index % columns == index && 0 <= index % columns < columns
        && 0 <= index / columns) by (nonlinear_arith)
        requires
            0 <= index,
            0 < columns,
    ;
}

pub open spec fn smaller(a: int, b: int) -> int {
    if a < b {
        a
    } else {
        b
    }
}

/// The first item of a window of rows, and the first one behind it.
pub open spec fn windowed(
    items: int,
    columns: int,
    first_row: int,
    last_row: int,
    margin_rows: int,
) -> (int, int) {
    if items == 0 {
        (0, 0)
    } else {
        let first = if first_row > margin_rows {
            first_row - margin_rows
        } else {
            0
        };
        (
            smaller(first * columns, items),
            smaller((last_row + margin_rows + 1) * columns, items),
        )
    }
}

/// The items of the rows `first_row..=last_row`, expanded by `margin_rows`
/// on each side (the windowed model: only these cells exist on the screen's
/// side).
pub fn window(
    item_count: usize,
    columns: usize,
    first_row: usize,
    last_row: usize,
    margin_rows: usize,
) -> (r: (usize, usize))
    requires
        item_count > 0 ==> first_row * columns <= usize::MAX && (last_row + margin_rows + 1)
            * columns <= usize::MAX && last_row + margin_rows + 1 <= usize::MAX,
    ensures
        (r.0 as int, r.1 as int) == windowed(
            item_count as int,
            columns as int,
            first_row as int,
            last_row as int,
            margin_rows as int,
        ),
{
    if item_count == 0 {
        return (0, 0);
    }
    let first: usize = if first_row > margin_rows {
        first_row - margin_rows
    } else {
        0
    };
    assert(first * columns <= first_row * columns) by (nonlinear_arith)
        requires
            first <= first_row,
    ;
    let last: usize = last_row + margin_rows;
    let start: usize = first * columns;
    let end: usize = (last + 1) * columns;
    (
        if start < item_count {
            start
        } else {
            item_count
        },
        if end < item_count {
            end
        } else {
            item_count
        },
    )
}

/// Cursor movement over the item list in grid terms.
#[derive(Debug, Clone, Copy, PartialEq, Eq, Structural)]
pub enum Nav {
    Left,
    Right,
    Up,
    Down,
    PageUp,
    PageDown,
    Home,
    End,
}

pub open spec fn at_least_one(n: int) -> int {
    if n < 1 {
        1
    } else {
        n
    }
}

pub open spec fn above_zero(n: int) -> int {
    if n < 0 {
        0
    } else {
        n
    }
}

/// The cursor after a navigation key.
pub open spec fn moved(cursor: int, items: int, columns: int, rows_per_page: int, nav: Nav) -> int {
    let last = items - 1;
    let step = at_least_one(columns);
    let page = step * at_least_one(rows_per_page);
    if items == 0 {
        0
    } else {
        smaller(
            match nav {
                Nav::Left => above_zero(cursor - 1),
                Nav::Right => cursor + 1,
                Nav::Up => above_zero(cursor - step),
                // Moving down from the last (possibly partial) row stays put
                // rather than jumping to End.
                Nav::Down => if cursor + step > last {
                    cursor
                } else {
                    cursor + step
                },
                Nav::PageUp => above_zero(cursor - page),
                Nav::PageDown => cursor + page,
                Nav::Home => 0,
                Nav::End => last,
            },
            last,
        )
    }
}

/// New cursor index for a navigation key. `rows_per_page` is the number of
/// fully visible rows (≥1). Clamps at the ends; never leaves `0..item_count`.
pub fn navigate(
    cursor: usize,
    item_count: usize,
    columns: usize,
    rows_per_page: usize,
    nav: Nav,
) -> (target: usize)
    requires
        item_count > 0 ==> at_least_one(columns as int) * at_least_one(rows_per_page as int)
            <= usize::MAX,
        item_count > 0 && nav == Nav::Right ==> cursor + 1 <= usize::MAX,
        item_count > 0 && nav == Nav::Down ==> cursor + at_least_one(columns as int) <= usize::MAX,
        item_count > 0 && nav == Nav::PageDown ==> cursor + at_least_one(columns as int)
            * at_least_one(rows_per_page as int) <= usize::MAX,
    ensures
        target == moved(
            cursor as int,
            item_count as int,
            columns as int,
            rows_per_page as int,
            nav,
        ),
        item_count > 0 ==> target < item_count,
{
    if item_count == 0 {
        return 0;
    }
    let last: usize = item_count - 1;
    let step: usize = if columns < 1 {
        1
    } else {
        columns
    };
    let rows: usize = if rows_per_page < 1 {
        1
    } else {
        rows_per_page
    };
    let page: usize = step * rows;
    let target: usize = match nav {
        Nav::Left => if cursor < 1 {
            0
        } else {
            cursor - 1
        },
        Nav::Right => cursor + 1,
        Nav::Up => if cursor < step {
            0
        } else {
            cursor - step
        },
        Nav::Down => {
            if cursor + step > last {
                cursor
            } else {
                cursor + step
            }
        },
        Nav::PageUp => if cursor < page {
            0
        } else {
            cursor - page
        },
        Nav::PageDown => cursor + page,
        Nav::Home => 0,
        Nav::End => last,
    };
    if target < last {
        target
    } else {
        last
    }
}

/// Left and Right undo each other where neither is stopped by an end.
pub proof fn lemma_left_undoes_right(cursor: int, items: int, columns: int, rows: int)
    requires
        0 <= cursor < items,
    ensures
        cursor + 1 < items ==> moved(
            moved(cursor, items, columns, rows, Nav::Right),
            items,
            columns,
            rows,
            Nav::Left,
        ) == cursor,
        cursor > 0 ==> moved(
            moved(cursor, items, columns, rows, Nav::Left),
            items,
            columns,
            rows,
            Nav::Right,
        ) == cursor,
{
}

/// Up and Down keep the column: they move by whole rows or not at all.
pub proof fn lemma_down_keeps_the_column(cursor: int, items: int, columns: int, rows: int)
    requires
        0 <= cursor < items,
        0 < columns,
    ensures
        moved(cursor, items, columns, rows, Nav::Down) % columns == cursor % columns,
        cursor >= columns ==> moved(cursor, items, columns, rows, Nav::Up) % columns == cursor
            % columns,
{
    assert((cursor + columns) % columns == cursor % columns) by (nonlinear_arith)
        requires
            0 < columns,
            0 <= cursor,
    ;
    if cursor >= columns {
        assert((cursor - columns) % columns == cursor % columns) by (nonlinear_arith)
            requires
                0 < columns,
                columns <= cursor,
        ;
    }
}

/// The zoom step that is `delta` from another, within the ladder.
pub open spec fn zoomed(current: int, delta: int) -> int {
    let at = current + delta;
    if at < 0 {
        0
    } else if at > 6 {
        6
    } else {
        at
    }
}

/// Zoom step change, clamped to the ladder. Positive `delta` zooms in
/// (fewer columns).
pub fn zoom_step(current: usize, delta: i32) -> (step: usize)
    requires
        i32::MIN <= (current as i32) + delta <= i32::MAX,
    ensures
        step == zoomed((current as i32) as int, delta as int),
{
    let at: i32 = (current as i32) + delta;
    if at < 0 {
        0
    } else if at > 6 {
        6
    } else {
        at as usize
    }
}

// -------------------------------------------------------------------- laws
/// The zoom ladder, from the widest grid to the loupe.
pub proof fn lemma_zoom_ladder(step: int)
    ensures
        0 <= step < 7 ==> columns_of(step) == seq![12int, 8, 6, 4, 3, 2, 1][step],
        step >= 7 ==> columns_of(step) == 1,
        1 <= columns_of(step) <= 12,
        0 <= step < 6 ==> columns_of(step + 1) < columns_of(step),
{
}

/// Zooming moves by as many steps as asked, and stops at the ends of the
/// ladder; inside it, a step back undoes a step.
pub proof fn lemma_zoom_steps(current: int, delta: int)
    requires
        0 <= current <= 6,
    ensures
        0 <= zoomed(current, delta) <= 6,
        0 <= current + delta <= 6 ==> zoomed(current, delta) == current + delta && zoomed(
            zoomed(current, delta),
            -delta,
        ) == current,
        current + delta < 0 ==> zoomed(current, delta) == 0,
        current + delta > 6 ==> zoomed(current, delta) == 6,
{
}

/// Items fill their rows: all but the last are full, and the last holds at
/// least one.
pub proof fn lemma_rows_hold_the_items(items: int, columns: int)
    requires
        0 <= items,
        0 < columns,
    ensures
        items <= rows_of(items, columns) * columns,
        items > 0 ==> (rows_of(items, columns) - 1) * columns < items,
        items == 0 ==> rows_of(items, columns) == 0,
{
    let n = items + columns - 1;
    let r = rows_of(items, columns);
    assert(n == columns * r + n % columns && 0 <= n % columns < columns) by (nonlinear_arith)
        requires
            r == n / columns,
            columns > 0,
    ;
    assert(columns * r == r * columns && (r - 1) * columns == r * columns - columns)
        by (nonlinear_arith);
    if items == 0 {
        assert(r == 0) by (nonlinear_arith)
            requires
                columns - 1 == columns * r + n % columns,
                0 <= n % columns < columns,
                columns > 0,
        ;
    }
}

/// An item is in the window exactly where its row is: no more than the margin
/// before the first row or behind the last.
pub proof fn lemma_window_is_whole_rows(
    items: int,
    columns: int,
    first_row: int,
    last_row: int,
    margin: int,
    i: int,
)
    requires
        0 < columns,
        0 <= i < items,
        0 <= first_row,
        0 <= last_row,
        0 <= margin,
    ensures
        ({
            let w = windowed(items, columns, first_row, last_row, margin);
            w.0 <= i < w.1 <==> first_row - margin <= i / columns <= last_row + margin
        }),
{
    let row = i / columns;
    let first = if first_row > margin {
        first_row - margin
    } else {
        0
    };
    let last = last_row + margin + 1;
    lemma_cells_are_items(i, columns);
    assert(first * columns <= i <==> first <= row) by (nonlinear_arith)
        requires
            row * columns + i % columns == i,
            0 <= i % columns < columns,
            columns > 0,
    ;
    assert(i < last * columns <==> row < last) by (nonlinear_arith)
        requires
            row * columns + i % columns == i,
            0 <= i % columns < columns,
            columns > 0,
    ;
}

/// Each key moves the cursor as its name says: by one item, one row or one
/// page, or to an end. It stops at the first and at the last item; Down stays
/// where no item is below. A grid without columns or rows counts as having
/// one, and an empty one has its cursor at 0.
pub proof fn lemma_keys_move_as_named(cursor: int, items: int, columns: int, rows: int)
    requires
        0 <= cursor < items,
        0 < columns,
        0 < rows,
    ensures
        ({
            let to = |nav: Nav| moved(cursor, items, columns, rows, nav);
            let page = rows * columns;
            &&& cursor > 0 ==> to(Nav::Left) == cursor - 1
            &&& cursor == 0 ==> to(Nav::Left) == 0
            &&& cursor + 1 < items ==> to(Nav::Right) == cursor + 1
            &&& cursor + 1 == items ==> to(Nav::Right) == cursor
            &&& cursor >= columns ==> to(Nav::Up) == cursor - columns
            &&& cursor < columns ==> to(Nav::Up) == 0
            &&& cursor + columns < items ==> to(Nav::Down) == cursor + columns
            &&& cursor + columns >= items ==> to(Nav::Down) == cursor
            &&& cursor >= page ==> to(Nav::PageUp) == cursor - page
            &&& cursor < page ==> to(Nav::PageUp) == 0
            &&& cursor + page < items ==> to(Nav::PageDown) == cursor + page
            &&& cursor + page >= items ==> to(Nav::PageDown) == items - 1
            &&& to(Nav::Home) == 0
            &&& to(Nav::End) == items - 1
        }),
        moved(cursor, 0, columns, rows, Nav::End) == 0,
        forall|nav: Nav|
            #![auto]
            moved(cursor, items, 0, 0, nav) == moved(cursor, items, 1, 1, nav),
{
    assert(columns * rows == rows * columns) by (nonlinear_arith);
}

} // verus!
