use toodee::Cursor;
use toodee::GridError;
use toodee::TooDee;

fn numbered() -> TooDee<u32> {
    let mut grid = TooDee::new(10, 10, 0u32);
    for i in 0..100 {
        grid.set_flat(i, i as u32);
    }
    grid
}

#[test]
fn new_fills_every_cell() {
    let grid = TooDee::new(4, 3, 7u32);
    assert_eq!(grid.width, 4);
    assert_eq!(grid.height, 3);
    assert_eq!(grid.data.len(), 12);
    for r in 0..3 {
        for c in 0..4 {
            assert_eq!(*grid.get(r, c), 7);
        }
    }
}

#[test]
fn from_vec_is_row_major() {
    let grid = TooDee::from_vec(3, 2, vec![1u32, 2, 3, 4, 5, 6]);
    assert_eq!(*grid.get(0, 0), 1);
    assert_eq!(*grid.get(0, 2), 3);
    assert_eq!(*grid.get(1, 0), 4);
    assert_eq!(*grid.get(1, 2), 6);
}

#[test]
fn set_overwrites_one_cell() {
    let mut grid = numbered();
    grid.set(4, 7, 1000);
    assert_eq!(*grid.get(4, 7), 1000);
    assert_eq!(*grid.get(4, 6), 46);
    assert_eq!(*grid.get(5, 7), 57);
}

#[test]
fn try_get_rejects_out_of_range() {
    let grid = numbered();
    assert_eq!(grid.try_get(9, 9), Ok(&99));
    assert_eq!(grid.try_get(10, 0), Err(GridError::IndexOutOfBounds));
    assert_eq!(grid.try_get(0, 10), Err(GridError::IndexOutOfBounds));
}

#[test]
fn try_view_rejects_invalid_bounds() {
    let grid = numbered();
    assert!(grid.try_view(0, 0, 10, 10).is_ok());
    assert_eq!(grid.try_view(0, 0, 11, 10), Err(GridError::InvalidViewBounds));
    assert_eq!(grid.try_view(0, 0, 10, 11), Err(GridError::InvalidViewBounds));
    assert_eq!(grid.try_view(5, 0, 4, 10), Err(GridError::InvalidViewBounds));
    assert_eq!(grid.try_view(0, 7, 10, 6), Err(GridError::InvalidViewBounds));
}

#[test]
fn view_addresses_through_offsets() {
    let grid = numbered();
    let view = grid.view(2, 3, 8, 9);
    assert_eq!(view.width(), 6);
    assert_eq!(view.height(), 6);
    assert_eq!(*view.get(0, 0), 23);
    assert_eq!(*view.get(5, 5), 78);
}

#[test]
fn subview_composes_additively() {
    let grid = numbered();
    let outer = grid.view(1, 2, 9, 9);
    let inner = outer.subview(2, 1, 5, 4);
    assert_eq!(*inner.get(0, 0), *grid.get(3, 3));
    assert_eq!(inner.width(), 3);
    assert_eq!(inner.height(), 3);
    let nested = inner.subview(1, 1, 3, 3);
    assert_eq!(*nested.get(0, 0), *grid.get(4, 4));
}

#[test]
fn row_cursor_is_double_ended() {
    let grid = numbered();
    let view = grid.view(0, 0, 4, 10);
    let mut rows = view.rows();
    assert_eq!(rows.len(), 4);
    let mut first = rows.next().unwrap();
    assert_eq!(first.next(), Some(0));
    assert_eq!(first.next_back(), Some(9));
    let mut last = rows.next_back().unwrap();
    assert_eq!(last.next(), Some(30));
    assert_eq!(rows.len(), 2);
    let mut second = rows.nth(0).unwrap();
    assert_eq!(second.nth(5), Some(15));
    assert_eq!(second.nth_back(1), Some(18));
}

#[test]
fn cell_cursor_skips_exactly() {
    let grid = numbered();
    let view = grid.view(3, 0, 4, 10);
    let mut rows = view.rows();
    let mut row = rows.next().unwrap();
    assert_eq!(row.len(), 10);
    assert_eq!(row.nth(3), Some(33));
    assert_eq!(row.next(), Some(34));
    assert_eq!(row.nth_back(2), Some(37));
    assert_eq!(row.len(), 2);
    assert_eq!(row.nth(5), None);
    assert_eq!(row.len(), 0);
}

#[test]
fn row_copies_one_full_row() {
    let grid = numbered();
    assert_eq!(grid.row(0), vec![0, 1, 2, 3, 4, 5, 6, 7, 8, 9]);
    assert_eq!(grid.row(9), vec![90, 91, 92, 93, 94, 95, 96, 97, 98, 99]);
    let view = grid.view(2, 3, 5, 7);
    assert_eq!(view.row(1), vec![33, 34, 35, 36]);
}
