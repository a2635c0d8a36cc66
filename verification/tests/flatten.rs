use toodee::TooDee;
use toodee::FlattenExact;

fn numbered() -> TooDee<u32> {
    let mut grid = TooDee::new(10, 10, 0u32);
    for i in 0..100 {
        grid.set_flat(i, i as u32);
    }
    grid
}

#[test]
fn flatten_reports_exact_length() {
    let grid = numbered();
    let cells = grid.cells();
    assert_eq!(cells.len(), 100);
    assert_eq!(cells.size_hint(), (100, Some(100)));

    let mut forward = grid.cells();
    let mut count = 0;
    while let Some(_) = forward.next() {
        count += 1;
    }
    assert_eq!(count, 100);

    let mut backward = grid.cells();
    let mut rcount = 0;
    while let Some(_) = backward.next_back() {
        rcount += 1;
    }
    assert_eq!(rcount, 100);
}

#[test]
fn flatten_view_length_is_rows_times_cols() {
    let grid = numbered();
    let view = grid.view(2, 3, 7, 9);
    let cells = view.cells();
    assert_eq!(cells.len(), 5 * 6);
    let mut it = view.cells();
    let mut count = 0;
    while let Some(_) = it.next() {
        count += 1;
    }
    assert_eq!(count, 5 * 6);
}

#[test]
fn flatten_forward_order_is_row_major() {
    let grid = numbered();
    let mut it = grid.cells();
    for want in 0..100u32 {
        assert_eq!(it.next(), Some(want));
    }
    assert_eq!(it.next(), None);
    assert_eq!(it.next(), None);
}

#[test]
fn flatten_nth_matches_sequential_next() {
    let grid = numbered();
    let view = grid.view(1, 2, 4, 8);
    let len = view.cells().len();
    for k in 0..len {
        let mut sequential = view.cells();
        let mut by_next = None;
        for _ in 0..k + 1 {
            by_next = sequential.next();
        }
        let mut skipping = view.cells();
        assert_eq!(skipping.nth(k), by_next);
    }
    let mut past = view.cells();
    assert_eq!(past.nth(len), None);
    let mut far = view.cells();
    assert_eq!(far.nth(len + 17), None);
}

#[test]
fn flatten_nth_back_matches_sequential_next_back() {
    let grid = numbered();
    let view = grid.view(1, 2, 4, 8);
    let len = view.cells().len();
    for k in 0..len {
        let mut sequential = view.cells();
        let mut by_back = None;
        for _ in 0..k + 1 {
            by_back = sequential.next_back();
        }
        let mut skipping = view.cells();
        assert_eq!(skipping.nth_back(k), by_back);
    }
    let mut past = view.cells();
    assert_eq!(past.nth_back(len), None);
}

#[test]
fn flatten_nth_then_continues_in_order() {
    let grid = numbered();
    let mut it = grid.cells();
    assert_eq!(it.nth(25), Some(25));
    assert_eq!(it.next(), Some(26));
    assert_eq!(it.nth(3), Some(30));
    assert_eq!(it.next_back(), Some(99));
    assert_eq!(it.nth_back(8), Some(90));
    assert_eq!(it.len(), 59);
}

#[test]
fn flatten_interleaved_never_skips_or_repeats() {
    let grid = numbered();
    let mut it = grid.cells();
    let mut front = 0u32;
    let mut back = 99u32;
    let mut total = 0;
    loop {
        match it.next() {
            Some(v) => {
                assert_eq!(v, front);
                front += 1;
                total += 1;
            }
            None => break,
        }
        match it.next_back() {
            Some(v) => {
                assert_eq!(v, back);
                back -= 1;
                total += 1;
            }
            None => break,
        }
    }
    assert_eq!(total, 100);
    assert_eq!(front, back + 1);
}

#[test]
fn flatten_last_is_single_reverse_pull() {
    let grid = numbered();
    assert_eq!(grid.cells().last(), Some(99));
    let view = grid.view(0, 0, 3, 4);
    assert_eq!(view.cells().last(), Some(23));
    let empty = grid.view(5, 5, 5, 5);
    assert_eq!(empty.cells().last(), None);
}

#[test]
fn flatten_fold_visits_in_streaming_order() {
    let grid = numbered();
    let view = grid.view(2, 2, 4, 5);
    let mut it = view.cells();
    it.next();
    it.next_back();
    let visited = it.fold(Vec::new(), |mut acc: Vec<u32>, x: u32| {
        acc.push(x);
        acc
    });
    assert_eq!(visited, vec![23, 24, 32, 33]);
}

#[test]
fn flatten_rfold_visits_in_reverse_order() {
    let grid = numbered();
    let view = grid.view(2, 2, 4, 5);
    let visited = view.cells().rfold(Vec::new(), |mut acc: Vec<u32>, x: u32| {
        acc.push(x);
        acc
    });
    assert_eq!(visited, vec![34, 33, 32, 24, 23, 22]);
}

#[test]
fn flatten_new_over_row_cursor() {
    let grid = numbered();
    let view = grid.view(0, 0, 2, 10);
    let rows = view.rows();
    let mut it = FlattenExact::new(rows, 10);
    assert_eq!(it.len(), 20);
    assert_eq!(it.next(), Some(0));
    assert_eq!(it.next_back(), Some(19));
    assert_eq!(it.len(), 18);
}

#[test]
fn flatten_zero_width_view_is_empty() {
    let grid = numbered();
    let view = grid.view(0, 4, 10, 4);
    let mut it = view.cells();
    assert_eq!(it.len(), 0);
    assert_eq!(it.next(), None);
    assert_eq!(it.next_back(), None);
    let mut it2 = view.cells();
    assert_eq!(it2.nth(0), None);
    assert_eq!(it2.nth_back(5), None);
}
