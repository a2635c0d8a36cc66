use toodee::TooDee;

fn numbered() -> TooDee<u32> {
    let mut grid = TooDee::new(10, 10, 0u32);
    for i in 0..100 {
        grid.set_flat(i, i as u32);
    }
    grid
}

#[test]
fn translate_with_wrap() {
    let mut toodee = numbered();
    toodee.translate_with_wrap(3, 10 - 2);
    let expected = (100 * 100 - 100) / 2;
    assert_eq!(toodee.data.iter().sum::<u32>(), expected);
    assert_eq!(*toodee.get(0, 0), 83);
    assert_eq!(*toodee.get(0, 9), 82);
    assert_eq!(*toodee.get(9, 0), 73);
    assert_eq!(*toodee.get(9, 9), 72);
}

#[test]
fn view_translate_with_wrap() {
    let mut toodee = numbered();
    toodee.view_mut(0, 0, 10, 10).translate_with_wrap(&mut toodee, 3, 10 - 2);
    let expected = (100 * 100 - 100) / 2;
    assert_eq!(toodee.data.iter().sum::<u32>(), expected);
    assert_eq!(*toodee.get(0, 0), 83);
    assert_eq!(*toodee.get(0, 9), 82);
    assert_eq!(*toodee.get(9, 0), 73);
    assert_eq!(*toodee.get(9, 9), 72);
}

#[test]
fn view_translate_with_wrap_zero() {
    let mut toodee = numbered();
    toodee.view_mut(0, 0, 10, 10).translate_with_wrap(&mut toodee, 0, 0);
    assert_eq!(*toodee.get(0, 0), 0);
    assert_eq!(*toodee.get(0, 9), 9);
    assert_eq!(*toodee.get(9, 0), 90);
    assert_eq!(*toodee.get(9, 9), 99);
}

#[test]
fn view_translate_with_wrap_col_only() {
    let mut toodee = numbered();
    toodee.view_mut(0, 0, 10, 10).translate_with_wrap(&mut toodee, 10 - 1, 0);
    assert_eq!(*toodee.get(0, 0), 9);
    assert_eq!(*toodee.get(0, 9), 8);
    assert_eq!(*toodee.get(9, 0), 99);
    assert_eq!(*toodee.get(9, 9), 98);
    toodee.view_mut(0, 0, 10, 10).translate_with_wrap(&mut toodee, 2, 0);
    assert_eq!(*toodee.get(0, 0), 1);
    assert_eq!(*toodee.get(0, 9), 0);
    assert_eq!(*toodee.get(9, 0), 91);
    assert_eq!(*toodee.get(9, 9), 90);
}

#[test]
fn view_translate_with_wrap_row_only() {
    let mut toodee = numbered();
    toodee.view_mut(0, 0, 10, 10).translate_with_wrap(&mut toodee, 0, 10 - 1);
    assert_eq!(*toodee.get(0, 0), 90);
    assert_eq!(*toodee.get(0, 9), 99);
    assert_eq!(*toodee.get(9, 0), 80);
    assert_eq!(*toodee.get(9, 9), 89);
    toodee.view_mut(0, 0, 10, 10).translate_with_wrap(&mut toodee, 0, 2);
    assert_eq!(*toodee.get(0, 0), 10);
    assert_eq!(*toodee.get(0, 9), 19);
    assert_eq!(*toodee.get(9, 0), 0);
    assert_eq!(*toodee.get(9, 9), 9);
}

#[test]
fn translate_round_trip_restores_grid() {
    let mut toodee = numbered();
    let original = toodee.data.clone();
    toodee.translate_with_wrap(3, 8);
    toodee.translate_with_wrap((10 - 3 % 10) % 10, (10 - 8 % 10) % 10);
    assert_eq!(toodee.data, original);
    toodee.translate_with_wrap(23, 101);
    toodee.translate_with_wrap((10 - 23 % 10) % 10, (10 - 101 % 10) % 10);
    assert_eq!(toodee.data, original);
}

#[test]
fn translate_sum_invariant() {
    let mut toodee = numbered();
    let expected = (100 * 100 - 100) / 2;
    for (dx, dy) in [(1, 0), (0, 1), (7, 4), (10, 10), (13, 27)] {
        toodee.translate_with_wrap(dx, dy);
        assert_eq!(toodee.data.iter().sum::<u32>(), expected);
    }
}

#[test]
fn translate_large_shifts_reduce() {
    let mut toodee = numbered();
    toodee.translate_with_wrap(13, 18);
    assert_eq!(*toodee.get(0, 0), 83);
    assert_eq!(*toodee.get(9, 9), 72);
}

#[test]
fn translate_subview_only_moves_window() {
    let mut toodee = numbered();
    toodee.view_mut(1, 1, 3, 3).translate_with_wrap(&mut toodee, 1, 1);
    assert_eq!(*toodee.get(1, 1), 22);
    assert_eq!(*toodee.get(1, 2), 21);
    assert_eq!(*toodee.get(2, 1), 12);
    assert_eq!(*toodee.get(2, 2), 11);
    assert_eq!(*toodee.get(0, 0), 0);
    assert_eq!(*toodee.get(3, 3), 33);
    assert_eq!(*toodee.get(1, 3), 13);
}
