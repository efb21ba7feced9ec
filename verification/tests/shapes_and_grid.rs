use mover_nav::grid::{GridMap, Id, PhysicalSystem};
use mover_nav::physical::Physical;
use mover_nav::texture::sheet_data;

fn square() -> Vec<((i32, i32), (i32, i32))> {
    vec![((0, 0), (4, 0)), ((4, 0), (4, 4)), ((4, 4), (0, 4)), ((0, 4), (0, 0))]
}

#[test]
fn outline_scan_marks_no_cell() {
    let p = Physical::new(square());
    assert_eq!(p.get_taken_space((0, 0)), Vec::<(i32, i32)>::new());
    assert_eq!(p.get_taken_space((10, -3)), Vec::<(i32, i32)>::new());
}

#[test]
fn empty_outline_marks_no_cell() {
    let p = Physical::new(Vec::new());
    assert_eq!(p.get_taken_space((1, 1)), Vec::<(i32, i32)>::new());
}

#[test]
fn far_away_outline_marks_no_cell() {
    let p = Physical::new(vec![((-50, 70), (30, -20)), ((30, -20), (100, 5))]);
    assert_eq!(p.get_taken_space((0, 0)), Vec::<(i32, i32)>::new());
}

#[test]
fn outline_changes_keep_taken_space() {
    let mut p = Physical::new(square());
    p.set_lines(vec![((1, 1), (2, 2))]);
    p.modify_lines(vec![((3, 3), (4, 4))], "add");
    p.modify_lines(vec![((3, 3), (4, 4))], "remove");
    p.modify_lines(vec![((3, 3), (4, 4))], "replace");
    assert_eq!(p.get_taken_space((2, 2)), Vec::<(i32, i32)>::new());
}

#[test]
fn nil_identity_is_zero() {
    assert_eq!(Id::nil(), Id { value: 0 });
    assert!(Id::nil() != Id { value: 3 });
}

#[test]
fn clearing_frees_every_cell() {
    let mut map = GridMap { width: 3, height: 2, storage: vec![(true, Id { value: 9 })] };
    PhysicalSystem::clear_map(&mut map);
    assert_eq!(map.storage.len(), 6);
    assert!(map.storage.iter().all(|c| *c == (false, Id::nil())));
    assert_eq!((map.width, map.height), (3, 2));
}

#[test]
fn marking_obstructs_listed_in_grid_cells_only() {
    let mut map = GridMap { width: 3, height: 2, storage: Vec::new() };
    PhysicalSystem::clear_map(&mut map);
    let id = Id { value: 5 };
    PhysicalSystem::mark_cells(&mut map, &vec![(0, 0), (2, 1), (3, 0), (-1, 1), (1, 2), (2, 1)], id);
    let expected = vec![
        (true, id),
        (false, Id::nil()),
        (false, Id::nil()),
        (false, Id::nil()),
        (false, Id::nil()),
        (true, id),
    ];
    assert_eq!(map.storage, expected);
    let other = Id { value: 6 };
    PhysicalSystem::mark_cells(&mut map, &vec![(1, 0), (0, 0)], other);
    assert_eq!(map.storage[0], (true, other));
    assert_eq!(map.storage[1], (true, other));
    assert_eq!(map.storage[5], (true, id));
}

#[test]
fn sheet_keeps_only_the_last_pixel_tail() {
    let data = sheet_data(2, 2, 2);
    assert_eq!(data.len(), 32);
    for (j, b) in data.iter().enumerate() {
        let expected = if j == 8 || j == 10 { 255 } else { 0 };
        assert_eq!(*b, expected, "byte {}", j);
    }
}

#[test]
fn single_pixel_sheet() {
    assert_eq!(sheet_data(1, 1, 1), vec![0, 255, 0, 255]);
}

#[test]
fn empty_sheets_are_blank() {
    assert_eq!(sheet_data(0, 4, 4), Vec::<u8>::new());
    assert_eq!(sheet_data(3, 0, 4), Vec::<u8>::new());
    assert_eq!(sheet_data(2, 5, 0), Vec::<u8>::new());
}

#[test]
fn outline_check() {
    assert!(Physical::outline_computable(&square()));
    assert!(Physical::outline_computable(&Vec::new()));
    assert!(!Physical::outline_computable(&vec![((i32::MAX, 0), (i32::MAX, 5))]));
    assert!(!Physical::outline_computable(&vec![((0, 0), (1, i32::MAX)), ((i32::MIN, 0), (0, 0))]));
    let wide = vec![((0, 0), (1_000_000, 1_000_000)), ((0, 0), (-1_000_000, 1)), ((5, 5), (2_000_000_000, 3))];
    assert!(!Physical::outline_computable(&wide));
}

#[test]
fn placement_check_with_no_cells() {
    let p = Physical::new(square());
    assert!(p.can_place_at((i32::MAX, i32::MIN)));
    assert!(p.can_place_at((0, 0)));
}

#[test]
fn marking_check() {
    let mut map = GridMap { width: 3, height: 2, storage: Vec::new() };
    PhysicalSystem::clear_map(&mut map);
    assert!(PhysicalSystem::cells_markable(&map, &vec![(0, 0), (2, 1), (7, 7), (-1, 0)]));
    let short = GridMap { width: 3, height: 2, storage: vec![(false, Id::nil()); 2] };
    assert!(PhysicalSystem::cells_markable(&short, &vec![(1, 0), (9, 9)]));
    assert!(!PhysicalSystem::cells_markable(&short, &vec![(1, 0), (2, 1)]));
}

#[test]
fn rebuild_ignores_what_the_grid_held() {
    let placed = vec![
        (vec![(0, 0), (5, 5), (-1, 0), (2, 0)], Id { value: 1 }),
        (vec![(0, 0), (1, 1)], Id { value: 2 }),
    ];
    let mut a = GridMap { width: 3, height: 2, storage: vec![(true, Id { value: 9 }); 6] };
    let mut b = GridMap { width: 3, height: 2, storage: Vec::new() };
    assert!(PhysicalSystem::rebuild_possible(&a, &placed));
    PhysicalSystem::rebuild(&mut a, &placed);
    PhysicalSystem::rebuild(&mut b, &placed);
    let free = (false, Id::nil());
    let expected = vec![
        (true, Id { value: 2 }),
        free,
        (true, Id { value: 1 }),
        free,
        (true, Id { value: 2 }),
        free,
    ];
    assert_eq!(a.storage, expected);
    assert_eq!(b.storage, expected);
    PhysicalSystem::rebuild(&mut a, &placed);
    assert_eq!(a.storage, expected);
}

#[test]
fn rebuild_with_no_objects_clears() {
    let mut map = GridMap { width: 2, height: 2, storage: vec![(true, Id { value: 4 })] };
    PhysicalSystem::rebuild(&mut map, &Vec::new());
    assert_eq!(map.storage, vec![(false, Id::nil()); 4]);
}

#[test]
fn rebuild_check_rejects_oversized_grids() {
    let map = GridMap { width: 70_000, height: 70_000, storage: Vec::new() };
    assert!(!PhysicalSystem::rebuild_possible(&map, &Vec::new()));
    let small = GridMap { width: 4, height: 4, storage: Vec::new() };
    assert!(PhysicalSystem::rebuild_possible(&small, &vec![(vec![(100, 100), (-3, 2)], Id { value: 1 })]));
}
