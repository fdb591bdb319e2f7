use std::collections::HashMap;
use yuanshen::{GraphError, Graphics, State, Units};

fn two_moves() -> HashMap<usize, Vec<usize>> {
    let mut m = HashMap::new();
    m.insert(0usize, vec![0usize]);
    m.insert(1usize, vec![1usize]);
    m
}

fn u(v: Vec<i32>, m: i32) -> Units {
    Units::with_units(v, m)
}

fn states(x: &Units) -> Vec<i32> {
    (0..x.len()).map(|i| x.get_state(i)).collect()
}

#[test]
fn enumeration_two_by_two() {
    let zero = Units::new(2, 2);
    let end = u(vec![1, 1], 2);
    let g = Graphics::new(&zero, &end).unwrap();
    assert_eq!(g.get_units_count(), 4);
    let got: Vec<Vec<i32>> = (0..4).map(|i| states(g.get_units(i))).collect();
    assert_eq!(got, vec![vec![0, 0], vec![1, 0], vec![0, 1], vec![1, 1]]);
}

#[test]
fn successor_wraps_after_last() {
    let last = u(vec![1, 1], 2);
    assert_eq!(states(&last.next_units()), vec![0, 0]);
    let mid = u(vec![2, 0, 1], 3);
    assert_eq!(states(&mid.next_units()), vec![0, 1, 1]);
    let carry = u(vec![2, 2, 1], 3);
    assert_eq!(states(&carry.next_units()), vec![0, 0, 2]);
}

#[test]
fn enumeration_from_middle_wraps_to_end() {
    let beg = u(vec![1, 1], 2);
    let end = u(vec![0, 1], 2);
    let g = Graphics::new(&beg, &end).unwrap();
    let got: Vec<Vec<i32>> = (0..g.get_units_count()).map(|i| states(g.get_units(i))).collect();
    assert_eq!(got, vec![vec![1, 1], vec![0, 0], vec![1, 0], vec![0, 1]]);
}

#[test]
fn enumeration_single_node() {
    let beg = u(vec![2, 1], 3);
    let g = Graphics::new(&beg, &beg.clone()).unwrap();
    assert_eq!(g.get_units_count(), 1);
    let r: Result<Graphics, GraphError> = Graphics::new(&beg, &beg);
    assert!(r.is_ok());
}

#[test]
fn attack_wraps() {
    let mut x = Units::new(2, 2);
    x.attack(&[0]);
    assert_eq!(states(&x), vec![1, 0]);
    x.attack(&[0]);
    assert_eq!(states(&x), vec![0, 0]);
}

#[test]
fn attack_repeated_index_counts_twice() {
    let mut x = u(vec![0, 1, 2], 3);
    x.attack(&[2, 0, 2]);
    assert_eq!(states(&x), vec![1, 1, 1]);
}

#[test]
fn find_attack_index_single_moves() {
    let map = two_moves();
    let a = u(vec![0, 0], 2);
    assert_eq!(a.find_attack_index(&u(vec![1, 0], 2), &map), Some(0));
    assert_eq!(a.find_attack_index(&u(vec![0, 1], 2), &map), Some(1));
    assert_eq!(a.find_attack_index(&u(vec![1, 1], 2), &map), None);
}

#[test]
fn find_attack_index_lowest_id_wins() {
    let mut map = HashMap::new();
    map.insert(0usize, vec![0usize, 1]);
    map.insert(1usize, vec![1usize, 0]);
    let a = u(vec![0, 0], 2);
    assert_eq!(a.find_attack_index(&u(vec![1, 1], 2), &map), Some(0));
}

#[test]
fn find_attack_index_wraps_modulus() {
    let map = two_moves();
    let a = u(vec![2, 1], 3);
    assert_eq!(a.find_attack_index(&u(vec![0, 1], 3), &map), Some(0));
    assert_eq!(a.find_attack_index(&u(vec![2, 2], 3), &map), Some(1));
    assert_eq!(a.find_attack_index(&u(vec![2, 1], 3), &map), None);
}

fn full_graph(n: usize, m: i32, map: &HashMap<usize, Vec<usize>>) -> Graphics {
    let zero = Units::new(n, m);
    let end = u(vec![m - 1; n], m);
    let mut g = Graphics::new(&zero, &end).unwrap();
    g.init_link(map);
    g
}

#[test]
fn links_of_two_by_two() {
    let g = full_graph(2, 2, &two_moves());
    assert_eq!(g.get_links(0), &vec![Some(1), Some(2)]);
    assert_eq!(g.get_links(1), &vec![Some(0), Some(3)]);
    assert_eq!(g.get_links(2), &vec![Some(3), Some(0)]);
    assert_eq!(g.get_links(3), &vec![Some(2), Some(1)]);
}

#[test]
fn end_to_end_two_by_two() {
    let g = full_graph(2, 2, &two_moves());
    let path = g.find_path(&u(vec![0, 0], 2), &[u(vec![1, 1], 2)]).unwrap();
    assert_eq!(path.len(), 3);
    assert_eq!(states(&path[0].0), vec![0, 0]);
    assert_eq!(path[0].1, 0);
    assert_eq!(states(&path[1].0), vec![1, 0]);
    assert_eq!(path[1].1, 1);
    assert_eq!(states(&path[2].0), vec![1, 1]);
    assert_eq!(path[2].1, 0);
}

#[test]
fn path_steps_replay_with_attack() {
    let mut map = HashMap::new();
    map.insert(0usize, vec![0usize, 1]);
    map.insert(1usize, vec![1usize, 2]);
    map.insert(2usize, vec![2usize]);
    let g = full_graph(3, 3, &map);
    let target = u(vec![2, 1, 0], 3);
    let path = g.find_path(&u(vec![0, 0, 0], 3), &[target.clone()]).unwrap();
    let mut cur = path[0].0.clone();
    for k in 0..path.len() - 1 {
        assert!(cur == path[k].0);
        cur.attack(&map[&path[k].1]);
    }
    assert!(cur == target);
    assert!(*path.last().map(|s| &s.0).unwrap() == target);
}

#[test]
fn begin_already_an_end() {
    let g = full_graph(2, 2, &two_moves());
    let path = g
        .find_path(&u(vec![1, 0], 2), &[u(vec![1, 1], 2), u(vec![1, 0], 2)])
        .unwrap();
    assert_eq!(path.len(), 1);
    assert_eq!(states(&path[0].0), vec![1, 0]);
    assert_eq!(path[0].1, 0);
}

#[test]
fn begin_outside_enumeration() {
    let zero = Units::new(2, 3);
    let end = u(vec![1, 0], 3);
    let mut g = Graphics::new(&zero, &end).unwrap();
    g.init_link(&two_moves());
    assert!(g.find_path(&u(vec![2, 2], 3), &[u(vec![1, 0], 3)]).is_none());
}

#[test]
fn no_end_reachable() {
    let mut map = HashMap::new();
    map.insert(0usize, vec![0usize, 1]);
    map.insert(1usize, vec![0usize, 1]);
    let g = full_graph(2, 2, &map);
    assert!(g.find_path(&u(vec![0, 0], 2), &[u(vec![1, 0], 2)]).is_none());
    assert!(g.find_path(&u(vec![0, 0], 2), &[]).is_none());
}

#[test]
fn rebuild_gives_same_graph() {
    let map = two_moves();
    let g1 = full_graph(2, 3, &map);
    let g2 = full_graph(2, 3, &map);
    assert_eq!(g1.get_units_count(), g2.get_units_count());
    for i in 0..g1.get_units_count() {
        assert!(g1.get_units(i) == g2.get_units(i));
        assert_eq!(g1.get_links(i), g2.get_links(i));
    }
}

#[test]
fn accessors() {
    let mut x = Units::new(3, 4);
    assert_eq!(x.len(), 3);
    assert_eq!(x.max_state(), 4);
    x.set_units(1, 3);
    x.set_state(2, 2);
    assert_eq!(*x.get_units(1), 3);
    assert_eq!(states(&x), vec![0, 3, 2]);
    let mut s: i32 = 5;
    s.set_state(7);
    assert_eq!(s.get_state(), 7);
}

#[test]
fn units_equality_includes_modulus() {
    assert!(u(vec![1, 0], 2) == u(vec![1, 0], 2));
    assert!(u(vec![1, 0], 2) != u(vec![1, 0], 3));
    assert!(u(vec![1, 0], 2) != u(vec![1], 2));
}

#[test]
fn validators() {
    let map = two_moves();
    assert!(yuanshen::table_covers(&map, 2));
    assert!(!yuanshen::table_covers(&map, 3));
    assert!(yuanshen::table_covers(&HashMap::new(), 0));
    assert!(yuanshen::states_in_range(&vec![0, 2, 1], 3));
    assert!(!yuanshen::states_in_range(&vec![0, 3], 3));
    assert!(!yuanshen::states_in_range(&vec![-1], 3));
}
