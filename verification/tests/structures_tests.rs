use ripgzip::combinations;
use ripgzip::longest_common_prefix;
use ripgzip::Cell;
use ripgzip::FlatMap;
use ripgzip::GameOfLife;
use ripgzip::Grid;
use ripgzip::LRUCache;
use ripgzip::MinQueue;
use ripgzip::MinStack;
use ripgzip::PStack;

#[test]
fn combinations_of_four_choose_two() {
    let r = combinations(&[1, 2, 3, 4], 2);
    let expected: Vec<Vec<i32>> = vec![
        vec![1, 2],
        vec![1, 3],
        vec![1, 4],
        vec![2, 3],
        vec![2, 4],
        vec![3, 4],
    ];
    assert_eq!(r, expected);
}

#[test]
fn combinations_edge_cases() {
    assert_eq!(combinations(&[], 0), vec![Vec::<i32>::new()]);
    assert_eq!(combinations(&[5], 2), Vec::<Vec<i32>>::new());
    assert_eq!(combinations(&[7, 8], 1), vec![vec![7], vec![8]]);
}

#[test]
fn longest_common_prefix_cases() {
    assert_eq!(longest_common_prefix(vec!["flower", "flow", "flight"]), "fl");
    assert_eq!(longest_common_prefix(vec!["dog", "racecar", "car"]), "");
    assert_eq!(longest_common_prefix(vec![]), "");
    assert_eq!(longest_common_prefix(vec!["alone"]), "alone");
    assert_eq!(longest_common_prefix(vec!["same", "same"]), "same");
}

#[test]
fn game_of_life_blinker_oscillates() {
    let mut grid: Grid<Cell> = Grid::new(3, 3);
    grid.set(Cell::Alive, 0, 1);
    grid.set(Cell::Alive, 1, 1);
    grid.set(Cell::Alive, 2, 1);
    let mut game = GameOfLife::from_grid(grid);
    game.step();
    let g = game.get_grid();
    assert_eq!(*g.get(1, 0), Cell::Alive);
    assert_eq!(*g.get(1, 1), Cell::Alive);
    assert_eq!(*g.get(1, 2), Cell::Alive);
    assert_eq!(*g.get(0, 1), Cell::Dead);
    assert_eq!(*g.get(2, 1), Cell::Dead);
    assert_eq!(g.size(), (3, 3));
}

#[test]
fn grid_neighbours_at_corner_and_center() {
    let grid: Grid<Cell> = Grid::new(3, 3);
    assert_eq!(grid.neighbours(0, 0).len(), 3);
    assert_eq!(grid.neighbours(1, 1).len(), 8);
    assert_eq!(grid.neighbours(0, 1).len(), 5);
    assert!(grid.is_valid(2, 2));
    assert!(!grid.is_valid(3, 0));
    assert!(!grid.is_valid(-1, 0));
}

#[test]
fn flat_map_insert_get_remove() {
    let mut m: FlatMap<&str> = FlatMap::new();
    assert!(m.is_empty());
    assert_eq!(m.insert(20, "twenty"), None);
    assert_eq!(m.insert(10, "ten"), None);
    assert_eq!(m.insert(30, "thirty"), None);
    assert_eq!(m.len(), 3);
    assert_eq!(m.get(10), Some(&"ten"));
    assert_eq!(m.get(20), Some(&"twenty"));
    assert_eq!(m.get(30), Some(&"thirty"));
    assert_eq!(m.get(15), None);
    assert_eq!(m.insert(20, "TWENTY"), Some("twenty"));
    assert_eq!(m.len(), 3);
    assert_eq!(m.get(20), Some(&"TWENTY"));
    assert_eq!(m.remove(10), Some("ten"));
    assert_eq!(m.remove(10), None);
    assert_eq!(m.len(), 2);
    assert_eq!(m.remove_entry(30), Some((30, "thirty")));
    assert_eq!(m.as_slice().len(), 1);
    assert!(m.capacity() >= 1);
}

#[test]
fn min_stack_tracks_minimum() {
    let mut s = MinStack::new();
    assert_eq!(s.min(), None);
    s.push(5);
    s.push(3);
    s.push(7);
    assert_eq!(s.min(), Some(3));
    assert_eq!(s.top(), Some(7));
    assert_eq!(s.bottom(), Some(5));
    assert_eq!(s.len(), 3);
    assert_eq!(s.pop(), Some(7));
    assert_eq!(s.pop(), Some(3));
    assert_eq!(s.min(), Some(5));
    assert_eq!(s.pop(), Some(5));
    assert_eq!(s.pop(), None);
    assert!(s.is_empty());
}

#[test]
fn min_queue_is_first_in_first_out() {
    let mut q = MinQueue::new();
    q.push(4);
    q.push(1);
    q.push(3);
    assert_eq!(q.len(), 3);
    assert_eq!(q.front(), Some(4));
    assert_eq!(q.min(), Some(1));
    assert_eq!(q.pop(), Some(4));
    assert_eq!(q.min(), Some(1));
    q.push(0);
    assert_eq!(q.min(), Some(0));
    assert_eq!(q.pop(), Some(1));
    assert_eq!(q.pop(), Some(3));
    assert_eq!(q.pop(), Some(0));
    assert_eq!(q.pop(), None);
    assert!(q.is_empty());
}

#[test]
fn pstack_sharing_is_persistent() {
    let empty: PStack<u32> = PStack::new();
    assert!(empty.is_empty());
    assert!(empty.pop().is_none());
    let one = empty.push(1);
    let two = one.push(2);
    assert_eq!(one.len(), 1);
    assert_eq!(two.len(), 2);
    let (top, rest) = two.pop().unwrap();
    assert_eq!(*top.value(), 2);
    assert_eq!(rest.len(), 1);
    let (top1, rest1) = rest.pop().unwrap();
    assert_eq!(*top1.value(), 1);
    assert!(rest1.is_empty());
    // The original stack is untouched by the pops.
    assert_eq!(two.len(), 2);
    let mut it = two.iter();
    assert_eq!(*it.next().unwrap().value(), 2);
    assert_eq!(*it.next().unwrap().value(), 1);
    assert!(it.next().is_none());
}

#[test]
fn lru_cache_evicts_least_recently_used() {
    let mut cache: LRUCache<&str> = LRUCache::new(2);
    assert_eq!(cache.insert(1, "one"), None);
    assert_eq!(cache.insert(2, "two"), None);
    assert_eq!(cache.get(&1), Some(&"one"));
    // Key 2 is now the least recently used and gets evicted.
    assert_eq!(cache.insert(3, "three"), None);
    assert_eq!(cache.get(&2), None);
    assert_eq!(cache.get(&1), Some(&"one"));
    assert_eq!(cache.get(&3), Some(&"three"));
    assert_eq!(cache.insert(1, "uno"), Some("one"));
    assert_eq!(cache.get(&1), Some(&"uno"));
}
