use maze::control::{Command, Controller, DrawTypes, KeyPress};
use maze::maze::{GenerationTypes, Maze, MazeError, Sides};
use maze::node::Node;

fn cells(m: &Maze) -> Vec<(u32, u32)> {
    let mut v = Vec::new();
    for y in 0..m.height() {
        for x in 0..m.width() {
            v.push((x, y));
        }
    }
    v
}

fn root_count(m: &Maze) -> usize {
    cells(m).into_iter().filter(|&(x, y)| m.parent(x, y).is_none()).count()
}

fn edge_count(m: &Maze) -> usize {
    cells(m).into_iter().filter(|&(x, y)| m.parent(x, y).is_some()).count()
}

/// Each parent edge is listed once among the parent's children, and every
/// listed child names that parent.
fn edges_agree(m: &Maze) -> bool {
    for (x, y) in cells(m) {
        if let Some((px, py)) = m.parent(x, y) {
            if !m.children(px, py).contains(&(x, y)) {
                return false;
            }
        }
        for (cx, cy) in m.children(x, y) {
            if m.parent(cx, cy) != Some((x, y)) {
                return false;
            }
        }
    }
    true
}

fn children_unique(m: &Maze) -> bool {
    cells(m).into_iter().all(|(x, y)| {
        let kids = m.children(x, y);
        kids.iter().enumerate().all(|(i, c)| !kids[i + 1..].contains(c))
    })
}

fn parents_adjacent(m: &Maze) -> bool {
    cells(m).into_iter().all(|(x, y)| match m.parent(x, y) {
        Some((px, py)) => x.abs_diff(px) + y.abs_diff(py) == 1,
        None => true,
    })
}

fn single_tree(m: &Maze) -> bool {
    let roots: Vec<(u32, u32)> = cells(m).into_iter().filter(|&(x, y)| m.parent(x, y).is_none()).collect();
    if roots.len() != 1 {
        return false;
    }
    cells(m).into_iter().all(|(x, y)| m.find_root(x, y) == Ok(roots[0]))
}

#[test]
fn new_cell_is_bare() {
    let n = Node::new(3, 4);
    assert_eq!((n.x, n.y), (3, 4));
    assert!(!n.conn);
    assert!(n.paths.is_empty());
    assert_eq!(n.target, None);
}

#[test]
fn new_rejects_empty_grid() {
    assert!(matches!(Maze::new(0, 3), Err(MazeError::EmptyGrid)));
    assert!(matches!(Maze::new(3, 0), Err(MazeError::EmptyGrid)));
    assert!(matches!(Maze::new(0, 0), Err(MazeError::EmptyGrid)));
}

#[test]
fn new_grid_is_cleared() {
    let m = Maze::new(4, 3).unwrap();
    assert_eq!((m.width(), m.height()), (4, 3));
    for (x, y) in cells(&m) {
        assert_eq!(m.parent(x, y), None);
        assert!(m.children(x, y).is_empty());
        assert!(!m.is_visited(x, y));
        assert_eq!((m.node(x, y).x, m.node(x, y).y), (x, y));
    }
    assert_eq!(root_count(&m), 12);
}

#[test]
fn neighbours_in_corner_edge_and_middle() {
    let m = Maze::new(3, 3).unwrap();
    let mut corner = m.get_neighbours(0, 0);
    corner.sort();
    assert_eq!(corner, vec![(0, 1), (1, 0)]);
    let mut edge = m.get_neighbours(2, 1);
    edge.sort();
    assert_eq!(edge, vec![(1, 1), (2, 0), (2, 2)]);
    let mut middle = m.get_neighbours(1, 1);
    middle.sort();
    assert_eq!(middle, vec![(0, 1), (1, 0), (1, 2), (2, 1)]);
}

#[test]
fn neighbours_of_single_cell_are_none() {
    let m = Maze::new(1, 1).unwrap();
    assert!(m.get_neighbours(0, 0).is_empty());
}

#[test]
fn neighbour_order_is_shuffled() {
    let m = Maze::new(3, 3).unwrap();
    let first = m.get_neighbours(1, 1);
    let mut differs = false;
    for _ in 0..200 {
        if m.get_neighbours(1, 1) != first {
            differs = true;
        }
    }
    assert!(differs);
}

#[test]
fn random_start_varies() {
    let mut roots = Vec::new();
    for _ in 0..60 {
        let mut m = Maze::new(3, 3).unwrap();
        m.generate_random();
        let r = cells(&m).into_iter().find(|&(x, y)| m.parent(x, y).is_none()).unwrap();
        if !roots.contains(&r) {
            roots.push(r);
        }
    }
    assert!(roots.len() > 1);
}

#[test]
fn random_tree_spans_grid() {
    let mut m = Maze::new(5, 4).unwrap();
    m.clear();
    m.generate_random();
    assert_eq!(edge_count(&m), 5 * 4 - 1);
    assert_eq!(root_count(&m), 1);
    assert!(edges_agree(&m));
    assert!(single_tree(&m));
    assert!(children_unique(&m));
    assert!(parents_adjacent(&m));
    assert!(cells(&m).into_iter().all(|(x, y)| m.is_visited(x, y)));
}

#[test]
fn random_tree_on_one_row() {
    let mut m = Maze::new(6, 1).unwrap();
    m.generate_random();
    assert_eq!(edge_count(&m), 5);
    assert!(edges_agree(&m));
    assert!(single_tree(&m));
}

#[test]
fn random_tree_single_cell() {
    let mut m = Maze::new(1, 1).unwrap();
    m.generate_random();
    assert_eq!(m.parent(0, 0), None);
    assert!(m.children(0, 0).is_empty());
    assert!(m.is_visited(0, 0));
}

#[test]
fn random_tree_two_by_two() {
    let mut m = Maze::new(2, 2).unwrap();
    m.clear();
    m.generate_random();
    assert_eq!(edge_count(&m), 3);
    let total: usize = cells(&m).into_iter().map(|(x, y)| m.children(x, y).len()).sum();
    assert_eq!(total, 3);
    assert!(edges_agree(&m));
    assert!(children_unique(&m));
    assert!(parents_adjacent(&m));
    assert!(single_tree(&m));
}

#[test]
fn gen_dispatches() {
    let mut m = Maze::new(3, 2).unwrap();
    m.gen(GenerationTypes::HUNTANDKILL);
    assert_eq!(root_count(&m), 6);
    m.gen(GenerationTypes::TEMPLATE);
    assert_eq!(m.parent(2, 1), Some((1, 1)));
    m.clear();
    m.gen(GenerationTypes::DEPTHFIRST);
    assert_eq!(edge_count(&m), 5);
}

#[test]
fn template_three_by_three() {
    let mut m = Maze::new(3, 3).unwrap();
    m.clear();
    m.generate_template();
    assert_eq!(m.parent(0, 0), None);
    assert_eq!(m.parent(1, 0), Some((0, 0)));
    assert_eq!(m.parent(0, 1), Some((0, 0)));
    assert_eq!(m.parent(2, 2), Some((1, 2)));
    assert_eq!(m.children(0, 0), vec![(0, 1), (1, 0)]);
    assert_eq!(m.children(1, 2), vec![(2, 2)]);
    assert!(m.children(2, 2).is_empty());
}

#[test]
fn template_is_one_shallow_tree() {
    let (w, h) = (4u32, 3u32);
    let mut m = Maze::new(w, h).unwrap();
    m.generate_random();
    m.clear();
    m.generate_template();
    assert_eq!(root_count(&m), 1);
    assert!(edges_agree(&m));
    for (x, y) in cells(&m) {
        assert_eq!(m.find_root(x, y), Ok((0, 0)));
        let mut depth = 0;
        let mut at = (x, y);
        while let Some(p) = m.parent(at.0, at.1) {
            at = p;
            depth += 1;
        }
        assert_eq!(depth, x + y);
        assert!(depth <= w + h - 1);
    }
}

#[test]
fn clear_resets_everything() {
    let mut m = Maze::new(3, 3).unwrap();
    m.generate_random();
    m.clear();
    for (x, y) in cells(&m) {
        assert_eq!(m.parent(x, y), None);
        assert!(m.children(x, y).is_empty());
        assert!(!m.is_visited(x, y));
    }
    m.clear();
    assert_eq!(root_count(&m), 9);
}

#[test]
fn find_root_is_idempotent() {
    let mut m = Maze::new(4, 4).unwrap();
    m.generate_random();
    for (x, y) in cells(&m) {
        let r = m.find_root(x, y).unwrap();
        assert_eq!(m.find_root(r.0, r.1), Ok(r));
    }
}

#[test]
fn find_root_on_cleared_grid_is_the_cell() {
    let m = Maze::new(2, 3).unwrap();
    assert_eq!(m.find_root(1, 2), Ok((1, 2)));
}

#[test]
fn shift_to_reverses_edge_to_child() {
    let mut m = Maze::new(3, 1).unwrap();
    m.generate_template();
    m.shift_to((0, 0), (1, 0));
    assert_eq!(m.parent(1, 0), None);
    assert_eq!(m.parent(0, 0), Some((1, 0)));
    assert_eq!(m.parent(2, 0), Some((1, 0)));
    assert!(m.children(0, 0).is_empty());
    assert_eq!(m.children(1, 0), vec![(2, 0), (0, 0)]);
    assert!(edges_agree(&m));
}

#[test]
fn shift_to_detaches_from_old_parent() {
    let mut m = Maze::new(2, 2).unwrap();
    m.generate_template();
    // (1, 1) hangs from (0, 1); moving the root (0, 0) to (1, 0) leaves it alone.
    m.shift_to((0, 0), (1, 0));
    assert_eq!(m.parent(1, 0), None);
    assert_eq!(m.parent(0, 0), Some((1, 0)));
    assert!(!m.children(0, 0).contains(&(1, 0)));
    assert_eq!(m.children(1, 0), vec![(0, 0)]);
    assert!(edges_agree(&m));
    assert!(single_tree(&m));
}

#[test]
fn shift_keeps_one_tree() {
    let mut m = Maze::new(4, 3).unwrap();
    m.generate_random();
    let mut origin = m.find_root(0, 0).unwrap();
    for _ in 0..100 {
        let next = m.shift(Some(origin)).unwrap();
        assert!(m.get_neighbours(origin.0, origin.1).contains(&next));
        assert_eq!(m.parent(next.0, next.1), None);
        assert_eq!(m.parent(origin.0, origin.1), Some(next));
        assert_eq!(root_count(&m), 1);
        assert!(edges_agree(&m));
        assert!(children_unique(&m));
        assert!(single_tree(&m));
        origin = next;
    }
}

#[test]
fn shift_from_non_root_uses_its_root() {
    let mut m = Maze::new(3, 3).unwrap();
    m.generate_template();
    let next = m.shift(Some((2, 2))).unwrap();
    assert!(next == (1, 0) || next == (0, 1));
    assert_eq!(m.parent(0, 0), Some(next));
    assert!(single_tree(&m));
}

#[test]
fn shift_without_origin() {
    let mut m = Maze::new(3, 3).unwrap();
    m.generate_random();
    for _ in 0..20 {
        m.shift(None).unwrap();
        assert_eq!(root_count(&m), 1);
        assert!(edges_agree(&m));
    }
}

#[test]
fn shift_never_adds_roots() {
    let mut m = Maze::new(3, 3).unwrap();
    for _ in 0..30 {
        let before = root_count(&m);
        m.shift(None).unwrap();
        assert!(root_count(&m) <= before);
        assert!(edges_agree(&m));
    }
}

#[test]
fn shift_on_single_cell_stays() {
    let mut m = Maze::new(1, 1).unwrap();
    assert_eq!(m.shift(Some((0, 0))), Ok((0, 0)));
    assert_eq!(m.shift(None), Ok((0, 0)));
    assert_eq!(m.parent(0, 0), None);
}

#[test]
fn open_sides_follow_edges() {
    let mut m = Maze::new(3, 3).unwrap();
    m.generate_template();
    assert_eq!(m.open_sides(0, 0), Sides { east: true, west: false, south: true, north: false });
    assert_eq!(m.open_sides(1, 1), Sides { east: true, west: true, south: false, north: false });
    assert_eq!(m.open_sides(0, 2), Sides { east: true, west: false, south: false, north: true });
    m.clear();
    assert_eq!(m.open_sides(1, 1), Sides { east: false, west: false, south: false, north: false });
}

#[test]
fn controller_keys() {
    let mut c = Controller::new();
    assert_eq!(c.draw_mode, DrawTypes::WALLS);
    assert_eq!(c.on_key(KeyPress::Escape), Command::Quit);
    assert_eq!(c.on_key(KeyPress::Space), Command::Generate);
    assert_eq!(c.on_key(KeyPress::T), Command::Template);
    assert_eq!(c.on_key(KeyPress::C), Command::Clear);
    assert_eq!(c.on_key(KeyPress::R), Command::Reroot);
    assert_eq!(c.on_key(KeyPress::Other), Command::Nothing);
    assert_eq!(c.tick(), None);
    assert_eq!(c.on_key(KeyPress::S), Command::Nothing);
    assert_eq!(c.tick(), Some((0, 0)));
    c.grown((2, 1));
    assert_eq!(c.tick(), Some((2, 1)));
    assert_eq!(c.on_key(KeyPress::S), Command::Nothing);
    assert_eq!(c.tick(), None);
}

#[test]
fn controller_draw_modes_wrap() {
    let mut c = Controller::new();
    assert_eq!(c.on_key(KeyPress::Up), Command::Redraw);
    assert_eq!(c.draw_mode, DrawTypes::WALLS);
    c.on_key(KeyPress::Up);
    assert_eq!(c.draw_mode, DrawTypes::PATHS);
    c.on_key(KeyPress::Up);
    assert_eq!(c.draw_mode, DrawTypes::ALL);
    assert_eq!(c.on_key(KeyPress::Down), Command::Redraw);
    assert_eq!(c.draw_mode, DrawTypes::PATHS);
    c.on_key(KeyPress::Down);
    assert_eq!(c.draw_mode, DrawTypes::WALLS);
}

#[test]
fn neighbours_follow_popped_directions() {
    let m = Maze::new(3, 3).unwrap();
    assert_eq!(m.neighbours_in_order(1, 1, vec![0, 1, 2, 3]), vec![(1, 0), (1, 2), (0, 1), (2, 1)]);
    assert_eq!(m.neighbours_in_order(1, 1, vec![3, 2, 1, 0]), vec![(2, 1), (0, 1), (1, 2), (1, 0)]);
    assert_eq!(m.neighbours_in_order(0, 0, vec![2, 1, 0, 3]), vec![(1, 0), (0, 1)]);
    assert_eq!(m.neighbours_in_order(0, 0, vec![9, 1]), vec![]);
}

#[test]
fn visited_cells_stay_walls() {
    let mut m = Maze::new(4, 4).unwrap();
    m.generate_random();
    let before: Vec<Option<(u32, u32)>> = cells(&m).into_iter().map(|(x, y)| m.parent(x, y)).collect();
    m.generate_random();
    let after: Vec<Option<(u32, u32)>> = cells(&m).into_iter().map(|(x, y)| m.parent(x, y)).collect();
    assert_eq!(before, after);
}

#[test]
fn reroot_after_clear_succeeds() {
    let mut m = Maze::new(3, 2).unwrap();
    m.clear();
    for _ in 0..30 {
        let r = m.shift(None).unwrap();
        assert!(r.0 < 3 && r.1 < 2);
        assert!(edges_agree(&m));
        assert!(children_unique(&m));
    }
}
