use spatial_neighbors::grid::Grid;
use spatial_neighbors::list::List;
use spatial_neighbors::quad_tree::QuadTree;
use spatial_neighbors::spatial_hash::SpatialHash;
use spatial_neighbors::{InsertError, SpatialPartitioner};

fn lattice_entries() -> Vec<((i64, i64), i32)> {
    let mut entries = Vec::new();
    for x in -50..50_i32 {
        for y in -50..50_i32 {
            let payload = (x + 50) * 100 + y;
            if payload % 3 == 0 || payload % 4 == 0 {
                continue;
            }
            entries.push(((x as i64, y as i64), payload));
        }
    }
    entries
}

fn sorted(mut v: Vec<i32>) -> Vec<i32> {
    v.sort();
    v
}

// The concrete lattice scenario: equal-length answers from the list, grids of
// several cell counts, and quadtrees of several capacities.
#[test]
fn lattice_scenario_all_structures_agree() {
    let entries = lattice_entries();

    let mut list = List::new();
    for &(pos, payload) in &entries {
        list.insert(pos, payload).unwrap();
    }
    let expected = sorted(list.in_circle((0, 0), 10));
    assert!(!expected.is_empty());

    for cells in [4, 7, 100, 1000] {
        let mut grid = Grid::new((-50, 50), (-50, 50), (cells, cells));
        for &(pos, payload) in &entries {
            grid.insert(pos, payload).unwrap();
        }
        assert_eq!(sorted(grid.in_circle((0, 0), 10)), expected);
    }

    for capacity in [4, 7, 100, 1000] {
        let mut tree = QuadTree::new((-50, 50), (-50, 50), capacity);
        for &(pos, payload) in &entries {
            tree.insert(pos, payload).unwrap();
        }
        assert_eq!(sorted(tree.in_circle((0, 0), 10)), expected);
    }
}

// An empty structure answers every query with nothing and counts zero.
#[test]
fn empty_structures_answer_empty() {
    let list: List<i32> = List::new();
    let grid: Grid<i32> = Grid::new((-50, 50), (-50, 50), (10, 10));
    let tree: QuadTree<i32> = QuadTree::new((-50, 50), (-50, 50), 4);
    let hash: SpatialHash<i32> = SpatialHash::new((-50, 50), (-50, 50), 10, 10);

    for center in [(0, 0), (-49, 12), (200, -300)] {
        for radius in [0, 1, 50, 10_000] {
            assert!(list.in_circle(center, radius).is_empty());
            assert!(grid.in_circle(center, radius).is_empty());
            assert!(tree.in_circle(center, radius).is_empty());
            assert!(hash.in_circle(center, radius).is_empty());
        }
    }
    assert_eq!(list.count(), 0);
    assert_eq!(grid.count(), 0);
    assert_eq!(tree.count(), 0);
    assert_eq!(hash.count(), 0);
}

// A point at exactly the query radius is included; one unit further is not.
#[test]
fn boundary_distance_is_included() {
    let mut list = List::new();
    let mut grid = Grid::new((-50, 50), (-50, 50), (7, 7));
    let mut tree = QuadTree::new((-50, 50), (-50, 50), 4);

    // (3, 4) lies at distance exactly 5 from the origin
    list.insert((3, 4), 1).unwrap();
    grid.insert((3, 4), 1).unwrap();
    tree.insert((3, 4), 1).unwrap();

    assert_eq!(list.in_circle((0, 0), 5), vec![1]);
    assert_eq!(grid.in_circle((0, 0), 5), vec![1]);
    assert_eq!(tree.in_circle((0, 0), 5), vec![1]);

    assert!(list.in_circle((0, 0), 4).is_empty());
    assert!(grid.in_circle((0, 0), 4).is_empty());
    assert!(tree.in_circle((0, 0), 4).is_empty());

    // radius zero finds exactly the point at the center
    assert_eq!(list.in_circle((3, 4), 0), vec![1]);
    assert_eq!(grid.in_circle((3, 4), 0), vec![1]);
    assert_eq!(tree.in_circle((3, 4), 0), vec![1]);
}

// Checked insert fails with OutOfBounds exactly on the half-open domain
// boundary; unchecked insert accepts any position.
#[test]
fn bounds_enforcement_half_open() {
    let mut grid = Grid::new((-50, 50), (-50, 50), (10, 10));
    let mut tree = QuadTree::new((-50, 50), (-50, 50), 4);
    let mut hash = SpatialHash::new((-50, 50), (-50, 50), 10, 10);

    // the minimum corner is inside, the maximum corner is not
    assert_eq!(grid.insert((-50, -50), 1), Ok(()));
    assert_eq!(tree.insert((-50, -50), 1), Ok(()));
    assert_eq!(hash.insert((-50, -50), 1), Ok(()));

    assert_eq!(grid.insert((50, 0), 2), Err(InsertError::OutOfBounds));
    assert_eq!(grid.insert((0, 50), 2), Err(InsertError::OutOfBounds));
    assert_eq!(grid.insert((-51, 0), 2), Err(InsertError::OutOfBounds));
    assert_eq!(tree.insert((50, 0), 2), Err(InsertError::OutOfBounds));
    assert_eq!(tree.insert((0, -51), 2), Err(InsertError::OutOfBounds));
    assert_eq!(hash.insert((50, 50), 2), Err(InsertError::OutOfBounds));

    assert_eq!(grid.count(), 1);
    assert_eq!(tree.count(), 1);
    assert_eq!(hash.count(), 1);

    // unchecked inserts never fail, wherever the position lies
    grid.insert_unchecked((1000, -1000), 3);
    tree.insert_unchecked((1000, -1000), 3);
    hash.insert_unchecked((1000, -1000), 3);
    assert_eq!(grid.count(), 2);
    assert_eq!(tree.count(), 2);
    assert_eq!(hash.count(), 2);

    // a list has no domain at all
    let mut list = List::new();
    assert_eq!(list.insert((1_000_000, -1_000_000), 4), Ok(()));
    list.insert_unchecked((-1_000_000, 1_000_000), 5);
    assert_eq!(list.count(), 2);
}

// count() tracks inserts; clear() resets it and later inserts behave as on a
// fresh structure with the same parameters.
#[test]
fn clear_resets_and_geometry_persists() {
    let entries = lattice_entries();

    let mut grid = Grid::new((-50, 50), (-50, 50), (13, 9));
    let mut tree = QuadTree::new((-50, 50), (-50, 50), 6);
    for &(pos, payload) in &entries {
        grid.insert(pos, payload).unwrap();
        tree.insert(pos, payload).unwrap();
    }
    let fresh_grid_answer = sorted(grid.in_circle((7, -3), 12));
    let fresh_tree_answer = sorted(tree.in_circle((7, -3), 12));
    assert_eq!(grid.count(), entries.len());
    assert_eq!(tree.count(), entries.len());

    grid.clear();
    tree.clear();
    assert_eq!(grid.count(), 0);
    assert_eq!(tree.count(), 0);
    assert!(grid.in_circle((7, -3), 12).is_empty());
    assert!(tree.in_circle((7, -3), 12).is_empty());
    assert!(grid.in_circle((0, 0), 100).is_empty());
    assert!(tree.in_circle((0, 0), 100).is_empty());

    // the domain is unchanged: the same inserts land, the same answers return
    for &(pos, payload) in &entries {
        grid.insert(pos, payload).unwrap();
        tree.insert(pos, payload).unwrap();
    }
    assert_eq!(grid.count(), entries.len());
    assert_eq!(tree.count(), entries.len());
    assert_eq!(sorted(grid.in_circle((7, -3), 12)), fresh_grid_answer);
    assert_eq!(sorted(tree.in_circle((7, -3), 12)), fresh_tree_answer);
    assert_eq!(grid.insert((50, 0), 9), Err(InsertError::OutOfBounds));
    assert_eq!(tree.insert((50, 0), 9), Err(InsertError::OutOfBounds));
}

// Inserting the same entries in reverse order leaves count and every query
// answer (as a multiset) unchanged.
#[test]
fn insertion_order_does_not_matter() {
    let entries = lattice_entries();
    let mut reversed = entries.clone();
    reversed.reverse();

    let mut grid_a = Grid::new((-50, 50), (-50, 50), (11, 17));
    let mut grid_b = Grid::new((-50, 50), (-50, 50), (11, 17));
    let mut tree_a = QuadTree::new((-50, 50), (-50, 50), 5);
    let mut tree_b = QuadTree::new((-50, 50), (-50, 50), 5);
    for &(pos, payload) in &entries {
        grid_a.insert(pos, payload).unwrap();
        tree_a.insert(pos, payload).unwrap();
    }
    for &(pos, payload) in &reversed {
        grid_b.insert(pos, payload).unwrap();
        tree_b.insert(pos, payload).unwrap();
    }

    assert_eq!(grid_a.count(), grid_b.count());
    assert_eq!(tree_a.count(), tree_b.count());
    for center in [(0, 0), (-20, 35), (49, -49)] {
        for radius in [0, 3, 17, 80] {
            assert_eq!(
                sorted(grid_a.in_circle(center, radius)),
                sorted(grid_b.in_circle(center, radius))
            );
            assert_eq!(
                sorted(tree_a.in_circle(center, radius)),
                sorted(tree_b.in_circle(center, radius))
            );
        }
    }
}

// A dense cell fully inside the circle takes the bulk path: the answer must
// still be the exact payload multiset, duplicates included.
#[test]
fn dense_cell_bulk_accept_is_exact() {
    let mut grid = Grid::new((0, 8), (0, 8), (2, 2));
    let mut tree = QuadTree::new((0, 8), (0, 8), 3);
    let mut list = List::new();
    // seven entries crowded into the low cell, one of them twice
    let points = [(1, 1), (1, 2), (2, 1), (2, 2), (3, 3), (1, 1), (0, 0)];
    for (i, &pos) in points.iter().enumerate() {
        grid.insert(pos, i as i32).unwrap();
        tree.insert(pos, i as i32).unwrap();
        list.insert(pos, i as i32).unwrap();
    }
    // far entry in another cell, outside the circle below
    grid.insert((7, 7), 99).unwrap();
    tree.insert((7, 7), 99).unwrap();
    list.insert((7, 7), 99).unwrap();

    // the circle around (2, 2) with radius 6 encloses the whole low cell
    let expected = sorted(list.in_circle((2, 2), 6));
    assert_eq!(expected, vec![0, 1, 2, 3, 4, 5, 6]);
    assert_eq!(sorted(grid.in_circle((2, 2), 6)), expected);
    assert_eq!(sorted(tree.in_circle((2, 2), 6)), expected);
}

// Exact answers on a handful of points, checked against values computed by
// hand.
#[test]
fn three_point_exact_answers() {
    let mut grid = Grid::new((-10, 10), (-10, 10), (4, 4));
    let mut tree = QuadTree::new((-10, 10), (-10, 10), 2);
    grid.insert((0, 0), 10).unwrap();
    grid.insert((4, 0), 20).unwrap();
    grid.insert((0, -6), 30).unwrap();
    tree.insert((0, 0), 10).unwrap();
    tree.insert((4, 0), 20).unwrap();
    tree.insert((0, -6), 30).unwrap();

    assert_eq!(sorted(grid.in_circle((0, 0), 4)), vec![10, 20]);
    assert_eq!(sorted(tree.in_circle((0, 0), 4)), vec![10, 20]);
    assert_eq!(sorted(grid.in_circle((0, 0), 6)), vec![10, 20, 30]);
    assert_eq!(sorted(tree.in_circle((0, 0), 6)), vec![10, 20, 30]);
    assert_eq!(sorted(grid.in_circle((2, -3), 2)), vec![]);
    assert_eq!(sorted(tree.in_circle((2, -3), 2)), vec![]);
}

// The grid's cell accessors expose its configured geometry.
#[test]
fn grid_cell_accessors() {
    let mut grid = Grid::new((-50, 50), (-50, 50), (10, 5));
    assert_eq!(grid.cell_count(), (10, 5));
    // exact per-axis cell sizes as (extent, cells) fractions: 100/10 and 100/5
    assert_eq!(grid.cell_size(), ((100, 10), (100, 5)));

    grid.insert((-50, -50), 7).unwrap();
    grid.insert((-45, -45), 8).unwrap();
    grid.insert((0, 0), 9).unwrap();
    let low_cell = grid.cell((0, 0));
    assert_eq!(low_cell.len(), 2);
    assert_eq!(low_cell[0], ((-50, -50), 7));
    assert_eq!(low_cell[1], ((-45, -45), 8));
    assert_eq!(grid.cell((5, 2)).len(), 1);
    assert_eq!(grid.cell((9, 4)).len(), 0);
}

// A min-size quadtree keeps accepting entries at the floor without splitting
// further, and still answers exactly.
#[test]
fn quad_tree_min_size_soft_cap() {
    let mut tree = QuadTree::new_min_size((-50, 50), (-50, 50), 2, 25);
    let mut list = List::new();
    // crowd one spot far past the capacity
    for i in 0..20 {
        tree.insert((-40, -40), i).unwrap();
        list.insert((-40, -40), i).unwrap();
    }
    tree.insert((40, 40), 99).unwrap();
    list.insert((40, 40), 99).unwrap();

    assert_eq!(tree.count(), 21);
    assert_eq!(
        sorted(tree.in_circle((-40, -40), 5)),
        sorted(list.in_circle((-40, -40), 5))
    );
    assert_eq!(tree.in_circle((-40, -40), 5).len(), 20);
    assert_eq!(tree.in_circle((40, 40), 0), vec![99]);
}

// The default list is empty, like List::new().
#[test]
fn list_default_is_empty() {
    let list: List<i32> = Default::default();
    assert_eq!(list.count(), 0);
    assert!(list.in_circle((0, 0), 100).is_empty());
}

// SpatialHash buckets and answers exactly as the oracle does.
#[test]
fn spatial_hash_matches_list() {
    let mut hash = SpatialHash::new((-500, 500), (-500, 500), 40, 25);
    let mut list = List::new();
    for x in -20..20_i64 {
        for y in -20..20_i64 {
            hash.insert((x * 20, y * 20), (x * 1000 + y) as i32).unwrap();
            list.insert((x * 20, y * 20), (x * 1000 + y) as i32).unwrap();
        }
    }
    assert_eq!(hash.count(), list.count());
    for center in [(0, 0), (-350, 123), (499, -499)] {
        for radius in [0, 40, 333] {
            assert_eq!(
                sorted(hash.in_circle(center, radius)),
                sorted(list.in_circle(center, radius))
            );
        }
    }
}
