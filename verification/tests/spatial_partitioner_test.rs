use spatial_neighbors::grid::Grid;
use spatial_neighbors::quad_tree::QuadTree;
use spatial_neighbors::SpatialPartitioner;

fn fill_spatial_partitioner(
    spatial_hash: &mut Grid<i32>,
    quad_tree: &mut QuadTree<i32>,
    x: (i32, i32),
    y: (i32, i32),
) {
    for x in x.0..x.1 {
        for y in y.0..y.1 {
            if ((x + 50) * 100 + y) % 3 == 0 || ((x + 50) * 100 + y) % 4 == 0 {
                continue;
            }

            spatial_hash
                .insert((x as i64, y as i64), (x + 50) * 100 + y)
                .unwrap();
            quad_tree
                .insert((x as i64, y as i64), (x + 50) * 100 + y)
                .unwrap();
        }
    }
}

#[test]
fn in_circle_different_cell_counts() {
    let cell_count = [4, 7, 100, 1000];

    for cell_count in cell_count {
        let mut spatial_hash = Grid::new((-50, 50), (-50, 50), (cell_count, cell_count / 2));
        let mut quad_tree = QuadTree::new((-50, 50), (-50, 50), cell_count as u16);

        fill_spatial_partitioner(&mut spatial_hash, &mut quad_tree, (-50, 50), (-50, 50));

        assert_eq!(
            spatial_hash.in_circle((0, 0), 10).len(),
            quad_tree.in_circle((0, 0), 10).len()
        );
    }
}

#[test]
fn in_circle_different_location() {
    let location = [(0, 0), (-10, 0), (-20, -20), (15, 10), (-20, 10), (15, 10)];

    let mut spatial_hash = Grid::new((-50, 50), (-50, 50), (500, 50));
    let mut quad_tree = QuadTree::new((-50, 50), (-50, 50), 4);

    fill_spatial_partitioner(&mut spatial_hash, &mut quad_tree, (-50, 50), (-50, 50));

    for location in location {
        assert_eq!(
            spatial_hash.in_circle(location, 2).len(),
            quad_tree.in_circle(location, 2).len()
        );
    }
}

#[test]
fn in_circle_different_radius() {
    let sizes = [1, 7, 100, 200];

    let mut spatial_hash = Grid::new((-50, 50), (-50, 50), (50, 50));
    let mut quad_tree = QuadTree::new((-50, 50), (-50, 50), 4);

    fill_spatial_partitioner(&mut spatial_hash, &mut quad_tree, (-50, 50), (-50, 50));

    for size in sizes {
        assert_eq!(
            spatial_hash.in_circle((0, 0), size as i64).len(),
            quad_tree.in_circle((0, 0), size as i64).len()
        );
    }
}

#[test]
fn in_circle_different_size() {
    let sizes = [((-50, 50), (10, 100)), ((50, 100), (-10, 10)), ((0, 50), (-100, -10))];

    for size in sizes {
        let mut spatial_hash = Grid::new(
            (size.0.0 as i64, size.0.1 as i64),
            (size.1.0 as i64, size.1.1 as i64),
            (50, 50),
        );
        let mut quad_tree = QuadTree::new(
            (size.0.0 as i64, size.0.1 as i64),
            (size.1.0 as i64, size.1.1 as i64),
            4,
        );

        fill_spatial_partitioner(&mut spatial_hash, &mut quad_tree, size.0, size.1);

        assert_eq!(
            spatial_hash.in_circle((0, 0), 10).len(),
            quad_tree.in_circle((0, 0), 10).len()
        );
    }
}

// Probes near the domain border that sit off the stored lattice: every
// coordinate is scaled by ten, so entries sit at multiples of ten and the
// probe points fall between them, a fraction of a cell from the edge.
#[test]
fn in_circle_on_borders() {
    let location = [(-495, 0), (483, -499), (120, 497), (490, 490), (-490, -490)];

    let mut spatial_hash = Grid::new((-500, 500), (-500, 500), (50, 50));
    let mut quad_tree = QuadTree::new((-500, 500), (-500, 500), 4);

    for x in -50..50_i32 {
        for y in -50..50_i32 {
            if ((x + 50) * 100 + y) % 3 == 0 || ((x + 50) * 100 + y) % 4 == 0 {
                continue;
            }
            spatial_hash
                .insert((x as i64 * 10, y as i64 * 10), (x + 50) * 100 + y)
                .unwrap();
            quad_tree
                .insert((x as i64 * 10, y as i64 * 10), (x + 50) * 100 + y)
                .unwrap();
        }
    }

    for location in location {
        assert_eq!(
            spatial_hash.in_circle(location, 20).len(),
            quad_tree.in_circle(location, 20).len()
        );
    }
}

#[test]
fn count_and_clear() {
    let mut spatial_hash = Grid::new((-50, 50), (-50, 50), (50, 50));
    let mut quad_tree = QuadTree::new((-50, 50), (-50, 50), 4);

    fill_spatial_partitioner(&mut spatial_hash, &mut quad_tree, (-50, 50), (-50, 50));

    assert_eq!(spatial_hash.count(), quad_tree.count());

    spatial_hash.clear();
    quad_tree.clear();

    assert_eq!(spatial_hash.count(), quad_tree.count());

    fill_spatial_partitioner(&mut spatial_hash, &mut quad_tree, (-50, 50), (-50, 50));

    assert_eq!(spatial_hash.count(), quad_tree.count());
}
