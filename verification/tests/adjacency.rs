use pyift::adjacency::{Adjacency, AdjacencyGrid2D, AdjacencyGrid3D};
use pyift::image::{Image2D, Image3D};

#[test]
fn adjacency_test_2d_neighborhood() {
    let shape = [3, 3];
    let adj = AdjacencyGrid2D::new(&shape);
    let neighbors = adj.neighbors(4);
    assert_eq!(neighbors.len(), 4);
    assert_eq!(neighbors[0], 7);
    assert_eq!(neighbors[1], 5);
    assert_eq!(neighbors[2], 1);
    assert_eq!(neighbors[3], 3);

    // check invalid neighbors
    let neighbors = adj.neighbors(0);
    assert_eq!(neighbors.len(), 2);

    let neighbors = adj.neighbors(8);
    assert_eq!(neighbors.len(), 2);

    let neighbors = adj.neighbors(1);
    assert_eq!(neighbors.len(), 3);
}

#[test]
fn adjacency_test_3d_neighboorhood() {
    let shape = [3, 3, 3];
    let adj = AdjacencyGrid3D::new(&shape);
    let neighbors = adj.neighbors(13);
    assert_eq!(neighbors.len(), 6);
    assert_eq!(neighbors[0], 22);
    assert_eq!(neighbors[1], 16);
    assert_eq!(neighbors[2], 14);
    assert_eq!(neighbors[3], 4);
    assert_eq!(neighbors[4], 10);
    assert_eq!(neighbors[5], 12);

    // check invalid neighbors
    let neighbors = adj.neighbors(0);
    assert_eq!(neighbors.len(), 3);

    let neighbors = adj.neighbors(26);
    assert_eq!(neighbors.len(), 3);

    let neighbors = adj.neighbors(1);
    assert_eq!(neighbors.len(), 4);

    let neighbors = adj.neighbors(4);
    assert_eq!(neighbors.len(), 5);
}

#[test]
fn image_test_2d_neighborhood() {
    let image = Image2D::new(3, 3);
    let neighbors = image.neighbors(4);
    assert_eq!(neighbors.len(), 4);
    assert_eq!(neighbors[0], 3);
    assert_eq!(neighbors[1], 5);
    assert_eq!(neighbors[2], 1);
    assert_eq!(neighbors[3], 7);

    // check invalid neighbors
    let neighbors = image.neighbors(0);
    assert_eq!(neighbors.len(), 2);

    let neighbors = image.neighbors(8);
    assert_eq!(neighbors.len(), 2);

    let neighbors = image.neighbors(1);
    assert_eq!(neighbors.len(), 3);
}

#[test]
fn image_test_3d_neighboorhood() {
    let image = Image3D::new(3, 3, 3);
    let neighbors = image.neighbors(13);
    assert_eq!(neighbors.len(), 6);
    assert_eq!(neighbors[0], 12);
    assert_eq!(neighbors[1], 14);
    assert_eq!(neighbors[2], 10);
    assert_eq!(neighbors[3], 16);
    assert_eq!(neighbors[4], 4);
    assert_eq!(neighbors[5], 22);

    // check invalid neighbors
    let neighbors = image.neighbors(0);
    assert_eq!(neighbors.len(), 3);

    let neighbors = image.neighbors(26);
    assert_eq!(neighbors.len(), 3);

    let neighbors = image.neighbors(1);
    assert_eq!(neighbors.len(), 4);

    let neighbors = image.neighbors(4);
    assert_eq!(neighbors.len(), 5);
}

#[test]
fn grid_2d_corners_and_edges_in_order() {
    // 2 rows of 3 columns: indices 0 1 2 / 3 4 5
    let adj = AdjacencyGrid2D::new(&[2, 3]);
    assert_eq!(adj.neighbors(0), vec![3, 1]);
    assert_eq!(adj.neighbors(2), vec![5, 1]);
    assert_eq!(adj.neighbors(3), vec![4, 0]);
    assert_eq!(adj.neighbors(4), vec![5, 1, 3]);
    assert_eq!(adj.neighbors(5), vec![2, 4]);
}

#[test]
fn grid_2d_single_row_and_single_cell() {
    let row = AdjacencyGrid2D::new(&[1, 4]);
    assert_eq!(row.neighbors(0), vec![1]);
    assert_eq!(row.neighbors(2), vec![3, 1]);
    assert_eq!(row.neighbors(3), vec![2]);

    let cell = AdjacencyGrid2D::new(&[1, 1]);
    assert_eq!(cell.neighbors(0), Vec::<usize>::new());
}

#[test]
fn grid_2d_index_below_the_grid_has_the_cell_above_it() {
    // index 7 decodes to (x, y) = (1, 2), one row below a grid of 2 rows
    let adj = AdjacencyGrid2D::new(&[2, 3]);
    assert_eq!(adj.neighbors(7), vec![4]);
    assert_eq!(adj.neighbors(usize::MAX), Vec::<usize>::new());
}

#[test]
fn grid_2d_wraps_past_the_largest_coordinate() {
    // one column: index usize::MAX decodes to y = usize::MAX, whose step up wraps to row 0
    let adj = AdjacencyGrid2D::new(&[2, 1]);
    assert_eq!(adj.neighbors(usize::MAX), vec![0]);
}

#[test]
fn grid_3d_corners_in_order() {
    // 2 planes of 2 rows of 2 columns
    let adj = AdjacencyGrid3D::new(&[2, 2, 2]);
    assert_eq!(adj.neighbors(0), vec![4, 2, 1]);
    assert_eq!(adj.neighbors(7), vec![3, 5, 6]);
    assert_eq!(adj.neighbors(5), vec![7, 1, 4]);
}

#[test]
fn grid_3d_uneven_extents() {
    // 2 planes of 3 rows of 4 columns: index = x + 4 y + 12 z
    let adj = AdjacencyGrid3D::new(&[2, 3, 4]);
    // (x, y, z) = (1, 1, 0) is index 5
    assert_eq!(adj.neighbors(5), vec![17, 9, 6, 1, 4]);
    // (3, 2, 1) is index 23, the last cell
    assert_eq!(adj.neighbors(23), vec![11, 19, 22]);
}

#[test]
fn neighbors_are_symmetric_and_in_the_grid() {
    let adj = AdjacencyGrid3D::new(&[3, 2, 4]);
    let size = 3 * 2 * 4;
    for p in 0..size {
        for q in adj.neighbors(p) {
            assert!(q < size);
            assert!(q != p);
            assert!(adj.neighbors(q).contains(&p));
        }
    }
    let flat = AdjacencyGrid2D::new(&[4, 5]);
    for p in 0..20 {
        for q in flat.neighbors(p) {
            assert!(q < 20);
            assert!(flat.neighbors(q).contains(&p));
        }
    }
}

#[test]
fn image_2d_corners_in_order() {
    // width 3, height 2: indices 0 1 2 / 3 4 5
    let image = Image2D::new(3, 2);
    assert_eq!(image.width, 3);
    assert_eq!(image.height, 2);
    assert_eq!(image.neighbors(0), vec![1, 3]);
    assert_eq!(image.neighbors(4), vec![3, 5, 1]);
    assert_eq!(image.neighbors(5), vec![4, 2]);
}

#[test]
fn image_3d_uneven_extents() {
    // width 4, height 3, depth 2: index = x + 4 y + 12 z
    let image = Image3D::new(4, 3, 2);
    assert_eq!(image.width, 4);
    assert_eq!(image.height, 3);
    assert_eq!(image.depth, 2);
    assert_eq!(image.neighbors(5), vec![4, 6, 1, 9, 17]);
    assert_eq!(image.neighbors(23), vec![22, 19, 11]);
}

#[test]
fn image_and_grid_agree_on_the_set_of_neighbors() {
    let image = Image2D::new(4, 3);
    let grid = AdjacencyGrid2D::new(&[3, 4]);
    for p in 0..12 {
        let mut a = image.neighbors(p);
        let mut b = grid.neighbors(p);
        a.sort();
        b.sort();
        assert_eq!(a, b);
    }
}
