use cloud_labeler::interop::{c_order_to_flat, gen_labels_i32, label_sizes_i32, labels_to_i32};
use cloud_labeler::{cyclic, flat_index, gen_labels, label_sizes};

fn idx(x: usize, y: usize, z: usize, nx: usize, ny: usize) -> usize {
    x + nx * (y + ny * z)
}

fn field(nx: usize, ny: usize, nz: usize, cells: &[(usize, usize, usize)]) -> Vec<bool> {
    let mut cld = vec![false; nx * ny * nz];
    for &(x, y, z) in cells {
        cld[idx(x, y, z, nx, ny)] = true;
    }
    cld
}

#[test]
fn cyclic_large_negative_and_multiples() {
    assert_eq!(cyclic(-11, 10), 9);
    assert_eq!(cyclic(-10, 10), 0);
    assert_eq!(cyclic(25, 10), 5);
    assert_eq!(cyclic(isize::MIN, 3), 1);
    assert_eq!(cyclic(isize::MAX, 7), (isize::MAX % 7) as usize);
    assert_eq!(cyclic(-5, 1), 0);
}

#[test]
fn flat_index_is_x_fastest() {
    assert_eq!(flat_index(0, 0, 0, 3, 4, 5), 0);
    assert_eq!(flat_index(1, 0, 0, 3, 4, 5), 1);
    assert_eq!(flat_index(0, 1, 0, 3, 4, 5), 3);
    assert_eq!(flat_index(0, 0, 1, 3, 4, 5), 12);
    assert_eq!(flat_index(2, 3, 4, 3, 4, 5), 59);
}

#[test]
fn empty_grid_gives_empty_labels() {
    assert!(gen_labels(&[], 0, 3, 3).is_empty());
    assert!(gen_labels(&[], 3, 3, 0).is_empty());
    assert!(label_sizes(&[]).is_empty());
}

#[test]
fn single_cell_grid() {
    assert_eq!(gen_labels(&[true], 1, 1, 1), vec![Some(0)]);
    assert_eq!(gen_labels(&[false], 1, 1, 1), vec![None]);
}

#[test]
fn patches_numbered_in_scan_order() {
    // Row y = 0: cloud at x = 1; row y = 2: cloud at x = 0 and x = 3 (joined
    // across the x edge); a separate cell at (2, 1) in the second layer.
    let (nx, ny, nz) = (5, 4, 2);
    let cld = field(nx, ny, nz, &[(1, 0, 0), (0, 2, 0), (4, 2, 0), (2, 1, 1)]);
    let labels = gen_labels(&cld, nx, ny, nz);
    let mut expected = vec![None; nx * ny * nz];
    expected[idx(1, 0, 0, nx, ny)] = Some(0);
    expected[idx(0, 2, 0, nx, ny)] = Some(1);
    expected[idx(4, 2, 0, nx, ny)] = Some(1);
    expected[idx(2, 1, 1, nx, ny)] = Some(2);
    assert_eq!(labels, expected);
}

#[test]
fn diagonal_cells_are_not_connected() {
    let (nx, ny, nz) = (4, 4, 1);
    let cld = field(nx, ny, nz, &[(1, 1, 0), (2, 2, 0)]);
    let labels = gen_labels(&cld, nx, ny, nz);
    assert_eq!(labels[idx(1, 1, 0, nx, ny)], Some(0));
    assert_eq!(labels[idx(2, 2, 0, nx, ny)], Some(1));
}

#[test]
fn z_neighbours_connect_within_the_column() {
    let cld = vec![true, true, false, true, true];
    let labels = gen_labels(&cld, 1, 1, 5);
    assert_eq!(labels, vec![Some(0), Some(0), None, Some(1), Some(1)]);
}

#[test]
fn a_later_cell_can_join_an_earlier_patch() {
    // A U shape: both arms start on the first row and meet on the last row,
    // so the right arm belongs to the patch that the left arm started.
    let (nx, ny, nz) = (5, 3, 1);
    let cld = field(nx, ny, nz, &[(1, 0, 0), (3, 0, 0), (1, 1, 0), (3, 1, 0), (1, 2, 0), (2, 2, 0), (3, 2, 0)]);
    let labels = gen_labels(&cld, nx, ny, nz);
    for (i, l) in labels.iter().enumerate() {
        assert_eq!(*l, if cld[i] { Some(0) } else { None });
    }
}

#[test]
fn same_label_exactly_when_connected() {
    // Two bars in one layer; the second touches the first through the y wrap.
    let (nx, ny, nz) = (3, 5, 2);
    let cld = field(nx, ny, nz, &[(0, 0, 0), (0, 1, 0), (2, 3, 0), (0, 4, 1), (0, 4, 0)]);
    let labels = gen_labels(&cld, nx, ny, nz);
    let a = labels[idx(0, 0, 0, nx, ny)];
    assert_eq!(labels[idx(0, 1, 0, nx, ny)], a);
    assert_eq!(labels[idx(0, 4, 0, nx, ny)], a);
    assert_eq!(labels[idx(0, 4, 1, nx, ny)], a);
    assert_ne!(labels[idx(2, 3, 0, nx, ny)], a);
    assert!(labels[idx(2, 3, 0, nx, ny)].is_some());
}

#[test]
fn narrow_axes_wrap_onto_themselves() {
    // With nx = 1 a cell is its own x neighbour; with ny = 2 both y steps
    // reach the same cell.
    let cld = vec![true, true];
    assert_eq!(gen_labels(&cld, 1, 2, 1), vec![Some(0), Some(0)]);
    assert_eq!(gen_labels(&cld, 2, 1, 1), vec![Some(0), Some(0)]);
}

#[test]
fn sizes_are_positive_and_add_up_to_the_cloud_cells() {
    let (nx, ny, nz) = (6, 5, 3);
    let cld: Vec<bool> = (0..nx * ny * nz).map(|i| (i * 7) % 5 < 2).collect();
    let labels = gen_labels(&cld, nx, ny, nz);
    let sizes = label_sizes(&labels);
    let max = labels.iter().flatten().copied().max().unwrap();
    assert_eq!(sizes.len(), max + 1);
    assert!(sizes.iter().all(|&s| s > 0));
    assert_eq!(sizes.iter().sum::<usize>(), cld.iter().filter(|&&c| c).count());
}

#[test]
fn label_sizes_keeps_unused_labels() {
    assert_eq!(label_sizes(&[Some(2), None, Some(0), Some(2)]), vec![1, 0, 2]);
    assert_eq!(label_sizes(&[None, None]), Vec::<usize>::new());
}

#[test]
fn labels_encode_as_i32() {
    assert_eq!(labels_to_i32(&[None, Some(0), Some(7)]), vec![-1, 0, 7]);
    assert_eq!(labels_to_i32(&[]), Vec::<i32>::new());
}

#[test]
fn i32_label_sizes_skip_negative_entries() {
    assert_eq!(label_sizes_i32(&[-1, 0, 2, 2, -5]), vec![1, 0, 2]);
    assert_eq!(label_sizes_i32(&[-1, -2]), Vec::<usize>::new());
}

#[test]
fn i32_encoding_keeps_sizes() {
    let (nx, ny, nz) = (4, 4, 2);
    let cld: Vec<bool> = (0..nx * ny * nz).map(|i| i % 3 == 0).collect();
    let labels = gen_labels(&cld, nx, ny, nz);
    assert_eq!(label_sizes_i32(&labels_to_i32(&labels)), label_sizes(&labels));
}

#[test]
fn c_order_is_rearranged_x_fastest() {
    // Shape (nx, ny, nz) = (2, 3, 1); C order lists x slowest.
    let c = vec![true, false, false, true, true, false];
    let f = c_order_to_flat(&c, 2, 3, 1);
    // f[x + 2 * y] == c[y + 3 * x]
    assert_eq!(f, vec![true, true, false, true, false, false]);
}

#[test]
fn c_order_in_three_dimensions() {
    let (nx, ny, nz) = (2, 3, 4);
    let c: Vec<bool> = (0..nx * ny * nz).map(|i| i % 5 == 1 || i % 7 == 0).collect();
    let f = c_order_to_flat(&c, nx, ny, nz);
    for x in 0..nx {
        for y in 0..ny {
            for z in 0..nz {
                assert_eq!(f[idx(x, y, z, nx, ny)], c[z + nz * (y + ny * x)]);
            }
        }
    }
}

#[test]
fn labels_never_exceed_their_index() {
    let (nx, ny, nz) = (7, 3, 4);
    let cld: Vec<bool> = (0..nx * ny * nz).map(|i| (i * 11) % 6 < 2).collect();
    let labels = gen_labels(&cld, nx, ny, nz);
    for (i, l) in labels.iter().enumerate() {
        if let Some(l) = l {
            assert!(*l <= i);
        }
    }
}

#[test]
fn cyclic_accepts_any_positive_length() {
    assert_eq!(cyclic(-1, usize::MAX), usize::MAX - 1);
    assert_eq!(cyclic(isize::MIN, usize::MAX), usize::MAX - (1usize << 63));
    assert_eq!(cyclic(5, (1usize << 63) + 7), 5);
    assert_eq!(cyclic(-3, (1usize << 63) + 7), (1usize << 63) + 4);
}

#[test]
fn signed_labels_of_a_c_order_field() {
    // Shape (2, 3, 1) in C order: cells (0,0), (1,0), (1,1) are cloud.
    let c = vec![true, false, false, true, true, false];
    // x-fastest order: (0,0) (1,0) (0,1) (1,1) (0,2) (1,2)
    assert_eq!(gen_labels_i32(&c, 2, 3, 1), vec![0, 0, -1, 0, -1, -1]);
}

#[test]
fn sizes_do_not_depend_on_cell_order() {
    let labels = vec![Some(1), None, Some(0), Some(1), Some(3), None];
    let mut shuffled = labels.clone();
    shuffled.reverse();
    shuffled.swap(0, 3);
    assert_eq!(label_sizes(&labels), label_sizes(&shuffled));
    assert_eq!(label_sizes(&labels), vec![1, 2, 0, 1]);
}

#[test]
fn one_size_per_patch() {
    // Three patches: a bar, a single cell and a column through two layers.
    let (nx, ny, nz) = (6, 4, 2);
    let cld = field(nx, ny, nz, &[(0, 0, 0), (1, 0, 0), (2, 0, 0), (4, 2, 0), (2, 2, 0), (2, 2, 1)]);
    let sizes = label_sizes(&gen_labels(&cld, nx, ny, nz));
    assert_eq!(sizes, vec![3, 2, 1]);
}
