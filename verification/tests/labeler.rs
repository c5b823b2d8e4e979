use cloud_labeler::{cyclic, gen_labels, label_sizes};

fn idx(x: usize, y: usize, z: usize, nx: usize, ny: usize) -> usize {
    x + nx * (y + ny * z)
}

#[test]
fn cyclic_interior() {
    assert_eq!(cyclic(3, 10), 3);
}

#[test]
fn cyclic_wrap_positive() {
    assert_eq!(cyclic(10, 10), 0);
}

#[test]
fn cyclic_wrap_negative() {
    assert_eq!(cyclic(-1, 10), 9);
}

#[test]
fn single_cloud_cell() {
    let nx = 3;
    let ny = 3;
    let nz = 1;
    let mut cld = vec![false; nx * ny * nz];
    cld[idx(1, 1, 0, nx, ny)] = true;
    let labels = gen_labels(&cld, nx, ny, nz);
    assert_eq!(labels[idx(1, 1, 0, nx, ny)], Some(0));
}

#[test]
fn all_false_gives_all_none() {
    assert!(gen_labels(&vec![false; 27], 3, 3, 3).iter().all(|l| l.is_none()));
}

#[test]
fn all_true_gives_single_label() {
    assert!(gen_labels(&vec![true; 27], 3, 3, 3).iter().all(|l| *l == Some(0)));
}

#[test]
fn two_disconnected_cells_get_different_labels() {
    let nx = 3;
    let ny = 3;
    let nz = 1;
    let mut cld = vec![false; nx * ny * nz];
    cld[idx(0, 0, 0, nx, ny)] = true;
    cld[idx(2, 2, 0, nx, ny)] = true;
    let labels = gen_labels(&cld, nx, ny, nz);
    assert_ne!(labels[idx(0, 0, 0, nx, ny)], labels[idx(2, 2, 0, nx, ny)]);
}

#[test]
fn cyclic_x_connects_opposite_edges() {
    let nx = 4;
    let ny = 3;
    let nz = 1;
    let mut cld = vec![false; nx * ny * nz];
    cld[idx(0, 1, 0, nx, ny)] = true;
    cld[idx(3, 1, 0, nx, ny)] = true;
    let labels = gen_labels(&cld, nx, ny, nz);
    assert_eq!(labels[idx(0, 1, 0, nx, ny)], labels[idx(3, 1, 0, nx, ny)]);
}

#[test]
fn cyclic_y_connects_opposite_edges() {
    let nx = 3;
    let ny = 4;
    let nz = 1;
    let mut cld = vec![false; nx * ny * nz];
    cld[idx(1, 0, 0, nx, ny)] = true;
    cld[idx(1, 3, 0, nx, ny)] = true;
    let labels = gen_labels(&cld, nx, ny, nz);
    assert_eq!(labels[idx(1, 0, 0, nx, ny)], labels[idx(1, 3, 0, nx, ny)]);
}

#[test]
fn z_axis_does_not_wrap() {
    let cld = vec![true, false, false, true];
    let labels = gen_labels(&cld, 1, 1, 4);
    assert_ne!(labels[0], labels[3]);
}

#[test]
fn cross_pattern_is_single_component() {
    let (nx, ny, nz) = (10, 10, 1);
    let mut cld = vec![false; nx * ny * nz];
    for y in 1..=8 {
        cld[idx(4, y, 0, nx, ny)] = true;
    }
    for x in 1..=8 {
        cld[idx(x, 4, 0, nx, ny)] = true;
    }
    let labels = gen_labels(&cld, nx, ny, nz);
    let cloud_labels: Vec<usize> = labels.iter().flatten().copied().collect();
    assert!(cloud_labels.iter().all(|&l| l == cloud_labels[0]));
}

#[test]
fn label_sizes_counts_correctly() {
    let nx = 3;
    let ny = 3;
    let nz = 1;
    let mut cld = vec![false; nx * ny * nz];
    cld[idx(0, 0, 0, nx, ny)] = true;
    cld[idx(1, 0, 0, nx, ny)] = true;
    cld[idx(2, 2, 0, nx, ny)] = true;
    let labels = gen_labels(&cld, nx, ny, nz);
    let sizes = label_sizes(&labels);
    assert_eq!(sizes, vec![2, 1]);
}
