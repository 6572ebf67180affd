use fights::ndarray::NDArray;

#[test]
fn new() {
    let data: Vec<usize> = (0..1024).collect();
    let arr_from_iter = NDArray::from_iter(data, &[2, 8, 16, 4]).unwrap();
    assert_eq!(arr_from_iter.shape(), &[2, 8, 16, 4]);

    let arr_from_vec =
        NDArray::from_vec((0..1_00_00_00).collect(), &[100, 100, 100]).unwrap();
    assert_eq!(arr_from_vec.shape(), &[100, 100, 100]);

    let _arr_empty = NDArray::from_iter(Vec::new(), &[0]).unwrap();
}

#[test]
#[should_panic]
fn new_err() {
    let data: Vec<usize> = (0..12).collect();
    let _arr = NDArray::from_iter(data, &[3, 2, 5]).unwrap();
}

#[test]
fn eye() {
    let cols = 3usize;
    let rows = 4usize;
    let arr: NDArray<2> = NDArray::eye(cols, rows);
    for x in 0..cols {
        for y in 0..rows {
            assert_eq!(arr.get2(x, y), if x == y { 1 } else { 0 });
        }
    }
}

#[test]
fn identity() {
    let rows = 4usize;
    let arr: NDArray<2> = NDArray::identity(rows);
    for x in 0..rows {
        for y in 0..rows {
            assert_eq!(arr.get2(x, y), if x == y { 1 } else { 0 });
        }
    }
}

#[test]
fn index() {
    let data: Vec<usize> = (0..24).collect();
    let arr = NDArray::from_iter(data, &[3, 2, 2, 2]).unwrap();
    assert_eq!(arr.get(&[0, 0, 0, 0]), 0);
    assert_eq!(arr.get(&[2, 1, 0, 1]), 21);
    assert_eq!(arr.get(&[2, 1, 1, 1]), 23);
}

#[test]
fn index_mut() {
    let data: Vec<usize> = (0..24).collect();
    let mut arr = NDArray::from_iter(data, &[3, 2, 2, 2]).unwrap();
    arr.set(&[2, 1, 0, 1], 0);

    assert_eq!(arr.get(&[2, 1, 0, 1]), 0);
}
