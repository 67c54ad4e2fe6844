use bezier_implicitizer::gen_bezout_matrix;

#[test]
fn bezout_matrix_test() {
    let p: Vec<i128> = vec![0, -1, 0, 3];
    let q: Vec<i128> = vec![1, 0, 5, 0];
    println!("{:?}", gen_bezout_matrix(&p, &q));
}

#[test]
fn lib_bezout_matrix_test() {
    let p: Vec<i128> = vec![0, -1, 0, 3];
    let q: Vec<i128> = vec![1, 0, 5, 0];
    println!("bezout matrix: {:?}, ", gen_bezout_matrix(&p, &q));
}

#[test]
fn bezout_matrix_values() {
    let p: Vec<i128> = vec![0, -1, 0, 3];
    let q: Vec<i128> = vec![1, 0, 5, 0];
    let bm = gen_bezout_matrix(&p, &q);
    assert_eq!(
        bm,
        vec![
            vec![0, -1, 0, 3],
            vec![0, 0, 8, 0],
            vec![0, 3, 0, 15],
            vec![0, 0, 0, 0],
        ]
    );
}

#[test]
fn bezout_matrix_single_coefficient() {
    let bm = gen_bezout_matrix(&vec![2], &vec![3]);
    assert_eq!(bm, vec![vec![0]]);
}
