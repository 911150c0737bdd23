use rec_rsys::matrix::column_of;
use rec_rsys::matrix::transpose;
use rec_rsys::matrix::create_submatrix;

#[test]
fn test_transpose() {
    assert_eq!(
        transpose(&[vec![1, 2, 3], vec![4, 5, 6], vec![7, 8, 9]]),
        [vec![1, 4, 7], vec![2, 5, 8], vec![3, 6, 9]],
    );
}

#[test]
fn transpose_of_a_wide_matrix() {
    let matrix = vec![vec!["a", "b", "c"], vec!["d", "e", "f"]];
    assert_eq!(
        transpose(&matrix),
        vec![vec!["a", "d"], vec!["b", "e"], vec!["c", "f"]]
    );
    assert_eq!(transpose(&transpose(&matrix)), matrix);
}

#[test]
fn transpose_leaves_out_what_is_beyond_the_first_row() {
    let matrix = vec![vec![1, 2], vec![3, 4, 5]];
    assert_eq!(transpose(&matrix), vec![vec![1, 3], vec![2, 4]]);
    let no_columns: Vec<Vec<u8>> = vec![Vec::new(), vec![1]];
    assert!(transpose(&no_columns).is_empty());
}

#[test]
fn column_of_a_matrix() {
    let matrix = vec![vec![1, 2, 3], vec![4, 5, 6]];
    assert_eq!(column_of(&matrix, 2), vec![3, 6]);
    let empty: Vec<Vec<u8>> = Vec::new();
    assert!(column_of(&empty, 4).is_empty());
}

#[test]
fn test_create_submatrix() {
    let matrix = vec![
        vec![1.0, 2.0, 3.0, 1.0],
        vec![4.0, 5.0, 6.0, 4.0],
        vec![7.0, 8.0, 9.0, 7.0],
        vec![4.0, 5.0, 6.0, 4.0],
    ];
    assert_eq!(
        create_submatrix(&matrix, 1),
        vec![
            vec![5.0, 6.0, 4.0],
            vec![8.0, 9.0, 7.0],
            vec![5.0, 6.0, 4.0]
        ],
    );
    let matrix2 = vec![
        vec![5.0, 6.0, 4.0],
        vec![8.0, 9.0, 7.0],
        vec![5.0, 6.0, 4.0],
    ];
    assert_eq!(
        create_submatrix(&matrix2, 1),
        vec![vec![9.0, 7.0], vec![6.0, 4.0]],
    );
}

#[test]
fn submatrix_edges() {
    let none: Vec<Vec<u8>> = Vec::new();
    assert!(create_submatrix(&none, 0).is_empty());
    let one = vec![vec![1u8]];
    assert!(create_submatrix(&one, 0).is_empty());
    let two = vec![vec![1u8, 2], vec![3, 4]];
    assert_eq!(create_submatrix(&two, 0), vec![vec![3, 4]]);
    assert_eq!(create_submatrix(&two, 2), vec![Vec::<u8>::new()]);
}
