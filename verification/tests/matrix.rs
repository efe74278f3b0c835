use new_york_utils::{Matrix, UtilsError};

fn numbered(columns: usize, rows: usize) -> Matrix<i32> {
    let mut matrix: Matrix<i32> = Matrix::new(columns, rows);
    let data: Vec<i32> = (1..=(columns * rows) as i32).collect();
    assert!(matrix.set_data(data).is_ok());
    matrix
}

#[test]
fn matrix_it_works() {
    let mut matrix = Matrix::new(4, 3);

    let result = matrix.set(1, 2, 1.0);
    assert_eq!(result.is_ok(), true);
    assert_eq!(matrix.get(1, 2).unwrap(), 1.0);

    assert_eq!(matrix.get(3, 3).is_ok(), false);
    assert_eq!(matrix.get(2, 4).is_ok(), false);
}

#[test]
fn new_matrix_holds_defaults_in_its_shape() {
    let matrix: Matrix<f64> = Matrix::new(3, 4);
    assert_eq!(matrix.get_shape(), vec![3, 4]);
    assert_eq!(matrix.get_columns(), 3);
    assert_eq!(matrix.get_rows(), 4);
    assert_eq!(matrix.get_data().unwrap(), vec![0.0; 12]);
    assert_eq!(matrix.get(1, 2).unwrap(), 0.0);
}

#[test]
fn shape_and_length_agree_for_many_shapes() {
    for columns in 0..6 {
        for rows in 0..6 {
            let matrix: Matrix<u8> = Matrix::new(columns, rows);
            assert_eq!(matrix.get_data().unwrap().len(), columns * rows);
            assert_eq!(matrix.get_shape(), vec![columns, rows]);
        }
    }
}

#[test]
fn empty_shapes_are_valid() {
    let matrix: Matrix<i32> = Matrix::new(0, 5);
    assert_eq!(matrix.get_shape(), vec![0, 5]);
    assert_eq!(matrix.get_data().unwrap(), Vec::<i32>::new());
    assert_eq!(matrix.get(0, 0), Err(UtilsError::WrongPosition));
    let transposed = matrix.transpose().unwrap();
    assert_eq!(transposed.get_shape(), vec![5, 0]);
    let matrix: Matrix<i32> = Matrix::new(0, 0);
    assert_eq!(matrix.get_data().unwrap().len(), 0);
}

#[test]
fn set_then_get_reads_the_value_back() {
    let mut matrix: Matrix<i32> = Matrix::new(4, 3);
    assert_eq!(matrix.set(3, 2, 7), Ok(()));
    assert_eq!(matrix.get(3, 2), Ok(7));
    assert_eq!(matrix.get_data().unwrap(), vec![0, 0, 0, 0, 0, 0, 0, 0, 0, 0, 0, 7]);
    assert_eq!(matrix.set(1, 0, 5), Ok(()));
    assert_eq!(matrix.get_data().unwrap(), vec![0, 5, 0, 0, 0, 0, 0, 0, 0, 0, 0, 7]);
}

#[test]
fn cells_lie_row_after_row() {
    let matrix = numbered(4, 3);
    assert_eq!(matrix.get(0, 0), Ok(1));
    assert_eq!(matrix.get(3, 0), Ok(4));
    assert_eq!(matrix.get(0, 1), Ok(5));
    assert_eq!(matrix.get(2, 1), Ok(7));
    assert_eq!(matrix.get(3, 2), Ok(12));
}

#[test]
fn get_and_set_outside_the_shape_fail() {
    let mut matrix = numbered(4, 3);
    assert_eq!(matrix.get(4, 0), Err(UtilsError::WrongPosition));
    assert_eq!(matrix.get(0, 3), Err(UtilsError::WrongPosition));
    assert_eq!(matrix.get(4, 3), Err(UtilsError::WrongPosition));
    assert_eq!(matrix.get(usize::MAX, 0), Err(UtilsError::WrongPosition));
    assert_eq!(matrix.get(0, usize::MAX), Err(UtilsError::WrongPosition));
    assert_eq!(matrix.set(4, 0, 9), Err(UtilsError::WrongPosition));
    assert_eq!(matrix.set(0, 3, 9), Err(UtilsError::WrongPosition));
    assert_eq!(matrix.set(4, 2, 9), Err(UtilsError::WrongPosition));
    assert_eq!(matrix.get_data().unwrap(), (1..=12).collect::<Vec<i32>>());
}

#[test]
fn set_data_then_get_data_round_trips() {
    let mut matrix: Matrix<i32> = Matrix::new(3, 4);
    let raw_data = vec![1, 2, 3, 4, 5, 6, 7, 8, 9, 10, 11, 12];
    assert_eq!(matrix.set_data(raw_data.clone()), Ok(()));
    assert_eq!(matrix.get_data(), Ok(raw_data));
    assert_eq!(matrix.get_shape(), vec![3, 4]);
}

#[test]
fn set_data_of_the_wrong_length_fails_and_changes_nothing() {
    let mut matrix = numbered(3, 4);
    assert_eq!(matrix.set_data(vec![1, 2, 3]), Err(UtilsError::WrongSize));
    assert_eq!(matrix.set_data(vec![0; 13]), Err(UtilsError::WrongSize));
    assert_eq!(matrix.set_data(Vec::new()), Err(UtilsError::WrongSize));
    assert_eq!(matrix.get_data().unwrap(), (1..=12).collect::<Vec<i32>>());
}

#[test]
fn get_data_returns_an_independent_copy() {
    let matrix = numbered(2, 2);
    let mut copy = matrix.get_data().unwrap();
    copy[0] = 100;
    assert_eq!(matrix.get(0, 0), Ok(1));
    assert_eq!(matrix.get_data().unwrap(), vec![1, 2, 3, 4]);
}

#[test]
fn transpose_exchanges_columns_and_rows() {
    let matrix = numbered(4, 3);
    let transposed = matrix.transpose();
    assert_eq!(transposed.is_ok(), true);
    let transposed = transposed.unwrap();
    assert_eq!(transposed.get_shape(), vec![3, 4]);
    assert_eq!(transposed.get_data().unwrap(), vec![1, 5, 9, 2, 6, 10, 3, 7, 11, 4, 8, 12]);
    assert_eq!(matrix.get_shape(), vec![4, 3]);
    assert_eq!(matrix.get_data().unwrap(), (1..=12).collect::<Vec<i32>>());
}

#[test]
fn transpose_twice_gives_the_matrix_back() {
    for (columns, rows) in [(4, 3), (1, 5), (5, 1), (2, 2), (0, 3), (3, 0)] {
        let matrix = numbered(columns, rows);
        let back = matrix.transpose().unwrap().transpose().unwrap();
        assert_eq!(back.get_shape(), matrix.get_shape());
        assert_eq!(back.get_data(), matrix.get_data());
    }
}

#[test]
fn transpose_moves_each_cell_to_the_mirrored_position() {
    let matrix = numbered(4, 3);
    let transposed = matrix.transpose().unwrap();
    for column in 0..4 {
        for row in 0..3 {
            assert_eq!(transposed.get(row, column), matrix.get(column, row));
        }
    }
}

#[test]
fn slice_takes_the_rows_from_the_first_to_before_the_last() {
    let matrix = numbered(4, 3);
    let sliced = matrix.slice(1, 2);
    assert_eq!(sliced.is_ok(), true);
    let sliced = sliced.unwrap();
    assert_eq!(sliced.get_shape(), vec![4, 1]);
    assert_eq!(sliced.get_data().unwrap(), vec![5, 6, 7, 8]);

    let sliced = matrix.slice(1, 3).unwrap();
    assert_eq!(sliced.get_shape(), vec![4, 2]);
    assert_eq!(sliced.get_data().unwrap(), vec![5, 6, 7, 8, 9, 10, 11, 12]);

    let sliced = matrix.slice(0, 3).unwrap();
    assert_eq!(sliced.get_data(), matrix.get_data());

    let sliced = matrix.slice(2, 3).unwrap();
    assert_eq!(sliced.get_data().unwrap(), vec![9, 10, 11, 12]);
    assert_eq!(matrix.get_data().unwrap(), (1..=12).collect::<Vec<i32>>());
}

#[test]
fn slice_of_no_rows_is_empty() {
    let matrix = numbered(4, 3);
    let sliced = matrix.slice(2, 2).unwrap();
    assert_eq!(sliced.get_shape(), vec![4, 0]);
    assert_eq!(sliced.get_data().unwrap(), Vec::<i32>::new());
    let sliced = matrix.slice(3, 3).unwrap();
    assert_eq!(sliced.get_shape(), vec![4, 0]);
}

#[test]
fn slice_outside_the_rows_fails() {
    let matrix = numbered(4, 3);
    assert_eq!(matrix.slice(2, 1).err(), Some(UtilsError::WrongPosition));
    assert_eq!(matrix.slice(0, 4).err(), Some(UtilsError::WrongPosition));
    assert_eq!(matrix.slice(4, 4).err(), Some(UtilsError::WrongPosition));
    assert_eq!(matrix.slice(usize::MAX, 0).err(), Some(UtilsError::WrongPosition));
}

#[test]
fn add_row_overwrites_one_row() {
    let mut matrix: Matrix<i32> = Matrix::new(4, 3);
    let _ = matrix.set_data(vec![0, 0, 0, 0, 0, 0, 0, 0, 0, 0, 0, 0]);
    let add_row = matrix.add_row(1, vec![1, 1, 1, 1]);
    assert_eq!(add_row.is_ok(), true);
    assert_eq!(matrix.get_data().unwrap(), vec![0, 0, 0, 0, 1, 1, 1, 1, 0, 0, 0, 0]);

    let mut matrix = numbered(4, 3);
    assert_eq!(matrix.add_row(2, vec![20, 21, 22, 23]), Ok(()));
    assert_eq!(matrix.get_data().unwrap(), vec![1, 2, 3, 4, 5, 6, 7, 8, 20, 21, 22, 23]);
}

#[test]
fn add_row_uses_the_first_elements_of_a_longer_vector() {
    let mut matrix = numbered(2, 2);
    assert_eq!(matrix.add_row(0, vec![7, 8, 9]), Ok(()));
    assert_eq!(matrix.get_data().unwrap(), vec![7, 8, 3, 4]);
}

#[test]
fn add_row_outside_the_rows_or_with_too_few_values_fails() {
    let mut matrix = numbered(4, 3);
    assert_eq!(matrix.add_row(3, vec![1, 1, 1, 1]), Err(UtilsError::WrongPosition));
    assert_eq!(matrix.add_row(3, vec![1]), Err(UtilsError::WrongPosition));
    assert_eq!(matrix.add_row(1, vec![1, 1, 1]), Err(UtilsError::WrongSize));
    assert_eq!(matrix.add_row(0, Vec::new()), Err(UtilsError::WrongSize));
    assert_eq!(matrix.get_data().unwrap(), (1..=12).collect::<Vec<i32>>());
}

#[test]
fn add_column_overwrites_one_column() {
    let mut matrix: Matrix<i32> = Matrix::new(4, 3);
    let _ = matrix.set_data(vec![0, 0, 0, 0, 0, 0, 0, 0, 0, 0, 0, 0]);
    let add_column = matrix.add_column(1, vec![1, 1, 1]);
    assert_eq!(add_column.is_ok(), true);
    assert_eq!(matrix.get_data().unwrap(), vec![0, 1, 0, 0, 0, 1, 0, 0, 0, 1, 0, 0]);

    let mut matrix = numbered(4, 3);
    assert_eq!(matrix.add_column(3, vec![30, 31, 32]), Ok(()));
    assert_eq!(matrix.get_data().unwrap(), vec![1, 2, 3, 30, 5, 6, 7, 31, 9, 10, 11, 32]);
}

#[test]
fn add_column_outside_the_columns_or_with_too_few_values_fails() {
    let mut matrix = numbered(4, 3);
    assert_eq!(matrix.add_column(4, vec![1, 1, 1]), Err(UtilsError::WrongPosition));
    assert_eq!(matrix.add_column(0, vec![1, 1]), Err(UtilsError::WrongSize));
    assert_eq!(matrix.get_data().unwrap(), (1..=12).collect::<Vec<i32>>());
}
