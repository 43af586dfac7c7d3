use sudoku::{Puzzle, Solution, TryIntoPuzzleError};

/// A solution holding `grid`, obtained by solving the puzzle that gives
/// every cell of `grid`.
fn solution_of(grid: [[u8; 9]; 9]) -> Solution {
    Puzzle::try_from(grid).unwrap().solve().unwrap()
}

#[test]
fn test_display_puzzle() {
    let puzzle = Puzzle::try_from([
            [0, 0, 3, 0, 2, 0, 6, 0, 0],
            [9, 0, 0, 3, 0, 5, 0, 0, 1],
            [0, 0, 1, 8, 0, 6, 4, 0, 0],
            [0, 0, 8, 1, 0, 2, 9, 0, 0],
            [7, 0, 0, 0, 0, 0, 0, 0, 8],
            [0, 0, 6, 7, 0, 8, 2, 0, 0],
            [0, 0, 2, 6, 0, 9, 5, 0, 0],
            [8, 0, 0, 2, 0, 3, 0, 0, 9],
            [0, 0, 5, 0, 1, 0, 3, 0, 0],
        ])
    .unwrap();
    assert_eq!(
        puzzle.to_string(),
        [
            "003020600\n",
            "900305001\n",
            "001806400\n",
            "008102900\n",
            "700000008\n",
            "006708200\n",
            "002609500\n",
            "800203009\n",
            "005010300",
        ]
        .concat()
    );
    assert_eq!(
        puzzle.to_pretty_string(),
        [
            "+-----+-----+-----+\n",
            "|    3|  2  |6    |\n",
            "|9    |3   5|    1|\n",
            "|    1|8   6|4    |\n",
            "+-----+-----+-----+\n",
            "|    8|1   2|9    |\n",
            "|7    |     |    8|\n",
            "|    6|7   8|2    |\n",
            "+-----+-----+-----+\n",
            "|    2|6   9|5    |\n",
            "|8    |2   3|    9|\n",
            "|    5|  1  |3    |\n",
            "+-----+-----+-----+",
        ]
        .concat(),
    );
}

#[test]
fn test_display_solution() {
    let solution = solution_of([
            [4, 8, 3, 9, 2, 1, 6, 5, 7],
            [9, 6, 7, 3, 4, 5, 8, 2, 1],
            [2, 5, 1, 8, 7, 6, 4, 9, 3],
            [5, 4, 8, 1, 3, 2, 9, 7, 6],
            [7, 2, 9, 5, 6, 4, 1, 3, 8],
            [1, 3, 6, 7, 9, 8, 2, 4, 5],
            [3, 7, 2, 6, 8, 9, 5, 1, 4],
            [8, 1, 4, 2, 5, 3, 7, 6, 9],
            [6, 9, 5, 4, 1, 7, 3, 8, 2],
        ]);
    assert_eq!(
        solution.to_string(),
        [
            "483921657\n",
            "967345821\n",
            "251876493\n",
            "548132976\n",
            "729564138\n",
            "136798245\n",
            "372689514\n",
            "814253769\n",
            "695417382",
        ]
        .concat()
    );
    assert_eq!(
        solution.to_pretty_string(),
        [
            "+-----+-----+-----+\n",
            "|4 8 3|9 2 1|6 5 7|\n",
            "|9 6 7|3 4 5|8 2 1|\n",
            "|2 5 1|8 7 6|4 9 3|\n",
            "+-----+-----+-----+\n",
            "|5 4 8|1 3 2|9 7 6|\n",
            "|7 2 9|5 6 4|1 3 8|\n",
            "|1 3 6|7 9 8|2 4 5|\n",
            "+-----+-----+-----+\n",
            "|3 7 2|6 8 9|5 1 4|\n",
            "|8 1 4|2 5 3|7 6 9|\n",
            "|6 9 5|4 1 7|3 8 2|\n",
            "+-----+-----+-----+",
        ]
        .concat()
    );
}

#[test]
fn test_solve01() {
    let puzzle = Puzzle::try_from([
            [0, 0, 3, 0, 2, 0, 6, 0, 0],
            [9, 0, 0, 3, 0, 5, 0, 0, 1],
            [0, 0, 1, 8, 0, 6, 4, 0, 0],
            [0, 0, 8, 1, 0, 2, 9, 0, 0],
            [7, 0, 0, 0, 0, 0, 0, 0, 8],
            [0, 0, 6, 7, 0, 8, 2, 0, 0],
            [0, 0, 2, 6, 0, 9, 5, 0, 0],
            [8, 0, 0, 2, 0, 3, 0, 0, 9],
            [0, 0, 5, 0, 1, 0, 3, 0, 0],
        ])
    .unwrap();
    let solution = solution_of([
            [4, 8, 3, 9, 2, 1, 6, 5, 7],
            [9, 6, 7, 3, 4, 5, 8, 2, 1],
            [2, 5, 1, 8, 7, 6, 4, 9, 3],
            [5, 4, 8, 1, 3, 2, 9, 7, 6],
            [7, 2, 9, 5, 6, 4, 1, 3, 8],
            [1, 3, 6, 7, 9, 8, 2, 4, 5],
            [3, 7, 2, 6, 8, 9, 5, 1, 4],
            [8, 1, 4, 2, 5, 3, 7, 6, 9],
            [6, 9, 5, 4, 1, 7, 3, 8, 2],
        ]);
    assert_eq!(puzzle.solve().unwrap(), solution);
}

#[test]
fn test_solve02() {
    let puzzle = Puzzle::try_from([
        [2, 0, 0, 0, 8, 0, 3, 0, 0],
        [0, 6, 0, 0, 7, 0, 0, 8, 4],
        [0, 3, 0, 5, 0, 0, 2, 0, 9],
        [0, 0, 0, 1, 0, 5, 4, 0, 8],
        [0, 0, 0, 0, 0, 0, 0, 0, 0],
        [4, 0, 2, 7, 0, 6, 0, 0, 0],
        [3, 0, 1, 0, 0, 7, 0, 4, 0],
        [7, 2, 0, 0, 4, 0, 0, 6, 0],
        [0, 0, 4, 0, 1, 0, 0, 0, 3],
    ])
    .unwrap();
    let solution = solution_of([
        [2, 4, 5, 9, 8, 1, 3, 7, 6],
        [1, 6, 9, 2, 7, 3, 5, 8, 4],
        [8, 3, 7, 5, 6, 4, 2, 1, 9],
        [9, 7, 6, 1, 2, 5, 4, 3, 8],
        [5, 1, 3, 4, 9, 8, 6, 2, 7],
        [4, 8, 2, 7, 3, 6, 9, 5, 1],
        [3, 9, 1, 6, 5, 7, 8, 4, 2],
        [7, 2, 8, 3, 4, 9, 1, 6, 5],
        [6, 5, 4, 8, 1, 2, 7, 9, 3],
    ]);
    assert_eq!(puzzle.solve().unwrap(), solution);
}

#[test]
fn test_solve03() {
    let puzzle = Puzzle::try_from([
        [0, 0, 0, 0, 0, 0, 9, 0, 7],
        [0, 0, 0, 4, 2, 0, 1, 8, 0],
        [0, 0, 0, 7, 0, 5, 0, 2, 6],
        [1, 0, 0, 9, 0, 4, 0, 0, 0],
        [0, 5, 0, 0, 0, 0, 0, 4, 0],
        [0, 0, 0, 5, 0, 7, 0, 0, 9],
        [9, 2, 0, 1, 0, 8, 0, 0, 0],
        [0, 3, 4, 0, 5, 9, 0, 0, 0],
        [5, 0, 7, 0, 0, 0, 0, 0, 0],
    ])
    .unwrap();
    let solution = solution_of([
        [4, 6, 2, 8, 3, 1, 9, 5, 7],
        [7, 9, 5, 4, 2, 6, 1, 8, 3],
        [3, 8, 1, 7, 9, 5, 4, 2, 6],
        [1, 7, 3, 9, 8, 4, 2, 6, 5],
        [6, 5, 9, 3, 1, 2, 7, 4, 8],
        [2, 4, 8, 5, 6, 7, 3, 1, 9],
        [9, 2, 6, 1, 7, 8, 5, 3, 4],
        [8, 3, 4, 2, 5, 9, 6, 7, 1],
        [5, 1, 7, 6, 4, 3, 8, 9, 2],
    ]);
    assert_eq!(puzzle.solve().unwrap(), solution);
}

#[test]
fn test_solve_ambiguous() {
    // From <https://math.stackexchange.com/a/345255/10655>
    let puzzle = Puzzle::try_from([
        [1, 4, 5, 3, 2, 7, 6, 9, 8],
        [8, 3, 9, 6, 5, 4, 1, 2, 7],
        [6, 7, 2, 9, 1, 8, 5, 4, 3],
        [4, 9, 6, 0, 8, 5, 3, 7, 0],
        [2, 1, 8, 4, 7, 3, 9, 5, 6],
        [7, 5, 3, 0, 9, 6, 4, 8, 0],
        [3, 6, 7, 5, 4, 2, 8, 1, 9],
        [9, 8, 4, 7, 6, 1, 2, 3, 5],
        [5, 2, 1, 8, 3, 9, 7, 6, 4],
    ])
    .unwrap();
    let grid: [[u8; 9]; 9] = puzzle.solve().unwrap().into();
    for row in grid {
        for c in row {
            assert_ne!(c, 0);
        }
    }
}

#[test]
fn test_solve_unsolvable() {
    // From <https://www.reddit.com/r/sudoku/comments/7q76ay/>
    let puzzle = Puzzle::try_from([
        [2, 0, 0, 9, 0, 0, 0, 0, 0],
        [0, 0, 0, 0, 0, 0, 0, 6, 0],
        [0, 0, 0, 0, 0, 1, 0, 0, 0],
        [5, 0, 2, 6, 0, 0, 4, 0, 7],
        [0, 0, 0, 0, 0, 4, 1, 0, 0],
        [0, 0, 0, 0, 9, 8, 0, 2, 3],
        [0, 0, 0, 0, 0, 3, 0, 8, 0],
        [0, 0, 5, 0, 1, 0, 0, 0, 0],
        [0, 0, 7, 0, 0, 0, 0, 0, 0],
    ])
    .unwrap();
    assert_eq!(puzzle.solve(), None);
}

#[test]
fn test_try_from_array() {
    let p1 = Puzzle::try_from([
            [0, 0, 3, 0, 2, 0, 6, 0, 0],
            [9, 0, 0, 3, 0, 5, 0, 0, 1],
            [0, 0, 1, 8, 0, 6, 4, 0, 0],
            [0, 0, 8, 1, 0, 2, 9, 0, 0],
            [7, 0, 0, 0, 0, 0, 0, 0, 8],
            [0, 0, 6, 7, 0, 8, 2, 0, 0],
            [0, 0, 2, 6, 0, 9, 5, 0, 0],
            [8, 0, 0, 2, 0, 3, 0, 0, 9],
            [0, 0, 5, 0, 1, 0, 3, 0, 0],
        ])
    .unwrap();
    let p2 = Puzzle::from_grid([
            [0, 0, 3, 0, 2, 0, 6, 0, 0],
            [9, 0, 0, 3, 0, 5, 0, 0, 1],
            [0, 0, 1, 8, 0, 6, 4, 0, 0],
            [0, 0, 8, 1, 0, 2, 9, 0, 0],
            [7, 0, 0, 0, 0, 0, 0, 0, 8],
            [0, 0, 6, 7, 0, 8, 2, 0, 0],
            [0, 0, 2, 6, 0, 9, 5, 0, 0],
            [8, 0, 0, 2, 0, 3, 0, 0, 9],
            [0, 0, 5, 0, 1, 0, 3, 0, 0],
        ])
    .unwrap();
    assert_eq!(p1, p2);
    assert_eq!(*p1, [
            [0, 0, 3, 0, 2, 0, 6, 0, 0],
            [9, 0, 0, 3, 0, 5, 0, 0, 1],
            [0, 0, 1, 8, 0, 6, 4, 0, 0],
            [0, 0, 8, 1, 0, 2, 9, 0, 0],
            [7, 0, 0, 0, 0, 0, 0, 0, 8],
            [0, 0, 6, 7, 0, 8, 2, 0, 0],
            [0, 0, 2, 6, 0, 9, 5, 0, 0],
            [8, 0, 0, 2, 0, 3, 0, 0, 9],
            [0, 0, 5, 0, 1, 0, 3, 0, 0],
        ]);
}

#[test]
fn test_try_from_vec() {
    let p1 = Puzzle::try_from(vec![
        vec![0, 0, 3, 0, 2, 0, 6, 0, 0],
        vec![9, 0, 0, 3, 0, 5, 0, 0, 1],
        vec![0, 0, 1, 8, 0, 6, 4, 0, 0],
        vec![0, 0, 8, 1, 0, 2, 9, 0, 0],
        vec![7, 0, 0, 0, 0, 0, 0, 0, 8],
        vec![0, 0, 6, 7, 0, 8, 2, 0, 0],
        vec![0, 0, 2, 6, 0, 9, 5, 0, 0],
        vec![8, 0, 0, 2, 0, 3, 0, 0, 9],
        vec![0, 0, 5, 0, 1, 0, 3, 0, 0],
    ])
    .unwrap();
    let p2 = Puzzle::try_from([
            [0, 0, 3, 0, 2, 0, 6, 0, 0],
            [9, 0, 0, 3, 0, 5, 0, 0, 1],
            [0, 0, 1, 8, 0, 6, 4, 0, 0],
            [0, 0, 8, 1, 0, 2, 9, 0, 0],
            [7, 0, 0, 0, 0, 0, 0, 0, 8],
            [0, 0, 6, 7, 0, 8, 2, 0, 0],
            [0, 0, 2, 6, 0, 9, 5, 0, 0],
            [8, 0, 0, 2, 0, 3, 0, 0, 9],
            [0, 0, 5, 0, 1, 0, 3, 0, 0],
        ])
    .unwrap();
    assert_eq!(p1, p2);
}

#[test]
fn test_try_from_array_with_invalid_cell() {
    let r = Puzzle::try_from([
        [0, 0, 3, 0, 2, 0, 6, 0, 0],
        [9, 0, 0, 3, 0, 50, 0, 0, 11],
        [0, 0, 13, 8, 0, 6, 42, 0, 0],
        [0, 0, 8, 1, 0, 2, 9, 0, 0],
        [7, 0, 0, 0, 0, 0, 0, 0, 8],
        [0, 0, 6, 7, 0, 8, 2, 0, 0],
        [0, 0, 2, 6, 0, 9, 5, 0, 0],
        [8, 0, 0, 2, 0, 3, 0, 0, 9],
        [0, 0, 5, 0, 1, 0, 3, 0, 0],
    ]);
    assert_eq!(r, Err(TryIntoPuzzleError::NumTooBig(50)));
}

#[test]
fn test_try_from_slices_with_long_row() {
    let r = Puzzle::try_from(
        [
            [0, 0, 3, 0, 2, 0, 6, 0, 0].as_slice(),
            [9, 0, 0, 3, 0, 5, 0, 0, 1].as_slice(),
            [0, 0, 1, 8, 0, 6, 4, 0, 0, 42, 113].as_slice(),
            [0, 0, 8, 1, 0, 2, 9, 0, 0].as_slice(),
            [7, 0, 0, 0, 0, 0, 0, 0, 8].as_slice(),
            [0, 0, 6, 7, 0, 8, 2, 0, 0].as_slice(),
            [0, 0, 2, 6, 0, 9, 5, 0, 0].as_slice(),
            [8, 0, 0, 2, 0, 3, 0, 0, 9].as_slice(),
            [0, 0, 5, 0, 1, 0, 3, 0, 0].as_slice(),
        ]
        .as_slice(),
    );
    assert_eq!(r, Err(TryIntoPuzzleError::BadRowSize));
}

#[test]
fn test_try_from_long_slice_with_short_row() {
    let r = Puzzle::try_from(
        [
            [0, 0, 3, 0, 2, 0, 6, 0, 0].as_slice(),
            [9, 0, 0, 3, 0, 5, 0, 0, 1].as_slice(),
            [0, 0, 1, 8, 0, 6, 4].as_slice(),
            [0, 0, 8, 1, 0, 2, 9, 0, 0].as_slice(),
            [7, 0, 0, 0, 0, 0, 0, 0, 8].as_slice(),
            [0, 0, 6, 7, 0, 8, 2, 0, 0].as_slice(),
            [0, 0, 2, 6, 0, 9, 5, 0, 0].as_slice(),
            [8, 0, 0, 2, 0, 3, 0, 0, 9].as_slice(),
            [0, 0, 5, 0, 1, 0, 3, 0, 0].as_slice(),
            [9, 8, 7, 6, 5, 4, 3, 2, 1].as_slice(),
            [9, 8, 7, 6, 5, 4, 3, 2, 1].as_slice(),
        ]
        .as_slice(),
    );
    assert_eq!(r, Err(TryIntoPuzzleError::BadRowSize));
}

#[test]
fn test_try_from_long_slice() {
    let r = Puzzle::try_from(
        [
            [0, 0, 3, 0, 2, 0, 6, 0, 0].as_slice(),
            [9, 0, 0, 3, 0, 5, 0, 0, 1].as_slice(),
            [0, 0, 1, 8, 0, 6, 4, 0, 0].as_slice(),
            [0, 0, 8, 1, 0, 2, 9, 0, 0].as_slice(),
            [7, 0, 0, 0, 0, 0, 0, 0, 8].as_slice(),
            [0, 0, 6, 7, 0, 8, 2, 0, 0].as_slice(),
            [0, 0, 2, 6, 0, 9, 5, 0, 0].as_slice(),
            [8, 0, 0, 2, 0, 3, 0, 0, 9].as_slice(),
            [0, 0, 5, 0, 1, 0, 3, 0, 0].as_slice(),
            [9, 8, 7, 6, 5, 4, 3, 2, 1].as_slice(),
            [9, 8, 7, 6, 5, 4, 3, 2, 1].as_slice(),
        ]
        .as_slice(),
    );
    assert_eq!(r, Err(TryIntoPuzzleError::BadGridSize));
}

#[test]
fn test_try_from_short_slice() {
    let r = Puzzle::try_from(
        [
            [0, 0, 3, 0, 2, 0, 6, 0, 0].as_slice(),
            [9, 0, 0, 3, 0, 5, 0, 0, 1].as_slice(),
            [0, 0, 1, 8, 0, 6, 4, 0, 0].as_slice(),
            [0, 0, 8, 1, 0, 2, 9, 0, 0].as_slice(),
            [7, 0, 0, 0, 0, 0, 0, 0, 8].as_slice(),
            [0, 0, 6, 7, 0, 8, 2, 0, 0].as_slice(),
            [0, 0, 2, 6, 0, 9, 5, 0, 0].as_slice(),
            [8, 0, 0, 2, 0, 3, 0, 0, 9].as_slice(),
        ]
        .as_slice(),
    );
    assert_eq!(r, Err(TryIntoPuzzleError::BadGridSize));
}

#[test]
fn test_parse_puzzle() {
    let s = [
        "000780500\n",
        "200650700\n",
        "000000630\n",
        "010000070\n",
        "000506000\n",
        "060000020\n",
        "087000000\n",
        "003017009\n",
        "004092000\n",
    ]
    .concat();
    let puzzle = Puzzle::try_from([
            [0, 0, 0, 7, 8, 0, 5, 0, 0],
            [2, 0, 0, 6, 5, 0, 7, 0, 0],
            [0, 0, 0, 0, 0, 0, 6, 3, 0],
            [0, 1, 0, 0, 0, 0, 0, 7, 0],
            [0, 0, 0, 5, 0, 6, 0, 0, 0],
            [0, 6, 0, 0, 0, 0, 0, 2, 0],
            [0, 8, 7, 0, 0, 0, 0, 0, 0],
            [0, 0, 3, 0, 1, 7, 0, 0, 9],
            [0, 0, 4, 0, 9, 2, 0, 0, 0],
        ])
    .unwrap();
    assert_eq!(s.parse::<Puzzle>().unwrap(), puzzle);
}

#[test]
fn test_parse_spaced_puzzle() {
    let s = [
        "0 0 0  7 8 0  5 0 0\n",
        "2 0 0  6 5 0  7 0 0\n",
        "0 0 0  0 0 0  6 3 0\n",
        "\n",
        "0 1 0  0 0 0  0 7 0\n",
        "0 0 0  5 0 6  0 0 0\n",
        "0 6 0  0 0 0  0 2 0\n",
        "\n",
        "0 8 7  0 0 0  0 0 0\n",
        "0 0 3  0 1 7  0 0 9\n",
        "0 0 4  0 9 2  0 0 0\n",
    ]
    .concat();
    let puzzle = Puzzle::try_from([
            [0, 0, 0, 7, 8, 0, 5, 0, 0],
            [2, 0, 0, 6, 5, 0, 7, 0, 0],
            [0, 0, 0, 0, 0, 0, 6, 3, 0],
            [0, 1, 0, 0, 0, 0, 0, 7, 0],
            [0, 0, 0, 5, 0, 6, 0, 0, 0],
            [0, 6, 0, 0, 0, 0, 0, 2, 0],
            [0, 8, 7, 0, 0, 0, 0, 0, 0],
            [0, 0, 3, 0, 1, 7, 0, 0, 9],
            [0, 0, 4, 0, 9, 2, 0, 0, 0],
        ])
    .unwrap();
    assert_eq!(s.parse::<Puzzle>().unwrap(), puzzle);
}

#[test]
fn test_parse_punctuated_puzzle() {
    let s = [
        "...78.5..\n",
        "2..65.7..\n",
        "......63.\n",
        ".1.....7.\n",
        "...5.6...\n",
        ".6.....2.\n",
        ".87......\n",
        "..3.17..9\n",
        "..4.92...\n",
    ]
    .concat();
    let puzzle = Puzzle::try_from([
            [0, 0, 0, 7, 8, 0, 5, 0, 0],
            [2, 0, 0, 6, 5, 0, 7, 0, 0],
            [0, 0, 0, 0, 0, 0, 6, 3, 0],
            [0, 1, 0, 0, 0, 0, 0, 7, 0],
            [0, 0, 0, 5, 0, 6, 0, 0, 0],
            [0, 6, 0, 0, 0, 0, 0, 2, 0],
            [0, 8, 7, 0, 0, 0, 0, 0, 0],
            [0, 0, 3, 0, 1, 7, 0, 0, 9],
            [0, 0, 4, 0, 9, 2, 0, 0, 0],
        ])
    .unwrap();
    assert_eq!(s.parse::<Puzzle>().unwrap(), puzzle);
}

#[test]
fn test_index_puzzle() {
    let puzzle = Puzzle::try_from([
            [0, 0, 3, 0, 2, 0, 6, 0, 0],
            [9, 0, 0, 3, 0, 5, 0, 0, 1],
            [0, 0, 1, 8, 0, 6, 4, 0, 0],
            [0, 0, 8, 1, 0, 2, 9, 0, 0],
            [7, 0, 0, 0, 0, 0, 0, 0, 8],
            [0, 0, 6, 7, 0, 8, 2, 0, 0],
            [0, 0, 2, 6, 0, 9, 5, 0, 0],
            [8, 0, 0, 2, 0, 3, 0, 0, 9],
            [0, 0, 5, 0, 1, 0, 3, 0, 0],
        ])
    .unwrap();
    assert_eq!(puzzle[0], [0, 0, 3, 0, 2, 0, 6, 0, 0]);
    assert_eq!(puzzle[0][2], 3);
    assert_eq!(puzzle[8], [0, 0, 5, 0, 1, 0, 3, 0, 0]);
}

#[test]
fn test_index_solution() {
    let solution = solution_of([
            [4, 8, 3, 9, 2, 1, 6, 5, 7],
            [9, 6, 7, 3, 4, 5, 8, 2, 1],
            [2, 5, 1, 8, 7, 6, 4, 9, 3],
            [5, 4, 8, 1, 3, 2, 9, 7, 6],
            [7, 2, 9, 5, 6, 4, 1, 3, 8],
            [1, 3, 6, 7, 9, 8, 2, 4, 5],
            [3, 7, 2, 6, 8, 9, 5, 1, 4],
            [8, 1, 4, 2, 5, 3, 7, 6, 9],
            [6, 9, 5, 4, 1, 7, 3, 8, 2],
        ]);
    assert_eq!(solution[0], [4, 8, 3, 9, 2, 1, 6, 5, 7]);
    assert_eq!(solution[0][1], 8);
    assert_eq!(solution[8], [6, 9, 5, 4, 1, 7, 3, 8, 2]);
}

#[test]
fn test_from_puzzle() {
    let grid = [
            [4, 8, 3, 9, 2, 1, 6, 5, 7],
            [9, 6, 7, 3, 4, 5, 8, 2, 1],
            [2, 5, 1, 8, 7, 6, 4, 9, 3],
            [5, 4, 8, 1, 3, 2, 9, 7, 6],
            [7, 2, 9, 5, 6, 4, 1, 3, 8],
            [1, 3, 6, 7, 9, 8, 2, 4, 5],
            [3, 7, 2, 6, 8, 9, 5, 1, 4],
            [8, 1, 4, 2, 5, 3, 7, 6, 9],
            [6, 9, 5, 4, 1, 7, 3, 8, 2],
        ];
    let solution = solution_of(grid);
    assert_eq!(<[[u8; 9]; 9]>::from(solution), grid);
}
