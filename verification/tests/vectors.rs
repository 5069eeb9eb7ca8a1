use expression_calculator::helpers::iterators::skip_iterator;
use expression_calculator::helpers::vectors::{combinations, combine_append, deepen, permutations};

#[test]
fn test_permutations() {
    let list = vec!["A", "B", "C", "D"];

    let permutations = permutations(list);

    assert_eq!(24, permutations.iter().count(), "there should be 24 permutations");

    let values = vec![
        vec!["A", "B", "C", "D"],
        vec!["A", "B", "D", "C"],
        vec!["A", "C", "B", "D"],
        vec!["A", "C", "D", "B"],
        vec!["A", "D", "B", "C"],
        vec!["A", "D", "C", "B"],
        vec!["B", "A", "C", "D"],
        vec!["B", "A", "D", "C"],
        vec!["B", "C", "A", "D"],
        vec!["B", "C", "D", "A"],
        vec!["B", "D", "A", "C"],
        vec!["B", "D", "C", "A"],
        vec!["C", "A", "B", "D"],
        vec!["C", "A", "D", "B"],
        vec!["C", "B", "A", "D"],
        vec!["C", "B", "D", "A"],
        vec!["C", "D", "A", "B"],
        vec!["C", "D", "B", "A"],
        vec!["D", "A", "B", "C"],
        vec!["D", "A", "C", "B"],
        vec!["D", "B", "A", "C"],
        vec!["D", "B", "C", "A"],
        vec!["D", "C", "A", "B"],
        vec!["D", "C", "B", "A"],
    ];

    for permutation in permutations.iter() {
        let n = values.iter().filter(|item| *item == permutation).count();
        assert_eq!(1, n, "There should be exactly one entry in values for each permutation.");
    }
    for value in values.iter() {
        let n = permutations.iter().filter(|item| *item == value).count();
        assert_eq!(1, n, "Each ordering should be produced exactly once.");
    }
}

#[test]
fn vectors_test_combinations() {
    let list = vec![vec!["a", "b"], vec!["c", "d"], vec!["e", "f"]];
    let combinations = combinations(list);
    assert_eq!(
        combinations,
        vec![
            vec!["a", "c", "e"],
            vec!["a", "c", "f"],
            vec!["a", "d", "e"],
            vec!["a", "d", "f"],
            vec!["b", "c", "e"],
            vec!["b", "c", "f"],
            vec!["b", "d", "e"],
            vec!["b", "d", "f"],
        ]
    );
}

#[test]
fn combinations_of_nothing_are_one_empty_vector() {
    let nothing: Vec<Vec<i32>> = Vec::new();
    assert_eq!(combinations(nothing), vec![Vec::<i32>::new()]);
}

#[test]
fn combinations_with_an_empty_vector_are_none() {
    let list = vec![vec![1, 2], vec![], vec![3]];
    assert_eq!(combinations(list), Vec::<Vec<i32>>::new());
}

#[test]
fn permutations_of_short_vectors() {
    assert_eq!(permutations(Vec::<i32>::new()), Vec::<Vec<i32>>::new());
    assert_eq!(permutations(vec![7]), vec![vec![7]]);
    let two = permutations(vec![1, 2]);
    assert_eq!(two.len(), 2);
    assert!(two.contains(&vec![1, 2]));
    assert!(two.contains(&vec![2, 1]));
}

#[test]
fn combine_append_pushes_every_item_onto_every_vector() {
    let accumulator = vec![vec!['a', 'b', 'c'], vec!['d', 'e', 'f']];
    let combined = combine_append(accumulator, vec!['1', '2']);
    assert_eq!(
        combined,
        vec![
            vec!['d', 'e', 'f', '2'],
            vec!['d', 'e', 'f', '1'],
            vec!['a', 'b', 'c', '2'],
            vec!['a', 'b', 'c', '1'],
        ]
    );
}

#[test]
fn combine_append_edge_cases() {
    let accumulator = vec![vec![1], vec![2]];
    assert_eq!(combine_append(accumulator.clone(), Vec::new()), accumulator);
    assert_eq!(combine_append(Vec::new(), vec![1, 2]), vec![vec![1], vec![2]]);
}

#[test]
fn deepen_wraps_each_item() {
    assert_eq!(deepen(vec![1, 2, 3]), vec![vec![1], vec![2], vec![3]]);
    assert_eq!(deepen(Vec::<i32>::new()), Vec::<Vec<i32>>::new());
}

#[test]
fn skip_iterator_leaves_out_a_range() {
    assert_eq!(skip_iterator(vec![0, 1, 2, 3, 4], 1, 3), vec![0, 3, 4]);
    assert_eq!(skip_iterator(vec![0, 1, 2, 3, 4], 0, 1), vec![1, 2, 3, 4]);
    assert_eq!(skip_iterator(vec![0, 1, 2], 2, 9), vec![0, 1]);
    assert_eq!(skip_iterator(vec![0, 1, 2], 2, 2), vec![0, 1, 2]);
    assert_eq!(skip_iterator(vec![0, 1, 2], 3, 1), vec![0, 1, 2]);
}
