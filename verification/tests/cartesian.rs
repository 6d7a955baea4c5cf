use slicer::util::{cartesian_product, partial_cartesian};

#[test]
fn product_of_three_lists() {
    let lists = vec![vec![1, 2], vec![4, 5], vec![6, 7]];
    assert_eq!(
        cartesian_product(lists),
        vec![
            vec![1, 4, 6],
            vec![1, 4, 7],
            vec![1, 5, 6],
            vec![1, 5, 7],
            vec![2, 4, 6],
            vec![2, 4, 7],
            vec![2, 5, 6],
            vec![2, 5, 7],
        ]
    );
}

#[test]
fn product_of_no_lists_is_empty() {
    let lists: Vec<Vec<u8>> = Vec::new();
    assert_eq!(cartesian_product(lists), Vec::<Vec<u8>>::new());
}

#[test]
fn product_of_one_list_is_its_singletons() {
    assert_eq!(cartesian_product(vec![vec!['a', 'b', 'c']]), vec![vec!['a'], vec!['b'], vec!['c']]);
}

#[test]
fn product_with_an_empty_list_is_empty() {
    let lists: Vec<Vec<u8>> = vec![vec![1, 2], vec![], vec![3]];
    assert_eq!(cartesian_product(lists), Vec::<Vec<u8>>::new());
}

#[test]
fn product_of_lists_of_unequal_length() {
    let lists = vec![vec![1], vec![2, 3, 4], vec![5, 6]];
    assert_eq!(
        cartesian_product(lists),
        vec![
            vec![1, 2, 5],
            vec![1, 2, 6],
            vec![1, 3, 5],
            vec![1, 3, 6],
            vec![1, 4, 5],
            vec![1, 4, 6],
        ]
    );
}

#[test]
fn product_clones_strings() {
    let lists = vec![vec![String::from("a")], vec![String::from("x"), String::from("y")]];
    assert_eq!(
        cartesian_product(lists),
        vec![
            vec![String::from("a"), String::from("x")],
            vec![String::from("a"), String::from("y")],
        ]
    );
}

#[test]
fn partial_product_continues_each_row_by_each_element() {
    let a = vec![vec![1, 2], vec![3]];
    let b = vec![7, 8, 9];
    assert_eq!(
        partial_cartesian(a, b),
        vec![
            vec![1, 2, 7],
            vec![1, 2, 8],
            vec![1, 2, 9],
            vec![3, 7],
            vec![3, 8],
            vec![3, 9],
        ]
    );
}

#[test]
fn partial_product_with_nothing_to_continue_by_is_empty() {
    let a = vec![vec![1, 2], vec![3]];
    let b: Vec<i32> = Vec::new();
    assert_eq!(partial_cartesian(a, b), Vec::<Vec<i32>>::new());
}

#[test]
fn partial_product_of_no_rows_is_empty() {
    let a: Vec<Vec<i32>> = Vec::new();
    assert_eq!(partial_cartesian(a, vec![1, 2]), Vec::<Vec<i32>>::new());
}
