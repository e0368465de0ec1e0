use array_stat_functions::chunk_vec;
use array_stat_functions::find_pairs_with_sum;
use array_stat_functions::remove_duplicates;

#[test]
fn chunk_exact_multiple() {
    let num = vec![1, 2, 3, 4, 5, 6, 7, 8, 9];
    let chunked = chunk_vec(&num, 3);
    assert_eq!(chunked, Ok(vec![vec![1, 2, 3], vec![4, 5, 6], vec![7, 8, 9]]));
}

#[test]
fn chunk_with_remainder() {
    let num = vec![1, 2, 3, 4, 5];
    let chunked = chunk_vec(&num, 2);
    assert_eq!(chunked, Ok(vec![vec![1, 2], vec![3, 4], vec![5]]));
}

#[test]
fn chunk_size_larger_than_input() {
    let num = vec![1, 2];
    let chunked = chunk_vec(&num, 10);
    assert_eq!(chunked, Ok(vec![vec![1, 2]]));
}

#[test]
fn chunk_empty_input() {
    let num: Vec<i32> = vec![];
    let chunked = chunk_vec(&num, 4);
    assert_eq!(chunked, Ok(Vec::<Vec<i32>>::new()));
}

#[test]
fn chunk_zero_size_fails() {
    let num = vec![1, 2, 3];
    assert_eq!(chunk_vec(&num, 0), Err("Chunk size cannot be zero"));
    let empty: Vec<i32> = vec![];
    assert_eq!(chunk_vec(&empty, 0), Err("Chunk size cannot be zero"));
}

#[test]
fn chunk_concatenation_reproduces_input() {
    let num: Vec<u8> = (0..23).collect();
    for k in 1..7usize {
        let groups = chunk_vec(&num, k).unwrap();
        for (gi, g) in groups.iter().enumerate() {
            if gi + 1 < groups.len() {
                assert_eq!(g.len(), k);
            } else {
                assert!(1 <= g.len() && g.len() <= k);
            }
        }
        let rebuilt: Vec<u8> = groups.into_iter().flatten().collect();
        assert_eq!(rebuilt, num);
    }
}

#[test]
fn dedup_keeps_first_occurrences() {
    let num = vec![1, 2, 3, 4, 5, 6, 2, 8, 9, 9];
    assert_eq!(remove_duplicates(&num), vec![1, 2, 3, 4, 5, 6, 8, 9]);
}

#[test]
fn dedup_order_of_first_occurrence() {
    let num = vec![3, 1, 3, 2, 1];
    assert_eq!(remove_duplicates(&num), vec![3, 1, 2]);
}

#[test]
fn dedup_empty_input() {
    let num: Vec<i64> = vec![];
    assert_eq!(remove_duplicates(&num), Vec::<i64>::new());
}

#[test]
fn dedup_idempotent() {
    let num = vec![5, 5, 1, 4, 1, 4, 5];
    let once = remove_duplicates(&num);
    let twice = remove_duplicates(&once);
    assert_eq!(twice, once);
}

#[test]
fn pairs_reference_multiplicities() {
    let arr: Vec<i64> = vec![1, 5, 7, 1, 5, 3, 2];
    let pairs = find_pairs_with_sum(&arr, 6);
    assert_eq!(
        pairs,
        vec![(1, 5), (1, 5), (5, 1), (5, 1), (1, 5), (1, 5), (5, 1), (5, 1)]
    );
}

#[test]
fn pairs_self_partner_uses_halved_count() {
    let arr: Vec<i64> = vec![3, 3, 3];
    assert_eq!(find_pairs_with_sum(&arr, 6), vec![(3, 3), (3, 3), (3, 3)]);
    let arr4: Vec<i64> = vec![3, 3, 3, 3];
    assert_eq!(
        find_pairs_with_sum(&arr4, 6),
        vec![(3, 3); 8]
    );
}

#[test]
fn pairs_none_found() {
    let arr: Vec<i64> = vec![1, 2, 4];
    assert_eq!(find_pairs_with_sum(&arr, 100), Vec::<(i64, i64)>::new());
}

#[test]
fn pairs_negative_values() {
    let arr: Vec<i64> = vec![-2, 7];
    assert_eq!(find_pairs_with_sum(&arr, 5), vec![(-2, 7), (7, -2)]);
}

#[test]
fn pairs_empty_input() {
    let arr: Vec<i64> = vec![];
    assert_eq!(find_pairs_with_sum(&arr, 0), Vec::<(i64, i64)>::new());
}
