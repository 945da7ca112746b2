use algolib::z_algorithm::z_algorithm;

#[test]
fn test_z_algorithm() {
    let s = "ababa".chars().collect::<Vec<_>>();
    let z = z_algorithm(&s);
    assert_eq!(z, vec![5, 0, 3, 0, 1]);
}

#[test]
fn z_of_empty_and_uniform_strings() {
    let empty: Vec<char> = Vec::new();
    assert_eq!(z_algorithm(&empty), Vec::<usize>::new());
    let s = "aaaa".chars().collect::<Vec<_>>();
    assert_eq!(z_algorithm(&s), vec![4, 3, 2, 1]);
}

#[test]
fn test_edit_distance_string() {
    let s = "biting".chars().collect::<Vec<char>>();
    let t = "whiten".chars().collect::<Vec<char>>();
    assert_eq!(algolib::edit_distance::edit_distance(&s, &t), 4);
    let s = String::from("icpc").chars().collect::<Vec<char>>();
    let t = String::from("icpc").chars().collect::<Vec<char>>();
    assert_eq!(algolib::edit_distance::edit_distance(&s, &t), 0);
}

#[test]
fn test_edit_distance_vec_abc185e() {
    let s = vec![1, 3, 2, 4];
    let t = vec![1, 5, 2, 6, 4, 3];
    assert_eq!(algolib::edit_distance::edit_distance(&s, &t), 3);
}
