use game_render::permutation::PermutationSet;

#[test]
fn permutation_set() {
    let mut set = PermutationSet::new();
    set.add(&["A", "B"]);
    assert_eq!(set.iter(), [["A"], ["B"]]);

    set.add(&["X", "Y"]);
    assert_eq!(
        set.iter(),
        [["A", "X"], ["B", "X"], ["A", "Y"], ["B", "Y"]]
    );

    set.add(&["E", "F", "G"]);
    assert_eq!(
        set.iter(),
        [
            ["A", "X", "E"],
            ["B", "X", "E"],
            ["A", "Y", "E"],
            ["B", "Y", "E"],
            ["A", "X", "F"],
            ["B", "X", "F"],
            ["A", "Y", "F"],
            ["B", "Y", "F"],
            ["A", "X", "G"],
            ["B", "X", "G"],
            ["A", "Y", "G"],
            ["B", "Y", "G"],
        ]
    );
}

#[test]
fn permutation_set_empty() {
    let mut set: PermutationSet<u32> = PermutationSet::new();
    assert!(set.is_empty());
    set.add(&[1, 2]);
    assert!(!set.is_empty());
    assert_eq!(set.iter().len(), 2);
}
