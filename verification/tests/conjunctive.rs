use infisearch::conjunctive::{conjunctive_docs, ChildPl};

fn child(ids: Vec<u32>, is_mandatory: bool, is_subtracted: bool) -> ChildPl {
    ChildPl { doc_ids: ids, is_mandatory, is_subtracted }
}

#[test]
fn mandatory_children_intersect_and_subtracted_ones_remove() {
    let children = vec![
        child(vec![1, 3, 5, 7], true, false),
        child(vec![3, 4, 5], true, false),
        child(vec![5], false, true),
        child(vec![3, 9], false, false),
    ];
    assert_eq!(conjunctive_docs(&children), vec![(3, 3)]);
}

#[test]
fn without_mandatory_children_the_lists_unite() {
    let children = vec![
        child(vec![1, 3], false, false),
        child(vec![3, 4], false, false),
        child(vec![4], false, true),
    ];
    assert_eq!(conjunctive_docs(&children), vec![(1, 1), (3, 2)]);
    assert_eq!(conjunctive_docs(&vec![]), vec![]);
}

#[test]
fn the_largest_id_ends_the_mandatory_search() {
    assert_eq!(conjunctive_docs(&vec![child(vec![2, u32::MAX], true, false)]), vec![(2, 1)]);
    assert_eq!(conjunctive_docs(&vec![child(vec![u32::MAX], false, false)]), vec![(u32::MAX, 1)]);
}
