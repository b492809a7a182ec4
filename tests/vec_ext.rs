use catalog::vec_ext::VecExt;
use catalog::Instructor;

#[test]
fn combine() {
    assert_eq!(
        vec![1, 2, 3].combine(vec![1, 2, 3, 4, 5, 6]),
        vec![1, 2, 3, 4, 5, 6]
    );
}

#[test]
fn combine_option() {
    assert_eq!(
        vec![1, 2, 3].combine_option(Some(vec![1, 2, 3, 4, 5, 6])),
        vec![1, 2, 3, 4, 5, 6]
    );
}

#[test]
fn combine_option_none() {
    assert_eq!(vec![1, 2, 3].combine_option(None), vec![1, 2, 3]);
}

#[test]
fn combine_keeps_first_seen_order() {
    assert_eq!(vec![3, 1, 3].combine(vec![2, 1, 4]), vec![3, 1, 2, 4]);
}

#[test]
fn combine_instructors_by_name() {
    let a = vec![Instructor { name: "Ada".into(), term: vec!["Fall 2022".into()] }];
    let b = vec![
        Instructor { name: "Ada".into(), term: vec!["Winter 2023".into()] },
        Instructor { name: "Bob".into(), term: vec![] },
    ];
    let r = a.combine(b);
    assert_eq!(r.len(), 2);
    assert_eq!(r[0].name, "Ada");
    assert_eq!(r[0].term, vec!["Fall 2022".to_string()]);
    assert_eq!(r[1].name, "Bob");
}
