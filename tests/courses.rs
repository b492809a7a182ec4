use catalog::db::weight;
use catalog::{Course, Db, Instructor, ReqNode, ReqOperator, Schedule, SearchField};

fn course(subject: &str, code: &str, title: &str, terms: &[&str]) -> Course {
    Course {
        id: format!("{subject}{code}"),
        title: title.into(),
        subject: subject.into(),
        code: code.into(),
        terms: terms.iter().map(|t| t.to_string()).collect(),
        ..Default::default()
    }
}

fn ids(cs: &[&Course]) -> Vec<String> {
    cs.iter().map(|c| c.id.clone()).collect()
}

fn corpus() -> Vec<Course> {
    vec![
        course("COMP", "202", "Foundations of Programming", &["Fall 2022", "Winter 2023"]),
        course("COMP", "250", "Introduction to Computer Science", &["Fall 2022"]),
        course("COMP", "302", "Programming Languages and Paradigms", &["Winter 2023"]),
        course("MATH", "202", "Honours Algebra", &["Fall 2022"]),
        course("MATH", "240", "Discrete Structures", &["Winter 2023"]),
        course("MATH", "133", "Linear Algebra and Geometry", &["Fall 2022", "Summer 2023"]),
        course("PHYS", "101", "Introductory Physics", &["Winter 2023"]),
    ]
}

fn seeded() -> Db {
    let mut db = Db::new("test");
    db.seed(vec![corpus()]);
    db
}

#[test]
fn course_seeding_does_not_insert_duplicates() {
    let mut db = Db::new("test");
    db.seed(vec![(0..10).map(|_| Course::default()).collect::<Vec<Course>>()]);
    assert_eq!(db.courses(None, None, None, None, None).len(), 1);
}

#[test]
fn name_is_kept() {
    assert_eq!(Db::new("catalogue").name(), "catalogue");
}

#[test]
fn seeding_stores_search_fields() {
    let db = seeded();
    let c = db.find_course_by_id("COMP202").unwrap();
    assert_eq!(c.id_ngrams.as_deref().unwrap().split(' ').count(), 28);
    assert!(c.title_ngrams.as_deref().unwrap().split(' ').any(|g| g == "Foundations"));
    assert!(!c.title_ngrams.as_deref().unwrap().split(' ').any(|g| g == "of"));
}

#[test]
fn reseeding_is_idempotent() {
    let mut db = seeded();
    let before: Vec<Course> = db.courses(None, None, None, None, None).into_iter().cloned().collect();
    db.seed(vec![corpus()]);
    let after: Vec<Course> = db.courses(None, None, None, None, None).into_iter().cloned().collect();
    assert_eq!(after.len(), before.len());
    for (a, b) in after.iter().zip(before.iter()) {
        assert_eq!(a.id, b.id);
        assert_eq!(a.title, b.title);
        assert_eq!(a.terms, b.terms);
        assert_eq!(a.id_ngrams, b.id_ngrams);
    }
}

#[test]
fn courses_get_updated_when_seeding() {
    let mut db = Db::new("test");
    let mut first = course("COMP", "202", "Foundations of Programming", &["Fall 2022"]);
    first.instructors = vec![Instructor { name: "Ada".into(), term: vec!["Fall 2022".into()] }];
    first.schedule = Some(vec![Schedule {
        term: "Fall 2022".into(),
        section: "001".into(),
        location: "ENGMC 204".into(),
    }]);
    first.credits = "3".into();
    db.seed(vec![vec![first]]);
    let mut second = course("COMP", "202", "Foundations of Programming II", &["Winter 2023"]);
    second.instructors = vec![Instructor { name: "Bob".into(), term: vec!["Winter 2023".into()] }];
    second.credits = "4".into();
    let other = course("MATH", "240", "Discrete Structures", &["Winter 2023"]);
    db.seed(vec![vec![second], vec![other]]);
    let all = db.courses(None, None, None, None, None);
    assert_eq!(ids(&all), vec!["COMP202", "MATH240"]);
    let c = all[0];
    assert_eq!(c.title, "Foundations of Programming II");
    assert_eq!(c.credits, "4");
    assert_eq!(c.terms, vec!["Winter 2023".to_string(), "Fall 2022".to_string()]);
    let names: Vec<&str> = c.instructors.iter().map(|i| i.name.as_str()).collect();
    assert_eq!(names, vec!["Bob", "Ada"]);
    assert_eq!(c.schedule.as_ref().unwrap().len(), 1);
    assert!(!c.title_ngrams.as_deref().unwrap().contains("II"));
}

#[test]
fn reconcile_keeps_other_fields() {
    let mut stored = course("COMP", "202", "Old", &["Fall 2022"]);
    stored.department = "Computer Science".into();
    stored.leading_to = vec!["COMP250".into()];
    let mut incoming = course("COMP", "202", "New", &["Fall 2022", "Winter 2023"]);
    incoming.department = "Other".into();
    incoming.url = "https://example.org/comp-202".into();
    let r = stored.reconcile(incoming);
    assert_eq!(r.title, "New");
    assert_eq!(r.url, "https://example.org/comp-202");
    assert_eq!(r.department, "Computer Science");
    assert_eq!(r.leading_to, vec!["COMP250".to_string()]);
    assert_eq!(r.terms, vec!["Fall 2022".to_string(), "Winter 2023".to_string()]);
    assert!(r.schedule.is_none());
}

#[test]
fn merge_prefers_the_newer_record() {
    let mut a = course("COMP", "202", "Old", &[]);
    a.logical_prerequisites = Some(ReqNode {
        operator: ReqOperator::And,
        courses: vec!["COMP250".into()],
        groups: vec![],
    });
    a.schedule = Some(vec![Schedule::default()]);
    let b = course("COMP", "202", "New", &[]);
    let m = a.merge(b);
    assert_eq!(m.title, "New");
    assert_eq!(m.logical_prerequisites.unwrap().courses, vec!["COMP250".to_string()]);
    assert!(m.logical_corequisites.is_none());
    assert_eq!(m.schedule.unwrap().len(), 1);
}

#[test]
fn instructors_are_stored_once_by_name() {
    let mut a = course("COMP", "202", "A", &[]);
    a.instructors = vec![Instructor { name: "Ada".into(), term: vec![] }];
    let mut b = course("COMP", "250", "B", &[]);
    b.instructors = vec![
        Instructor { name: "Ada".into(), term: vec!["Fall 2022".into()] },
        Instructor { name: "Bob".into(), term: vec![] },
    ];
    let mut db = Db::new("test");
    db.seed(vec![vec![a, b]]);
    let c = db.find_course_by_id("COMP250").unwrap();
    assert_eq!(c.instructors.len(), 2);
    assert!(db.find_course_by_id("COMP999").is_none());
}

#[test]
fn get_course_by_id() {
    let db = seeded();
    let courses = db.courses(None, None, None, None, None);
    assert_eq!(courses.len(), 7);
    let first = courses[0];
    assert!(db.find_course_by_id(&first.id).unwrap().same_record(first));
}

#[test]
fn filter_courses_by_subject() {
    let db = seeded();
    let total = db.courses(None, None, None, None, None);
    let filtered = db.courses(None, None, Some(vec!["MATH".into()]), None, None);
    assert!(filtered.len() < total.len());
    assert_eq!(filtered.len(), 3);
    for course in filtered {
        assert_eq!(course.subject, "MATH");
    }
}

#[test]
fn filter_courses_by_level() {
    let db = seeded();
    let total = db.courses(None, None, None, None, None);
    let filtered = db.courses(None, None, None, Some(vec!["1".into()]), None);
    assert!(filtered.len() < total.len());
    assert_eq!(ids(&filtered), vec!["MATH133", "PHYS101"]);
    for course in filtered {
        assert!(course.code.starts_with('1'));
    }
}

#[test]
fn filter_courses_by_term() {
    let db = seeded();
    let total = db.courses(None, None, None, None, None);
    let filtered = db.courses(None, None, None, None, Some(vec!["Winter".into()]));
    assert!(filtered.len() < total.len());
    assert_eq!(filtered.len(), 4);
    for course in filtered {
        assert!(course.terms.iter().any(|term| term.starts_with("Winter")));
    }
}

#[test]
fn filters_combine_and_empty_lists_match_nothing() {
    let db = seeded();
    let both = db.courses(None, None, Some(vec!["COMP".into(), "PHYS".into()]), Some(vec!["2".into()]), None);
    assert_eq!(ids(&both), vec!["COMP202", "COMP250"]);
    assert_eq!(db.courses(None, None, Some(vec![]), None, None).len(), 0);
}

#[test]
fn get_courses_with_limit() {
    let mut db = Db::new("test");
    let batch: Vec<Course> = (100..130).map(|n| course("MATH", &n.to_string(), "T", &[])).collect();
    db.seed(vec![batch]);
    assert_eq!(db.courses(Some(10), None, None, None, None).len(), 10);
    assert_eq!(db.courses(Some(-5), None, None, None, None).len(), 5);
    assert_eq!(db.courses(Some(0), None, None, None, None).len(), 30);
}

#[test]
fn get_courses_with_offset() {
    let mut db = Db::new("test");
    let batch: Vec<Course> = (100..130).map(|n| course("MATH", &n.to_string(), "T", &[])).collect();
    db.seed(vec![batch]);
    let page = db.courses(None, Some(20), None, None, None);
    assert_eq!(page.len(), 10);
    assert_eq!(page[0].code, "120");
    assert_eq!(db.courses(Some(3), Some(28), None, None, None).len(), 2);
    assert_eq!(db.courses(None, Some(99), None, None, None).len(), 0);
}

#[test]
fn search_course_by_id_exact() {
    let db = seeded();
    let courses = db.search("COMP202");
    assert_eq!(courses.len(), 1);
    assert_eq!(courses[0].subject, "COMP");
    assert_eq!(courses[0].code, "202");
}

#[test]
fn search_is_accurate() {
    let db = seeded();
    let courses = db.search("COMP 202");
    assert!(courses.len() > 1);
    assert_eq!(courses[0].subject, "COMP");
    assert_eq!(courses[0].code, "202");
}

#[test]
fn fuzzy_search_course_by_title() {
    let db = seeded();
    let courses = db.search("foundations of");
    assert_eq!(courses.len(), 1);
    assert_eq!(courses[0].subject, "COMP");
    assert_eq!(courses[0].code, "202");
}

#[test]
fn search_returns_at_most_ten() {
    let mut db = Db::new("test");
    let batch: Vec<Course> = (100..130).map(|n| course("MATH", &n.to_string(), "Topics", &[])).collect();
    db.seed(vec![batch]);
    assert_eq!(db.search("math").len(), 10);
    assert_eq!(db.search("chemistry").len(), 0);
    assert_eq!(db.search("").len(), 0);
}

#[test]
fn index_weights() {
    assert_eq!(weight(SearchField::Subject), 10);
    assert_eq!(weight(SearchField::Code), 10);
    assert_eq!(weight(SearchField::Id), 10);
    assert_eq!(weight(SearchField::Title), 8);
    assert_eq!(weight(SearchField::IdNgrams), 4);
    assert_eq!(weight(SearchField::TitleNgrams), 2);
}

#[test]
fn reseeding_a_course_without_schedule_keeps_it_without() {
    let mut db = Db::new("test");
    let c = course("COMP", "202", "Foundations of Programming", &[]);
    db.seed(vec![vec![c.clone()]]);
    assert!(db.find_course_by_id("COMP202").unwrap().schedule.is_none());
    db.seed(vec![vec![c]]);
    assert!(db.find_course_by_id("COMP202").unwrap().schedule.is_none());
}

#[test]
fn course_instructors_come_from_each_sighting() {
    let mut db = Db::new("test");
    let mut a = course("COMP", "202", "A", &[]);
    a.instructors = vec![Instructor { name: "Ada".into(), term: vec!["Fall 2022".into()] }];
    db.seed(vec![vec![a]]);
    let mut b = course("COMP", "250", "B", &[]);
    b.instructors = vec![Instructor { name: "Ada".into(), term: vec!["Winter 2023".into()] }];
    db.seed(vec![vec![b]]);
    let c = db.find_course_by_id("COMP250").unwrap();
    assert_eq!(c.instructors[0].term, vec!["Winter 2023".to_string()]);
}

#[test]
fn records_compare_without_rating_aggregates() {
    let a = course("COMP", "202", "Foundations of Programming", &["Fall 2022"]);
    let mut b = a.clone();
    b.avg_rating_bits = 4.5f32.to_bits();
    b.review_count = 12;
    assert!(a.same_record(&b));
    b.terms.push("Winter 2023".into());
    assert!(!a.same_record(&b));
    let mut c = a.clone();
    c.instructors = vec![Instructor { name: "Ada".into(), term: vec![] }];
    assert!(!a.same_record(&c));
}

#[test]
fn reseeding_keeps_every_record() {
    let mut db = seeded();
    let before: Vec<Course> = db.courses(None, None, None, None, None).into_iter().cloned().collect();
    let mut again = corpus();
    for c in again.iter_mut() {
        c.schedule = Some(vec![]);
    }
    db.seed(vec![again.clone()]);
    let once: Vec<Course> = db.courses(None, None, None, None, None).into_iter().cloned().collect();
    db.seed(vec![again]);
    let twice = db.courses(None, None, None, None, None);
    assert_eq!(twice.len(), before.len());
    for (a, b) in twice.iter().zip(once.iter()) {
        assert!(a.same_record(b));
    }
}

#[test]
fn search_breaks_ties_by_storage_order() {
    let mut db = Db::new("test");
    let batch: Vec<Course> = (100..112).map(|n| course("MATH", &n.to_string(), "Topics", &[])).collect();
    db.seed(vec![batch]);
    let found: Vec<String> = db.search("math").iter().map(|c| c.code.clone()).collect();
    let expected: Vec<String> = (100..110).map(|n| n.to_string()).collect();
    assert_eq!(found, expected);
}
