use vstd::prelude::*;

use crate::text::{filter_stopwords, ngrams, ngrams_of, str_eq, without_stopwords};
use crate::vec_ext::{dedup, Distinct, VecExt};

verus! {

/// A teacher of a course, identified by name, with the terms taught.
#[derive(Clone, Debug, Default)]
pub struct Instructor {
    pub name: String,
    pub term: Vec<String>,
}

/// One meeting-time entry of a course; two entries are the same only when
/// every field agrees.
#[derive(Clone, Debug, Default)]
pub struct Schedule {
    pub term: String,
    pub section: String,
    pub location: String,
}

/// How the children of a requirement group combine.
#[derive(Clone, Copy, Debug, PartialEq, Eq, Structural)]
pub enum ReqOperator {
    And,
    Or,
}

/// A group of course identifiers under one operator.
#[derive(Clone, Debug)]
pub struct ReqGroup {
    pub operator: ReqOperator,
    pub courses: Vec<String>,
}

/// A structured prerequisite or corequisite requirement: the listed courses
/// and the nested groups, all combined under `operator`.
#[derive(Clone, Debug)]
pub struct ReqNode {
    pub operator: ReqOperator,
    pub courses: Vec<String>,
    pub groups: Vec<ReqGroup>,
}

/// A course of the catalogue. `id` is its unique key. The rating fields are
/// aggregates over reviews: the two averages are carried as the bit patterns
/// of single-precision floats and take no part in any comparison.
#[derive(Clone, Debug, Default)]
pub struct Course {
    pub id: String,
    pub id_ngrams: Option<String>,
    pub title: String,
    pub title_ngrams: Option<String>,
    pub credits: String,
    pub subject: String,
    pub code: String,
    pub level: String,
    pub url: String,
    pub department: String,
    pub faculty: String,
    pub faculty_url: String,
    pub terms: Vec<String>,
    pub description: String,
    pub instructors: Vec<Instructor>,
    pub prerequisites_text: Option<String>,
    pub corequisites_text: Option<String>,
    pub prerequisites: Vec<String>,
    pub corequisites: Vec<String>,
    pub leading_to: Vec<String>,
    pub logical_prerequisites: Option<ReqNode>,
    pub logical_corequisites: Option<ReqNode>,
    pub restrictions: Option<String>,
    pub schedule: Option<Vec<Schedule>>,
    pub avg_rating_bits: u32,
    pub avg_difficulty_bits: u32,
    pub review_count: i32,
}

impl Distinct for Instructor {
    open spec fn same_as(&self, other: &Self) -> bool {
        self.name@ == other.name@
    }

    fn is_same(&self, other: &Self) -> (r: bool) {
        self.name == other.name
    }
}

impl Distinct for Schedule {
    open spec fn same_as(&self, other: &Self) -> bool {
        self.term@ == other.term@ && self.section@ == other.section@ && self.location@
            == other.location@
    }

    fn is_same(&self, other: &Self) -> (r: bool) {
        self.term == other.term && self.section == other.section && self.location
            == other.location
    }
}

/// The entries of an optional schedule, none when absent.
pub open spec fn entries(s: Option<Vec<Schedule>>) -> Seq<Schedule> {
    match s {
        Some(v) => v@,
        None => Seq::empty(),
    }
}

pub open spec fn or_else<A>(a: Option<A>, b: Option<A>) -> Option<A> {
    match a {
        Some(x) => Some(x),
        None => b,
    }
}

pub open spec fn texts_eq(a: Seq<String>, b: Seq<String>) -> bool {
    a.len() == b.len() && forall|i: int| 0 <= i < a.len() ==> (#[trigger] a[i])@ == b[i]@
}

pub open spec fn opt_text_eq(a: Option<String>, b: Option<String>) -> bool {
    match (a, b) {
        (Some(x), Some(y)) => x@ == y@,
        (None, None) => true,
        _ => false,
    }
}

pub open spec fn instructor_eq(a: Instructor, b: Instructor) -> bool {
    a.same_as(&b)
}

pub open spec fn instructors_eq(a: Seq<Instructor>, b: Seq<Instructor>) -> bool {
    a.len() == b.len() && forall|i: int| 0 <= i < a.len() ==> instructor_eq(#[trigger] a[i], b[i])
}

pub open spec fn schedules_eq(a: Seq<Schedule>, b: Seq<Schedule>) -> bool {
    a.len() == b.len() && forall|i: int|
        0 <= i < a.len() ==> (#[trigger] a[i]).same_as(&b[i])
}

pub open spec fn opt_schedules_eq(a: Option<Vec<Schedule>>, b: Option<Vec<Schedule>>) -> bool {
    match (a, b) {
        (Some(x), Some(y)) => schedules_eq(x@, y@),
        (None, None) => true,
        _ => false,
    }
}

pub open spec fn groups_eq(a: Seq<ReqGroup>, b: Seq<ReqGroup>) -> bool {
    a.len() == b.len() && forall|i: int|
        0 <= i < a.len() ==> (#[trigger] a[i]).operator == b[i].operator && texts_eq(
            a[i].courses@,
            b[i].courses@,
        )
}

pub open spec fn opt_node_eq(a: Option<ReqNode>, b: Option<ReqNode>) -> bool {
    match (a, b) {
        (Some(x), Some(y)) => x.operator == y.operator && texts_eq(x.courses@, y.courses@)
            && groups_eq(x.groups@, y.groups@),
        (None, None) => true,
        _ => false,
    }
}

/// `a` and `b` describe the same course: every field agrees but the rating
/// aggregates, which are recomputed from reviews and so left out.
pub open spec fn same_record(a: Course, b: Course) -> bool {
    &&& a.id@ == b.id@
    &&& opt_text_eq(a.id_ngrams, b.id_ngrams)
    &&& a.title@ == b.title@
    &&& opt_text_eq(a.title_ngrams, b.title_ngrams)
    &&& a.credits@ == b.credits@
    &&& a.subject@ == b.subject@
    &&& a.code@ == b.code@
    &&& a.level@ == b.level@
    &&& a.url@ == b.url@
    &&& a.department@ == b.department@
    &&& a.faculty@ == b.faculty@
    &&& a.faculty_url@ == b.faculty_url@
    &&& texts_eq(a.terms@, b.terms@)
    &&& a.description@ == b.description@
    &&& instructors_eq(a.instructors@, b.instructors@)
    &&& opt_text_eq(a.prerequisites_text, b.prerequisites_text)
    &&& opt_text_eq(a.corequisites_text, b.corequisites_text)
    &&& texts_eq(a.prerequisites@, b.prerequisites@)
    &&& texts_eq(a.corequisites@, b.corequisites@)
    &&& texts_eq(a.leading_to@, b.leading_to@)
    &&& opt_node_eq(a.logical_prerequisites, b.logical_prerequisites)
    &&& opt_node_eq(a.logical_corequisites, b.logical_corequisites)
    &&& opt_text_eq(a.restrictions, b.restrictions)
    &&& opt_schedules_eq(a.schedule, b.schedule)
}

fn texts_equal(a: &Vec<String>, b: &Vec<String>) -> (r: bool)
    ensures
        r == texts_eq(a@, b@),
{
    if a.len() != b.len() {
        return false;
    }
    let mut i: usize = 0;
    while i < a.len()
        invariant
            a@.len() == b@.len(),
            i <= a@.len(),
            forall|j: int| 0 <= j < i ==> (#[trigger] a@[j])@ == b@[j]@,
        decreases a@.len() - i,
    {
        if a[i] != b[i] {
            return false;
        }
        i = i + 1;
    }
    true
}

fn opt_text_equal(a: &Option<String>, b: &Option<String>) -> (r: bool)
    ensures
        r == opt_text_eq(*a, *b),
{
    match (a, b) {
        (Some(x), Some(y)) => *x == *y,
        (None, None) => true,
        _ => false,
    }
}

fn instructors_equal(a: &Vec<Instructor>, b: &Vec<Instructor>) -> (r: bool)
    ensures
        r == instructors_eq(a@, b@),
{
    if a.len() != b.len() {
        return false;
    }
    let mut i: usize = 0;
    while i < a.len()
        invariant
            a@.len() == b@.len(),
            i <= a@.len(),
            forall|j: int| 0 <= j < i ==> instructor_eq(#[trigger] a@[j], b@[j]),
        decreases a@.len() - i,
    {
        if !a[i].is_same(&b[i]) {
            return false;
        }
        i = i + 1;
    }
    true
}

fn opt_schedules_equal(a: &Option<Vec<Schedule>>, b: &Option<Vec<Schedule>>) -> (r: bool)
    ensures
        r == opt_schedules_eq(*a, *b),
{
    match (a, b) {
        (Some(x), Some(y)) => {
            if x.len() != y.len() {
                return false;
            }
            let mut i: usize = 0;
            while i < x.len()
                invariant
                    *a == Some(*x),
                    *b == Some(*y),
                    x@.len() == y@.len(),
                    i <= x@.len(),
                    forall|j: int| 0 <= j < i ==> (#[trigger] x@[j]).same_as(&y@[j]),
                decreases x@.len() - i,
            {
                if !x[i].is_same(&y[i]) {
                    return false;
                }
                i = i + 1;
            }
            true
        },
        (None, None) => true,
        _ => false,
    }
}

fn opt_node_equal(a: &Option<ReqNode>, b: &Option<ReqNode>) -> (r: bool)
    ensures
        r == opt_node_eq(*a, *b),
{
    match (a, b) {
        (Some(x), Some(y)) => {
            if !(x.operator == y.operator && texts_equal(&x.courses, &y.courses)) {
                return false;
            }
            if x.groups.len() != y.groups.len() {
                return false;
            }
            let mut i: usize = 0;
            while i < x.groups.len()
                invariant
                    *a == Some(*x),
                    *b == Some(*y),
                    x.operator == y.operator,
                    texts_eq(x.courses@, y.courses@),
                    x.groups@.len() == y.groups@.len(),
                    i <= x.groups@.len(),
                    forall|j: int|
                        0 <= j < i ==> (#[trigger] x.groups@[j]).operator == y.groups@[j].operator
                            && texts_eq(x.groups@[j].courses@, y.groups@[j].courses@),
                decreases x.groups@.len() - i,
            {
                if !(x.groups[i].operator == y.groups[i].operator && texts_equal(
                    &x.groups[i].courses,
                    &y.groups[i].courses,
                )) {
                    return false;
                }
                i = i + 1;
            }
            true
        },
        (None, None) => true,
        _ => false,
    }
}

/// `r` is `c` as first stored, with its derived search fields.
pub open spec fn is_indexed(r: Course, c: Course) -> bool {
    &&& r.id_ngrams matches Some(g) && g@ == ngrams_of(c.id@)
    &&& r.title_ngrams matches Some(g) && g@ == ngrams_of(without_stopwords(c.title@))
    &&& r == (Course { id_ngrams: r.id_ngrams, title_ngrams: r.title_ngrams, ..c })
}

/// `r` is the stored record `s` updated by the fresh sighting `c`.
pub open spec fn is_reconciled(r: Course, s: Course, c: Course) -> bool {
    &&& r.instructors@ == dedup(c.instructors@ + s.instructors@)
    &&& (c.schedule is None && s.schedule is None) ==> r.schedule is None
    &&& !(c.schedule is None && s.schedule is None) ==> (r.schedule matches Some(e) && e@ == dedup(
        entries(c.schedule) + entries(s.schedule),
    ))
    &&& r.terms@ == dedup(c.terms@ + s.terms@)
    &&& r == (Course {
        corequisites: c.corequisites,
        credits: c.credits,
        description: c.description,
        faculty_url: c.faculty_url,
        instructors: r.instructors,
        level: c.level,
        prerequisites: c.prerequisites,
        restrictions: c.restrictions,
        schedule: r.schedule,
        terms: r.terms,
        title: c.title,
        url: c.url,
        ..s
    })
}

/// `a` holds the same name and terms as `b`.
pub open spec fn copy_of(a: Instructor, b: Instructor) -> bool {
    a.name@ == b.name@ && texts_eq(a.term@, b.term@)
}

impl Instructor {
    /// A copy of this instructor: the same name and terms.
    pub fn copy(&self) -> (r: Instructor)
        ensures
            copy_of(r, *self),
    {
        let mut term: Vec<String> = Vec::new();
        let mut i: usize = 0;
        while i < self.term.len()
            invariant
                i <= self.term@.len(),
                term@.len() == i,
                forall|j: int| 0 <= j < i ==> (#[trigger] term@[j])@ == self.term@[j]@,
            decreases self.term@.len() - i,
        {
            term.push(self.term[i].clone());
            i = i + 1;
        }
        Instructor { name: self.name.clone(), term }
    }
}

impl Course {
    /// `other`, with the requirement trees and schedule of `self` kept
    /// wherever `other` has none.
    pub fn merge(self, other: Course) -> (r: Course)
        ensures
            r == (Course {
                logical_prerequisites: or_else(
                    other.logical_prerequisites,
                    self.logical_prerequisites,
                ),
                logical_corequisites: or_else(
                    other.logical_corequisites,
                    self.logical_corequisites,
                ),
                schedule: or_else(other.schedule, self.schedule),
                ..other
            }),
    {
        let logical_prerequisites = match other.logical_prerequisites {
            Some(n) => Some(n),
            None => self.logical_prerequisites,
        };
        let logical_corequisites = match other.logical_corequisites {
            Some(n) => Some(n),
            None => self.logical_corequisites,
        };
        let schedule = match other.schedule {
            Some(s) => Some(s),
            None => self.schedule,
        };
        Course { logical_prerequisites, logical_corequisites, schedule, ..other }
    }

    /// Whether `self` and `other` describe the same course, comparing every
    /// field but the rating aggregates.
    pub fn same_record(&self, other: &Course) -> (r: bool)
        ensures
            r == same_record(*self, *other),
    {
        self.id == other.id && opt_text_equal(&self.id_ngrams, &other.id_ngrams) && self.title
            == other.title && opt_text_equal(&self.title_ngrams, &other.title_ngrams)
            && self.credits == other.credits && self.subject == other.subject && self.code
            == other.code && self.level == other.level && self.url == other.url
            && self.department == other.department && self.faculty == other.faculty
            && self.faculty_url == other.faculty_url && texts_equal(&self.terms, &other.terms)
            && self.description == other.description && instructors_equal(
            &self.instructors,
            &other.instructors,
        ) && opt_text_equal(&self.prerequisites_text, &other.prerequisites_text)
            && opt_text_equal(&self.corequisites_text, &other.corequisites_text) && texts_equal(
            &self.prerequisites,
            &other.prerequisites,
        ) && texts_equal(&self.corequisites, &other.corequisites) && texts_equal(
            &self.leading_to,
            &other.leading_to,
        ) && opt_node_equal(&self.logical_prerequisites, &other.logical_prerequisites)
            && opt_node_equal(&self.logical_corequisites, &other.logical_corequisites)
            && opt_text_equal(&self.restrictions, &other.restrictions) && opt_schedules_equal(
            &self.schedule,
            &other.schedule,
        )
    }

    /// The course as first stored: with its search fields derived from its
    /// identifier and from its title without stopwords.
    pub fn indexed(self) -> (r: Course)
        ensures
            is_indexed(r, self),
    {
        let id_ngrams = ngrams(self.id.as_str());
        let filtered = filter_stopwords(self.title.as_str());
        let title_ngrams = ngrams(filtered.as_str());
        Course { id_ngrams: Some(id_ngrams), title_ngrams: Some(title_ngrams), ..self }
    }

    /// The stored record `self` brought up to date with a fresh sighting
    /// `incoming` of the same course: the listed fields take the incoming
    /// values, instructors, schedule entries and terms are the deduplicated
    /// union of both (incoming first; no schedule when neither has one), and
    /// every other field is kept.
    pub fn reconcile(self, incoming: Course) -> (r: Course)
        ensures
            is_reconciled(r, self, incoming),
    {
        let instructors = incoming.instructors.combine(self.instructors);
        let schedule = match (incoming.schedule, self.schedule) {
            (None, None) => None,
            (Some(v), None) => Some(v.combine(Vec::new())),
            (None, Some(w)) => Some(Vec::new().combine(w)),
            (Some(v), Some(w)) => Some(v.combine(w)),
        };
        let terms = incoming.terms.combine(self.terms);
        Course {
            corequisites: incoming.corequisites,
            credits: incoming.credits,
            description: incoming.description,
            faculty_url: incoming.faculty_url,
            instructors,
            level: incoming.level,
            prerequisites: incoming.prerequisites,
            restrictions: incoming.restrictions,
            schedule,
            terms,
            title: incoming.title,
            url: incoming.url,
            ..self
        }
    }
}

} // verus!
