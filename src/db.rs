use vstd::prelude::*;

use crate::course::{copy_of, is_indexed, is_reconciled, Course, Instructor};
use crate::review::Review;
use crate::text::{contains_word, has_word, kept, kept_words, starts_with_str, str_eq, views, words};

verus! {

/// A field of the course text index.
#[derive(Clone, Copy, Debug, PartialEq, Eq, Structural)]
pub enum SearchField {
    Subject,
    Code,
    Id,
    Title,
    IdNgrams,
    TitleNgrams,
}

pub open spec fn weight_of(f: SearchField) -> u32 {
    match f {
        SearchField::Subject => 10,
        SearchField::Code => 10,
        SearchField::Id => 10,
        SearchField::Title => 8,
        SearchField::IdNgrams => 4,
        SearchField::TitleNgrams => 2,
    }
}

/// The weight that a field of the course text index carries.
pub fn weight(f: SearchField) -> (r: u32)
    ensures
        r == weight_of(f),
{
    match f {
        SearchField::Subject => 10,
        SearchField::Code => 10,
        SearchField::Id => 10,
        SearchField::Title => 8,
        SearchField::IdNgrams => 4,
        SearchField::TitleNgrams => 2,
    }
}

/// The weight that field `f`, holding `text`, adds for query word `t`.
pub open spec fn field_score(text: Seq<char>, t: Seq<char>, f: SearchField) -> int {
    if has_word(text, t) {
        weight_of(f) as int
    } else {
        0
    }
}

pub open spec fn opt_field_score(text: Option<String>, t: Seq<char>, f: SearchField) -> int {
    match text {
        Some(s) => field_score(s@, t, f),
        None => 0,
    }
}

/// What query word `t` adds to the relevance of `c`.
pub open spec fn word_score(c: Course, t: Seq<char>) -> int {
    field_score(c.subject@, t, SearchField::Subject) + field_score(c.code@, t, SearchField::Code)
        + field_score(c.id@, t, SearchField::Id) + field_score(c.title@, t, SearchField::Title)
        + opt_field_score(c.id_ngrams, t, SearchField::IdNgrams) + opt_field_score(
        c.title_ngrams,
        t,
        SearchField::TitleNgrams,
    )
}

/// The relevance of `c` to the query words `ts`.
pub open spec fn score(c: Course, ts: Seq<Seq<char>>) -> int
    decreases ts.len(),
{
    if ts.len() == 0 {
        0
    } else {
        score(c, ts.drop_last()) + word_score(c, ts.last())
    }
}

/// The query words of `q`: its words without stopwords.
pub open spec fn query_words(q: Seq<char>) -> Seq<Seq<char>> {
    kept(words(q))
}

/// Why a review was refused.
#[derive(Clone, Copy, Debug, PartialEq, Eq, Structural)]
pub enum ReviewError {
    /// The user has already reviewed this course.
    Conflict,
}

pub open spec fn has_id(s: Seq<Course>, id: Seq<char>) -> bool {
    exists|i: int| 0 <= i < s.len() && (#[trigger] s[i]).id@ == id
}

/// Some course among the first `k` of `s` has identifier `id`.
pub open spec fn has_id_before(s: Seq<Course>, k: int, id: Seq<char>) -> bool {
    exists|j: int| 0 <= j < k && (#[trigger] s[j]).id@ == id
}

pub open spec fn unique_ids(s: Seq<Course>) -> bool {
    forall|i: int, j: int|
        0 <= i < s.len() && 0 <= j < s.len() && i != j ==> (#[trigger] s[i]).id@ != (
        #[trigger] s[j]).id@
}

pub open spec fn has_review(s: Seq<Review>, course: Seq<char>, user: Seq<char>) -> bool {
    exists|i: int|
        0 <= i < s.len() && (#[trigger] s[i]).course_id@ == course && s[i].user_id@ == user
}

pub open spec fn unique_reviews(s: Seq<Review>) -> bool {
    forall|i: int, j: int|
        0 <= i < s.len() && 0 <= j < s.len() && i != j ==> !((#[trigger] s[i]).course_id@
            == (#[trigger] s[j]).course_id@ && s[i].user_id@ == s[j].user_id@)
}

pub open spec fn has_name(s: Seq<Instructor>, name: Seq<char>) -> bool {
    exists|i: int| 0 <= i < s.len() && (#[trigger] s[i]).name@ == name
}

pub open spec fn unique_names(s: Seq<Instructor>) -> bool {
    forall|i: int, j: int|
        0 <= i < s.len() && 0 <= j < s.len() && i != j ==> (#[trigger] s[i]).name@ != (
        #[trigger] s[j]).name@
}

/// The courses of the batches, batch by batch and in order within a batch.
pub open spec fn flat(bs: Seq<Vec<Course>>) -> Seq<Course>
    decreases bs.len(),
{
    if bs.len() == 0 {
        Seq::empty()
    } else {
        flat(bs.drop_last()) + bs.last()@
    }
}

/// What seeding the courses `bs` into the stored courses `before` leaves as
/// `after`, as far as identifiers go: stored records keep their place, every
/// seeded identifier is stored, and a record added holds a seeded identifier
/// that was not stored before.
pub open spec fn seeded(before: Seq<Course>, bs: Seq<Course>, after: Seq<Course>) -> bool {
    &&& after.len() >= before.len()
    &&& forall|k: int| 0 <= k < before.len() ==> (#[trigger] after[k]).id@ == before[k].id@
    &&& forall|k: int|
        before.len() <= k < after.len() ==> has_id(bs, (#[trigger] after[k]).id@) && !has_id(
            before,
            after[k].id@,
        )
    &&& forall|j: int| 0 <= j < bs.len() ==> has_id(after, (#[trigger] bs[j]).id@)
}

/// `after` is `before` with the course `c` stored: reconciled into the record
/// with its identifier, or added with its search fields when there is none.
pub open spec fn upserted(before: Seq<Course>, c: Course, after: Seq<Course>) -> bool {
    if has_id(before, c.id@) {
        &&& after.len() == before.len()
        &&& exists|i: int|
            0 <= i < before.len() && before[i].id@ == c.id@ && after == before.update(i, after[i])
                && is_reconciled(after[i], before[i], c)
    } else {
        &&& after.len() == before.len() + 1
        &&& after.drop_last() == before
        &&& is_indexed(after.last(), c)
    }
}

/// `after` is what storing the courses `cs` one by one, in order, makes of
/// `before`.
pub open spec fn replayed(before: Seq<Course>, cs: Seq<Course>, after: Seq<Course>) -> bool {
    exists|states: Seq<Seq<Course>>|
        states.len() == cs.len() + 1 && states[0] == before && states[cs.len() as int] == after
            && forall|i: int|
            0 <= i < cs.len() ==> #[trigger] upserted(states[i], cs[i], states[i + 1])
}

/// The instructors of the courses `cs`, course by course.
pub open spec fn instructors_in(cs: Seq<Course>) -> Seq<Instructor>
    decreases cs.len(),
{
    if cs.len() == 0 {
        Seq::empty()
    } else {
        instructors_in(cs.drop_last()) + cs.last().instructors@
    }
}

/// `p` followed by each instructor of `q` whose name is not yet present,
/// the first of each name in order.
pub open spec fn add_new_names(p: Seq<Instructor>, q: Seq<Instructor>) -> Seq<Instructor>
    decreases q.len(),
{
    if q.len() == 0 {
        p
    } else {
        let f = add_new_names(p, q.drop_last());
        if has_name(f, q.last().name@) {
            f
        } else {
            f.push(q.last())
        }
    }
}

/// Each instructor of `a` holds the same name and terms as the one at its
/// place in `b`.
pub open spec fn copies(a: Seq<Instructor>, b: Seq<Instructor>) -> bool {
    a.len() == b.len() && forall|i: int| 0 <= i < a.len() ==> copy_of(#[trigger] a[i], b[i])
}

proof fn lemma_copies_push(a: Seq<Instructor>, b: Seq<Instructor>, x: Instructor, y: Instructor)
    requires
        copies(a, b),
        copy_of(x, y),
    ensures
        copies(a.push(x), b.push(y)),
{
    assert forall|i: int| 0 <= i < a.len() + 1 implies copy_of(#[trigger] a.push(x)[i], b.push(y)[i]) by {
        if i < a.len() {
            assert(a.push(x)[i] == a[i]);
            assert(b.push(y)[i] == b[i]);
        }
    }
}

proof fn lemma_copies_names(a: Seq<Instructor>, b: Seq<Instructor>, n: Seq<char>)
    requires
        copies(a, b),
    ensures
        has_name(a, n) == has_name(b, n),
{
    if has_name(a, n) {
        let w = choose|i: int| 0 <= i < a.len() && (#[trigger] a[i]).name@ == n;
        assert(copy_of(a[w], b[w]));
    }
    if has_name(b, n) {
        let w = choose|i: int| 0 <= i < b.len() && (#[trigger] b[i]).name@ == n;
        assert(copy_of(a[w], b[w]));
    }
}

/// `p` is a prefix of `f`.
pub open spec fn starts_with(f: Seq<char>, p: Seq<char>) -> bool {
    p.len() <= f.len() && f.subrange(0, p.len() as int) == p
}

/// `f` starts with one of `opts`.
pub open spec fn prefixed(f: Seq<char>, opts: Seq<String>) -> bool {
    exists|k: int| 0 <= k < opts.len() && starts_with(f, (#[trigger] opts[k])@)
}

/// A list field passes a prefix filter when one of its elements does.
pub open spec fn any_prefixed(fs: Seq<String>, opts: Seq<String>) -> bool {
    exists|k: int| 0 <= k < fs.len() && prefixed((#[trigger] fs[k])@, opts)
}

pub open spec fn opt_view(o: Option<Vec<String>>) -> Option<Seq<String>> {
    match o {
        Some(v) => Some(v@),
        None => None,
    }
}

/// The course passes the subject, level (code prefix) and term filters that
/// are given; an absent filter passes every course.
pub open spec fn passes(
    c: Course,
    subjects: Option<Seq<String>>,
    levels: Option<Seq<String>>,
    terms: Option<Seq<String>>,
) -> bool {
    &&& subjects matches Some(o) ==> prefixed(c.subject@, o)
    &&& levels matches Some(o) ==> prefixed(c.code@, o)
    &&& terms matches Some(o) ==> any_prefixed(c.terms@, o)
}

/// The courses of `s` that pass the filters, in order.
pub open spec fn select(
    s: Seq<Course>,
    subjects: Option<Seq<String>>,
    levels: Option<Seq<String>>,
    terms: Option<Seq<String>>,
) -> Seq<Course>
    decreases s.len(),
{
    if s.len() == 0 {
        Seq::empty()
    } else {
        let p = select(s.drop_last(), subjects, levels, terms);
        if passes(s.last(), subjects, levels, terms) {
            p.push(s.last())
        } else {
            p
        }
    }
}

/// How many results a limit allows: none or zero means no bound, and a
/// negative limit bounds by its magnitude.
pub open spec fn limit_bound(limit: Option<i64>, len: int) -> int {
    match limit {
        Some(n) => if n == 0 {
            len
        } else if n < 0 {
            -(n as int)
        } else {
            n as int
        },
        None => len,
    }
}

/// `s` after skipping `offset` elements and keeping at most `limit`.
pub open spec fn page<A>(s: Seq<A>, offset: Option<u64>, limit: Option<i64>) -> Seq<A> {
    let skip = match offset {
        Some(o) => if o as int > s.len() {
            s.len() as int
        } else {
            o as int
        },
        None => 0,
    };
    let rest = s.skip(skip);
    let keep = limit_bound(limit, rest.len() as int);
    if keep < rest.len() {
        rest.take(keep)
    } else {
        rest
    }
}

/// The values behind a sequence of references.
pub open spec fn derefs<A>(s: Seq<&A>) -> Seq<A> {
    s.map_values(|x: &A| *x)
}

/// `v` is keyed by `key`: on its course when `by_course`, else on its user.
pub open spec fn keyed_by(v: Review, key: Seq<char>, by_course: bool) -> bool {
    if by_course {
        v.course_id@ == key
    } else {
        v.user_id@ == key
    }
}

/// The reviews of `s` keyed by `key`, in order.
pub open spec fn reviews_with(s: Seq<Review>, key: Seq<char>, by_course: bool) -> Seq<Review>
    decreases s.len(),
{
    if s.len() == 0 {
        Seq::empty()
    } else {
        let p = reviews_with(s.drop_last(), key, by_course);
        if keyed_by(s.last(), key, by_course) {
            p.push(s.last())
        } else {
            p
        }
    }
}

/// The stored review `o` already holds the content, instructor, rating and
/// timestamp of `r`.
pub open spec fn holds_same(o: Review, r: Review) -> bool {
    &&& o.content@ == r.content@
    &&& o.instructor@ == r.instructor@
    &&& o.rating == r.rating
    &&& o.timestamp == r.timestamp
}

/// The catalogue: courses keyed by identifier, instructors keyed by name, and
/// reviews keyed by (course, user).
pub struct Db {
    name: String,
    courses: Vec<Course>,
    instructors: Vec<Instructor>,
    reviews: Vec<Review>,
    indexed: bool,
}

impl Db {
    pub closed spec fn name_view(&self) -> Seq<char> {
        self.name@
    }

    pub closed spec fn stored(&self) -> Seq<Course> {
        self.courses@
    }

    pub closed spec fn stored_instructors(&self) -> Seq<Instructor> {
        self.instructors@
    }

    pub closed spec fn stored_reviews(&self) -> Seq<Review> {
        self.reviews@
    }

    /// The text index over the weighted search fields is in place.
    pub closed spec fn has_index(&self) -> bool {
        self.indexed
    }

    pub open spec fn wf(&self) -> bool {
        &&& unique_ids(self.stored())
        &&& unique_names(self.stored_instructors())
        &&& unique_reviews(self.stored_reviews())
    }

    /// An empty catalogue called `name`.
    pub fn new(name: &str) -> (r: Db)
        ensures
            r.wf(),
            r.name_view() == name@,
            r.stored().len() == 0,
            r.stored_instructors().len() == 0,
            r.stored_reviews().len() == 0,
            !r.has_index(),
    {
        Db {
            name: String::from_str(name),
            courses: Vec::new(),
            instructors: Vec::new(),
            reviews: Vec::new(),
            indexed: false,
        }
    }

    pub fn name(&self) -> (r: String)
        ensures
            r@ == self.name_view(),
    {
        self.name.clone()
    }

    fn position(&self, id: &str) -> (r: Option<usize>)
        ensures
            r matches Some(i) ==> i < self.stored().len() && self.stored()[i as int].id@ == id@,
            r is None ==> !has_id(self.stored(), id@),
    {
        let mut i: usize = 0;
        while i < self.courses.len()
            invariant
                i <= self.courses@.len(),
                forall|j: int| 0 <= j < i ==> (#[trigger] self.courses@[j]).id@ != id@,
            decreases self.courses@.len() - i,
        {
            if str_eq(self.courses[i].id.as_str(), id) {
                return Some(i);
            }
            i = i + 1;
        }
        None
    }
}

impl Db {
    /// Stores `c`: as a new record with its search fields when no course has
    /// its identifier, else by reconciling the stored record with it.
    fn upsert_course(&mut self, c: Course)
        requires
            old(self).wf(),
        ensures
            final(self).wf(),
            final(self).name_view() == old(self).name_view(),
            final(self).stored_instructors() == old(self).stored_instructors(),
            final(self).stored_reviews() == old(self).stored_reviews(),
            final(self).has_index() == old(self).has_index(),
            upserted(old(self).stored(), c, final(self).stored()),
    {
        match self.position(c.id.as_str()) {
            Some(i) => {
                let ghost before = self.courses@;
                let stored = self.courses.remove(i);
                let r = stored.reconcile(c);
                self.courses.insert(i, r);
                assert(self.courses@ =~= before.update(i as int, r));
                assert forall|a: int, b: int|
                    0 <= a < self.courses@.len() && 0 <= b < self.courses@.len() && a
                        != b implies (#[trigger] self.courses@[a]).id@ != (
                    #[trigger] self.courses@[b]).id@ by {
                    assert(before[a].id@ != before[b].id@);
                }
            },
            None => {
                let ghost before = self.courses@;
                let r = c.indexed();
                self.courses.push(r);
                assert(self.courses@.drop_last() =~= before);
                assert forall|a: int, b: int|
                    0 <= a < self.courses@.len() && 0 <= b < self.courses@.len() && a
                        != b implies (#[trigger] self.courses@[a]).id@ != (
                    #[trigger] self.courses@[b]).id@ by {
                    if a < before.len() && b < before.len() {
                        assert(before[a].id@ != before[b].id@);
                    } else if a < before.len() {
                        assert(self.courses@[a] == before[a]);
                    } else {
                        assert(self.courses@[b] == before[b]);
                    }
                }
            },
        }
    }
}

fn flatten(batches: Vec<Vec<Course>>) -> (r: Vec<Course>)
    ensures
        r@ == flat(batches@),
{
    let ghost bs = batches@;
    let mut rest = batches;
    let mut out: Vec<Course> = Vec::new();
    let mut k: usize = 0;
    let n: usize = rest.len();
    assert(bs.take(0) =~= Seq::<Vec<Course>>::empty());
    while rest.len() > 0
        invariant
            n == bs.len(),
            k + rest@.len() == bs.len(),
            rest@ == bs.skip(k as int),
            out@ == flat(bs.take(k as int)),
        decreases rest@.len(),
    {
        let mut b = rest.remove(0);
        assert(bs.take(k + 1).drop_last() =~= bs.take(k as int));
        assert(rest@ =~= bs.skip(k + 1));
        out.append(&mut b);
        k = k + 1;
    }
    assert(bs.take(k as int) =~= bs);
    out
}

/// Copies of the instructors of every course in `cs`, in order.
fn instructors_of(cs: &Vec<Course>) -> (r: Vec<Instructor>)
    ensures
        forall|j: int, x: int|
            0 <= j < cs@.len() && 0 <= x < cs@[j].instructors@.len() ==> has_name(
                r@,
                (#[trigger] cs@[j].instructors@[x]).name@,
            ),
        copies(r@, instructors_in(cs@)),
{
    let mut out: Vec<Instructor> = Vec::new();
    let mut j: usize = 0;
    assert(cs@.take(0) =~= Seq::<Course>::empty());
    while j < cs.len()
        invariant
            j <= cs@.len(),
            copies(out@, instructors_in(cs@.take(j as int))),
            forall|a: int, x: int|
                0 <= a < j && 0 <= x < cs@[a].instructors@.len() ==> has_name(
                    out@,
                    (#[trigger] cs@[a].instructors@[x]).name@,
                ),
        decreases cs@.len() - j,
    {
        let c = &cs[j];
        let mut x: usize = 0;
        let ghost head = instructors_in(cs@.take(j as int));
        assert(c.instructors@.take(0) =~= Seq::<Instructor>::empty());
        assert(head + c.instructors@.take(0) =~= head);
        while x < c.instructors.len()
            invariant
                j < cs@.len(),
                *c == cs@[j as int],
                head == instructors_in(cs@.take(j as int)),
                copies(out@, head + c.instructors@.take(x as int)),
                x <= c.instructors@.len(),
                forall|a: int, y: int|
                    0 <= a < j && 0 <= y < cs@[a].instructors@.len() ==> has_name(
                        out@,
                        (#[trigger] cs@[a].instructors@[y]).name@,
                    ),
                forall|y: int|
                    0 <= y < x ==> has_name(out@, (#[trigger] c.instructors@[y]).name@),
            decreases c.instructors@.len() - x,
        {
            let ghost before = out@;
            let i = c.instructors[x].copy();
            proof {
                lemma_copies_push(before, head + c.instructors@.take(x as int), i, c.instructors@[x as int]);
                assert((head + c.instructors@.take(x as int)).push(c.instructors@[x as int]) =~= head
                    + c.instructors@.take(x + 1));
            }
            out.push(i);
            assert forall|n: Seq<char>| has_name(before, n) implies has_name(out@, n) by {
                let w = choose|i: int| 0 <= i < before.len() && (#[trigger] before[i]).name@ == n;
                assert(out@[w] == before[w]);
            }
            assert(out@[before.len() as int].name@ == c.instructors@[x as int].name@);
            x = x + 1;
        }
        assert(c.instructors@.take(x as int) =~= c.instructors@);
        assert(cs@.take(j + 1).drop_last() =~= cs@.take(j as int));
        assert(cs@.take(j + 1).last() == cs@[j as int]);
        j = j + 1;
    }
    assert(cs@.take(j as int) =~= cs@);
    out
}

impl Db {
    /// Stores `i` unless an instructor of that name is already stored, in
    /// which case the stored one is kept as it is.
    fn upsert_instructor(&mut self, i: Instructor)
        requires
            old(self).wf(),
        ensures
            final(self).wf(),
            final(self).name_view() == old(self).name_view(),
            final(self).stored() == old(self).stored(),
            final(self).stored_reviews() == old(self).stored_reviews(),
            final(self).has_index() == old(self).has_index(),
            has_name(final(self).stored_instructors(), i.name@),
            has_name(old(self).stored_instructors(), i.name@) ==> final(self).stored_instructors()
                == old(self).stored_instructors(),
            !has_name(old(self).stored_instructors(), i.name@) ==> final(self).stored_instructors()
                == old(self).stored_instructors().push(i),
    {
        let mut k: usize = 0;
        while k < self.instructors.len()
            invariant
                self.wf(),
                k <= self.instructors@.len(),
                forall|j: int| 0 <= j < k ==> (#[trigger] self.instructors@[j]).name@ != i.name@,
            decreases self.instructors@.len() - k,
        {
            if self.instructors[k].name == i.name {
                return;
            }
            k = k + 1;
        }
        let ghost before = self.instructors@;
        self.instructors.push(i);
        assert(self.instructors@[before.len() as int] == i);
        assert forall|a: int, b: int|
            0 <= a < self.instructors@.len() && 0 <= b < self.instructors@.len() && a
                != b implies (#[trigger] self.instructors@[a]).name@ != (
            #[trigger] self.instructors@[b]).name@ by {
            if a < before.len() && b < before.len() {
                assert(before[a].name@ != before[b].name@);
            } else if a < before.len() {
                assert(self.instructors@[a] == before[a]);
            } else {
                assert(self.instructors@[b] == before[b]);
            }
        }
    }

    /// Builds the weighted text index over the course search fields, unless
    /// it is already in place.
    pub fn ensure_index(&mut self)
        ensures
            final(self).has_index(),
            final(self).name_view() == old(self).name_view(),
            final(self).stored() == old(self).stored(),
            final(self).stored_instructors() == old(self).stored_instructors(),
            final(self).stored_reviews() == old(self).stored_reviews(),
    {
        if !self.indexed {
            self.indexed = true;
        }
    }

    /// Reconciles the batches into the catalogue, batch by batch and in order
    /// within each batch: a course whose identifier is new is stored with its
    /// search fields; a known one is reconciled with the stored record. Then
    /// every instructor of the batches is stored unless one of that name
    /// already is, and the text index is ensured.
    pub fn seed(&mut self, batches: Vec<Vec<Course>>)
        requires
            old(self).wf(),
        ensures
            final(self).wf(),
            final(self).has_index(),
            final(self).name_view() == old(self).name_view(),
            final(self).stored_reviews() == old(self).stored_reviews(),
            seeded(old(self).stored(), flat(batches@), final(self).stored()),
            replayed(old(self).stored(), flat(batches@), final(self).stored()),
            final(self).stored_instructors().len() >= old(self).stored_instructors().len(),
            forall|k: int|
                0 <= k < old(self).stored_instructors().len()
                    ==> #[trigger] final(self).stored_instructors()[k]
                    == old(self).stored_instructors()[k],
            copies(
                final(self).stored_instructors(),
                add_new_names(old(self).stored_instructors(), instructors_in(flat(batches@))),
            ),
            forall|j: int, x: int|
                0 <= j < flat(batches@).len() && 0 <= x < flat(batches@)[j].instructors@.len()
                    ==> has_name(
                    final(self).stored_instructors(),
                    (#[trigger] flat(batches@)[j].instructors@[x]).name@,
                ),
    {
        let ghost orig = self.courses@;
        let all = flatten(batches);
        let ghost src = all@;
        let pending = instructors_of(&all);
        let mut rest = all;
        let mut k: usize = 0;
        let n: usize = rest.len();
        let ghost mut states: Seq<Seq<Course>> = seq![orig];
        while rest.len() > 0
            invariant
                states.len() == k + 1,
                states[0] == orig,
                states[k as int] == self.stored(),
                forall|i: int|
                    0 <= i < k ==> #[trigger] upserted(states[i], src[i], states[i + 1]),
                self.wf(),
                self.name_view() == old(self).name_view(),
                self.stored_reviews() == old(self).stored_reviews(),
                self.stored_instructors() == old(self).stored_instructors(),
                n == src.len(),
                k + rest@.len() == src.len(),
                rest@ == src.skip(k as int),
                orig == old(self).stored(),
                self.stored().len() >= orig.len(),
                forall|m: int|
                    0 <= m < orig.len() ==> (#[trigger] self.stored()[m]).id@ == orig[m].id@,
                forall|m: int|
                    orig.len() <= m < self.stored().len() ==> has_id_before(
                        src,
                        k as int,
                        (#[trigger] self.stored()[m]).id@,
                    ) && !has_id(orig, self.stored()[m].id@),
                forall|j: int| 0 <= j < k ==> has_id(self.stored(), (#[trigger] src[j]).id@),
            decreases rest@.len(),
        {
            let c = rest.remove(0);
            assert(c == src[k as int]);
            assert(rest@ =~= src.skip(k + 1));
            let ghost before = self.stored();
            self.upsert_course(c);
            let ghost after = self.stored();
            proof {
                let old_states = states;
                states = states.push(after);
                assert forall|i: int| 0 <= i < k + 1 implies #[trigger] upserted(
                    states[i],
                    src[i],
                    states[i + 1],
                ) by {
                    if i < k {
                        assert(states[i] == old_states[i]);
                        assert(states[i + 1] == old_states[i + 1]);
                        assert(upserted(old_states[i], src[i], old_states[i + 1]));
                    } else {
                        assert(states[i] == before);
                    }
                }
            }
            assert forall|m: int| 0 <= m < orig.len() implies (#[trigger] after[m]).id@
                == orig[m].id@ by {
                assert(after[m].id@ == before[m].id@);
            }
            assert forall|m: int| orig.len() <= m < after.len() implies has_id_before(
                src,
                k + 1,
                (#[trigger] after[m]).id@,
            ) && !has_id(orig, after[m].id@) by {
                if m < before.len() {
                    assert(after[m].id@ == before[m].id@);
                    let w = choose|j: int| 0 <= j < k && (#[trigger] src[j]).id@ == before[m].id@;
                    assert(0 <= w < k + 1 && src[w].id@ == after[m].id@);
                } else {
                    assert(after[m].id@ == c.id@);
                    assert(src[k as int].id@ == after[m].id@);
                    if has_id(orig, c.id@) {
                        let w = choose|i: int| 0 <= i < orig.len() && (#[trigger] orig[i]).id@ == c.id@;
                        assert(before[w].id@ == c.id@);
                    }
                }
            }
            assert forall|j: int| 0 <= j < k + 1 implies has_id(after, (#[trigger] src[j]).id@) by {
                if j < k {
                    let w = choose|i: int| 0 <= i < before.len() && (#[trigger] before[i]).id@ == src[j].id@;
                    assert(after[w].id@ == before[w].id@);
                } else {
                    if has_id(before, c.id@) {
                        let w = choose|i: int| 0 <= i < before.len() && (#[trigger] before[i]).id@ == c.id@;
                        assert(after[w].id@ == before[w].id@);
                    } else {
                        assert(after[before.len() as int].id@ == c.id@);
                    }
                }
            }
            k = k + 1;
        }
        assert(replayed(orig, src, self.stored()));
        let ghost seeded = self.stored();
        assert(instructors_in(src).take(0) =~= Seq::<Instructor>::empty());
        assert(copies(self.stored_instructors(), self.stored_instructors()));
        let mut p: usize = 0;
        while p < pending.len()
            invariant
                self.wf(),
                self.name_view() == old(self).name_view(),
                self.stored_reviews() == old(self).stored_reviews(),
                self.stored() == seeded,
                copies(pending@, instructors_in(src)),
                copies(
                    self.stored_instructors(),
                    add_new_names(old(self).stored_instructors(), instructors_in(src).take(p as int)),
                ),
                self.stored_instructors().len() >= old(self).stored_instructors().len(),
                forall|q: int|
                    0 <= q < old(self).stored_instructors().len() ==> #[trigger] self.stored_instructors()[q]
                        == old(self).stored_instructors()[q],
                p <= pending@.len(),
                forall|q: int|
                    0 <= q < p ==> has_name(
                        self.stored_instructors(),
                        (#[trigger] pending@[q]).name@,
                    ),
            decreases pending@.len() - p,
        {
            let ghost before = self.stored_instructors();
            let ghost ins = instructors_in(src);
            let ghost expected = add_new_names(old(self).stored_instructors(), ins.take(p as int));
            let i = pending[p].copy();
            proof {
                assert(copy_of(pending@[p as int], ins[p as int]));
                lemma_copies_names(before, expected, i.name@);
                assert(ins.take(p + 1).drop_last() =~= ins.take(p as int));
                assert(ins.take(p + 1).last() == ins[p as int]);
            }
            self.upsert_instructor(i);
            proof {
                if !has_name(before, i.name@) {
                    lemma_copies_push(before, expected, i, ins[p as int]);
                }
            }
            assert forall|q: int| 0 <= q < old(self).stored_instructors().len() implies #[trigger] self.stored_instructors()[q]
                == old(self).stored_instructors()[q] by {
                assert(self.stored_instructors()[q] == before[q]);
            }
            assert forall|q: int| 0 <= q < p + 1 implies has_name(
                self.stored_instructors(),
                (#[trigger] pending@[q]).name@,
            ) by {
                if q < p && !has_name(before, i.name@) {
                    let w = choose|t: int|
                        0 <= t < before.len() && (#[trigger] before[t]).name@
                            == pending@[q].name@;
                    assert(self.stored_instructors()[w] == before[w]);
                }
            }
            p = p + 1;
        }
        assert(instructors_in(src).take(p as int) =~= instructors_in(src));
        assert forall|j: int, x: int|
            0 <= j < src.len() && 0 <= x < src[j].instructors@.len() implies has_name(
            self.stored_instructors(),
            (#[trigger] src[j].instructors@[x]).name@,
        ) by {
            let w = choose|t: int|
                0 <= t < pending@.len() && (#[trigger] pending@[t]).name@
                    == src[j].instructors@[x].name@;
            assert(has_name(self.stored_instructors(), pending@[w].name@));
        }
        assert forall|m: int|
            orig.len() <= m < self.stored().len() implies has_id(
            src,
            (#[trigger] self.stored()[m]).id@,
        ) by {
            assert(has_id_before(src, src.len() as int, self.stored()[m].id@));
        }
        self.ensure_index();
    }
}

fn prefixed_any(f: &str, opts: &Vec<String>) -> (r: bool)
    ensures
        r == prefixed(f@, opts@),
{
    let mut k: usize = 0;
    while k < opts.len()
        invariant
            k <= opts@.len(),
            forall|j: int| 0 <= j < k ==> !starts_with(f@, (#[trigger] opts@[j])@),
        decreases opts@.len() - k,
    {
        if starts_with_str(f, opts[k].as_str()) {
            return true;
        }
        k = k + 1;
    }
    false
}

fn any_prefixed_any(fs: &Vec<String>, opts: &Vec<String>) -> (r: bool)
    ensures
        r == any_prefixed(fs@, opts@),
{
    let mut k: usize = 0;
    while k < fs.len()
        invariant
            k <= fs@.len(),
            forall|j: int| 0 <= j < k ==> !prefixed((#[trigger] fs@[j])@, opts@),
        decreases fs@.len() - k,
    {
        if prefixed_any(fs[k].as_str(), opts) {
            return true;
        }
        k = k + 1;
    }
    false
}

fn passes_filters(
    c: &Course,
    subjects: &Option<Vec<String>>,
    levels: &Option<Vec<String>>,
    terms: &Option<Vec<String>>,
) -> (r: bool)
    ensures
        r == passes(*c, opt_view(*subjects), opt_view(*levels), opt_view(*terms)),
{
    let s = match subjects {
        Some(o) => prefixed_any(c.subject.as_str(), o),
        None => true,
    };
    let l = match levels {
        Some(o) => prefixed_any(c.code.as_str(), o),
        None => true,
    };
    let t = match terms {
        Some(o) => any_prefixed_any(&c.terms, o),
        None => true,
    };
    s && l && t
}

impl Db {
    /// The stored course with identifier `id`, if any.
    pub fn find_course_by_id(&self, id: &str) -> (r: Option<&Course>)
        ensures
            r matches Some(c) ==> c.id@ == id@ && self.stored().contains(*c),
            r is None <==> !has_id(self.stored(), id@),
    {
        match self.position(id) {
            Some(i) => Some(&self.courses[i]),
            None => None,
        }
    }

    /// The stored courses that pass the given prefix filters, in storage
    /// order, after skipping `offset` of them and keeping at most `limit`
    /// (no bound when absent or zero, the magnitude when negative).
    pub fn courses(
        &self,
        limit: Option<i64>,
        offset: Option<u64>,
        subjects: Option<Vec<String>>,
        levels: Option<Vec<String>>,
        terms: Option<Vec<String>>,
    ) -> (r: Vec<&Course>)
        ensures
            derefs(r@) == page(
                select(self.stored(), opt_view(subjects), opt_view(levels), opt_view(terms)),
                offset,
                limit,
            ),
    {
        let ghost sel = select(self.stored(), opt_view(subjects), opt_view(levels), opt_view(terms));
        let mut matching: Vec<&Course> = Vec::new();
        let mut i: usize = 0;
        assert(self.courses@.take(0) =~= Seq::<Course>::empty());
        while i < self.courses.len()
            invariant
                i <= self.courses@.len(),
                derefs(matching@) == select(
                    self.courses@.take(i as int),
                    opt_view(subjects),
                    opt_view(levels),
                    opt_view(terms),
                ),
            decreases self.courses@.len() - i,
        {
            assert(self.courses@.take(i + 1).drop_last() =~= self.courses@.take(i as int));
            let ghost before = matching@;
            if passes_filters(&self.courses[i], &subjects, &levels, &terms) {
                matching.push(&self.courses[i]);
                assert(derefs(matching@) =~= derefs(before).push(self.courses@[i as int]));
            }
            i = i + 1;
        }
        assert(self.courses@.take(i as int) =~= self.courses@);
        let len = matching.len();
        let skip: usize = match offset {
            Some(o) => if o as u128 > len as u128 {
                len
            } else {
                o as usize
            },
            None => 0,
        };
        let left: usize = len - skip;
        let keep: usize = match limit {
            Some(n) => {
                let m: i128 = if n < 0 {
                    0 - (n as i128)
                } else {
                    n as i128
                };
                if n == 0 || m >= left as i128 {
                    left
                } else {
                    m as usize
                }
            },
            None => left,
        };
        let mut out: Vec<&Course> = Vec::new();
        let mut j: usize = 0;
        while j < keep
            invariant
                keep <= left,
                left == len - skip,
                len == matching@.len(),
                skip <= len,
                j <= keep,
                derefs(out@) == derefs(matching@).subrange(skip as int, skip + j),
            decreases keep - j,
        {
            let ghost before = out@;
            out.push(matching[skip + j]);
            assert(derefs(out@) =~= derefs(before).push(*matching@[skip + j]));
            assert(derefs(matching@).subrange(skip as int, skip + j + 1) =~= derefs(
                matching@,
            ).subrange(skip as int, skip + j).push(derefs(matching@)[skip + j]));
            j = j + 1;
        }
        assert(derefs(out@) =~= page(sel, offset, limit));
        out
    }
}

impl Db {
    fn review_position(&self, course_id: &str, user_id: &str) -> (r: Option<usize>)
        ensures
            r matches Some(i) ==> i < self.stored_reviews().len()
                && self.stored_reviews()[i as int].course_id@ == course_id@
                && self.stored_reviews()[i as int].user_id@ == user_id@,
            r is None ==> !has_review(self.stored_reviews(), course_id@, user_id@),
    {
        let mut i: usize = 0;
        while i < self.reviews.len()
            invariant
                i <= self.reviews@.len(),
                forall|j: int|
                    0 <= j < i ==> !((#[trigger] self.reviews@[j]).course_id@ == course_id@
                        && self.reviews@[j].user_id@ == user_id@),
            decreases self.reviews@.len() - i,
        {
            if str_eq(self.reviews[i].course_id.as_str(), course_id) && str_eq(
                self.reviews[i].user_id.as_str(),
                user_id,
            ) {
                return Some(i);
            }
            i = i + 1;
        }
        None
    }

    /// Stores `review`, unless its user has already reviewed its course.
    pub fn add_review(&mut self, review: Review) -> (r: Result<(), ReviewError>)
        requires
            old(self).wf(),
        ensures
            final(self).wf(),
            final(self).name_view() == old(self).name_view(),
            final(self).stored() == old(self).stored(),
            final(self).stored_instructors() == old(self).stored_instructors(),
            final(self).has_index() == old(self).has_index(),
            r is Err <==> has_review(
                old(self).stored_reviews(),
                review.course_id@,
                review.user_id@,
            ),
            r is Err ==> r == Err::<(), ReviewError>(ReviewError::Conflict)
                && final(self).stored_reviews() == old(self).stored_reviews(),
            r is Ok ==> final(self).stored_reviews() == old(self).stored_reviews().push(review),
    {
        match self.review_position(review.course_id.as_str(), review.user_id.as_str()) {
            Some(_) => Err(ReviewError::Conflict),
            None => {
                let ghost before = self.reviews@;
                self.reviews.push(review);
                assert forall|a: int, b: int|
                    0 <= a < self.reviews@.len() && 0 <= b < self.reviews@.len() && a
                        != b implies !((#[trigger] self.reviews@[a]).course_id@ == (
                    #[trigger] self.reviews@[b]).course_id@ && self.reviews@[a].user_id@
                        == self.reviews@[b].user_id@) by {
                    if a < before.len() && b < before.len() {
                        assert(self.reviews@[a] == before[a]);
                        assert(self.reviews@[b] == before[b]);
                    } else if a < before.len() {
                        assert(self.reviews@[a] == before[a]);
                    } else {
                        assert(self.reviews@[b] == before[b]);
                    }
                }
                Ok(())
            },
        }
    }

    /// Overwrites the content, instructor, rating and timestamp of the review
    /// that `review`'s user wrote of its course; the number of reviews so
    /// modified: zero when there is none, or when it already holds them.
    pub fn update_review(&mut self, review: Review) -> (r: u64)
        requires
            old(self).wf(),
        ensures
            final(self).wf(),
            final(self).name_view() == old(self).name_view(),
            final(self).stored() == old(self).stored(),
            final(self).stored_instructors() == old(self).stored_instructors(),
            final(self).has_index() == old(self).has_index(),
            r == 0 <==> (!has_review(old(self).stored_reviews(), review.course_id@, review.user_id@)
                || exists|i: int|
                0 <= i < old(self).stored_reviews().len()
                    && old(self).stored_reviews()[i].course_id@ == review.course_id@
                    && old(self).stored_reviews()[i].user_id@ == review.user_id@
                    && holds_same(#[trigger] old(self).stored_reviews()[i], review)),
            r == 0 ==> final(self).stored_reviews() == old(self).stored_reviews(),
            r != 0 ==> r == 1 && exists|i: int|
                0 <= i < old(self).stored_reviews().len()
                    && old(self).stored_reviews()[i].course_id@ == review.course_id@
                    && old(self).stored_reviews()[i].user_id@ == review.user_id@
                    && !holds_same(old(self).stored_reviews()[i], review)
                    && final(self).stored_reviews() == old(self).stored_reviews().update(
                    i,
                    review,
                ),
    {
        match self.review_position(review.course_id.as_str(), review.user_id.as_str()) {
            Some(i) => {
                let o = &self.reviews[i];
                if o.content == review.content && o.instructor == review.instructor && o.rating
                    == review.rating && o.timestamp == review.timestamp {
                    return 0;
                }
                let ghost before = self.reviews@;
                proof {
                    assert forall|j: int|
                        0 <= j < before.len() && before[j].course_id@ == review.course_id@
                            && before[j].user_id@ == review.user_id@ implies !holds_same(
                        #[trigger] before[j],
                        review,
                    ) by {
                        if j != i {
                            assert(!(before[j].course_id@ == before[i as int].course_id@
                                && before[j].user_id@ == before[i as int].user_id@));
                        }
                    }
                }
                self.reviews.set(i, review);
                assert(self.reviews@ == before.update(i as int, review));
                assert forall|a: int, b: int|
                    0 <= a < self.reviews@.len() && 0 <= b < self.reviews@.len() && a
                        != b implies !((#[trigger] self.reviews@[a]).course_id@ == (
                    #[trigger] self.reviews@[b]).course_id@ && self.reviews@[a].user_id@
                        == self.reviews@[b].user_id@) by {
                    assert(!(before[a].course_id@ == before[b].course_id@ && before[a].user_id@
                        == before[b].user_id@));
                }
                1
            },
            None => 0,
        }
    }

    /// Removes the review that `user_id` wrote of `course_id`; the number of
    /// reviews removed, zero when there is none.
    pub fn delete_review(&mut self, course_id: &str, user_id: &str) -> (r: u64)
        requires
            old(self).wf(),
        ensures
            final(self).wf(),
            final(self).name_view() == old(self).name_view(),
            final(self).stored() == old(self).stored(),
            final(self).stored_instructors() == old(self).stored_instructors(),
            final(self).has_index() == old(self).has_index(),
            r == 0 <==> !has_review(old(self).stored_reviews(), course_id@, user_id@),
            r == 0 ==> final(self).stored_reviews() == old(self).stored_reviews(),
            r != 0 ==> r == 1 && exists|i: int|
                0 <= i < old(self).stored_reviews().len()
                    && old(self).stored_reviews()[i].course_id@ == course_id@
                    && old(self).stored_reviews()[i].user_id@ == user_id@
                    && final(self).stored_reviews() == old(self).stored_reviews().remove(i),
            !has_review(final(self).stored_reviews(), course_id@, user_id@),
    {
        match self.review_position(course_id, user_id) {
            Some(i) => {
                let ghost before = self.reviews@;
                self.reviews.remove(i);
                assert(self.reviews@ == before.remove(i as int));
                assert forall|a: int, b: int|
                    0 <= a < self.reviews@.len() && 0 <= b < self.reviews@.len() && a
                        != b implies !((#[trigger] self.reviews@[a]).course_id@ == (
                    #[trigger] self.reviews@[b]).course_id@ && self.reviews@[a].user_id@
                        == self.reviews@[b].user_id@) by {
                    let a0 = if a < i { a } else { a + 1 };
                    let b0 = if b < i { b } else { b + 1 };
                    assert(self.reviews@[a] == before[a0]);
                    assert(self.reviews@[b] == before[b0]);
                    assert(!(before[a0].course_id@ == before[b0].course_id@ && before[a0].user_id@
                        == before[b0].user_id@));
                }
                proof {
                    if has_review(self.reviews@, course_id@, user_id@) {
                        let w = choose|j: int|
                            0 <= j < self.reviews@.len() && (#[trigger] self.reviews@[j]).course_id@
                                == course_id@ && self.reviews@[j].user_id@ == user_id@;
                        let w0 = if w < i { w } else { w + 1 };
                        assert(self.reviews@[w] == before[w0]);
                        assert(before[i as int].course_id@ == course_id@);
                    }
                }
                1
            },
            None => 0,
        }
    }

    /// The review that `user_id` wrote of `course_id`, if any.
    pub fn find_review(&self, course_id: &str, user_id: &str) -> (r: Option<&Review>)
        ensures
            r matches Some(v) ==> v.course_id@ == course_id@ && v.user_id@ == user_id@
                && self.stored_reviews().contains(*v),
            r is None <==> !has_review(self.stored_reviews(), course_id@, user_id@),
    {
        match self.review_position(course_id, user_id) {
            Some(i) => Some(&self.reviews[i]),
            None => None,
        }
    }

    fn reviews_matching(&self, key: &str, by_course: bool) -> (r: Vec<&Review>)
        ensures
            derefs(r@) == reviews_with(self.stored_reviews(), key@, by_course),
    {
        let mut out: Vec<&Review> = Vec::new();
        let mut i: usize = 0;
        assert(self.reviews@.take(0) =~= Seq::<Review>::empty());
        while i < self.reviews.len()
            invariant
                i <= self.reviews@.len(),
                derefs(out@) == reviews_with(self.reviews@.take(i as int), key@, by_course),
            decreases self.reviews@.len() - i,
        {
            assert(self.reviews@.take(i + 1).drop_last() =~= self.reviews@.take(i as int));
            let v = &self.reviews[i];
            let hit = if by_course {
                str_eq(v.course_id.as_str(), key)
            } else {
                str_eq(v.user_id.as_str(), key)
            };
            let ghost before = out@;
            if hit {
                out.push(v);
                assert(derefs(out@) =~= derefs(before).push(self.reviews@[i as int]));
            }
            i = i + 1;
        }
        assert(self.reviews@.take(i as int) =~= self.reviews@);
        out
    }

    /// The stored reviews of `course_id`, in storage order.
    pub fn find_reviews_by_course_id(&self, course_id: &str) -> (r: Vec<&Review>)
        ensures
            derefs(r@) == reviews_with(self.stored_reviews(), course_id@, true),
    {
        self.reviews_matching(course_id, true)
    }

    /// The stored reviews written by `user_id`, in storage order.
    pub fn find_reviews_by_user_id(&self, user_id: &str) -> (r: Vec<&Review>)
        ensures
            derefs(r@) == reviews_with(self.stored_reviews(), user_id@, false),
    {
        self.reviews_matching(user_id, false)
    }

    /// Every stored review, in storage order.
    pub fn reviews(&self) -> (r: Vec<&Review>)
        ensures
            derefs(r@) == self.stored_reviews(),
    {
        let mut out: Vec<&Review> = Vec::new();
        let mut i: usize = 0;
        while i < self.reviews.len()
            invariant
                i <= self.reviews@.len(),
                derefs(out@) == self.reviews@.take(i as int),
            decreases self.reviews@.len() - i,
        {
            let ghost before = out@;
            out.push(&self.reviews[i]);
            assert(derefs(out@) =~= derefs(before).push(self.reviews@[i as int]));
            assert(self.reviews@.take(i + 1) =~= self.reviews@.take(i as int).push(self.reviews@[i as int]));
            i = i + 1;
        }
        assert(self.reviews@.take(i as int) =~= self.reviews@);
        out
    }
}

fn field_weight(text: &str, t: &str, f: SearchField) -> (r: u128)
    ensures
        r == field_score(text@, t@, f),
        r <= 10,
{
    if contains_word(text, t) {
        weight(f) as u128
    } else {
        0
    }
}

fn opt_field_weight(text: &Option<String>, t: &str, f: SearchField) -> (r: u128)
    ensures
        r == opt_field_score(*text, t@, f),
        r <= 10,
{
    match text {
        Some(s) => field_weight(s.as_str(), t, f),
        None => 0,
    }
}

fn course_score(c: &Course, toks: &Vec<String>) -> (r: u128)
    ensures
        r == score(*c, views(toks@)),
{
    let mut total: u128 = 0;
    let mut i: usize = 0;
    assert(views(toks@).take(0) =~= Seq::<Seq<char>>::empty());
    while i < toks.len()
        invariant
            i <= toks@.len(),
            total == score(*c, views(toks@).take(i as int)),
            total <= 60 * i,
        decreases toks@.len() - i,
    {
        let t = toks[i].as_str();
        let w = field_weight(c.subject.as_str(), t, SearchField::Subject) + field_weight(
            c.code.as_str(),
            t,
            SearchField::Code,
        ) + field_weight(c.id.as_str(), t, SearchField::Id) + field_weight(
            c.title.as_str(),
            t,
            SearchField::Title,
        ) + opt_field_weight(&c.id_ngrams, t, SearchField::IdNgrams) + opt_field_weight(
            &c.title_ngrams,
            t,
            SearchField::TitleNgrams,
        );
        assert(views(toks@).take(i + 1).drop_last() =~= views(toks@).take(i as int));
        assert(views(toks@).take(i + 1).last() == toks@[i as int]@);
        total = total + w;
        i = i + 1;
    }
    assert(views(toks@).take(i as int) =~= views(toks@));
    total
}

/// Stored course `a` ranks before stored course `b` for the query words
/// `ts`: a higher score, or an equal score and an earlier place.
pub open spec fn ranks_before(s: Seq<Course>, ts: Seq<Seq<char>>, a: int, b: int) -> bool {
    score(s[a], ts) > score(s[b], ts) || (score(s[a], ts) == score(s[b], ts) && a < b)
}

/// `r` lists stored courses of `s` in ranking order, and every course with
/// a positive score that it leaves out ranks after all of them, which only
/// happens once `r` is full.
pub open spec fn top_ranked(s: Seq<Course>, ts: Seq<Seq<char>>, r: Seq<Course>) -> bool {
    exists|pos: Seq<int>|
        pos.len() == r.len() && (forall|m: int|
            0 <= m < pos.len() ==> 0 <= #[trigger] pos[m] < s.len() && r[m] == s[pos[m]]) && (
        forall|a: int, b: int|
            0 <= a < b < pos.len() ==> ranks_before(s, ts, #[trigger] pos[a], #[trigger] pos[b]))
            && (forall|k: int|
            0 <= k < s.len() && score(#[trigger] s[k], ts) > 0 && !pos.contains(k) ==> pos.len()
                == SEARCH_LIMIT && forall|m: int|
                0 <= m < pos.len() ==> ranks_before(s, ts, #[trigger] pos[m], k))
}

spec fn precedes(sc: Seq<u128>, x: int, y: int) -> bool {
    sc[x] > sc[y] || (sc[x] == sc[y] && x < y)
}

/// The number of results that a search returns at most.
pub const SEARCH_LIMIT: usize = 10;

impl Db {
    /// The stored courses most relevant to `query`, best first: at most ten,
    /// each with a positive score, equal scores in storage order, and none
    /// left out that ranks before the last one returned (or at all, when
    /// fewer than ten are returned).
    pub fn search(&self, query: &str) -> (r: Vec<&Course>)
        requires
            self.wf(),
        ensures
            r@.len() <= SEARCH_LIMIT,
            forall|i: int|
                0 <= i < r@.len() ==> score(*r@[i], query_words(query@)) > 0
                    && self.stored().contains(*#[trigger] r@[i]),
            forall|i: int, j: int|
                0 <= i < j < r@.len() ==> score(*#[trigger] r@[i], query_words(query@)) >= score(
                    *#[trigger] r@[j],
                    query_words(query@),
                ),
            forall|i: int, j: int|
                0 <= i < j < r@.len() ==> (#[trigger] r@[i]).id@ != (#[trigger] r@[j]).id@,
            forall|k: int|
                0 <= k < self.stored().len() && score(#[trigger] self.stored()[k], query_words(query@))
                    > 0 && !derefs(r@).contains(self.stored()[k]) ==> r@.len() == SEARCH_LIMIT
                    && score(self.stored()[k], query_words(query@)) <= score(
                    *r@[r@.len() - 1],
                    query_words(query@),
                ),
            top_ranked(self.stored(), query_words(query@), derefs(r@)),
    {
        let toks = kept_words(query);
        let ghost ts = views(toks@);
        let ghost s = self.courses@;
        let n = self.courses.len();
        let mut scores: Vec<u128> = Vec::new();
        let mut taken: Vec<bool> = Vec::new();
        let mut k: usize = 0;
        while k < n
            invariant
                n == s.len(),
                s == self.courses@,
                k <= n,
                ts == views(toks@),
                scores@.len() == k,
                taken@.len() == k,
                forall|m: int| 0 <= m < k ==> scores@[m] == score(#[trigger] s[m], ts),
                forall|m: int| 0 <= m < k ==> !(#[trigger] taken@[m]),
            decreases n - k,
        {
            scores.push(course_score(&self.courses[k], &toks));
            taken.push(false);
            k = k + 1;
        }
        let mut idx: Vec<usize> = Vec::new();
        let mut done = false;
        while idx.len() < SEARCH_LIMIT && !done
            invariant
                n == s.len(),
                s == self.courses@,
                self.wf(),
                scores@.len() == n,
                taken@.len() == n,
                idx@.len() <= SEARCH_LIMIT,
                forall|m: int| 0 <= m < n ==> scores@[m] == score(#[trigger] s[m], ts),
                forall|m: int|
                    0 <= m < idx@.len() ==> (#[trigger] idx@[m]) < n && taken@[idx@[m] as int]
                        && scores@[idx@[m] as int] > 0,
                forall|a: int, b: int|
                    0 <= a < b < idx@.len() ==> #[trigger] idx@[a] != #[trigger] idx@[b]
                        && precedes(scores@, idx@[a] as int, idx@[b] as int),
                forall|m: int| 0 <= m < n && #[trigger] taken@[m] ==> idx@.contains(m as usize),
                forall|a: int, m: int|
                    0 <= a < idx@.len() && 0 <= m < n && !(#[trigger] taken@[m]) && scores@[m] > 0
                        ==> precedes(scores@, #[trigger] idx@[a] as int, m),
                done ==> forall|m: int| 0 <= m < n && #[trigger] scores@[m] > 0 ==> taken@[m],
            decreases SEARCH_LIMIT - idx@.len() + if done { 0int } else { 1int },
        {
            let mut best: Option<usize> = None;
            let mut m: usize = 0;
            while m < n
                invariant
                    n == s.len(),
                    scores@.len() == n,
                    taken@.len() == n,
                    m <= n,
                    best matches Some(b) ==> b < m && !taken@[b as int] && scores@[b as int] > 0,
                    forall|q: int|
                        0 <= q < m && !(#[trigger] taken@[q]) && scores@[q] > 0 ==> (best matches Some(
                            b,
                        ) && (q == b || precedes(scores@, b as int, q))),
                decreases n - m,
            {
                if !taken[m] && scores[m] > 0 {
                    match best {
                        Some(b) => {
                            if scores[m] > scores[b] {
                                best = Some(m);
                            }
                        },
                        None => {
                            best = Some(m);
                        },
                    }
                }
                m = m + 1;
            }
            match best {
                Some(b) => {
                    let ghost old_idx = idx@;
                    let ghost old_taken = taken@;
                    taken.set(b, true);
                    idx.push(b);
                    assert(idx@[old_idx.len() as int] == b);
                    assert forall|q: int| 0 <= q < n && #[trigger] taken@[q] implies idx@.contains(
                        q as usize,
                    ) by {
                        if q != b {
                            assert(old_taken[q]);
                            let w = choose|w: int| 0 <= w < old_idx.len() && old_idx[w] == q as usize;
                            assert(idx@[w] == old_idx[w]);
                        }
                    }
                    assert forall|a: int, q: int|
                        0 <= a < idx@.len() && 0 <= q < n && !(#[trigger] taken@[q]) && scores@[q]
                            > 0 implies precedes(scores@, #[trigger] idx@[a] as int, q) by {
                        assert(!old_taken[q]);
                        if a < old_idx.len() {
                            assert(idx@[a] == old_idx[a]);
                        }
                    }
                    assert forall|a: int, c: int| 0 <= a < c < idx@.len() implies #[trigger] idx@[a]
                        != #[trigger] idx@[c] && precedes(scores@, idx@[a] as int, idx@[c] as int) by {
                        if c == old_idx.len() {
                            assert(old_taken[old_idx[a] as int]);
                            assert(idx@[a] == old_idx[a]);
                        } else {
                            assert(idx@[a] == old_idx[a]);
                            assert(idx@[c] == old_idx[c]);
                        }
                    }
                },
                None => {
                    done = true;
                },
            }
        }
        let mut out: Vec<&Course> = Vec::new();
        let mut j: usize = 0;
        while j < idx.len()
            invariant
                n == s.len(),
                s == self.courses@,
                j <= idx@.len(),
                out@.len() == j,
                forall|m: int| 0 <= m < idx@.len() ==> (#[trigger] idx@[m]) < n,
                forall|m: int| 0 <= m < j ==> *(#[trigger] out@[m]) == s[idx@[m] as int],
            decreases idx@.len() - j,
        {
            out.push(&self.courses[idx[j]]);
            j = j + 1;
        }
        proof {
            assert(views(toks@) == query_words(query@));
            assert forall|i: int, c: int|
                0 <= i < c < out@.len() implies (#[trigger] out@[i]).id@ != (#[trigger] out@[c]).id@ by {
                assert(idx@[i] != idx@[c]);
            }
            assert forall|i: int| 0 <= i < out@.len() implies score(*out@[i], query_words(query@)) > 0
                && self.stored().contains(*#[trigger] out@[i]) by {
                assert(s[idx@[i] as int] == *out@[i]);
            }
            assert forall|q: int|
                0 <= q < s.len() && score(#[trigger] s[q], query_words(query@)) > 0 && !derefs(
                    out@,
                ).contains(s[q]) implies out@.len() == SEARCH_LIMIT && score(s[q], query_words(query@))
                <= score(*out@[out@.len() - 1], query_words(query@)) by {
                if taken@[q] {
                    let w = choose|w: int| 0 <= w < idx@.len() && idx@[w] == q as usize;
                    assert(derefs(out@)[w] == s[q]);
                }
                if out@.len() > 0 {
                    assert(precedes(scores@, idx@[out@.len() - 1] as int, q));
                }
            }
            let pos = idx@.map_values(|x: usize| x as int);
            let ts2 = query_words(query@);
            assert forall|m: int| 0 <= m < pos.len() implies 0 <= #[trigger] pos[m] < s.len()
                && derefs(out@)[m] == s[pos[m]] by {
                assert(pos[m] == idx@[m] as int);
            }
            assert forall|a: int, b: int| 0 <= a < b < pos.len() implies ranks_before(
                s,
                ts2,
                #[trigger] pos[a],
                #[trigger] pos[b],
            ) by {
                assert(pos[a] == idx@[a] as int);
                assert(pos[b] == idx@[b] as int);
                assert(precedes(scores@, idx@[a] as int, idx@[b] as int));
            }
            assert forall|q: int|
                0 <= q < s.len() && score(#[trigger] s[q], ts2) > 0 && !pos.contains(q) implies pos.len()
                == SEARCH_LIMIT && forall|m: int|
                0 <= m < pos.len() ==> ranks_before(s, ts2, #[trigger] pos[m], q) by {
                if taken@[q] {
                    let w = choose|w: int| 0 <= w < idx@.len() && idx@[w] == q as usize;
                    assert(pos[w] == q);
                }
                assert forall|m: int| 0 <= m < pos.len() implies ranks_before(
                    s,
                    ts2,
                    #[trigger] pos[m],
                    q,
                ) by {
                    assert(pos[m] == idx@[m] as int);
                    assert(precedes(scores@, idx@[m] as int, q));
                }
            }
            assert(top_ranked(s, ts2, derefs(out@)));
        }
        out
    }
}

} // verus!
