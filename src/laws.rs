use vstd::prelude::*;

use crate::course::{entries, is_indexed, is_reconciled, Course, Instructor, Schedule};
use crate::db::{
    has_id, has_review, page, passes, ranks_before, replayed, score, seeded, select, top_ranked,
    unique_ids, upserted, SEARCH_LIMIT,
};
use crate::review::Review;
use crate::vec_ext::{dedup, seen, Distinct};

verus! {

/// Deduplication keeps every entity of its input: whatever is the same as
/// an element of `s` is the same as an element of `dedup(s)`.
pub proof fn lemma_dedup_keeps<T: Distinct>(s: Seq<T>, y: T)
    requires
        seen(s, y),
        forall|a: T, b: T, c: T| #[trigger] a.same_as(&b) && #[trigger] b.same_as(&c) ==> a.same_as(&c),
    ensures
        seen(dedup(s), y),
    decreases s.len(),
{
    let w = choose|i: int| 0 <= i < s.len() && #[trigger] s[i].same_as(&y);
    let p = dedup(s.drop_last());
    if w < s.len() - 1 {
        assert(s.drop_last()[w] == s[w]);
        lemma_dedup_keeps(s.drop_last(), y);
        let v = choose|i: int| 0 <= i < p.len() && #[trigger] p[i].same_as(&y);
        if !seen(p, s.last()) {
            assert(dedup(s)[v] == p[v]);
        }
    } else {
        if seen(p, s.last()) {
            let v = choose|i: int| 0 <= i < p.len() && #[trigger] p[i].same_as(&s.last());
            assert(p[v].same_as(&y));
        } else {
            assert(dedup(s)[p.len() as int] == s.last());
        }
    }
}

proof fn lemma_kept_in_union<T: Distinct>(a: Seq<T>, b: Seq<T>, i: int, left: bool)
    requires
        left ==> 0 <= i < a.len(),
        !left ==> 0 <= i < b.len(),
        forall|x: T| #[trigger] x.same_as(&x),
        forall|x: T, y: T, z: T| #[trigger] x.same_as(&y) && #[trigger] y.same_as(&z) ==> x.same_as(&z),
    ensures
        seen(dedup(a + b), if left { a[i] } else { b[i] }),
{
    let y = if left { a[i] } else { b[i] };
    let j = if left { i } else { a.len() + i };
    assert((a + b)[j] == y);
    assert((a + b)[j].same_as(&y));
    lemma_dedup_keeps(a + b, y);
}

/// Reconciling a stored record with a fresh sighting loses nothing: every
/// instructor (by name), schedule entry and term of either is in the result.
pub proof fn lemma_reconcile_keeps_history(r: Course, s: Course, c: Course)
    requires
        is_reconciled(r, s, c),
    ensures
        forall|i: int| 0 <= i < s.instructors@.len() ==> seen(r.instructors@, #[trigger] s.instructors@[i]),
        forall|i: int| 0 <= i < c.instructors@.len() ==> seen(r.instructors@, #[trigger] c.instructors@[i]),
        forall|i: int| 0 <= i < s.terms@.len() ==> seen(r.terms@, #[trigger] s.terms@[i]),
        forall|i: int| 0 <= i < c.terms@.len() ==> seen(r.terms@, #[trigger] c.terms@[i]),
        forall|i: int|
            0 <= i < entries(s.schedule).len() ==> seen(
                entries(r.schedule),
                #[trigger] entries(s.schedule)[i],
            ),
        forall|i: int|
            0 <= i < entries(c.schedule).len() ==> seen(
                entries(r.schedule),
                #[trigger] entries(c.schedule)[i],
            ),
{
    assert forall|i: int| 0 <= i < s.instructors@.len() implies seen(
        r.instructors@,
        #[trigger] s.instructors@[i],
    ) by {
        lemma_kept_in_union::<Instructor>(c.instructors@, s.instructors@, i, false);
    }
    assert forall|i: int| 0 <= i < c.instructors@.len() implies seen(
        r.instructors@,
        #[trigger] c.instructors@[i],
    ) by {
        lemma_kept_in_union::<Instructor>(c.instructors@, s.instructors@, i, true);
    }
    assert forall|i: int| 0 <= i < s.terms@.len() implies seen(r.terms@, #[trigger] s.terms@[i]) by {
        lemma_kept_in_union::<String>(c.terms@, s.terms@, i, false);
    }
    assert forall|i: int| 0 <= i < c.terms@.len() implies seen(r.terms@, #[trigger] c.terms@[i]) by {
        lemma_kept_in_union::<String>(c.terms@, s.terms@, i, true);
    }
    assert forall|i: int| 0 <= i < entries(s.schedule).len() implies seen(
        entries(r.schedule),
        #[trigger] entries(s.schedule)[i],
    ) by {
        lemma_kept_in_union::<Schedule>(entries(c.schedule), entries(s.schedule), i, false);
    }
    assert forall|i: int| 0 <= i < entries(c.schedule).len() implies seen(
        entries(r.schedule),
        #[trigger] entries(c.schedule)[i],
    ) by {
        lemma_kept_in_union::<Schedule>(entries(c.schedule), entries(s.schedule), i, true);
    }
}

proof fn lemma_dedup_absorbs<T: Distinct>(x: Seq<T>, j: int)
    requires
        0 <= j <= x.len(),
        dedup(x) == x,
        forall|a: T| #[trigger] a.same_as(&a),
    ensures
        dedup(x + x.take(j)) == x,
    decreases j,
{
    if j == 0 {
        assert(x + x.take(0) =~= x);
    } else {
        lemma_dedup_absorbs(x, j - 1);
        let y = x + x.take(j);
        assert(y.drop_last() =~= x + x.take(j - 1));
        assert(y.last() == x[j - 1]);
        assert(x[j - 1].same_as(&x[j - 1]));
    }
}

proof fn lemma_dedup_twice<T: Distinct>(x: Seq<T>)
    requires
        dedup(x) == x,
        forall|a: T| #[trigger] a.same_as(&a),
    ensures
        dedup(x + x) == x,
{
    lemma_dedup_absorbs(x, x.len() as int);
    assert(x.take(x.len() as int) =~= x);
}

/// `p` extended by the entities of `q` that it does not hold yet, in order.
pub open spec fn absorb<T: Distinct>(p: Seq<T>, q: Seq<T>) -> Seq<T>
    decreases q.len(),
{
    if q.len() == 0 {
        p
    } else {
        let f = absorb(p, q.drop_last());
        if seen(f, q.last()) {
            f
        } else {
            f.push(q.last())
        }
    }
}

/// No element of `e` is the same as one before it, in `p` or in `e`.
pub open spec fn fresh<T: Distinct>(p: Seq<T>, e: Seq<T>) -> bool {
    forall|i: int| 0 <= i < e.len() ==> !seen(p + e.take(i), #[trigger] e[i])
}

proof fn lemma_dedup_concat<T: Distinct>(p: Seq<T>, q: Seq<T>)
    ensures
        dedup(p + q) == absorb(dedup(p), q),
    decreases q.len(),
{
    if q.len() == 0 {
        assert(p + q =~= p);
    } else {
        lemma_dedup_concat(p, q.drop_last());
        assert((p + q).drop_last() =~= p + q.drop_last());
        assert((p + q).last() == q.last());
    }
}

proof fn lemma_absorb_seen<T: Distinct>(p: Seq<T>, q: Seq<T>)
    requires
        forall|i: int| 0 <= i < q.len() ==> seen(p, #[trigger] q[i]),
    ensures
        absorb(p, q) == p,
    decreases q.len(),
{
    if q.len() > 0 {
        assert forall|i: int| 0 <= i < q.drop_last().len() implies seen(p, #[trigger] q.drop_last()[i]) by {
            assert(q.drop_last()[i] == q[i]);
        }
        lemma_absorb_seen(p, q.drop_last());
        assert(seen(p, q[q.len() - 1]));
    }
}

proof fn lemma_absorb_fresh<T: Distinct>(p: Seq<T>, e: Seq<T>)
    requires
        fresh(p, e),
    ensures
        absorb(p, e) == p + e,
    decreases e.len(),
{
    if e.len() > 0 {
        let d = e.drop_last();
        assert forall|i: int| 0 <= i < d.len() implies !seen(p + d.take(i), #[trigger] d[i]) by {
            assert(d.take(i) =~= e.take(i));
            assert(d[i] == e[i]);
        }
        lemma_absorb_fresh(p, d);
        assert(e.take(e.len() - 1) =~= d);
        assert(!seen(p + d, e[e.len() - 1]));
        assert((p + d).push(e.last()) =~= p + e);
    }
}

proof fn lemma_absorb_shape<T: Distinct>(p: Seq<T>, q: Seq<T>)
    ensures
        absorb(p, q).len() >= p.len(),
        absorb(p, q) == p + absorb(p, q).skip(p.len() as int),
        fresh(p, absorb(p, q).skip(p.len() as int)),
    decreases q.len(),
{
    if q.len() == 0 {
        assert(p.skip(p.len() as int) =~= Seq::<T>::empty());
        assert(p + Seq::<T>::empty() =~= p);
    } else {
        lemma_absorb_shape(p, q.drop_last());
        let f = absorb(p, q.drop_last());
        let e = f.skip(p.len() as int);
        if !seen(f, q.last()) {
            let g = f.push(q.last());
            let e2 = g.skip(p.len() as int);
            assert(e2 =~= e.push(q.last()));
            assert(g =~= p + e2);
            assert forall|i: int| 0 <= i < e2.len() implies !seen(p + e2.take(i), #[trigger] e2[i]) by {
                if i < e.len() {
                    assert(e2.take(i) =~= e.take(i));
                    assert(e2[i] == e[i]);
                } else {
                    assert(e2.take(i) =~= e);
                    assert(p + e =~= f);
                }
            }
        }
    }
}

proof fn lemma_absorb_concat<T: Distinct>(p: Seq<T>, x: Seq<T>, y: Seq<T>)
    ensures
        absorb(p, x + y) == absorb(absorb(p, x), y),
    decreases y.len(),
{
    if y.len() == 0 {
        assert(x + y =~= x);
    } else {
        lemma_absorb_concat(p, x, y.drop_last());
        assert((x + y).drop_last() =~= x + y.drop_last());
        assert((x + y).last() == y.last());
    }
}

/// Deduplicating the union of `a` with what deduplicating `a + b` gave
/// changes nothing.
pub proof fn lemma_dedup_idempotent<T: Distinct>(a: Seq<T>, b: Seq<T>)
    requires
        forall|x: T| #[trigger] x.same_as(&x),
    ensures
        dedup(a + dedup(a + b)) == dedup(a + b),
{
    let p = dedup(a);
    let r = dedup(a + b);
    lemma_dedup_concat(a, b);
    lemma_absorb_shape(p, b);
    let e = r.skip(p.len() as int);
    lemma_dedup_concat(a, r);
    assert(r == p + e);
    lemma_absorb_concat(p, p, e);
    assert forall|i: int| 0 <= i < p.len() implies seen(p, #[trigger] p[i]) by {
        assert(p[i].same_as(&p[i]));
    }
    lemma_absorb_seen(p, p);
    lemma_absorb_fresh(p, e);
}

/// Seeding a course again over the record that an earlier sighting of it
/// produced changes no field: every list holds the same elements in the same
/// order, and every other field is equal.
pub proof fn lemma_reseed_reconciled_unchanged(s: Course, c: Course, r1: Course, r2: Course)
    requires
        is_reconciled(r1, s, c),
        is_reconciled(r2, r1, c),
    ensures
        r2.instructors@ == r1.instructors@,
        r2.terms@ == r1.terms@,
        entries(r2.schedule) == entries(r1.schedule),
        r2.schedule is None <==> r1.schedule is None,
        r2 == (Course { instructors: r2.instructors, terms: r2.terms, schedule: r2.schedule, ..r1 }),
{
    lemma_dedup_idempotent::<Instructor>(c.instructors@, s.instructors@);
    lemma_dedup_idempotent::<String>(c.terms@, s.terms@);
    lemma_dedup_idempotent::<Schedule>(entries(c.schedule), entries(s.schedule));
}

/// Seeding a course again over the record first stored from it changes no
/// field: every list holds the same elements in the same order, and every
/// other field is equal. This holds when none of the course's instructor,
/// term or schedule lists repeats an entity.
pub proof fn lemma_reseed_record_unchanged(c: Course, s: Course, r: Course)
    requires
        is_indexed(s, c),
        is_reconciled(r, s, c),
        dedup(c.instructors@) == c.instructors@,
        dedup(c.terms@) == c.terms@,
        dedup(entries(c.schedule)) == entries(c.schedule),
    ensures
        r.instructors@ == s.instructors@,
        r.terms@ == s.terms@,
        entries(r.schedule) == entries(s.schedule),
        r.schedule is None <==> s.schedule is None,
        r == (Course { instructors: r.instructors, terms: r.terms, schedule: r.schedule, ..s }),
{
    lemma_dedup_twice::<Instructor>(c.instructors@);
    lemma_dedup_twice::<String>(c.terms@);
    lemma_dedup_twice::<Schedule>(entries(c.schedule));
}

proof fn lemma_replay_steps(
    before: Seq<Course>,
    cs: Seq<Course>,
    states: Seq<Seq<Course>>,
    k: int,
    j: int,
    t: int,
)
    requires
        states.len() == cs.len() + 1,
        states[0] == before,
        forall|i: int| 0 <= i < cs.len() ==> #[trigger] upserted(states[i], cs[i], states[i + 1]),
        unique_ids(before),
        0 <= k < before.len(),
        0 <= j < cs.len(),
        cs[j].id@ == before[k].id@,
        forall|i: int| 0 <= i < cs.len() && i != j ==> (#[trigger] cs[i]).id@ != before[k].id@,
        0 <= t <= cs.len(),
    ensures
        states[t].len() >= before.len(),
        unique_ids(states[t]),
        states[t][k].id@ == before[k].id@,
        t <= j ==> states[t][k] == before[k],
        t > j ==> is_reconciled(states[t][k], before[k], cs[j]),
    decreases t,
{
    if t > 0 {
        let u = t - 1;
        lemma_replay_steps(before, cs, states, k, j, u);
        let s = states[u];
        let a = states[t];
        let c = cs[u];
        assert(upserted(states[u], cs[u], states[u + 1]));
        assert(u + 1 == t);
        if has_id(s, c.id@) {
            let i = choose|i: int|
                0 <= i < s.len() && s[i].id@ == c.id@ && a == s.update(i, a[i]) && is_reconciled(
                    a[i],
                    s[i],
                    c,
                );
            assert(a[i].id@ == s[i].id@);
            assert forall|x: int, y: int|
                0 <= x < a.len() && 0 <= y < a.len() && x != y implies (#[trigger] a[x]).id@ != (
                #[trigger] a[y]).id@ by {
                assert(s[x].id@ != s[y].id@);
            }
            if u == j {
                if i != k {
                    assert(s[i].id@ != s[k].id@);
                }
            } else {
                assert(i != k);
            }
        } else {
            if u == j {
                assert(s[k].id@ == c.id@);
            }
            assert(a[k] == a.drop_last()[k]);
            assert forall|x: int, y: int|
                0 <= x < a.len() && 0 <= y < a.len() && x != y implies (#[trigger] a[x]).id@ != (
                #[trigger] a[y]).id@ by {
                if x < s.len() && y < s.len() {
                    assert(a[x] == s[x]);
                    assert(a[y] == s[y]);
                } else if x < s.len() {
                    assert(a[x] == s[x]);
                } else {
                    assert(a[y] == s[y]);
                }
            }
        }
    }
}

/// Over a whole seed run, a stored course that the batches name exactly
/// once ends up as that sighting reconciled with the stored record: its
/// instructors, schedule entries and terms are the deduplicated union of
/// both, so nothing the stored record held is lost.
pub proof fn lemma_seed_keeps_history(
    before: Seq<Course>,
    cs: Seq<Course>,
    after: Seq<Course>,
    k: int,
    j: int,
)
    requires
        replayed(before, cs, after),
        unique_ids(before),
        0 <= k < before.len(),
        0 <= j < cs.len(),
        cs[j].id@ == before[k].id@,
        forall|i: int| 0 <= i < cs.len() && i != j ==> (#[trigger] cs[i]).id@ != before[k].id@,
    ensures
        is_reconciled(after[k], before[k], cs[j]),
        forall|i: int|
            0 <= i < before[k].instructors@.len() ==> seen(
                after[k].instructors@,
                #[trigger] before[k].instructors@[i],
            ),
        forall|i: int|
            0 <= i < before[k].terms@.len() ==> seen(after[k].terms@, #[trigger] before[k].terms@[i]),
        forall|i: int|
            0 <= i < entries(before[k].schedule).len() ==> seen(
                entries(after[k].schedule),
                #[trigger] entries(before[k].schedule)[i],
            ),
{
    let states = choose|states: Seq<Seq<Course>>|
        states.len() == cs.len() + 1 && states[0] == before && states[cs.len() as int] == after
            && forall|i: int| 0 <= i < cs.len() ==> #[trigger] upserted(states[i], cs[i], states[i + 1]);
    lemma_replay_steps(before, cs, states, k, j, cs.len() as int);
    lemma_reconcile_keeps_history(after[k], before[k], cs[j]);
}

/// Seeding a batch of courses that all share one identifier into an empty
/// catalogue stores exactly one record.
pub proof fn lemma_copies_stored_once(bs: Seq<Course>, after: Seq<Course>)
    requires
        bs.len() >= 1,
        forall|j: int| 0 <= j < bs.len() ==> (#[trigger] bs[j]).id@ == bs[0].id@,
        seeded(Seq::empty(), bs, after),
        unique_ids(after),
    ensures
        after.len() == 1,
{
    assert(has_id(after, bs[0].id@));
    if after.len() > 1 {
        let a = choose|j: int| 0 <= j < bs.len() && (#[trigger] bs[j]).id@ == after[0].id@;
        let b = choose|j: int| 0 <= j < bs.len() && (#[trigger] bs[j]).id@ == after[1].id@;
        assert(after[0].id@ == after[1].id@);
    }
}

/// Seeding the same batch a second time adds no record: the catalogue keeps
/// its size and every record its identifier.
pub proof fn lemma_reseed_keeps_records(
    s0: Seq<Course>,
    bs: Seq<Course>,
    s1: Seq<Course>,
    s2: Seq<Course>,
)
    requires
        seeded(s0, bs, s1),
        seeded(s1, bs, s2),
    ensures
        s2.len() == s1.len(),
        forall|k: int| 0 <= k < s1.len() ==> (#[trigger] s2[k]).id@ == s1[k].id@,
{
    if s2.len() > s1.len() {
        let k = s1.len() as int;
        assert(has_id(bs, s2[k].id@));
        let j = choose|j: int| 0 <= j < bs.len() && (#[trigger] bs[j]).id@ == s2[k].id@;
        assert(has_id(s1, bs[j].id@));
    }
}

/// Once a review of a (course, user) pair is stored, another review of the
/// same pair is a conflict.
pub proof fn lemma_review_pair_taken(s: Seq<Review>, r: Review, again: Review)
    requires
        again.course_id@ == r.course_id@,
        again.user_id@ == r.user_id@,
    ensures
        has_review(s.push(r), again.course_id@, again.user_id@),
{
    assert(s.push(r)[s.len() as int] == r);
}

/// A filtered listing holds only courses that pass the filters, each one
/// stored, and is shorter than the full listing when some stored course
/// fails them.
pub proof fn lemma_filter_selects(
    s: Seq<Course>,
    subjects: Option<Seq<String>>,
    levels: Option<Seq<String>>,
    terms: Option<Seq<String>>,
)
    ensures
        select(s, subjects, levels, terms).len() <= s.len(),
        forall|i: int|
            0 <= i < select(s, subjects, levels, terms).len() ==> passes(
                #[trigger] select(s, subjects, levels, terms)[i],
                subjects,
                levels,
                terms,
            ) && s.contains(select(s, subjects, levels, terms)[i]),
        (exists|i: int| 0 <= i < s.len() && !passes(#[trigger] s[i], subjects, levels, terms))
            ==> select(s, subjects, levels, terms).len() < s.len(),
    decreases s.len(),
{
    if s.len() > 0 {
        let t = s.drop_last();
        lemma_filter_selects(t, subjects, levels, terms);
        let p = select(t, subjects, levels, terms);
        let q = select(s, subjects, levels, terms);
        assert forall|i: int| 0 <= i < q.len() implies passes(
            #[trigger] q[i],
            subjects,
            levels,
            terms,
        ) && s.contains(q[i]) by {
            if i < p.len() {
                assert(q[i] == p[i]);
                let w = choose|w: int| 0 <= w < t.len() && t[w] == p[i];
                assert(s[w] == t[w]);
            } else {
                assert(q[i] == s.last());
                assert(s[s.len() - 1] == s.last());
            }
        }
        if exists|i: int| 0 <= i < s.len() && !passes(#[trigger] s[i], subjects, levels, terms) {
            let i = choose|i: int| 0 <= i < s.len() && !passes(#[trigger] s[i], subjects, levels, terms);
            if i < s.len() - 1 {
                assert(t[i] == s[i]);
            }
        }
    }
}

/// A limit of ten yields ten results when at least ten are available, and an
/// offset of twenty yields all but twenty.
pub proof fn lemma_page_sizes<A>(s: Seq<A>)
    ensures
        s.len() >= 10 ==> page(s, None, Some(10)).len() == 10,
        s.len() >= 20 ==> page(s, Some(20), None).len() == s.len() - 20,
{
}

/// A search result in which the stored course `e` scores above every other
/// stored course starts with `e`; when no other course scores at all, `e` is
/// the whole result.
pub proof fn lemma_best_match_first(s: Seq<Course>, ts: Seq<Seq<char>>, r: Seq<Course>, e: int)
    requires
        top_ranked(s, ts, r),
        forall|i: int| 0 <= i < r.len() ==> score(#[trigger] r[i], ts) > 0,
        0 <= e < s.len(),
        score(s[e], ts) > 0,
        forall|k: int| 0 <= k < s.len() && k != e ==> score(#[trigger] s[k], ts) < score(s[e], ts),
    ensures
        r.len() >= 1,
        r[0] == s[e],
        (forall|k: int| 0 <= k < s.len() && k != e ==> score(#[trigger] s[k], ts) == 0) ==> r
            =~= seq![s[e]],
{
    let pos = choose|pos: Seq<int>|
        pos.len() == r.len() && (forall|m: int|
            0 <= m < pos.len() ==> 0 <= #[trigger] pos[m] < s.len() && r[m] == s[pos[m]]) && (
        forall|a: int, b: int|
            0 <= a < b < pos.len() ==> ranks_before(s, ts, #[trigger] pos[a], #[trigger] pos[b]))
            && (forall|k: int|
            0 <= k < s.len() && score(#[trigger] s[k], ts) > 0 && !pos.contains(k) ==> pos.len()
                == SEARCH_LIMIT && forall|m: int|
                0 <= m < pos.len() ==> ranks_before(s, ts, #[trigger] pos[m], k));
    if !pos.contains(e) {
        assert(ranks_before(s, ts, pos[0], e));
        assert(pos[0] != e);
    }
    let m = choose|m: int| 0 <= m < pos.len() && pos[m] == e;
    if m > 0 {
        assert(ranks_before(s, ts, pos[0], pos[m]));
        assert(pos[0] != e);
    }
    assert(pos[0] == e);
    if forall|k: int| 0 <= k < s.len() && k != e ==> score(#[trigger] s[k], ts) == 0 {
        if r.len() > 1 {
            assert(ranks_before(s, ts, pos[0], pos[1]));
            assert(score(r[1], ts) > 0);
            assert(r[1] == s[pos[1]]);
        }
    }
}

} // verus!
