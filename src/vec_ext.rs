use vstd::prelude::*;

verus! {

/// Values that have a natural notion of "the same entity", which may be
/// coarser than full equality (an instructor is identified by name).
pub trait Distinct: Sized {
    spec fn same_as(&self, other: &Self) -> bool;

    fn is_same(&self, other: &Self) -> (r: bool)
        ensures
            r == self.same_as(other),
    ;
}

/// `x` is the same entity as some element of `s`.
pub open spec fn seen<T: Distinct>(s: Seq<T>, x: T) -> bool {
    exists|i: int| 0 <= i < s.len() && #[trigger] s[i].same_as(&x)
}

/// The elements of `s` in first-seen order, dropping every element that is
/// the same entity as an earlier one.
pub open spec fn dedup<T: Distinct>(s: Seq<T>) -> Seq<T>
    decreases s.len(),
{
    if s.len() == 0 {
        Seq::empty()
    } else {
        let p = dedup(s.drop_last());
        if seen(p, s.last()) {
            p
        } else {
            p.push(s.last())
        }
    }
}

/// The deduplicating union of two lists, first list first.
pub trait VecExt<T: Distinct>: Sized + View<V = Seq<T>> {
    fn combine(self, other: Vec<T>) -> (r: Vec<T>)
        ensures
            r@ == dedup(self@ + other@),
    ;

    fn combine_option(self, other: Option<Vec<T>>) -> (r: Vec<T>)
        ensures
            r@ == dedup(
                self@ + match other {
                    Some(o) => o@,
                    None => Seq::empty(),
                },
            ),
    ;
}

fn contains_same<T: Distinct>(s: &Vec<T>, x: &T) -> (r: bool)
    ensures
        r == seen(s@, *x),
{
    let mut i: usize = 0;
    while i < s.len()
        invariant
            i <= s@.len(),
            forall|j: int| 0 <= j < i ==> !(#[trigger] s@[j]).same_as(x),
        decreases s@.len() - i,
    {
        if s[i].is_same(x) {
            return true;
        }
        i = i + 1;
    }
    false
}

fn dedup_vec<T: Distinct>(v: Vec<T>) -> (r: Vec<T>)
    ensures
        r@ == dedup(v@),
{
    let ghost src = v@;
    let mut rest = v;
    let mut out: Vec<T> = Vec::new();
    let mut k: usize = 0;
    let n: usize = rest.len();
    while rest.len() > 0
        invariant
            n == src.len(),
            k <= src.len(),
            k + rest@.len() == src.len(),
            rest@ == src.skip(k as int),
            out@ == dedup(src.take(k as int)),
        decreases rest@.len(),
    {
        let x = rest.remove(0);
        proof {
            assert(src.take(k as int + 1).drop_last() =~= src.take(k as int));
            assert(src.take(k as int + 1).last() == src[k as int]);
            assert(rest@ =~= src.skip(k as int + 1));
        }
        if !contains_same(&out, &x) {
            out.push(x);
        }
        k = k + 1;
    }
    assert(src.take(k as int) =~= src);
    out
}

impl<T: Distinct> VecExt<T> for Vec<T> {
    fn combine(self, other: Vec<T>) -> (r: Vec<T>) {
        let mut all = self;
        let mut other = other;
        all.append(&mut other);
        dedup_vec(all)
    }

    fn combine_option(self, other: Option<Vec<T>>) -> (r: Vec<T>) {
        match other {
            Some(o) => self.combine(o),
            None => {
                assert(self@ + Seq::<T>::empty() =~= self@);
                dedup_vec(self)
            },
        }
    }
}

impl Distinct for i32 {
    open spec fn same_as(&self, other: &Self) -> bool {
        *self == *other
    }

    fn is_same(&self, other: &Self) -> (r: bool) {
        *self == *other
    }
}

impl Distinct for String {
    open spec fn same_as(&self, other: &Self) -> bool {
        self@ == other@
    }

    fn is_same(&self, other: &Self) -> (r: bool) {
        *self == *other
    }
}

} // verus!
