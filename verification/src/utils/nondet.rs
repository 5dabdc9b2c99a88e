use vstd::prelude::*;

verus! {

/// A computation with several possible results, kept in the order in which
/// they arise.
pub struct NonDet<T>(pub Vec<T>);

impl<T> View for NonDet<T> {
    type V = Seq<T>;

    open spec fn view(&self) -> Seq<T> {
        self.0@
    }
}

/// Whether `part` is what one call of `f` on `x` may give.
pub open spec fn yields<T, U, F: Fn(T) -> NonDet<U>>(f: F, x: T, part: Seq<U>) -> bool {
    exists|out: NonDet<U>| call_ensures(f, (x,), out) && out@ == part
}

impl<T> NonDet<T> {
    /// The computation whose possible results are `xs`.
    pub fn new(xs: Vec<T>) -> (nd: Self)
        ensures
            nd@ == xs@,
    {
        Self(xs)
    }

    /// The computation with the one result `x`.
    pub fn singleton(x: T) -> (nd: Self)
        ensures
            nd@ == seq![x],
    {
        let mut xs: Vec<T> = Vec::new();
        xs.push(x);
        Self(xs)
    }

    /// Continues every possible result with `f` and gathers what comes out:
    /// the results of `f` on the first result come first, in their order,
    /// then those of `f` on the second, and so on.
    pub fn and_then<F, U>(self, f: F) -> (nd: NonDet<U>) where F: Fn(T) -> NonDet<U>
        requires
            forall|i: int| 0 <= i < self@.len() ==> call_requires(f, (#[trigger] self@[i],)),
        ensures
            exists|parts: Seq<Seq<U>>|
                {
                    &&& parts.len() == self@.len()
                    &&& forall|i: int|
                        0 <= i < parts.len() ==> #[trigger] yields(f, self@[i], parts[i])
                    &&& nd@ == parts.flatten()
                },
    {
        let ghost xs = self@;
        let mut ys: Vec<U> = Vec::new();
        let ghost mut parts: Seq<Seq<U>> = Seq::empty();
        for x in it: self.0
            invariant
                it.seq() == xs,
                forall|i: int| 0 <= i < xs.len() ==> call_requires(f, (#[trigger] xs[i],)),
                parts.len() == it.index(),
                forall|i: int| 0 <= i < parts.len() ==> #[trigger] yields(f, xs[i], parts[i]),
                ys@ == parts.flatten(),
        {
            let ghost n = parts.len() as int;
            let ghost before = parts;
            assert(x == xs[n]);
            let mut out = f(x);
            proof {
                let part = out@;
                parts = parts.push(part);
                assert(call_ensures(f, (xs[n],), out) && out@ == parts[n]);
                assert forall|i: int| 0 <= i < parts.len() implies #[trigger] yields(
                    f,
                    xs[i],
                    parts[i],
                ) by {
                    if i < n {
                        assert(yields(f, xs[i], before[i]));
                    }
                }
                before.lemma_flatten_push(part);
            }
            ys.append(&mut out.0);
        }
        NonDet(ys)
    }
}

} // verus!
