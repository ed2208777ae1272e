//! Stable sorting by a pair of integers.
use vstd::prelude::*;

verus! {

/// Is rank `a` strictly before rank `b`, the first component deciding first?
pub open spec fn rank_lt(a: (int, int), b: (int, int)) -> bool {
    a.0 < b.0 || (a.0 == b.0 && a.1 < b.1)
}

/// A value with a place in a flow.
pub trait Ranked: Copy {
    /// What the value is ordered by.
    spec fn rank(self) -> (int, int);

    /// Does this value come strictly before `other`?
    fn precedes(&self, other: &Self) -> (r: bool)
        ensures
            r == rank_lt(self.rank(), other.rank()),
    ;
}

/// `s` with `x` put behind everything that does not come after it.
pub open spec fn inserted<T: Ranked>(s: Seq<T>, x: T) -> Seq<T>
    decreases s.len(),
{
    if s.len() > 0 && rank_lt(x.rank(), s.last().rank()) {
        inserted(s.drop_last(), x).push(s.last())
    } else {
        s.push(x)
    }
}

/// The elements of `s` by rank; those of one rank stay in their order.
pub open spec fn sorted<T: Ranked>(s: Seq<T>) -> Seq<T>
    decreases s.len(),
{
    if s.len() == 0 {
        s
    } else {
        inserted(sorted(s.drop_last()), s.last())
    }
}

/// No element comes before one that stands ahead of it.
pub open spec fn in_order<T: Ranked>(s: Seq<T>) -> bool {
    forall|i: int, j: int| #![trigger s[i], s[j]]
        0 <= i < j < s.len() ==> !rank_lt(s[j].rank(), s[i].rank())
}

proof fn lemma_inserted<T: Ranked>(s: Seq<T>, x: T)
    ensures
        inserted(s, x).len() == s.len() + 1,
        inserted(s, x).to_multiset() =~= s.to_multiset().insert(x),
        in_order(s) ==> in_order(inserted(s, x)),
        forall|a: T| #[trigger] inserted(s, x).contains(a) <==> (s.contains(a) || a == x),
    decreases s.len(),
{
    broadcast use vstd::seq_lib::group_to_multiset_ensures;
    if s.len() > 0 && rank_lt(x.rank(), s.last().rank()) {
        let front = inserted(s.drop_last(), x);
        lemma_inserted(s.drop_last(), x);
        let out = front.push(s.last());
        assert(s.drop_last().push(s.last()) =~= s);
        assert(out.to_multiset() =~= s.to_multiset().insert(x));
        assert forall|a: T| #[trigger] out.contains(a) <==> (s.contains(a) || a == x) by {
            if out.contains(a) {
                let i = choose|i: int| 0 <= i < out.len() && out[i] == a;
                if i < front.len() {
                    assert(front[i] == a);
                    assert(front.contains(a));
                    if s.drop_last().contains(a) {
                        let k = choose|k: int| 0 <= k < s.drop_last().len() && s.drop_last()[k] == a;
                        assert(s[k] == a);
                    }
                } else {
                    assert(s[s.len() - 1] == a);
                }
            }
            if s.contains(a) {
                let i = choose|i: int| 0 <= i < s.len() && s[i] == a;
                if i < s.len() - 1 {
                    assert(s.drop_last()[i] == a);
                    assert(front.contains(a));
                    let k = choose|k: int| 0 <= k < front.len() && front[k] == a;
                    assert(out[k] == a);
                } else {
                    assert(out[front.len() as int] == a);
                }
            }
            if a == x {
                assert(front.contains(x));
                let k = choose|k: int| 0 <= k < front.len() && front[k] == x;
                assert(out[k] == a);
            }
        }
        if in_order(s) {
            assert(in_order(s.drop_last()));
            assert forall|i: int, j: int| #![trigger out[i], out[j]]
                0 <= i < j < out.len() implies !rank_lt(out[j].rank(), out[i].rank()) by {
                if j == out.len() - 1 {
                    assert(front[i] == out[i]);
                    assert(front.contains(out[i]));
                    if out[i] != x {
                        let k = choose|k: int| 0 <= k < s.drop_last().len() && s.drop_last()[k] == out[i];
                        assert(s[k] == out[i]);
                        assert(!rank_lt(s[s.len() - 1].rank(), s[k].rank()));
                    }
                } else {
                    assert(front[i] == out[i] && front[j] == out[j]);
                }
            }
        }
    } else {
        let out = s.push(x);
        assert forall|a: T| #[trigger] out.contains(a) <==> (s.contains(a) || a == x) by {
            if s.contains(a) {
                let i = choose|i: int| 0 <= i < s.len() && s[i] == a;
                assert(out[i] == a);
            }
            if a == x {
                assert(out[s.len() as int] == a);
            }
        }
        if in_order(s) {
            assert forall|i: int, j: int| #![trigger out[i], out[j]]
                0 <= i < j < out.len() implies !rank_lt(out[j].rank(), out[i].rank()) by {
                if j == s.len() && i < s.len() - 1 {
                    assert(!rank_lt(s[s.len() - 1].rank(), s[i].rank()));
                }
            }
        }
    }
}

/// Sorting orders a sequence and keeps its elements, each as often as before.
pub proof fn lemma_sorted<T: Ranked>(s: Seq<T>)
    ensures
        in_order(sorted(s)),
        sorted(s).len() == s.len(),
        sorted(s).to_multiset() =~= s.to_multiset(),
        forall|a: T| #[trigger] sorted(s).contains(a) <==> s.contains(a),
    decreases s.len(),
{
    broadcast use vstd::seq_lib::group_to_multiset_ensures;
    if s.len() > 0 {
        lemma_sorted(s.drop_last());
        lemma_inserted(sorted(s.drop_last()), s.last());
        assert(s.drop_last().push(s.last()) =~= s);
        assert forall|a: T| #[trigger] sorted(s).contains(a) <==> s.contains(a) by {
            if s.contains(a) {
                let i = choose|i: int| 0 <= i < s.len() && s[i] == a;
                if i < s.len() - 1 {
                    assert(s.drop_last()[i] == a);
                }
            }
            if s.drop_last().contains(a) {
                let i = choose|i: int| 0 <= i < s.drop_last().len() && s.drop_last()[i] == a;
                assert(s[i] == a);
            }
            if a == s.last() {
                assert(s[s.len() - 1] == a);
            }
        }
    }
}

proof fn lemma_insert_at<T: Ranked>(s: Seq<T>, x: T, k: int)
    requires
        0 <= k <= s.len(),
        forall|i: int| k <= i < s.len() ==> rank_lt(x.rank(), #[trigger] s[i].rank()),
        k > 0 ==> !rank_lt(x.rank(), s[k - 1].rank()),
    ensures
        inserted(s, x) =~= s.insert(k, x),
    decreases s.len(),
{
    if s.len() > 0 && k < s.len() {
        assert(rank_lt(x.rank(), s[s.len() - 1].rank()));
        lemma_insert_at(s.drop_last(), x, k);
    }
}

/// The elements of `v` by rank; those of one rank stay in their order.
pub fn sort<T: Ranked>(v: &Vec<T>) -> (out: Vec<T>)
    ensures
        out@ == sorted(v@),
{
    let mut out: Vec<T> = Vec::new();
    let mut i: usize = 0;
    assert(v@.take(0) =~= Seq::empty());
    while i < v.len()
        invariant
            i <= v.len(),
            out@ == sorted(v@.take(i as int)),
            out.len() == i,
        decreases v.len() - i,
    {
        let x = v[i];
        let mut k: usize = out.len();
        while k > 0 && x.precedes(&out[k - 1])
            invariant
                k <= out.len(),
                forall|j: int| k <= j < out.len() ==> rank_lt(x.rank(), #[trigger] out@[j].rank()),
            decreases k,
        {
            k = k - 1;
        }
        proof {
            lemma_insert_at(out@, x, k as int);
            assert(v@.take(i + 1).drop_last() =~= v@.take(i as int));
        }
        out.insert(k, x);
        i = i + 1;
    }
    assert(v@.take(v.len() as int) =~= v@);
    out
}

} // verus!
