//! Sequences kept in strictly ascending order of an integer rank.

use vstd::prelude::*;

verus! {

/// A value that is ordered by a natural number, its rank. Different values
/// have different ranks.
pub trait Ranked: Sized {
    /// The number by which the value is ordered.
    spec fn rank(&self) -> nat;

    /// Computes the rank.
    fn rank_value(&self) -> (r: u64)
        ensures
            r == self.rank(),
    ;

    /// Values of equal rank are equal.
    proof fn lemma_rank_injective(&self, other: &Self)
        requires
            self.rank() == other.rank(),
        ensures
            self == other,
    ;
}

impl Ranked for u16 {
    open spec fn rank(&self) -> nat {
        *self as nat
    }

    fn rank_value(&self) -> (r: u64) {
        *self as u64
    }

    proof fn lemma_rank_injective(&self, other: &Self) {
    }
}

/// The ranks of `s` rise from each element to the next.
pub open spec fn is_ascending<T: Ranked>(s: Seq<T>) -> bool {
    forall|i: int, j: int| 0 <= i < j < s.len() ==> s[i].rank() < s[j].rank()
}

/// An ascending sequence is determined by what it contains.
pub proof fn lemma_ascending_unique<T: Ranked>(a: Seq<T>, b: Seq<T>)
    requires
        is_ascending(a),
        is_ascending(b),
        forall|x: T| a.contains(x) <==> b.contains(x),
    ensures
        a == b,
    decreases a.len(),
{
    if a.len() == 0 {
        if b.len() > 0 {
            assert(b.contains(b[0]));
        }
        assert(a =~= b);
    } else {
        let x = a.last();
        assert(a.contains(x));
        assert(b.contains(x));
        let y = b.last();
        assert(b.contains(y));
        assert(a.contains(y));
        let ix = choose|i: int| 0 <= i < b.len() && b[i] == x;
        let iy = choose|i: int| 0 <= i < a.len() && a[i] == y;
        assert(x.rank() == y.rank()) by {
            if ix < b.len() - 1 {
                assert(b[ix].rank() < b[b.len() - 1].rank());
            }
            if iy < a.len() - 1 {
                assert(a[iy].rank() < a[a.len() - 1].rank());
            }
        }
        x.lemma_rank_injective(&y);
        let a0 = a.drop_last();
        let b0 = b.drop_last();
        assert forall|z: T| a0.contains(z) <==> b0.contains(z) by {
            if a0.contains(z) {
                let i = choose|i: int| 0 <= i < a0.len() && a0[i] == z;
                assert(a[i] == z && a[i].rank() < a[a.len() - 1].rank());
                assert(a.contains(z));
                let j = choose|j: int| 0 <= j < b.len() && b[j] == z;
                assert(j < b.len() - 1);
                assert(b0[j] == z);
            }
            if b0.contains(z) {
                let i = choose|i: int| 0 <= i < b0.len() && b0[i] == z;
                assert(b[i] == z && b[i].rank() < b[b.len() - 1].rank());
                assert(b.contains(z));
                let j = choose|j: int| 0 <= j < a.len() && a[j] == z;
                assert(j < a.len() - 1);
                assert(a0[j] == z);
            }
        }
        lemma_ascending_unique(a0, b0);
        assert(a =~= a0.push(x));
        assert(b =~= b0.push(y));
    }
}

/// Puts `x` into the ascending `v` at its place, unless `v` holds it already.
pub fn insert_new<T: Ranked>(v: &mut Vec<T>, x: T)
    requires
        is_ascending(old(v)@),
    ensures
        is_ascending(final(v)@),
        forall|y: T| final(v)@.contains(y) <==> old(v)@.contains(y) || y == x,
        final(v)@.len() == old(v)@.len() + (if old(v)@.contains(x) {
            0int
        } else {
            1int
        }),
{
    let r = x.rank_value();
    let mut p: usize = v.len();
    while p > 0
        invariant
            p <= v.len(),
            v@ == old(v)@,
            r == x.rank(),
            forall|j: int| p <= j < v.len() ==> v@[j].rank() > x.rank(),
        ensures
            p == 0 || v@[p - 1].rank() <= x.rank(),
        decreases p,
    {
        if v[p - 1].rank_value() <= r {
            break ;
        }
        p = p - 1;
    }
    let ghost before = v@;
    if p > 0 && v[p - 1].rank_value() == r {
        proof {
            before[p - 1].lemma_rank_injective(&x);
            assert(before.contains(x));
        }
        return ;
    }
    proof {
        if before.contains(x) {
            let i = choose|i: int| 0 <= i < before.len() && before[i] == x;
            if i < p - 1 {
                assert(before[i].rank() < before[p - 1].rank());
            }
        }
    }
    v.insert(p, x);
    proof {
        let after = v@;
        assert(after == before.insert(p as int, x));
        assert forall|i: int, j: int| 0 <= i < j < after.len() implies after[i].rank() < after[j].rank() by {
            let bi = if i < p { i } else { i - 1 };
            let bj = if j < p { j } else { j - 1 };
            if i != p {
                assert(after[i] == before[bi]);
            }
            if j != p {
                assert(after[j] == before[bj]);
            }
            if i < p && p > 0 {
                assert(before[bi].rank() <= before[p - 1].rank());
            }
        }
        assert forall|y: T| after.contains(y) <==> before.contains(y) || y == x by {
            if after.contains(y) {
                let i = choose|i: int| 0 <= i < after.len() && after[i] == y;
                if i != p {
                    let bi = if i < p { i } else { i - 1 };
                    assert(before[bi] == y);
                }
            }
            if before.contains(y) {
                let i = choose|i: int| 0 <= i < before.len() && before[i] == y;
                let ai = if i < p { i } else { i + 1 };
                assert(after[ai] == y);
            }
            assert(after[p as int] == x);
        }
    }
}

} // verus!
