//! A stable merge sort over values ordered by an integer key.
use vstd::prelude::*;
use vstd::multiset::Multiset;

verus! {

broadcast use vstd::seq_lib::group_seq_properties;

/// A value ordered by an integer key.
pub trait SortKey: Copy {
    spec fn key_of(&self) -> int;

    fn key(&self) -> (k: i128)
        ensures
            k == self.key_of(),
    ;
}

impl SortKey for i64 {
    open spec fn key_of(&self) -> int {
        *self as int
    }

    fn key(&self) -> (k: i128) {
        *self as i128
    }
}

/// The keys of `s` never decrease.
pub open spec fn sorted_by_key<T: SortKey>(s: Seq<T>) -> bool {
    forall|i: int, j: int| 0 <= i <= j < s.len() ==> s[i].key_of() <= s[j].key_of()
}

pub proof fn lemma_same_multiset_same_elements<T>(a: Seq<T>, b: Seq<T>)
    requires
        a.to_multiset() == b.to_multiset(),
    ensures
        forall|x: T| a.contains(x) <==> b.contains(x),
        a.len() == b.len(),
{
    a.to_multiset_ensures();
    b.to_multiset_ensures();
    assert forall|x: T| a.contains(x) <==> b.contains(x) by {
        assert(a.contains(x) <==> a.to_multiset().count(x) > 0);
        assert(b.contains(x) <==> b.to_multiset().count(x) > 0);
    }
}

fn merge_sorted<T: SortKey>(a: Vec<T>, b: Vec<T>) -> (r: Vec<T>)
    requires
        sorted_by_key(a@),
        sorted_by_key(b@),
    ensures
        sorted_by_key(r@),
        r@.to_multiset() == a@.to_multiset().add(b@.to_multiset()),
{
    let mut r: Vec<T> = Vec::new();
    let mut i: usize = 0;
    let mut j: usize = 0;
    proof {
        assert(a@.subrange(0, 0) =~= Seq::<T>::empty());
        assert(b@.subrange(0, 0) =~= Seq::<T>::empty());
    }
    while i < a.len() || j < b.len()
        invariant
            i <= a.len(),
            j <= b.len(),
            sorted_by_key(a@),
            sorted_by_key(b@),
            sorted_by_key(r@),
            r@.to_multiset() == a@.subrange(0, i as int).to_multiset().add(
                b@.subrange(0, j as int).to_multiset(),
            ),
            r.len() == i + j,
            r.len() > 0 && i < a.len() ==> r@.last().key_of() <= a@[i as int].key_of(),
            r.len() > 0 && j < b.len() ==> r@.last().key_of() <= b@[j as int].key_of(),
        decreases a.len() + b.len() - i - j,
    {
        let take_a = if i < a.len() && j < b.len() {
            a[i].key() <= b[j].key()
        } else {
            i < a.len()
        };
        let ghost old_r = r@;
        if take_a {
            let x = a[i];
            r.push(x);
            proof {
                assert(a@.subrange(0, i + 1) =~= a@.subrange(0, i as int).push(x));
                old_r.to_multiset_ensures();
                a@.subrange(0, i as int).to_multiset_ensures();
            }
            i = i + 1;
        } else {
            let x = b[j];
            r.push(x);
            proof {
                assert(b@.subrange(0, j + 1) =~= b@.subrange(0, j as int).push(x));
                old_r.to_multiset_ensures();
                b@.subrange(0, j as int).to_multiset_ensures();
            }
            j = j + 1;
        }
        proof {
            assert forall|p: int, q: int| 0 <= p <= q < r@.len() implies r@[p].key_of()
                <= r@[q].key_of() by {
                if q == r@.len() - 1 && p < q {
                    assert(r@[p] == old_r[p]);
                    assert(old_r[p].key_of() <= old_r.last().key_of());
                }
            }
        }
    }
    proof {
        assert(a@.subrange(0, a.len() as int) =~= a@);
        assert(b@.subrange(0, b.len() as int) =~= b@);
    }
    r
}

/// Sorts `v` by key: the result holds the same values, in nondecreasing key order.
pub fn sort_by_key<T: SortKey>(v: Vec<T>) -> (r: Vec<T>)
    ensures
        sorted_by_key(r@),
        r@.to_multiset() == v@.to_multiset(),
        r.len() == v.len(),
    decreases v.len(),
{
    if v.len() <= 1 {
        return v;
    }
    let mut left = v;
    let ghost whole = left@;
    let mid = left.len() / 2;
    let right = left.split_off(mid);
    proof {
        assert(whole =~= left@ + right@);
        vstd::seq_lib::lemma_multiset_commutative(left@, right@);
    }
    let sl = sort_by_key(left);
    let sr = sort_by_key(right);
    let r = merge_sorted(sl, sr);
    proof {
        r@.to_multiset_ensures();
        whole.to_multiset_ensures();
    }
    r
}

} // verus!
