//! Selection and sorting by an integer key: the k smallest elements of a
//! vector are brought to its front without sorting the rest.

use vstd::prelude::*;

verus! {

/// A way to read an integer key off an element.
pub trait Key<T> {
    /// The key of `x`.
    spec fn key_of(x: T) -> i64;

    /// The key of `x`, as an executable value.
    fn key(x: &T) -> (k: i64)
        ensures
            k == Self::key_of(*x),
    ;
}

/// Reads an integer as its own key.
pub struct Plain;

impl Key<i64> for Plain {
    open spec fn key_of(x: i64) -> i64 {
        x
    }

    fn key(x: &i64) -> (k: i64) {
        *x
    }
}

/// The keys of `s` in places `lo..hi` do not decrease.
pub open spec fn sorted<T, K: Key<T>>(s: Seq<T>, lo: int, hi: int) -> bool {
    forall|i: int, j: int| lo <= i <= j < hi ==> K::key_of(s[i]) <= K::key_of(s[j])
}

/// `t` holds what `s` holds outside places `lo..hi`.
pub open spec fn same_outside<T>(s: Seq<T>, t: Seq<T>, lo: int, hi: int) -> bool {
    &&& s.len() == t.len()
    &&& forall|i: int| 0 <= i < s.len() && !(lo <= i < hi) ==> #[trigger] t[i] == s[i]
}

/// Every key of `s` in places `lo..hi` lies between `a` and `b`.
pub open spec fn keys_within<T, K: Key<T>>(
    s: Seq<T>,
    lo: int,
    hi: int,
    a: int,
    b: int,
) -> bool {
    forall|i: int| lo <= i < hi ==> a <= #[trigger] K::key_of(s[i]) <= b
}

/// The element at `index` is where a sort by key would put it: no key before
/// it is larger and no key after it is smaller.
pub open spec fn nth_in_place<T, K: Key<T>>(s: Seq<T>, index: int) -> bool {
    &&& forall|i: int| 0 <= i < index ==> K::key_of(#[trigger] s[i]) <= K::key_of(s[index])
    &&& forall|i: int| index < i < s.len() ==> K::key_of(#[trigger] s[i]) >= K::key_of(s[index])
}

/// Exchanges the elements at `i` and `j`.
fn swap<T: Copy>(v: &mut Vec<T>, i: usize, j: usize)
    requires
        i < old(v).len(),
        j < old(v).len(),
    ensures
        final(v)@ == old(v)@.update(i as int, old(v)@[j as int]).update(j as int, old(v)@[i as int]),
        final(v)@.to_multiset() == old(v)@.to_multiset(),
{
    let x = v[i];
    let y = v[j];
    v[i] = y;
    v[j] = x;
    proof {
        let s = old(v)@;
        let x = s[i as int];
        let y = s[j as int];
        let s1 = s.update(i as int, y);
        vstd::seq_lib::to_multiset_update(s, i as int, y);
        vstd::seq_lib::to_multiset_update(s1, j as int, x);
        s.to_multiset_ensures();
        assert(s.contains(x));
        assert(s.contains(y));
        let m = s.to_multiset();
        assert(m.count(x) > 0);
        assert(m.count(y) > 0);
        assert(s1[j as int] == y);
        assert(m.insert(y).remove(x).insert(x).remove(y) =~= m);
    }
}

/// Sorts places `lo..hi` by inserting each element among those before it.
#[verifier::rlimit(60)]
fn insertion_sort<T: Copy, K: Key<T>>(
    v: &mut Vec<T>,
    lo: usize,
    hi: usize,
    Ghost(a): Ghost<int>,
    Ghost(b): Ghost<int>,
)
    requires
        lo <= hi <= old(v).len(),
        keys_within::<T, K>(old(v)@, lo as int, hi as int, a, b),
    ensures
        sorted::<T, K>(final(v)@, lo as int, hi as int),
        same_outside(old(v)@, final(v)@, lo as int, hi as int),
        final(v)@.to_multiset() == old(v)@.to_multiset(),
        keys_within::<T, K>(final(v)@, lo as int, hi as int, a, b),
{
    if hi - lo < 2 {
        return ;
    }
    let mut i: usize = lo + 1;
    while i < hi
        invariant
            lo < i <= hi <= v.len(),
            sorted::<T, K>(v@, lo as int, i as int),
            same_outside(old(v)@, v@, lo as int, hi as int),
            v@.to_multiset() == old(v)@.to_multiset(),
            keys_within::<T, K>(v@, lo as int, hi as int, a, b),
        decreases hi - i,
    {
        let mut j: usize = i;
        while j > lo && K::key(&v[j]) < K::key(&v[j - 1])
            invariant
                lo <= j <= i < hi <= v.len(),
                same_outside(old(v)@, v@, lo as int, hi as int),
                v@.to_multiset() == old(v)@.to_multiset(),
                keys_within::<T, K>(v@, lo as int, hi as int, a, b),
                forall|p: int, q: int|
                    lo <= p <= q <= i && p != j && q != j ==> K::key_of(v@[p]) <= K::key_of(v@[q]),
                forall|q: int| j < q <= i ==> K::key_of(v@[j as int]) <= K::key_of(v@[q]),
            decreases j,
        {
            swap(v, j, j - 1);
            j = j - 1;
        }
        i = i + 1;
    }
}

/// Rearranges places `lo..hi` around the key `p`, whatever it is: first the
/// elements with a smaller key, then those with key `p`, then those with a
/// larger key. Returns where the second and the third group start; the
/// second group is not empty where an element has key `p`.
#[verifier::rlimit(60)]
fn partition<T: Copy, K: Key<T>>(
    v: &mut Vec<T>,
    lo: usize,
    hi: usize,
    p: i64,
    Ghost(a): Ghost<int>,
    Ghost(b): Ghost<int>,
) -> (r: (usize, usize))
    requires
        lo <= hi <= old(v).len(),
        keys_within::<T, K>(old(v)@, lo as int, hi as int, a, b),
    ensures
        lo <= r.0 <= r.1 <= hi,
        (exists|w: int| lo <= w < hi && K::key_of(old(v)@[w]) == p) ==> r.0 < r.1,
        forall|i: int| lo <= i < r.0 ==> K::key_of(#[trigger] final(v)@[i]) < p,
        forall|i: int| r.0 <= i < r.1 ==> K::key_of(#[trigger] final(v)@[i]) == p,
        forall|i: int| r.1 <= i < hi ==> K::key_of(#[trigger] final(v)@[i]) > p,
        same_outside(old(v)@, final(v)@, lo as int, hi as int),
        final(v)@.to_multiset() == old(v)@.to_multiset(),
        keys_within::<T, K>(final(v)@, lo as int, hi as int, a, b),
{
    let mut lt: usize = lo;
    let mut i: usize = lo;
    let mut gt: usize = hi;
    let ghost has = exists|w: int| lo <= w < hi && K::key_of(old(v)@[w]) == p;
    let ghost mut w: int = choose|w: int| lo <= w < hi && K::key_of(old(v)@[w]) == p;
    while i < gt
        invariant
            lo <= lt <= i <= gt <= hi <= v.len(),
            forall|k: int| lo <= k < lt ==> K::key_of(#[trigger] v@[k]) < p,
            forall|k: int| lt <= k < i ==> K::key_of(#[trigger] v@[k]) == p,
            forall|k: int| gt <= k < hi ==> K::key_of(#[trigger] v@[k]) > p,
            same_outside(old(v)@, v@, lo as int, hi as int),
            v@.to_multiset() == old(v)@.to_multiset(),
            keys_within::<T, K>(v@, lo as int, hi as int, a, b),
            has ==> lo <= w < hi && K::key_of(v@[w]) == p,
        decreases gt - i,
    {
        let k = K::key(&v[i]);
        if k < p {
            proof {
                if w == lt as int {
                    w = i as int;
                } else if w == i as int {
                    w = lt as int;
                }
            }
            swap(v, lt, i);
            lt = lt + 1;
            i = i + 1;
        } else if k > p {
            gt = gt - 1;
            proof {
                if w == gt as int {
                    w = i as int;
                } else if w == i as int {
                    w = gt as int;
                }
            }
            swap(v, i, gt);
        } else {
            i = i + 1;
        }
    }
    (lt, gt)
}

/// The place among `a`, `b` and `c` whose key, of `ka`, `kb` and `kc`, is
/// the middle one; of two places with equal keys the one that the
/// comparisons below come to first.
pub open spec fn middle_of(a: int, b: int, c: int, ka: int, kb: int, kc: int) -> int {
    if ka <= kb {
        if kb <= kc {
            b
        } else if ka <= kc {
            c
        } else {
            a
        }
    } else {
        if ka <= kc {
            a
        } else if kb <= kc {
            c
        } else {
            b
        }
    }
}

/// The middle one of three numbers.
pub open spec fn median3(x: int, y: int, z: int) -> int {
    let lo = if x <= y {
        x
    } else {
        y
    };
    let hi = if x <= y {
        y
    } else {
        x
    };
    if z <= lo {
        lo
    } else if z <= hi {
        z
    } else {
        hi
    }
}

/// The place that is tried as the pivot of places `lo..hi` of `s`: the
/// middle place of a short stretch, and otherwise the place, among those at
/// one, two and three quarters of the stretch, whose key is the middle one.
pub open spec fn pivot_of<T, K: Key<T>>(s: Seq<T>, lo: int, hi: int) -> int {
    let q = (hi - lo) / 4;
    let a = lo + q;
    let b = lo + q * 2;
    let c = lo + q * 3;
    if hi - lo < 8 {
        b
    } else {
        middle_of(a, b, c, K::key_of(s[a]) as int, K::key_of(s[b]) as int, K::key_of(s[c]) as int)
    }
}

/// The place, among three spread over `lo..hi`, whose key is the middle one.
fn choose_pivot<T: Copy, K: Key<T>>(v: &Vec<T>, lo: usize, hi: usize) -> (r: usize)
    requires
        lo < hi <= v.len(),
    ensures
        lo <= r < hi,
        r == pivot_of::<T, K>(v@, lo as int, hi as int),
        hi - lo >= 8 ==> K::key_of(v@[r as int]) == median3(
            K::key_of(v@[lo + (hi - lo) / 4]) as int,
            K::key_of(v@[lo + (hi - lo) / 4 * 2]) as int,
            K::key_of(v@[lo + (hi - lo) / 4 * 3]) as int,
        ),
{
    let len = hi - lo;
    let a = lo + len / 4;
    let b = lo + len / 4 * 2;
    let c = lo + len / 4 * 3;
    if len < 8 {
        return b;
    }
    let ka = K::key(&v[a]);
    let kb = K::key(&v[b]);
    let kc = K::key(&v[c]);
    if ka <= kb {
        if kb <= kc {
            b
        } else if ka <= kc {
            c
        } else {
            a
        }
    } else {
        if ka <= kc {
            a
        } else if kb <= kc {
            c
        } else {
            b
        }
    }
}

/// Narrows `lo..hi` around `index` by partitioning until the element at
/// `index` is in its place.
#[verifier::rlimit(60)]
fn partition_at_index_loop<T: Copy, K: Key<T>>(
    v: &mut Vec<T>,
    index: usize,
)
    requires
        index < old(v).len(),
    ensures
        final(v)@.len() == old(v)@.len(),
        final(v)@.to_multiset() == old(v)@.to_multiset(),
        nth_in_place::<T, K>(final(v)@, index as int),
{
    let mut lo: usize = 0;
    let mut hi: usize = v.len();
    let ghost mut a: int = i64::MIN as int;
    let ghost mut b: int = i64::MAX as int;
    loop
        invariant_except_break
            lo <= index < hi <= v.len(),
            keys_within::<T, K>(v@, lo as int, hi as int, a, b),
            forall|i: int| 0 <= i < lo ==> K::key_of(#[trigger] v@[i]) <= a,
            forall|i: int| hi <= i < v.len() ==> K::key_of(#[trigger] v@[i]) >= b,
        invariant
            v.len() == old(v).len(),
            index < v.len(),
            v@.to_multiset() == old(v)@.to_multiset(),
        ensures
            nth_in_place::<T, K>(v@, index as int),
        decreases hi - lo,
    {
        if hi - lo <= 10 {
            insertion_sort::<T, K>(v, lo, hi, Ghost(a), Ghost(b));
            break ;
        }
        let pivot = choose_pivot::<T, K>(v, lo, hi);
        let p = K::key(&v[pivot]);
        let (lt, gt) = partition::<T, K>(v, lo, hi, p, Ghost(a), Ghost(b));
        if index < lt {
            hi = lt;
            proof {
                b = p as int;
            }
        } else if index >= gt {
            lo = gt;
            proof {
                a = p as int;
            }
        } else {
            break ;
        }
    }
}

/// Puts the element with the largest key last.
fn max_to_end<T: Copy, K: Key<T>>(v: &mut Vec<T>)
    requires
        old(v).len() > 0,
    ensures
        final(v)@.len() == old(v)@.len(),
        final(v)@.to_multiset() == old(v)@.to_multiset(),
        nth_in_place::<T, K>(final(v)@, final(v)@.len() - 1),
{
    let mut best: usize = 0;
    let mut i: usize = 1;
    while i < v.len()
        invariant
            best < i <= v.len(),
            forall|k: int| 0 <= k < i ==> K::key_of(#[trigger] v@[k]) <= K::key_of(v@[best as int]),
        decreases v.len() - i,
    {
        if K::key(&v[i]) > K::key(&v[best]) {
            best = i;
        }
        i = i + 1;
    }
    let last = v.len() - 1;
    swap(v, best, last);
}

/// Puts the element with the smallest key first.
fn min_to_front<T: Copy, K: Key<T>>(v: &mut Vec<T>)
    requires
        old(v).len() > 0,
    ensures
        final(v)@.len() == old(v)@.len(),
        final(v)@.to_multiset() == old(v)@.to_multiset(),
        nth_in_place::<T, K>(final(v)@, 0),
{
    let mut best: usize = 0;
    let mut i: usize = 1;
    while i < v.len()
        invariant
            best < i <= v.len(),
            forall|k: int| 0 <= k < i ==> K::key_of(#[trigger] v@[k]) >= K::key_of(v@[best as int]),
        decreases v.len() - i,
    {
        if K::key(&v[i]) < K::key(&v[best]) {
            best = i;
        }
        i = i + 1;
    }
    swap(v, best, 0);
}

/// Rearranges `v` so that the element at `index` is the one a sort by key
/// would put there.
fn partition_at_index<T: Copy, K: Key<T>>(v: &mut Vec<T>, index: usize)
    requires
        index < old(v).len(),
    ensures
        final(v)@.len() == old(v)@.len(),
        final(v)@.to_multiset() == old(v)@.to_multiset(),
        nth_in_place::<T, K>(final(v)@, index as int),
{
    if index == v.len() - 1 {
        max_to_end::<T, K>(v);
    } else if index == 0 {
        min_to_front::<T, K>(v);
    } else {
        partition_at_index_loop::<T, K>(v, index);
    }
}

/// Rearranges `v` so that the element at `index` is the one that a sort by
/// the key `K` would put there, every element before it has a key that is
/// not larger, and every element after it a key that is not smaller. The
/// order within the two parts is left open.
pub fn select_nth_unstable_by_key<T: Copy, K: Key<T>>(v: &mut Vec<T>, index: usize)
    requires
        index < old(v).len(),
    ensures
        final(v)@.len() == old(v)@.len(),
        final(v)@.to_multiset() == old(v)@.to_multiset(),
        nth_in_place::<T, K>(final(v)@, index as int),
{
    partition_at_index::<T, K>(v, index);
}

/// Sorts places `lo..hi` of `v` by key: partitions around a pivot and sorts
/// the two outer parts, down to short stretches that are sorted by insertion.
#[verifier::rlimit(60)]
fn quick_sort<T: Copy, K: Key<T>>(
    v: &mut Vec<T>,
    lo: usize,
    hi: usize,
    Ghost(a): Ghost<int>,
    Ghost(b): Ghost<int>,
)
    requires
        lo <= hi <= old(v).len(),
        keys_within::<T, K>(old(v)@, lo as int, hi as int, a, b),
    ensures
        sorted::<T, K>(final(v)@, lo as int, hi as int),
        same_outside(old(v)@, final(v)@, lo as int, hi as int),
        final(v)@.to_multiset() == old(v)@.to_multiset(),
        keys_within::<T, K>(final(v)@, lo as int, hi as int, a, b),
    decreases hi - lo,
{
    if hi - lo <= 10 {
        insertion_sort::<T, K>(v, lo, hi, Ghost(a), Ghost(b));
        return ;
    }
    let pivot = choose_pivot::<T, K>(v, lo, hi);
    let p = K::key(&v[pivot]);
    let (lt, gt) = partition::<T, K>(v, lo, hi, p, Ghost(a), Ghost(b));
    let ghost mid = v@;
    quick_sort::<T, K>(v, lo, lt, Ghost(a), Ghost(p - 1));
    let ghost mid2 = v@;
    quick_sort::<T, K>(v, gt, hi, Ghost(p + 1), Ghost(b));
    proof {
        assert forall|i: int, j: int| lo <= i <= j < hi implies K::key_of(v@[i]) <= K::key_of(v@[j],
        ) by {
            if i < lt {
                assert(v@[i] == mid2[i]);
            } else if i < gt {
                assert(v@[i] == mid2[i]);
                assert(mid2[i] == mid[i]);
            }
            if j < lt {
                assert(v@[j] == mid2[j]);
            } else if j < gt {
                assert(v@[j] == mid2[j]);
                assert(mid2[j] == mid[j]);
            }
        }
        assert forall|i: int| lo <= i < hi implies a <= #[trigger] K::key_of(v@[i]) <= b by {
            if i < lt {
                assert(v@[i] == mid2[i]);
            } else if i < gt {
                assert(v@[i] == mid2[i]);
                assert(mid2[i] == mid[i]);
            }
        }
    }
}

/// Sorts the first `len` elements of `v` by the key `K`, smallest first. The
/// order of elements with equal keys is left open.
pub fn sort_unstable_by_key<T: Copy, K: Key<T>>(v: &mut Vec<T>, len: usize)
    requires
        len <= old(v).len(),
    ensures
        sorted::<T, K>(final(v)@, 0, len as int),
        same_outside(old(v)@, final(v)@, 0, len as int),
        final(v)@.to_multiset() == old(v)@.to_multiset(),
{
    quick_sort::<T, K>(v, 0, len, Ghost(i64::MIN as int), Ghost(i64::MAX as int));
}

} // verus!
