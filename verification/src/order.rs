//! The ordered model of the ring: a sequence of virtual points, each a pair
//! of its 32-bit position and the owning node's name, sorted strictly by
//! position.  Successor lookup, per-owner counting and the clockwise walk
//! that `get_n` performs are all defined here over that model.

use vstd::prelude::*;
use vstd::seq_lib::*;

verus! {

/// Point positions strictly increase along the sequence, so no two points
/// share a position.
pub open spec fn sorted_by_hash(s: Seq<(u32, Seq<char>)>) -> bool {
    forall|i: int, j: int| 0 <= i < j < s.len() ==> s[i].0 < s[j].0
}

/// Some point of `s` sits at position `h`.
pub open spec fn hash_in(s: Seq<(u32, Seq<char>)>, h: u32) -> bool {
    exists|k: int| 0 <= k < s.len() && s[k].0 == h
}

/// The index of the first point whose position is strictly greater than `h`,
/// or the length of the sequence when there is none.
pub open spec fn first_gt(s: Seq<(u32, Seq<char>)>, h: u32) -> int
    decreases s.len(),
{
    if s.len() == 0 {
        0
    } else if s[0].0 > h {
        0
    } else {
        1 + first_gt(s.skip(1), h)
    }
}

/// The successor of `h` on the circular hash space: the first point strictly
/// past `h`, wrapping around to the first point of the sequence when `h` is
/// at or past the last one.
pub open spec fn successor_position(s: Seq<(u32, Seq<char>)>, h: u32) -> int {
    if first_gt(s, h) == s.len() {
        0
    } else {
        first_gt(s, h)
    }
}

pub proof fn lemma_first_gt_bounds(s: Seq<(u32, Seq<char>)>, h: u32)
    ensures
        0 <= first_gt(s, h) <= s.len(),
        forall|k: int| 0 <= k < first_gt(s, h) ==> s[k].0 <= h,
        first_gt(s, h) < s.len() ==> s[first_gt(s, h)].0 > h,
    decreases s.len(),
{
    if s.len() == 0 {
    } else if s[0].0 > h {
    } else {
        lemma_first_gt_bounds(s.skip(1), h);
        assert forall|k: int| 0 <= k < first_gt(s, h) implies s[k].0 <= h by {
            if k > 0 {
                assert(s.skip(1)[k - 1] == s[k]);
            }
        }
        if first_gt(s, h) < s.len() {
            assert(s.skip(1)[first_gt(s, h) - 1] == s[first_gt(s, h)]);
        }
    }
}

/// `first_gt` is the only index satisfying its characterization, so an index
/// found by a scan coincides with it.
pub proof fn lemma_first_gt_unique(s: Seq<(u32, Seq<char>)>, h: u32, i: int)
    requires
        0 <= i <= s.len(),
        forall|k: int| 0 <= k < i ==> s[k].0 <= h,
        i < s.len() ==> s[i].0 > h,
    ensures
        first_gt(s, h) == i,
{
    lemma_first_gt_bounds(s, h);
    let f = first_gt(s, h);
    if f < i {
        assert(s[f].0 <= h);
    }
    if i < f {
        assert(s[i].0 <= h);
    }
}

/// A point inserted at its `first_gt` position keeps the sequence sorted.
pub open spec fn sorted_insert(s: Seq<(u32, Seq<char>)>, p: (u32, Seq<char>)) -> Seq<
    (u32, Seq<char>),
> {
    s.insert(first_gt(s, p.0), p)
}

// ---------------------------------------------------------------------------
// counting the points a given node owns
// ---------------------------------------------------------------------------

/// How many points of `s` are owned by the node named `m`.
pub open spec fn owned_count(s: Seq<(u32, Seq<char>)>, m: Seq<char>) -> nat
    decreases s.len(),
{
    if s.len() == 0 {
        0
    } else {
        owned_count(s.drop_last(), m) + (if s.last().1 == m {
            1nat
        } else {
            0nat
        })
    }
}

pub proof fn lemma_owned_count_add(a: Seq<(u32, Seq<char>)>, b: Seq<(u32, Seq<char>)>, m: Seq<char>)
    ensures
        owned_count(a + b, m) == owned_count(a, m) + owned_count(b, m),
    decreases b.len(),
{
    if b.len() == 0 {
        assert(a + b =~= a);
    } else {
        lemma_owned_count_add(a, b.drop_last(), m);
        assert((a + b).drop_last() =~= a + b.drop_last());
        assert((a + b).last() == b.last());
    }
}

pub proof fn lemma_owned_count_single(p: (u32, Seq<char>), m: Seq<char>)
    ensures
        owned_count(seq![p], m) == (if p.1 == m {
            1nat
        } else {
            0nat
        }),
{
    let e = Seq::<(u32, Seq<char>)>::empty();
    assert(seq![p].drop_last() =~= e);
    assert(owned_count(e, m) == 0);
    assert(seq![p].last() == p);
}

/// A node owns no point exactly when no point names it.
pub proof fn lemma_owned_count_zero(s: Seq<(u32, Seq<char>)>, m: Seq<char>)
    ensures
        owned_count(s, m) == 0 <==> (forall|k: int| 0 <= k < s.len() ==> s[k].1 != m),
    decreases s.len(),
{
    if s.len() == 0 {
    } else {
        lemma_owned_count_zero(s.drop_last(), m);
        assert(s.last() == s[s.len() - 1]);
        assert forall|k: int| 0 <= k < s.len() - 1 implies s.drop_last()[k] == s[k] by {}
        if owned_count(s, m) == 0 {
            assert forall|k: int| 0 <= k < s.len() implies s[k].1 != m by {
                if k < s.len() - 1 {
                    assert(s.drop_last()[k] == s[k]);
                }
            }
        }
    }
}

pub proof fn lemma_owned_count_insert(
    s: Seq<(u32, Seq<char>)>,
    k: int,
    p: (u32, Seq<char>),
    m: Seq<char>,
)
    requires
        0 <= k <= s.len(),
    ensures
        owned_count(s.insert(k, p), m) == owned_count(s, m) + (if p.1 == m {
            1nat
        } else {
            0nat
        }),
{
    let a = s.subrange(0, k);
    let b = s.subrange(k, s.len() as int);
    assert(a.push(p) =~= a + seq![p]);
    assert(s.insert(k, p) == a.push(p) + b);
    assert(s =~= a + b);
    lemma_owned_count_add(a + seq![p], b, m);
    lemma_owned_count_add(a, seq![p], m);
    lemma_owned_count_single(p, m);
    lemma_owned_count_add(a, b, m);
}

// ---------------------------------------------------------------------------
// which positions are occupied, across an insertion
// ---------------------------------------------------------------------------

pub proof fn lemma_hash_in_insert(s: Seq<(u32, Seq<char>)>, k: int, p: (u32, Seq<char>), h: u32)
    requires
        0 <= k <= s.len(),
    ensures
        hash_in(s.insert(k, p), h) <==> (hash_in(s, h) || p.0 == h),
{
    s.insert_ensures(k, p);
    let t = s.insert(k, p);
    if hash_in(t, h) {
        let j = choose|j: int| 0 <= j < t.len() && t[j].0 == h;
        if j < k {
            assert(s[j].0 == h);
        } else if j == k {
            assert(p.0 == h);
        } else {
            assert(t[(j - 1) + 1] == s[j - 1]);
            assert(s[j - 1].0 == h);
        }
    }
    if hash_in(s, h) {
        let j = choose|j: int| 0 <= j < s.len() && s[j].0 == h;
        if j < k {
            assert(t[j].0 == h);
        } else {
            assert(t[j + 1] == s[j]);
            assert(t[j + 1].0 == h);
        }
    }
    if p.0 == h {
        assert(t[k].0 == h);
    }
}

/// Inserting a fresh position at its sorted place keeps the sequence sorted,
/// and every entry of the result is the new point or one of the old ones.
pub proof fn lemma_sorted_insert(s: Seq<(u32, Seq<char>)>, p: (u32, Seq<char>))
    requires
        sorted_by_hash(s),
        !hash_in(s, p.0),
    ensures
        sorted_by_hash(sorted_insert(s, p)),
        sorted_insert(s, p).len() == s.len() + 1,
        forall|t: int|
            0 <= t < sorted_insert(s, p).len() ==> (#[trigger] sorted_insert(s, p)[t] == p
                || s.contains(sorted_insert(s, p)[t])),
{
    lemma_first_gt_bounds(s, p.0);
    let k = first_gt(s, p.0);
    s.insert_ensures(k, p);
    let t = sorted_insert(s, p);
    assert forall|i: int| 0 <= i < k implies s[i].0 < p.0 by {
        assert(s[i].0 <= p.0);
        assert(s[i].0 != p.0);
    }
    assert forall|i: int, j: int| 0 <= i < j < t.len() implies t[i].0 < t[j].0 by {
        if i < k && j < k {
        } else if i < k && j == k {
        } else if i < k && j > k {
            assert(t[j] == s[j - 1]);
            if j - 1 == k {
            } else {
                assert(s[k].0 > p.0);
                assert(s[k].0 <= s[j - 1].0 || k == j - 1);
            }
            assert(s[i].0 < p.0);
            assert(k <= j - 1 < s.len());
            if k < j - 1 {
                assert(s[k].0 < s[j - 1].0);
            }
        } else if i == k {
            assert(t[j] == s[j - 1]);
            assert(k <= j - 1 < s.len());
            if k < j - 1 {
                assert(s[k].0 < s[j - 1].0);
            }
            assert(p.0 < s[k].0);
        } else {
            assert(t[i] == s[i - 1]);
            assert(t[j] == s[j - 1]);
        }
    }
    assert forall|u: int| 0 <= u < t.len() implies (t[u] == p || s.contains(t[u])) by {
        if u < k {
            assert(t[u] == s[u]);
            assert(s.contains(s[u]));
        } else if u > k {
            assert(t[u] == s[u - 1]);
            assert(s.contains(s[u - 1]));
        }
    }
}

// ---------------------------------------------------------------------------
// dropping every point a node owns
// ---------------------------------------------------------------------------

/// The points that remain when every point owned by `m` is dropped, in their
/// original order.
pub open spec fn without_owner(s: Seq<(u32, Seq<char>)>, m: Seq<char>) -> Seq<(u32, Seq<char>)>
    decreases s.len(),
{
    if s.len() == 0 {
        Seq::empty()
    } else {
        let r = without_owner(s.drop_last(), m);
        if s.last().1 == m {
            r
        } else {
            r.push(s.last())
        }
    }
}

/// Dropping an owner that owns nothing changes nothing.
pub proof fn lemma_without_owner_noop(s: Seq<(u32, Seq<char>)>, m: Seq<char>)
    requires
        owned_count(s, m) == 0,
    ensures
        without_owner(s, m) == s,
    decreases s.len(),
{
    if s.len() == 0 {
        assert(without_owner(s, m) =~= s);
    } else {
        lemma_without_owner_noop(s.drop_last(), m);
        assert(without_owner(s, m) =~= s.drop_last().push(s.last()));
        assert(s.drop_last().push(s.last()) =~= s);
    }
}

/// Exactly the owned points disappear.
pub proof fn lemma_without_owner_len(s: Seq<(u32, Seq<char>)>, m: Seq<char>)
    ensures
        without_owner(s, m).len() + owned_count(s, m) == s.len(),
    decreases s.len(),
{
    if s.len() == 0 {
    } else {
        lemma_without_owner_len(s.drop_last(), m);
    }
}

/// What remains is still sorted, comes from `s`, and names `m` nowhere;
/// other nodes keep their point count.
pub proof fn lemma_without_owner_props(s: Seq<(u32, Seq<char>)>, m: Seq<char>)
    requires
        sorted_by_hash(s),
    ensures
        sorted_by_hash(without_owner(s, m)),
        forall|t: int|
            0 <= t < without_owner(s, m).len() ==> s.contains(#[trigger] without_owner(s, m)[t]),
        forall|t: int| 0 <= t < without_owner(s, m).len() ==> without_owner(s, m)[t].1 != m,
    decreases s.len(),
{
    if s.len() == 0 {
    } else {
        assert forall|i: int, j: int| 0 <= i < j < s.drop_last().len() implies s.drop_last()[i].0
            < s.drop_last()[j].0 by {
            assert(s.drop_last()[i] == s[i]);
            assert(s.drop_last()[j] == s[j]);
        }
        lemma_without_owner_props(s.drop_last(), m);
        let r = without_owner(s.drop_last(), m);
        let w = without_owner(s, m);
        assert forall|t: int| 0 <= t < r.len() implies s.contains(r[t]) by {
            assert(s.drop_last().contains(r[t]));
            let j = choose|j: int| 0 <= j < s.drop_last().len() && s.drop_last()[j] == r[t];
            assert(s[j] == r[t]);
        }
        if s.last().1 == m {
        } else {
            assert(w =~= r.push(s.last()));
            assert forall|i: int, j: int| 0 <= i < j < w.len() implies w[i].0 < w[j].0 by {
                if j < r.len() {
                } else {
                    assert(w[j] == s.last());
                    assert(s.drop_last().contains(r[i]));
                    let u = choose|u: int|
                        0 <= u < s.drop_last().len() && s.drop_last()[u] == r[i];
                    assert(s[u] == r[i]);
                    assert(s[u].0 < s[s.len() - 1].0);
                }
            }
            assert(s.contains(s[s.len() - 1]));
            assert(w[w.len() - 1] == s.last());
        }
    }
}

pub proof fn lemma_without_owner_add(
    a: Seq<(u32, Seq<char>)>,
    b: Seq<(u32, Seq<char>)>,
    m: Seq<char>,
)
    ensures
        without_owner(a + b, m) == without_owner(a, m) + without_owner(b, m),
    decreases b.len(),
{
    if b.len() == 0 {
        assert(a + b =~= a);
        assert(without_owner(b, m) =~= Seq::<(u32, Seq<char>)>::empty());
        assert(without_owner(a, m) + without_owner(b, m) =~= without_owner(a, m));
    } else {
        lemma_without_owner_add(a, b.drop_last(), m);
        assert((a + b).drop_last() =~= a + b.drop_last());
        assert((a + b).last() == b.last());
        if b.last().1 == m {
        } else {
            assert(without_owner(a, m) + without_owner(b.drop_last(), m).push(b.last()) =~= (
            without_owner(a, m) + without_owner(b.drop_last(), m)).push(b.last()));
        }
    }
}

/// Inserting a point owned by `m` anywhere is invisible once `m`'s points
/// are dropped.
pub proof fn lemma_without_owner_insert_owned(
    t: Seq<(u32, Seq<char>)>,
    j: int,
    p: (u32, Seq<char>),
    m: Seq<char>,
)
    requires
        0 <= j <= t.len(),
        p.1 == m,
    ensures
        without_owner(t.insert(j, p), m) == without_owner(t, m),
{
    let a = t.subrange(0, j);
    let b = t.subrange(j, t.len() as int);
    assert(a.push(p) =~= a + seq![p]);
    assert(t.insert(j, p) == a.push(p) + b);
    assert(t =~= a + b);
    lemma_without_owner_add(a + seq![p], b, m);
    lemma_without_owner_add(a, seq![p], m);
    let e = Seq::<(u32, Seq<char>)>::empty();
    assert(seq![p].drop_last() =~= e);
    assert(without_owner(e, m) == e);
    assert(seq![p].last() == p);
    assert(seq![p].last().1 == m);
    assert(without_owner(seq![p], m) == without_owner(seq![p].drop_last(), m));
    assert(without_owner(seq![p], m) =~= e);
    lemma_without_owner_add(a, b, m);
    assert(without_owner(a, m) + without_owner(seq![p], m) =~= without_owner(a, m));
}

/// Nodes other than the dropped one keep every point they owned.
pub proof fn lemma_without_owner_count(s: Seq<(u32, Seq<char>)>, m: Seq<char>, m2: Seq<char>)
    requires
        m2 != m,
    ensures
        owned_count(without_owner(s, m), m2) == owned_count(s, m2),
    decreases s.len(),
{
    if s.len() == 0 {
    } else {
        lemma_without_owner_count(s.drop_last(), m, m2);
        let r = without_owner(s.drop_last(), m);
        if s.last().1 == m {
        } else {
            assert(r.push(s.last()).drop_last() =~= r);
            assert(r.push(s.last()).last() == s.last());
        }
    }
}

// ---------------------------------------------------------------------------
// the clockwise walk: distinct owners in order of first encounter
// ---------------------------------------------------------------------------

/// The distinct names of `s`, kept in the order of their first appearance.
pub open spec fn distinct_in_order(s: Seq<Seq<char>>) -> Seq<Seq<char>>
    decreases s.len(),
{
    if s.len() == 0 {
        Seq::empty()
    } else {
        let r = distinct_in_order(s.drop_last());
        if r.contains(s.last()) {
            r
        } else {
            r.push(s.last())
        }
    }
}

/// The walk lists each name of `s` exactly once.
pub proof fn lemma_distinct_in_order(s: Seq<Seq<char>>)
    ensures
        distinct_in_order(s).no_duplicates(),
        forall|x: Seq<char>|
            #![trigger distinct_in_order(s).contains(x)]
            #![trigger s.contains(x)]
            distinct_in_order(s).contains(x) <==> s.contains(x),
    decreases s.len(),
{
    if s.len() == 0 {
    } else {
        lemma_distinct_in_order(s.drop_last());
        let r = distinct_in_order(s.drop_last());
        let d = distinct_in_order(s);
        assert forall|x: Seq<char>| #[trigger] s.contains(x) implies d.contains(x) by {
            let j = choose|j: int| 0 <= j < s.len() && s[j] == x;
            if j < s.len() - 1 {
                assert(s.drop_last()[j] == x);
                assert(s.drop_last().contains(x));
                assert(r.contains(x));
                if !r.contains(s.last()) {
                    let u = choose|u: int| 0 <= u < r.len() && r[u] == x;
                    assert(r.push(s.last())[u] == x);
                }
            } else {
                assert(s.last() == x);
                if r.contains(x) {
                } else {
                    assert(r.push(x)[r.len() as int] == x);
                }
            }
        }
        assert forall|x: Seq<char>| #[trigger] d.contains(x) implies s.contains(x) by {
            let j = choose|j: int| 0 <= j < d.len() && d[j] == x;
            if j < r.len() {
                assert(r[j] == x);
                assert(r.contains(x));
                assert(s.drop_last().contains(x));
                let u = choose|u: int| 0 <= u < s.drop_last().len() && s.drop_last()[u] == x;
                assert(s[u] == x);
            } else {
                assert(d[j] == s.last());
                assert(s.contains(s[s.len() - 1]));
            }
        }
        if !r.contains(s.last()) {
            assert forall|i: int, j: int| 0 <= i < j < d.len() implies d[i] != d[j] by {
                if j < r.len() {
                } else {
                    assert(d[j] == s.last());
                    assert(d[i] == r[i]);
                    assert(r.contains(r[i]));
                }
            }
        }
    }
}

/// The walk starts with the first name it visits.
pub proof fn lemma_distinct_in_order_first(s: Seq<Seq<char>>)
    requires
        s.len() > 0,
    ensures
        distinct_in_order(s).len() > 0,
        distinct_in_order(s)[0] == s[0],
    decreases s.len(),
{
    if s.len() == 1 {
        let e = Seq::<Seq<char>>::empty();
        assert(s.drop_last() =~= e);
        assert(distinct_in_order(e) == e);
        assert(!e.contains(s.last()));
        assert(distinct_in_order(s) == e.push(s.last()));
        assert(s.last() == s[0]);
    } else {
        lemma_distinct_in_order_first(s.drop_last());
        assert(s.drop_last()[0] == s[0]);
    }
}

/// The walk over a prefix is a prefix of the walk over the whole sequence.
pub proof fn lemma_distinct_in_order_prefix(s: Seq<Seq<char>>, i: int)
    requires
        0 <= i <= s.len(),
    ensures
        distinct_in_order(s.take(i)).is_prefix_of(distinct_in_order(s)),
    decreases s.len(),
{
    if i == s.len() {
        assert(s.take(i) =~= s);
    } else {
        assert(s.drop_last().take(i) =~= s.take(i));
        lemma_distinct_in_order_prefix(s.drop_last(), i);
        let r = distinct_in_order(s.drop_last());
        let d = distinct_in_order(s);
        let p = distinct_in_order(s.take(i));
        assert(p.is_prefix_of(r));
        if r.contains(s.last()) {
        } else {
            assert(r.is_prefix_of(r.push(s.last()))) by {
                assert(r =~= r.push(s.last()).subrange(0, r.len() as int));
            }
            assert(p =~= r.subrange(0, p.len() as int));
            assert(p =~= r.push(s.last()).subrange(0, p.len() as int));
        }
    }
}

/// The walk is as long as the number of distinct names.
pub proof fn lemma_distinct_in_order_len(s: Seq<Seq<char>>)
    ensures
        distinct_in_order(s).len() == s.to_set().len(),
{
    lemma_distinct_in_order(s);
    assert(distinct_in_order(s).to_set() =~= s.to_set());
    distinct_in_order(s).unique_seq_to_set();
}

/// Rotating a sequence keeps exactly its names.
pub proof fn lemma_rotate_contains(s: Seq<Seq<char>>, start: int)
    requires
        0 <= start <= s.len(),
    ensures
        forall|x: Seq<char>|
            #![trigger (s.skip(start) + s.take(start)).contains(x)]
            #![trigger s.contains(x)]
            (s.skip(start) + s.take(start)).contains(x) <==> s.contains(x),
{
    let rot = s.skip(start) + s.take(start);
    assert forall|x: Seq<char>| #[trigger] rot.contains(x) implies s.contains(x) by {
        let j = choose|j: int| 0 <= j < rot.len() && rot[j] == x;
        if j < s.len() - start {
            assert(s[start + j] == x);
        } else {
            assert(s[j - (s.len() - start)] == x);
        }
    }
    assert forall|x: Seq<char>| #[trigger] s.contains(x) implies rot.contains(x) by {
        let j = choose|j: int| 0 <= j < s.len() && s[j] == x;
        if j >= start {
            assert(rot[j - start] == x);
        } else {
            assert(rot[s.len() - start + j] == x);
        }
    }
}

/// With points at positions 10, 50 and 90 — owned by `a`, `b` and `c` — a
/// key hashing to 30 resolves to the point at 50, so to `b`, and a key
/// hashing to 95 lies past every point and wraps around to the point at 10,
/// so to `a`.
pub proof fn lemma_successor_examples(a: Seq<char>, b: Seq<char>, c: Seq<char>)
    ensures
        ({
            let s = seq![(10u32, a), (50u32, b), (90u32, c)];
            &&& s[successor_position(s, 30)].1 == b
            &&& s[successor_position(s, 95)].1 == a
        }),
{
    let s = seq![(10u32, a), (50u32, b), (90u32, c)];
    let s1 = s.skip(1);
    let s2 = s1.skip(1);
    let s3 = s2.skip(1);
    assert(s1 =~= seq![(50u32, b), (90u32, c)]);
    assert(s2 =~= seq![(90u32, c)]);
    assert(s3 =~= Seq::<(u32, Seq<char>)>::empty());
    assert(first_gt(s1, 30) == 0);
    assert(first_gt(s, 30) == 1);
    assert(first_gt(s3, 95) == 0);
    assert(first_gt(s2, 95) == 1);
    assert(first_gt(s1, 95) == 2);
    assert(first_gt(s, 95) == 3);
}

} // verus!
