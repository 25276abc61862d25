//! The consistent-hashing ring.
//!
//! A ring owns a set of member names; each member is placed on the circular
//! 32-bit hash space through `replicas_num` virtual points.  Keys are routed
//! to the member owning their successor point, wrapping around at the top of
//! the space.
//!
//! Collision policy: an `add` whose virtual points would land on an occupied
//! position — or on each other — is rejected as a no-op, so every position
//! is owned by exactly one point and `remove` is an exact inverse of `add`.
//!
//! Concurrency: readers borrow the ring shared (`&self`) and writers borrow
//! it exclusively (`&mut self`), so no reader can ever observe a torn write.

use vstd::prelude::*;
use vstd::seq_lib::*;
use vstd::string::StrSliceExecFns;
use vstd::string::StringExecFns;

use crate::hashing::checksum;
use crate::hashing::crc32_of;
use crate::hashing::decimal_digits;
use crate::hashing::decimal_string;
use crate::hashing::replica_hash;
use crate::order::distinct_in_order;
use crate::order::first_gt;
use crate::order::hash_in;
use crate::order::lemma_first_gt_bounds;
use crate::order::lemma_first_gt_unique;
use crate::order::lemma_distinct_in_order;
use crate::order::lemma_distinct_in_order_first;
use crate::order::lemma_distinct_in_order_len;
use crate::order::lemma_distinct_in_order_prefix;
use crate::order::lemma_hash_in_insert;
use crate::order::lemma_owned_count_insert;
use crate::order::lemma_owned_count_zero;
use crate::order::lemma_rotate_contains;
use crate::order::lemma_sorted_insert;
use crate::order::lemma_without_owner_count;
use crate::order::lemma_without_owner_insert_owned;
use crate::order::lemma_without_owner_len;
use crate::order::lemma_without_owner_noop;
use crate::order::lemma_without_owner_props;
use crate::order::owned_count;
use crate::order::sorted_by_hash;
use crate::order::sorted_insert;
use crate::order::successor_position;
use crate::order::without_owner;

verus! {

/// One virtual point: its position on the hash circle and the name of the
/// node it belongs to.
#[derive(Debug)]
struct Point {
    hash: u32,
    owner: String,
}

/// A consistent-hashing ring: member names placed on the circular 32-bit
/// hash space, `replicas_num` virtual points each.
#[derive(Debug)]
pub struct Consistant {
    pub replicas_num: usize,
    points: Vec<Point>,
    members: Vec<String>,
}

/// The mathematical shadow of a point vector: position/owner pairs.
spec fn model_of(v: Seq<Point>) -> Seq<(u32, Seq<char>)> {
    Seq::new(v.len(), |i: int| (v[i].hash, v[i].owner@))
}

/// The views of a vector of names.
pub open spec fn views_of(v: Seq<String>) -> Seq<Seq<char>> {
    Seq::new(v.len(), |i: int| v[i]@)
}

/// The owner names of a point sequence, in ring order.
pub open spec fn owners_of(s: Seq<(u32, Seq<char>)>) -> Seq<Seq<char>> {
    Seq::new(s.len(), |i: int| s[i].1)
}

/// All virtual points of `name` with replica index below `r`, merged one
/// after the other into `s` at their sorted positions.
pub open spec fn place_replicas(s: Seq<(u32, Seq<char>)>, name: Seq<char>, r: nat) -> Seq<
    (u32, Seq<char>),
>
    decreases r,
{
    if r == 0 {
        s
    } else {
        sorted_insert(
            place_replicas(s, name, (r - 1) as nat),
            (replica_hash(name, (r - 1) as nat), name),
        )
    }
}

/// One of the first `i` points of `name` would land on an occupied position.
pub open spec fn occupied_below(s: Seq<(u32, Seq<char>)>, name: Seq<char>, i: int) -> bool {
    exists|j: nat| j < i && #[trigger] hash_in(s, replica_hash(name, j))
}

/// Two of the first `b_limit` points of `name` land on the same position.
pub open spec fn self_collision_below(name: Seq<char>, b_limit: int) -> bool {
    exists|a: nat, b: nat|
        #![trigger replica_hash(name, a), replica_hash(name, b)]
        a < b < b_limit && replica_hash(name, a) == replica_hash(name, b)
}

/// One of the first `a_limit` points of `name` lands where point `b` does.
pub open spec fn self_collision_row(name: Seq<char>, b: nat, a_limit: int) -> bool {
    exists|a: nat| a < a_limit && #[trigger] replica_hash(name, a) == replica_hash(name, b)
}

/// Whether placing `name`'s points on `s` would land on an occupied
/// position, or two of its own replicas would land on the same one.
pub open spec fn collides(s: Seq<(u32, Seq<char>)>, name: Seq<char>, r: int) -> bool {
    occupied_below(s, name, r) || self_collision_below(name, r)
}

proof fn lemma_occupied_step(s: Seq<(u32, Seq<char>)>, name: Seq<char>, i: nat)
    ensures
        occupied_below(s, name, i as int + 1) == (occupied_below(s, name, i as int) || hash_in(
            s,
            replica_hash(name, i),
        )),
{
    if occupied_below(s, name, i as int + 1) {
        let j = choose|j: nat| j < i + 1 && #[trigger] hash_in(s, replica_hash(name, j));
        if j < i {
            assert(occupied_below(s, name, i as int));
        } else {
            assert(j == i);
        }
    }
    if occupied_below(s, name, i as int) {
        let j = choose|j: nat| j < i && #[trigger] hash_in(s, replica_hash(name, j));
        assert(j < i + 1);
        assert(occupied_below(s, name, i as int + 1));
    }
    if hash_in(s, replica_hash(name, i)) {
        assert(i < i + 1);
        assert(occupied_below(s, name, i as int + 1));
    }
}

proof fn lemma_row_step(name: Seq<char>, b: nat, j: nat)
    ensures
        self_collision_row(name, b, j as int + 1) == (self_collision_row(name, b, j as int)
            || replica_hash(name, j) == replica_hash(name, b)),
{
    if self_collision_row(name, b, j as int + 1) {
        let a = choose|a: nat| a < j + 1 && #[trigger] replica_hash(name, a) == replica_hash(name, b);
        if a < j {
            assert(self_collision_row(name, b, j as int));
        } else {
            assert(a == j);
        }
    }
    if self_collision_row(name, b, j as int) {
        let a = choose|a: nat| a < j && #[trigger] replica_hash(name, a) == replica_hash(name, b);
        assert(a < j + 1);
        assert(self_collision_row(name, b, j as int + 1));
    }
    if replica_hash(name, j) == replica_hash(name, b) {
        assert(j < j + 1);
        assert(self_collision_row(name, b, j as int + 1));
    }
}

proof fn lemma_collision_step(name: Seq<char>, i: nat)
    ensures
        self_collision_below(name, i as int + 1) == (self_collision_below(name, i as int)
            || self_collision_row(name, i, i as int)),
{
    if self_collision_below(name, i as int + 1) {
        let (a, b) = choose|a: nat, b: nat|
            #![trigger replica_hash(name, a), replica_hash(name, b)]
            a < b < i + 1 && replica_hash(name, a) == replica_hash(name, b);
        if b < i {
            assert(self_collision_below(name, i as int));
        } else {
            assert(b == i);
            assert(self_collision_row(name, i, i as int));
        }
    }
    if self_collision_below(name, i as int) {
        let (a, b) = choose|a: nat, b: nat|
            #![trigger replica_hash(name, a), replica_hash(name, b)]
            a < b < i && replica_hash(name, a) == replica_hash(name, b);
        assert(b < i + 1);
        assert(self_collision_below(name, i as int + 1));
    }
    if self_collision_row(name, i, i as int) {
        let a = choose|a: nat| a < i && #[trigger] replica_hash(name, a) == replica_hash(name, i);
        assert(a < i < i + 1);
        assert(self_collision_below(name, i as int + 1));
    }
}

proof fn lemma_model_insert(v: Seq<Point>, k: int, p: Point)
    requires
        0 <= k <= v.len(),
    ensures
        model_of(v.insert(k, p)) == model_of(v).insert(k, (p.hash, p.owner@)),
{
    v.insert_ensures(k, p);
    model_of(v).insert_ensures(k, (p.hash, p.owner@));
    let lhs = model_of(v.insert(k, p));
    let rhs = model_of(v).insert(k, (p.hash, p.owner@));
    assert forall|t: int| 0 <= t < lhs.len() implies lhs[t] == rhs[t] by {
        if t < k {
        } else if t == k {
        } else {
            assert(v.insert(k, p)[(t - 1) + 1] == v[t - 1]);
            assert(rhs[(t - 1) + 1] == model_of(v)[t - 1]);
        }
    }
    assert(lhs =~= rhs);
}

proof fn lemma_model_remove(v: Seq<Point>, k: int)
    requires
        0 <= k < v.len(),
    ensures
        model_of(v.remove(k)) == model_of(v).remove(k),
{
    v.remove_ensures(k);
    model_of(v).remove_ensures(k);
    let lhs = model_of(v.remove(k));
    let rhs = model_of(v).remove(k);
    assert forall|t: int| 0 <= t < lhs.len() implies lhs[t] == rhs[t] by {
        if t < k {
        } else {
            assert(v.remove(k)[t] == v[t + 1]);
            assert(rhs[t] == model_of(v)[t + 1]);
        }
    }
    assert(lhs =~= rhs);
}

proof fn lemma_views_push(v: Seq<String>, s: String)
    ensures
        views_of(v.push(s)) == views_of(v).push(s@),
{
    assert(views_of(v.push(s)) =~= views_of(v).push(s@));
}

proof fn lemma_views_remove(v: Seq<String>, k: int)
    requires
        0 <= k < v.len(),
    ensures
        views_of(v.remove(k)) == views_of(v).remove(k),
{
    v.remove_ensures(k);
    views_of(v).remove_ensures(k);
    let lhs = views_of(v.remove(k));
    let rhs = views_of(v).remove(k);
    assert forall|t: int| 0 <= t < lhs.len() implies lhs[t] == rhs[t] by {
        if t < k {
        } else {
            assert(v.remove(k)[t] == v[t + 1]);
            assert(rhs[t] == views_of(v)[t + 1]);
        }
    }
    assert(lhs =~= rhs);
}

impl Consistant {
    /// The ring's points as position/owner pairs, sorted by position.
    pub closed spec fn points_model(self) -> Seq<(u32, Seq<char>)> {
        model_of(self.points@)
    }

    /// The registered member names, in registration order.
    pub closed spec fn member_seq(self) -> Seq<Seq<char>> {
        views_of(self.members@)
    }

    /// The number of virtual points each member is placed with.
    pub closed spec fn spec_replicas(self) -> int {
        self.replicas_num as int
    }

    pub open spec fn is_member(self, name: Seq<char>) -> bool {
        self.member_seq().contains(name)
    }

    /// The ring's invariant: points sorted strictly by position, members
    /// distinct, every point owned by a member, every member owning exactly
    /// `replicas_num` points.
    pub open spec fn wf(self) -> bool {
        &&& self.spec_replicas() >= 1
        &&& sorted_by_hash(self.points_model())
        &&& self.member_seq().no_duplicates()
        &&& forall|k: int|
            0 <= k < self.points_model().len() ==> self.member_seq().contains(
                #[trigger] self.points_model()[k].1,
            )
        &&& forall|k: int|
            0 <= k < self.member_seq().len() ==> #[trigger] owned_count(
                self.points_model(),
                self.member_seq()[k],
            ) == self.spec_replicas()
        &&& self.points_model().len() == self.member_seq().len() * self.spec_replicas()
    }

    /// Two rings carry the same state.
    pub open spec fn same_ring(self, other: Consistant) -> bool {
        &&& self.spec_replicas() == other.spec_replicas()
        &&& self.points_model() == other.points_model()
        &&& self.member_seq() == other.member_seq()
    }
}

/// What one `add` call does: a no-op when the name is registered already or
/// its points would collide; otherwise the name is registered and all its
/// points are placed.
pub open spec fn add_step(pre: Consistant, name: Seq<char>, post: Consistant) -> bool {
    &&& post.spec_replicas() == pre.spec_replicas()
    &&& if pre.is_member(name) || collides(pre.points_model(), name, pre.spec_replicas()) {
        post.same_ring(pre)
    } else {
        &&& post.member_seq() == pre.member_seq().push(name)
        &&& post.points_model() == place_replicas(
            pre.points_model(),
            name,
            pre.spec_replicas() as nat,
        )
    }
}

/// What one `remove` call does: a no-op for a stranger; otherwise the name
/// is deregistered and every point it owns disappears, the rest keeping
/// their order.
pub open spec fn remove_step(pre: Consistant, name: Seq<char>, post: Consistant) -> bool {
    &&& post.spec_replicas() == pre.spec_replicas()
    &&& if !pre.is_member(name) {
        post.same_ring(pre)
    } else {
        &&& post.member_seq() == pre.member_seq().remove(pre.member_seq().index_of(name))
        &&& post.points_model() == without_owner(pre.points_model(), name)
    }
}

impl Consistant {
    /// A fresh, empty ring with `replicas_num` virtual points per member.
    /// Zero replicas would make every member unroutable, so the count must
    /// be positive.
    pub fn new(replicas_num: usize) -> (r: Consistant)
        requires
            replicas_num >= 1,
        ensures
            r.wf(),
            r.spec_replicas() == replicas_num,
            r.points_model() == Seq::<(u32, Seq<char>)>::empty(),
            r.member_seq() == Seq::<Seq<char>>::empty(),
    {
        let r = Consistant { replicas_num, points: Vec::new(), members: Vec::new() };
        proof {
            assert(r.points_model() =~= Seq::<(u32, Seq<char>)>::empty());
            assert(r.member_seq() =~= Seq::<Seq<char>>::empty());
            assert(0int == 0int * (replicas_num as int)) by (nonlinear_arith);
        }
        r
    }

    /// The number of registered members (not of virtual points).
    pub fn count(&self) -> (c: usize)
        ensures
            c == self.member_seq().len(),
    {
        self.members.len()
    }

    /// The total number of virtual points on the ring.
    pub fn point_count(&self) -> (c: usize)
        ensures
            c == self.points_model().len(),
    {
        self.points.len()
    }

    /// Exact, case-sensitive membership test.
    pub fn contains(&self, name: &str) -> (b: bool)
        ensures
            b == self.is_member(name@),
    {
        let owned: String = name.to_owned();
        let mut k: usize = 0;
        while k < self.members.len()
            invariant
                k <= self.members.len(),
                owned@ == name@,
                forall|t: int| 0 <= t < k ==> #[trigger] self.member_seq()[t] != name@,
            decreases self.members.len() - k,
        {
            if self.members[k] == owned {
                proof {
                    assert(self.member_seq()[k as int] == name@);
                }
                return true;
            }
            k += 1;
        }
        proof {
            if self.is_member(name@) {
                let t = choose|t: int|
                    0 <= t < self.member_seq().len() && self.member_seq()[t] == name@;
                assert(self.member_seq()[t] != name@);
            }
        }
        false
    }

    /// The text hashed for virtual point `i` of `element`: the name with the
    /// decimal replica index appended.
    pub fn generate_element_name(element: &str, i: usize) -> (r: String)
        ensures
            r@ == element@ + decimal_digits(i as nat),
    {
        let mut s: String = element.to_owned();
        let d = decimal_string(i);
        s.append(d.as_str());
        s
    }

    /// Whether some point sits at position `h`.
    fn hash_present(&self, h: u32) -> (b: bool)
        ensures
            b == hash_in(self.points_model(), h),
    {
        let mut k: usize = 0;
        while k < self.points.len()
            invariant
                k <= self.points.len(),
                forall|t: int| 0 <= t < k ==> (#[trigger] self.points_model()[t]).0 != h,
            decreases self.points.len() - k,
        {
            if self.points[k].hash == h {
                proof {
                    assert(self.points_model()[k as int].0 == h);
                }
                return true;
            }
            k += 1;
        }
        proof {
            if hash_in(self.points_model(), h) {
                let t = choose|t: int|
                    0 <= t < self.points_model().len() && self.points_model()[t].0 == h;
                assert(self.points_model()[t].0 != h);
            }
        }
        false
    }

    /// The index at which a point at position `h` belongs: the index of the
    /// first point strictly past `h`, or the length when there is none.
    fn find_insert_pos(&self, h: u32) -> (pos: usize)
        ensures
            pos as int == first_gt(self.points_model(), h),
            pos <= self.points@.len(),
    {
        let mut k: usize = 0;
        while k < self.points.len()
            invariant
                k <= self.points.len(),
                forall|t: int| 0 <= t < k ==> (#[trigger] self.points_model()[t]).0 <= h,
            decreases self.points.len() - k,
        {
            if self.points[k].hash > h {
                proof {
                    assert(self.points_model()[k as int].0 > h);
                    lemma_first_gt_unique(self.points_model(), h, k as int);
                }
                return k;
            }
            k += 1;
        }
        proof {
            lemma_first_gt_unique(self.points_model(), h, self.points_model().len() as int);
        }
        k
    }

    /// The index of the point owning hash `sum`: its successor on the
    /// circle, wrapping to the first point when `sum` is at or past the
    /// last one.
    pub fn get_key_index(&self, sum: u32) -> (idx: usize)
        ensures
            idx as int == successor_position(self.points_model(), sum),
    {
        let pos: usize = self.find_insert_pos(sum);
        if pos >= self.points.len() {
            0
        } else {
            pos
        }
    }

    /// The name of the node owning the point at position `i`.
    pub fn get_i_from_circle(&self, i: u32) -> (r: String)
        requires
            self.wf(),
            hash_in(self.points_model(), i),
        ensures
            forall|k: int|
                0 <= k < self.points_model().len() && (#[trigger] self.points_model()[k]).0 == i
                    ==> r@ == self.points_model()[k].1,
    {
        let mut k: usize = 0;
        while k < self.points.len()
            invariant
                self.wf(),
                k <= self.points.len(),
                forall|t: int| 0 <= t < k ==> (#[trigger] self.points_model()[t]).0 != i,
            decreases self.points.len() - k,
        {
            if self.points[k].hash == i {
                let r = self.points[k].owner.clone();
                proof {
                    assert(self.points_model()[k as int].0 == i);
                    assert(r@ == self.points_model()[k as int].1);
                    assert forall|t: int|
                        0 <= t < self.points_model().len() && (#[trigger] self.points_model()[t]).0
                            == i implies r@ == self.points_model()[t].1 by {
                        if t != k {
                            assert(self.points_model()[t].0 != self.points_model()[k as int].0);
                        }
                    }
                }
                return r;
            }
            k += 1;
        }
        proof {
            let t = choose|t: int|
                0 <= t < self.points_model().len() && self.points_model()[t].0 == i;
            assert(self.points_model()[t].0 != i);
        }
        vstd::pervasive::unreached()
    }
}

impl Consistant {
    /// Registers `element` and places its `replicas_num` virtual points.
    /// A second add of the same name is a no-op, as is an add whose points
    /// would land on occupied positions (see the collision policy above).
    pub fn add(&mut self, element: &str)
        requires
            old(self).wf(),
        ensures
            final(self).wf(),
            add_step(*old(self), element@, *final(self)),
    {
        if self.contains(element) {
            return;
        }
        let r: usize = self.replicas_num;
        // the positions of every virtual point of `element`
        let mut hs: Vec<u32> = Vec::new();
        let mut i: usize = 0;
        while i < r
            invariant
                i <= r,
                hs@.len() == i,
                forall|j: int| 0 <= j < i ==> hs@[j] == replica_hash(element@, j as nat),
            decreases r - i,
        {
            let name_i = Self::generate_element_name(element, i);
            let h: u32 = checksum(name_i.as_str());
            hs.push(h);
            i += 1;
        }
        // would any of them land on an occupied position?
        let mut occupied = false;
        i = 0;
        while i < r
            invariant
                i <= r,
                hs@.len() == r,
                forall|j: int| 0 <= j < r ==> hs@[j] == replica_hash(element@, j as nat),
                occupied == occupied_below(self.points_model(), element@, i as int),
            decreases r - i,
        {
            if self.hash_present(hs[i]) {
                occupied = true;
            }
            proof {
                lemma_occupied_step(self.points_model(), element@, i as nat);
            }
            i += 1;
        }
        // would two of them land on the same position?
        let mut dup = false;
        i = 0;
        while i < r
            invariant
                i <= r,
                hs@.len() == r,
                forall|j: int| 0 <= j < r ==> hs@[j] == replica_hash(element@, j as nat),
                dup == self_collision_below(element@, i as int),
            decreases r - i,
        {
            let mut j: usize = 0;
            while j < i
                invariant
                    j <= i < r,
                    hs@.len() == r,
                    forall|t: int| 0 <= t < r ==> hs@[t] == replica_hash(element@, t as nat),
                    dup == (self_collision_below(element@, i as int) || self_collision_row(
                        element@,
                        i as nat,
                        j as int,
                    )),
                decreases i - j,
            {
                if hs[j] == hs[i] {
                    dup = true;
                }
                proof {
                    lemma_row_step(element@, i as nat, j as nat);
                }
                j += 1;
            }
            proof {
                lemma_collision_step(element@, i as nat);
            }
            i += 1;
        }
        if occupied || dup {
            return;
        }
        // every position is fresh: place the points one by one
        let ghost pre = *self;
        proof {
            assert(place_replicas(pre.points_model(), element@, 0nat) == pre.points_model());
            assert(owned_count(pre.points_model(), element@) == 0) by {
                lemma_owned_count_zero(pre.points_model(), element@);
                assert forall|k: int| 0 <= k < pre.points_model().len() implies pre.points_model()[k].1
                    != element@ by {
                    if pre.points_model()[k].1 == element@ {
                        assert(pre.member_seq().contains(pre.points_model()[k].1));
                    }
                }
            }
        }
        i = 0;
        while i < r
            invariant
                i <= r,
                r == self.replicas_num,
                self.replicas_num == pre.replicas_num,
                self.members@ == pre.members@,
                pre.wf(),
                r == pre.spec_replicas(),
                !pre.is_member(element@),
                !collides(pre.points_model(), element@, r as int),
                hs@.len() == r,
                forall|j: int| 0 <= j < r ==> hs@[j] == replica_hash(element@, j as nat),
                self.points_model() == place_replicas(pre.points_model(), element@, i as nat),
                sorted_by_hash(self.points_model()),
                self.points_model().len() == pre.points_model().len() + i,
                owned_count(self.points_model(), element@) == i,
                forall|m: Seq<char>|
                    m != element@ ==> #[trigger] owned_count(self.points_model(), m) == owned_count(
                        pre.points_model(),
                        m,
                    ),
                forall|t: int|
                    0 <= t < self.points_model().len() ==> ((#[trigger] self.points_model()[t]).1
                        == element@ || pre.points_model().contains(self.points_model()[t])),
                forall|h: u32|
                    #[trigger] hash_in(self.points_model(), h) ==> hash_in(pre.points_model(), h)
                        || (exists|j: nat| j < i && replica_hash(element@, j) == h),
            decreases r - i,
        {
            let h: u32 = hs[i];
            proof {
                assert(h == replica_hash(element@, i as nat));
                assert(!hash_in(self.points_model(), h)) by {
                    if hash_in(self.points_model(), h) {
                        if hash_in(pre.points_model(), h) {
                            assert((i as nat) < r && hash_in(
                                pre.points_model(),
                                replica_hash(element@, i as nat),
                            ));
                            assert(occupied_below(pre.points_model(), element@, r as int));
                        } else {
                            let j = choose|j: nat| j < i && replica_hash(element@, j) == h;
                            assert(replica_hash(element@, j) == replica_hash(element@, i as nat));
                            assert(self_collision_below(element@, r as int));
                        }
                    }
                }
                lemma_sorted_insert(self.points_model(), (h, element@));
            }
            let pos: usize = self.find_insert_pos(h);
            let ghost m0 = self.points_model();
            let ghost v0 = self.points@;
            self.points.insert(pos, Point { hash: h, owner: element.to_owned() });
            proof {
                lemma_model_insert(v0, pos as int, Point { hash: h, owner: self.points@[pos as int].owner });
            }
            i += 1;
            proof {
                assert(self.points_model() == m0.insert(pos as int, (h, element@)));
                assert(self.points_model() == sorted_insert(m0, (h, element@)));
                assert(self.points_model() == place_replicas(
                    pre.points_model(),
                    element@,
                    i as nat,
                ));
                lemma_owned_count_insert(m0, pos as int, (h, element@), element@);
                assert forall|m: Seq<char>| m != element@ implies #[trigger] owned_count(
                    self.points_model(),
                    m,
                ) == owned_count(pre.points_model(), m) by {
                    lemma_owned_count_insert(m0, pos as int, (h, element@), m);
                }
                assert forall|t: int|
                    0 <= t < self.points_model().len() implies ((#[trigger] self.points_model()[t]).1
                        == element@ || pre.points_model().contains(self.points_model()[t])) by {
                    if self.points_model()[t] != (h, element@) {
                        assert(m0.contains(self.points_model()[t]));
                        let u = choose|u: int| 0 <= u < m0.len() && m0[u] == self.points_model()[t];
                    }
                }
                assert forall|hh: u32| #[trigger] hash_in(self.points_model(), hh) implies hash_in(
                    pre.points_model(),
                    hh,
                ) || (exists|j: nat| j < i && replica_hash(element@, j) == hh) by {
                    lemma_hash_in_insert(m0, pos as int, (h, element@), hh);
                    if hash_in(m0, hh) {
                        assert(hash_in(pre.points_model(), hh) || (exists|j: nat|
                            j < i - 1 && replica_hash(element@, j) == hh));
                        if !hash_in(pre.points_model(), hh) {
                            let j = choose|j: nat| j < i - 1 && replica_hash(element@, j) == hh;
                            assert(j < i && replica_hash(element@, j) == hh);
                        }
                    } else {
                        assert(hh == h);
                        assert(((i - 1) as nat) < i && replica_hash(element@, (i - 1) as nat) == hh);
                    }
                }
            }
        }
        self.members.push(element.to_owned());
        proof {
            let pm = pre.member_seq();
            lemma_views_push(pre.members@, self.members@[pm.len() as int]);
            assert(self.member_seq() == pm.push(element@));
            assert forall|t: int| 0 <= t < pm.len() implies pm[t] != element@ by {
                if pm[t] == element@ {
                    assert(pm.contains(element@));
                }
            }
            // the member list stays duplicate-free
            assert forall|a: int, b: int|
                0 <= a < b < self.member_seq().len() implies self.member_seq()[a]
                != self.member_seq()[b] by {
                if b < pm.len() {
                } else {
                    assert(self.member_seq()[b] == element@);
                }
            }
            // every point's owner is registered
            assert forall|k: int| 0 <= k < self.points_model().len() implies self.member_seq()
                .contains(#[trigger] self.points_model()[k].1) by {
                if self.points_model()[k].1 == element@ {
                    assert(self.member_seq()[pm.len() as int] == element@);
                } else {
                    assert(pre.points_model().contains(self.points_model()[k]));
                    let u = choose|u: int|
                        0 <= u < pre.points_model().len() && pre.points_model()[u]
                            == self.points_model()[k];
                    assert(pm.contains(pre.points_model()[u].1));
                    let w = choose|w: int| 0 <= w < pm.len() && pm[w] == self.points_model()[k].1;
                    assert(self.member_seq()[w] == self.points_model()[k].1);
                }
            }
            // every member owns exactly `replicas_num` points
            assert forall|k: int| 0 <= k < self.member_seq().len() implies #[trigger] owned_count(
                self.points_model(),
                self.member_seq()[k],
            ) == self.spec_replicas() by {
                if k < pm.len() {
                    assert(self.member_seq()[k] == pm[k]);
                    assert(pm[k] != element@);
                    assert(owned_count(pre.points_model(), pm[k]) == pre.spec_replicas());
                } else {
                    assert(self.member_seq()[k] == element@);
                }
            }
            assert((pm.len() + 1) * (r as int) == pm.len() * (r as int) + r) by (nonlinear_arith);
        }
    }

    /// The index of a registered member in the member list.
    fn index_of_member(&self, name: &String) -> (mi: usize)
        requires
            self.is_member(name@),
        ensures
            mi < self.members@.len(),
            self.member_seq()[mi as int] == name@,
    {
        let mut k: usize = 0;
        while k < self.members.len()
            invariant
                k <= self.members.len(),
                self.is_member(name@),
                forall|t: int| 0 <= t < k ==> #[trigger] self.member_seq()[t] != name@,
            decreases self.members.len() - k,
        {
            if self.members[k] == *name {
                proof {
                    assert(self.member_seq()[k as int] == name@);
                }
                return k;
            }
            k += 1;
        }
        proof {
            let t = choose|t: int|
                0 <= t < self.member_seq().len() && self.member_seq()[t] == name@;
            assert(self.member_seq()[t] != name@);
        }
        vstd::pervasive::unreached()
    }

    /// Deregisters `name` and drops every virtual point it owns; removing a
    /// name that is not a member is a no-op.
    pub fn remove(&mut self, name: &str)
        requires
            old(self).wf(),
        ensures
            final(self).wf(),
            remove_step(*old(self), name@, *final(self)),
    {
        if !self.contains(name) {
            return;
        }
        let owned: String = name.to_owned();
        let mi: usize = self.index_of_member(&owned);
        let ghost pre = *self;
        proof {
            let pm = pre.member_seq();
            let ci = pm.index_of(name@);
            assert(pm[mi as int] == name@);
            assert(pm.contains(name@));
            assert(0 <= ci < pm.len() && pm[ci] == name@);
            if ci != mi {
                assert(pm[ci] != pm[mi as int]);
            }
            assert(ci == mi);
        }
        self.members.remove(mi);
        proof {
            lemma_views_remove(pre.members@, mi as int);
        }
        let ghost pre_pts = pre.points_model();
        let ghost mem_now = self.members@;
        let mut i: usize = 0;
        let ghost mut kk: int = 0;
        while i < self.points.len()
            invariant
                0 <= kk <= pre_pts.len(),
                owned@ == name@,
                self.members@ == mem_now,
                self.replicas_num == pre.replicas_num,
                self.points_model() == without_owner(pre_pts.take(kk), name@) + pre_pts.skip(kk),
                i as int == without_owner(pre_pts.take(kk), name@).len(),
            decreases pre_pts.len() - kk,
        {
            proof {
                if kk == pre_pts.len() {
                    assert(pre_pts.skip(kk) =~= Seq::<(u32, Seq<char>)>::empty());
                    assert(self.points_model().len() == i);
                }
                assert(kk < pre_pts.len());
                assert(pre_pts.skip(kk)[0] == pre_pts[kk]);
                assert(self.points_model()[i as int] == pre_pts[kk]);
                assert(pre_pts.take(kk + 1).drop_last() =~= pre_pts.take(kk));
                assert(pre_pts.take(kk + 1).last() == pre_pts[kk]);
            }
            if self.points[i].owner == owned {
                let ghost m0 = self.points_model();
                let ghost v0 = self.points@;
                proof {
                    assert(m0[i as int].1 == name@);
                }
                self.points.remove(i);
                proof {
                    lemma_model_remove(v0, i as int);
                    assert(self.points_model() == m0.remove(i as int));
                    assert(pre_pts[kk].1 == name@);
                    assert(without_owner(pre_pts.take(kk + 1), name@) == without_owner(
                        pre_pts.take(kk),
                        name@,
                    ));
                    assert(m0.remove(i as int) =~= without_owner(pre_pts.take(kk), name@)
                        + pre_pts.skip(kk + 1)) by {
                        let wo = without_owner(pre_pts.take(kk), name@);
                        m0.remove_ensures(i as int);
                        assert forall|t: int|
                            0 <= t < m0.remove(i as int).len() implies m0.remove(i as int)[t] == (wo
                            + pre_pts.skip(kk + 1))[t] by {
                            if t < i {
                            } else {
                                assert(m0.remove(i as int)[t] == m0[t + 1]);
                                assert(m0[t + 1] == pre_pts.skip(kk)[t + 1 - i]);
                                assert(pre_pts.skip(kk)[t + 1 - i] == pre_pts[kk + t + 1 - i]);
                                assert(pre_pts.skip(kk + 1)[t - i] == pre_pts[kk + 1 + t - i]);
                            }
                        }
                    }
                    kk = kk + 1;
                }
            } else {
                proof {
                    assert(pre_pts[kk].1 != name@);
                    assert(without_owner(pre_pts.take(kk + 1), name@) == without_owner(
                        pre_pts.take(kk),
                        name@,
                    ).push(pre_pts[kk]));
                    assert(without_owner(pre_pts.take(kk), name@).push(pre_pts[kk]) + pre_pts.skip(
                        kk + 1,
                    ) =~= without_owner(pre_pts.take(kk), name@) + pre_pts.skip(kk));
                    kk = kk + 1;
                }
                i += 1;
            }
        }
        proof {
            if kk < pre_pts.len() {
                assert(self.points_model().len() == i as int + pre_pts.len() - kk);
            }
            assert(kk == pre_pts.len());
            assert(pre_pts.take(kk) =~= pre_pts);
            assert(self.points_model() =~= without_owner(pre_pts, name@) + pre_pts.skip(kk));
            assert(pre_pts.skip(kk) =~= Seq::<(u32, Seq<char>)>::empty());
            assert(without_owner(pre_pts, name@) + pre_pts.skip(kk) =~= without_owner(
                pre_pts,
                name@,
            ));
            // re-establish the invariant
            let pm = pre.member_seq();
            let w = without_owner(pre_pts, name@);
            lemma_without_owner_props(pre_pts, name@);
            lemma_without_owner_len(pre_pts, name@);
            pm.remove_ensures(mi as int);
            assert(owned_count(pre_pts, pm[mi as int]) == pre.spec_replicas());
            // distinct members stay distinct
            assert forall|a: int, b: int|
                0 <= a < b < self.member_seq().len() implies self.member_seq()[a]
                != self.member_seq()[b] by {
                let a0: int = if a < mi { a } else { a + 1 };
                let b0: int = if b < mi { b } else { b + 1 };
                assert(self.member_seq()[a] == pm[a0]);
                assert(self.member_seq()[b] == pm[b0]);
            }
            // no remaining member is the removed name
            assert forall|k: int| 0 <= k < self.member_seq().len() implies self.member_seq()[k]
                != name@ by {
                let k0: int = if k < mi { k } else { k + 1 };
                assert(self.member_seq()[k] == pm[k0]);
                if pm[k0] == name@ {
                    assert(pm[k0] == pm[mi as int]);
                }
            }
            // every remaining point's owner is still registered
            assert forall|k: int| 0 <= k < self.points_model().len() implies self.member_seq()
                .contains(#[trigger] self.points_model()[k].1) by {
                assert(pre_pts.contains(w[k]));
                let u = choose|u: int| 0 <= u < pre_pts.len() && pre_pts[u] == w[k];
                assert(pm.contains(pre_pts[u].1));
                let t = choose|t: int| 0 <= t < pm.len() && pm[t] == w[k].1;
                assert(w[k].1 != name@);
                assert(t != mi);
                let t1: int = if t < mi { t } else { t - 1 };
                assert(self.member_seq()[t1] == pm[t]);
                assert(self.member_seq().contains(self.member_seq()[t1]));
            }
            // remaining members keep their point count
            assert forall|k: int| 0 <= k < self.member_seq().len() implies #[trigger] owned_count(
                self.points_model(),
                self.member_seq()[k],
            ) == self.spec_replicas() by {
                let k0: int = if k < mi { k } else { k + 1 };
                assert(self.member_seq()[k] == pm[k0]);
                lemma_without_owner_count(pre_pts, name@, pm[k0]);
                assert(owned_count(pre_pts, pm[k0]) == pre.spec_replicas());
            }
            assert((pm.len() - 1) * (pre.spec_replicas()) == pm.len() * pre.spec_replicas()
                - pre.spec_replicas()) by (nonlinear_arith);
        }
    }
}

/// The clockwise walk of distinct owner names, starting at ring index
/// `start` and wrapping around once.
pub open spec fn ring_walk(s: Seq<(u32, Seq<char>)>, start: int) -> Seq<Seq<char>> {
    distinct_in_order(owners_of(s).skip(start) + owners_of(s).take(start))
}

/// Looks a name up in a result vector by exact comparison.
fn contains_name(v: &Vec<String>, name: &String) -> (b: bool)
    ensures
        b == views_of(v@).contains(name@),
{
    let mut k: usize = 0;
    while k < v.len()
        invariant
            k <= v@.len(),
            forall|t: int| 0 <= t < k ==> #[trigger] views_of(v@)[t] != name@,
        decreases v@.len() - k,
    {
        if v[k] == *name {
            proof {
                assert(views_of(v@)[k as int] == name@);
            }
            return true;
        }
        k += 1;
    }
    proof {
        if views_of(v@).contains(name@) {
            let t = choose|t: int| 0 <= t < views_of(v@).len() && views_of(v@)[t] == name@;
            assert(views_of(v@)[t] != name@);
        }
    }
    false
}

impl Consistant {
    /// Walking the whole ring from any starting point meets every member
    /// exactly once: the walk has no duplicates, contains exactly the
    /// member names, and is as long as the member list.
    pub proof fn lemma_walk_covers_members(self, start: int)
        requires
            self.wf(),
            0 <= start <= self.points_model().len(),
        ensures
            ring_walk(self.points_model(), start).no_duplicates(),
            forall|x: Seq<char>|
                #![trigger ring_walk(self.points_model(), start).contains(x)]
                #![trigger self.member_seq().contains(x)]
                ring_walk(self.points_model(), start).contains(x) <==> self.member_seq().contains(
                    x,
                ),
            ring_walk(self.points_model(), start).len() == self.member_seq().len(),
    {
        let s = self.points_model();
        let ow = owners_of(s);
        let rot = ow.skip(start) + ow.take(start);
        lemma_rotate_contains(ow, start);
        lemma_distinct_in_order(rot);
        lemma_distinct_in_order_len(rot);
        assert forall|x: Seq<char>| #[trigger] ow.contains(x) implies self.member_seq().contains(
            x,
        ) by {
            let t = choose|t: int| 0 <= t < ow.len() && ow[t] == x;
            assert(s[t].1 == x);
        }
        assert forall|x: Seq<char>| #[trigger] self.member_seq().contains(x) implies ow.contains(
            x,
        ) by {
            let k = choose|k: int|
                0 <= k < self.member_seq().len() && self.member_seq()[k] == x;
            assert(owned_count(s, self.member_seq()[k]) == self.spec_replicas());
            lemma_owned_count_zero(s, x);
            assert(!(forall|t: int| 0 <= t < s.len() ==> s[t].1 != x));
            let t = choose|t: int| 0 <= t < s.len() && s[t].1 == x;
            assert(ow[t] == x);
        }
        assert(rot.to_set() =~= self.member_seq().to_set());
        self.member_seq().unique_seq_to_set();
    }

    /// The member owning `name`'s successor point, or nothing on an empty
    /// ring.  The result is a function of the ring state and the key alone,
    /// so repeated lookups of one key against one state agree.
    pub fn get(&self, name: &str) -> (r: Option<String>)
        requires
            self.wf(),
        ensures
            r is Some <==> self.points_model().len() > 0,
            r matches Some(owner) ==> owner@ == self.points_model()[successor_position(
                self.points_model(),
                crc32_of(name@),
            )].1,
    {
        if self.points.len() == 0 {
            return None;
        }
        let h: u32 = checksum(name);
        let key_index: usize = self.get_key_index(h);
        proof {
            lemma_first_gt_bounds(self.points_model(), h);
        }
        let key: u32 = self.points[key_index].hash;
        proof {
            assert(self.points_model()[key_index as int].0 == key);
            assert(hash_in(self.points_model(), key));
        }
        let owner = self.get_i_from_circle(key);
        Some(owner)
    }

    /// The first `n` distinct members met when walking the ring clockwise
    /// from `name`'s successor point — the key's owner first, then its
    /// fallbacks.  Capped at the member count; nothing is returned when
    /// `n` is zero or the ring is empty.
    pub fn get_n(&self, name: &str, n: usize) -> (r: Option<Vec<String>>)
        requires
            self.wf(),
        ensures
            r is Some <==> (n > 0 && self.points_model().len() > 0),
            r matches Some(v) ==> ({
                let eff: int = if self.member_seq().len() > n {
                    n as int
                } else {
                    self.member_seq().len() as int
                };
                let start = successor_position(self.points_model(), crc32_of(name@));
                &&& views_of(v@) == ring_walk(self.points_model(), start).take(eff)
                &&& v@.len() == eff
                &&& v@[0]@ == self.points_model()[start].1
            }),
    {
        if n == 0 || self.points.len() == 0 {
            return None;
        }
        let eff: usize = if self.count() > n {
            n
        } else {
            self.count()
        };
        let h: u32 = checksum(name);
        let start: usize = self.get_key_index(h);
        let ghost s = self.points_model();
        let ghost ow = owners_of(s);
        let ghost rot = ow.skip(start as int) + ow.take(start as int);
        proof {
            lemma_first_gt_bounds(s, h);
            assert((start as int) < s.len());
            self.lemma_walk_covers_members(start as int);
            assert(self.member_seq().len() > 0) by {
                if self.member_seq().len() == 0 {
                    assert(s.len() == 0 * self.spec_replicas());
                    assert(0 * self.spec_replicas() == 0) by (nonlinear_arith);
                }
            }
            assert(rot.len() == s.len());
            assert(rot.take(0) =~= Seq::<Seq<char>>::empty());
        }
        let plen: usize = self.points.len();
        let mut res: Vec<String> = Vec::new();
        let mut i: usize = 0;
        let mut idx: usize = start;
        while res.len() < eff
            invariant
                self.wf(),
                plen == s.len(),
                s == self.points_model(),
                ow == owners_of(s),
                rot == ow.skip(start as int) + ow.take(start as int),
                rot.len() == s.len(),
                s.len() > 0,
                (start as int) < s.len(),
                i <= s.len(),
                (idx as int) < s.len(),
                idx as int == (if start + i < s.len() {
                    start as int + i
                } else {
                    start as int + i - s.len()
                }),
                views_of(res@) == distinct_in_order(rot.take(i as int)),
                res@.len() <= eff,
                1 <= eff,
                eff as int == (if self.member_seq().len() > n {
                    n as int
                } else {
                    self.member_seq().len() as int
                }),
                eff as int <= distinct_in_order(rot).len(),
            decreases s.len() - i,
        {
            proof {
                if i == s.len() {
                    assert(rot.take(i as int) =~= rot);
                    assert(false);
                }
            }
            let key: u32 = self.points[idx].hash;
            proof {
                assert(s[idx as int].0 == key);
                assert(hash_in(s, key));
            }
            let element = self.get_i_from_circle(key);
            let ghost ev = element@;
            proof {
                assert(ev == s[idx as int].1);
                assert(ow[idx as int] == s[idx as int].1);
                if start + i < s.len() {
                    assert(rot[i as int] == ow.skip(start as int)[i as int]);
                } else {
                    assert(rot[i as int] == ow.take(start as int)[i as int - (s.len()
                        - start as int)]);
                }
                assert(rot[i as int] == ev);
                assert(rot.take(i as int + 1).drop_last() =~= rot.take(i as int));
                assert(rot.take(i as int + 1).last() == rot[i as int]);
            }
            let present = contains_name(&res, &element);
            let ghost rv = res@;
            if !present {
                res.push(element);
                proof {
                    assert(views_of(res@) =~= views_of(rv).push(ev));
                }
            }
            proof {
                assert(views_of(res@) == distinct_in_order(rot.take(i as int + 1)));
            }
            i += 1;
            idx = idx + 1;
            if idx >= self.points.len() {
                idx = 0;
            }
        }
        proof {
            lemma_distinct_in_order_prefix(rot, i as int);
            assert(views_of(res@).len() == eff);
            assert(views_of(res@) =~= distinct_in_order(rot).take(eff as int));
            lemma_distinct_in_order_first(rot);
            assert(rot[0] == ow.skip(start as int)[0]);
            assert(views_of(res@)[0] == distinct_in_order(rot)[0]);
            assert(res@[0]@ == s[start as int].1);
        }
        Some(res)
    }
}

proof fn lemma_without_owner_place(s: Seq<(u32, Seq<char>)>, name: Seq<char>, k: nat)
    ensures
        without_owner(place_replicas(s, name, k), name) == without_owner(s, name),
    decreases k,
{
    if k == 0 {
    } else {
        lemma_without_owner_place(s, name, (k - 1) as nat);
        let t = place_replicas(s, name, (k - 1) as nat);
        let p = (replica_hash(name, (k - 1) as nat), name);
        lemma_first_gt_bounds(t, p.0);
        lemma_without_owner_insert_owned(t, first_gt(t, p.0), p, name);
    }
}

/// Membership is idempotent: adding a name twice leaves exactly the state
/// the first add produced — the second call changes nothing.
pub proof fn lemma_add_idempotent(pre: Consistant, mid: Consistant, post: Consistant, name: Seq<char>)
    requires
        add_step(pre, name, mid),
        add_step(mid, name, post),
    ensures
        post.same_ring(mid),
{
    if pre.is_member(name) || collides(pre.points_model(), name, pre.spec_replicas()) {
    } else {
        assert(mid.member_seq()[pre.member_seq().len() as int] == name);
        assert(mid.is_member(name));
    }
}

/// Removing a freshly added name restores the previous ring exactly: the
/// same member list and the same point sequence.
pub proof fn lemma_add_remove_inverse(
    pre: Consistant,
    mid: Consistant,
    post: Consistant,
    name: Seq<char>,
)
    requires
        pre.wf(),
        !pre.is_member(name),
        add_step(pre, name, mid),
        remove_step(mid, name, post),
    ensures
        post.same_ring(pre),
{
    let r = pre.spec_replicas();
    if collides(pre.points_model(), name, r) {
    } else {
        let pm = pre.member_seq();
        assert(mid.member_seq()[pm.len() as int] == name);
        assert(mid.is_member(name));
        let ci = mid.member_seq().index_of(name);
        assert(0 <= ci < mid.member_seq().len() && mid.member_seq()[ci] == name);
        if ci < pm.len() {
            assert(pm[ci] == mid.member_seq()[ci]);
            assert(pm.contains(name));
        }
        assert(ci == pm.len());
        assert(mid.member_seq().remove(ci) =~= pm);
        assert forall|k: int| 0 <= k < pre.points_model().len() implies pre.points_model()[k].1
            != name by {
            if pre.points_model()[k].1 == name {
                assert(pre.member_seq().contains(pre.points_model()[k].1));
            }
        }
        lemma_owned_count_zero(pre.points_model(), name);
        lemma_without_owner_place(pre.points_model(), name, r as nat);
        lemma_without_owner_noop(pre.points_model(), name);
    }
}

/// The ring always carries exactly `replicas_num` virtual points for each
/// registered member.
pub proof fn lemma_point_count_scales(ring: Consistant)
    requires
        ring.wf(),
    ensures
        ring.points_model().len() == ring.member_seq().len() * ring.spec_replicas(),
{
}

impl Default for Consistant {
    /// An empty ring with the default of 20 virtual points per member.
    fn default() -> (r: Consistant)
        ensures
            r.wf(),
            r.spec_replicas() == 20,
            r.points_model() == Seq::<(u32, Seq<char>)>::empty(),
            r.member_seq() == Seq::<Seq<char>>::empty(),
    {
        Consistant::new(20)
    }
}

} // verus!
