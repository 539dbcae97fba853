use vstd::prelude::*;
use vstd::arithmetic::div_mod::{lemma_fundamental_div_mod, lemma_mod_add_multiples_vanish};

use crate::seat::Seat;

verus! {

/// What `pop` leaves and returns, given the contents from top to bottom.
pub open spec fn popped<T>(s: Seq<T>) -> (Seq<T>, Option<T>) {
    if s.len() == 0 {
        (s, None)
    } else {
        (s.drop_last(), Some(s.last()))
    }
}

/// What `steal` leaves and returns, given the contents from top to bottom.
pub open spec fn stolen<T>(s: Seq<T>) -> (Seq<T>, Option<T>) {
    if s.len() == 0 {
        (s, None)
    } else {
        (s.drop_first(), Some(s[0]))
    }
}

/// Two indices less than `m` apart land in different slots of a buffer of
/// `m` slots.
proof fn lemma_slots_distinct(t: int, j1: int, j2: int, m: int)
    requires
        0 <= t,
        0 <= j1 < j2 < m,
    ensures
        (t + j1) % m != (t + j2) % m,
        0 <= (t + j1) % m < m,
        0 <= (t + j2) % m < m,
{
    lemma_fundamental_div_mod(t + j1, m);
    lemma_fundamental_div_mod(t + j2, m);
    let q1 = (t + j1) / m;
    let q2 = (t + j2) / m;
    let r1 = (t + j1) % m;
    let r2 = (t + j2) % m;
    assert(0 <= r1 < m && 0 <= r2 < m);
    assert(r1 != r2) by (nonlinear_arith)
        requires
            t + j1 == m * q1 + r1,
            t + j2 == m * q2 + r2,
            0 <= r1 < m,
            0 <= r2 < m,
            0 <= j1 < j2 < m,
    {
        if q1 < q2 {
            assert(m * q1 + m <= m * q2);
        } else if q2 < q1 {
            assert(m * q2 + m <= m * q1);
        }
    }
}

/// Once the seat of index `t` is vacated and `top` moves past it, the seats
/// beyond the `n - 1` values that remain are all vacant.
proof fn lemma_vacant_after_claim<T>(before: Seq<Seat<T>>, after: Seq<Seat<T>>, t: int, n: int)
    requires
        before.len() == after.len(),
        after.len() >= 1,
        0 <= t,
        1 <= n <= after.len(),
        after[t % after.len() as int]@ is None,
        forall|k: int|
            0 <= k < after.len() && k != t % after.len() as int ==> #[trigger] after[k]
                == before[k],
        forall|j: int|
            n <= j < before.len() ==> (#[trigger] before[(t + j) % (before.len() as int)])@ is None,
    ensures
        forall|j: int|
            n - 1 <= j < after.len() ==> (#[trigger] after[(t + 1 + j) % (after.len() as int)])@
                is None,
{
    let len = after.len() as int;
    assert forall|j: int| n - 1 <= j < len implies (#[trigger] after[(t + 1 + j) % len])@ is None
    by {
        if j + 1 < len {
            lemma_slots_distinct(t, 0, j + 1, len);
            assert(t + 1 + j == t + (j + 1));
            assert(before[(t + (j + 1)) % len]@ is None);
        } else {
            lemma_mod_add_multiples_vanish(t, len);
            assert(t + 1 + j == len + t);
        }
    }
}

/// A work-stealing deque over a growable circular buffer.
///
/// Index `i` is live when `top <= i < bottom`; its value sits in the slot
/// `i % capacity`. The owner calls `push` and `pop`, stealers call `steal`.
pub struct LFQueue<T> {
    top: usize,
    bottom: usize,
    q: Vec<Seat<T>>,
}

impl<T> View for LFQueue<T> {
    /// The live values, from top to bottom.
    type V = Seq<T>;

    closed spec fn view(&self) -> Seq<T> {
        Seq::new(
            (self.bottom - self.top) as nat,
            |j: int| self.q@[(self.top + j) % (self.q@.len() as int)]@->Some_0,
        )
    }
}

impl<T> LFQueue<T> {
    /// The number of slots in the buffer.
    pub closed spec fn capacity_spec(&self) -> nat {
        self.q@.len()
    }

    /// The index one past the last live value.
    pub closed spec fn bottom_spec(&self) -> nat {
        self.bottom as nat
    }

    /// The index of the first live value.
    pub closed spec fn top_spec(&self) -> nat {
        self.top as nat
    }

    /// The buffer has a slot, the live range fits in it, every live index
    /// maps to an occupied seat, and every other seat is vacant.
    pub closed spec fn wf(&self) -> bool {
        &&& self.q@.len() >= 1
        &&& self.top <= self.bottom
        &&& self.bottom - self.top <= self.q@.len()
        &&& forall|j: int|
            0 <= j < self.bottom - self.top
                ==> (#[trigger] self.q@[(self.top + j) % (self.q@.len() as int)])@ is Some
        &&& forall|j: int|
            self.bottom - self.top <= j < self.q@.len()
                ==> (#[trigger] self.q@[(self.top + j) % (self.q@.len() as int)])@ is None
    }

    /// A buffer of `capacity` vacant seats.
    fn new_q(capacity: usize) -> (q: Vec<Seat<T>>)
        ensures
            q@.len() == capacity,
            forall|k: int| 0 <= k < capacity ==> (#[trigger] q@[k])@ is None,
    {
        let mut q: Vec<Seat<T>> = Vec::with_capacity(capacity);
        let mut i: usize = 0;
        while i < capacity
            invariant
                i <= capacity,
                q@.len() == i,
                forall|k: int| 0 <= k < i ==> (#[trigger] q@[k])@ is None,
            decreases capacity - i,
        {
            q.push(Seat::vacant());
            i = i + 1;
        }
        q
    }

    /// An empty deque with room for `capacity` values before it first grows.
    pub fn new(capacity: usize) -> (r: Self)
        requires
            capacity >= 1,
        ensures
            r.wf(),
            r@ == Seq::<T>::empty(),
            r.capacity_spec() == capacity,
            r.top_spec() == 0,
            r.bottom_spec() == 0,
    {
        let r = LFQueue { top: 0, bottom: 0, q: Self::new_q(capacity) };
        assert forall|j: int| 0 <= j < capacity implies (#[trigger] r.q@[(0 + j) % (capacity as int)])@
            is None by {
            if j > 0 {
                lemma_slots_distinct(0, 0, j, capacity as int);
            }
        }
        assert(r@ =~= Seq::<T>::empty());
        r
    }

    /// Moves the value out of the seat that index `idx` maps to, leaving the
    /// seat vacant and every other seat as it was.
    fn take_at(&mut self, idx: usize) -> (r: T)
        requires
            old(self).q@.len() >= 1,
            old(self).q@[idx as int % old(self).q@.len() as int]@ is Some,
        ensures
            r == old(self).q@[idx as int % old(self).q@.len() as int]@->Some_0,
            final(self).q@.len() == old(self).q@.len(),
            final(self).q@[idx as int % old(self).q@.len() as int]@ is None,
            forall|k: int|
                0 <= k < old(self).q@.len() && k != idx as int % old(self).q@.len() as int
                    ==> #[trigger] final(self).q@[k] == old(self).q@[k],
            final(self).top == old(self).top,
            final(self).bottom == old(self).bottom,
    {
        let k = idx % self.q.len();
        self.q[k].take().unwrap()
    }

    /// Moves `top` from `expected` to `new` if it still reads `expected`,
    /// and says whether it did.
    fn cas_top(&mut self, expected: usize, new: usize) -> (r: bool)
        ensures
            r == (old(self).top == expected),
            final(self).top == (if r { new } else { old(self).top }),
            final(self).bottom == old(self).bottom,
            final(self).q == old(self).q,
    {
        if self.top == expected {
            self.top = new;
            true
        } else {
            false
        }
    }

    /// Doubles the buffer, carrying each live value over to the slot its
    /// index maps to under the new capacity.
    fn grow(&mut self)
        requires
            old(self).wf(),
            old(self).q@.len() * 2 <= usize::MAX,
        ensures
            final(self).wf(),
            final(self)@ == old(self)@,
            final(self).q@.len() == 2 * old(self).q@.len(),
            final(self).top == old(self).top,
            final(self).bottom == old(self).bottom,
    {
        let ghost contents = self@;
        let len = self.q.len();
        let new_len = len * 2;
        let mut new_q = Self::new_q(new_len);
        let t = self.top;
        let b = self.bottom;
        let mut i = t;
        while i < b
            invariant
                t <= i <= b,
                b - t <= len,
                len >= 1,
                new_len == 2 * len,
                self.top == t,
                self.bottom == b,
                self.q@.len() == len,
                new_q@.len() == new_len,
                contents.len() == b - t,
                forall|j: int|
                    0 <= j < i - t ==> (#[trigger] new_q@[(t + j) % (new_len as int)])@ == Some(
                        contents[j],
                    ),
                forall|j: int|
                    i - t <= j < b - t ==> (#[trigger] self.q@[(t + j) % (len as int)])@ == Some(
                        contents[j],
                    ),
                forall|j: int|
                    i - t <= j < new_len ==> (#[trigger] new_q@[(t + j) % (new_len as int)])@ is None,
            decreases b - i,
        {
            let ghost d = i - t;
            assert(i as int == t + d);
            let v = self.take_at(i);
            assert forall|j: int| d < j < b - t implies (#[trigger] self.q@[(t + j) % (len as int)])@
                == Some(contents[j]) by {
                lemma_slots_distinct(t as int, d, j, len as int);
            }
            new_q[i % new_len] = Seat::new(v);
            assert forall|j: int| d < j < new_len implies (#[trigger] new_q@[(t + j) % (
            new_len as int)])@ is None by {
                lemma_slots_distinct(t as int, d, j, new_len as int);
            }
            assert forall|j: int| 0 <= j <= d implies (#[trigger] new_q@[(t + j) % (new_len as int)])@
                == Some(contents[j]) by {
                if j < d {
                    lemma_slots_distinct(t as int, j, d, new_len as int);
                }
            }
            i = i + 1;
        }
        self.q = new_q;
        assert(self@ =~= contents);
    }

    /// Writes `elem` into the slot that `bottom` maps to, then publishes it
    /// by moving `bottom` past it.
    fn put(&mut self, elem: T)
        requires
            old(self).wf(),
            old(self).bottom < usize::MAX,
            old(self).bottom - old(self).top < old(self).q@.len(),
        ensures
            final(self).wf(),
            final(self)@ == old(self)@.push(elem),
            final(self).q@.len() == old(self).q@.len(),
            final(self).top == old(self).top,
            final(self).bottom == old(self).bottom + 1,
    {
        let ghost contents = self@;
        let b = self.bottom;
        let len = self.q.len();
        let ghost n = b - self.top;
        assert(b as int == self.top + n);
        self.q[b % len] = Seat::new(elem);
        self.bottom = b + 1;
        assert forall|j: int| 0 <= j < n implies (#[trigger] self.q@[(self.top + j) % (len as int)])@
            == Some(contents[j]) by {
            lemma_slots_distinct(self.top as int, j, n, len as int);
        }
        assert forall|j: int| n < j < len implies (#[trigger] self.q@[(self.top + j) % (
        len as int)])@ is None by {
            lemma_slots_distinct(self.top as int, n, j, len as int);
        }
        assert(self@ =~= contents.push(elem));
    }

    /// Pushes `elem` at the bottom, doubling the buffer first when it is
    /// full. Fails, handing `elem` back and changing nothing, only when the
    /// index space is spent or the doubled capacity would not fit a `usize`.
    pub fn push(&mut self, elem: T) -> (r: Result<(), T>)
        requires
            old(self).wf(),
        ensures
            final(self).wf(),
            r is Ok <==> old(self).bottom_spec() < usize::MAX && (old(self)@.len()
                < old(self).capacity_spec() || old(self).capacity_spec() * 2 <= usize::MAX),
            r is Ok ==> {
                &&& final(self)@ == old(self)@.push(elem)
                &&& final(self).capacity_spec() == (if old(self)@.len()
                    == old(self).capacity_spec() {
                    2 * old(self).capacity_spec()
                } else {
                    old(self).capacity_spec()
                })
                &&& final(self).top_spec() == old(self).top_spec()
                &&& final(self).bottom_spec() == old(self).bottom_spec() + 1
            },
            r matches Err(e) ==> e == elem && *final(self) == *old(self),
    {
        let b = self.bottom;
        let t = self.top;
        if b == usize::MAX {
            return Err(elem);
        }
        let len = self.q.len();
        if b - t >= len {
            if len > usize::MAX / 2 {
                return Err(elem);
            }
            self.grow();
        }
        self.put(elem);
        Ok(())
    }

    /// Pushes `elem` at the bottom without ever growing the buffer. Fails,
    /// handing `elem` back and changing nothing, when the buffer is full or
    /// the index space is spent.
    pub fn try_push(&mut self, elem: T) -> (r: Result<(), T>)
        requires
            old(self).wf(),
        ensures
            final(self).wf(),
            r is Ok <==> old(self).bottom_spec() < usize::MAX && old(self)@.len()
                < old(self).capacity_spec(),
            r is Ok ==> {
                &&& final(self)@ == old(self)@.push(elem)
                &&& final(self).capacity_spec() == old(self).capacity_spec()
                &&& final(self).top_spec() == old(self).top_spec()
                &&& final(self).bottom_spec() == old(self).bottom_spec() + 1
            },
            r matches Err(e) ==> e == elem && *final(self) == *old(self),
    {
        if self.bottom == usize::MAX || self.bottom - self.top >= self.q.len() {
            return Err(elem);
        }
        self.put(elem);
        Ok(())
    }

    /// Owner's end: removes and returns the bottom value, or `None` when the
    /// deque is empty.
    ///
    /// `bottom` is first moved down speculatively. When that leaves other
    /// values above it the bottom value is the owner's alone; when it is the
    /// last one, the owner claims it by moving `top` as a stealer would.
    pub fn pop(&mut self) -> (r: Option<T>)
        requires
            old(self).wf(),
        ensures
            final(self).wf(),
            (final(self)@, r) == popped(old(self)@),
            final(self).capacity_spec() == old(self).capacity_spec(),
            old(self)@.len() == 0 ==> final(self).top_spec() == old(self).top_spec()
                && final(self).bottom_spec() == old(self).bottom_spec(),
            old(self)@.len() == 1 ==> final(self).top_spec() == old(self).top_spec() + 1
                && final(self).bottom_spec() == old(self).bottom_spec(),
            old(self)@.len() > 1 ==> final(self).top_spec() == old(self).top_spec()
                && final(self).bottom_spec() == old(self).bottom_spec() - 1,
    {
        let ghost contents = self@;
        let len = self.q.len();
        if self.bottom == 0 {
            // `top` is 0 as well: nothing to decrement past.
            assert(contents =~= Seq::<T>::empty());
            return None;
        }
        let b = self.bottom - 1;
        self.bottom = b;
        let t = self.top;
        if b < t {
            self.bottom = t;
            assert(self@ =~= contents);
            return None;
        }
        let ghost n = b - t;
        assert(b as int == t + n);
        if b > t {
            let v = self.take_at(b);
            assert forall|j: int| 0 <= j < n implies (#[trigger] self.q@[(t + j) % (len as int)])@
                == Some(contents[j]) by {
                lemma_slots_distinct(t as int, j, n, len as int);
            }
            assert forall|j: int| n < j < len implies (#[trigger] self.q@[(t + j) % (
            len as int)])@ is None by {
                lemma_slots_distinct(t as int, n, j, len as int);
            }
            assert(self@ =~= contents.drop_last());
            return Some(v);
        }
        self.bottom = t + 1;
        let ghost before = self.q@;
        if self.cas_top(t, t + 1) {
            let v = self.take_at(t);
            proof {
                lemma_vacant_after_claim(before, self.q@, t as int, 1);
            }
            assert(self@ =~= contents.drop_last());
            Some(v)
        } else {
            None
        }
    }

    /// Stealers' end: removes and returns the top value, or `None` when the
    /// deque is empty or another claim on the top value came first.
    pub fn steal(&mut self) -> (r: Option<T>)
        requires
            old(self).wf(),
        ensures
            final(self).wf(),
            (final(self)@, r) == stolen(old(self)@),
            final(self).capacity_spec() == old(self).capacity_spec(),
            final(self).bottom_spec() == old(self).bottom_spec(),
            final(self).top_spec() == (if r is Some {
                old(self).top_spec() + 1
            } else {
                old(self).top_spec()
            }),
    {
        let ghost contents = self@;
        let len = self.q.len();
        let b = self.bottom;
        let t = self.top;
        if b <= t {
            assert(contents =~= Seq::<T>::empty());
            return None;
        }
        assert(self.q@[(t + 0) % (len as int)]@ is Some);
        let ghost before = self.q@;
        if self.cas_top(t, t + 1) {
            let v = self.take_at(t);
            assert forall|j: int| 0 <= j < b - (t + 1) implies (#[trigger] self.q@[(t + 1 + j)
                % (len as int)])@ == Some(contents[j + 1]) by {
                lemma_slots_distinct(t as int, 0, j + 1, len as int);
                assert(t + 1 + j == t + (j + 1));
            }
            proof {
                lemma_vacant_after_claim(before, self.q@, t as int, (b - t) as int);
            }
            assert(self@ =~= contents.drop_first());
            Some(v)
        } else {
            None
        }
    }

    /// A well-formed deque holds the values between its two indices, and no
    /// more than its buffer has slots.
    pub proof fn lemma_len_bounds(&self)
        requires
            self.wf(),
        ensures
            self@.len() == self.bottom_spec() - self.top_spec(),
            self.top_spec() <= self.bottom_spec(),
            self@.len() <= self.capacity_spec(),
            self.capacity_spec() >= 1,
    {
    }

    /// The number of live values.
    pub fn len(&self) -> (r: usize)
        requires
            self.wf(),
        ensures
            r == self@.len(),
            r == self.bottom_spec() - self.top_spec(),
            r <= self.capacity_spec(),
    {
        self.bottom - self.top
    }

    /// Whether no value is live.
    pub fn is_empty(&self) -> (r: bool)
        requires
            self.wf(),
        ensures
            r == (self@.len() == 0),
    {
        self.bottom == self.top
    }

    /// The number of slots in the buffer.
    pub fn capacity(&self) -> (r: usize)
        ensures
            r == self.capacity_spec(),
    {
        self.q.len()
    }
}

} // verus!
