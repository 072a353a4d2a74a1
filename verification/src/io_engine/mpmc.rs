//! A bounded queue that gives back what it was given, in order. It neither
//! blocks nor drops: where it is full, it says so.

use vstd::prelude::*;

verus! {

/// The number is a power of two.
pub open spec fn is_pow2(n: int) -> bool
    decreases n,
{
    n == 1 || (n > 1 && n % 2 == 0 && is_pow2(n / 2))
}

/// `r` is the smallest power of two that is no smaller than `n`.
pub open spec fn is_next_pow2(n: int, r: int) -> bool {
    &&& is_pow2(r)
    &&& n <= r
    &&& r == 1 || r < 2 * n
}

/// The smallest power of two that is no smaller than a number.
pub fn next_pow2(n: usize) -> (r: usize)
    requires
        n <= usize::MAX / 2 + 1,
    ensures
        is_next_pow2(n as int, r as int),
{
    let mut r: usize = 1;
    while r < n
        invariant
            n <= usize::MAX / 2 + 1,
            is_pow2(r as int),
            r >= 1,
            r == 1 || r < 2 * n,
        decreases 2 * n - r,
    {
        assert(usize::MAX % 2 == 1) by {
            lemma_usize_odd();
        }
        assert(is_pow2(2 * r)) by {
            assert((2 * r) / 2 == r);
        }
        proof {
            lemma_pow2_below(r as int, n as int);
        }
        r = r * 2;
    }
    r
}

proof fn lemma_usize_odd()
    ensures
        usize::MAX % 2 == 1,
{
    assert(usize::MAX == 0xffff_ffff || usize::MAX == 0xffff_ffff_ffff_ffff);
}

/// A power of two below the highest bit can be doubled.
proof fn lemma_pow2_below(r: int, n: int)
    requires
        r < n,
        n <= usize::MAX / 2 + 1,
    ensures
        2 * r <= usize::MAX,
{
    lemma_usize_odd();
}

/// A bounded queue.
#[derive(Debug)]
pub struct MpmcQueue<T> {
    /// The places; those in use hold something.
    pub slots: Vec<Option<T>>,
    /// The place of the oldest item.
    pub head: usize,
    /// How many items there are.
    pub count: usize,
}

impl<T> MpmcQueue<T> {
    /// The place of the item `i` after the oldest.
    pub open spec fn place(&self, i: int) -> int {
        if self.head + i < self.slots@.len() {
            self.head + i
        } else {
            self.head + i - self.slots@.len()
        }
    }

    /// The items, the oldest first.
    pub open spec fn view(&self) -> Seq<T> {
        Seq::new(self.count as nat, |i: int| self.slots@[self.place(i)]->0)
    }

    /// How many items there can be.
    pub open spec fn bound(&self) -> int {
        self.slots@.len() as int
    }

    /// Exactly the places from the oldest item on are in use.
    pub open spec fn wf(&self) -> bool {
        &&& is_pow2(self.slots@.len() as int)
        &&& self.head < self.slots@.len()
        &&& self.count <= self.slots@.len()
        &&& forall|i: int|
            0 <= i < self.count ==> (#[trigger] self.slots@[self.place(i)]) is Some
        &&& forall|i: int|
            self.count <= i < self.slots@.len() ==> (#[trigger] self.slots@[self.place(i)]) is None
    }

    /// An empty queue with room for at least `capacity_hint` items.
    #[must_use]
    pub fn with_capacity_hint(capacity_hint: usize) -> (r: Self)
        requires
            0 < capacity_hint <= usize::MAX / 2 + 1,
        ensures
            r.wf(),
            r@ == Seq::<T>::empty(),
            is_next_pow2(capacity_hint as int, r.bound()),
    {
        let capacity = next_pow2(capacity_hint);
        let mut slots: Vec<Option<T>> = Vec::new();
        let mut i: usize = 0;
        while i < capacity
            invariant
                i <= capacity,
                slots@.len() == i,
                forall|j: int| 0 <= j < i ==> (#[trigger] slots@[j]) is None,
            decreases capacity - i,
        {
            slots.push(None);
            i = i + 1;
        }
        let q = MpmcQueue { slots, head: 0, count: 0 };
        assert(q@ =~= Seq::<T>::empty());
        q
    }

    /// How many items there can be.
    pub fn capacity(&self) -> (r: usize)
        ensures
            r == self.bound(),
    {
        self.slots.len()
    }

    /// Adds an item; `false` if the queue is full.
    pub fn push(&mut self, value: T) -> (ok: bool)
        requires
            old(self).wf(),
        ensures
            final(self).wf(),
            final(self).bound() == old(self).bound(),
            ok == (old(self)@.len() < old(self).bound()),
            final(self)@ == (if ok {
                old(self)@.push(value)
            } else {
                old(self)@
            }),
    {
        let capacity = self.slots.len();
        if self.count == capacity {
            return false;
        }
        let left: usize = capacity - self.head;
        let at: usize = if self.count < left {
            self.head + self.count
        } else {
            self.count - left
        };
        let ghost before = *self;
        assert(at == before.place(before.count as int));
        self.slots.set(at, Some(value));
        self.count = self.count + 1;
        proof {
            assert forall|i: int| 0 <= i < self.count implies (
            #[trigger] self.slots@[self.place(i)]) is Some by {
                assert(self.place(i) == before.place(i));
                if i < before.count {
                    assert(before.slots@[before.place(i)] is Some);
                }
            }
            assert forall|i: int| self.count <= i < self.slots@.len() implies (
            #[trigger] self.slots@[self.place(i)]) is None by {
                assert(self.place(i) == before.place(i));
                assert(before.slots@[before.place(i)] is None);
            }
            assert(self@ =~= before@.push(value));
        }
        true
    }

    /// Takes the oldest item; `None` if there is none.
    pub fn pop(&mut self) -> (r: Option<T>)
        requires
            old(self).wf(),
        ensures
            final(self).wf(),
            final(self).bound() == old(self).bound(),
            old(self)@.len() == 0 ==> r is None && final(self)@ == old(self)@,
            old(self)@.len() > 0 ==> r == Some(old(self)@[0]) && final(self)@
                == old(self)@.drop_first(),
    {
        if self.count == 0 {
            return None;
        }
        let ghost before = *self;
        assert(before.slots@[before.place(0)] is Some);
        let head = self.head;
        let mut value: Option<T> = None;
        std::mem::swap(&mut self.slots[head], &mut value);
        self.head = if head == self.slots.len() - 1 {
            0
        } else {
            head + 1
        };
        self.count = self.count - 1;
        proof {
            let n = self.slots@.len() as int;
            assert forall|i: int| 0 <= i < self.count implies (
            #[trigger] self.slots@[self.place(i)]) is Some by {
                assert(self.place(i) == before.place(i + 1));
                assert(before.slots@[before.place(i + 1)] is Some);
            }
            assert forall|i: int| self.count <= i < n implies (
            #[trigger] self.slots@[self.place(i)]) is None by {
                if i + 1 < n {
                    assert(self.place(i) == before.place(i + 1));
                    assert(before.slots@[before.place(i + 1)] is None);
                } else {
                    assert(self.place(i) == head);
                }
            }
            assert forall|i: int| 0 <= i < self.count implies self@[i] == before@[i + 1] by {
                assert(self.place(i) == before.place(i + 1));
            }
            assert(self@ =~= before@.drop_first());
        }
        value
    }

    /// How many items there are.
    pub fn len(&self) -> (r: usize)
        ensures
            r == self@.len(),
    {
        self.count
    }

    /// Whether there are no items.
    #[must_use]
    pub fn is_empty(&self) -> (r: bool)
        ensures
            r == (self@.len() == 0),
    {
        self.count == 0
    }
}

/// What is added to a queue with room comes out after all that was there.
pub proof fn first_in_first_out<T>(items: Seq<T>, value: T)
    requires
        items.len() > 0,
    ensures
        items.push(value)[0] == items[0],
        items.push(value).drop_first() == items.drop_first().push(value),
{
    assert(items.push(value).drop_first() =~= items.drop_first().push(value));
}

/// A queue has the smallest capacity that is a power of two and holds what was
/// asked for.
pub proof fn capacity_is_the_next_power(n: int, r: int, other: int)
    requires
        n >= 1,
        is_next_pow2(n, r),
        is_pow2(other),
        n <= other,
    ensures
        is_pow2(r),
        n <= r <= other,
{
    if other < r {
        lemma_powers_apart(other, r);
    }
}

/// Powers of two are 1 and what doubling makes of them.
pub proof fn powers_double(n: int)
    requires
        n >= 1,
    ensures
        is_pow2(1),
        is_pow2(2 * n) == is_pow2(n),
        !is_pow2(2 * n + 1),
{
    assert((2 * n) / 2 == n && (2 * n) % 2 == 0);
}

/// A power of two is at most half of a greater one.
proof fn lemma_powers_apart(a: int, b: int)
    requires
        is_pow2(a),
        is_pow2(b),
        a < b,
    ensures
        2 * a <= b,
    decreases a,
{
    if a > 1 {
        lemma_powers_apart(a / 2, b / 2);
    }
}

} // verus!
