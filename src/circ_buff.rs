//! A fixed-capacity ring buffer that overwrites its oldest item when full.
use vstd::prelude::*;

verus! {

/// The queue after pushing `x` onto `q` in a buffer of `n` slots: one slot
/// stays empty, so a queue of `n - 1` items loses its oldest.
pub open spec fn pushed<T>(q: Seq<T>, x: T, n: nat) -> Seq<T> {
    if q.len() + 1 < n {
        q.push(x)
    } else {
        q.push(x).drop_first()
    }
}

/// The queue after pushing the items of `xs` onto `q`, in order.
pub open spec fn pushed_all<T>(q: Seq<T>, xs: Seq<T>, n: nat) -> Seq<T>
    decreases xs.len(),
{
    if xs.len() == 0 {
        q
    } else {
        pushed(pushed_all(q, xs.drop_last(), n), xs.last(), n)
    }
}

/// A ring of `N` slots holding at most `N - 1` items, oldest first from
/// `read_ptr`; `write_ptr` is the next free slot.
pub struct CircBuff<T, const N: usize> {
    buffer: [T; N],
    write_ptr: usize,
    read_ptr: usize,
}

impl<T, const N: usize> CircBuff<T, N> {
    /// Index in `buffer` of the `k`-th oldest item.
    pub closed spec fn slot(&self, k: int) -> int {
        if self.read_ptr + k < N {
            self.read_ptr + k
        } else {
            self.read_ptr + k - N
        }
    }

    /// Number of items held.
    pub closed spec fn len_spec(&self) -> nat {
        if self.write_ptr >= self.read_ptr {
            (self.write_ptr - self.read_ptr) as nat
        } else {
            (N - self.read_ptr + self.write_ptr) as nat
        }
    }

    /// The cursors lie inside the ring.
    pub closed spec fn wf(&self) -> bool {
        &&& N > 0
        &&& self.write_ptr < N
        &&& self.read_ptr < N
    }
}

impl<T, const N: usize> View for CircBuff<T, N> {
    type V = Seq<T>;

    /// The items held, oldest first.
    closed spec fn view(&self) -> Seq<T> {
        Seq::new(self.len_spec(), |k: int| self.buffer@[self.slot(k)])
    }
}

/// A well-formed buffer holds at most `N - 1` items.
pub proof fn lemma_capacity<T, const N: usize>(b: &CircBuff<T, N>)
    requires
        b.wf(),
    ensures
        b@.len() <= N - 1,
{
}

/// Pushing `xs` onto a queue that fits in the buffer keeps the newest
/// `N - 1` items of the queue followed by `xs`, in order.
pub proof fn lemma_pushed_all<T>(q: Seq<T>, xs: Seq<T>, n: nat)
    requires
        n > 0,
        q.len() <= n - 1,
    ensures
        q.len() + xs.len() <= n - 1 ==> pushed_all(q, xs, n) == q + xs,
        q.len() + xs.len() > n - 1 ==> pushed_all(q, xs, n) == (q + xs).skip(
            q.len() + xs.len() - (n - 1),
        ),
    decreases xs.len(),
{
    if xs.len() == 0 {
        assert(q + xs =~= q);
    } else {
        let ys = xs.drop_last();
        lemma_pushed_all(q, ys, n);
        let p = pushed_all(q, ys, n);
        assert(q + xs =~= (q + ys).push(xs.last()));
        if q.len() + ys.len() > n - 1 {
            let d = q.len() + ys.len() - (n - 1);
            assert((q + xs).skip(d + 1) =~= (q + ys).skip(d).push(xs.last()).drop_first());
        } else if q.len() + xs.len() > n - 1 {
            assert((q + xs).skip(1) =~= (q + ys).push(xs.last()).drop_first());
        }
    }
}

/// Filling an empty buffer of `N` slots with `N` items loses the first one:
/// what remains are the others, in order.
pub proof fn lemma_overwrite_oldest<T>(xs: Seq<T>, n: nat)
    requires
        n > 0,
        xs.len() == n,
    ensures
        pushed_all(Seq::empty(), xs, n) == xs.skip(1),
        pushed_all(Seq::empty(), xs, n).len() == n - 1,
{
    lemma_pushed_all(Seq::empty(), xs, n);
    assert(Seq::<T>::empty() + xs =~= xs);
}

impl<T: Copy + Default, const N: usize> CircBuff<T, N> {
    pub fn new() -> (r: Self)
        requires
            N > 0,
        ensures
            r.wf(),
            r@ == Seq::<T>::empty(),
    {
        let r = Self { buffer: [T::default(); N], write_ptr: 0, read_ptr: 0 };
        assert(r@ =~= Seq::<T>::empty());
        r
    }

    /// Appends `item`; when the buffer is full the oldest item is dropped.
    pub fn push(&mut self, item: T)
        requires
            old(self).wf(),
        ensures
            final(self).wf(),
            final(self)@ == pushed(old(self)@, item, N as nat),
    {
        let ghost q = self@;
        self.buffer[self.write_ptr] = item;
        self.write_ptr = if self.write_ptr + 1 == N {
            0
        } else {
            self.write_ptr + 1
        };
        if self.write_ptr == self.read_ptr {
            self.read_ptr = if self.read_ptr + 1 == N {
                0
            } else {
                self.read_ptr + 1
            };
        }
        assert(self@ =~= pushed(q, item, N as nat));
    }

    /// Removes and returns the oldest item, or `None` when empty.
    pub fn pop(&mut self) -> (r: Option<T>)
        requires
            old(self).wf(),
        ensures
            final(self).wf(),
            old(self)@.len() == 0 ==> r is None && final(self)@ == old(self)@,
            old(self)@.len() > 0 ==> r == Some(old(self)@[0]) && final(self)@ == old(
                self,
            )@.drop_first(),
    {
        if self.read_ptr == self.write_ptr {
            None
        } else {
            let ghost q = self@;
            let item = self.buffer[self.read_ptr];
            self.read_ptr = if self.read_ptr + 1 == N {
                0
            } else {
                self.read_ptr + 1
            };
            assert(self@ =~= q.drop_first());
            Some(item)
        }
    }

    /// Moves the `n` oldest items into `buf[..n]` and returns `Some(n)`; with
    /// fewer than `n` items held it returns `None` and changes nothing.
    pub fn read_exact(&mut self, n: usize, buf: &mut [T]) -> (r: Option<usize>)
        requires
            old(self).wf(),
            old(self)@.len() < n || n <= old(buf)@.len(),
        ensures
            final(self).wf(),
            old(self)@.len() < n ==> r is None && final(self)@ == old(self)@ && final(buf)@ == old(
                buf,
            )@,
            old(self)@.len() >= n ==> r == Some(n) && final(self)@ == old(self)@.skip(n as int)
                && final(buf)@ == old(self)@.take(n as int) + old(buf)@.skip(n as int),
    {
        if self.size() < n {
            return None;
        }
        let ghost q = self@;
        let ghost b0 = buf@;
        let mut i: usize = 0;
        while i < n
            invariant
                self.wf(),
                i <= n,
                n <= q.len(),
                n <= b0.len(),
                self@ == q.skip(i as int),
                buf@.len() == b0.len(),
                forall|j: int| 0 <= j < i ==> buf@[j] == q[j],
                forall|j: int| n <= j < b0.len() ==> buf@[j] == b0[j],
            decreases n - i,
        {
            let item = self.pop();
            assert(q.skip(i as int).drop_first() =~= q.skip(i + 1));
            match item {
                Some(x) => {
                    buf[i] = x;
                },
                None => {},
            }
            i = i + 1;
        }
        assert(buf@ =~= q.take(n as int) + b0.skip(n as int));
        Some(n)
    }

    /// Number of items held.
    pub fn size(&self) -> (r: usize)
        requires
            self.wf(),
        ensures
            r == self@.len(),
            r <= N - 1,
    {
        if self.write_ptr >= self.read_ptr {
            self.write_ptr - self.read_ptr
        } else {
            N - self.read_ptr + self.write_ptr
        }
    }

    /// Number of items that can be pushed before the oldest is overwritten.
    pub fn remaining(&self) -> (r: usize)
        requires
            self.wf(),
        ensures
            r == N - 1 - self@.len(),
            r + self@.len() == N - 1,
    {
        N - self.size() - 1
    }
}

} // verus!
