//! A vector of fixed size that can be indexed by any signed number: the
//! index is taken modulo the size, so that -1 is the last element.

use vstd::prelude::*;

verus! {

/// The position in a vector of `size` elements that index `n` stands for.
pub open spec fn wrap(n: int, size: int) -> int {
    n % size
}

/// An index that is less than the size away from zero wraps to itself, or
/// to itself plus the size where it is negative.
pub proof fn lemma_wrap_small(n: int, size: int)
    requires
        -size < n < size,
    ensures
        wrap(n, size) == (if n >= 0 {
            n
        } else {
            n + size
        }),
        0 <= wrap(n, size) < size,
{
    if n >= 0 {
        vstd::arithmetic::div_mod::lemma_small_mod(n as nat, size as nat);
    } else {
        vstd::arithmetic::div_mod::lemma_small_mod((n + size) as nat, size as nat);
        vstd::arithmetic::div_mod::lemma_mod_add_multiples_vanish(n, size);
    }
}

/// Two different indices that are less than the size apart, and each less
/// than the size away from zero, stand for different positions.
pub proof fn lemma_wrap_distinct(j: int, k: int, size: int)
    requires
        -size < j < size,
        -size < k < size,
        j != k,
        -size < j - k < size,
    ensures
        wrap(j, size) != wrap(k, size),
{
    lemma_wrap_small(j, size);
    lemma_wrap_small(k, size);
}

/// `n` modulo `k`, never negative.
pub fn modulo(n: isize, k: usize) -> (r: usize)
    requires
        0 < k <= isize::MAX,
    ensures
        r == wrap(n as int, k as int),
        r < k,
{
    if n >= 0 {
        (n as usize) % k
    } else {
        // n is -(t + 1) for some t that is not negative.
        let t: usize = (-(n + 1)) as usize;
        proof {
            let q = -((t as int) / (k as int)) - 1;
            let r = k - 1 - (t as int) % (k as int);
            vstd::arithmetic::div_mod::lemma_fundamental_div_mod(t as int, k as int);
            assert(n as int == q * (k as int) + r) by (nonlinear_arith)
                requires
                    n as int == -(t as int) - 1,
                    q == -((t as int) / (k as int)) - 1,
                    r == k - 1 - (t as int) % (k as int),
                    t as int == (k as int) * ((t as int) / (k as int)) + (t as int) % (k as int),
            ;
            vstd::arithmetic::div_mod::lemma_fundamental_div_mod_converse(
                n as int,
                k as int,
                q,
                r,
            );
        }
        k - 1 - t % k
    }
}

/// `x` is a clone of a default value of its type.
pub open spec fn is_default_clone<T: Default + Clone>(x: T) -> bool {
    exists|d: T| call_ensures(T::default, (), d) && cloned(d, x)
}

/// A vector of fixed size, indexed modulo its size.
#[derive(Debug, Clone)]
pub struct WrappingVec<T> {
    size: usize,
    storage: Vec<T>,
}

impl<T> View for WrappingVec<T> {
    type V = Seq<T>;

    closed spec fn view(&self) -> Seq<T> {
        self.storage@
    }
}

impl<T> WrappingVec<T> {
    pub closed spec fn wf(&self) -> bool {
        self.size == self.storage@.len()
    }

    /// The element that index `idx` stands for.
    pub open spec fn spec_at(&self, idx: int) -> T {
        self@[wrap(idx, self@.len() as int)]
    }

    /// A vector of `size` elements, each a clone of the default value.
    pub fn new(size: usize) -> (w: Self) where T: Default + Clone
        ensures
            w.wf(),
            w@.len() == size,
            forall|i: int| 0 <= i < size ==> is_default_clone(#[trigger] w@[i]),
    {
        let d: T = T::default();
        let ghost d0 = d;
        let storage = vec![d; size];
        let w = WrappingVec { size, storage };
        assert forall|i: int| 0 <= i < size implies is_default_clone(#[trigger] w@[i]) by {
            assert(call_ensures(T::default, (), d0) && cloned(d0, w@[i]));
        }
        w
    }

    /// The vector that holds the elements of `other`.
    pub fn from_vec(other: Vec<T>) -> (w: Self)
        ensures
            w.wf(),
            w@ == other@,
    {
        WrappingVec { size: other.len(), storage: other }
    }

    /// The number of elements.
    pub fn len(&self) -> (n: usize)
        requires
            self.wf(),
        ensures
            n == self@.len(),
    {
        self.size
    }

    /// The element at position `idx`, without wrapping.
    pub fn get(&self, idx: usize) -> (r: Option<&T>)
        ensures
            r is Some <==> idx < self@.len(),
            r matches Some(e) ==> *e == self@[idx as int],
    {
        if idx < self.storage.len() {
            Some(&self.storage[idx])
        } else {
            None
        }
    }

    /// The element that index `idx` stands for.
    pub fn at(&self, idx: isize) -> (e: &T)
        requires
            self.wf(),
            0 < self@.len() <= isize::MAX,
        ensures
            *e == self.spec_at(idx as int),
    {
        &self.storage[modulo(idx, self.size)]
    }

    /// Puts `value` where index `idx` stands.
    pub fn set(&mut self, idx: isize, value: T)
        requires
            old(self).wf(),
            0 < old(self)@.len() <= isize::MAX,
        ensures
            final(self).wf(),
            final(self)@ == old(self)@.update(wrap(idx as int, old(self)@.len() as int), value),
    {
        let at = modulo(idx, self.size);
        self.storage[at] = value;
    }

    /// Takes the element at position `idx` out and leaves the default value
    /// in its place. `None`, and no change, beyond the end.
    pub fn take(&mut self, idx: usize) -> (r: Option<T>) where T: Default
        requires
            old(self).wf(),
        ensures
            final(self).wf(),
            r is Some <==> idx < old(self)@.len(),
            r matches Some(e) ==> e == old(self)@[idx as int] && final(self)@.len() == old(
                self,
            )@.len() && call_ensures(T::default, (), final(self)@[idx as int]) && forall|i: int|
                0 <= i < final(self)@.len() && i != idx ==> final(self)@[i] == old(self)@[i],
            r is None ==> final(self)@ == old(self)@,
    {
        if idx < self.storage.len() {
            let mut e: T = T::default();
            core::mem::swap(&mut self.storage[idx], &mut e);
            Some(e)
        } else {
            None
        }
    }
}

impl WrappingVec<isize> {
    /// A copy of the vector.
    pub fn duplicate(&self) -> (w: Self)
        requires
            self.wf(),
        ensures
            w.wf(),
            w@ == self@,
    {
        let mut storage: Vec<isize> = Vec::new();
        let mut i: usize = 0;
        while i < self.storage.len()
            invariant
                i <= self.storage@.len(),
                storage@ == self.storage@.subrange(0, i as int),
            decreases self.storage@.len() - i,
        {
            storage.push(self.storage[i]);
            assert(storage@ =~= self.storage@.subrange(0, i + 1));
            i += 1;
        }
        assert(storage@ =~= self.storage@);
        WrappingVec { size: self.size, storage }
    }
}

} // verus!
