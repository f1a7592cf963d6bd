//! A contiguous growable array with the indexing and mutating operations of
//! a Ruby `Array`.
//!
//! The slicing operations never fail: a range that reaches past the end is
//! cut to the end, and a range that starts past the end is empty. The
//! setting operations never fail either: a position past the end is reached
//! by filling the gap with default values.

use vstd::pervasive::cloned;
use vstd::prelude::*;
use vstd::slice::slice_subrange;

verus! {

/// A contiguous growable array.
#[derive(Debug, Clone, Hash, PartialEq, Eq, PartialOrd, Ord)]
pub struct Array<T>(Vec<T>);

impl<T> View for Array<T> {
    type V = Seq<T>;

    closed spec fn view(&self) -> Seq<T> {
        self.0@
    }
}

/// The smaller of two numbers.
pub open spec fn min(a: int, b: int) -> int {
    if a <= b {
        a
    } else {
        b
    }
}

/// The larger of two numbers.
pub open spec fn max(a: int, b: int) -> int {
    if a >= b {
        a
    } else {
        b
    }
}

/// Whether `x` is a value that `T::default()` may return.
pub open spec fn is_default<T: Default>(x: T) -> bool {
    call_ensures(T::default, (), x)
}

/// Whether `copy` holds a clone of each element of `source`, in order.
pub open spec fn clones_of<T: Clone>(source: Seq<T>, copy: Seq<T>) -> bool {
    &&& copy.len() == source.len()
    &&& forall|i: int| 0 <= i < source.len() ==> cloned(source[i], #[trigger] copy[i])
}

/// The position of element `i` in copy number `round` of a sequence of
/// `len` elements that is repeated.
pub open spec fn slot(round: int, len: int, i: int) -> int {
    round * len + i
}

/// How many elements a removal of up to `drain` elements at `index` takes
/// out of an array of `len` elements.
pub open spec fn drained(len: int, index: int, drain: int) -> int {
    if index < len {
        min(len - index, drain)
    } else {
        0
    }
}

/// Whether `after` is `before` with the `out` elements at `index` replaced
/// by `count` other elements, where a gap between the end of `before` and
/// `index` is filled with default values. What the `count` elements are is
/// for the caller of this predicate to say.
pub open spec fn replaced<T: Default>(
    before: Seq<T>,
    index: int,
    out: int,
    count: int,
    after: Seq<T>,
) -> bool {
    &&& after.len() == max(index, before.len() as int) - out + count
    &&& forall|i: int| 0 <= i < min(index, before.len() as int) ==> #[trigger] after[i] == before[i]
    &&& forall|i: int| before.len() <= i < index ==> is_default(#[trigger] after[i])
    &&& forall|i: int|
        index + out <= i < before.len() ==> #[trigger] before[i] == after[i - out + count]
}

impl<T> Array<T> {
    /// An empty array.
    pub fn new() -> (ary: Self)
        ensures
            ary@ == Seq::<T>::empty(),
    {
        Array(Vec::new())
    }

    /// An empty array with room for `capacity` elements.
    pub fn with_capacity(capacity: usize) -> (ary: Self)
        ensures
            ary@ == Seq::<T>::empty(),
    {
        Array(Vec::with_capacity(capacity))
    }

    /// The array of the two given elements.
    pub fn assoc(first: T, second: T) -> (ary: Self)
        ensures
            ary@ == seq![first, second],
    {
        let mut inner = Vec::with_capacity(2);
        inner.push(first);
        inner.push(second);
        proof {
            assert(inner@ =~= seq![first, second]);
        }
        Array(inner)
    }

    /// An iterator over the elements, from the first to the last.
    pub fn iter(&self) -> (iter: core::slice::Iter<'_, T>)
        ensures
            vstd::std_specs::iter::IteratorSpec::remaining(&iter) == self@.as_ref(),
    {
        self.0.as_slice().iter()
    }

    /// The elements as a slice.
    pub fn as_slice(&self) -> (slice: &[T])
        ensures
            slice@ == self@,
    {
        self.0.as_slice()
    }

    /// The elements as a slice through which they can be changed.
    pub fn as_mut_slice(&mut self) -> (slice: &mut [T])
        ensures
            slice@ == old(self)@,
            final(slice)@ == final(self)@,
    {
        self.0.as_mut_slice()
    }

    /// The vector that holds the elements.
    pub fn into_inner(self) -> (inner: Vec<T>)
        ensures
            inner@ == self@,
    {
        self.0
    }

    /// The elements as a vector.
    pub fn into_vec(self) -> (inner: Vec<T>)
        ensures
            inner@ == self@,
    {
        self.0
    }

    /// The elements as a boxed slice, without spare capacity.
    pub fn into_boxed_slice(self) -> (boxed: Box<[T]>)
        ensures
            boxed@ == self@,
    {
        crate::vecs::into_boxed_slice(self.0)
    }

    /// The number of elements that the array can hold without allocating
    /// again; never less than its length.
    pub fn capacity(&self) -> (capacity: usize)
        ensures
            capacity >= self@.len(),
    {
        crate::vecs::capacity(&self.0)
    }

    /// Makes room for `additional` more elements. The elements stay as
    /// they are.
    pub fn reserve(&mut self, additional: usize)
        requires
            old(self)@.len() + additional <= usize::MAX,
        ensures
            final(self)@ == old(self)@,
    {
        self.0.reserve(additional);
    }

    /// Gives up spare capacity. The elements stay as they are.
    pub fn shrink_to_fit(&mut self)
        ensures
            final(self)@ == old(self)@,
    {
        crate::vecs::shrink_to_fit(&mut self.0);
    }

    /// Removes all elements.
    pub fn clear(&mut self)
        ensures
            final(self)@ == Seq::<T>::empty(),
    {
        self.0.clear();
    }

    /// The number of elements.
    pub fn len(&self) -> (len: usize)
        ensures
            len == self@.len(),
    {
        self.0.len()
    }

    /// Whether the array has no elements.
    pub fn is_empty(&self) -> (empty: bool)
        ensures
            empty <==> self@.len() == 0,
    {
        self.0.len() == 0
    }

    /// The element at `index`, or `None` if `index` is past the end.
    pub fn get(&self, index: usize) -> (elem: Option<&T>)
        ensures
            index < self@.len() ==> elem == Some(&self@[index as int]),
            index >= self@.len() ==> elem is None,
    {
        if index < self.0.len() {
            Some(&self.0[index])
        } else {
            None
        }
    }

    /// Removes and returns the element at `index`, and moves the elements
    /// behind it one place down; `None`, and no change, if `index` is past
    /// the end.
    pub fn delete_at(&mut self, index: usize) -> (elem: Option<T>)
        ensures
            index < old(self)@.len() ==> elem == Some(old(self)@[index as int]) && final(self)@
                == old(self)@.remove(index as int),
            index >= old(self)@.len() ==> elem is None && final(self)@ == old(self)@,
    {
        if index < self.0.len() {
            Some(self.0.remove(index))
        } else {
            None
        }
    }

    /// The first element, or `None` if the array is empty.
    pub fn first(&self) -> (elem: Option<&T>)
        ensures
            self@.len() > 0 ==> elem == Some(&self@[0]),
            self@.len() == 0 ==> elem is None,
    {
        self.get(0)
    }

    /// The first `n` elements, or all of them if there are fewer.
    pub fn first_n(&self, n: usize) -> (slice: &[T])
        ensures
            slice@ == self@.subrange(0, min(n as int, self@.len() as int)),
    {
        self.take_n(n)
    }

    /// The last element, or `None` if the array is empty.
    pub fn last(&self) -> (elem: Option<&T>)
        ensures
            self@.len() > 0 ==> elem == Some(&self@[self@.len() - 1]),
            self@.len() == 0 ==> elem is None,
    {
        let len = self.0.len();
        if len > 0 {
            Some(&self.0[len - 1])
        } else {
            None
        }
    }

    /// The last `n` elements, or all of them if there are fewer.
    pub fn last_n(&self, n: usize) -> (slice: &[T])
        ensures
            slice@ == self@.subrange(
                self@.len() - min(n as int, self@.len() as int),
                self@.len() as int,
            ),
    {
        let len = self.0.len();
        let begin = if n <= len {
            len - n
        } else {
            0
        };
        slice_subrange(self.0.as_slice(), begin, len)
    }

    /// The array without all but its first `n` elements; the whole array if
    /// it has no more than `n`.
    pub fn take_n(&self, n: usize) -> (slice: &[T])
        ensures
            slice@ == self@.subrange(0, min(n as int, self@.len() as int)),
    {
        let len = self.0.len();
        let end = if n <= len {
            n
        } else {
            len
        };
        slice_subrange(self.0.as_slice(), 0, end)
    }

    /// The array without its first `n` elements; empty if it has no more
    /// than `n`.
    pub fn drop_n(&self, n: usize) -> (slice: &[T])
        ensures
            slice@ == self@.subrange(min(n as int, self@.len() as int), self@.len() as int),
    {
        let len = self.0.len();
        let begin = if n <= len {
            n
        } else {
            len
        };
        slice_subrange(self.0.as_slice(), begin, len)
    }

    /// Removes and returns the last element, or `None` if the array is
    /// empty.
    pub fn pop(&mut self) -> (elem: Option<T>)
        ensures
            old(self)@.len() > 0 ==> elem == Some(old(self)@.last()) && final(self)@ == old(
                self,
            )@.drop_last(),
            old(self)@.len() == 0 ==> elem is None && final(self)@ == old(self)@,
    {
        self.0.pop()
    }

    /// Removes the last `n` elements, or all of them if there are fewer,
    /// and returns them in their order.
    pub fn pop_n(&mut self, n: usize) -> (popped: Self)
        ensures
            popped@ == old(self)@.subrange(
                old(self)@.len() - min(n as int, old(self)@.len() as int),
                old(self)@.len() as int,
            ),
            final(self)@ == old(self)@.subrange(
                0,
                old(self)@.len() - min(n as int, old(self)@.len() as int),
            ),
    {
        let len = self.0.len();
        let split_at = if n <= len {
            len - n
        } else {
            0
        };
        let popped = self.0.split_off(split_at);
        Array(popped)
    }

    /// Appends `elem`.
    pub fn push(&mut self, elem: T)
        requires
            old(self)@.len() < usize::MAX,
        ensures
            final(self)@ == old(self)@.push(elem),
    {
        self.0.push(elem);
    }

    /// Puts the elements in the opposite order.
    pub fn reverse(&mut self)
        ensures
            final(self)@ == old(self)@.reverse(),
    {
        let ghost before = self.0@;
        let mut turned: Vec<T> = Vec::new();
        while self.0.len() > 0
            invariant
                self.0@.len() + turned@.len() == before.len(),
                self.0@ == before.subrange(0, self.0@.len() as int),
                forall|i: int|
                    0 <= i < turned@.len() ==> #[trigger] turned@[i] == before[before.len() - 1 - i],
            decreases self.0@.len(),
        {
            let ghost rest = self.0@;
            let last = self.0.pop();
            match last {
                Some(elem) => {
                    turned.push(elem);
                },
                None => {},
            }
            proof {
                assert(self.0@ =~= before.subrange(0, self.0@.len() as int));
            }
        }
        self.0 = turned;
        proof {
            assert(self.0@ =~= before.reverse());
        }
    }

    /// Removes and returns the first element, and moves the others one
    /// place down; `None` if the array is empty.
    pub fn shift(&mut self) -> (elem: Option<T>)
        ensures
            old(self)@.len() > 0 ==> elem == Some(old(self)@[0]) && final(self)@ == old(
                self,
            )@.remove(0),
            old(self)@.len() == 0 ==> elem is None && final(self)@ == old(self)@,
    {
        if self.0.len() == 0 {
            None
        } else {
            Some(self.0.remove(0))
        }
    }

    /// Removes the first `n` elements, or all of them if there are fewer,
    /// and returns them in their order.
    pub fn shift_n(&mut self, n: usize) -> (shifted: Self)
        ensures
            shifted@ == old(self)@.subrange(0, min(n as int, old(self)@.len() as int)),
            final(self)@ == old(self)@.subrange(
                min(n as int, old(self)@.len() as int),
                old(self)@.len() as int,
            ),
    {
        let len = self.0.len();
        let split_at = if n <= len {
            n
        } else {
            len
        };
        let mut rest = self.0.split_off(split_at);
        std::mem::swap(&mut self.0, &mut rest);
        Array(rest)
    }

    /// Inserts `elem` in front of the other elements.
    pub fn unshift(&mut self, elem: T)
        requires
            old(self)@.len() < usize::MAX,
        ensures
            final(self)@ == seq![elem] + old(self)@,
    {
        self.0.insert(0, elem);
        proof {
            assert(self.0@ =~= seq![elem] + old(self).0@);
        }
    }

    /// The `len` elements from position `start` on, cut to the end of the
    /// array; empty if `start` is past the end.
    pub fn slice(&self, start: usize, len: usize) -> (slice: &[T])
        ensures
            start <= self@.len() ==> slice@ == self@.subrange(
                start as int,
                min(start + len, self@.len() as int),
            ),
            start > self@.len() ==> slice@ == Seq::<T>::empty(),
    {
        let buflen = self.0.len();
        if start > buflen {
            let empty = slice_subrange(self.0.as_slice(), 0, 0);
            proof {
                assert(empty@ =~= Seq::<T>::empty());
            }
            return empty;
        }
        let end = if len <= buflen - start {
            start + len
        } else {
            buflen
        };
        slice_subrange(self.0.as_slice(), start, end)
    }
}

impl<T: Clone> Array<T> {
    /// The array of `len` clones of `default`.
    pub fn with_len_and_default(len: usize, default: T) -> (ary: Self)
        ensures
            ary@.len() == len,
            forall|i: int| 0 <= i < len ==> cloned(default, #[trigger] ary@[i]),
    {
        Array(vec![default; len])
    }

    /// Appends a clone of each element of `other`.
    pub fn concat(&mut self, other: &[T])
        requires
            old(self)@.len() + other@.len() <= usize::MAX,
        ensures
            final(self)@.len() == old(self)@.len() + other@.len(),
            final(self)@.subrange(0, old(self)@.len() as int) == old(self)@,
            clones_of(other@, final(self)@.subrange(old(self)@.len() as int, final(self)@.len() as int)),
    {
        self.0.extend_from_slice(other);
        proof {
            assert(self.0@.subrange(0, old(self).0@.len() as int) =~= old(self).0@);
        }
    }

    /// Puts a clone of each element of `other` in front of the elements of
    /// the array.
    pub fn unshift_n(&mut self, other: &[T])
        requires
            old(self)@.len() + other@.len() <= usize::MAX,
        ensures
            final(self)@.len() == other@.len() + old(self)@.len(),
            clones_of(other@, final(self)@.subrange(0, other@.len() as int)),
            final(self)@.subrange(other@.len() as int, final(self)@.len() as int) == old(self)@,
    {
        self.0.reserve(other.len());
        let mut tail = self.0.split_off(0);
        self.0.extend_from_slice(other);
        self.0.append(&mut tail);
        proof {
            assert(tail@.len() == 0);
            assert(self.0@.subrange(other@.len() as int, self.0@.len() as int) =~= old(self).0@);
        }
    }
}

impl<T: Copy> Array<T> {
    /// The array that holds the elements of this one `n` times over, or
    /// `None` if its length would not fit a `usize`.
    pub fn repeat(&self, n: usize) -> (repeated: Option<Self>)
        ensures
            repeated is Some <==> self@.len() * n <= usize::MAX,
            repeated is Some ==> repeated->0@.len() == self@.len() * n,
            repeated is Some ==> forall|round: int, i: int|
                0 <= round < n && 0 <= i < self@.len() ==> repeated->0@[#[trigger] slot(
                    round,
                    self@.len() as int,
                    i,
                )] == self@[i],
    {
        let len = self.0.len();
        if len.checked_mul(n).is_none() {
            return None;
        }
        let mut out: Vec<T> = Vec::new();
        let mut round: usize = 0;
        while round < n
            invariant
                len == self.0@.len(),
                len * n <= usize::MAX,
                round <= n,
                out@.len() == round * len,
                forall|r: int, i: int|
                    0 <= r < round && 0 <= i < len ==> out@[#[trigger] slot(r, len as int, i)]
                        == self.0@[i],
            decreases n - round,
        {
            let mut i: usize = 0;
            while i < len
                invariant
                    len == self.0@.len(),
                    len * n <= usize::MAX,
                    round < n,
                    i <= len,
                    out@.len() == round * len + i,
                    forall|r: int, j: int|
                        0 <= r < round && 0 <= j < len ==> out@[#[trigger] slot(r, len as int, j)]
                            == self.0@[j],
                    forall|j: int|
                        0 <= j < i ==> out@[#[trigger] slot(round as int, len as int, j)]
                            == self.0@[j],
                decreases len - i,
            {
                proof {
                    assert(round * len + len <= n * len) by (nonlinear_arith)
                        requires
                            round < n,
                    ;
                    assert forall|r: int, j: int| 0 <= r < round && 0 <= j < len implies 0
                        <= #[trigger] slot(r, len as int, j) < round * len by {
                        assert(r * len + len <= round * len && 0 <= r * len) by (nonlinear_arith)
                            requires
                                0 <= r < round,
                                0 <= len,
                        ;
                    }
                    assert(0 <= round * len) by (nonlinear_arith)
                        requires
                            0 <= round,
                            0 <= len,
                    ;
                }
                out.push(self.0[i]);
                i = i + 1;
            }
            proof {
                assert((round + 1) * len == round * len + len) by (nonlinear_arith);
            }
            round = round + 1;
        }
        proof {
            assert(n * len == len * n) by (nonlinear_arith);
        }
        Some(Array(out))
    }
}

impl<T: Default> Array<T> {
    /// Appends default values until the array has `len` elements; does
    /// nothing if it has that many.
    fn pad(&mut self, len: usize)
        ensures
            final(self)@.len() == max(len as int, old(self)@.len() as int),
            forall|i: int| 0 <= i < old(self)@.len() ==> #[trigger] final(self)@[i] == old(self)@[i],
            forall|i: int| old(self)@.len() <= i < len ==> is_default(#[trigger] final(self)@[i]),
    {
        while self.0.len() < len
            invariant
                old(self).0@.len() <= self.0@.len(),
                self.0@.len() <= max(len as int, old(self).0@.len() as int),
                forall|i: int| 0 <= i < old(self).0@.len() ==> #[trigger] self.0@[i] == old(self).0@[i],
                forall|i: int|
                    old(self).0@.len() <= i < self.0@.len() ==> is_default(#[trigger] self.0@[i]),
            decreases len - self.0@.len(),
        {
            self.0.push(T::default());
        }
    }

    /// Removes the elements from position `from` up to position `to`.
    fn cut(&mut self, from: usize, to: usize)
        requires
            from <= to <= old(self)@.len(),
        ensures
            final(self)@ == old(self)@.subrange(0, from as int) + old(self)@.subrange(
                to as int,
                old(self)@.len() as int,
            ),
    {
        let mut tail = self.0.split_off(to);
        self.0.truncate(from);
        self.0.append(&mut tail);
        proof {
            assert(old(self).0@.subrange(0, to as int).subrange(0, from as int) =~= old(
                self,
            ).0@.subrange(0, from as int));
        }
    }

    /// Puts `elem` at position `index`. If `index` is past the end, the
    /// gap between the end and `index` is filled with default values.
    pub fn set(&mut self, index: usize, elem: T)
        requires
            index < usize::MAX,
        ensures
            replaced(
                old(self)@,
                index as int,
                drained(old(self)@.len() as int, index as int, 1),
                1,
                final(self)@,
            ),
            final(self)@[index as int] == elem,
    {
        if index < self.0.len() {
            self.0[index] = elem;
        } else {
            self.pad(index);
            self.0.push(elem);
        }
    }

    /// Puts `elem` at position `start` in place of the `drain` elements
    /// that follow, or of as many as there are. If `start` is past the end,
    /// the gap between the end and `start` is filled with default values.
    /// Returns how many elements were taken out.
    pub fn set_with_drain(&mut self, start: usize, drain: usize, elem: T) -> (out: usize)
        requires
            max(start as int, old(self)@.len() as int) < usize::MAX,
        ensures
            out == drained(old(self)@.len() as int, start as int, drain as int),
            replaced(old(self)@, start as int, out as int, 1, final(self)@),
            final(self)@[start as int] == elem,
    {
        let buflen = self.0.len();
        if start < buflen {
            let out = if drain <= buflen - start {
                drain
            } else {
                buflen - start
            };
            if drain == 0 {
                self.0.insert(start, elem);
            } else {
                self.0[start] = elem;
                self.cut(start + 1, start + out);
            }
            out
        } else {
            self.pad(start);
            self.0.push(elem);
            0
        }
    }
}

impl<T: Default + Clone> Array<T> {
    /// Inserts a clone of each element of `values` at position `index`. If
    /// `index` is past the end, the gap between the end and `index` is
    /// filled with default values.
    pub fn insert_slice(&mut self, index: usize, values: &[T])
        requires
            max(index as int, old(self)@.len() as int) + values@.len() <= usize::MAX,
        ensures
            replaced(old(self)@, index as int, 0, values@.len() as int, final(self)@),
            clones_of(
                values@,
                final(self)@.subrange(index as int, index + values@.len()),
            ),
    {
        let _ = self.set_slice(index, 0, values);
    }

    /// Puts a clone of each element of `values` at position `index` in
    /// place of the `drain` elements that follow, or of as many as there
    /// are. If `index` is past the end, the gap between the end and `index`
    /// is filled with default values. Returns how many elements were taken
    /// out.
    pub fn set_slice(&mut self, index: usize, drain: usize, values: &[T]) -> (out: usize)
        requires
            max(index as int, old(self)@.len() as int) - drained(
                old(self)@.len() as int,
                index as int,
                drain as int,
            ) + values@.len() <= usize::MAX,
        ensures
            out == drained(old(self)@.len() as int, index as int, drain as int),
            replaced(old(self)@, index as int, out as int, values@.len() as int, final(self)@),
            clones_of(
                values@,
                final(self)@.subrange(index as int, index + values@.len()),
            ),
    {
        let buflen = self.0.len();
        if index < buflen {
            let out = if drain <= buflen - index {
                drain
            } else {
                buflen - index
            };
            let mut tail = self.0.split_off(index + out);
            self.0.truncate(index);
            self.0.extend_from_slice(values);
            self.0.append(&mut tail);
            proof {
                let after = self.0@;
                let part = after.subrange(index as int, index + values@.len());
                assert forall|i: int| 0 <= i < values@.len() implies cloned(
                    values@[i],
                    #[trigger] part[i],
                ) by {
                    assert(part[i] == after[index + i]);
                }
            }
            out
        } else {
            self.pad(index);
            let ghost padded = self.0@;
            self.0.extend_from_slice(values);
            proof {
                let after = self.0@;
                let part = after.subrange(index as int, index + values@.len());
                assert forall|i: int| 0 <= i < values@.len() implies cloned(
                    values@[i],
                    #[trigger] part[i],
                ) by {
                    assert(part[i] == after[index + i]);
                }
            }
            0
        }
    }
}

impl<T> Default for Array<T> {
    fn default() -> (ary: Self)
        ensures
            ary@ == Seq::<T>::empty(),
    {
        Array(Vec::new())
    }
}

impl<T> From<Vec<T>> for Array<T> {
    fn from(values: Vec<T>) -> (ary: Self) {
        Array(values)
    }
}

impl<T> vstd::std_specs::convert::FromSpecImpl<Vec<T>> for Array<T> {
    open spec fn obeys_from_spec() -> bool {
        true
    }

    open spec fn from_spec(values: Vec<T>) -> Self {
        array_of(values)
    }
}

/// The array that holds the elements of `values`.
pub closed spec fn array_of<T>(values: Vec<T>) -> Array<T> {
    Array(values)
}

/// An array made from a vector has the vector's elements.
pub proof fn lemma_array_of_view<T>(values: Vec<T>)
    ensures
        array_of(values)@ == values@,
{
}

} // verus!
