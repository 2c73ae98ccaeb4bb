use crate::cursor::{every_nth, fresh_positions, lemma_every_nth_index, Cursor};
use vstd::prelude::*;

verus! {

/// A shared, freely copied iterator over every `stride`-th element of a
/// borrowed slice. Yields `&'a A`.
pub struct Stride<'a, A> {
    data: &'a [A],
    cursor: Cursor,
}

impl<'a, A> View for Stride<'a, A> {
    type V = Seq<A>;

    /// The remaining elements, in forward order.
    open spec fn view(&self) -> Seq<A> {
        self.positions().map_values(|p: int| self.buffer()[p])
    }
}

impl<'a, A> Stride<'a, A> {
    /// Every remaining position indexes into the buffer.
    #[verifier::type_invariant]
    closed spec fn inv(self) -> bool {
        self.cursor.within(self.data@.len())
    }

    /// The remaining positions, in forward order.
    pub closed spec fn positions(self) -> Seq<int> {
        self.cursor@
    }

    /// The borrowed buffer.
    pub closed spec fn buffer(self) -> Seq<A> {
        self.data@
    }

    /// The signed distance between consecutive positions.
    pub closed spec fn stride_spec(self) -> int {
        self.cursor.stride_spec()
    }

    /// An iterator over `xs[0], xs[step], xs[2 * step], ...`.
    pub fn from_slice(xs: &'a [A], step: usize) -> (r: Stride<'a, A>)
        requires
            0 < step <= isize::MAX,
        ensures
            r.buffer() == xs@,
            r.positions() == fresh_positions(xs@.len(), step as nat),
            r.stride_spec() == step,
            r@ == every_nth(xs@, step as nat),
    {
        let cursor = Cursor::new(xs.len(), step);
        let r = Stride { data: xs, cursor };
        assert forall|k: int| 0 <= k < r@.len() implies #[trigger] r@[k] == every_nth(
            xs@,
            step as nat,
        )[k] by {
            lemma_every_nth_index(xs@.len() as int, step as int, k);
        }
        assert(r@ =~= every_nth(xs@, step as nat));
        r
    }

    /// An iterator over the inclusive position range `[begin, end]` of `xs`
    /// with the given stride. `end` must lie a whole, non-negative number of
    /// strides from `begin`.
    pub fn from_ptrs(xs: &'a [A], begin: usize, end: usize, stride: isize) -> (r: Stride<'a, A>)
        requires
            stride != 0,
            stride != isize::MIN,
            begin < xs@.len(),
            end < xs@.len(),
            (end - begin) % (stride as int) == 0,
            (end - begin) / (stride as int) >= 0,
        ensures
            r.buffer() == xs@,
            r.positions().len() == (end - begin) / (stride as int) + 1,
            forall|k: int|
                0 <= k < r.positions().len() ==> #[trigger] r.positions()[k] == begin + k * stride,
            r.stride_spec() == stride,
    {
        let cursor = Cursor::from_range(xs.len(), begin, end, stride);
        Stride { data: xs, cursor }
    }

    /// An iterator over every `step`-th remaining element of `it`, starting
    /// with its first; its stride is `it`'s stride times `step`.
    pub fn from_stride(it: Stride<'a, A>, step: usize) -> (r: Stride<'a, A>)
        requires
            step > 0,
            -isize::MAX <= it.stride_spec() * step <= isize::MAX,
        ensures
            r.buffer() == it.buffer(),
            r.positions() == every_nth(it.positions(), step as nat),
            r.stride_spec() == it.stride_spec() * step,
            r@ == every_nth(it@, step as nat),
    {
        proof {
            use_type_invariant(&it);
        }
        let cursor = it.cursor.coarsen(step);
        assert forall|k: int| 0 <= k < cursor@.len() implies 0 <= #[trigger] cursor@[k]
            < it.data@.len() by {
            lemma_every_nth_index(it.cursor@.len() as int, step as int, k);
        }
        let r = Stride { data: it.data, cursor };
        assert forall|k: int| 0 <= k < r@.len() implies #[trigger] r@[k] == every_nth(
            it@,
            step as nat,
        )[k] by {
            lemma_every_nth_index(it.cursor@.len() as int, step as int, k);
        }
        assert(r@ =~= every_nth(it@, step as nat));
        r
    }

    /// Reverses the iterator in place: swaps the two ends and negates the
    /// stride. Does nothing when it is exhausted.
    pub fn swap_ends(&mut self)
        ensures
            final(self).buffer() == old(self).buffer(),
            final(self).positions() == old(self).positions().reverse(),
            final(self)@ == old(self)@.reverse(),
            old(self)@.len() > 0 ==> final(self).stride_spec() == -old(self).stride_spec(),
    {
        proof {
            use_type_invariant(&*self);
        }
        let mut cursor = self.cursor;
        cursor.swap_ends();
        *self = Stride { data: self.data, cursor };
        assert(self@ =~= old(self)@.reverse());
    }

    /// How many elements remain; always exact.
    pub fn len(&self) -> (r: usize)
        ensures
            r == self@.len(),
    {
        self.cursor.len()
    }

    /// Whether no element remains.
    pub fn is_empty(&self) -> (r: bool)
        ensures
            r == (self@.len() == 0),
    {
        self.cursor.is_empty()
    }

    /// Lower and upper bound on the remaining elements; both are exact.
    pub fn size_hint(&self) -> (r: (usize, Option<usize>))
        ensures
            r.0 == self@.len(),
            r.1 == Some(self@.len() as usize),
    {
        let n = self.cursor.len();
        (n, Some(n))
    }

    /// Yields the first remaining element.
    pub fn next(&mut self) -> (r: Option<&'a A>)
        ensures
            final(self).buffer() == old(self).buffer(),
            old(self)@.len() == 0 ==> r == None::<&A> && final(self).positions() == old(
                self,
            ).positions(),
            old(self)@.len() > 0 ==> r == Some(&old(self)@[0]) && final(self).positions()
                == old(self).positions().drop_first(),
            final(self)@ == if old(self)@.len() == 0 {
                old(self)@
            } else {
                old(self)@.drop_first()
            },
            final(self).stride_spec() == old(self).stride_spec(),
    {
        proof {
            use_type_invariant(&*self);
        }
        let mut cursor = self.cursor;
        let p = cursor.next_pos();
        let data = self.data;
        *self = Stride { data, cursor };
        proof {
            if old(self)@.len() > 0 {
                assert(self@ =~= old(self)@.drop_first());
            }
        }
        match p {
            Some(i) => Some(&data[i]),
            None => None,
        }
    }

    /// Yields the last remaining element.
    pub fn next_back(&mut self) -> (r: Option<&'a A>)
        ensures
            final(self).buffer() == old(self).buffer(),
            old(self)@.len() == 0 ==> r == None::<&A> && final(self).positions() == old(
                self,
            ).positions(),
            old(self)@.len() > 0 ==> r == Some(&old(self)@.last()) && final(self).positions()
                == old(self).positions().drop_last(),
            final(self)@ == if old(self)@.len() == 0 {
                old(self)@
            } else {
                old(self)@.drop_last()
            },
            final(self).stride_spec() == old(self).stride_spec(),
    {
        proof {
            use_type_invariant(&*self);
        }
        let mut cursor = self.cursor;
        let p = cursor.next_back_pos();
        let data = self.data;
        *self = Stride { data, cursor };
        proof {
            if old(self)@.len() > 0 {
                assert(self@ =~= old(self)@.drop_last());
            }
        }
        match p {
            Some(i) => Some(&data[i]),
            None => None,
        }
    }

    /// The `i`-th remaining element in forward order.
    pub fn index(&self, i: usize) -> (r: &'a A)
        requires
            i < self@.len(),
        ensures
            *r == self@[i as int],
    {
        proof {
            use_type_invariant(self);
        }
        let p = self.cursor.pos(i);
        &self.data[p]
    }
}

impl<'a, A> Clone for Stride<'a, A> {
    /// Copies the cursor; the buffer stays shared.
    fn clone(&self) -> (r: Self)
        ensures
            r == *self,
    {
        proof {
            use_type_invariant(self);
        }
        Stride { data: self.data, cursor: self.cursor }
    }
}

impl<'a, A> Copy for Stride<'a, A> {

}

/// An exclusive iterator over every `stride`-th element of a mutably
/// borrowed slice. It cannot be copied; each step lends one element for
/// writing.
pub struct MutStride<'a, A> {
    /// The borrowed buffer. The fields are public so that contracts can say
    /// what the lender's slice holds once the borrow ends; methods ask for
    /// `wf`, which ties the two together.
    pub data: &'a mut [A],
    pub cursor: Cursor,
}

impl<'a, A> View for MutStride<'a, A> {
    type V = Seq<A>;

    /// The remaining elements, in forward order.
    open spec fn view(&self) -> Seq<A> {
        self.positions().map_values(|p: int| self.buffer()[p])
    }
}

impl<'a, A> MutStride<'a, A> {
    /// Every remaining position indexes into the buffer.
    pub open spec fn wf(self) -> bool {
        self.cursor.within(self.data@.len())
    }

    /// The remaining positions, in forward order.
    pub open spec fn positions(self) -> Seq<int> {
        self.cursor@
    }

    /// The current contents of the borrowed buffer.
    pub open spec fn buffer(self) -> Seq<A> {
        self.data@
    }

    /// The signed distance between consecutive positions.
    pub open spec fn stride_spec(self) -> int {
        self.cursor.stride_spec()
    }

    /// An iterator over `xs[0], xs[step], xs[2 * step], ...`, for writing.
    pub fn from_mut_slice(xs: &'a mut [A], step: usize) -> (r: MutStride<'a, A>)
        requires
            0 < step <= isize::MAX,
        ensures
            r.wf(),
            r.buffer() == old(xs)@,
            r.positions() == fresh_positions(old(xs)@.len(), step as nat),
            r.stride_spec() == step,
            r@ == every_nth(old(xs)@, step as nat),
            final(xs)@ == final(r.data)@,
    {
        let cursor = Cursor::new(xs.len(), step);
        let r = MutStride { data: xs, cursor };
        assert forall|k: int| 0 <= k < r@.len() implies #[trigger] r@[k] == every_nth(
            old(xs)@,
            step as nat,
        )[k] by {
            lemma_every_nth_index(old(xs)@.len() as int, step as int, k);
        }
        assert(r@ =~= every_nth(old(xs)@, step as nat));
        r
    }

    /// An iterator over the inclusive position range `[begin, end]` of `xs`
    /// with the given stride, for writing. `end` must lie a whole,
    /// non-negative number of strides from `begin`.
    pub fn from_ptrs(xs: &'a mut [A], begin: usize, end: usize, stride: isize) -> (r: MutStride<
        'a,
        A,
    >)
        requires
            stride != 0,
            stride != isize::MIN,
            begin < old(xs)@.len(),
            end < old(xs)@.len(),
            (end - begin) % (stride as int) == 0,
            (end - begin) / (stride as int) >= 0,
        ensures
            r.wf(),
            r.buffer() == old(xs)@,
            r.positions().len() == (end - begin) / (stride as int) + 1,
            forall|k: int|
                0 <= k < r.positions().len() ==> #[trigger] r.positions()[k] == begin + k * stride,
            r.stride_spec() == stride,
            final(xs)@ == final(r.data)@,
    {
        let cursor = Cursor::from_range(xs.len(), begin, end, stride);
        MutStride { data: xs, cursor }
    }

    /// An iterator over every `step`-th remaining element of `it`, starting
    /// with its first; its stride is `it`'s stride times `step`.
    pub fn from_mut_stride(it: MutStride<'a, A>, step: usize) -> (r: MutStride<'a, A>)
        requires
            it.wf(),
            step > 0,
            -isize::MAX <= it.stride_spec() * step <= isize::MAX,
        ensures
            r.wf(),
            r.buffer() == it.buffer(),
            r.positions() == every_nth(it.positions(), step as nat),
            r.stride_spec() == it.stride_spec() * step,
            r@ == every_nth(it@, step as nat),
            final(r.data)@ == final(it.data)@,
    {
        let cursor = it.cursor.coarsen(step);
        let ghost old_view = it@;
        let ghost n = it.cursor@.len();
        assert forall|k: int| 0 <= k < cursor@.len() implies 0 <= #[trigger] cursor@[k]
            < it.data@.len() by {
            lemma_every_nth_index(n as int, step as int, k);
        }
        let r = MutStride { data: it.data, cursor };
        assert forall|k: int| 0 <= k < r@.len() implies #[trigger] r@[k] == every_nth(
            old_view,
            step as nat,
        )[k] by {
            lemma_every_nth_index(n as int, step as int, k);
        }
        assert(r@ =~= every_nth(old_view, step as nat));
        r
    }

    /// Reverses the iterator in place: swaps the two ends and negates the
    /// stride. Does nothing when it is exhausted.
    pub fn swap_ends(&mut self)
        requires
            old(self).wf(),
        ensures
            final(self).wf(),
            final(self).buffer() == old(self).buffer(),
            final(self).positions() == old(self).positions().reverse(),
            final(self)@ == old(self)@.reverse(),
            old(self)@.len() > 0 ==> final(self).stride_spec() == -old(self).stride_spec(),
            final(final(self).data)@ == final(old(self).data)@,
    {
        self.cursor.swap_ends();
        assert(self@ =~= old(self)@.reverse());
    }

    /// How many elements remain; always exact.
    pub fn len(&self) -> (r: usize)
        ensures
            r == self@.len(),
    {
        self.cursor.len()
    }

    /// Whether no element remains.
    pub fn is_empty(&self) -> (r: bool)
        ensures
            r == (self@.len() == 0),
    {
        self.cursor.is_empty()
    }

    /// Lower and upper bound on the remaining elements; both are exact.
    pub fn size_hint(&self) -> (r: (usize, Option<usize>))
        ensures
            r.0 == self@.len(),
            r.1 == Some(self@.len() as usize),
    {
        let n = self.cursor.len();
        (n, Some(n))
    }

    /// The `i`-th remaining element in forward order.
    pub fn index(&self, i: usize) -> (r: &A)
        requires
            self.wf(),
            i < self@.len(),
        ensures
            *r == self@[i as int],
    {
        let p = self.cursor.pos(i);
        &self.data[p]
    }

    /// Yields the first remaining element for writing. The element stays
    /// borrowed from the iterator until the returned reference is dropped.
    pub fn next(&mut self) -> (r: Option<&mut A>)
        requires
            old(self).wf(),
        ensures
            final(self).wf(),
            final(self).positions() == if old(self)@.len() == 0 {
                old(self).positions()
            } else {
                old(self).positions().drop_first()
            },
            old(self)@.len() == 0 ==> r is None && final(self).buffer() == old(self).buffer(),
            old(self)@.len() > 0 ==> r is Some && *r->0 == old(self)@[0] && final(self).buffer()
                == old(self).buffer().update(old(self).positions()[0], *final(r->0)),
            final(self).stride_spec() == old(self).stride_spec(),
            final(final(self).data)@ == final(old(self).data)@,
    {
        let p = self.cursor.next_pos();
        match p {
            Some(i) => Some(&mut self.data[i]),
            None => None,
        }
    }

    /// Yields the last remaining element for writing. The element stays
    /// borrowed from the iterator until the returned reference is dropped.
    pub fn next_back(&mut self) -> (r: Option<&mut A>)
        requires
            old(self).wf(),
        ensures
            final(self).wf(),
            final(self).positions() == if old(self)@.len() == 0 {
                old(self).positions()
            } else {
                old(self).positions().drop_last()
            },
            old(self)@.len() == 0 ==> r is None && final(self).buffer() == old(self).buffer(),
            old(self)@.len() > 0 ==> r is Some && *r->0 == old(self)@.last()
                && final(self).buffer() == old(self).buffer().update(
                old(self).positions().last(),
                *final(r->0),
            ),
            final(self).stride_spec() == old(self).stride_spec(),
            final(final(self).data)@ == final(old(self).data)@,
    {
        let p = self.cursor.next_back_pos();
        match p {
            Some(i) => Some(&mut self.data[i]),
            None => None,
        }
    }
}

} // verus!
