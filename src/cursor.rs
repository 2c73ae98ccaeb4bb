use vstd::arithmetic::div_mod::{lemma_fundamental_div_mod, lemma_fundamental_div_mod_converse};
use vstd::prelude::*;

verus! {

/// `n / d` rounded up, for `n >= 0` and `d > 0`.
pub open spec fn ceil_div(n: int, d: int) -> int {
    if n % d == 0 {
        n / d
    } else {
        n / d + 1
    }
}

/// The positions visited by a fresh traversal of a buffer of `n` elements
/// with step `step`: `0, step, 2 * step, ...`, all below `n`.
pub open spec fn fresh_positions(n: nat, step: nat) -> Seq<int> {
    Seq::new(ceil_div(n as int, step as int) as nat, |k: int| k * step)
}

/// Every `step`-th item of `s`, starting with the first one.
pub open spec fn every_nth<T>(s: Seq<T>, step: nat) -> Seq<T> {
    Seq::new(ceil_div(s.len() as int, step as int) as nat, |k: int| s[k * step])
}

/// `ceil_div(n, d)` is the number of multiples of `d` in `[0, n)`.
pub proof fn lemma_ceil_div(n: int, d: int)
    requires
        n >= 0,
        d > 0,
    ensures
        ceil_div(n, d) >= 0,
        n == 0 ==> ceil_div(n, d) == 0,
        n > 0 ==> ceil_div(n, d) == (n - 1) / d + 1,
        n > 0 ==> (ceil_div(n, d) - 1) * d < n,
        ceil_div(n, d) * d >= n,
{
    lemma_fundamental_div_mod(n, d);
    let q = n / d;
    let r = n % d;
    assert(0 <= r < d);
    assert(q >= 0) by (nonlinear_arith)
        requires
            n == d * q + r,
            n >= 0,
            0 <= r < d,
    ;
    if n > 0 {
        if r == 0 {
            assert(q >= 1) by (nonlinear_arith)
                requires
                    n == d * q,
                    n > 0,
                    d > 0,
            ;
            assert(n - 1 == (q - 1) * d + (d - 1)) by (nonlinear_arith)
                requires
                    n == d * q,
            ;
            lemma_fundamental_div_mod_converse(n - 1, d, q - 1, d - 1);
        } else {
            assert(n - 1 == q * d + (r - 1)) by (nonlinear_arith)
                requires
                    n == d * q + r,
            ;
            lemma_fundamental_div_mod_converse(n - 1, d, q, r - 1);
        }
    } else {
        assert(q == 0) by (nonlinear_arith)
            requires
                0 == d * q + r,
                0 <= r < d,
        ;
    }
    assert((ceil_div(n, d) - 1) * d < n || n == 0) by (nonlinear_arith)
        requires
            n == d * q + r,
            0 <= r < d,
            ceil_div(n, d) == (if r == 0 { q } else { q + 1 }),
    ;
    assert(ceil_div(n, d) * d >= n) by (nonlinear_arith)
        requires
            n == d * q + r,
            0 <= r < d,
            ceil_div(n, d) == (if r == 0 { q } else { q + 1 }),
    ;
}

/// The `k`-th of every `step`-th item of a sequence of `len` items is at
/// index `k * step`, inside the sequence.
pub proof fn lemma_every_nth_index(len: int, step: int, k: int)
    requires
        len >= 0,
        step > 0,
        0 <= k < ceil_div(len, step),
    ensures
        0 <= k * step < len,
{
    lemma_ceil_div(len, step);
    assert(0 <= k * step <= (ceil_div(len, step) - 1) * step) by (nonlinear_arith)
        requires
            0 <= k <= ceil_div(len, step) - 1,
            step > 0,
    ;
}

/// The state shared by both strided iterators: the first and the last
/// (inclusive) remaining positions, the signed stride between consecutive
/// positions, and how many positions remain.
///
/// A cursor with no positions left is exhausted; its `begin` and `end` carry
/// no meaning then.
#[derive(Clone, Copy)]
pub struct Cursor {
    begin: usize,
    end: usize,
    stride: isize,
    len: usize,
}

impl View for Cursor {
    type V = Seq<int>;

    /// The remaining positions, in forward order.
    closed spec fn view(&self) -> Seq<int> {
        Seq::new(self.len as nat, |k: int| self.begin + k * self.stride)
    }
}

impl Cursor {
    /// The stride is nonzero and its negation is representable; when
    /// positions remain, `end` lies a whole number of strides from `begin`
    /// in the direction of the stride.
    #[verifier::type_invariant]
    closed spec fn inv(self) -> bool {
        &&& self.stride != 0
        &&& self.stride != isize::MIN
        &&& self.len > 0 ==> self.end == self.begin + (self.len - 1) * self.stride
    }

    /// The signed distance between consecutive positions.
    pub closed spec fn stride_spec(self) -> int {
        self.stride as int
    }

    /// Every remaining position is an index below `n`.
    pub open spec fn within(self, n: nat) -> bool {
        forall|k: int| 0 <= k < self@.len() ==> 0 <= #[trigger] self@[k] < n
    }

    /// Each remaining position lies between `begin` and `end`.
    proof fn lemma_between(self, k: int)
        requires
            self.inv(),
            0 <= k < self.len,
        ensures
            self.begin <= self.end ==> self.begin <= self@[k] <= self.end,
            self.begin > self.end ==> self.end <= self@[k] <= self.begin,
    {
        let b = self.begin as int;
        let s = self.stride as int;
        let m = self.len as int;
        assert(self@[k] == b + k * s);
        if s > 0 {
            assert(0 <= k * s <= (m - 1) * s) by (nonlinear_arith)
                requires
                    s > 0,
                    0 <= k < m,
            ;
        } else {
            assert((m - 1) * s <= k * s <= 0) by (nonlinear_arith)
                requires
                    s < 0,
                    0 <= k < m,
            ;
        }
    }

    /// A cursor over the inclusive position range `[begin, end]` of a buffer
    /// of `n` elements, with the given stride. `end` must lie a whole,
    /// non-negative number of strides from `begin`.
    pub fn from_range(n: usize, begin: usize, end: usize, stride: isize) -> (r: Cursor)
        requires
            stride != 0,
            stride != isize::MIN,
            begin < n,
            end < n,
            (end - begin) % (stride as int) == 0,
            (end - begin) / (stride as int) >= 0,
        ensures
            r@.len() == (end - begin) / (stride as int) + 1,
            forall|k: int| 0 <= k < r@.len() ==> #[trigger] r@[k] == begin + k * stride,
            r@.last() == end,
            r.stride_spec() == stride,
            r.within(n as nat),
    {
        let ghost q = (end - begin) / (stride as int);
        proof {
            lemma_fundamental_div_mod(end - begin, stride as int);
        }
        let jumps: usize;
        if stride > 0 {
            assert(end - begin == q * stride && end >= begin) by (nonlinear_arith)
                requires
                    end - begin == stride * q + 0,
                    q >= 0,
                    stride > 0,
            ;
            proof {
                lemma_fundamental_div_mod_converse(end - begin, stride as int, q, 0);
            }
            jumps = (end - begin) / (stride as usize);
        } else {
            assert(begin - end == q * (-stride) && end <= begin) by (nonlinear_arith)
                requires
                    end - begin == stride * q + 0,
                    q >= 0,
                    stride < 0,
            ;
            proof {
                lemma_fundamental_div_mod_converse(begin - end, -stride, q, 0);
            }
            jumps = (begin - end) / ((-stride) as usize);
        }
        assert(jumps <= begin || jumps <= end) by (nonlinear_arith)
            requires
                jumps == q,
                q * stride == end - begin,
                stride != 0,
                q >= 0,
                begin >= 0,
                end >= 0,
        ;
        let len: usize = jumps + 1;
        let r = Cursor { begin, end, stride, len };
        assert(end == begin + (len - 1) * stride) by (nonlinear_arith)
            requires
                len == q + 1,
                q * stride == end - begin,
        ;
        assert forall|k: int| 0 <= k < r@.len() implies 0 <= #[trigger] r@[k] < n by {
            r.lemma_between(k);
        }
        r
    }

    /// A cursor over a buffer of `n` elements that visits positions
    /// `0, step, 2 * step, ...` below `n`.
    pub fn new(n: usize, step: usize) -> (r: Cursor)
        requires
            0 < step <= isize::MAX,
        ensures
            r@ == fresh_positions(n as nat, step as nat),
            r.stride_spec() == step,
            r.within(n as nat),
    {
        proof {
            lemma_ceil_div(n as int, step as int);
        }
        let nelem: usize = if n % step == 0 {
            n / step
        } else {
            n / step + 1
        };
        if nelem == 0 {
            let r = Cursor { begin: 0, end: 0, stride: step as isize, len: 0 };
            assert(r@ =~= fresh_positions(n as nat, step as nat));
            r
        } else {
            let end: usize = (nelem - 1) * step;
            let r = Cursor { begin: 0, end, stride: step as isize, len: nelem };
            assert(r@ =~= fresh_positions(n as nat, step as nat));
            assert forall|k: int| 0 <= k < r@.len() implies 0 <= #[trigger] r@[k] < n by {
                r.lemma_between(k);
            }
            r
        }
    }

    /// How many positions remain.
    pub fn len(&self) -> (r: usize)
        ensures
            r == self@.len(),
    {
        self.len
    }

    /// Whether no position remains.
    pub fn is_empty(&self) -> (r: bool)
        ensures
            r == (self@.len() == 0),
    {
        self.len == 0
    }

    /// The `i`-th remaining position in forward order.
    pub fn pos(&self, i: usize) -> (r: usize)
        requires
            i < self@.len(),
        ensures
            r == self@[i as int],
    {
        proof {
            use_type_invariant(self);
            self.lemma_between(i as int);
        }
        (self.begin as i128 + (i as i128) * (self.stride as i128)) as usize
    }

    /// Takes the first remaining position.
    pub fn next_pos(&mut self) -> (r: Option<usize>)
        ensures
            old(self)@.len() == 0 ==> r == None::<usize> && final(self)@ == old(self)@,
            old(self)@.len() > 0 ==> r == Some(old(self)@[0] as usize) && final(self)@
                == old(self)@.drop_first(),
            final(self).stride_spec() == old(self).stride_spec(),
        no_unwind
    {
        proof {
            use_type_invariant(&*self);
        }
        if self.len == 0 {
            return None;
        }
        let p = self.begin;
        assert(self@[0] == p);
        if self.len == 1 {
            *self = Cursor { len: 0, ..*self };
            assert(self@ =~= old(self)@.drop_first());
        } else {
            proof {
                self.lemma_between(1);
            }
            let ghost b = self.begin as int;
            let ghost st = self.stride as int;
            let ghost m = self.len as int;
            let begin = (self.begin as i128 + self.stride as i128) as usize;
            let len = self.len - 1;
            assert(self.end == begin + (len - 1) * st) by (nonlinear_arith)
                requires
                    self.end == b + (m - 1) * st,
                    begin == b + st,
                    len == m - 1,
            ;
            *self = Cursor { begin, len, ..*self };
            assert forall|k: int| 0 <= k < m - 1 implies #[trigger] self@[k] == old(self)@[k + 1] by {
                assert((k + 1) * st == k * st + st) by (nonlinear_arith);
            }
            assert(self@ =~= old(self)@.drop_first());
        }
        Some(p)
    }

    /// Takes the last remaining position.
    pub fn next_back_pos(&mut self) -> (r: Option<usize>)
        ensures
            old(self)@.len() == 0 ==> r == None::<usize> && final(self)@ == old(self)@,
            old(self)@.len() > 0 ==> r == Some(old(self)@.last() as usize) && final(self)@
                == old(self)@.drop_last(),
            final(self).stride_spec() == old(self).stride_spec(),
        no_unwind
    {
        proof {
            use_type_invariant(&*self);
        }
        if self.len == 0 {
            return None;
        }
        let p = self.end;
        assert(self@.last() == p);
        if self.len == 1 {
            *self = Cursor { len: 0, ..*self };
            assert(self@ =~= old(self)@.drop_last());
        } else {
            proof {
                self.lemma_between((self.len - 2) as int);
            }
            let ghost b = self.begin as int;
            let ghost st = self.stride as int;
            let ghost m = self.len as int;
            assert(b + (m - 2) * st == b + (m - 1) * st - st) by (nonlinear_arith);
            let end = (self.end as i128 - self.stride as i128) as usize;
            let len = self.len - 1;
            *self = Cursor { end, len, ..*self };
            assert(self@ =~= old(self)@.drop_last());
        }
        Some(p)
    }

    /// Exchanges the two ends and negates the stride, so that the remaining
    /// positions are visited in the opposite order. Does nothing when no
    /// position remains.
    pub fn swap_ends(&mut self)
        ensures
            final(self)@ == old(self)@.reverse(),
            old(self)@.len() == 0 ==> *final(self) == *old(self),
            old(self)@.len() > 0 ==> final(self).stride_spec() == -old(self).stride_spec(),
        no_unwind
    {
        proof {
            use_type_invariant(&*self);
        }
        if self.len != 0 {
            let ghost b = self.begin as int;
            let ghost st = self.stride as int;
            let ghost m = self.len as int;
            assert(b == self.end + (m - 1) * (-st)) by (nonlinear_arith)
                requires
                    self.end == b + (m - 1) * st,
            ;
            *self = Cursor { begin: self.end, end: self.begin, stride: -self.stride, len: self.len };
            assert forall|k: int| 0 <= k < m implies #[trigger] self@[k] == old(self)@[m - 1 - k] by {
                assert((m - 1) * st + k * (-st) == (m - 1 - k) * st) by (nonlinear_arith);
            }
            assert(self@ =~= old(self)@.reverse());
        } else {
            assert(self@ =~= old(self)@.reverse());
        }
    }

    /// A cursor that starts at the same position and whose stride is this
    /// stride times `step`. Only the whole jumps of the new stride that fit
    /// in the remaining span are kept: the result visits every `step`-th of
    /// the remaining positions.
    pub fn coarsen(&self, step: usize) -> (r: Cursor)
        requires
            step > 0,
            -isize::MAX <= self.stride_spec() * step <= isize::MAX,
        ensures
            r@ == every_nth(self@, step as nat),
            r.stride_spec() == self.stride_spec() * step,
    {
        proof {
            use_type_invariant(self);
        }
        let ghost st = self.stride as int;
        assert(step <= isize::MAX) by (nonlinear_arith)
            requires
                st != 0,
                step > 0,
                -isize::MAX <= st * step <= isize::MAX,
        ;
        let stride: isize = self.stride * (step as isize);
        assert(stride != 0) by (nonlinear_arith)
            requires
                st != 0,
                step > 0,
                stride == st * step,
        ;
        proof {
            lemma_ceil_div(self.len as int, step as int);
        }
        if self.len == 0 {
            let r = Cursor { begin: self.begin, end: self.end, stride, len: 0 };
            assert(r@ =~= every_nth(self@, step as nat));
            return r;
        }
        let jumps: usize = (self.len - 1) / step;
        assert(jumps * step <= self.len - 1) by (nonlinear_arith)
            requires
                jumps == (self.len - 1) / (step as int),
                self.len >= 1,
                step > 0,
        {
            lemma_fundamental_div_mod((self.len - 1) as int, step as int);
        }
        let end = self.pos(jumps * step);
        let len = jumps + 1;
        let ghost b = self.begin as int;
        assert(end == self.begin + (len - 1) * stride) by (nonlinear_arith)
            requires
                end == b + (jumps * step) * st,
                len == jumps + 1,
                stride == st * step,
                self.begin == b,
        ;
        let r = Cursor { begin: self.begin, end, stride, len };
        assert forall|k: int| 0 <= k < len implies #[trigger] r@[k] == self@[k * step] by {
            assert(k * step <= jumps * step) by (nonlinear_arith)
                requires
                    k <= jumps,
                    step > 0,
            ;
            assert(k * stride == (k * step) * st) by (nonlinear_arith)
                requires
                    stride == st * step,
            ;
        }
        assert(r@ =~= every_nth(self@, step as nat));
        r
    }
}

} // verus!
