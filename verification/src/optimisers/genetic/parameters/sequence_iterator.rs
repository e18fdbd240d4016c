use vstd::prelude::*;

verus! {

/// The Fibonacci numbers: `fib(0) = 0`, `fib(1) = 1`, `fib(n + 2) = fib(n + 1) + fib(n)`.
pub open spec fn fib(n: nat) -> nat
    decreases n,
{
    if n == 0 {
        0
    } else if n == 1 {
        1
    } else {
        fib((n - 1) as nat) + fib((n - 2) as nat)
    }
}

/// Fibonacci numbers never decrease.
pub proof fn lemma_fib_monotonic(i: nat, j: nat)
    requires
        i <= j,
    ensures
        fib(i) <= fib(j),
    decreases j - i,
{
    if i < j {
        lemma_fib_monotonic(i, (j - 1) as nat);
        if j >= 2 {
        }
    }
}

/// Returns the `n`-th Fibonacci number.
///
/// The loop computes one number beyond the result, so the input must leave
/// `fib(n + 1)` within `usize`.
pub fn fibonacci_sequence(n: usize) -> (r: usize)
    requires
        fib(n as nat + 1) <= usize::MAX,
    ensures
        r == fib(n as nat),
{
    let mut a: usize = 0;
    let mut b: usize = 1;
    let mut i: usize = 0;
    while i < n
        invariant
            i <= n,
            a == fib(i as nat),
            b == fib(i as nat + 1),
            fib(n as nat + 1) <= usize::MAX,
        decreases n - i,
    {
        proof {
            lemma_fib_monotonic(i as nat + 2, n as nat + 1);
        }
        let next = a + b;
        a = b;
        b = next;
        i = i + 1;
    }
    a
}


/// The position at which a sequence is evaluated for index `i`: negative
/// indices evaluate at 0.
pub open spec fn clamp(i: int) -> usize {
    if i < 0 {
        0
    } else {
        i as usize
    }
}

/// `f` may be called at every position up to `k`, and every value it gives at
/// `k` is at least `value`: a search for `value` stops by `k`.
pub open spec fn found_by<F: Fn(usize) -> usize>(f: F, value: usize, k: usize) -> bool {
    &&& forall|j: usize| j <= k ==> call_requires(f, (j,))
    &&& forall|v: usize| call_ensures(f, (k,), v) ==> v >= value
}

/// Some value that `f` may give at `j` lies below `value`.
pub open spec fn gives_below<F: Fn(usize) -> usize>(f: F, j: usize, value: usize) -> bool {
    exists|v: usize| call_ensures(f, (j,), v) && v < value
}

/// Some value that `f` may give at `j` reaches `value`.
pub open spec fn gives_at_least<F: Fn(usize) -> usize>(f: F, j: usize, value: usize) -> bool {
    exists|v: usize| call_ensures(f, (j,), v) && v >= value
}

/// Walks a sequence `f(0), f(1), ...` forwards and backwards, remembering each
/// value once computed, within optional bounds on the values.
pub struct SequenceIterator<F: Fn(usize) -> usize> {
    sequence_func: F,
    archive: Vec<(isize, usize)>,
    index: isize,
    max_sequence_value: Option<usize>,
    min_sequence_value: Option<usize>,
}

impl<F: Fn(usize) -> usize> SequenceIterator<F> {
    /// The sequence.
    pub closed spec fn func(&self) -> F {
        self.sequence_func
    }

    /// The current position.
    pub closed spec fn pos(&self) -> int {
        self.index as int
    }

    /// The largest value the iterator moves forward to, if bounded.
    pub closed spec fn max_value(&self) -> Option<usize> {
        self.max_sequence_value
    }

    /// The smallest value the iterator stays at, if bounded.
    pub closed spec fn min_value(&self) -> Option<usize> {
        self.min_sequence_value
    }

    /// The value remembered for position `i`, if any.
    pub closed spec fn cached(&self, i: int) -> Option<usize> {
        if exists|j: int| 0 <= j < self.archive@.len() && self.archive@[j].0 == i {
            let j = choose|j: int| 0 <= j < self.archive@.len() && self.archive@[j].0 == i;
            Some(self.archive@[j].1)
        } else {
            None
        }
    }

    /// Each position is remembered once, with a value the sequence gives there.
    #[verifier::type_invariant]
    spec fn wf(&self) -> bool {
        &&& forall|a: int, b: int|
            0 <= a < b < self.archive@.len() ==> (#[trigger] self.archive@[a]).0 != (#[trigger] self.archive@[b]).0
        &&& forall|j: int|
            0 <= j < self.archive@.len() ==> call_ensures(
                self.sequence_func,
                (clamp((#[trigger] self.archive@[j]).0 as int),),
                self.archive@[j].1,
            )
    }

    /// `v` is what the iterator gives for position `i`: the remembered value,
    /// or else a value the sequence gives there.
    pub open spec fn value_ok(&self, i: int, v: usize) -> bool {
        match self.cached(i) {
            Some(c) => v == c,
            None => call_ensures(self.func(), (clamp(i),), v),
        }
    }

    /// `self` is `old` after the value `v` for position `i` was looked up:
    /// `v` is now remembered for `i`, and nothing else changed.
    pub open spec fn looked_up(self, old: Self, i: int, v: usize) -> bool {
        &&& old.value_ok(i, v)
        &&& self.cached(i) == Some(v)
        &&& forall|j: int| j != i ==> #[trigger] self.cached(j) == old.cached(j)
        &&& self.func() == old.func()
        &&& self.max_value() == old.max_value()
        &&& self.min_value() == old.min_value()
    }

    /// An iterator over `sequence_func` that starts before the first position
    /// whose value reaches `start_value` (before position 0 without one).
    pub fn new(
        sequence_func: F,
        start_value: Option<usize>,
        max_sequence_value: Option<usize>,
        min_sequence_value: Option<usize>,
    ) -> (r: Self)
        requires
            start_value is Some ==> exists|k: usize| k <= isize::MAX && found_by(sequence_func, start_value->0, k),
        ensures
            r.func() == sequence_func,
            r.max_value() == max_sequence_value,
            r.min_value() == min_sequence_value,
            forall|i: int| r.cached(i) is None,
            start_value is None ==> r.pos() == -1,
            start_value is Some ==> {
                let p = r.pos() + 1;
                &&& 0 <= p
                &&& gives_at_least(sequence_func, p as usize, start_value->0)
                &&& forall|j: usize| j < p ==> #[trigger] gives_below(sequence_func, j, start_value->0)
            },
    {
        let index: isize = match start_value {
            Some(start) => {
                let n = Self::get_sequence_index(&sequence_func, start);
                n as isize - 1
            },
            None => -1,
        };
        SequenceIterator { sequence_func, archive: Vec::new(), index, max_sequence_value, min_sequence_value }
    }

    /// The value at position `index`, remembered after the first look-up.
    fn sequence_item_calculation(&mut self, index: isize) -> (r: usize)
        requires
            call_requires(old(self).func(), (clamp(index as int),)),
        ensures
            final(self).looked_up(*old(self), index as int, r),
            final(self).pos() == old(self).pos(),
    {
        proof {
            use_type_invariant(&*self);
        }
        let mut j: usize = 0;
        while j < self.archive.len()
            invariant
                self.wf(),
                j <= self.archive@.len(),
                forall|t: int| 0 <= t < j ==> self.archive@[t].0 != index,
            decreases self.archive@.len() - j,
        {
            if self.archive[j].0 == index {
                let v = self.archive[j].1;
                proof {
                    let c = choose|t: int| 0 <= t < self.archive@.len() && self.archive@[t].0 == index;
                    assert(c == j as int) by {
                        if c != j {
                            if c < j {
                                assert(self.archive@[c].0 != self.archive@[j as int].0);
                            } else {
                                assert(self.archive@[j as int].0 != self.archive@[c].0);
                            }
                        }
                    }
                }
                return v;
            }
            j = j + 1;
        }
        let at: usize = if index < 0 { 0 } else { index as usize };
        let result = (self.sequence_func)(at);
        let ghost before = *self;
        proof {
            assert(before.cached(index as int) is None);
        }
        let mut archive: Vec<(isize, usize)> = Vec::new();
        std::mem::swap(&mut archive, &mut self.archive);
        archive.push((index, result));
        proof {
            let n = before.archive@.len();
            assert(archive@[n as int] == (index, result));
            assert forall|a: int, b: int| 0 <= a < b < archive@.len() implies (#[trigger] archive@[a]).0
                != (#[trigger] archive@[b]).0 by {
                if b == n {
                    assert(before.archive@[a].0 != index);
                } else {
                    assert(before.archive@[a].0 != before.archive@[b].0);
                }
            }
            assert forall|j2: int| 0 <= j2 < archive@.len() implies call_ensures(
                self.sequence_func,
                (clamp((#[trigger] archive@[j2]).0 as int),),
                archive@[j2].1,
            ) by {
                if j2 < n {
                    assert(archive@[j2] == before.archive@[j2]);
                }
            }
        }
        self.archive = archive;
        proof {
            let n = before.archive@.len();
            assert(self.cached(index as int) == Some(result)) by {
                let c = choose|t: int| 0 <= t < self.archive@.len() && self.archive@[t].0 == index;
                if c < n {
                    assert(before.archive@[c].0 == index);
                }
            }
            assert forall|i: int| i != index as int implies #[trigger] self.cached(i) == before.cached(i) by {
                if before.cached(i) is Some {
                    let c = choose|t: int| 0 <= t < before.archive@.len() && before.archive@[t].0 == i;
                    assert(self.archive@[c] == before.archive@[c]);
                    let c2 = choose|t: int| 0 <= t < self.archive@.len() && self.archive@[t].0 == i;
                    if c2 != c {
                        if c2 < c {
                            assert(self.archive@[c2].0 != self.archive@[c].0);
                        } else {
                            assert(self.archive@[c].0 != self.archive@[c2].0);
                        }
                    }
                } else if self.cached(i) is Some {
                    let c2 = choose|t: int| 0 <= t < self.archive@.len() && self.archive@[t].0 == i;
                    if c2 < n {
                        assert(before.archive@[c2].0 == i);
                    }
                }
            }
        }
        result
    }

    /// `q` is the first position whose value reaches `value`.
    pub open spec fn first_reaching(&self, value: usize, q: int) -> bool {
        &&& 0 <= q <= usize::MAX
        &&& gives_at_least(self.func(), q as usize, value)
        &&& forall|j: usize| j < q ==> #[trigger] gives_below(self.func(), j, value)
    }

    /// What [`Self::current`] does: the value at the current position is looked up.
    pub open spec fn current_post(self, old: Self, r: usize) -> bool {
        &&& self.looked_up(old, old.pos(), r)
        &&& self.pos() == old.pos()
    }

    /// What [`Self::next_value`] does: the position moves one forward, or, when
    /// the value there lies below the lower bound, on to the first position
    /// that reaches the bound; the value at the new position is returned.
    pub open spec fn next_post(self, old: Self, r: usize) -> bool {
        let p = old.pos() + 1;
        &&& self.func() == old.func()
        &&& self.max_value() == old.max_value()
        &&& self.min_value() == old.min_value()
        &&& forall|j: int| j != p && j != self.pos() ==> #[trigger] self.cached(j) == old.cached(j)
        &&& self.cached(self.pos()) == Some(r)
        &&& match old.min_value() {
            None => self.pos() == p && old.value_ok(p, r),
            Some(m) => {
                &&& self.cached(p) is Some
                &&& old.value_ok(p, self.cached(p)->0)
                &&& if self.cached(p)->0 >= m {
                    self.pos() == p && r == self.cached(p)->0
                } else {
                    self.first_reaching(m, self.pos())
                }
            },
        }
    }

    /// What [`Self::prev_value`] does: the position moves one back, and the
    /// value there is returned unless the position fell below 0.
    pub open spec fn prev_post(self, old: Self, r: Option<usize>) -> bool {
        let p = old.pos() - 1;
        &&& self.pos() == p
        &&& if p < 0 {
            &&& r is None
            &&& self.func() == old.func()
            &&& self.max_value() == old.max_value()
            &&& self.min_value() == old.min_value()
            &&& forall|j: int| #[trigger] self.cached(j) == old.cached(j)
        } else {
            r is Some && self.looked_up(old, p, r->0)
        }
    }

    /// Moving the position keeps what is remembered.
    proof fn lemma_moved(a: Self, b: Self)
        requires
            a.archive == b.archive,
            a.sequence_func == b.sequence_func,
        ensures
            forall|j: int| #[trigger] a.cached(j) == b.cached(j),
    {
        assert forall|j: int| #[trigger] a.cached(j) == b.cached(j) by {}
    }

    /// Whether a step back stays at a position of at least 0 whose value
    /// reaches the lower bound.
    pub fn has_prev(&mut self) -> (r: bool)
        requires
            old(self).pos() > 0 && old(self).min_value() is Some ==> call_requires(
                old(self).func(),
                (clamp(old(self).pos() - 1),),
            ),
        ensures
            final(self).pos() == old(self).pos(),
            old(self).pos() <= 0 ==> !r && *final(self) == *old(self),
            old(self).pos() > 0 && old(self).min_value() is None ==> r && *final(self) == *old(self),
            old(self).pos() > 0 && old(self).min_value() is Some ==> {
                &&& final(self).cached(old(self).pos() - 1) is Some
                &&& final(self).looked_up(*old(self), old(self).pos() - 1, final(self).cached(old(self).pos() - 1)->0)
                &&& r == (final(self).cached(old(self).pos() - 1)->0 >= old(self).min_value()->0)
            },
    {
        let index = self.index;
        if index > 0 {
            match self.min_sequence_value {
                Some(min_val) => self.sequence_item_calculation(index - 1) >= min_val,
                None => true,
            }
        } else {
            false
        }
    }

    /// Whether a step forward stays within the upper bound.
    pub fn has_next(&mut self) -> (r: bool)
        requires
            old(self).pos() < isize::MAX,
            old(self).max_value() is Some ==> call_requires(old(self).func(), (clamp(old(self).pos() + 1),)),
        ensures
            final(self).pos() == old(self).pos(),
            old(self).max_value() is None ==> r && *final(self) == *old(self),
            old(self).max_value() is Some ==> {
                &&& final(self).cached(old(self).pos() + 1) is Some
                &&& final(self).looked_up(*old(self), old(self).pos() + 1, final(self).cached(old(self).pos() + 1)->0)
                &&& r == (final(self).cached(old(self).pos() + 1)->0 <= old(self).max_value()->0)
            },
    {
        let index = self.index;
        match self.max_sequence_value {
            Some(max_val) => self.sequence_item_calculation(index + 1) <= max_val,
            None => true,
        }
    }

    /// Steps forward and returns the value at the new position.
    pub fn next_value(&mut self) -> (r: usize)
        requires
            old(self).pos() < isize::MAX,
            call_requires(old(self).func(), (clamp(old(self).pos() + 1),)),
            old(self).min_value() is Some ==> exists|k: usize|
                k <= isize::MAX && found_by(old(self).func(), old(self).min_value()->0, k),
        ensures
            final(self).next_post(*old(self), r),
    {
        proof {
            use_type_invariant(&*self);
        }
        let ghost s0 = *self;
        self.index = self.index + 1;
        let ghost s1 = *self;
        proof {
            Self::lemma_moved(s0, s1);
        }
        match self.min_sequence_value {
            Some(min_val) => {
                let v = self.sequence_item_calculation(self.index);
                let ghost s2 = *self;
                if v < min_val {
                    let ghost k = choose|k: usize| k <= isize::MAX && found_by(s0.func(), min_val, k);
                    let q = Self::get_sequence_index(&self.sequence_func, min_val);
                    proof {
                        use_type_invariant(&*self);
                    }
                    self.index = q as isize;
                    proof {
                        Self::lemma_moved(s2, *self);
                        assert(found_by(self.func(), min_val, k));
                        assert(call_requires(self.func(), (clamp(self.index as int),)));
                    }
                    let r = self.sequence_item_calculation(self.index);
                    proof {
                        assert forall|j: int| j != s0.pos() + 1 && j != self.pos() implies #[trigger] self.cached(j)
                            == s0.cached(j) by {
                            assert(s1.cached(j) == s0.cached(j));
                            assert(s2.cached(j) == s1.cached(j));
                        }
                        assert(self.cached(s0.pos() + 1) == s2.cached(s0.pos() + 1));
                    }
                    r
                } else {
                    v
                }
            },
            None => self.sequence_item_calculation(self.index),
        }
    }

    /// Steps back and returns the value at the new position, or `None` when
    /// the position fell below 0.
    pub fn prev_value(&mut self) -> (r: Option<usize>)
        requires
            old(self).pos() > isize::MIN,
            old(self).pos() - 1 >= 0 ==> call_requires(old(self).func(), (clamp(old(self).pos() - 1),)),
        ensures
            final(self).prev_post(*old(self), r),
    {
        proof {
            use_type_invariant(&*self);
        }
        let ghost s0 = *self;
        self.index = self.index - 1;
        proof {
            Self::lemma_moved(s0, *self);
        }
        if self.index < 0 {
            return None;
        }
        let v = self.sequence_item_calculation(self.index);
        Some(v)
    }

    /// The value at the current position.
    pub fn current(&mut self) -> (r: usize)
        requires
            call_requires(old(self).func(), (clamp(old(self).pos()),)),
        ensures
            final(self).current_post(*old(self), r),
    {
        let index = self.index;
        self.sequence_item_calculation(index)
    }

    /// Asking twice for the current value gives the same value: a value once
    /// computed is remembered.
    pub proof fn law_current_stable(s0: Self, s1: Self, s2: Self, a: usize, b: usize)
        requires
            s1.current_post(s0, a),
            s2.current_post(s1, b),
        ensures
            a == b,
    {
    }

    /// A step forward followed by a step back returns the value that was
    /// current before the step forward (when that position is not negative
    /// and no lower bound moves the step forward further).
    pub proof fn law_next_then_prev(s0: Self, s1: Self, s2: Self, s3: Self, a: usize, b: usize, r: Option<usize>)
        requires
            s1.current_post(s0, a),
            s1.min_value() is None,
            s2.next_post(s1, b),
            s3.prev_post(s2, r),
            s0.pos() >= 0,
        ensures
            r == Some(a),
    {
        assert(s1.cached(s0.pos()) is Some);
        assert(s2.cached(s0.pos()) == Some(a));
    }

    /// The first position whose value reaches `value`.
    fn get_sequence_index(sequence_func: &F, value: usize) -> (r: usize)
        requires
            exists|k: usize| found_by(*sequence_func, value, k),
        ensures
            gives_at_least(*sequence_func, r, value),
            forall|j: usize| j < r ==> #[trigger] gives_below(*sequence_func, j, value),
            forall|k: usize| found_by(*sequence_func, value, k) ==> r <= k,
    {
        let ghost k = choose|k: usize| found_by(*sequence_func, value, k);
        let mut number: usize = 0;
        loop
            invariant
                number <= k,
                found_by(*sequence_func, value, k),
                forall|k2: usize| found_by(*sequence_func, value, k2) ==> number <= k2,
                forall|j: usize| j < number ==> #[trigger] gives_below(*sequence_func, j, value),
            decreases k - number,
        {
            let v = sequence_func(number);
            if v >= value {
                return number;
            }
            proof {
                assert forall|k2: usize| found_by(*sequence_func, value, k2) implies number + 1 <= k2 by {
                    if number == k2 {
                        assert(v >= value);
                    }
                }
                assert forall|j: usize| j < number + 1 implies #[trigger] gives_below(*sequence_func, j, value) by {
                    if j == number {
                        assert(call_ensures(*sequence_func, (j,), v));
                    }
                }
            }
            number = number + 1;
        }
    }
}

} // verus!
