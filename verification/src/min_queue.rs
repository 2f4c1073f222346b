//! A stack and a queue of numbers that report their minimum in constant
//! time, by keeping a running minimum beside every element.
use vstd::prelude::*;

verus! {

/// The smallest element of a nonempty sequence.
pub open spec fn seq_min(s: Seq<i64>) -> int
    recommends
        s.len() > 0,
    decreases s.len(),
{
    if s.len() <= 1 {
        s[0] as int
    } else {
        let m = seq_min(s.drop_last());
        if s.last() < m {
            s.last() as int
        } else {
            m
        }
    }
}

proof fn lemma_seq_min_concat(a: Seq<i64>, b: Seq<i64>)
    requires
        a.len() > 0,
        b.len() > 0,
    ensures
        seq_min(a + b) == if seq_min(a) < seq_min(b) {
            seq_min(a)
        } else {
            seq_min(b)
        },
    decreases b.len(),
{
    assert((a + b).drop_last() =~= if b.len() == 1 {
        a
    } else {
        a + b.drop_last()
    });
    assert((a + b).last() == b.last());
    if b.len() > 1 {
        lemma_seq_min_concat(a, b.drop_last());
    }
}

proof fn lemma_seq_min_in_range(s: Seq<i64>)
    requires
        s.len() > 0,
    ensures
        i64::MIN <= seq_min(s) <= i64::MAX,
    decreases s.len(),
{
    if s.len() > 1 {
        lemma_seq_min_in_range(s.drop_last());
    }
}

proof fn lemma_seq_min_reverse(s: Seq<i64>)
    requires
        s.len() > 0,
    ensures
        seq_min(s.reverse()) == seq_min(s),
    decreases s.len(),
{
    if s.len() > 1 {
        lemma_seq_min_reverse(s.drop_last());
        assert(s.reverse() =~= seq![s.last()] + s.drop_last().reverse());
        lemma_seq_min_concat(seq![s.last()], s.drop_last().reverse());
    }
}

/// A stack whose every entry carries the minimum of the elements at or
/// below it.
pub struct MinStack {
    pub buffer: Vec<(i64, i64)>,
}

impl MinStack {
    /// The stored elements, bottom first.
    pub open spec fn view(self) -> Seq<i64> {
        Seq::new(self.buffer@.len(), |i: int| self.buffer@[i].0)
    }

    /// Every entry's second component is the minimum of the elements up to
    /// and including it.
    pub open spec fn wf(self) -> bool {
        forall|i: int|
            0 <= i < self.buffer@.len() ==> (#[trigger] self.buffer@[i]).1 as int == seq_min(
                self.view().take(i + 1),
            )
    }

    pub fn new() -> (r: Self)
        ensures
            r.wf(),
            r.view() == Seq::<i64>::empty(),
    {
        let r = Self { buffer: Vec::new() };
        proof {
            assert(r.view() =~= Seq::<i64>::empty());
        }
        r
    }

    pub fn push(&mut self, value: i64)
        requires
            old(self).wf(),
        ensures
            final(self).wf(),
            final(self).view() == old(self).view().push(value),
    {
        let n = self.buffer.len();
        let ghost prev = *self;
        if n == 0 {
            self.buffer.push((value, value));
        } else {
            let prev_min = self.buffer[n - 1].1;
            if prev_min < value {
                self.buffer.push((value, prev_min));
            } else {
                self.buffer.push((value, value));
            }
        }
        proof {
            assert(self.view() =~= prev.view().push(value));
            assert forall|i: int| 0 <= i < self.buffer@.len() implies (
            #[trigger] self.buffer@[i]).1 as int == seq_min(self.view().take(i + 1)) by {
                if i < self.buffer@.len() - 1 {
                    assert(self.view().take(i + 1) =~= prev.view().take(i + 1));
                } else {
                    assert(self.view().take(i + 1) =~= self.view());
                    assert(self.view().drop_last() =~= prev.view());
                    if prev.view().len() > 0 {
                        assert(prev.buffer@[prev.buffer@.len() - 1].1 as int == seq_min(
                            prev.view().take(prev.view().len() as int),
                        ));
                        assert(prev.view().take(prev.view().len() as int) =~= prev.view());
                    }
                }
            }
        }
    }

    pub fn pop(&mut self) -> (r: Option<i64>)
        requires
            old(self).wf(),
        ensures
            final(self).wf(),
            old(self).view().len() == 0 ==> r is None && final(self).view() == old(self).view(),
            old(self).view().len() > 0 ==> r == Some(old(self).view().last())
                && final(self).view() == old(self).view().drop_last(),
    {
        let ghost prev = *self;
        let result = self.buffer.pop();
        match result {
            Option::Some(pair) => {
                proof {
                    assert(self.view() =~= prev.view().drop_last());
                    assert forall|i: int| 0 <= i < self.buffer@.len() implies (
                    #[trigger] self.buffer@[i]).1 as int == seq_min(self.view().take(i + 1)) by {
                        assert(self.view().take(i + 1) =~= prev.view().take(i + 1));
                    }
                }
                Some(pair.0)
            },
            _ => {
                proof {
                    assert(self.view() =~= prev.view());
                }
                None
            },
        }
    }

    /// The minimum of the stored elements.
    pub fn min(&self) -> (r: Option<i64>)
        requires
            self.wf(),
        ensures
            self.view().len() == 0 ==> r is None,
            self.view().len() > 0 ==> r == Some((seq_min(self.view()) as i64)),
    {
        let n = self.buffer.len();
        if n == 0 {
            None
        } else {
            proof {
                assert(self.view().take(n as int) =~= self.view());
            }
            Some(self.buffer[n - 1].1)
        }
    }

    /// The most recently pushed element.
    pub fn top(&self) -> (r: Option<i64>)
        ensures
            self.view().len() == 0 ==> r is None,
            self.view().len() > 0 ==> r == Some(self.view().last()),
    {
        let n = self.buffer.len();
        if n == 0 {
            None
        } else {
            Some(self.buffer[n - 1].0)
        }
    }

    /// The oldest element.
    pub fn bottom(&self) -> (r: Option<i64>)
        ensures
            self.view().len() == 0 ==> r is None,
            self.view().len() > 0 ==> r == Some(self.view()[0]),
    {
        if self.buffer.len() == 0 {
            None
        } else {
            Some(self.buffer[0].0)
        }
    }

    pub fn is_empty(&self) -> (r: bool)
        ensures
            r == (self.view().len() == 0),
    {
        self.buffer.len() == 0
    }

    pub fn len(&self) -> (r: usize)
        ensures
            r == self.view().len(),
    {
        self.buffer.len()
    }
}

/// A queue made of two minimum stacks: arrivals on `front`, departures from
/// `back`.
pub struct MinQueue {
    pub front: MinStack,
    pub back: MinStack,
}

impl MinQueue {
    /// The queued elements, oldest first.
    pub open spec fn view(self) -> Seq<i64> {
        self.back.view().reverse() + self.front.view()
    }

    pub open spec fn wf(self) -> bool {
        self.front.wf() && self.back.wf()
    }

    pub fn new() -> (r: Self)
        ensures
            r.wf(),
            r.view() == Seq::<i64>::empty(),
    {
        let r = Self { front: MinStack::new(), back: MinStack::new() };
        proof {
            assert(r.view() =~= Seq::<i64>::empty());
        }
        r
    }

    pub fn push(&mut self, val: i64)
        requires
            old(self).wf(),
        ensures
            final(self).wf(),
            final(self).view() == old(self).view().push(val),
    {
        self.front.push(val);
        proof {
            assert(self.view() =~= old(self).view().push(val));
        }
    }

    pub fn pop(&mut self) -> (r: Option<i64>)
        requires
            old(self).wf(),
        ensures
            final(self).wf(),
            old(self).view().len() == 0 ==> r is None && final(self).view() == old(self).view(),
            old(self).view().len() > 0 ==> r == Some(old(self).view()[0]) && final(self).view()
                == old(self).view().skip(1),
    {
        let front_empty = self.front.is_empty();
        let back_empty = self.back.is_empty();
        if front_empty && back_empty {
            proof {
                assert(self.view() =~= old(self).view());
            }
            None
        } else if !back_empty {
            let r = self.back.pop();
            proof {
                assert(old(self).view()[0] == old(self).back.view().last());
                assert(self.view() =~= old(self).view().skip(1));
            }
            r
        } else {
            self.pull_and_pop()
        }
    }

    /// The oldest element, without removing it.
    pub fn front(&self) -> (r: Option<i64>)
        requires
            self.wf(),
        ensures
            self.view().len() == 0 ==> r is None,
            self.view().len() > 0 ==> r == Some(self.view()[0]),
    {
        if !self.back.is_empty() {
            proof {
                assert(self.view()[0] == self.back.view().last());
            }
            self.back.top()
        } else {
            proof {
                if self.view().len() > 0 {
                    assert(self.view()[0] == self.front.view()[0]);
                }
            }
            self.front.bottom()
        }
    }

    /// The smallest queued element.
    pub fn min(&self) -> (r: Option<i64>)
        requires
            self.wf(),
        ensures
            self.view().len() == 0 ==> r is None,
            self.view().len() > 0 ==> r == Some((seq_min(self.view()) as i64)),
    {
        let front_empty = self.front.is_empty();
        let back_empty = self.back.is_empty();
        if front_empty && back_empty {
            None
        } else if !front_empty && back_empty {
            proof {
                assert(self.view() =~= self.front.view());
            }
            self.front.min()
        } else if front_empty && !back_empty {
            proof {
                lemma_seq_min_reverse(self.back.view());
                assert(self.view() =~= self.back.view().reverse());
            }
            self.back.min()
        } else {
            let f = match self.front.min() {
                Some(x) => x,
                None => 0,
            };
            let b = match self.back.min() {
                Some(x) => x,
                None => 0,
            };
            proof {
                lemma_seq_min_reverse(self.back.view());
                lemma_seq_min_concat(self.back.view().reverse(), self.front.view());
                lemma_seq_min_in_range(self.front.view());
                lemma_seq_min_in_range(self.back.view());
            }
            if f < b {
                Some(f)
            } else {
                Some(b)
            }
        }
    }

    pub fn len(&self) -> (r: usize)
        requires
            self.front.view().len() + self.back.view().len() <= usize::MAX,
        ensures
            r == self.view().len(),
    {
        self.front.len() + self.back.len()
    }

    pub fn is_empty(&self) -> (r: bool)
        ensures
            r == (self.view().len() == 0),
    {
        self.front.is_empty() && self.back.is_empty()
    }

    /// Moves every element of `front` onto `back`, newest first, so that the
    /// oldest element ends on top of `back`.
    pub fn pull_to_back(&mut self)
        requires
            old(self).wf(),
        ensures
            final(self).wf(),
            final(self).front.view() == Seq::<i64>::empty(),
            final(self).back.view() == old(self).back.view() + old(self).front.view().reverse(),
    {
        while !self.front.is_empty()
            invariant
                self.wf(),
                self.back.view() + self.front.view().reverse() == old(self).back.view()
                    + old(self).front.view().reverse(),
            decreases self.front.view().len(),
        {
            let ghost prev = *self;
            let x = match self.front.pop() {
                Some(x) => x,
                None => 0,
            };
            self.back.push(x);
            proof {
                assert(self.back.view() + self.front.view().reverse() =~= prev.back.view()
                    + prev.front.view().reverse());
            }
        }
        proof {
            assert(self.front.view() =~= Seq::<i64>::empty());
            assert(self.back.view() =~= self.back.view() + self.front.view().reverse());
        }
    }

    /// Empties `front` onto `back` and pops: the overall oldest element when
    /// `back` was empty.
    pub fn pull_and_pop(&mut self) -> (r: Option<i64>)
        requires
            old(self).wf(),
            old(self).back.view().len() == 0,
        ensures
            final(self).wf(),
            old(self).view().len() == 0 ==> r is None && final(self).view() == old(self).view(),
            old(self).view().len() > 0 ==> r == Some(old(self).view()[0]) && final(self).view()
                == old(self).view().skip(1),
    {
        self.pull_to_back();
        let ghost mid = *self;
        let r = self.back.pop();
        proof {
            assert(mid.back.view() =~= old(self).front.view().reverse());
            if old(self).view().len() == 0 {
                assert(final(self).view() =~= old(self).view());
            } else {
                assert(old(self).view() =~= old(self).front.view());
                assert(mid.back.view().last() == old(self).view()[0]);
                assert(self.view() =~= old(self).view().skip(1));
            }
        }
        r
    }
}

} // verus!
