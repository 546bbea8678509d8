//! The ordered re-sequencer.  Parsed objects come back from the parser
//! workers in any order; the buffer holds back those that are early and
//! releases every object exactly when all objects ahead of it in the stream
//! have been released.

use vstd::prelude::*;

use crate::export_parser::structured_parse::{Structured, StructuredExportObject};
use crate::wait_obj::{Arrival, WaitObj};

verus! {

/// The contents of a list of objects on hold.
pub open spec fn arrivals_view(v: Seq<WaitObj>) -> Seq<Arrival> {
    v.map_values(|w: WaitObj| w@)
}

/// The state of a [`ReorderBuffer`].
pub struct ReorderView {
    /// The place of the object that is released next.
    pub next_expected: nat,
    /// The objects on hold, by falling place: the last one leaves first.  Of
    /// two at the same place, the one that came first leaves first.
    pub waiting: Seq<Arrival>,
}

/// Where an object at place `index` goes among those on hold: ahead of the
/// first one, from `from` on, whose place is not higher.
pub open spec fn slot(waiting: Seq<Arrival>, index: nat, from: int) -> int
    decreases waiting.len() - from,
{
    if from < 0 || from >= waiting.len() {
        waiting.len() as int
    } else if waiting[from].index <= index {
        from
    } else {
        slot(waiting, index, from + 1)
    }
}

impl ReorderView {
    /// An empty buffer at the start of a stream.
    pub open spec fn start() -> ReorderView {
        ReorderView { next_expected: 0, waiting: Seq::empty() }
    }

    /// Releases objects from the end of those on hold for as long as the
    /// last one is the one expected next.  Gives the buffer behind that and
    /// what was released, in order.
    pub open spec fn released(self) -> (ReorderView, Seq<Arrival>)
        decreases self.waiting.len(),
    {
        if self.waiting.len() > 0 && self.waiting.last().index == self.next_expected {
            let (rest, out) = ReorderView {
                next_expected: self.next_expected + 1,
                waiting: self.waiting.drop_last(),
            }.released();
            (rest, seq![self.waiting.last()] + out)
        } else {
            (self, Seq::empty())
        }
    }

    /// The buffer after `a` has come in, and what that releases, in order.
    /// The expected object is released at once, followed by those on hold
    /// that are next in line; any other object is put on hold.
    pub open spec fn accepted(self, a: Arrival) -> (ReorderView, Seq<Arrival>) {
        if a.index == self.next_expected {
            let (rest, out) = ReorderView {
                next_expected: self.next_expected + 1,
                waiting: self.waiting,
            }.released();
            (rest, seq![a] + out)
        } else {
            ReorderView {
                waiting: self.waiting.insert(slot(self.waiting, a.index, 0), a),
                ..self
            }.released()
        }
    }

    /// The buffer after all of `arrivals` have come in, in that order, and
    /// everything that this released, in order.
    pub open spec fn ran(self, arrivals: Seq<Arrival>) -> (ReorderView, Seq<Arrival>)
        decreases arrivals.len(),
    {
        if arrivals.len() == 0 {
            (self, Seq::empty())
        } else {
            let (before, out) = self.ran(arrivals.drop_last());
            let (after, more) = before.accepted(arrivals.last());
            (after, out + more)
        }
    }
}

/// The objects of a list of arrivals.
pub open spec fn objects_of(arrivals: Seq<Arrival>) -> Seq<Structured> {
    arrivals.map_values(|a: Arrival| a.obj)
}

/// The contents of a list of structured objects.
pub open spec fn objects_view(v: Seq<StructuredExportObject>) -> Seq<Structured> {
    v.map_values(|o: StructuredExportObject| o@)
}

/// Puts parsed objects back into stream order.
pub struct ReorderBuffer {
    next_expected: usize,
    waiting: Vec<WaitObj>,
}

impl View for ReorderBuffer {
    type V = ReorderView;

    closed spec fn view(&self) -> ReorderView {
        ReorderView {
            next_expected: self.next_expected as nat,
            waiting: arrivals_view(self.waiting@),
        }
    }
}

impl ReorderView {
    /// No object on hold is at the last place that can be counted.
    pub open spec fn countable(self) -> bool {
        forall|i: int| 0 <= i < self.waiting.len() ==> (#[trigger] self.waiting[i]).index < usize::MAX
    }
}

proof fn lemma_slot(waiting: Seq<Arrival>, index: nat, from: int)
    requires
        0 <= from <= waiting.len(),
    ensures
        from <= slot(waiting, index, from) <= waiting.len(),
        forall|j: int|
            from <= j < slot(waiting, index, from) ==> (#[trigger] waiting[j]).index > index,
        slot(waiting, index, from) < waiting.len() ==> waiting[slot(waiting, index, from)].index
            <= index,
    decreases waiting.len() - from,
{
    if from < waiting.len() && waiting[from].index > index {
        lemma_slot(waiting, index, from + 1);
    }
}

proof fn lemma_slot_is(waiting: Seq<Arrival>, index: nat, from: int, at: int)
    requires
        0 <= from <= at <= waiting.len(),
        forall|j: int| from <= j < at ==> (#[trigger] waiting[j]).index > index,
        at < waiting.len() ==> waiting[at].index <= index,
    ensures
        slot(waiting, index, from) == at,
    decreases at - from,
{
    if from < at {
        lemma_slot_is(waiting, index, from + 1, at);
    }
}

impl ReorderBuffer {
    /// An empty buffer that expects the object at place 0.
    pub fn new() -> (b: ReorderBuffer)
        ensures
            b@ == ReorderView::start(),
            b@.countable(),
    {
        let b = ReorderBuffer { next_expected: 0, waiting: Vec::new() };
        assert(arrivals_view(b.waiting@) =~= Seq::empty());
        b
    }

    /// The place of the object that is released next; the number of objects
    /// released so far.
    pub fn next_expected(&self) -> (n: usize)
        ensures
            n == self@.next_expected,
    {
        self.next_expected
    }

    /// The number of objects on hold.
    pub fn waiting(&self) -> (n: usize)
        ensures
            n == self@.waiting.len(),
    {
        self.waiting.len()
    }

    fn release(&mut self, out: &mut Vec<StructuredExportObject>)
        requires
            old(self)@.countable(),
        ensures
            final(self)@ == old(self)@.released().0,
            objects_view(final(out)@) == objects_view(old(out)@) + objects_of(
                old(self)@.released().1,
            ),
            final(self)@.countable(),
    {
        assert(objects_view(out@) + objects_of(self@.released().1) == objects_view(old(out)@)
            + objects_of(old(self)@.released().1));
        loop
            invariant
                self@.countable(),
                self@.released().0 == old(self)@.released().0,
                objects_view(out@) + objects_of(self@.released().1) == objects_view(old(out)@)
                    + objects_of(old(self)@.released().1),
            ensures
                self@.released() == (self@, Seq::<Arrival>::empty()),
            decreases self.waiting.len(),
        {
            let n: usize = self.waiting.len();
            if n == 0 || self.waiting[n - 1].index != self.next_expected {
                assert(arrivals_view(self.waiting@).len() == n);
                if n > 0 {
                    assert(arrivals_view(self.waiting@).last() == self.waiting@[n - 1]@);
                }
                break ;
            }
            let ghost before = self@;
            let ghost held = arrivals_view(self.waiting@);
            let ghost done = objects_view(out@);
            assert(held.last() == self.waiting@[n - 1]@);
            assert(held[n - 1].index < usize::MAX);
            let w = match self.waiting.pop() {
                Some(w) => w,
                None => {
                    break ;
                },
            };
            assert(arrivals_view(self.waiting@) == held.drop_last());
            self.next_expected = self.next_expected + 1;
            let ghost first = w@;
            out.push(w.obj);
            proof {
                assert(objects_view(out@) == done + objects_of(seq![first]));
                assert(before.released() == (
                    self@.released().0,
                    seq![first] + self@.released().1,
                ));
                assert(objects_of(seq![first] + self@.released().1) == objects_of(seq![first])
                    + objects_of(self@.released().1));
                assert(objects_view(out@) + objects_of(self@.released().1) == done + objects_of(
                    before.released().1,
                ));
                assert forall|i: int| 0 <= i < self@.waiting.len() implies (
                #[trigger] self@.waiting[i]).index < usize::MAX by {
                    assert(self@.waiting[i] == held[i]);
                }
            }
        }
        assert(objects_of(Seq::<Arrival>::empty()) == Seq::<Structured>::empty());
        assert(objects_view(out@) + Seq::<Structured>::empty() == objects_view(out@));
    }

    /// Takes the object at place `index` of the stream and gives back the
    /// objects that can now be released, in stream order.
    pub fn accept(&mut self, index: usize, obj: StructuredExportObject) -> (out: Vec<
        StructuredExportObject,
    >)
        requires
            old(self)@.countable(),
            index < usize::MAX,
        ensures
            final(self)@ == old(self)@.accepted(Arrival { index: index as nat, obj: obj@ }).0,
            objects_view(out@) == objects_of(
                old(self)@.accepted(Arrival { index: index as nat, obj: obj@ }).1,
            ),
            final(self)@.countable(),
    {
        let mut out: Vec<StructuredExportObject> = Vec::new();
        let ghost a = Arrival { index: index as nat, obj: obj@ };
        assert(objects_view(out@) =~= Seq::empty());
        if index == self.next_expected {
            out.push(obj);
            assert(objects_view(out@) == objects_of(seq![a]));
            self.next_expected = self.next_expected + 1;
            let ghost mid = self@;
            self.release(&mut out);
            assert(objects_of(seq![a] + mid.released().1) == objects_of(seq![a]) + objects_of(
                mid.released().1,
            ));
        } else {
            let ghost held = arrivals_view(self.waiting@);
            let mut at: usize = 0;
            while at < self.waiting.len() && self.waiting[at].index > index
                invariant
                    at <= self.waiting.len(),
                    held == arrivals_view(self.waiting@),
                    forall|j: int| 0 <= j < at ==> (#[trigger] held[j]).index > index as nat,
                decreases self.waiting.len() - at,
            {
                assert(held[at as int] == self.waiting@[at as int]@);
                at += 1;
            }
            proof {
                if at < self.waiting.len() {
                    assert(held[at as int] == self.waiting@[at as int]@);
                }
                lemma_slot_is(held, index as nat, 0, at as int);
            }
            let w = WaitObj { index, obj };
            self.waiting.insert(at, w);
            assert(arrivals_view(self.waiting@) == held.insert(at as int, a));
            let ghost mid = self@;
            assert(mid.countable()) by {
                assert forall|i: int| 0 <= i < mid.waiting.len() implies (
                #[trigger] mid.waiting[i]).index < usize::MAX by {
                    if i < at {
                        assert(mid.waiting[i] == held[i]);
                    } else if i > at {
                        assert(mid.waiting[i] == held[i - 1]);
                    }
                }
            }
            self.release(&mut out);
            assert(objects_view(out@) == objects_of(mid.released().1));
        }
        out
    }
}

/// Whatever the buffer releases in one go is at consecutive places, from
/// the place that it expected.
pub proof fn lemma_released_consecutive(s: ReorderView)
    ensures
        s.released().0.next_expected == s.next_expected + s.released().1.len(),
        s.released().1.len() <= s.waiting.len(),
        s.released().0.waiting == s.waiting.take(s.waiting.len() - s.released().1.len()),
        forall|j: int|
            0 <= j < s.released().1.len() ==> {
                &&& (#[trigger] s.released().1[j]) == s.waiting[s.waiting.len() - 1 - j]
                &&& s.released().1[j].index == s.next_expected + j
            },
        s.released().0.waiting.len() > 0 ==> s.released().0.waiting.last().index
            != s.released().0.next_expected,
    decreases s.waiting.len(),
{
    if s.waiting.len() > 0 && s.waiting.last().index == s.next_expected {
        let next = ReorderView {
            next_expected: s.next_expected + 1,
            waiting: s.waiting.drop_last(),
        };
        lemma_released_consecutive(next);
        let (rest, out) = next.released();
        let all = seq![s.waiting.last()] + out;
        assert(rest.waiting == s.waiting.take(s.waiting.len() - all.len()));
        assert forall|j: int| 0 <= j < all.len() implies {
            &&& (#[trigger] all[j]) == s.waiting[s.waiting.len() - 1 - j]
            &&& all[j].index == s.next_expected + j
        } by {
            if j > 0 {
                assert(all[j] == out[j - 1]);
            }
        }
    } else {
        assert(s.waiting.take(s.waiting.len() as int) == s.waiting);
    }
}

/// Whatever the buffer releases when an object comes in is at consecutive
/// places, from the place that it expected.
pub proof fn lemma_accepted_consecutive(s: ReorderView, a: Arrival)
    ensures
        s.accepted(a).0.next_expected == s.next_expected + s.accepted(a).1.len(),
        forall|j: int|
            0 <= j < s.accepted(a).1.len() ==> (#[trigger] s.accepted(a).1[j]).index
                == s.next_expected + j,
{
    if a.index == s.next_expected {
        let next = ReorderView { next_expected: s.next_expected + 1, waiting: s.waiting };
        lemma_released_consecutive(next);
        let out = next.released().1;
        let all = seq![a] + out;
        assert forall|j: int| 0 <= j < all.len() implies (#[trigger] all[j]).index
            == s.next_expected + j by {
            if j > 0 {
                assert(all[j] == out[j - 1]);
            }
        }
    } else {
        let next = ReorderView {
            waiting: s.waiting.insert(slot(s.waiting, a.index, 0), a),
            ..s
        };
        lemma_released_consecutive(next);
    }
}

/// Order preservation.  In whatever order objects come in, and whether or
/// not some are missing or come twice, the objects that the buffer releases
/// are at the places 0, 1, 2, ... of the stream, in that order, and the
/// buffer expects the place behind the last one released.
pub proof fn lemma_released_in_stream_order(arrivals: Seq<Arrival>)
    ensures
        ReorderView::start().ran(arrivals).1.len() == ReorderView::start().ran(
            arrivals,
        ).0.next_expected,
        forall|k: int|
            0 <= k < ReorderView::start().ran(arrivals).1.len() ==> (
            #[trigger] ReorderView::start().ran(arrivals).1[k]).index == k,
    decreases arrivals.len(),
{
    if arrivals.len() > 0 {
        lemma_released_in_stream_order(arrivals.drop_last());
        let (before, out) = ReorderView::start().ran(arrivals.drop_last());
        lemma_accepted_consecutive(before, arrivals.last());
        let (after, more) = before.accepted(arrivals.last());
        let all = out + more;
        assert forall|k: int| 0 <= k < all.len() implies (#[trigger] all[k]).index == k by {
            if k >= out.len() {
                assert(all[k] == more[k - out.len()]);
            }
        }
    }
}

/// Those on hold are at strictly falling places.
pub open spec fn strictly_falling(waiting: Seq<Arrival>) -> bool {
    forall|i: int, j: int|
        0 <= i < j < waiting.len() ==> (#[trigger] waiting[i]).index > (#[trigger] waiting[j]).index
}

/// What holds of a buffer that has taken the objects `arrived`, no two of
/// them at one place, and has released `out`: every object that came in has
/// been released, at its place, or is on hold; nothing else is.
pub open spec fn in_step(s: ReorderView, arrived: Seq<Arrival>, out: Seq<Arrival>) -> bool {
    &&& strictly_falling(s.waiting)
    &&& forall|j: int|
        0 <= j < s.waiting.len() ==> (#[trigger] s.waiting[j]).index > s.next_expected
    &&& out.len() == s.next_expected
    &&& forall|k: int| 0 <= k < out.len() ==> (#[trigger] out[k]).index == k
    &&& forall|i: int|
        0 <= i < arrived.len() ==> {
            ||| ((#[trigger] arrived[i]).index < s.next_expected && out[arrived[i].index as int]
                == arrived[i])
            ||| s.waiting.contains(arrived[i])
        }
    &&& forall|j: int| 0 <= j < s.waiting.len() ==> arrived.contains(#[trigger] s.waiting[j])
    &&& forall|k: int| 0 <= k < out.len() ==> arrived.contains(#[trigger] out[k])
}

proof fn lemma_pushed_contains(arrived: Seq<Arrival>, a: Arrival)
    ensures
        arrived.push(a).contains(a),
        forall|x: Arrival| arrived.contains(x) ==> #[trigger] arrived.push(a).contains(x),
{
    let now = arrived.push(a);
    assert(now[arrived.len() as int] == a);
    assert forall|x: Arrival| arrived.contains(x) implies #[trigger] now.contains(x) by {
        let i = choose|i: int| 0 <= i < arrived.len() && arrived[i] == x;
        assert(now[i] == x);
    }
}

#[verifier::rlimit(60)]
proof fn lemma_step_expected(s: ReorderView, arrived: Seq<Arrival>, out: Seq<Arrival>, a: Arrival)
    requires
        in_step(s, arrived, out),
        a.index == s.next_expected,
    ensures
        in_step(s.accepted(a).0, arrived.push(a), out + s.accepted(a).1),
{
    let now = arrived.push(a);
    let w = s.waiting;
    lemma_pushed_contains(arrived, a);
    assert(now[arrived.len() as int] == a);
    let next = ReorderView { next_expected: s.next_expected + 1, waiting: w };
    lemma_released_consecutive(next);
    let (rest, more) = next.released();
    let all = out + (seq![a] + more);
    let kept = w.len() - more.len();
    assert(all[out.len() as int] == a);
    assert forall|k: int| 0 <= k < all.len() implies (#[trigger] all[k]).index == k
        && now.contains(all[k]) by {
        if k < out.len() {
            assert(all[k] == out[k]);
        } else if k > out.len() {
            let j = k - out.len() - 1;
            assert(all[k] == more[j]);
            assert(more[j] == w[w.len() - 1 - j]);
        }
    }
    assert forall|j: int| 0 <= j < rest.waiting.len() implies (
    #[trigger] rest.waiting[j]).index > rest.next_expected && now.contains(rest.waiting[j]) by {
        assert(rest.waiting[j] == w[j]);
        assert(rest.waiting.last() == w[kept - 1]);
        if more.len() > 0 {
            assert(more[more.len() - 1] == w[kept]);
            assert(w[kept - 1].index > w[kept].index);
        }
        assert(w[kept - 1].index > rest.next_expected);
        if j < kept - 1 {
            assert(w[j].index > w[kept - 1].index);
        }
    }
    assert(strictly_falling(rest.waiting)) by {
        assert forall|i: int, j: int| 0 <= i < j < rest.waiting.len() implies (
        #[trigger] rest.waiting[i]).index > (#[trigger] rest.waiting[j]).index by {
            assert(rest.waiting[i] == w[i]);
            assert(rest.waiting[j] == w[j]);
        }
    }
    assert forall|i: int| 0 <= i < now.len() implies {
        ||| ((#[trigger] now[i]).index < rest.next_expected && all[now[i].index as int]
            == now[i])
        ||| rest.waiting.contains(now[i])
    } by {
        if i < arrived.len() {
            assert(now[i] == arrived[i]);
            if arrived[i].index < s.next_expected && out[arrived[i].index as int]
                == arrived[i] {
                assert(all[arrived[i].index as int] == out[arrived[i].index as int]);
            } else {
                let j = choose|j: int| 0 <= j < w.len() && w[j] == arrived[i];
                if j < kept {
                    assert(rest.waiting[j] == arrived[i]);
                } else {
                    let m = w.len() - 1 - j;
                    assert(more[m] == w[j]);
                    assert(all[out.len() + 1 + m] == more[m]);
                }
            }
        }
    }
}

#[verifier::rlimit(60)]
proof fn lemma_step_held(s: ReorderView, arrived: Seq<Arrival>, out: Seq<Arrival>, a: Arrival)
    requires
        in_step(s, arrived, out),
        a.index != s.next_expected,
        forall|i: int| 0 <= i < arrived.len() ==> (#[trigger] arrived[i]).index != a.index,
    ensures
        in_step(s.accepted(a).0, arrived.push(a), out + s.accepted(a).1),
{
    let now = arrived.push(a);
    let w = s.waiting;
    lemma_pushed_contains(arrived, a);
    assert(now[arrived.len() as int] == a);
    if a.index < s.next_expected {
        let seen = out[a.index as int];
        let i = choose|i: int| 0 <= i < arrived.len() && arrived[i] == seen;
        assert(arrived[i].index == a.index);
    }
    lemma_slot(w, a.index, 0);
    let at = slot(w, a.index, 0);
    let held = w.insert(at, a);
    let next = ReorderView { waiting: held, ..s };
    if at < w.len() {
        let i = choose|i: int| 0 <= i < arrived.len() && arrived[i] == w[at];
        assert(arrived[i].index != a.index);
    }
    assert(held[at] == a);
    assert forall|j: int| 0 <= j < held.len() implies (#[trigger] held[j]).index
        > s.next_expected && now.contains(held[j]) by {
        if j < at {
            assert(held[j] == w[j]);
        } else if j > at {
            assert(held[j] == w[j - 1]);
        }
    }
    assert(strictly_falling(held)) by {
        assert forall|i: int, j: int| 0 <= i < j < held.len() implies (
        #[trigger] held[i]).index > (#[trigger] held[j]).index by {
            if i < at {
                assert(held[i] == w[i]);
            } else if i > at {
                assert(held[i] == w[i - 1]);
            }
            if j < at {
                assert(held[j] == w[j]);
            } else if j > at {
                assert(held[j] == w[j - 1]);
                if i == at && j - 1 > at {
                    assert(w[at].index > w[j - 1].index);
                }
            }
        }
    }
    assert(next.released() == (next, Seq::<Arrival>::empty()));
    assert(out + Seq::<Arrival>::empty() == out);
    assert forall|i: int| 0 <= i < now.len() implies {
        ||| ((#[trigger] now[i]).index < next.next_expected && out[now[i].index as int]
            == now[i])
        ||| held.contains(now[i])
    } by {
        if i < arrived.len() {
            assert(now[i] == arrived[i]);
            if !(arrived[i].index < s.next_expected && out[arrived[i].index as int]
                == arrived[i]) {
                let j = choose|j: int| 0 <= j < w.len() && w[j] == arrived[i];
                if j < at {
                    assert(held[j] == w[j]);
                } else {
                    assert(held[j + 1] == w[j]);
                }
            }
        }
    }
}

proof fn lemma_step(s: ReorderView, arrived: Seq<Arrival>, out: Seq<Arrival>, a: Arrival)
    requires
        in_step(s, arrived, out),
        forall|i: int| 0 <= i < arrived.len() ==> (#[trigger] arrived[i]).index != a.index,
    ensures
        in_step(s.accepted(a).0, arrived.push(a), out + s.accepted(a).1),
{
    if a.index == s.next_expected {
        lemma_step_expected(s, arrived, out, a);
    } else {
        lemma_step_held(s, arrived, out, a);
    }
}

proof fn lemma_ran_in_step(arrivals: Seq<Arrival>)
    requires
        forall|i: int, j: int|
            0 <= i < j < arrivals.len() ==> (#[trigger] arrivals[i]).index != (
            #[trigger] arrivals[j]).index,
    ensures
        in_step(
            ReorderView::start().ran(arrivals).0,
            arrivals,
            ReorderView::start().ran(arrivals).1,
        ),
    decreases arrivals.len(),
{
    if arrivals.len() > 0 {
        let earlier = arrivals.drop_last();
        assert forall|i: int, j: int| 0 <= i < j < earlier.len() implies (
        #[trigger] earlier[i]).index != (#[trigger] earlier[j]).index by {
            assert(earlier[i] == arrivals[i]);
            assert(earlier[j] == arrivals[j]);
        }
        lemma_ran_in_step(earlier);
        let (before, out) = ReorderView::start().ran(earlier);
        assert forall|i: int| 0 <= i < earlier.len() implies (#[trigger] earlier[i]).index
            != arrivals.last().index by {
            assert(earlier[i] == arrivals[i]);
        }
        lemma_step(before, earlier, out, arrivals.last());
        assert(earlier.push(arrivals.last()) == arrivals);
    }
}

/// Whether an object at place `k` is among `arrivals`.
pub open spec fn arrives(arrivals: Seq<Arrival>, k: nat) -> bool {
    exists|i: int| 0 <= i < arrivals.len() && (#[trigger] arrivals[i]).index == k
}

/// Heap drain.  When each of the places 0 to `n - 1` has come in exactly
/// once, in whatever order, then nothing is on hold any more, the buffer
/// expects place `n`, and it has released the `n` objects each at its own
/// place.
pub proof fn lemma_all_released(arrivals: Seq<Arrival>, n: nat)
    requires
        forall|i: int| 0 <= i < arrivals.len() ==> (#[trigger] arrivals[i]).index < n,
        forall|i: int, j: int|
            0 <= i < j < arrivals.len() ==> (#[trigger] arrivals[i]).index != (
            #[trigger] arrivals[j]).index,
        forall|k: nat| k < n ==> #[trigger] arrives(arrivals, k),
    ensures
        ReorderView::start().ran(arrivals).0.waiting.len() == 0,
        ReorderView::start().ran(arrivals).0.next_expected == n,
        ReorderView::start().ran(arrivals).1.len() == n,
        forall|i: int|
            0 <= i < arrivals.len() ==> ReorderView::start().ran(arrivals).1[(
            #[trigger] arrivals[i]).index as int] == arrivals[i],
{
    lemma_ran_in_step(arrivals);
    let (s, out) = ReorderView::start().ran(arrivals);
    if s.next_expected < n {
        assert(arrives(arrivals, s.next_expected));
        let i = choose|i: int| 0 <= i < arrivals.len() && (#[trigger] arrivals[i]).index == s.next_expected;
        let j = choose|j: int| 0 <= j < s.waiting.len() && s.waiting[j] == arrivals[i];
        assert(s.waiting[j].index > s.next_expected);
    }
    if s.next_expected > n {
        let seen = out[n as int];
        let i = choose|i: int| 0 <= i < arrivals.len() && arrivals[i] == seen;
        assert(arrivals[i].index == n);
    }
    if s.waiting.len() > 0 {
        let held = s.waiting[0];
        let i = choose|i: int| 0 <= i < arrivals.len() && arrivals[i] == held;
        assert(arrivals[i].index > n);
    }
}

} // verus!
