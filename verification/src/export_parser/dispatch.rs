//! Fan-out and fan-in: objects are dealt to the parser workers in turn, and
//! what the workers hand back is put into stream order again.

use vstd::prelude::*;

use crate::export_parser::reorder::{
    arrivals_view, arrives, lemma_all_released, objects_of, objects_view, ReorderBuffer,
    ReorderView,
};
use crate::export_parser::structured_parse::{Structured, StructuredExportObject};
use crate::wait_obj::{Arrival, WaitObj};

verus! {

/// The share of worker `w`, of `n` workers that take objects in turn, among
/// the first `count` of `objects`: those at the places `w`, `w + n`,
/// `w + 2n`, ..., in stream order, each with its place.
pub open spec fn share(objects: Seq<Structured>, n: int, w: int, count: int) -> Seq<Arrival>
    decreases count,
{
    if count <= 0 {
        Seq::empty()
    } else {
        let earlier = share(objects, n, w, count - 1);
        if (count - 1) % n == w {
            earlier.push(Arrival { index: (count - 1) as nat, obj: objects[count - 1] })
        } else {
            earlier
        }
    }
}

/// The shares of all `n` workers among `objects`.
pub open spec fn shares(objects: Seq<Structured>, n: int) -> Seq<Seq<Arrival>> {
    Seq::new(n as nat, |w: int| share(objects, n, w, objects.len() as int))
}

/// The contents of the workers' queues.
pub open spec fn queues_view(queues: Seq<Vec<WaitObj>>) -> Seq<Seq<Arrival>> {
    queues.map_values(|q: Vec<WaitObj>| arrivals_view(q@))
}

/// The queues one behind the other: all of the first, then all of the
/// second, and so on.
pub open spec fn in_turn(queues: Seq<Seq<Arrival>>) -> Seq<Arrival>
    decreases queues.len(),
{
    if queues.len() == 0 {
        Seq::empty()
    } else {
        in_turn(queues.drop_last()) + queues.last()
    }
}

/// Deals `objects` to `n_parsing_threads` workers in turn: the object at
/// place `i` goes to worker `i mod n_parsing_threads`, with its place.
pub fn dispatch(objects: Vec<StructuredExportObject>, n_parsing_threads: usize) -> (queues: Vec<
    Vec<WaitObj>,
>)
    requires
        n_parsing_threads >= 1,
    ensures
        queues_view(queues@) == shares(objects_view(objects@), n_parsing_threads as int),
{
    let ghost all = objects_view(objects@);
    let ghost n = n_parsing_threads as int;
    let mut queues: Vec<Vec<WaitObj>> = Vec::new();
    let mut w: usize = 0;
    while w < n_parsing_threads
        invariant
            w <= n_parsing_threads,
            queues.len() == w,
            forall|j: int| 0 <= j < w ==> (#[trigger] queues[j])@.len() == 0,
        decreases n_parsing_threads - w,
    {
        queues.push(Vec::new());
        w += 1;
    }
    assert forall|j: int| 0 <= j < n implies arrivals_view((#[trigger] queues[j])@) == share(
        all,
        n,
        j,
        0,
    ) by {
        assert(arrivals_view(queues[j]@) =~= Seq::empty());
    }
    let mut index: usize = 0;
    assert(all.len() == objects.len());
    for obj in it: objects
        invariant
            n == n_parsing_threads >= 1,
            index == it.index(),
            all.len() <= usize::MAX,
            it.seq().map_values(|o: StructuredExportObject| o@) == all,
            queues.len() == n,
            forall|j: int|
                0 <= j < n ==> arrivals_view((#[trigger] queues[j])@) == share(
                    all,
                    n,
                    j,
                    index as int,
                ),
    {
        assert(all[index as int] == obj@);
        let worker: usize = index % n_parsing_threads;
        let ghost before = queues@;
        let item = WaitObj { index, obj };
        queues[worker].push(item);
        assert forall|j: int| 0 <= j < n implies arrivals_view((#[trigger] queues[j])@) == share(
            all,
            n,
            j,
            index + 1,
        ) by {
            if j == worker {
                assert(arrivals_view(queues[j]@) == arrivals_view(before[j]@).push(item@));
            } else {
                assert(queues[j] == before[j]);
            }
        }
        index += 1;
    }
    assert(queues_view(queues@) =~= shares(all, n));
    queues
}

/// No object in the queues is at the last place that can be counted.
pub open spec fn countable(queues: Seq<Seq<Arrival>>) -> bool {
    forall|w: int, p: int|
        0 <= w < queues.len() && 0 <= p < queues[w].len() ==> (#[trigger] queues[w][p]).index
            < usize::MAX
}

proof fn lemma_objects_of_add(a: Seq<Arrival>, b: Seq<Arrival>)
    ensures
        objects_of(a + b) == objects_of(a) + objects_of(b),
{
    assert(objects_of(a + b) =~= objects_of(a) + objects_of(b));
}

/// Takes what the workers hand back, one worker's whole queue after the
/// other, and puts it into stream order.  Gives the objects that could be
/// released, in stream order, and the number of objects left on hold for
/// want of one ahead of them.
pub fn collect_in_order(queues: Vec<Vec<WaitObj>>) -> (r: (Vec<StructuredExportObject>, usize))
    requires
        countable(queues_view(queues@)),
    ensures
        objects_view(r.0@) == objects_of(
            ReorderView::start().ran(in_turn(queues_view(queues@))).1,
        ),
        r.1 == ReorderView::start().ran(in_turn(queues_view(queues@))).0.waiting.len(),
{
    let ghost all = queues_view(queues@);
    let mut buffer = ReorderBuffer::new();
    let mut ordered: Vec<StructuredExportObject> = Vec::new();
    assert(all.take(0) == Seq::<Seq<Arrival>>::empty());
    assert(objects_view(ordered@) == objects_of(Seq::<Arrival>::empty()));
    for queue in outer: queues
        invariant
            outer.seq().map_values(|q: Vec<WaitObj>| arrivals_view(q@)) == all,
            countable(all),
            buffer@.countable(),
            buffer@ == ReorderView::start().ran(in_turn(all.take(outer.index() as int))).0,
            objects_view(ordered@) == objects_of(
                ReorderView::start().ran(in_turn(all.take(outer.index() as int))).1,
            ),
    {
        let ghost w = outer.index() as int;
        let ghost head = in_turn(all.take(w));
        let ghost mine = arrivals_view(queue@);
        proof {
            assert(all[w] == mine);
            assert(all.take(w + 1).drop_last() == all.take(w));
            assert(all.take(w + 1).last() == mine);
            assert(head + mine.take(0) == head);
        }
        for item in inner: queue
            invariant
                inner.seq().map_values(|i: WaitObj| i@) == mine,
                forall|p: int| 0 <= p < mine.len() ==> (#[trigger] mine[p]).index < usize::MAX,
                buffer@.countable(),
                buffer@ == ReorderView::start().ran(head + mine.take(inner.index() as int)).0,
                objects_view(ordered@) == objects_of(
                    ReorderView::start().ran(head + mine.take(inner.index() as int)).1,
                ),
        {
            let ghost p = inner.index() as int;
            let ghost so_far = head + mine.take(p);
            let ghost now = head + mine.take(p + 1);
            let ghost done = objects_view(ordered@);
            proof {
                assert(mine[p] == item@);
                assert(now.drop_last() == so_far);
                assert(now.last() == item@);
            }
            let WaitObj { index, obj } = item;
            let mut released = buffer.accept(index, obj);
            let ghost more = objects_view(released@);
            ordered.append(&mut released);
            proof {
                assert(objects_view(ordered@) == done + more);
                lemma_objects_of_add(
                    ReorderView::start().ran(so_far).1,
                    ReorderView::start().ran(so_far).0.accepted(now.last()).1,
                );
            }
        }
        assert(mine.take(mine.len() as int) == mine);
    }
    assert(all.take(all.len() as int) == all);
    (ordered, buffer.waiting())
}

/// What holds of the share of one worker: its objects are the objects at
/// the worker's places, each with its place, in stream order, and none of
/// the worker's places is missing.
pub proof fn lemma_share(objects: Seq<Structured>, n: int, w: int, count: int)
    requires
        n >= 1,
        0 <= count <= objects.len(),
    ensures
        forall|p: int|
            0 <= p < share(objects, n, w, count).len() ==> {
                let a = #[trigger] share(objects, n, w, count)[p];
                a.index < count && a.index % (n as nat) == w && a.obj == objects[a.index as int]
            },
        forall|p: int, q: int|
            0 <= p < q < share(objects, n, w, count).len() ==> (#[trigger] share(
                objects,
                n,
                w,
                count,
            )[p]).index < (#[trigger] share(objects, n, w, count)[q]).index,
        forall|k: nat| k < count && k % (n as nat) == w ==> #[trigger] arrives(share(objects, n, w, count), k),
    decreases count,
{
    if count > 0 {
        lemma_share(objects, n, w, count - 1);
        let earlier = share(objects, n, w, count - 1);
        let now = share(objects, n, w, count);
        assert forall|k: nat| k < count && k % (n as nat) == w implies #[trigger] arrives(
            now,
            k,
        ) by {
            if k < count - 1 {
                assert(arrives(earlier, k));
                let i = choose|i: int| 0 <= i < earlier.len() && (#[trigger] earlier[i]).index == k;
                assert(now[i] == earlier[i]);
            } else {
                assert(now[earlier.len() as int].index == k);
            }
        }
    }
}

/// What holds of the queues of the first `m` workers taken one behind the
/// other: every object in them is the object at its place, no place comes
/// twice, and no place of these workers is missing.
proof fn lemma_in_turn(objects: Seq<Structured>, n: int, m: int)
    requires
        n >= 1,
        0 <= m <= n,
    ensures
        forall|i: int|
            0 <= i < in_turn(shares(objects, n).take(m)).len() ==> {
                let a = #[trigger] in_turn(shares(objects, n).take(m))[i];
                a.index < objects.len() && a.index % (n as nat) < m && a.obj == objects[a.index as int]
            },
        forall|i: int, j: int|
            0 <= i < j < in_turn(shares(objects, n).take(m)).len() ==> (#[trigger] in_turn(
                shares(objects, n).take(m),
            )[i]).index != (#[trigger] in_turn(shares(objects, n).take(m))[j]).index,
        forall|k: nat|
            k < objects.len() && k % (n as nat) < m ==> #[trigger] arrives(
                in_turn(shares(objects, n).take(m)),
                k,
            ),
    decreases m,
{
    if m > 0 {
        lemma_in_turn(objects, n, m - 1);
        lemma_share(objects, n, m - 1, objects.len() as int);
        let queues = shares(objects, n).take(m);
        assert(queues.drop_last() == shares(objects, n).take(m - 1));
        assert(queues.last() == share(objects, n, m - 1, objects.len() as int));
        let head = in_turn(queues.drop_last());
        let tail = queues.last();
        let now = in_turn(queues);
        assert forall|i: int| 0 <= i < now.len() implies {
            let a = #[trigger] now[i];
            a.index < objects.len() && a.index % (n as nat) < m && a.obj == objects[a.index as int]
        } by {
            if i < head.len() {
                assert(now[i] == head[i]);
            } else {
                assert(now[i] == tail[i - head.len()]);
            }
        }
        assert forall|i: int, j: int| 0 <= i < j < now.len() implies (#[trigger] now[i]).index != (
        #[trigger] now[j]).index by {
            if j < head.len() {
                assert(now[i] == head[i]);
                assert(now[j] == head[j]);
            } else if i < head.len() {
                assert(now[i] == head[i]);
                assert(now[j] == tail[j - head.len()]);
            } else {
                assert(now[i] == tail[i - head.len()]);
                assert(now[j] == tail[j - head.len()]);
            }
        }
        assert forall|k: nat| k < objects.len() && k % (n as nat) < m implies #[trigger] arrives(
            now,
            k,
        ) by {
            if k % (n as nat) < m - 1 {
                assert(arrives(head, k));
                let i = choose|i: int| 0 <= i < head.len() && (#[trigger] head[i]).index == k;
                assert(now[i] == head[i]);
            } else {
                assert(arrives(tail, k));
                let i = choose|i: int| 0 <= i < tail.len() && (#[trigger] tail[i]).index == k;
                assert(now[head.len() + i] == tail[i]);
            }
        }
    } else {
        assert(shares(objects, n).take(0) == Seq::<Seq<Arrival>>::empty());
    }
}

/// Ordered parallelism.  With any number of workers, when every worker has
/// handed back its share, whole and one worker after the other, the objects
/// have been released in stream order, all of them, and nothing is left on
/// hold.
pub proof fn lemma_shares_come_out_in_stream_order(objects: Seq<Structured>, n: int)
    requires
        n >= 1,
    ensures
        objects_of(ReorderView::start().ran(in_turn(shares(objects, n))).1) == objects,
        ReorderView::start().ran(in_turn(shares(objects, n))).0.waiting.len() == 0,
        ReorderView::start().ran(in_turn(shares(objects, n))).0.next_expected == objects.len(),
{
    let queues = shares(objects, n);
    assert(queues.take(n) == queues);
    lemma_in_turn(objects, n, n);
    let arrivals = in_turn(queues);
    assert forall|k: nat| k < objects.len() implies #[trigger] arrives(arrivals, k) by {
        assert(k % (n as nat) < n) by (nonlinear_arith)
            requires
                n >= 1,
        ;
    }
    lemma_all_released(arrivals, objects.len());
    let out = ReorderView::start().ran(arrivals).1;
    assert forall|k: int| 0 <= k < objects.len() implies #[trigger] out[k].obj == objects[k] by {
        assert(arrives(arrivals, k as nat));
        let i = choose|i: int| 0 <= i < arrivals.len() && (#[trigger] arrivals[i]).index == k;
        assert(out[arrivals[i].index as int] == arrivals[i]);
    }
    assert(objects_of(out) =~= objects);
}

} // verus!
