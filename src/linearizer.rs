use vstd::prelude::*;

use crate::bitset::Bitset;
use crate::model::Event;
use crate::model::EventKind;
use crate::model::Model;
use crate::model::Operation;
use crate::model::Value;

verus! {

/// Operation `i` may be linearized next once the operations in `done` are:
/// it is not among them, and no other pending operation returned before it
/// was called.
pub open spec fn eligible<I, O>(ops: Seq<Operation<I, O>>, done: Set<int>, i: int) -> bool {
    &&& 0 <= i < ops.len()
    &&& !done.contains(i)
    &&& forall|j: int| 0 <= j < ops.len() && !done.contains(j) ==> ops[i].call <= #[trigger] ops[j].finish
}

/// The `k` operations outside `done` can be linearized from model state `s`:
/// some eligible operation is accepted by the model, and the rest can be
/// linearized from the state that it leaves.
pub open spec fn lin_rest<M: Model>(
    m: M,
    ops: Seq<Operation<M::Input, M::Output>>,
    done: Set<int>,
    s: <M::State as View>::V,
    k: nat,
) -> bool
    decreases k,
{
    if k == 0 {
        true
    } else {
        exists|i: int|
            #![trigger done.insert(i)]
            eligible(ops, done, i) && m.step_spec(s, ops[i].input, ops[i].output).0 && lin_rest(
                m,
                ops,
                done.insert(i),
                m.step_spec(s, ops[i].input, ops[i].output).1,
                (k - 1) as nat,
            )
    }
}

/// The history `ops` is linearizable against the model, from its initial state.
pub open spec fn linearizable<M: Model>(m: M, ops: Seq<Operation<M::Input, M::Output>>) -> bool {
    lin_rest(m, ops, Set::empty(), m.init_spec(), ops.len())
}

/// The verdict on a history: every group of the model's partition of it is
/// linearizable.
pub open spec fn verdict<M: Model>(m: M, history: Seq<Operation<M::Input, M::Output>>) -> bool {
    forall|k: int|
        0 <= k < m.partition_spec(history).len() ==> linearizable(
            m,
            #[trigger] m.partition_spec(history)[k],
        )
}

/// The indices below `n` whose bit is set.
pub open spec fn done_set(bits: Seq<bool>, n: int) -> Set<int> {
    Set::new(|i: int| 0 <= i < n && bits[i])
}

/// A search frame known to fail: its committed set is finite and the
/// operations outside it cannot be linearized from `s`.
pub open spec fn dead_end<M: Model>(
    m: M,
    ops: Seq<Operation<M::Input, M::Output>>,
    bits: Seq<bool>,
    s: <M::State as View>::V,
) -> bool {
    let d = done_set(bits, ops.len() as int);
    &&& d.finite()
    &&& d.len() <= ops.len()
    &&& !lin_rest(m, ops, d, s, (ops.len() - d.len()) as nat)
}

/// The model accepts the operations from position `i` on, run one after the
/// other in history order, from state `s`.
pub open spec fn accepts_in_order<M: Model>(
    m: M,
    ops: Seq<Operation<M::Input, M::Output>>,
    s: <M::State as View>::V,
    i: int,
) -> bool
    decreases ops.len() - i,
{
    if i < 0 || i >= ops.len() {
        true
    } else {
        m.step_spec(s, ops[i].input, ops[i].output).0 && accepts_in_order(
            m,
            ops,
            m.step_spec(s, ops[i].input, ops[i].output).1,
            i + 1,
        )
    }
}

/// No two operations overlap: each returned before the next one was called.
pub open spec fn sequential<I, O>(ops: Seq<Operation<I, O>>) -> bool {
    &&& forall|a: int| 0 <= a < ops.len() ==> (#[trigger] ops[a]).call <= ops[a].finish
    &&& forall|a: int, b: int| 0 <= a < b < ops.len() ==> (#[trigger] ops[a]).finish < (#[trigger] ops[b]).call
}

proof fn lemma_sequential_rest<M: Model>(
    m: M,
    ops: Seq<Operation<M::Input, M::Output>>,
    s: <M::State as View>::V,
    i: int,
)
    requires
        0 <= i <= ops.len(),
        sequential(ops),
        accepts_in_order(m, ops, s, i),
    ensures
        lin_rest(m, ops, Set::new(|j: int| 0 <= j < i), s, (ops.len() - i) as nat),
    decreases ops.len() - i,
{
    if i < ops.len() {
        let done = Set::new(|j: int| 0 <= j < i);
        let next = m.step_spec(s, ops[i].input, ops[i].output).1;
        lemma_sequential_rest(m, ops, next, i + 1);
        assert(done.insert(i) =~= Set::new(|j: int| 0 <= j < i + 1));
        assert forall|j: int| 0 <= j < ops.len() && !done.contains(j) implies ops[i].call
            <= #[trigger] ops[j].finish by {
            if j > i {
                assert(ops[i].finish < ops[j].call);
            }
        }
        assert(eligible(ops, done, i));
    }
}

/// A history without concurrency, whose outputs the model gives when the
/// operations run in history order, is linearizable.
pub proof fn lemma_sequential_linearizable<M: Model>(m: M, ops: Seq<Operation<M::Input, M::Output>>)
    requires
        sequential(ops),
        accepts_in_order(m, ops, m.init_spec(), 0),
    ensures
        linearizable(m, ops),
{
    lemma_sequential_rest(m, ops, m.init_spec(), 0);
    assert(Set::new(|j: int| 0 <= j < 0) =~= Set::<int>::empty());
}

/// The verdict is a function of the model and the history alone: checking
/// the same history again gives the same answer.
pub proof fn lemma_verdict_idempotent<M: Model>(
    m: M,
    h1: Seq<Operation<M::Input, M::Output>>,
    h2: Seq<Operation<M::Input, M::Output>>,
)
    requires
        h1 == h2,
    ensures
        verdict(m, h1) == verdict(m, h2),
{
}

/// Frames of one search that were fully explored and failed, each with its
/// committed set and model state, filed under the hash of the committed set.
struct Memo<M: Model> {
    table: std::collections::HashMap<u64, Vec<(Bitset, M::State)>>,
}

impl<M: Model> Memo<M> {
    spec fn sound(&self, m: M, ops: Seq<Operation<M::Input, M::Output>>) -> bool {
        forall|h: u64, e: int|
            #![trigger self.table@[h]@[e]]
            self.table@.contains_key(h) && 0 <= e < self.table@[h]@.len() ==> dead_end(
                m,
                ops,
                self.table@[h]@[e].0@,
                self.table@[h]@[e].1@,
            )
    }

    fn new() -> (r: Self)
        ensures
            forall|m: M, ops: Seq<Operation<M::Input, M::Output>>| r.sound(m, ops),
    {
        broadcast use vstd::std_specs::hash::group_hash_axioms;

        let r = Memo { table: std::collections::HashMap::new() };
        assert(r.table@ =~= Map::empty());
        r
    }

    /// Whether `(bits, s)`, whose committed set hashes to `h`, was recorded.
    fn contains(
        &self,
        m: &M,
        Ghost(ops): Ghost<Seq<Operation<M::Input, M::Output>>>,
        h: u64,
        bits: &Bitset,
        s: &M::State,
    ) -> (r: bool)
        requires
            self.sound(*m, ops),
        ensures
            r ==> dead_end(*m, ops, bits@, s@),
    {
        broadcast use vstd::std_specs::hash::group_hash_axioms;

        match self.table.get(&h) {
            None => false,
            Some(bucket) => {
                let mut e: usize = 0;
                while e < bucket.len()
                    invariant
                        self.sound(*m, ops),
                        self.table@.contains_key(h),
                        *bucket == self.table@[h],
                        e <= bucket@.len(),
                    decreases bucket@.len() - e,
                {
                    let entry = &bucket[e];
                    if entry.0.equals(bits) && m.equal(&entry.1, s) {
                        proof {
                            assert(dead_end(
                                *m,
                                ops,
                                self.table@[h]@[e as int].0@,
                                self.table@[h]@[e as int].1@,
                            ));
                        }
                        return true;
                    }
                    e = e + 1;
                }
                false
            },
        }
    }

    fn insert(
        &mut self,
        Ghost(m): Ghost<M>,
        Ghost(ops): Ghost<Seq<Operation<M::Input, M::Output>>>,
        h: u64,
        bits: Bitset,
        s: M::State,
    )
        requires
            old(self).sound(m, ops),
            dead_end(m, ops, bits@, s@),
        ensures
            final(self).sound(m, ops),
    {
        broadcast use vstd::std_specs::hash::group_hash_axioms;

        let mut bucket = match self.table.remove(&h) {
            Some(b) => b,
            None => Vec::new(),
        };
        let ghost prev = bucket@;
        proof {
            assert(old(self).table@.contains_key(h) ==> prev == old(self).table@[h]@);
            assert(!old(self).table@.contains_key(h) ==> prev.len() == 0);
        }
        bucket.push((bits, s));
        self.table.insert(h, bucket);
        proof {
            assert forall|h2: u64, e: int|
                self.table@.contains_key(h2) && 0 <= e < self.table@[h2]@.len() implies dead_end(
                m,
                ops,
                #[trigger] self.table@[h2]@[e].0@,
                self.table@[h2]@[e].1@,
            ) by {
                if h2 != h {
                    assert(self.table@[h2] == old(self).table@[h2]);
                } else if e < prev.len() {
                    assert(self.table@[h]@[e] == old(self).table@[h]@[e]);
                }
            }
        }
    }
}

/// The earliest return time among the pending operations, or `i64::MAX`
/// when none is pending.
fn earliest_pending_finish<I, O>(ops: &Vec<Operation<I, O>>, bits: &Bitset) -> (r: i64)
    requires
        ops@.len() <= bits@.len(),
    ensures
        forall|q: int| 0 <= q < ops@.len() && !bits@[q] ==> r <= #[trigger] ops@[q].finish,
        r == i64::MAX || exists|q: int| 0 <= q < ops@.len() && !bits@[q] && ops@[q].finish == r,
{
    let mut min_finish: i64 = i64::MAX;
    let mut j: usize = 0;
    while j < ops.len()
        invariant
            ops@.len() <= bits@.len(),
            j <= ops@.len(),
            forall|q: int| 0 <= q < j && !bits@[q] ==> min_finish <= #[trigger] ops@[q].finish,
            min_finish == i64::MAX || exists|q: int|
                0 <= q < ops@.len() && !bits@[q] && ops@[q].finish == min_finish,
        decreases ops@.len() - j,
    {
        if !bits.get(j) && ops[j].finish < min_finish {
            min_finish = ops[j].finish;
        }
        j = j + 1;
    }
    min_finish
}

/// Depth-first search for a linearization of the operations outside the
/// committed set of `bits`, from model state `state`. `bits` comes back as it
/// was given; every frame found to fail is recorded in `memo`.
fn search<M: Model>(
    m: &M,
    ops: &Vec<Operation<M::Input, M::Output>>,
    bits: &mut Bitset,
    state: &M::State,
    memo: &mut Memo<M>,
    remaining: usize,
) -> (r: bool)
    requires
        old(bits).wf(),
        ops@.len() <= old(bits)@.len(),
        done_set(old(bits)@, ops@.len() as int).finite(),
        done_set(old(bits)@, ops@.len() as int).len() + remaining == ops@.len(),
        old(memo).sound(*m, ops@),
    ensures
        r == lin_rest(*m, ops@, done_set(old(bits)@, ops@.len() as int), state@, remaining as nat),
        final(bits)@ == old(bits)@,
        final(bits).words().len() == old(bits).words().len(),
        final(memo).sound(*m, ops@),
    decreases remaining,
{
    if remaining == 0 {
        return true;
    }
    let n = ops.len();
    let ghost done = done_set(bits@, n as int);
    let ghost s = state@;
    let min_finish = earliest_pending_finish(ops, bits);
    let mut i: usize = 0;
    while i < n
        invariant
            n == ops@.len(),
            bits@ == old(bits)@,
            bits.words().len() == old(bits).words().len(),
            bits.wf(),
            n <= bits@.len(),
            done == done_set(old(bits)@, n as int),
            done.finite(),
            done.len() + remaining == n,
            0 < remaining,
            s == state@,
            memo.sound(*m, ops@),
            i <= n,
            forall|q: int| 0 <= q < n && !bits@[q] ==> min_finish <= #[trigger] ops@[q].finish,
            min_finish == i64::MAX || exists|q: int|
                0 <= q < n && !bits@[q] && ops@[q].finish == min_finish,
            forall|c: int|
                #![trigger done.insert(c)]
                0 <= c < i ==> !(eligible(ops@, done, c) && m.step_spec(
                    s,
                    ops@[c].input,
                    ops@[c].output,
                ).0 && lin_rest(
                    *m,
                    ops@,
                    done.insert(c),
                    m.step_spec(s, ops@[c].input, ops@[c].output).1,
                    (remaining - 1) as nat,
                )),
        decreases n - i,
    {
        let pending = !bits.get(i);
        proof {
            if pending {
                if ops@[i as int].call <= min_finish {
                    assert(eligible(ops@, done, i as int));
                } else {
                    assert(!eligible(ops@, done, i as int));
                }
            } else {
                assert(!eligible(ops@, done, i as int));
            }
        }
        if pending && ops[i].call <= min_finish {
            let (ok, next) = m.step(state, &ops[i].input, &ops[i].output);
            if ok {
                bits.set(i);
                proof {
                    assert(done_set(bits@, n as int) =~= done.insert(i as int));
                    assert(done.insert(i as int).len() == done.len() + 1);
                }
                let h = bits.hash();
                if !memo.contains(m, Ghost(ops@), h, bits, &next) {
                    if search(m, ops, bits, &next, memo, remaining - 1) {
                        bits.clear(i);
                        proof {
                            assert(bits@ =~= old(bits)@);
                            assert(eligible(ops@, done, i as int));
                            assert(lin_rest(*m, ops@, done.insert(i as int), next@, (remaining - 1) as nat));
                        }
                        return true;
                    }
                    let key = bits.clone();
                    memo.insert(Ghost(*m), Ghost(ops@), h, key, next);
                }
                bits.clear(i);
                proof {
                    assert(bits@ =~= old(bits)@);
                }
            }
        }
        i = i + 1;
    }
    false
}

/// Whether one group of operations is linearizable against the model.
fn check_partition<M: Model>(m: &M, ops: &Vec<Operation<M::Input, M::Output>>) -> (r: bool)
    requires
        ops@.len() <= usize::MAX - 63,
    ensures
        r == linearizable(*m, ops@),
{
    let n = ops.len();
    let mut bits = Bitset::new(n);
    let mut memo: Memo<M> = Memo::new();
    let state = m.init();
    proof {
        assert(done_set(bits@, n as int) =~= Set::<int>::empty());
    }
    search(m, ops, &mut bits, &state, &mut memo, n)
}

/// Whether a history of operations is linearizable: the model splits it into
/// independent groups, and each group must be linearizable on its own.
pub fn check_operations<M: Model>(model: M, history: Vec<Operation<M::Input, M::Output>>) -> (r:
    bool)
    requires
        forall|k: int|
            0 <= k < model.partition_spec(history@).len() ==> #[trigger] model.partition_spec(
                history@,
            )[k].len() <= usize::MAX - 63,
    ensures
        r == verdict(model, history@),
{
    let ghost h = history@;
    let parts = model.partition(history);
    let mut k: usize = 0;
    while k < parts.len()
        invariant
            h == history@,
            parts@.len() == model.partition_spec(h).len(),
            forall|q: int| 0 <= q < parts@.len() ==> #[trigger] parts@[q]@ == model.partition_spec(h)[q],
            forall|q: int| 0 <= q < parts@.len() ==> #[trigger] model.partition_spec(h)[q].len() <= usize::MAX - 63,
            k <= parts@.len(),
            forall|q: int| 0 <= q < k ==> linearizable(model, #[trigger] model.partition_spec(h)[q]),
        decreases parts@.len() - k,
    {
        assert(parts@[k as int]@ == model.partition_spec(h)[k as int]);
        if !check_partition(&model, &parts[k]) {
            proof {
                assert(!linearizable(model, model.partition_spec(h)[k as int]));
                assert(!verdict(model, h));
            }
            return false;
        }
        k = k + 1;
    }
    true
}

/// Position in `open` of the first pending call with identifier `id`, or the
/// length of `open` when there is none.
pub open spec fn open_slot<I>(open: Seq<(usize, I, usize)>, id: usize, k: int) -> int
    decreases open.len() - k,
{
    if k < 0 || k >= open.len() {
        open.len() as int
    } else if open[k].0 == id {
        k
    } else {
        open_slot(open, id, k + 1)
    }
}

/// Pairs each return event with the pending call of the same identifier,
/// scanning the events from position `i` on. `open` holds the calls not yet
/// returned (identifier, input, position) and `ops` the operations paired so
/// far, in the order of their returns. An operation is called and returns at
/// the positions of its two events. `None` when the stream is malformed: a
/// call whose identifier is still pending, a return with no pending call, an
/// event whose payload does not match its kind, or a call never returned.
pub open spec fn pair_from<I, O>(
    events: Seq<Event<Value<I, O>>>,
    i: int,
    open: Seq<(usize, I, usize)>,
    ops: Seq<Operation<I, O>>,
) -> Option<Seq<Operation<I, O>>>
    decreases events.len() - i,
{
    if i < 0 || i >= events.len() {
        if open.len() == 0 {
            Some(ops)
        } else {
            None
        }
    } else {
        let ev = events[i];
        let k = open_slot(open, ev.id, 0);
        match ev.kind {
            EventKind::CallEvent => if ev.value is Input && k == open.len() {
                pair_from(events, i + 1, open.push((ev.id, ev.value->Input_0, i as usize)), ops)
            } else {
                None
            },
            EventKind::ReturnEvent => if ev.value is Output && k < open.len() {
                pair_from(
                    events,
                    i + 1,
                    open.remove(k),
                    ops.push(
                        Operation {
                            input: open[k].1,
                            call: open[k].2 as i64,
                            output: ev.value->Output_0,
                            finish: i as i64,
                        },
                    ),
                )
            } else {
                None
            },
        }
    }
}

/// The operations of an event stream, or `None` when it is malformed.
pub open spec fn paired<I, O>(events: Seq<Event<Value<I, O>>>) -> Option<Seq<Operation<I, O>>> {
    pair_from(events, 0, Seq::empty(), Seq::empty())
}

/// Pairs the call and return events of a stream into operations, in the order
/// of their returns; each operation is called and returns at the positions of
/// its events. `None` when the stream is malformed.
pub fn events_to_operations<I, O>(history: Vec<Event<Value<I, O>>>) -> (r: Option<
    Vec<Operation<I, O>>,
>)
    requires
        history@.len() <= i64::MAX,
    ensures
        match r {
            Some(ops) => paired(history@) == Some(ops@),
            None => paired(history@) is None,
        },
{
    let ghost h = history@;
    let n = history.len();
    let mut rest = history;
    let mut open: Vec<(usize, I, usize)> = Vec::new();
    let mut ops: Vec<Operation<I, O>> = Vec::new();
    let mut i: usize = 0;
    proof {
        assert(rest@ =~= h.subrange(0, h.len() as int));
    }
    while i < n
        invariant
            h == history@,
            h.len() <= i64::MAX,
            n == h.len(),
            i <= h.len(),
            rest@ == h.subrange(i as int, h.len() as int),
            paired(h) == pair_from(h, i as int, open@, ops@),
            forall|q: int| 0 <= q < open@.len() ==> (#[trigger] open@[q]).2 < i,
        decreases n - i,
    {
        let ev = rest.remove(0);
        proof {
            assert(ev == h[i as int]);
        }
        let mut k: usize = 0;
        while k < open.len() && open[k].0 != ev.id
            invariant
                i < h.len(),
                k <= open@.len(),
                open_slot(open@, ev.id, k as int) == open_slot(open@, ev.id, 0),
            decreases open@.len() - k,
        {
            k = k + 1;
        }
        let Event { kind, value, id } = ev;
        match kind {
            EventKind::CallEvent => {
                match value {
                    Value::Input(input) => {
                        if k < open.len() {
                            return None;
                        }
                        open.push((id, input, i));
                    },
                    _ => {
                        return None;
                    },
                }
            },
            EventKind::ReturnEvent => {
                match value {
                    Value::Output(output) => {
                        if k >= open.len() {
                            return None;
                        }
                        let (_, input, c) = open.remove(k);
                        ops.push(Operation { input, call: c as i64, output, finish: i as i64 });
                    },
                    _ => {
                        return None;
                    },
                }
            },
        }
        proof {
            assert forall|q: int| 0 <= q < open@.len() implies (#[trigger] open@[q]).2 < i + 1 by {}
        }
        i = i + 1;
        proof {
            assert(rest@ =~= h.subrange(i as int, h.len() as int));
        }
    }
    if open.len() > 0 {
        return None;
    }
    Some(ops)
}

/// Whether a well-formed stream of call and return events is linearizable:
/// the verdict on the operations that its events pair into.
pub fn check_events<M: Model>(model: M, history: Vec<Event<Value<M::Input, M::Output>>>) -> (r:
    bool)
    requires
        history@.len() <= i64::MAX,
        paired(history@) is Some,
        forall|k: int|
            0 <= k < model.partition_spec(paired(history@)->Some_0).len() ==> #[trigger] model.partition_spec(
                paired(history@)->Some_0,
            )[k].len() <= usize::MAX - 63,
    ensures
        r == verdict(model, paired(history@)->Some_0),
{
    let ghost h = history@;
    match events_to_operations(history) {
        Some(ops) => {
            assert(ops@ == paired(h)->Some_0);
            check_operations(model, ops)
        },
        None => false,
    }
}

} // verus!
