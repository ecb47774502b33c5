use vstd::prelude::*;

use crate::linearizer::accepts_in_order;
use crate::linearizer::lemma_sequential_linearizable;
use crate::linearizer::linearizable;
use crate::linearizer::sequential;
use crate::linearizer::verdict;
use crate::model::Model;
use crate::model::Operation;

verus! {

pub enum Op {
    GET,
    PUT,
    APPEND,
}

pub struct KvInput {
    pub op: Op,
    pub key: String,
    pub value: String,
}

pub struct KvOutput {
    pub value: String,
}

/// A single key-value register; histories are split by key, so a state is
/// the value of one key.
pub struct KvModel {}

pub type KvOp = Operation<KvInput, KvOutput>;

/// The first group, from position `k` on, whose operations are on `key`; the
/// number of groups when there is none.
pub open spec fn slot_from(groups: Seq<Seq<KvOp>>, key: Seq<char>, k: int) -> int
    decreases groups.len() - k,
{
    if k < 0 || k >= groups.len() {
        groups.len() as int
    } else if groups[k][0].input.key@ == key {
        k
    } else {
        slot_from(groups, key, k + 1)
    }
}

/// The operations of a history grouped by key: one group per key, groups in
/// the order in which their keys first occur, each group in history order.
pub open spec fn kv_groups(h: Seq<KvOp>) -> Seq<Seq<KvOp>>
    decreases h.len(),
{
    if h.len() == 0 {
        Seq::empty()
    } else {
        let g = kv_groups(h.drop_last());
        let op = h.last();
        let k = slot_from(g, op.input.key@, 0);
        if k < g.len() {
            g.update(k, g[k].push(op))
        } else {
            g.push(seq![op])
        }
    }
}

/// The register after one operation, and whether the operation's output is
/// possible: a read must return the current value; writes always succeed.
pub open spec fn kv_step(s: Seq<char>, input: KvInput, output: KvOutput) -> (bool, Seq<char>) {
    match input.op {
        Op::GET => (output.value@ == s, s),
        Op::PUT => (true, input.value@),
        Op::APPEND => (true, s + input.value@),
    }
}

/// The operations of `h` on `key`, in history order.
pub open spec fn of_key(h: Seq<KvOp>, key: Seq<char>) -> Seq<KvOp>
    decreases h.len(),
{
    if h.len() == 0 {
        Seq::empty()
    } else if h.last().input.key@ == key {
        of_key(h.drop_last(), key).push(h.last())
    } else {
        of_key(h.drop_last(), key)
    }
}

proof fn lemma_slot_from(g: Seq<Seq<KvOp>>, key: Seq<char>, k: int)
    requires
        0 <= k <= g.len(),
    ensures
        k <= slot_from(g, key, k) <= g.len(),
        slot_from(g, key, k) < g.len() ==> g[slot_from(g, key, k)][0].input.key@ == key,
        forall|j: int| k <= j < slot_from(g, key, k) ==> g[j][0].input.key@ != key,
    decreases g.len() - k,
{
    if k < g.len() && g[k][0].input.key@ != key {
        lemma_slot_from(g, key, k + 1);
    }
}

/// Each group is nonempty and holds exactly the operations on its key; no two
/// groups share a key; every key of the history has a group.
proof fn lemma_kv_groups(h: Seq<KvOp>)
    ensures
        forall|k: int|
            0 <= k < kv_groups(h).len() ==> (#[trigger] kv_groups(h)[k]).len() > 0 && kv_groups(h)[k]
                == of_key(h, kv_groups(h)[k][0].input.key@),
        forall|k1: int, k2: int|
            0 <= k1 < kv_groups(h).len() && 0 <= k2 < kv_groups(h).len() && k1 != k2 ==> (
            #[trigger] kv_groups(h)[k1])[0].input.key@ != (#[trigger] kv_groups(h)[k2])[0].input.key@,
        forall|key: Seq<char>|
            (#[trigger] of_key(h, key)).len() > 0 ==> exists|k: int|
                0 <= k < kv_groups(h).len() && kv_groups(h)[k][0].input.key@ == key,
    decreases h.len(),
{
    if h.len() > 0 {
        let p = h.drop_last();
        let op = h.last();
        let kop = op.input.key@;
        lemma_kv_groups(p);
        let g = kv_groups(p);
        let g2 = kv_groups(h);
        let k = slot_from(g, kop, 0);
        lemma_slot_from(g, kop, 0);
        if k < g.len() {
            assert forall|j: int| 0 <= j < g.len() && j != k implies (#[trigger] g[j])[0].input.key@ != kop by {
            }
            assert forall|j: int| 0 <= j < g2.len() implies (#[trigger] g2[j]).len() > 0 && g2[j] == of_key(
                h,
                g2[j][0].input.key@,
            ) by {
                if j != k {
                    assert(g2[j] == g[j]);
                }
            }
            assert forall|key: Seq<char>| (#[trigger] of_key(h, key)).len() > 0 implies exists|q: int|
                0 <= q < g2.len() && g2[q][0].input.key@ == key by {
                if key != kop {
                    assert(of_key(p, key) == of_key(h, key));
                    let q = choose|q: int| 0 <= q < g.len() && g[q][0].input.key@ == key;
                    assert(g2[q] == g[q]);
                } else {
                    assert(g2[k][0] == g[k][0]);
                }
            }
        } else {
            assert(of_key(p, kop).len() == 0);
            assert forall|j: int| 0 <= j < g2.len() implies (#[trigger] g2[j]).len() > 0 && g2[j] == of_key(
                h,
                g2[j][0].input.key@,
            ) by {
                if j == g.len() {
                    assert(of_key(h, kop) =~= seq![op]);
                } else {
                    assert(g2[j] == g[j]);
                }
            }
            assert forall|key: Seq<char>| (#[trigger] of_key(h, key)).len() > 0 implies exists|q: int|
                0 <= q < g2.len() && g2[q][0].input.key@ == key by {
                if key != kop {
                    assert(of_key(p, key) == of_key(h, key));
                    let q = choose|q: int| 0 <= q < g.len() && g[q][0].input.key@ == key;
                    assert(g2[q] == g[q]);
                } else {
                    assert(g2[g.len() as int][0] == op);
                }
            }
        }
    }
}

/// Partition independence. Let `h` interleave `h1` and `h2`, which touch
/// disjoint sets of keys: on every key, `h` holds the operations of `h1` on
/// it followed by those of `h2`, and one of the two is empty. Then `h` passes
/// the check exactly when `h1` and `h2` both pass.
pub proof fn lemma_partition_independence(m: KvModel, h: Seq<KvOp>, h1: Seq<KvOp>, h2: Seq<KvOp>)
    requires
        forall|key: Seq<char>| #[trigger] of_key(h1, key).len() == 0 || of_key(h2, key).len() == 0,
        forall|key: Seq<char>| #[trigger] of_key(h, key) == of_key(h1, key) + of_key(h2, key),
    ensures
        verdict(m, h) == (verdict(m, h1) && verdict(m, h2)),
{
    lemma_kv_groups(h);
    lemma_kv_groups(h1);
    lemma_kv_groups(h2);
    if verdict(m, h1) && verdict(m, h2) {
        assert forall|k: int| 0 <= k < m.partition_spec(h).len() implies linearizable(
            m,
            #[trigger] m.partition_spec(h)[k],
        ) by {
            let g = kv_groups(h)[k];
            let key = g[0].input.key@;
            assert(of_key(h, key) == of_key(h1, key) + of_key(h2, key));
            if of_key(h1, key).len() > 0 {
                assert(of_key(h2, key).len() == 0);
                assert(of_key(h1, key) + of_key(h2, key) =~= of_key(h1, key));
                let q = choose|q: int| 0 <= q < kv_groups(h1).len() && kv_groups(h1)[q][0].input.key@ == key;
                assert(m.partition_spec(h1)[q] == g);
            } else {
                assert(of_key(h1, key) + of_key(h2, key) =~= of_key(h2, key));
                assert(of_key(h2, key).len() > 0);
                let q = choose|q: int| 0 <= q < kv_groups(h2).len() && kv_groups(h2)[q][0].input.key@ == key;
                assert(m.partition_spec(h2)[q] == g);
            }
        }
    }
    if verdict(m, h) {
        assert forall|q: int| 0 <= q < m.partition_spec(h1).len() implies linearizable(
            m,
            #[trigger] m.partition_spec(h1)[q],
        ) by {
            let g = kv_groups(h1)[q];
            let key = g[0].input.key@;
            assert(of_key(h1, key).len() > 0);
            assert(of_key(h2, key).len() == 0);
            assert(of_key(h1, key) + of_key(h2, key) =~= of_key(h1, key));
            assert(of_key(h, key) == of_key(h1, key) + of_key(h2, key));
            let k = choose|k: int| 0 <= k < kv_groups(h).len() && kv_groups(h)[k][0].input.key@ == key;
            assert(m.partition_spec(h)[k] == g);
        }
        assert forall|q: int| 0 <= q < m.partition_spec(h2).len() implies linearizable(
            m,
            #[trigger] m.partition_spec(h2)[q],
        ) by {
            let g = kv_groups(h2)[q];
            let key = g[0].input.key@;
            assert(of_key(h2, key).len() > 0);
            assert(of_key(h1, key).len() == 0);
            assert(of_key(h1, key) + of_key(h2, key) =~= of_key(h2, key));
            assert(of_key(h, key) == of_key(h1, key) + of_key(h2, key));
            let k = choose|k: int| 0 <= k < kv_groups(h).len() && kv_groups(h)[k][0].input.key@ == key;
            assert(m.partition_spec(h)[k] == g);
        }
    }
}

proof fn lemma_of_single_key(h: Seq<KvOp>, only: Seq<char>, key: Seq<char>)
    requires
        forall|i: int| 0 <= i < h.len() ==> (#[trigger] h[i]).input.key@ == only,
    ensures
        of_key(h, key) == if key == only {
            h
        } else {
            Seq::empty()
        },
    decreases h.len(),
{
    if h.len() > 0 {
        lemma_of_single_key(h.drop_last(), only, key);
        assert(h.drop_last().push(h.last()) =~= h);
    }
}

/// A history on a single key without concurrency, whose reads return what
/// the register holds when the operations run in history order, passes the
/// check.
pub proof fn lemma_single_key_sequential(m: KvModel, h: Seq<KvOp>, only: Seq<char>)
    requires
        forall|i: int| 0 <= i < h.len() ==> (#[trigger] h[i]).input.key@ == only,
        sequential(h),
        accepts_in_order(m, h, m.init_spec(), 0),
    ensures
        verdict(m, h),
{
    lemma_kv_groups(h);
    lemma_sequential_linearizable(m, h);
    assert forall|k: int| 0 <= k < m.partition_spec(h).len() implies linearizable(
        m,
        #[trigger] m.partition_spec(h)[k],
    ) by {
        let g = kv_groups(h)[k];
        let key = g[0].input.key@;
        lemma_of_single_key(h, only, key);
        assert(g == h);
    }
}

impl KvModel {
    pub fn new() -> Self {
        KvModel {  }
    }
}

impl Model for KvModel {
    type State = String;
    type Input = KvInput;
    type Output = KvOutput;

    open spec fn init_spec(&self) -> Seq<char> {
        Seq::empty()
    }

    open spec fn step_spec(&self, s: Seq<char>, input: KvInput, output: KvOutput) -> (bool, Seq<char>) {
        kv_step(s, input, output)
    }

    open spec fn partition_spec(&self, history: Seq<KvOp>) -> Seq<Seq<KvOp>> {
        kv_groups(history)
    }

    fn partition(&self, history: Vec<KvOp>) -> (r: Vec<Vec<KvOp>>) {
        let ghost h = history@;
        let mut history = history;
        let mut groups: Vec<Vec<KvOp>> = Vec::new();
        let ghost mut i: int = 0;
        proof {
            assert(h.take(0) =~= Seq::<KvOp>::empty());
            assert(history@ =~= h.subrange(0, h.len() as int));
        }
        while history.len() > 0
            invariant
                0 <= i <= h.len(),
                history@ == h.subrange(i, h.len() as int),
                groups@.len() == kv_groups(h.take(i)).len(),
                forall|q: int| 0 <= q < groups@.len() ==> #[trigger] groups@[q]@ == kv_groups(h.take(i))[q],
                forall|q: int| 0 <= q < groups@.len() ==> (#[trigger] groups@[q])@.len() > 0,
            decreases history@.len(),
        {
            let op = history.remove(0);
            let ghost g = kv_groups(h.take(i));
            proof {
                assert(op == h[i]);
                assert(h.take(i + 1).drop_last() =~= h.take(i));
                assert(h.take(i + 1).last() == op);
            }
            let mut k: usize = 0;
            while k < groups.len() && !(groups[k][0].input.key == op.input.key)
                invariant
                    groups@.len() == g.len(),
                    forall|q: int| 0 <= q < groups@.len() ==> #[trigger] groups@[q]@ == g[q],
                    forall|q: int| 0 <= q < groups@.len() ==> (#[trigger] groups@[q])@.len() > 0,
                    k <= groups@.len(),
                    slot_from(g, op.input.key@, k as int) == slot_from(g, op.input.key@, 0),
                decreases groups@.len() - k,
            {
                k = k + 1;
            }
            proof {
                if k < groups@.len() {
                    assert(groups@[k as int]@ == g[k as int]);
                }
            }
            if k < groups.len() {
                let mut grp = groups.remove(k);
                grp.push(op);
                groups.insert(k, grp);
            } else {
                let mut grp: Vec<KvOp> = Vec::new();
                grp.push(op);
                groups.push(grp);
                proof {
                    assert(groups@[k as int]@ =~= seq![op]);
                }
            }
            proof {
                i = i + 1;
                assert(history@ =~= h.subrange(i, h.len() as int));
                let g2 = kv_groups(h.take(i));
                assert forall|q: int| 0 <= q < groups@.len() implies #[trigger] groups@[q]@ == g2[q] by {
                    if q == k {
                        assert(groups@[q]@ =~= g2[q]);
                    }
                }
            }
        }
        proof {
            assert(h.take(i) =~= h);
        }
        groups
    }

    fn init(&self) -> (r: String) {
        String::new()
    }

    fn step(&self, state: &String, input: &KvInput, output: &KvOutput) -> (r: (bool, String)) {
        match input.op {
            Op::GET => (output.value == *state, state.clone()),
            Op::PUT => (true, input.value.clone()),
            Op::APPEND => (true, state.clone().concat(input.value.as_str())),
        }
    }

    fn equal(&self, state1: &String, state2: &String) -> (r: bool) {
        *state1 == *state2
    }
}

} // verus!
