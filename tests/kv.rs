use linearizability::linearizer::check_events;
use linearizability::linearizer::check_operations;
use linearizability::linearizer::events_to_operations;
use linearizability::model::Event;
use linearizability::model::EventKind;
use linearizability::model::Model;
use linearizability::model::Operation;
use linearizability::model::Value;
use linearizability::models::KvInput;
use linearizability::models::KvModel;
use linearizability::models::KvOutput;
use linearizability::models::Op;

type KvEvent = Event<Value<KvInput, KvOutput>>;

fn input(op: Op, key: &str, value: &str) -> KvInput {
    KvInput { op, key: key.to_string(), value: value.to_string() }
}

fn output(value: &str) -> KvOutput {
    KvOutput { value: value.to_string() }
}

fn operation(i: KvInput, call: i64, o: KvOutput, finish: i64) -> Operation<KvInput, KvOutput> {
    Operation { input: i, call, output: o, finish }
}

fn call(id: usize, i: KvInput) -> KvEvent {
    Event { kind: EventKind::CallEvent, value: Value::Input(i), id }
}

fn ret(id: usize, o: KvOutput) -> KvEvent {
    Event { kind: EventKind::ReturnEvent, value: Value::Output(o), id }
}

/// A small deterministic pseudo-random generator.
struct Lcg(u64);

impl Lcg {
    fn next(&mut self, bound: u64) -> u64 {
        self.0 = self.0.wrapping_mul(6364136223846793005).wrapping_add(1442695040888963407);
        (self.0 >> 33) % bound
    }
}

/// Simulates `clients` clients issuing `n_ops` operations on `n_keys` keys of
/// a register store. Each operation takes effect at its call, so the history
/// is linearizable. With `corrupt`, the first read that follows a write on
/// its key returns a value that was never written.
fn simulate(clients: usize, n_ops: usize, n_keys: u64, seed: u64, corrupt: bool) -> Vec<KvEvent> {
    let mut rng = Lcg(seed);
    let mut store: Vec<String> = vec![String::new(); n_keys as usize];
    let mut written: Vec<bool> = vec![false; n_keys as usize];
    let mut pending: Vec<Option<(usize, String)>> = vec![None; clients];
    let mut events = vec![];
    let mut next_id = 0usize;
    let mut issued = 0usize;
    let mut corrupted = false;
    while issued < n_ops || pending.iter().any(|p| p.is_some()) {
        let c = rng.next(clients as u64) as usize;
        match pending[c].take() {
            Some((id, out)) => events.push(ret(id, output(&out))),
            None => {
                if issued >= n_ops {
                    continue;
                }
                let key = rng.next(n_keys) as usize;
                let key_name = key.to_string();
                let id = next_id;
                next_id += 1;
                issued += 1;
                let out = match rng.next(3) {
                    0 => {
                        events.push(call(id, input(Op::GET, &key_name, "")));
                        if corrupt && !corrupted && written[key] {
                            corrupted = true;
                            "never-written".to_string()
                        } else {
                            store[key].clone()
                        }
                    }
                    1 => {
                        let v = format!("{} ", issued);
                        events.push(call(id, input(Op::PUT, &key_name, &v)));
                        store[key] = v;
                        written[key] = true;
                        String::new()
                    }
                    _ => {
                        let v = format!("{} ", issued);
                        events.push(call(id, input(Op::APPEND, &key_name, &v)));
                        store[key].push_str(&v);
                        written[key] = true;
                        String::new()
                    }
                };
                pending[c] = Some((id, out));
            }
        }
    }
    assert!(!corrupt || corrupted);
    events
}

fn check_kv(clients: usize, n_ops: usize, n_keys: u64, seed: u64, correct: bool) {
    let events = simulate(clients, n_ops, n_keys, seed, !correct);
    assert_eq!(check_events(KvModel::new(), events), correct);
}

#[test]
fn test_kv_1client_ok() {
    check_kv(1, 60, 1, 1, true)
}

#[test]
fn test_kv_1client_bad() {
    check_kv(1, 60, 1, 1, false)
}

#[test]
fn test_kv_10client_ok() {
    check_kv(10, 200, 5, 10, true)
}

#[test]
fn test_kv_10client_bad() {
    check_kv(10, 200, 5, 10, false)
}

#[test]
fn test_kv_50client_ok() {
    check_kv(50, 300, 10, 50, true)
}

#[test]
fn test_kv_50client_bad() {
    check_kv(50, 300, 10, 50, false)
}

#[test]
fn sequential_put_then_get_is_linearizable() {
    let history = vec![
        operation(input(Op::PUT, "k", "x"), 0, output(""), 1),
        operation(input(Op::GET, "k", ""), 2, output("x"), 3),
    ];
    assert!(check_operations(KvModel::new(), history));
}

#[test]
fn overlapping_puts_then_get_of_second() {
    let history = vec![
        operation(input(Op::PUT, "k", "x"), 0, output(""), 10),
        operation(input(Op::PUT, "k", "y"), 5, output(""), 15),
        operation(input(Op::GET, "k", ""), 20, output("y"), 25),
    ];
    assert!(check_operations(KvModel::new(), history));
}

#[test]
fn overlapping_puts_then_get_of_first() {
    // the put of "y" may take effect first, since the two overlap
    let history = vec![
        operation(input(Op::PUT, "k", "x"), 0, output(""), 10),
        operation(input(Op::PUT, "k", "y"), 5, output(""), 15),
        operation(input(Op::GET, "k", ""), 20, output("x"), 25),
    ];
    assert!(check_operations(KvModel::new(), history));
}

#[test]
fn get_of_value_never_written_is_not_linearizable() {
    let history = vec![
        operation(input(Op::PUT, "k", "x"), 0, output(""), 10),
        operation(input(Op::PUT, "k", "y"), 5, output(""), 15),
        operation(input(Op::GET, "k", ""), 20, output("z"), 25),
    ];
    assert!(!check_operations(KvModel::new(), history));
}

#[test]
fn stale_read_after_completed_put_is_not_linearizable() {
    let history = vec![
        operation(input(Op::PUT, "k", "x"), 0, output(""), 1),
        operation(input(Op::PUT, "k", "y"), 2, output(""), 3),
        operation(input(Op::GET, "k", ""), 4, output("x"), 5),
    ];
    assert!(!check_operations(KvModel::new(), history));
}

#[test]
fn append_concatenates() {
    let history = vec![
        operation(input(Op::PUT, "k", "ab"), 0, output(""), 1),
        operation(input(Op::APPEND, "k", "cd"), 2, output(""), 3),
        operation(input(Op::GET, "k", ""), 4, output("abcd"), 5),
    ];
    assert!(check_operations(KvModel::new(), history));
    let wrong = vec![
        operation(input(Op::PUT, "k", "ab"), 0, output(""), 1),
        operation(input(Op::APPEND, "k", "cd"), 2, output(""), 3),
        operation(input(Op::GET, "k", ""), 4, output("cdab"), 5),
    ];
    assert!(!check_operations(KvModel::new(), wrong));
}

#[test]
fn open_call_at_end_is_tolerated() {
    // the append never returned; the stream closes it with a synthetic return
    let events = vec![
        call(0, input(Op::PUT, "k", "a")),
        ret(0, output("")),
        call(1, input(Op::APPEND, "k", "b")),
        call(2, input(Op::GET, "k", "")),
        ret(2, output("ab")),
        ret(1, output("")),
    ];
    assert!(check_events(KvModel::new(), events));
    let events = vec![
        call(0, input(Op::PUT, "k", "a")),
        ret(0, output("")),
        call(1, input(Op::APPEND, "k", "b")),
        call(2, input(Op::GET, "k", "")),
        ret(2, output("a")),
        ret(1, output("")),
    ];
    assert!(check_events(KvModel::new(), events));
}

#[test]
fn keys_are_checked_independently() {
    let history = vec![
        operation(input(Op::PUT, "a", "1"), 0, output(""), 10),
        operation(input(Op::PUT, "b", "2"), 1, output(""), 11),
        operation(input(Op::GET, "a", ""), 12, output("1"), 13),
        operation(input(Op::GET, "b", ""), 12, output("2"), 13),
    ];
    assert!(check_operations(KvModel::new(), history));
    let history = vec![
        operation(input(Op::PUT, "a", "1"), 0, output(""), 10),
        operation(input(Op::PUT, "b", "2"), 1, output(""), 11),
        operation(input(Op::GET, "a", ""), 12, output("2"), 13),
        operation(input(Op::GET, "b", ""), 12, output("2"), 13),
    ];
    assert!(!check_operations(KvModel::new(), history));
}

#[test]
fn interleaving_of_two_linearizable_keys_passes() {
    let a = vec![
        operation(input(Op::PUT, "a", "1"), 0, output(""), 4),
        operation(input(Op::GET, "a", ""), 8, output("1"), 9),
    ];
    let b = vec![
        operation(input(Op::APPEND, "b", "2"), 2, output(""), 6),
        operation(input(Op::GET, "b", ""), 7, output("2"), 10),
    ];
    assert!(check_operations(KvModel::new(), a));
    assert!(check_operations(KvModel::new(), b));
    let mixed = vec![
        operation(input(Op::PUT, "a", "1"), 0, output(""), 4),
        operation(input(Op::APPEND, "b", "2"), 2, output(""), 6),
        operation(input(Op::GET, "b", ""), 7, output("2"), 10),
        operation(input(Op::GET, "a", ""), 8, output("1"), 9),
    ];
    assert!(check_operations(KvModel::new(), mixed));
}

#[test]
fn empty_history_is_linearizable() {
    assert!(check_operations(KvModel::new(), vec![]));
    assert!(check_events(KvModel::new(), vec![]));
}

#[test]
fn verdict_is_repeatable() {
    for _ in 0..3 {
        let events = simulate(10, 100, 3, 7, false);
        assert!(check_events(KvModel::new(), events));
        let events = simulate(10, 100, 3, 7, true);
        assert!(!check_events(KvModel::new(), events));
    }
}

#[test]
fn single_key_sequential_history_is_linearizable() {
    let events = simulate(1, 80, 1, 3, false);
    assert!(check_events(KvModel::new(), events));
}

#[test]
fn events_pair_into_operations() {
    let events = vec![
        call(4, input(Op::PUT, "k", "x")),
        call(7, input(Op::GET, "k", "")),
        ret(7, output("x")),
        ret(4, output("")),
    ];
    let ops = events_to_operations(events).unwrap();
    assert_eq!(ops.len(), 2);
    assert_eq!(ops[0].call, 1);
    assert_eq!(ops[0].finish, 2);
    assert_eq!(ops[0].output.value, "x");
    assert_eq!(ops[1].call, 0);
    assert_eq!(ops[1].finish, 3);
    assert_eq!(ops[1].input.value, "x");
}

#[test]
fn malformed_event_streams_are_rejected() {
    // a return with no pending call
    assert!(events_to_operations(vec![ret(0, output(""))]).is_none());
    // a call never returned
    assert!(events_to_operations(vec![call(0, input(Op::GET, "k", ""))]).is_none());
    // an identifier reused while its call is pending
    let events = vec![
        call(0, input(Op::GET, "k", "")),
        call(0, input(Op::GET, "k", "")),
        ret(0, output("")),
        ret(0, output("")),
    ];
    assert!(events_to_operations(events).is_none());
    // a payload that does not match the event's kind
    let events: Vec<KvEvent> = vec![
        Event { kind: EventKind::CallEvent, value: Value::Output(output("")), id: 0 },
    ];
    assert!(events_to_operations(events).is_none());
}

#[test]
fn kv_step_follows_the_register() {
    let m = KvModel::new();
    let s = m.init();
    assert_eq!(s, "");
    let (ok, s) = m.step(&s, &input(Op::PUT, "k", "ab"), &output(""));
    assert!(ok);
    assert_eq!(s, "ab");
    let (ok, s) = m.step(&s, &input(Op::APPEND, "k", "c"), &output(""));
    assert!(ok);
    assert_eq!(s, "abc");
    let (ok, s2) = m.step(&s, &input(Op::GET, "k", ""), &output("abc"));
    assert!(ok);
    assert_eq!(s2, "abc");
    let (ok, _) = m.step(&s, &input(Op::GET, "k", ""), &output("ab"));
    assert!(!ok);
    assert!(m.equal(&"x".to_string(), &"x".to_string()));
    assert!(!m.equal(&"x".to_string(), &"y".to_string()));
}

#[test]
fn kv_partition_groups_by_key_in_order() {
    let history = vec![
        operation(input(Op::PUT, "b", "1"), 0, output(""), 1),
        operation(input(Op::PUT, "a", "2"), 2, output(""), 3),
        operation(input(Op::GET, "b", ""), 4, output("1"), 5),
    ];
    let groups = KvModel::new().partition(history);
    assert_eq!(groups.len(), 2);
    assert_eq!(groups[0].len(), 2);
    assert_eq!(groups[0][0].input.key, "b");
    assert_eq!(groups[0][1].call, 4);
    assert_eq!(groups[1].len(), 1);
    assert_eq!(groups[1][0].input.key, "a");
}

#[test]
fn value_accessors() {
    let v: Value<i32, &str> = Value::Input(3);
    assert_eq!(*v.input(), 3);
    let w: Value<i32, &str> = Value::Output("done");
    assert_eq!(*w.output(), "done");
}
