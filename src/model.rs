use vstd::prelude::*;

verus! {

/// The payload of an event: the input of a call, or the output of a return.
pub enum Value<I, O> {
    Input(I),
    Output(O),
    /// Neither: the event carries no payload.
    Empty,
}

impl<I, O> Value<I, O> {
    /// The input carried by a call event.
    pub fn input(&self) -> (r: &I)
        requires
            self is Input,
        ensures
            *r == self->Input_0,
    {
        match self {
            Value::Input(i) => i,
            _ => vstd::pervasive::unreached(),
        }
    }

    /// The output carried by a return event.
    pub fn output(&self) -> (r: &O)
        requires
            self is Output,
        ensures
            *r == self->Output_0,
    {
        match self {
            Value::Output(o) => o,
            _ => vstd::pervasive::unreached(),
        }
    }
}

/// One completed invocation: its input and output, and the times at which it
/// was called and at which it returned.
pub struct Operation<I, O> {
    pub input: I,
    pub call: i64,
    pub output: O,
    pub finish: i64,
}

pub enum EventKind {
    CallEvent,
    ReturnEvent,
}

/// A call or a return; `id` pairs a call with its return.
pub struct Event<T> {
    pub kind: EventKind,
    pub value: T,
    pub id: usize,
}

/// The sequential specification of an object.
///
/// States are compared through their views: `step` is a function of the
/// view of the state it starts from, and `equal` compares views.
pub trait Model: Sized {
    type State: View;
    type Input;
    type Output;

    /// The state before any operation.
    spec fn init_spec(&self) -> <Self::State as View>::V;

    /// Whether `input` applied in state `s` may give `output`, and the state
    /// after it when it may.
    spec fn step_spec(
        &self,
        s: <Self::State as View>::V,
        input: Self::Input,
        output: Self::Output,
    ) -> (bool, <Self::State as View>::V);

    /// The independent groups of a history.
    spec fn partition_spec(&self, history: Seq<Operation<Self::Input, Self::Output>>) -> Seq<
        Seq<Operation<Self::Input, Self::Output>>,
    >;

    fn partition(&self, history: Vec<Operation<Self::Input, Self::Output>>) -> (r: Vec<
        Vec<Operation<Self::Input, Self::Output>>,
    >)
        ensures
            r@.len() == self.partition_spec(history@).len(),
            forall|k: int| 0 <= k < r@.len() ==> #[trigger] r@[k]@ == self.partition_spec(history@)[k],
    ;

    fn init(&self) -> (r: Self::State)
        ensures
            r@ == self.init_spec(),
    ;

    fn step(&self, state: &Self::State, input: &Self::Input, output: &Self::Output) -> (r: (
        bool,
        Self::State,
    ))
        ensures
            r.0 == self.step_spec(state@, *input, *output).0,
            r.0 ==> r.1@ == self.step_spec(state@, *input, *output).1,
    ;

    fn equal(&self, state1: &Self::State, state2: &Self::State) -> (r: bool)
        ensures
            r == (state1@ == state2@),
    ;
}

} // verus!
