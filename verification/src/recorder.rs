//! The debug recorder: the events a compilation leaves for a debugger, each placing a
//! statement or an entrypoint in the emitted script.

use vstd::prelude::*;

use crate::stack::StackBindings;

verus! {

/// One recorded event. Offsets are script lengths: where a statement's code begins, where an
/// `if`'s branches begin, where a statement's code ends; with them, the names bound on the
/// stack at that point, the top first.
#[derive(Debug, PartialEq, Eq)]
pub enum DebugEvent {
    EntrypointBegin { name: String },
    StatementBegin { offset: usize, bindings: Vec<String> },
    SourceStep { offset: usize, bindings: Vec<String> },
    StatementEnd { offset: usize, bindings: Vec<String> },
    EntrypointEnd { len: usize },
}

/// The mathematical value of a [`DebugEvent`].
pub enum EventV {
    EntrypointBegin(Seq<char>),
    StatementBegin(nat, Seq<Seq<char>>),
    SourceStep(nat, Seq<Seq<char>>),
    StatementEnd(nat, Seq<Seq<char>>),
    EntrypointEnd(nat),
}

/// The values of a list of names.
pub open spec fn names_of(v: Seq<String>) -> Seq<Seq<char>> {
    v.map_values(|s: String| s@)
}

impl DebugEvent {
    pub open spec fn view_event(&self) -> EventV {
        match self {
            DebugEvent::EntrypointBegin { name } => EventV::EntrypointBegin(name@),
            DebugEvent::StatementBegin { offset, bindings } => EventV::StatementBegin(*offset as nat, names_of(bindings@)),
            DebugEvent::SourceStep { offset, bindings } => EventV::SourceStep(*offset as nat, names_of(bindings@)),
            DebugEvent::StatementEnd { offset, bindings } => EventV::StatementEnd(*offset as nat, names_of(bindings@)),
            DebugEvent::EntrypointEnd { len } => EventV::EntrypointEnd(*len as nat),
        }
    }
}

/// The events recorded so far, in order.
pub struct DebugRecorder {
    pub events: Vec<DebugEvent>,
}

impl View for DebugRecorder {
    type V = Seq<EventV>;

    open spec fn view(&self) -> Seq<EventV> {
        self.events@.map_values(|e: DebugEvent| e.view_event())
    }
}

/// Whether `after` is `before` followed by further events.
pub open spec fn extends(before: Seq<EventV>, after: Seq<EventV>) -> bool {
    before.len() <= after.len() && after.take(before.len() as int) == before
}

/// A log extends itself.
pub proof fn lemma_extends_refl(a: Seq<EventV>)
    ensures
        extends(a, a),
{
    assert(a.take(a.len() as int) =~= a);
}

/// Extending is transitive.
pub proof fn lemma_extends_trans(a: Seq<EventV>, b: Seq<EventV>, c: Seq<EventV>)
    requires
        extends(a, b),
        extends(b, c),
    ensures
        extends(a, c),
{
    assert(c.take(a.len() as int) =~= c.take(b.len() as int).take(a.len() as int));
}

/// Extending a log by one event and then more extends the log.
pub proof fn lemma_extends_push(a: Seq<EventV>, x: EventV, c: Seq<EventV>)
    requires
        extends(a.push(x), c),
    ensures
        extends(a, c),
        c.len() > a.len(),
        c[a.len() as int] == x,
{
    assert(a.push(x).take(a.len() as int) =~= a);
    lemma_extends_trans(a, a.push(x), c);
    assert(c.take((a.len() + 1) as int)[a.len() as int] == c[a.len() as int]);
}

impl DebugRecorder {
    /// A recorder with no events.
    pub fn new() -> (r: Self)
        ensures
            r@ == Seq::<EventV>::empty(),
    {
        let r = DebugRecorder { events: Vec::new() };
        assert(r@ =~= Seq::<EventV>::empty());
        r
    }

    fn record(&mut self, event: DebugEvent)
        ensures
            final(self)@ == old(self)@.push(event.view_event()),
    {
        self.events.push(event);
        assert(self@ =~= old(self)@.push(event.view_event()));
    }

    /// Records the start of the entrypoint `name`.
    pub fn begin_entrypoint(&mut self, name: &str)
        ensures
            final(self)@ == old(self)@.push(EventV::EntrypointBegin(name@)),
    {
        self.record(DebugEvent::EntrypointBegin { name: name.to_owned() });
    }

    /// Records that a statement's code begins at `offset`, with `bindings` on the stack.
    pub fn begin_statement_at(&mut self, offset: usize, bindings: &StackBindings)
        ensures
            final(self)@ == old(self)@.push(EventV::StatementBegin(offset as nat, bindings@)),
    {
        let names = bindings.binding_order();
        self.record(DebugEvent::StatementBegin { offset, bindings: names });
    }

    /// Records that the code of the statement being compiled reaches a source step (an
    /// `if`'s branches) at `offset`, with `bindings` on the stack.
    pub fn record_current_statement_source_step_at(&mut self, offset: usize, bindings: &StackBindings)
        ensures
            final(self)@ == old(self)@.push(EventV::SourceStep(offset as nat, bindings@)),
    {
        let names = bindings.binding_order();
        self.record(DebugEvent::SourceStep { offset, bindings: names });
    }

    /// Records that a statement's code ends at `offset`, with `bindings` on the stack.
    pub fn finish_statement_at(&mut self, offset: usize, bindings: &StackBindings)
        ensures
            final(self)@ == old(self)@.push(EventV::StatementEnd(offset as nat, bindings@)),
    {
        let names = bindings.binding_order();
        self.record(DebugEvent::StatementEnd { offset, bindings: names });
    }

    /// Records the end of an entrypoint whose script has `len` bytes.
    pub fn finish_entrypoint(&mut self, len: usize)
        ensures
            final(self)@ == old(self)@.push(EventV::EntrypointEnd(len as nat)),
    {
        self.record(DebugEvent::EntrypointEnd { len });
    }
}

} // verus!
