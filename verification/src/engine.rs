//! The single-pass stream engine. It consumes one structural event at a
//! time, keeps the ancestry stack of open elements, transforms matching
//! self-closing elements, passes every other event through unchanged, and
//! enforces open/close balance. Any error is fatal: the engine moves to
//! `Failed` and the pass must stop.

use vstd::prelude::*;

use crate::attrs::{pair_view, pairs_view, new_attr_map};
use crate::matcher::{AndMatcher, StackMatcher};
use crate::tag::{id_of_attrs, stack_view, Tag, TagView};
use crate::transform::{battery_fraction, transform_spec, TransformError};

verus! {

/// An element event's payload: its name and raw attribute list.
#[derive(Debug)]
pub struct Element {
    pub name: String,
    pub attrs: Vec<(String, String)>,
}

/// The mathematical value of an `Element`.
pub struct ElementView {
    pub name: Seq<char>,
    pub attrs: Seq<(Seq<char>, Seq<char>)>,
}

impl View for Element {
    type V = ElementView;

    open spec fn view(&self) -> ElementView {
        ElementView { name: self.name@, attrs: pairs_view(self.attrs@) }
    }
}

/// One structural event of the document stream.
#[derive(Debug)]
pub enum SvgEvent {
    /// A start tag: pushed onto the ancestry stack and emitted unchanged.
    Open(Element),
    /// A self-closing element: matched and possibly transformed.
    SelfClosing(Element),
    /// An end tag, carrying the declared name.
    Close(String),
    /// Anything else — text, comments, processing instructions — passed
    /// through verbatim.
    Other,
}

/// The mathematical value of an event.
pub enum EventView {
    Open(ElementView),
    SelfClosing(ElementView),
    Close(Seq<char>),
    Other,
}

impl View for SvgEvent {
    type V = EventView;

    open spec fn view(&self) -> EventView {
        match self {
            SvgEvent::Open(el) => EventView::Open(el@),
            SvgEvent::SelfClosing(el) => EventView::SelfClosing(el@),
            SvgEvent::Close(n) => EventView::Close(n@),
            SvgEvent::Other => EventView::Other,
        }
    }
}

/// Why a pass failed.
#[derive(Clone, Copy, Debug, PartialEq, Eq, Structural)]
pub enum EngineError {
    /// A close event arrived with no element open.
    UnexpectedClose,
    /// A close event's name disagrees with the innermost open element.
    MismatchedClose,
    /// The stream ended with an element still open.
    UnclosedElement,
    /// A matched element's transform failed.
    Transform(TransformError),
}

impl EngineError {
    /// A short description for error reporting.
    pub fn message(&self) -> String {
        match self {
            EngineError::UnexpectedClose => String::from_str("unexpected close tag"),
            EngineError::MismatchedClose => String::from_str(
                "close tag does not match the open element",
            ),
            EngineError::UnclosedElement => String::from_str("element left unclosed at end of input"),
            EngineError::Transform(e) => String::from_str("transform failed: ").concat(
                e.message().as_str(),
            ),
        }
    }
}

/// The tag an element event derives: its name, and its first `id` attribute
/// or empty.
pub open spec fn tag_of(el: ElementView) -> TagView {
    TagView { name: el.name, id: id_of_attrs(el.attrs) }
}

/// What the per-element pipeline yields: a matched element's attributes are
/// read into a map, transformed, and flattened back; an unmatched element
/// passes through with its raw attribute list untouched. Matching looks at
/// the element itself, as the one open element on the stack.
pub open spec fn element_out(el: ElementView, m: AndMatcher, charge: nat) -> Result<
    ElementView,
    TransformError,
> {
    if m.spec_matches(seq![tag_of(el)]) {
        match transform_spec(crate::attrs::map_of_pairs(el.attrs), charge) {
            Ok(ps) => Ok(ElementView { name: el.name, attrs: ps }),
            Err(e) => Err(e),
        }
    } else {
        Ok(el)
    }
}

/// One step of the engine, as a function of the stack and the event: the new
/// stack and the event to emit, or the error that fails the pass.
pub open spec fn step_model(m: AndMatcher, charge: nat, stack: Seq<TagView>, ev: EventView) -> Result<
    (Seq<TagView>, EventView),
    EngineError,
> {
    match ev {
        EventView::Open(el) => Ok((stack.push(tag_of(el)), ev)),
        EventView::Close(n) => if stack.len() == 0 {
            Err(EngineError::UnexpectedClose)
        } else if stack.last().name != n {
            Err(EngineError::MismatchedClose)
        } else {
            Ok((stack.drop_last(), ev))
        },
        EventView::SelfClosing(el) => match element_out(el, m, charge) {
            Ok(el2) => Ok((stack, EventView::SelfClosing(el2))),
            Err(e) => Err(EngineError::Transform(e)),
        },
        EventView::Other => Ok((stack, ev)),
    }
}

/// Where the pass stands.
#[derive(Clone, Copy, Debug, PartialEq, Eq, Structural)]
pub enum EngineState {
    /// Consuming events.
    Streaming,
    /// End of input reached with a balanced document.
    Done,
    /// A fatal error stopped the pass.
    Failed,
}

fn clone_attrs(attrs: &Vec<(String, String)>) -> (r: Vec<(String, String)>)
    ensures
        pairs_view(r@) == pairs_view(attrs@),
{
    let n = attrs.len();
    let mut out: Vec<(String, String)> = Vec::new();
    let mut i: usize = 0;
    while i < n
        invariant
            0 <= i <= n,
            n == attrs@.len(),
            out@.len() == i,
            forall|j: int| 0 <= j < i ==> pair_view(#[trigger] out@[j]) == pairs_view(attrs@)[j],
        decreases n - i,
    {
        out.push((attrs[i].0.clone(), attrs[i].1.clone()));
        i += 1;
    }
    proof {
        assert(pairs_view(out@) =~= pairs_view(attrs@));
    }
    out
}

/// Routes one element event through the selector and the transform: a match
/// sends the attributes through the map and the battery-fraction transform;
/// anything else passes through unchanged.
pub fn process_attributes(el: &Element, matcher: &AndMatcher, charge: u32) -> (r: Result<
    Element,
    TransformError,
>)
    requires
        charge <= 1000,
    ensures
        match r {
            Ok(out) => element_out(el@, *matcher, charge as nat) == Ok::<_, TransformError>(out@),
            Err(e) => element_out(el@, *matcher, charge as nat) == Err::<ElementView, _>(e),
        },
{
    let tag = Tag::new(el.name.as_str(), &el.attrs);
    let mut stack: Vec<Tag> = Vec::new();
    stack.push(tag);
    proof {
        assert(stack_view(stack@) =~= seq![tag_of(el@)]);
    }
    if !matcher.matches(&stack) {
        let out = Element { name: el.name.clone(), attrs: clone_attrs(&el.attrs) };
        proof {
            assert(out@ == el@);
        }
        return Ok(out);
    }
    let mut map = new_attr_map(&el.attrs);
    match battery_fraction(&mut map, charge) {
        Err(e) => Err(e),
        Ok(_) => {
            let out = Element { name: el.name.clone(), attrs: map.to_attributes() };
            Ok(out)
        },
    }
}

/// The stream engine: the compiled selector, the charge, the live ancestry
/// stack and the pass's state.
pub struct StreamEngine {
    matcher: AndMatcher,
    charge: u32,
    stack: Vec<Tag>,
    state: EngineState,
}

impl StreamEngine {
    /// The engine's configuration is sound: the charge is a per-mille
    /// fraction.
    pub closed spec fn wf(&self) -> bool {
        self.charge <= 1000
    }

    pub closed spec fn spec_stack(&self) -> Seq<TagView> {
        stack_view(self.stack@)
    }

    pub closed spec fn spec_state(&self) -> EngineState {
        self.state
    }

    pub closed spec fn spec_matcher(&self) -> AndMatcher {
        self.matcher
    }

    pub closed spec fn spec_charge(&self) -> nat {
        self.charge as nat
    }

    /// A fresh engine: streaming, with an empty ancestry stack.
    pub fn new(matcher: AndMatcher, charge: u32) -> (r: StreamEngine)
        requires
            charge <= 1000,
        ensures
            r.wf(),
            r.spec_state() == EngineState::Streaming,
            r.spec_stack() == Seq::<TagView>::empty(),
            r.spec_matcher() == matcher,
            r.spec_charge() == charge as nat,
    {
        let e = StreamEngine { matcher, charge, stack: Vec::new(), state: EngineState::Streaming };
        proof {
            assert(e.spec_stack() =~= Seq::<TagView>::empty());
        }
        e
    }

    /// How many elements are open.
    pub fn depth(&self) -> (r: usize)
        ensures
            r == self.spec_stack().len(),
    {
        self.stack.len()
    }

    /// Where the pass stands.
    pub fn state(&self) -> (r: EngineState)
        ensures
            r == self.spec_state(),
    {
        self.state
    }

    /// Consumes one event and yields the event to emit. The stack and the
    /// output follow `step_model` exactly; on an error the engine fails, the
    /// stack is left as it was, and nothing is emitted.
    pub fn step(&mut self, ev: SvgEvent) -> (r: Result<SvgEvent, EngineError>)
        requires
            old(self).wf(),
            old(self).spec_state() == EngineState::Streaming,
        ensures
            final(self).wf(),
            final(self).spec_matcher() == old(self).spec_matcher(),
            final(self).spec_charge() == old(self).spec_charge(),
            match r {
                Ok(out) => step_model(
                    old(self).spec_matcher(),
                    old(self).spec_charge(),
                    old(self).spec_stack(),
                    ev@,
                ) == Ok::<_, EngineError>((final(self).spec_stack(), out@))
                    && final(self).spec_state() == EngineState::Streaming,
                Err(e) => step_model(
                    old(self).spec_matcher(),
                    old(self).spec_charge(),
                    old(self).spec_stack(),
                    ev@,
                ) == Err::<(Seq<TagView>, EventView), _>(e) && final(self).spec_state()
                    == EngineState::Failed && final(self).spec_stack() == old(self).spec_stack(),
            },
    {
        match ev {
            SvgEvent::Other => Ok(SvgEvent::Other),
            SvgEvent::Open(el) => {
                let tag = Tag::new(el.name.as_str(), &el.attrs);
                self.stack.push(tag);
                proof {
                    assert(final(self).spec_stack() =~= old(self).spec_stack().push(
                        tag_of(el@),
                    ));
                }
                Ok(SvgEvent::Open(el))
            },
            SvgEvent::Close(n) => {
                let depth = self.stack.len();
                if depth == 0 {
                    self.state = EngineState::Failed;
                    return Err(EngineError::UnexpectedClose);
                }
                proof {
                    assert(self.spec_stack().last() == self.stack@[depth - 1]@);
                }
                let top = self.stack.pop().unwrap();
                if !crate::text::str_eq(top.name.as_str(), n.as_str()) {
                    self.stack.push(top);
                    self.state = EngineState::Failed;
                    proof {
                        assert(final(self).spec_stack() =~= old(self).spec_stack());
                    }
                    return Err(EngineError::MismatchedClose);
                }
                proof {
                    assert(final(self).spec_stack() =~= old(self).spec_stack().drop_last());
                }
                Ok(SvgEvent::Close(n))
            },
            SvgEvent::SelfClosing(el) => {
                match process_attributes(&el, &self.matcher, self.charge) {
                    Ok(out) => Ok(SvgEvent::SelfClosing(out)),
                    Err(e) => {
                        self.state = EngineState::Failed;
                        Err(EngineError::Transform(e))
                    },
                }
            },
        }
    }

    /// Ends the pass: the document is well formed exactly when no element is
    /// left open.
    pub fn finish(&mut self) -> (r: Result<(), EngineError>)
        requires
            old(self).wf(),
            old(self).spec_state() == EngineState::Streaming,
        ensures
            final(self).wf(),
            final(self).spec_stack() == old(self).spec_stack(),
            match r {
                Ok(_) => old(self).spec_stack().len() == 0 && final(self).spec_state()
                    == EngineState::Done,
                Err(e) => old(self).spec_stack().len() > 0 && e == EngineError::UnclosedElement
                    && final(self).spec_state() == EngineState::Failed,
            },
    {
        if self.stack.len() == 0 {
            self.state = EngineState::Done;
            Ok(())
        } else {
            self.state = EngineState::Failed;
            Err(EngineError::UnclosedElement)
        }
    }
}

/// A whole pass over a sequence of events: the final stack and the emitted
/// events, or `None` as soon as any step fails.
pub open spec fn run_model(
    m: AndMatcher,
    charge: nat,
    stack: Seq<TagView>,
    evs: Seq<EventView>,
) -> Option<(Seq<TagView>, Seq<EventView>)>
    decreases evs.len(),
{
    if evs.len() == 0 {
        Some((stack, Seq::empty()))
    } else {
        match step_model(m, charge, stack, evs[0]) {
            Err(_) => None,
            Ok((st1, out)) => match run_model(m, charge, st1, evs.drop_first()) {
                Option::None => None,
                Option::Some((st2, outs)) => Some((st2, seq![out] + outs)),
            },
        }
    }
}

/// Whether an event is a self-closing element that the selector matches —
/// the only kind of event the engine may rewrite.
pub open spec fn is_matching_self_closing(m: AndMatcher, ev: EventView) -> bool {
    ev is SelfClosing && m.spec_matches(seq![tag_of(ev->SelfClosing_0)])
}

/// Round-trip identity: a pass in which no event is a matching self-closing
/// element emits exactly its input events, in order.
pub proof fn lemma_round_trip_identity(
    m: AndMatcher,
    charge: nat,
    stack: Seq<TagView>,
    evs: Seq<EventView>,
    st2: Seq<TagView>,
    outs: Seq<EventView>,
)
    requires
        forall|i: int| 0 <= i < evs.len() ==> !is_matching_self_closing(m, #[trigger] evs[i]),
        run_model(m, charge, stack, evs) == Some((st2, outs)),
    ensures
        outs == evs,
    decreases evs.len(),
{
    if evs.len() > 0 {
        let ev = evs[0];
        let (st1, out) = step_model(m, charge, stack, ev).unwrap();
        assert(out == ev) by {
            match ev {
                EventView::SelfClosing(el) => {
                    assert(!is_matching_self_closing(m, ev));
                    assert(element_out(el, m, charge) == Ok::<_, TransformError>(el));
                    assert(out == EventView::SelfClosing(el));
                },
                _ => {},
            }
        }
        let rest = evs.drop_first();
        assert forall|i: int| 0 <= i < rest.len() implies !is_matching_self_closing(
            m,
            #[trigger] rest[i],
        ) by {
            assert(rest[i] == evs[i + 1]);
        }
        let (stf, outs1) = run_model(m, charge, st1, rest).unwrap();
        lemma_round_trip_identity(m, charge, st1, rest, stf, outs1);
        assert(outs == seq![ev] + rest);
        assert(seq![ev] + rest =~= evs);
    } else {
        assert(outs =~= evs);
    }
}

/// The open-element names a nesting discipline demands, walked front to
/// back: every close matches the innermost open element and nothing stays
/// open.
pub open spec fn balanced_from(evs: Seq<EventView>, pending: Seq<Seq<char>>) -> bool
    decreases evs.len(),
{
    if evs.len() == 0 {
        pending.len() == 0
    } else {
        match evs[0] {
            EventView::Open(el) => balanced_from(evs.drop_first(), pending.push(el.name)),
            EventView::Close(n) => pending.len() > 0 && pending.last() == n && balanced_from(
                evs.drop_first(),
                pending.drop_last(),
            ),
            _ => balanced_from(evs.drop_first(), pending),
        }
    }
}

/// A well-formed document: its events nest properly from an empty stack.
pub open spec fn balanced(evs: Seq<EventView>) -> bool {
    balanced_from(evs, Seq::empty())
}

/// The names of a stack of tags.
pub open spec fn names_of(stack: Seq<TagView>) -> Seq<Seq<char>> {
    stack.map_values(|t: TagView| t.name)
}

/// Every transform a pass would attempt succeeds.
pub open spec fn transforms_ok(m: AndMatcher, charge: nat, evs: Seq<EventView>) -> bool {
    forall|i: int|
        0 <= i < evs.len() ==> ((#[trigger] evs[i]) is SelfClosing ==> element_out(
            evs[i]->SelfClosing_0,
            m,
            charge,
        ) is Ok)
}

/// Balanced-stack invariant, success direction: a nesting-balanced event
/// sequence whose transforms all succeed runs to completion and leaves the
/// stack exactly as balanced nesting predicts — empty, when it began empty.
pub proof fn lemma_balanced_run_succeeds(
    m: AndMatcher,
    charge: nat,
    stack: Seq<TagView>,
    evs: Seq<EventView>,
)
    requires
        balanced_from(evs, names_of(stack)),
        transforms_ok(m, charge, evs),
    ensures
        run_model(m, charge, stack, evs) is Some,
        run_model(m, charge, stack, evs).unwrap().0.len() == 0,
    decreases evs.len(),
{
    if evs.len() == 0 {
        assert(names_of(stack).len() == 0);
        assert(stack.len() == 0);
    } else {
        let ev = evs[0];
        let rest = evs.drop_first();
        assert(transforms_ok(m, charge, rest)) by {
            assert(forall|i: int| 0 <= i < rest.len() ==> rest[i] == evs[i + 1]);
            assert forall|i: int| 0 <= i < rest.len() implies ((#[trigger] rest[i])
                is SelfClosing ==> element_out(rest[i]->SelfClosing_0, m, charge) is Ok) by {
                assert(rest[i] == evs[i + 1]);
            }
        }
        match ev {
            EventView::Open(el) => {
                let st1 = stack.push(tag_of(el));
                assert(names_of(st1) =~= names_of(stack).push(el.name));
                lemma_balanced_run_succeeds(m, charge, st1, rest);
            },
            EventView::Close(n) => {
                assert(names_of(stack).len() == stack.len());
                assert(stack.len() > 0);
                assert(names_of(stack).last() == stack.last().name);
                let st1 = stack.drop_last();
                assert(names_of(st1) =~= names_of(stack).drop_last());
                lemma_balanced_run_succeeds(m, charge, st1, rest);
            },
            EventView::SelfClosing(el) => {
                assert(element_out(el, m, charge) is Ok);
                lemma_balanced_run_succeeds(m, charge, stack, rest);
            },
            EventView::Other => {
                lemma_balanced_run_succeeds(m, charge, stack, rest);
            },
        }
    }
}

/// Round-trip identity for whole documents: a well-formed event stream in
/// which no element matches the selector runs to completion, leaves the
/// stack empty, and emits exactly its input events, in order.
pub proof fn lemma_document_round_trip(m: AndMatcher, charge: nat, evs: Seq<EventView>)
    requires
        balanced(evs),
        forall|i: int| 0 <= i < evs.len() ==> !is_matching_self_closing(m, #[trigger] evs[i]),
    ensures
        run_model(m, charge, Seq::empty(), evs) == Some((Seq::<TagView>::empty(), evs)),
{
    let empty_stack = Seq::<TagView>::empty();
    assert(names_of(empty_stack) =~= Seq::<Seq<char>>::empty());
    assert(transforms_ok(m, charge, evs)) by {
        assert forall|i: int| 0 <= i < evs.len() implies ((#[trigger] evs[i]) is SelfClosing
            ==> element_out(evs[i]->SelfClosing_0, m, charge) is Ok) by {
            if evs[i] is SelfClosing {
                assert(!is_matching_self_closing(m, evs[i]));
            }
        }
    }
    lemma_balanced_run_succeeds(m, charge, empty_stack, evs);
    let (st2, outs) = run_model(m, charge, empty_stack, evs).unwrap();
    lemma_round_trip_identity(m, charge, empty_stack, evs, st2, outs);
    assert(st2 =~= empty_stack);
}

/// Balanced-stack invariant, converse direction: when a pass runs to
/// completion, the stack it leaves is empty exactly when the events nested
/// properly over the stack it began with.
pub proof fn lemma_run_balanced(
    m: AndMatcher,
    charge: nat,
    stack: Seq<TagView>,
    evs: Seq<EventView>,
    st2: Seq<TagView>,
    outs: Seq<EventView>,
)
    requires
        run_model(m, charge, stack, evs) == Some((st2, outs)),
    ensures
        balanced_from(evs, names_of(stack)) <==> st2.len() == 0,
    decreases evs.len(),
{
    if evs.len() == 0 {
        assert(st2 == stack);
        assert(names_of(stack).len() == stack.len());
    } else {
        let ev = evs[0];
        let rest = evs.drop_first();
        let (st1, out) = step_model(m, charge, stack, ev).unwrap();
        let (stf, outs1) = run_model(m, charge, st1, rest).unwrap();
        lemma_run_balanced(m, charge, st1, rest, stf, outs1);
        match ev {
            EventView::Open(el) => {
                assert(names_of(st1) =~= names_of(stack).push(el.name));
            },
            EventView::Close(n) => {
                assert(names_of(stack).len() == stack.len());
                assert(names_of(stack).last() == stack.last().name);
                assert(names_of(st1) =~= names_of(stack).drop_last());
            },
            _ => {
                assert(st1 == stack);
            },
        }
    }
}

} // verus!
