use vstd::prelude::*;
use crate::errors::{err_view, Error, ErrorView, ResultIterator};
use crate::lexer::{lex_at, lex_view, LexStep, Lexeme, LexemeView, Lexer};

verus! {

/// One structural signal of a depth-first walk over a JSON value.
#[derive(Debug, Clone, PartialEq, Eq)]
pub enum Event {
    StartMap,
    EndMap,
    StartArray,
    EndArray,
    Key(String),
    Null,
    Boolean(bool),
    /// A number, as its literal text.
    Number(String),
    String(String),
}

/// The kind of an open container.
#[derive(Debug, Clone, Copy, PartialEq, Eq, Structural)]
pub enum Kind {
    Object,
    Array,
}

/// What a container expects next.
#[derive(Debug, Clone, Copy, PartialEq, Eq, Structural)]
pub enum Phase {
    /// Its first entry, or its closing bracket.
    First,
    /// A key, after a comma.
    Key,
    /// The colon after a key.
    Colon,
    /// A value.
    Value,
    /// A comma or the closing bracket.
    Next,
}

/// An open container on the parser's stack.
#[derive(Debug, Clone, Copy, PartialEq, Eq, Structural)]
pub struct Frame {
    pub kind: Kind,
    pub phase: Phase,
}

/// What one lexeme does to the event sequence.
pub enum Step {
    /// Nothing is emitted.
    Skip,
    Emit(Event),
    Fail(Error),
    /// The input ended after one complete value.
    Finish,
}

/// An event with its texts as character sequences.
pub enum EventView {
    StartMap,
    EndMap,
    StartArray,
    EndArray,
    Key(Seq<char>),
    Null,
    Boolean(bool),
    Number(Seq<char>),
    String(Seq<char>),
}

pub open spec fn event_view(e: Event) -> EventView {
    match e {
        Event::StartMap => EventView::StartMap,
        Event::EndMap => EventView::EndMap,
        Event::StartArray => EventView::StartArray,
        Event::EndArray => EventView::EndArray,
        Event::Key(s) => EventView::Key(s@),
        Event::Null => EventView::Null,
        Event::Boolean(b) => EventView::Boolean(b),
        Event::Number(s) => EventView::Number(s@),
        Event::String(s) => EventView::String(s@),
    }
}

pub open spec fn lex_opt(l: Option<Lexeme>) -> Option<LexemeView> {
    match l {
        Some(x) => Some(lex_view(x)),
        None => None,
    }
}

/// The outcome of a transition, as the grammar decides it.
pub enum Outcome {
    Skip,
    Emit(EventView),
    Unexpected,
    Unmatched(char),
    AdditionalData,
    MoreLexemes,
    Finish,
}

/// The parser's state: the open containers, and whether a complete
/// top-level value has been read.
pub struct State {
    pub stack: Seq<Frame>,
    pub done: bool,
}

/// The text that an error message shows for a lexeme.
pub open spec fn lexeme_text(l: LexemeView) -> Seq<char> {
    match l {
        LexemeView::OpenBrace => "{"@,
        LexemeView::CloseBrace => "}"@,
        LexemeView::OpenBracket => "["@,
        LexemeView::CloseBracket => "]"@,
        LexemeView::Colon => ":"@,
        LexemeView::Comma => ","@,
        LexemeView::True => "true"@,
        LexemeView::False => "false"@,
        LexemeView::Null => "null"@,
        LexemeView::Str(s) => s,
        LexemeView::Num(s) => s,
    }
}

/// The event of a scalar lexeme.
pub open spec fn scalar_event(l: LexemeView) -> Option<EventView> {
    match l {
        LexemeView::True => Some(EventView::Boolean(true)),
        LexemeView::False => Some(EventView::Boolean(false)),
        LexemeView::Null => Some(EventView::Null),
        LexemeView::Str(s) => Some(EventView::String(s)),
        LexemeView::Num(s) => Some(EventView::Number(s)),
        _ => None,
    }
}

/// `stack` with its top frame's phase replaced.
pub open spec fn set_top(stack: Seq<Frame>, phase: Phase) -> Seq<Frame> {
    if stack.len() == 0 {
        stack
    } else {
        stack.update(stack.len() - 1, Frame { kind: stack.last().kind, phase })
    }
}

/// A value starts with `l`; the enclosing frame, if any, already expects
/// what follows the value.
pub open spec fn start_value(stack: Seq<Frame>, l: LexemeView) -> (State, Outcome) {
    match l {
        LexemeView::OpenBrace => (
            State { stack: stack.push(Frame { kind: Kind::Object, phase: Phase::First }), done: false },
            Outcome::Emit(EventView::StartMap),
        ),
        LexemeView::OpenBracket => (
            State {
                stack: stack.push(Frame { kind: Kind::Array, phase: Phase::First }),
                done: false,
            },
            Outcome::Emit(EventView::StartArray),
        ),
        _ => match scalar_event(l) {
            Some(e) => (State { stack, done: stack.len() == 0 }, Outcome::Emit(e)),
            None => (State { stack, done: false }, Outcome::Unexpected),
        },
    }
}

/// The top container closes with a bracket of kind `k`.
pub open spec fn close(stack: Seq<Frame>, k: Kind, c: char) -> (State, Outcome) {
    if stack.last().kind == k {
        let rest = stack.drop_last();
        (
            State { stack: rest, done: rest.len() == 0 },
            Outcome::Emit(if k == Kind::Object { EventView::EndMap } else { EventView::EndArray }),
        )
    } else {
        (State { stack, done: false }, Outcome::Unmatched(c))
    }
}

/// The grammar: what the lexeme `l`, or the end of input (`None`), does in
/// state `s`.
pub open spec fn transition(s: State, l: Option<LexemeView>) -> (State, Outcome) {
    let stack = s.stack;
    match l {
        None => if stack.len() == 0 && s.done {
            (s, Outcome::Finish)
        } else {
            (s, Outcome::MoreLexemes)
        },
        Some(l) => if stack.len() == 0 {
            if s.done {
                (s, Outcome::AdditionalData)
            } else {
                start_value(stack, l)
            }
        } else {
            let top = stack.last();
            match top.phase {
                Phase::First => if top.kind == Kind::Object {
                    match l {
                        LexemeView::Str(k) => (
                            State { stack: set_top(stack, Phase::Colon), done: false },
                            Outcome::Emit(EventView::Key(k)),
                        ),
                        LexemeView::CloseBrace => close(stack, Kind::Object, '}'),
                        _ => (s, Outcome::Unexpected),
                    }
                } else {
                    match l {
                        LexemeView::CloseBracket => close(stack, Kind::Array, ']'),
                        _ => start_value(set_top(stack, Phase::Next), l),
                    }
                },
                Phase::Key => match l {
                    LexemeView::Str(k) => (
                        State { stack: set_top(stack, Phase::Colon), done: false },
                        Outcome::Emit(EventView::Key(k)),
                    ),
                    _ => (s, Outcome::Unexpected),
                },
                Phase::Colon => match l {
                    LexemeView::Colon => (
                        State { stack: set_top(stack, Phase::Value), done: false },
                        Outcome::Skip,
                    ),
                    _ => (s, Outcome::Unexpected),
                },
                Phase::Value => start_value(set_top(stack, Phase::Next), l),
                Phase::Next => match l {
                    LexemeView::Comma => (
                        State {
                            stack: set_top(
                                stack,
                                if top.kind == Kind::Object {
                                    Phase::Key
                                } else {
                                    Phase::Value
                                },
                            ),
                            done: false,
                        },
                        Outcome::Skip,
                    ),
                    LexemeView::CloseBrace => close(stack, Kind::Object, '}'),
                    LexemeView::CloseBracket => close(stack, Kind::Array, ']'),
                    _ => (s, Outcome::Unexpected),
                },
            }
        },
    }
}

/// Whether the step taken agrees with the grammar's outcome for lexeme `l`.
pub open spec fn agrees(r: Step, o: Outcome, l: Option<Lexeme>) -> bool {
    match o {
        Outcome::Skip => r is Skip,
        Outcome::Emit(e) => r matches Step::Emit(x) && event_view(x) == e,
        Outcome::Unexpected => r matches Step::Fail(Error::Unexpected(t)) && l is Some
            && t@ == lexeme_text(lex_view(l->0)),
        Outcome::Unmatched(c) => r == Step::Fail(Error::Unmatched(c)),
        Outcome::AdditionalData => r == Step::Fail(Error::AdditionalData),
        Outcome::MoreLexemes => r == Step::Fail(Error::MoreLexemes),
        Outcome::Finish => r is Finish,
    }
}

/// The containers left open by an event sequence, or `None` where a closing
/// event does not match the innermost open container.
pub open spec fn nesting(evs: Seq<Event>) -> Option<Seq<Kind>>
    decreases evs.len(),
{
    if evs.len() == 0 {
        Some(Seq::empty())
    } else {
        match nesting(evs.drop_last()) {
            None => None,
            Some(open) => match evs.last() {
                Event::StartMap => Some(open.push(Kind::Object)),
                Event::StartArray => Some(open.push(Kind::Array)),
                Event::EndMap => if open.len() > 0 && open.last() == Kind::Object {
                    Some(open.drop_last())
                } else {
                    None
                },
                Event::EndArray => if open.len() > 0 && open.last() == Kind::Array {
                    Some(open.drop_last())
                } else {
                    None
                },
                _ => Some(open),
            },
        }
    }
}

/// The error that a failing outcome of lexeme `l` reports.
pub open spec fn outcome_error(o: Outcome, l: Option<LexemeView>) -> ErrorView {
    match o {
        Outcome::Unexpected => ErrorView::Unexpected(
            match l {
                Some(x) => lexeme_text(x),
                None => Seq::empty(),
            },
        ),
        Outcome::Unmatched(c) => ErrorView::Unmatched(c),
        Outcome::AdditionalData => ErrorView::AdditionalData,
        _ => ErrorView::MoreLexemes,
    }
}

/// What the parser produces next.
pub enum ParseStep {
    /// An event, with the state and input position after it.
    Emit(EventView, State, int),
    Fail(ErrorView),
    /// The input ended after one complete value.
    Finish,
}

/// The next item that the bytes `s` give from position `pos` in state `st`:
/// lexemes are read and run through the grammar until one emits an event,
/// fails, or the input ends.
pub open spec fn parse_step(s: Seq<u8>, pos: int, st: State) -> ParseStep
    decreases (if pos <= s.len() {
        s.len() - pos
    } else {
        0
    }),
{
    match lex_at(s, pos) {
        LexStep::Fail(e) => ParseStep::Fail(e),
        LexStep::End => if transition(st, None).1 is Finish {
            ParseStep::Finish
        } else {
            ParseStep::Fail(ErrorView::MoreLexemes)
        },
        LexStep::Token(l, e) => {
            let (t, o) = transition(st, Some(l));
            match o {
                Outcome::Skip => if pos < e <= s.len() {
                    parse_step(s, e, t)
                } else {
                    ParseStep::Fail(ErrorView::MoreLexemes)
                },
                Outcome::Emit(ev) => ParseStep::Emit(ev, t, e),
                _ => ParseStep::Fail(outcome_error(o, Some(l))),
            }
        },
    }
}

/// Every event that the bytes `s` give from position `pos` in state `st`, and
/// the error that ends them, if any.
pub open spec fn parse_all(s: Seq<u8>, pos: int, st: State) -> (Seq<EventView>, Option<ErrorView>)
    decreases (if pos <= s.len() {
        s.len() - pos
    } else {
        0
    }),
{
    match parse_step(s, pos, st) {
        ParseStep::Emit(ev, t, e) => if pos < e <= s.len() {
            let rest = parse_all(s, e, t);
            (seq![ev] + rest.0, rest.1)
        } else {
            (seq![ev], Some(ErrorView::MoreLexemes))
        },
        ParseStep::Fail(err) => (Seq::empty(), Some(err)),
        ParseStep::Finish => (Seq::empty(), None),
    }
}

/// Whether item `r`, with state `st2` and position `p2` after it, is the
/// next item that the bytes give.
pub open spec fn parsed(
    s: Seq<u8>,
    pos: int,
    st: State,
    r: Option<Result<Event, Error>>,
    st2: State,
    p2: int,
) -> bool {
    match parse_step(s, pos, st) {
        ParseStep::Emit(ev, t, e) => r matches Some(Ok(x)) && event_view(x) == ev && st2 == t && p2
            == e,
        ParseStep::Fail(err) => r matches Some(Err(x)) && err_view(x) == err,
        ParseStep::Finish => r is None,
    }
}

/// The views of the successful items of a sequence, in order.
pub open spec fn ok_views(rs: Seq<Result<Event, Error>>) -> Seq<EventView>
    decreases rs.len(),
{
    if rs.len() == 0 {
        Seq::empty()
    } else {
        match rs.last() {
            Ok(v) => ok_views(rs.drop_last()).push(event_view(v)),
            Err(_) => ok_views(rs.drop_last()),
        }
    }
}

/// The kinds of the frames on a stack, outermost first.
pub open spec fn kinds(stack: Seq<Frame>) -> Seq<Kind> {
    stack.map_values(|f: Frame| f.kind)
}

pub open spec fn state_of(stack: Seq<Frame>, done: bool) -> State {
    State { stack, done }
}

proof fn lemma_kinds_set_top(stack: Seq<Frame>, p: Phase)
    ensures
        kinds(set_top(stack, p)) == kinds(stack),
        set_top(stack, p).len() == stack.len(),
{
    assert(kinds(set_top(stack, p)) =~= kinds(stack));
}

proof fn lemma_kinds_push(stack: Seq<Frame>, f: Frame)
    ensures
        kinds(stack.push(f)) == kinds(stack).push(f.kind),
{
    assert(kinds(stack.push(f)) =~= kinds(stack).push(f.kind));
}

proof fn lemma_kinds_drop_last(stack: Seq<Frame>)
    requires
        stack.len() > 0,
    ensures
        kinds(stack.drop_last()) == kinds(stack).drop_last(),
        kinds(stack).last() == stack.last().kind,
{
    assert(kinds(stack.drop_last()) =~= kinds(stack).drop_last());
}

/// Every emitted event keeps the open containers of the event sequence equal
/// to the parser's stack: starts push, ends pop a container of their own kind.
pub proof fn lemma_emit_nesting(s: State, l: Option<LexemeView>, evs: Seq<Event>, e: Event)
    requires
        nesting(evs) == Some(kinds(s.stack)),
        transition(s, l).1 == Outcome::Emit(event_view(e)),
    ensures
        nesting(evs.push(e)) == Some(kinds(transition(s, l).0.stack)),
{
    assert(evs.push(e).drop_last() =~= evs);
    lemma_kinds_set_top(s.stack, Phase::Colon);
    lemma_kinds_set_top(s.stack, Phase::Next);
    let n = set_top(s.stack, Phase::Next);
    lemma_kinds_push(s.stack, Frame { kind: Kind::Object, phase: Phase::First });
    lemma_kinds_push(s.stack, Frame { kind: Kind::Array, phase: Phase::First });
    lemma_kinds_push(n, Frame { kind: Kind::Object, phase: Phase::First });
    lemma_kinds_push(n, Frame { kind: Kind::Array, phase: Phase::First });
    if s.stack.len() > 0 {
        lemma_kinds_drop_last(s.stack);
    }
}

/// A transition that emits nothing leaves the open containers as they were.
proof fn lemma_quiet_nesting(s: State, l: Option<LexemeView>)
    ensures
        !(transition(s, l).1 is Emit) ==> kinds(transition(s, l).0.stack) == kinds(s.stack),
{
    lemma_kinds_set_top(s.stack, Phase::Next);
    lemma_kinds_set_top(s.stack, Phase::Key);
    lemma_kinds_set_top(s.stack, Phase::Value);
}

fn lexeme_string(l: &Lexeme) -> (r: String)
    ensures
        r@ == lexeme_text(lex_view(*l)),
{
    match l {
        Lexeme::OpenBrace => "{".to_owned(),
        Lexeme::CloseBrace => "}".to_owned(),
        Lexeme::OpenBracket => "[".to_owned(),
        Lexeme::CloseBracket => "]".to_owned(),
        Lexeme::Colon => ":".to_owned(),
        Lexeme::Comma => ",".to_owned(),
        Lexeme::True => "true".to_owned(),
        Lexeme::False => "false".to_owned(),
        Lexeme::Null => "null".to_owned(),
        Lexeme::Str(s) => s.clone(),
        Lexeme::Num(s) => s.clone(),
    }
}

fn set_top_phase(stack: &mut Vec<Frame>, phase: Phase)
    requires
        old(stack).len() > 0,
    ensures
        final(stack)@ == set_top(old(stack)@, phase),
{
    let i = stack.len() - 1;
    let kind = stack[i].kind;
    stack.set(i, Frame { kind, phase });
}

fn start_value_exec(stack: &mut Vec<Frame>, done: &mut bool, l: Lexeme) -> (r: Step)
    ensures
        final(stack)@ == start_value(old(stack)@, lex_view(l)).0.stack,
        *final(done) == start_value(old(stack)@, lex_view(l)).0.done,
        agrees(r, start_value(old(stack)@, lex_view(l)).1, Some(l)),
{
    match l {
        Lexeme::OpenBrace => {
            stack.push(Frame { kind: Kind::Object, phase: Phase::First });
            *done = false;
            Step::Emit(Event::StartMap)
        },
        Lexeme::OpenBracket => {
            stack.push(Frame { kind: Kind::Array, phase: Phase::First });
            *done = false;
            Step::Emit(Event::StartArray)
        },
        Lexeme::True => {
            *done = stack.len() == 0;
            Step::Emit(Event::Boolean(true))
        },
        Lexeme::False => {
            *done = stack.len() == 0;
            Step::Emit(Event::Boolean(false))
        },
        Lexeme::Null => {
            *done = stack.len() == 0;
            Step::Emit(Event::Null)
        },
        Lexeme::Str(s) => {
            *done = stack.len() == 0;
            Step::Emit(Event::String(s))
        },
        Lexeme::Num(s) => {
            *done = stack.len() == 0;
            Step::Emit(Event::Number(s))
        },
        other => {
            *done = false;
            Step::Fail(Error::Unexpected(lexeme_string(&other)))
        },
    }
}

fn close_exec(stack: &mut Vec<Frame>, done: &mut bool, k: Kind, c: char) -> (r: Step)
    requires
        old(stack).len() > 0,
    ensures
        final(stack)@ == close(old(stack)@, k, c).0.stack,
        *final(done) == close(old(stack)@, k, c).0.done,
        close(old(stack)@, k, c).1 == Outcome::Emit(EventView::EndMap) ==> r == Step::Emit(
            Event::EndMap,
        ),
        close(old(stack)@, k, c).1 == Outcome::Emit(EventView::EndArray) ==> r == Step::Emit(
            Event::EndArray,
        ),
        close(old(stack)@, k, c).1 == Outcome::Unmatched(c) ==> r == Step::Fail(
            Error::Unmatched(c),
        ),
{
    let top = stack[stack.len() - 1];
    if top.kind == k {
        stack.pop();
        *done = stack.len() == 0;
        match k {
            Kind::Object => Step::Emit(Event::EndMap),
            Kind::Array => Step::Emit(Event::EndArray),
        }
    } else {
        *done = false;
        Step::Fail(Error::Unmatched(c))
    }
}

/// Applies the grammar to one lexeme, or to the end of input (`None`).
pub fn apply(stack: &mut Vec<Frame>, done: &mut bool, l: Option<Lexeme>) -> (r: Step)
    ensures
        final(stack)@ == transition(state_of(old(stack)@, *old(done)), lex_opt(l)).0.stack,
        *final(done) == transition(state_of(old(stack)@, *old(done)), lex_opt(l)).0.done,
        agrees(r, transition(state_of(old(stack)@, *old(done)), lex_opt(l)).1, l),
{
    let l = match l {
        None => {
            return if stack.len() == 0 && *done {
                Step::Finish
            } else {
                Step::Fail(Error::MoreLexemes)
            };
        },
        Some(l) => l,
    };
    if stack.len() == 0 {
        if *done {
            return Step::Fail(Error::AdditionalData);
        }
        return start_value_exec(stack, done, l);
    }
    let top = stack[stack.len() - 1];
    match top.phase {
        Phase::First => match top.kind {
            Kind::Object => match l {
                Lexeme::Str(k) => {
                    set_top_phase(stack, Phase::Colon);
                    *done = false;
                    Step::Emit(Event::Key(k))
                },
                Lexeme::CloseBrace => close_exec(stack, done, Kind::Object, '}'),
                other => Step::Fail(Error::Unexpected(lexeme_string(&other))),
            },
            Kind::Array => match l {
                Lexeme::CloseBracket => close_exec(stack, done, Kind::Array, ']'),
                other => {
                    set_top_phase(stack, Phase::Next);
                    start_value_exec(stack, done, other)
                },
            },
        },
        Phase::Key => match l {
            Lexeme::Str(k) => {
                set_top_phase(stack, Phase::Colon);
                *done = false;
                Step::Emit(Event::Key(k))
            },
            other => Step::Fail(Error::Unexpected(lexeme_string(&other))),
        },
        Phase::Colon => match l {
            Lexeme::Colon => {
                set_top_phase(stack, Phase::Value);
                *done = false;
                Step::Skip
            },
            other => Step::Fail(Error::Unexpected(lexeme_string(&other))),
        },
        Phase::Value => {
            set_top_phase(stack, Phase::Next);
            start_value_exec(stack, done, l)
        },
        Phase::Next => match l {
            Lexeme::Comma => {
                match top.kind {
                    Kind::Object => set_top_phase(stack, Phase::Key),
                    Kind::Array => set_top_phase(stack, Phase::Value),
                }
                *done = false;
                Step::Skip
            },
            Lexeme::CloseBrace => close_exec(stack, done, Kind::Object, '}'),
            Lexeme::CloseBracket => close_exec(stack, done, Kind::Array, ']'),
            other => Step::Fail(Error::Unexpected(lexeme_string(&other))),
        },
    }
}

/// The parser proper: lexemes in, events out, with no stop after an error.
pub struct EventSource {
    lexer: Lexer,
    stack: Vec<Frame>,
    done: bool,
    emitted: Ghost<Seq<Event>>,
}

impl EventSource {
    pub closed spec fn lexer(&self) -> Lexer {
        self.lexer
    }

    pub closed spec fn state(&self) -> State {
        state_of(self.stack@, self.done)
    }

    /// The events produced so far.
    pub closed spec fn emitted(&self) -> Seq<Event> {
        self.emitted@
    }

    pub open spec fn wf(&self) -> bool {
        &&& self.lexer().wf()
        &&& self.state().done ==> self.state().stack.len() == 0
        &&& nesting(self.emitted()) == Some(kinds(self.state().stack))
    }

    pub fn new(source: Vec<u8>) -> (r: EventSource)
        ensures
            r.wf(),
            r.lexer().input() == source@,
            r.lexer().pos() == 0,
            !r.lexer().failed(),
            r.emitted() == Seq::<Event>::empty(),
            r.state() == state_of(Seq::empty(), false),
    {
        let r = EventSource {
            lexer: Lexer::new(source),
            stack: Vec::new(),
            done: false,
            emitted: Ghost(Seq::empty()),
        };
        assert(kinds(r.stack@) =~= Seq::<Kind>::empty());
        r
    }

    /// The next event, or the error that stops the document, or `None` once
    /// one complete value has been read and the input is exhausted.
    pub fn next_item(&mut self) -> (r: Option<Result<Event, Error>>)
        requires
            old(self).wf(),
        ensures
            final(self).wf(),
            final(self).lexer().input() == old(self).lexer().input(),
            final(self).lexer().pos() >= old(self).lexer().pos(),
            r matches Some(Ok(e)) ==> final(self).emitted() == old(self).emitted().push(e)
                && final(self).lexer().pos() > old(self).lexer().pos(),
            !(r matches Some(Ok(_))) ==> final(self).emitted() == old(self).emitted(),
            r is None ==> final(self).state().done && final(self).state().stack.len() == 0,
            !old(self).lexer().failed() ==> parsed(
                old(self).lexer().input(),
                old(self).lexer().pos(),
                old(self).state(),
                r,
                final(self).state(),
                final(self).lexer().pos(),
            ),
            !old(self).lexer().failed() && final(self).lexer().failed() ==> r matches Some(Err(_)),
    {
        loop
            invariant
                self.wf(),
                self.lexer().input() == old(self).lexer().input(),
                self.lexer().pos() >= old(self).lexer().pos(),
                self.emitted() == old(self).emitted(),
                !old(self).lexer().failed() ==> !self.lexer().failed() && parse_step(
                    self.lexer().input(),
                    old(self).lexer().pos(),
                    old(self).state(),
                ) == parse_step(self.lexer().input(), self.lexer().pos(), self.state()),
            decreases self.lexer().input().len() - self.lexer().pos(),
        {
            let l = match self.lexer.next_lexeme() {
                Some(Err(e)) => return Some(Err(e)),
                Some(Ok(l)) => Some(l),
                None => None,
            };
            let ghost before = self.state();
            let ghost lx = lex_opt(l);
            proof {
                lemma_quiet_nesting(before, lx);
            }
            match apply(&mut self.stack, &mut self.done, l) {
                Step::Skip => {},
                Step::Emit(e) => {
                    proof {
                        lemma_emit_nesting(before, lx, self.emitted@, e);
                    }
                    self.emitted = Ghost(self.emitted@.push(e));
                    return Some(Ok(e));
                },
                Step::Fail(e) => return Some(Err(e)),
                Step::Finish => return None,
            }
        }
    }
}

/// A JSON document parsed into a sequence of events, which ends for good at
/// the first error.
pub struct Parser {
    events: ResultIterator<EventSource>,
}

impl Parser {
    pub closed spec fn source(&self) -> EventSource {
        self.events.iterator
    }

    /// Whether an error has ended the sequence.
    pub closed spec fn stopped(&self) -> bool {
        self.events.errored
    }

    pub open spec fn wf(&self) -> bool {
        &&& self.source().wf()
        &&& !self.stopped() ==> !self.source().lexer().failed()
    }

    /// The document's bytes.
    pub open spec fn input(&self) -> Seq<u8> {
        self.source().lexer().input()
    }

    /// How far the input has been read.
    pub open spec fn pos(&self) -> int {
        self.source().lexer().pos()
    }

    /// The open containers and whether a complete value has been read.
    pub open spec fn state(&self) -> State {
        self.source().state()
    }

    /// The events produced so far.
    pub open spec fn emitted(&self) -> Seq<Event> {
        self.source().emitted()
    }

    /// The open containers, outermost first.
    pub open spec fn open(&self) -> Seq<Kind> {
        kinds(self.source().state().stack)
    }

    /// Bytes not read yet, plus one while the sequence is not stopped; each
    /// item produced takes it down.
    pub open spec fn remaining(&self) -> int {
        (self.source().lexer().input().len() - self.source().lexer().pos()) + (if self.stopped() {
            0int
        } else {
            1int
        })
    }

    pub fn new(source: Vec<u8>) -> (r: Parser)
        ensures
            r.wf(),
            !r.stopped(),
            r.emitted() == Seq::<Event>::empty(),
            r.open() == Seq::<Kind>::empty(),
            r.source().lexer().input() == source@,
            r.input() == source@,
            r.pos() == 0,
            r.state() == state_of(Seq::empty(), false),
            r.remaining() == source@.len() + 1,
    {
        let r = Parser { events: ResultIterator::new(EventSource::new(source)) };
        assert(kinds(Seq::<Frame>::empty()) =~= Seq::<Kind>::empty());
        r
    }

    /// Whether an error has ended the sequence.
    pub fn is_stopped(&self) -> (r: bool)
        ensures
            r == self.stopped(),
    {
        self.events.is_errored()
    }

    /// The next event; `None` at the end of the document and after an error.
    pub fn next(&mut self) -> (r: Option<Result<Event, Error>>)
        requires
            old(self).wf(),
        ensures
            final(self).wf(),
            final(self).source().lexer().input() == old(self).source().lexer().input(),
            old(self).stopped() ==> r is None && *final(self) == *old(self),
            !old(self).stopped() ==> final(self).stopped() == (r matches Some(Err(_))),
            r matches Some(Ok(e)) ==> final(self).emitted() == old(self).emitted().push(e),
            !(r matches Some(Ok(_))) ==> final(self).emitted() == old(self).emitted(),
            nesting(final(self).emitted()) == Some(final(self).open()),
            r is None && !old(self).stopped() ==> final(self).open().len() == 0
                && final(self).source().state().done,
            r is Some ==> final(self).remaining() < old(self).remaining(),
            final(self).remaining() <= old(self).remaining(),
            !old(self).stopped() ==> parsed(
                old(self).input(),
                old(self).pos(),
                old(self).state(),
                r,
                final(self).state(),
                final(self).pos(),
            ),
    {
        if self.events.errored {
            return None;
        }
        let v = self.events.iterator.next_item();
        self.events.guard(v)
    }

    /// Every remaining item, in order: events, then at most one error, last.
    pub fn collect_all(&mut self) -> (r: Vec<Result<Event, Error>>)
        requires
            old(self).wf(),
        ensures
            final(self).wf(),
            forall|i: int| 0 <= i < r@.len() - 1 ==> r@[i] is Ok,
            !old(self).stopped() && (r@.len() == 0 || r@.last() is Ok) ==> final(self).open().len()
                == 0 && final(self).source().state().done,
            old(self).stopped() ==> r@.len() == 0,
            forall|i: int|
                0 <= i < r@.len() && r@[i] is Ok ==> old(self).emitted().len() + i
                    < final(self).emitted().len() && r@[i]->Ok_0 == final(self).emitted()[old(self).emitted().len() + i],
            !old(self).stopped() ==> ok_views(r@) == parse_all(
                old(self).input(),
                old(self).pos(),
                old(self).state(),
            ).0,
            !old(self).stopped() ==> (match parse_all(
                old(self).input(),
                old(self).pos(),
                old(self).state(),
            ).1 {
                Some(err) => r@.len() > 0 && (r@.last() matches Err(x) && err_view(x) == err),
                None => r@.len() == 0 || r@.last() is Ok,
            }),
    {
        let mut out: Vec<Result<Event, Error>> = Vec::new();
        let ghost start = self.emitted();
        let ghost full = parse_all(self.input(), self.pos(), self.state());
        loop
            invariant
                self.wf(),
                self.source().lexer().input() == old(self).source().lexer().input(),
                self.remaining() <= old(self).remaining(),
                old(self).stopped() ==> self.stopped() && out@.len() == 0,
                !old(self).stopped() ==> !self.stopped(),
                forall|i: int| 0 <= i < out@.len() ==> out@[i] is Ok,
                self.emitted().len() == start.len() + out@.len(),
                self.emitted().subrange(0, start.len() as int) == start,
                forall|i: int|
                    0 <= i < out@.len() ==> out@[i]->Ok_0 == self.emitted()[start.len() + i],
                start == old(self).emitted(),
                !old(self).stopped() ==> full.0 == ok_views(out@) + parse_all(
                    self.input(),
                    self.pos(),
                    self.state(),
                ).0 && full.1 == parse_all(self.input(), self.pos(), self.state()).1,
                self.input() == old(self).input(),
                full == parse_all(old(self).input(), old(self).pos(), old(self).state()),
            decreases self.remaining(),
        {
            let ghost prev = self.emitted();
            let ghost before = out@;
            let ghost rest = parse_all(self.input(), self.pos(), self.state());
            match self.next() {
                None => {
                    assert(ok_views(out@) + Seq::<EventView>::empty() =~= ok_views(out@));
                    return out;
                },
                Some(Ok(e)) => {
                    out.push(Ok(e));
                    assert(out@.drop_last() =~= before);
                    assert(ok_views(before) + rest.0 =~= ok_views(out@) + parse_all(
                        self.input(),
                        self.pos(),
                        self.state(),
                    ).0);
                    assert(self.emitted().subrange(0, start.len() as int) =~= prev.subrange(
                        0,
                        start.len() as int,
                    ));
                },
                Some(Err(e)) => {
                    out.push(Err(e));
                    assert(out@.drop_last() =~= before);
                    assert(ok_views(before) + Seq::<EventView>::empty() =~= ok_views(before));
                    return out;
                },
            }
        }
    }
}

} // verus!
