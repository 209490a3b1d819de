use vstd::prelude::*;
use vstd::string::StringSliceAdditionalSpecFns;
use vstd::utf8::{decode_utf8, valid_utf8};
use crate::errors::Error;
use crate::lexer::utf8_string;
use crate::errors::err_view;
use crate::parser::{event_view, nesting, parse_all, Event, EventView, Kind, Parser};
use crate::errors::ErrorView;

verus! {

/// One segment of a compiled path.
#[derive(Debug, Clone, PartialEq, Eq)]
pub enum Token {
    /// Matches the map entry with this key.
    Literal(String),
    /// Matches every element of an array, and no map entry.
    Item,
}

/// How far the path is matched at a value or container.
#[derive(Debug, Clone, Copy, PartialEq, Eq, Structural)]
pub enum Scope {
    /// Off the path: the whole sub-tree is dropped.
    Dead,
    /// This many leading tokens are matched, and more remain.
    Partial(usize),
    /// The whole path is matched: the sub-tree is passed on.
    Active,
}

/// The filter's record of one open container.
#[derive(Debug, Clone, Copy, PartialEq, Eq, Structural)]
pub struct MatchFrame {
    pub kind: Kind,
    /// The scope of the container itself.
    pub scope: Scope,
    /// The scope that the container's next value gets.
    pub next: Scope,
}

/// The scope after the token at index `d` matched.
pub open spec fn deeper(n: nat, d: usize) -> Scope {
    if d + 1 >= n {
        Scope::Active
    } else {
        Scope::Partial((d + 1) as usize)
    }
}

/// The scope of the top-level value.
pub open spec fn root_scope(pat: Seq<Token>) -> Scope {
    if pat.len() == 0 {
        Scope::Active
    } else {
        Scope::Partial(0)
    }
}

/// The scope of the value under key `k` in a map of scope `sc`.
pub open spec fn key_child(pat: Seq<Token>, sc: Scope, k: Seq<char>) -> Scope {
    match sc {
        Scope::Partial(d) => if d < pat.len() && (pat[d as int] matches Token::Literal(l) && l@
            == k) {
            deeper(pat.len(), d)
        } else {
            Scope::Dead
        },
        _ => sc,
    }
}

/// The scope of each element of an array of scope `sc`.
pub open spec fn item_child(pat: Seq<Token>, sc: Scope) -> Scope {
    match sc {
        Scope::Partial(d) => if d < pat.len() && pat[d as int] is Item {
            deeper(pat.len(), d)
        } else {
            Scope::Dead
        },
        _ => sc,
    }
}

/// The scope of the next value at the current position.
pub open spec fn value_scope(pat: Seq<Token>, st: Seq<MatchFrame>) -> Scope {
    if st.len() == 0 {
        root_scope(pat)
    } else {
        st.last().next
    }
}

/// Whether the innermost open container lies inside a match.
pub open spec fn inside_match(st: Seq<MatchFrame>) -> bool {
    st.len() > 0 && st.last().scope is Active
}

/// What the filter does with one event.
pub struct Filtered {
    pub stack: Seq<MatchFrame>,
    /// The event is part of a match and is passed on.
    pub forward: bool,
    /// The event ends a match.
    pub closes: bool,
}

/// A value that stands alone at scope `sc`: a scalar, or a stray event.
pub open spec fn lone(pat: Seq<Token>, st: Seq<MatchFrame>, sc: Scope) -> Filtered {
    Filtered { stack: st, forward: sc is Active, closes: sc is Active && !inside_match(st) }
}

/// The filter's rule for one event, given the open containers `st`.
pub open spec fn filter_step(pat: Seq<Token>, st: Seq<MatchFrame>, e: Event) -> Filtered {
    let sc = value_scope(pat, st);
    match e {
        Event::StartMap => Filtered {
            stack: st.push(
                MatchFrame {
                    kind: Kind::Object,
                    scope: sc,
                    next: if sc is Active {
                        Scope::Active
                    } else {
                        Scope::Dead
                    },
                },
            ),
            forward: sc is Active,
            closes: false,
        },
        Event::StartArray => Filtered {
            stack: st.push(MatchFrame { kind: Kind::Array, scope: sc, next: item_child(pat, sc) }),
            forward: sc is Active,
            closes: false,
        },
        Event::EndMap | Event::EndArray => if st.len() == 0 {
            lone(pat, st, sc)
        } else {
            let rest = st.drop_last();
            let f = st.last().scope is Active;
            Filtered { stack: rest, forward: f, closes: f && !inside_match(rest) }
        },
        Event::Key(k) => if st.len() == 0 {
            lone(pat, st, sc)
        } else {
            let top = st.last();
            Filtered {
                stack: st.update(
                    st.len() - 1,
                    MatchFrame { kind: top.kind, scope: top.scope, next: key_child(pat, top.scope, k@) },
                ),
                forward: top.scope is Active,
                closes: false,
            }
        },
        _ => lone(pat, st, sc),
    }
}

/// The filter run over a sequence of events.
pub struct Run {
    pub stack: Seq<MatchFrame>,
    /// Every event passed on, in order.
    pub out: Seq<Event>,
    /// The complete matches, one sequence of events each.
    pub groups: Seq<Seq<Event>>,
    /// The events of the match still open.
    pub current: Seq<Event>,
}

pub open spec fn run(pat: Seq<Token>, evs: Seq<Event>) -> Run
    decreases evs.len(),
{
    if evs.len() == 0 {
        Run { stack: Seq::empty(), out: Seq::empty(), groups: Seq::empty(), current: Seq::empty() }
    } else {
        let r = run(pat, evs.drop_last());
        let e = evs.last();
        let f = filter_step(pat, r.stack, e);
        let out = if f.forward {
            r.out.push(e)
        } else {
            r.out
        };
        let cur = if f.forward {
            r.current.push(e)
        } else {
            r.current
        };
        if f.closes {
            Run { stack: f.stack, out, groups: r.groups.push(cur), current: Seq::empty() }
        } else {
            Run { stack: f.stack, out, groups: r.groups, current: cur }
        }
    }
}

/// The flattened output of filtering `evs` with `pat`.
pub open spec fn prefix_of(pat: Seq<Token>, evs: Seq<Event>) -> Seq<Event> {
    run(pat, evs).out
}

/// The matches of `pat` in `evs`, one complete value each.
pub open spec fn items_of(pat: Seq<Token>, evs: Seq<Event>) -> Seq<Seq<Event>> {
    run(pat, evs).groups
}

pub open spec fn concat(gs: Seq<Seq<Event>>) -> Seq<Event>
    decreases gs.len(),
{
    if gs.len() == 0 {
        Seq::empty()
    } else {
        concat(gs.drop_last()) + gs.last()
    }
}

/// What every run of the filter keeps.
pub open spec fn run_inv(r: Run, evs: Seq<Event>) -> bool {
    &&& r.current.len() > 0 ==> inside_match(r.stack)
    &&& forall|i: int|
        0 <= i < r.stack.len() && (#[trigger] r.stack[i]).scope is Active ==> r.stack[i].next is Active
    &&& nesting(evs) matches Some(open) ==> open.len() == r.stack.len()
    &&& concat(r.groups) + r.current == r.out
}

proof fn lemma_concat_push(gs: Seq<Seq<Event>>, g: Seq<Event>)
    ensures
        concat(gs.push(g)) == concat(gs) + g,
{
    assert(gs.push(g).drop_last() =~= gs);
}

/// The filter's invariants hold after any sequence of events: an open match
/// lies inside an active container, active containers pass activity on, the
/// filter keeps one frame per open container, and the complete matches
/// followed by the open one are exactly the events passed on.
pub proof fn lemma_run(pat: Seq<Token>, evs: Seq<Event>)
    ensures
        run_inv(run(pat, evs), evs),
    decreases evs.len(),
{
    if evs.len() == 0 {
        assert(concat(Seq::<Seq<Event>>::empty()) + Seq::<Event>::empty() =~= Seq::<Event>::empty());
    } else {
        let prev = evs.drop_last();
        lemma_run(pat, prev);
        let r = run(pat, prev);
        let e = evs.last();
        let f = filter_step(pat, r.stack, e);
        let out = if f.forward {
            r.out.push(e)
        } else {
            r.out
        };
        let cur = if f.forward {
            r.current.push(e)
        } else {
            r.current
        };
        assert(concat(r.groups) + cur =~= out);
        if f.closes {
            lemma_concat_push(r.groups, cur);
            assert(concat(r.groups.push(cur)) + Seq::<Event>::empty() =~= out);
        }
        let n = run(pat, evs);
        assert forall|i: int|
            0 <= i < n.stack.len() && (#[trigger] n.stack[i]).scope is Active implies n.stack[i].next is Active by {
            if i < r.stack.len() {
                assert(r.stack[i].scope is Active ==> r.stack[i].next is Active);
            }
        }
    }
}

/// The matches that `items` hands out, joined, are exactly what `prefix`
/// passes on, for every path and every complete, properly nested document.
pub proof fn lemma_items_concat_to_prefix(pat: Seq<Token>, evs: Seq<Event>)
    requires
        nesting(evs) == Some(Seq::<Kind>::empty()),
    ensures
        concat(items_of(pat, evs)) == prefix_of(pat, evs),
{
    lemma_run(pat, evs);
    let r = run(pat, evs);
    assert(r.current.len() == 0);
    assert(concat(r.groups) + r.current =~= concat(r.groups));
}

proof fn lemma_empty_pattern_run(evs: Seq<Event>)
    ensures
        run(Seq::<Token>::empty(), evs).out == evs,
        forall|i: int|
            0 <= i < run(Seq::<Token>::empty(), evs).stack.len() ==> (#[trigger] run(
                Seq::<Token>::empty(),
                evs,
            ).stack[i]).scope is Active && run(Seq::<Token>::empty(), evs).stack[i].next is Active,
    decreases evs.len(),
{
    if evs.len() > 0 {
        lemma_empty_pattern_run(evs.drop_last());
        assert(evs.drop_last().push(evs.last()) =~= evs);
    }
}

/// The empty path passes every event on unchanged.
pub proof fn lemma_empty_pattern_is_identity(evs: Seq<Event>)
    ensures
        prefix_of(Seq::<Token>::empty(), evs) == evs,
{
    lemma_empty_pattern_run(evs);
}

/// The wildcard matches array elements only: under a map whose scope waits on
/// a wildcard token, no key opens a match, so every entry of the map is off
/// the path, and the map's own scope stays where it was.
pub proof fn lemma_item_never_matches_keys(
    pat: Seq<Token>,
    st: Seq<MatchFrame>,
    d: usize,
    k: String,
)
    requires
        st.len() > 0,
        st.last().kind == Kind::Object,
        st.last().scope == Scope::Partial(d),
        d < pat.len(),
        pat[d as int] is Item,
    ensures
        filter_step(pat, st, Event::Key(k)).stack.last().next == Scope::Dead,
        filter_step(pat, st, Event::Key(k)).stack.last().scope == Scope::Partial(d),
{
}

fn is_active(sc: Scope) -> (r: bool)
    ensures
        r == (sc is Active),
{
    sc == Scope::Active
}

fn deeper_exec(n: usize, d: usize) -> (r: Scope)
    requires
        d < n,
    ensures
        r == deeper(n as nat, d),
{
    if d + 1 >= n {
        Scope::Active
    } else {
        Scope::Partial(d + 1)
    }
}

fn root_scope_exec(pat: &Vec<Token>) -> (r: Scope)
    ensures
        r == root_scope(pat@),
{
    if pat.len() == 0 {
        Scope::Active
    } else {
        Scope::Partial(0)
    }
}

fn key_child_exec(pat: &Vec<Token>, sc: Scope, k: &String) -> (r: Scope)
    ensures
        r == key_child(pat@, sc, k@),
{
    match sc {
        Scope::Partial(d) => {
            if d < pat.len() {
                match &pat[d] {
                    Token::Literal(l) => if l.eq(k) {
                        deeper_exec(pat.len(), d)
                    } else {
                        Scope::Dead
                    },
                    Token::Item => Scope::Dead,
                }
            } else {
                Scope::Dead
            }
        },
        _ => sc,
    }
}

fn item_child_exec(pat: &Vec<Token>, sc: Scope) -> (r: Scope)
    ensures
        r == item_child(pat@, sc),
{
    match sc {
        Scope::Partial(d) => {
            if d < pat.len() {
                match &pat[d] {
                    Token::Item => deeper_exec(pat.len(), d),
                    Token::Literal(_) => Scope::Dead,
                }
            } else {
                Scope::Dead
            }
        },
        _ => sc,
    }
}

fn inside_match_exec(st: &Vec<MatchFrame>) -> (r: bool)
    ensures
        r == inside_match(st@),
{
    st.len() > 0 && is_active(st[st.len() - 1].scope)
}

/// Applies the filter's rule to one event; returns whether the event is
/// passed on and whether it ends a match.
pub fn filter_event(pat: &Vec<Token>, stack: &mut Vec<MatchFrame>, e: &Event) -> (r: (bool, bool))
    ensures
        final(stack)@ == filter_step(pat@, old(stack)@, *e).stack,
        r.0 == filter_step(pat@, old(stack)@, *e).forward,
        r.1 == filter_step(pat@, old(stack)@, *e).closes,
{
    let sc = if stack.len() == 0 {
        root_scope_exec(pat)
    } else {
        stack[stack.len() - 1].next
    };
    let active = is_active(sc);
    match e {
        Event::StartMap => {
            let next = if active {
                Scope::Active
            } else {
                Scope::Dead
            };
            stack.push(MatchFrame { kind: Kind::Object, scope: sc, next });
            (active, false)
        },
        Event::StartArray => {
            let next = item_child_exec(pat, sc);
            stack.push(MatchFrame { kind: Kind::Array, scope: sc, next });
            (active, false)
        },
        Event::EndMap | Event::EndArray => {
            if stack.len() == 0 {
                (active, active && !inside_match_exec(stack))
            } else {
                let top = stack.pop().unwrap();
                let f = is_active(top.scope);
                (f, f && !inside_match_exec(stack))
            }
        },
        Event::Key(k) => {
            if stack.len() == 0 {
                (active, active && !inside_match_exec(stack))
            } else {
                let i = stack.len() - 1;
                let top = stack[i];
                let next = key_child_exec(pat, top.scope, k);
                stack.set(i, MatchFrame { kind: top.kind, scope: top.scope, next });
                (is_active(top.scope), false)
            }
        },
        _ => (active, active && !inside_match_exec(stack)),
    }
}

/// The segments closed so far and the segment still open, after the first
/// `n` bytes of a path.
pub open spec fn split_state(b: Seq<u8>, n: int) -> (Seq<Seq<u8>>, Seq<u8>)
    decreases n,
{
    if n <= 0 {
        (Seq::empty(), Seq::empty())
    } else {
        let (d, c) = split_state(b, n - 1);
        if b[n - 1] == 0x2e {
            (d.push(c), Seq::empty())
        } else {
            (d, c.push(b[n - 1]))
        }
    }
}

/// The dot-separated segments of a path; none for the empty path.
pub open spec fn segments(b: Seq<u8>) -> Seq<Seq<u8>> {
    if b.len() == 0 {
        Seq::empty()
    } else {
        split_state(b, b.len() as int).0.push(split_state(b, b.len() as int).1)
    }
}

/// The segment that spells the wildcard, `item`.
pub open spec fn is_item_word(seg: Seq<u8>) -> bool {
    seg == seq![0x69u8, 0x74, 0x65, 0x6d]
}

/// Whether `t` is the token that segment `seg` compiles to.
pub open spec fn token_for(t: Token, seg: Seq<u8>) -> bool {
    if is_item_word(seg) {
        t is Item
    } else {
        t matches Token::Literal(l) && (valid_utf8(seg) ==> l@ == decode_utf8(seg))
    }
}

/// Whether `toks` is the compiled form of the path with bytes `b`.
pub open spec fn compiles_to(b: Seq<u8>, toks: Seq<Token>) -> bool {
    &&& toks.len() == segments(b).len()
    &&& forall|i: int| 0 <= i < toks.len() ==> token_for(#[trigger] toks[i], segments(b)[i])
}

fn segment_token(seg: Vec<u8>) -> (r: Token)
    ensures
        token_for(r, seg@),
{
    if seg.len() == 4 && seg[0] == 0x69 && seg[1] == 0x74 && seg[2] == 0x65 && seg[3] == 0x6d {
        assert(seg@ =~= seq![0x69u8, 0x74, 0x65, 0x6d]);
        Token::Item
    } else {
        assert(seg@ =~= seq![0x69u8, 0x74, 0x65, 0x6d] ==> seg.len() == 4 && seg@[0] == 0x69
            && seg@[1] == 0x74 && seg@[2] == 0x65 && seg@[3] == 0x6d);
        match utf8_string(seg) {
            Some(s) => Token::Literal(s),
            None => Token::Literal(String::new()),
        }
    }
}

/// Compiles a dot-separated path: `item` is the wildcard, any other segment a
/// literal key; the empty path compiles to no tokens.
pub fn compile(path: &str) -> (r: Vec<Token>)
    ensures
        compiles_to(path.spec_bytes(), r@),
{
    let b = path.as_bytes();
    let mut toks: Vec<Token> = Vec::new();
    if b.len() == 0 {
        return toks;
    }
    let mut cur: Vec<u8> = Vec::new();
    let mut i: usize = 0;
    while i < b.len()
        invariant
            0 <= i <= b@.len(),
            toks@.len() == split_state(b@, i as int).0.len(),
            forall|j: int|
                0 <= j < toks@.len() ==> token_for(
                    #[trigger] toks@[j],
                    split_state(b@, i as int).0[j],
                ),
            cur@ == split_state(b@, i as int).1,
        decreases b@.len() - i,
    {
        if b[i] == 0x2e {
            toks.push(segment_token(cur));
            cur = Vec::new();
        } else {
            cur.push(b[i]);
        }
        i += 1;
    }
    toks.push(segment_token(cur));
    toks
}

/// The successful items of a sequence, in order.
pub open spec fn oks<T>(rs: Seq<Result<T, Error>>) -> Seq<T>
    decreases rs.len(),
{
    if rs.len() == 0 {
        Seq::empty()
    } else {
        match rs.last() {
            Ok(v) => oks(rs.drop_last()).push(v),
            Err(_) => oks(rs.drop_last()),
        }
    }
}

/// The views of a sequence of event vectors.
pub open spec fn views(gs: Seq<Vec<Event>>) -> Seq<Seq<Event>> {
    gs.map_values(|g: Vec<Event>| g@)
}

/// The views of a sequence of events.
pub open spec fn event_views(evs: Seq<Event>) -> Seq<EventView> {
    evs.map_values(|e: Event| event_view(e))
}

/// The views of a sequence of matches.
pub open spec fn group_views(gs: Seq<Seq<Event>>) -> Seq<Seq<EventView>> {
    gs.map_values(|g: Seq<Event>| event_views(g))
}

/// The filter sees events only through their views: event sequences with
/// equal views give the same state and the same output, up to views.
pub proof fn lemma_run_views(pat: Seq<Token>, a: Seq<Event>, b: Seq<Event>)
    requires
        event_views(a) == event_views(b),
    ensures
        run(pat, a).stack == run(pat, b).stack,
        event_views(run(pat, a).out) == event_views(run(pat, b).out),
        event_views(run(pat, a).current) == event_views(run(pat, b).current),
        group_views(run(pat, a).groups) == group_views(run(pat, b).groups),
    decreases a.len(),
{
    assert(a.len() == event_views(a).len());
    assert(b.len() == event_views(b).len());
    if a.len() > 0 {
        assert(event_views(a.drop_last()) =~= event_views(a).drop_last());
        assert(event_views(b.drop_last()) =~= event_views(b).drop_last());
        lemma_run_views(pat, a.drop_last(), b.drop_last());
        let ra = run(pat, a.drop_last());
        let rb = run(pat, b.drop_last());
        let ea = a.last();
        let eb = b.last();
        assert(event_view(ea) == event_views(a)[a.len() - 1]);
        assert(event_view(eb) == event_views(b)[b.len() - 1]);
        assert(filter_step(pat, ra.stack, ea) == filter_step(pat, rb.stack, eb));
        assert(event_views(ra.out.push(ea)) =~= event_views(ra.out).push(event_view(ea)));
        assert(event_views(rb.out.push(eb)) =~= event_views(rb.out).push(event_view(eb)));
        assert(event_views(ra.current.push(ea)) =~= event_views(ra.current).push(event_view(ea)));
        assert(event_views(rb.current.push(eb)) =~= event_views(rb.current).push(event_view(eb)));
        let ca = if filter_step(pat, ra.stack, ea).forward { ra.current.push(ea) } else { ra.current };
        let cb = if filter_step(pat, rb.stack, eb).forward { rb.current.push(eb) } else { rb.current };
        assert(group_views(ra.groups.push(ca)) =~= group_views(ra.groups).push(event_views(ca)));
        assert(group_views(rb.groups.push(cb)) =~= group_views(rb.groups).push(event_views(cb)));
        assert(event_views(Seq::<Event>::empty()) =~= Seq::<EventView>::empty());
    }
}

/// What the bytes still give after item `r` left the parser as `p`.
pub open spec fn tail_after<T>(p: Parser, r: Option<Result<T, Error>>) -> (
    Seq<EventView>,
    Option<ErrorView>,
) {
    match r {
        Some(Ok(_)) => parse_all(p.input(), p.pos(), p.state()),
        Some(Err(x)) => (Seq::empty(), Some(err_view(x))),
        None => (Seq::empty(), None),
    }
}

/// Whether the events seen grew from `old_seen` to `seen`, the new ones
/// followed by `tail` being what the bytes gave at `full`.
pub open spec fn seen_follows(
    full: (Seq<EventView>, Option<ErrorView>),
    old_seen: Seq<Event>,
    seen: Seq<Event>,
    tail: (Seq<EventView>, Option<ErrorView>),
) -> bool {
    &&& old_seen.len() <= seen.len()
    &&& seen.subrange(0, old_seen.len() as int) == old_seen
    &&& full.0 == event_views(seen).subrange(old_seen.len() as int, seen.len() as int) + tail.0
    &&& full.1 == tail.1
}

proof fn lemma_seen_step(
    full: (Seq<EventView>, Option<ErrorView>),
    old_seen: Seq<Event>,
    seen: Seq<Event>,
    e: Event,
    rest: (Seq<EventView>, Option<ErrorView>),
    tail: (Seq<EventView>, Option<ErrorView>),
)
    requires
        seen_follows(full, old_seen, seen, rest),
        rest.0 == seq![event_view(e)] + tail.0,
        rest.1 == tail.1,
    ensures
        seen_follows(full, old_seen, seen.push(e), tail),
{
    let a = old_seen.len() as int;
    assert(seen.push(e).subrange(0, a) =~= seen.subrange(0, a));
    assert(event_views(seen.push(e)).subrange(a, seen.len() as int + 1) =~= event_views(seen).subrange(
        a,
        seen.len() as int,
    ).push(event_view(e)));
    assert(full.0 =~= event_views(seen.push(e)).subrange(a, seen.len() as int + 1) + tail.0);
}

/// The error, if any, that ends a drained sequence.
pub open spec fn end_of<T>(rs: Seq<Result<T, Error>>) -> (Seq<EventView>, Option<ErrorView>) {
    if rs.len() > 0 && rs.last() is Err {
        (Seq::empty(), Some(err_view(rs.last()->Err_0)))
    } else {
        (Seq::empty(), None)
    }
}

proof fn lemma_seen_trans(
    full: (Seq<EventView>, Option<ErrorView>),
    s0: Seq<Event>,
    s1: Seq<Event>,
    t1: (Seq<EventView>, Option<ErrorView>),
    s2: Seq<Event>,
    t2: (Seq<EventView>, Option<ErrorView>),
)
    requires
        seen_follows(full, s0, s1, t1),
        seen_follows(t1, s1, s2, t2),
    ensures
        seen_follows(full, s0, s2, t2),
{
    let a = s0.len() as int;
    let b = s1.len() as int;
    assert(s2.subrange(0, a) =~= s2.subrange(0, b).subrange(0, a));
    assert(event_views(s2).subrange(a, s2.len() as int) =~= event_views(s1).subrange(a, b)
        + event_views(s2).subrange(b, s2.len() as int));
    assert(full.0 =~= event_views(s2).subrange(a, s2.len() as int) + t2.0);
}

proof fn lemma_seen_start(full: (Seq<EventView>, Option<ErrorView>), seen: Seq<Event>)
    ensures
        seen_follows(full, seen, seen, full),
{
    assert(seen.subrange(0, seen.len() as int) =~= seen);
    assert(event_views(seen).subrange(seen.len() as int, seen.len() as int) + full.0 =~= full.0);
}

/// The events of every match of a path, run together in document order.
pub struct Prefix {
    parser: Parser,
    pattern: Vec<Token>,
    stack: Vec<MatchFrame>,
    base: Ghost<Seq<Event>>,
    seen: Ghost<Seq<Event>>,
}

impl Prefix {
    pub closed spec fn parser(&self) -> Parser {
        self.parser
    }

    pub closed spec fn pattern(&self) -> Seq<Token> {
        self.pattern@
    }

    /// The parser's events since filtering began.
    pub closed spec fn seen(&self) -> Seq<Event> {
        self.seen@
    }

    /// The parser's events before filtering began.
    pub closed spec fn base(&self) -> Seq<Event> {
        self.base@
    }

    pub closed spec fn wf(&self) -> bool {
        &&& self.parser.wf()
        &&& self.stack@ == run(self.pattern@, self.seen@).stack
        &&& self.parser.emitted() == self.base@ + self.seen@
    }

    /// What has been passed on so far.
    pub open spec fn output(&self) -> Seq<Event> {
        prefix_of(self.pattern(), self.seen())
    }

    /// The next event of a match; `None` at the end and after an error.
    pub fn next(&mut self) -> (r: Option<Result<Event, Error>>)
        requires
            old(self).wf(),
        ensures
            final(self).wf(),
            final(self).base() == old(self).base(),
            final(self).parser().emitted() == final(self).base() + final(self).seen(),
            final(self).pattern() == old(self).pattern(),
            old(self).parser().stopped() ==> r is None,
            !old(self).parser().stopped() ==> final(self).parser().stopped() == (r matches Some(
                Err(_),
            )),
            final(self).output() == (match r {
                Some(Ok(e)) => old(self).output().push(e),
                _ => old(self).output(),
            }),
            r is None && !old(self).parser().stopped() ==> final(self).parser().open().len() == 0
                && final(self).parser().state().done,
            r is Some ==> final(self).parser().remaining() < old(self).parser().remaining(),
            final(self).parser().remaining() <= old(self).parser().remaining(),
            old(self).parser().stopped() ==> *final(self) == *old(self),
            !old(self).parser().stopped() ==> seen_follows(
                parse_all(
                    old(self).parser().input(),
                    old(self).parser().pos(),
                    old(self).parser().state(),
                ),
                old(self).seen(),
                final(self).seen(),
                tail_after(final(self).parser(), r),
            ),
    {
        if self.parser.is_stopped() {
            return None;
        }
        let ghost full = parse_all(self.parser().input(), self.parser().pos(), self.parser().state());
        proof {
            lemma_seen_start(full, self.seen@);
        }
        loop
            invariant
                self.wf(),
                self.base() == old(self).base(),
                self.pattern() == old(self).pattern(),
                self.output() == old(self).output(),
                self.parser().remaining() <= old(self).parser().remaining(),
                !self.parser().stopped(),
                !old(self).parser().stopped(),
                full == parse_all(
                    old(self).parser().input(),
                    old(self).parser().pos(),
                    old(self).parser().state(),
                ),
                seen_follows(
                    full,
                    old(self).seen(),
                    self.seen(),
                    parse_all(self.parser().input(), self.parser().pos(), self.parser().state()),
                ),
            decreases self.parser().remaining(),
        {
            let ghost prev = self.seen@;
            let ghost rest = parse_all(self.parser().input(), self.parser().pos(), self.parser().state());
            match self.parser.next() {
                None => return None,
                Some(Err(e)) => return Some(Err(e)),
                Some(Ok(e)) => {
                    proof {
                        lemma_seen_step(
                            full,
                            old(self).seen(),
                            prev,
                            e,
                            rest,
                            parse_all(self.parser().input(), self.parser().pos(), self.parser().state()),
                        );
                    }
                    let (forward, _) = filter_event(&self.pattern, &mut self.stack, &e);
                    self.seen = Ghost(self.seen@.push(e));
                    proof {
                        assert(self.seen@.drop_last() =~= prev);
                        assert(self.base@ + self.seen@ =~= (self.base@ + prev).push(e));
                    }
                    if forward {
                        return Some(Ok(e));
                    }
                },
            }
        }
    }

    /// Every remaining item, in order: events, then at most one error, last.
    pub fn collect_all(&mut self) -> (r: Vec<Result<Event, Error>>)
        requires
            old(self).wf(),
        ensures
            final(self).wf(),
            final(self).base() == old(self).base(),
            final(self).parser().emitted() == final(self).base() + final(self).seen(),
            old(self).parser().stopped() ==> *final(self) == *old(self),
            !old(self).parser().stopped() && (r@.len() == 0 || r@.last() is Ok) ==> final(self).parser().state().done,
            !old(self).parser().stopped() ==> seen_follows(
                parse_all(
                    old(self).parser().input(),
                    old(self).parser().pos(),
                    old(self).parser().state(),
                ),
                old(self).seen(),
                final(self).seen(),
                end_of(r@),
            ),
            forall|i: int| 0 <= i < r@.len() - 1 ==> r@[i] is Ok,
            old(self).parser().stopped() ==> r@.len() == 0,
            !old(self).parser().stopped() && (r@.len() == 0 || r@.last() is Ok)
                ==> final(self).parser().open().len() == 0,
            final(self).output() == old(self).output() + oks(r@),
    {
        let mut out: Vec<Result<Event, Error>> = Vec::new();
        if self.parser.is_stopped() {
            return out;
        }
        let ghost full = parse_all(self.parser().input(), self.parser().pos(), self.parser().state());
        proof {
            lemma_seen_start(full, self.seen());
        }
        loop
            invariant
                self.wf(),
                self.base() == old(self).base(),
                !old(self).parser().stopped(),
                full == parse_all(
                    old(self).parser().input(),
                    old(self).parser().pos(),
                    old(self).parser().state(),
                ),
                seen_follows(
                    full,
                    old(self).seen(),
                    self.seen(),
                    parse_all(self.parser().input(), self.parser().pos(), self.parser().state()),
                ),
                self.parser().remaining() <= old(self).parser().remaining(),
                old(self).parser().stopped() ==> self.parser().stopped() && out@.len() == 0,
                !old(self).parser().stopped() ==> !self.parser().stopped(),
                forall|i: int| 0 <= i < out@.len() ==> out@[i] is Ok,
                self.output() == old(self).output() + oks(out@),
            decreases self.parser().remaining(),
        {
            let ghost before = out@;
            let ghost s1 = self.seen();
            let ghost t1 = parse_all(self.parser().input(), self.parser().pos(), self.parser().state());
            let r = self.next();
            proof {
                lemma_seen_trans(full, old(self).seen(), s1, t1, self.seen(), tail_after(self.parser(), r));
            }
            match r {
                None => return out,
                Some(Ok(e)) => {
                    out.push(Ok(e));
                    assert(out@.drop_last() =~= before);
                    assert(self.output() =~= old(self).output() + oks(out@));
                },
                Some(Err(e)) => {
                    out.push(Err(e));
                    assert(out@.drop_last() =~= before);
                    return out;
                },
            }
        }
    }
}

/// The matches of a path, handed out one complete value at a time.
pub struct Items {
    parser: Parser,
    pattern: Vec<Token>,
    stack: Vec<MatchFrame>,
    current: Vec<Event>,
    base: Ghost<Seq<Event>>,
    seen: Ghost<Seq<Event>>,
}

impl Items {
    pub closed spec fn parser(&self) -> Parser {
        self.parser
    }

    pub closed spec fn pattern(&self) -> Seq<Token> {
        self.pattern@
    }

    /// The parser's events since filtering began.
    pub closed spec fn seen(&self) -> Seq<Event> {
        self.seen@
    }

    /// The parser's events before filtering began.
    pub closed spec fn base(&self) -> Seq<Event> {
        self.base@
    }

    pub closed spec fn wf(&self) -> bool {
        &&& self.parser.wf()
        &&& self.stack@ == run(self.pattern@, self.seen@).stack
        &&& self.current@ == run(self.pattern@, self.seen@).current
        &&& self.parser.emitted() == self.base@ + self.seen@
    }

    /// The matches handed out so far.
    pub open spec fn output(&self) -> Seq<Seq<Event>> {
        items_of(self.pattern(), self.seen())
    }

    /// The next match; `None` at the end and after an error.
    pub fn next(&mut self) -> (r: Option<Result<Vec<Event>, Error>>)
        requires
            old(self).wf(),
        ensures
            final(self).wf(),
            final(self).base() == old(self).base(),
            final(self).parser().emitted() == final(self).base() + final(self).seen(),
            final(self).pattern() == old(self).pattern(),
            old(self).parser().stopped() ==> r is None,
            !old(self).parser().stopped() ==> final(self).parser().stopped() == (r matches Some(
                Err(_),
            )),
            final(self).output() == (match r {
                Some(Ok(g)) => old(self).output().push(g@),
                _ => old(self).output(),
            }),
            r is None && !old(self).parser().stopped() ==> final(self).parser().open().len() == 0
                && final(self).parser().state().done,
            r is Some ==> final(self).parser().remaining() < old(self).parser().remaining(),
            final(self).parser().remaining() <= old(self).parser().remaining(),
            old(self).parser().stopped() ==> *final(self) == *old(self),
            !old(self).parser().stopped() ==> seen_follows(
                parse_all(
                    old(self).parser().input(),
                    old(self).parser().pos(),
                    old(self).parser().state(),
                ),
                old(self).seen(),
                final(self).seen(),
                tail_after(final(self).parser(), r),
            ),
    {
        if self.parser.is_stopped() {
            return None;
        }
        let ghost full = parse_all(self.parser().input(), self.parser().pos(), self.parser().state());
        proof {
            lemma_seen_start(full, self.seen@);
        }
        loop
            invariant
                self.wf(),
                self.base() == old(self).base(),
                self.pattern() == old(self).pattern(),
                self.output() == old(self).output(),
                self.parser().remaining() <= old(self).parser().remaining(),
                !self.parser().stopped(),
                !old(self).parser().stopped(),
                full == parse_all(
                    old(self).parser().input(),
                    old(self).parser().pos(),
                    old(self).parser().state(),
                ),
                seen_follows(
                    full,
                    old(self).seen(),
                    self.seen(),
                    parse_all(self.parser().input(), self.parser().pos(), self.parser().state()),
                ),
            decreases self.parser().remaining(),
        {
            let ghost prev = self.seen@;
            let ghost rest = parse_all(self.parser().input(), self.parser().pos(), self.parser().state());
            match self.parser.next() {
                None => return None,
                Some(Err(e)) => return Some(Err(e)),
                Some(Ok(e)) => {
                    proof {
                        lemma_seen_step(
                            full,
                            old(self).seen(),
                            prev,
                            e,
                            rest,
                            parse_all(self.parser().input(), self.parser().pos(), self.parser().state()),
                        );
                    }
                    let (forward, closes) = filter_event(&self.pattern, &mut self.stack, &e);
                    self.seen = Ghost(self.seen@.push(e));
                    proof {
                        assert(self.seen@.drop_last() =~= prev);
                        assert(self.base@ + self.seen@ =~= (self.base@ + prev).push(e));
                    }
                    if forward {
                        self.current.push(e);
                    }
                    if closes {
                        let mut group: Vec<Event> = Vec::new();
                        std::mem::swap(&mut self.current, &mut group);
                        return Some(Ok(group));
                    }
                },
            }
        }
    }

    /// Every remaining match, in order, then at most one error, last.
    pub fn collect_all(&mut self) -> (r: Vec<Result<Vec<Event>, Error>>)
        requires
            old(self).wf(),
        ensures
            final(self).wf(),
            final(self).base() == old(self).base(),
            final(self).parser().emitted() == final(self).base() + final(self).seen(),
            old(self).parser().stopped() ==> *final(self) == *old(self),
            !old(self).parser().stopped() && (r@.len() == 0 || r@.last() is Ok) ==> final(self).parser().state().done,
            !old(self).parser().stopped() ==> seen_follows(
                parse_all(
                    old(self).parser().input(),
                    old(self).parser().pos(),
                    old(self).parser().state(),
                ),
                old(self).seen(),
                final(self).seen(),
                end_of(r@),
            ),
            forall|i: int| 0 <= i < r@.len() - 1 ==> r@[i] is Ok,
            old(self).parser().stopped() ==> r@.len() == 0,
            !old(self).parser().stopped() && (r@.len() == 0 || r@.last() is Ok)
                ==> final(self).parser().open().len() == 0,
            final(self).output() == old(self).output() + views(oks(r@)),
    {
        let mut out: Vec<Result<Vec<Event>, Error>> = Vec::new();
        if self.parser.is_stopped() {
            return out;
        }
        let ghost full = parse_all(self.parser().input(), self.parser().pos(), self.parser().state());
        proof {
            lemma_seen_start(full, self.seen());
        }
        loop
            invariant
                self.wf(),
                self.base() == old(self).base(),
                !old(self).parser().stopped(),
                full == parse_all(
                    old(self).parser().input(),
                    old(self).parser().pos(),
                    old(self).parser().state(),
                ),
                seen_follows(
                    full,
                    old(self).seen(),
                    self.seen(),
                    parse_all(self.parser().input(), self.parser().pos(), self.parser().state()),
                ),
                self.parser().remaining() <= old(self).parser().remaining(),
                old(self).parser().stopped() ==> self.parser().stopped() && out@.len() == 0,
                !old(self).parser().stopped() ==> !self.parser().stopped(),
                forall|i: int| 0 <= i < out@.len() ==> out@[i] is Ok,
                self.output() == old(self).output() + views(oks(out@)),
            decreases self.parser().remaining(),
        {
            let ghost before = out@;
            let ghost s1 = self.seen();
            let ghost t1 = parse_all(self.parser().input(), self.parser().pos(), self.parser().state());
            let r = self.next();
            proof {
                lemma_seen_trans(full, old(self).seen(), s1, t1, self.seen(), tail_after(self.parser(), r));
            }
            match r {
                None => return out,
                Some(Ok(g)) => {
                    let ghost gv = g@;
                    out.push(Ok(g));
                    assert(out@.drop_last() =~= before);
                    assert(views(oks(out@)) =~= views(oks(before)).push(gv));
                    assert(self.output() =~= old(self).output() + views(oks(out@)));
                },
                Some(Err(e)) => {
                    out.push(Err(e));
                    assert(out@.drop_last() =~= before);
                    return out;
                },
            }
        }
    }
}

impl Parser {
    /// Filters the rest of the document down to the matches of `path`, run
    /// together.
    pub fn prefix(self, path: &str) -> (r: Prefix)
        requires
            self.wf(),
        ensures
            r.wf(),
            r.parser() == self,
            compiles_to(path.spec_bytes(), r.pattern()),
            r.seen() == Seq::<Event>::empty(),
            r.base() == self.emitted(),
    {
        let ghost base = self.emitted();
        let r = Prefix {
            parser: self,
            pattern: compile(path),
            stack: Vec::new(),
            base: Ghost(base),
            seen: Ghost(Seq::empty()),
        };
        assert(base + Seq::<Event>::empty() =~= base);
        r
    }

    /// Filters the rest of the document down to the matches of `path`, one
    /// value each.
    pub fn items(self, path: &str) -> (r: Items)
        requires
            self.wf(),
        ensures
            r.wf(),
            r.parser() == self,
            compiles_to(path.spec_bytes(), r.pattern()),
            r.seen() == Seq::<Event>::empty(),
            r.base() == self.emitted(),
    {
        let ghost base = self.emitted();
        let r = Items {
            parser: self,
            pattern: compile(path),
            stack: Vec::new(),
            current: Vec::new(),
            base: Ghost(base),
            seen: Ghost(Seq::empty()),
        };
        assert(base + Seq::<Event>::empty() =~= base);
        r
    }
}

} // verus!
