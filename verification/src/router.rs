//! The route of a whole document, at the specification level, and the laws
//! that hold of it: path exactness, single dispatch, and idempotence of a
//! pass whose conversion changes nothing.

use vstd::prelude::*;
use crate::attrs::{RewriteSpec, ScanOutcome, is_coord_key, lat_key, lon_key, rewrite_spec, scan};
use crate::registry::parses_as_float;

verus! {

/// A document event at the specification level: an element-open or a
/// self-closing element with its name, attribute list, position and a tag
/// standing for its raw payload (plus whether the attribute list can be read
/// at all), an element-close, or any other event, the latter two carrying
/// only their payload tag.
pub enum GEvent {
    Open {
        name: Seq<char>,
        attrs: Seq<(Seq<char>, Seq<char>)>,
        pos: int,
        tag: int,
        ok: bool,
    },
    Empty {
        name: Seq<char>,
        attrs: Seq<(Seq<char>, Seq<char>)>,
        pos: int,
        tag: int,
        ok: bool,
    },
    Close { tag: int },
    Other { tag: int },
}

/// A document event as it stands in the output: an event passed through
/// whole, known by its payload tag, or an element tag rebuilt by the pass,
/// known by its name and attribute list, self-closing or not.
pub enum WEvent {
    Passed { tag: int },
    Built { name: Seq<char>, attrs: Seq<(Seq<char>, Seq<char>)>, empty: bool },
}

/// An error that aborts the route: a structural failure, or a coordinate
/// value that does not parse, at a position.
pub enum RouteErr {
    Structure,
    Value(int),
}

/// Whether the chain of open elements `stack`, extended by an element named
/// `name`, is exactly the target path: the dispatch condition of the router.
pub open spec fn dispatched(stack: Seq<Seq<char>>, name: Seq<char>, path: Seq<Seq<char>>) -> bool {
    stack.push(name) == path
}

/// How one event steps the chain of open elements.
pub open spec fn step_stack(stack: Seq<Seq<char>>, ev: GEvent) -> Seq<Seq<char>> {
    match ev {
        GEvent::Open { name, .. } => stack.push(name),
        GEvent::Close { .. } => if stack.len() > 0 {
            stack.drop_last()
        } else {
            stack
        },
        GEvent::Empty { .. } => stack,
        GEvent::Other { .. } => stack,
    }
}

/// The chain of open elements standing before event `i`, starting from
/// `stack`.
pub open spec fn stack_at(events: Seq<GEvent>, stack: Seq<Seq<char>>, i: int) -> Seq<Seq<char>>
    decreases i,
{
    if i <= 0 {
        stack
    } else {
        step_stack(stack_at(events, stack, i - 1), events[i - 1])
    }
}

/// What the route makes of one event standing over a given chain: a
/// dispatched element-open has its attributes rewritten, everything else
/// passes through verbatim.
pub open spec fn routed_event(
    ev: GEvent,
    stack: Seq<Seq<char>>,
    path: Seq<Seq<char>>,
    f: spec_fn(Seq<char>, Seq<char>) -> (Seq<char>, Seq<char>),
) -> GEvent {
    match ev {
        GEvent::Open { name, attrs, pos, tag, ok } => if dispatched(stack, name, path) && ok {
            match rewrite_spec(attrs, f) {
                RewriteSpec::Changed(na) => GEvent::Open {
                    name,
                    attrs: na,
                    pos,
                    tag,
                    ok: true,
                },
                _ => ev,
            }
        } else {
            ev
        },
        GEvent::Empty { name, attrs, pos, tag, ok } => if dispatched(stack, name, path) && ok {
            match rewrite_spec(attrs, f) {
                RewriteSpec::Changed(na) => GEvent::Empty {
                    name,
                    attrs: na,
                    pos,
                    tag,
                    ok: true,
                },
                _ => ev,
            }
        } else {
            ev
        },
        _ => ev,
    }
}

/// How one routed event stands in the output: a dispatched element-open
/// whose attributes changed is rebuilt from its name and new list, anything
/// else is its own raw payload.
pub open spec fn out_event(
    ev: GEvent,
    stack: Seq<Seq<char>>,
    path: Seq<Seq<char>>,
    f: spec_fn(Seq<char>, Seq<char>) -> (Seq<char>, Seq<char>),
) -> WEvent {
    match ev {
        GEvent::Open { name, attrs, pos, tag, ok } => if dispatched(stack, name, path) && ok
            && rewrite_spec(attrs, f) is Changed {
            WEvent::Built { name, attrs: rewrite_spec(attrs, f)->Changed_0, empty: false }
        } else {
            WEvent::Passed { tag }
        },
        GEvent::Empty { name, attrs, pos, tag, ok } => if dispatched(stack, name, path) && ok
            && rewrite_spec(attrs, f) is Changed {
            WEvent::Built { name, attrs: rewrite_spec(attrs, f)->Changed_0, empty: true }
        } else {
            WEvent::Passed { tag }
        },
        GEvent::Close { tag } => WEvent::Passed { tag },
        GEvent::Other { tag } => WEvent::Passed { tag },
    }
}

/// Routes a document's events from a given chain of open elements on,
/// re-emitting each event — the dispatched ones rewritten — and aborting on
/// the first failure: a close below the root, a dispatched element whose
/// attribute list cannot be read, or a coordinate value that does not parse.
pub open spec fn route_from(
    events: Seq<GEvent>,
    stack: Seq<Seq<char>>,
    path: Seq<Seq<char>>,
    f: spec_fn(Seq<char>, Seq<char>) -> (Seq<char>, Seq<char>),
) -> Result<Seq<GEvent>, RouteErr>
    decreases events.len(),
{
    if events.len() == 0 {
        Ok(Seq::empty())
    } else {
        let head = events[0];
        let rest = events.drop_first();
        match head {
            GEvent::Close { .. } => {
                if stack.len() == 0 {
                    Err(RouteErr::Structure)
                } else {
                    match route_from(rest, stack.drop_last(), path, f) {
                        Ok(out) => Ok(seq![head] + out),
                        Err(e) => Err(e),
                    }
                }
            },
            GEvent::Other { .. } => match route_from(rest, stack, path, f) {
                Ok(out) => Ok(seq![head] + out),
                Err(e) => Err(e),
            },
            GEvent::Open { name, attrs, pos, ok, .. } => {
                if dispatched(stack, name, path) {
                    if !ok {
                        Err(RouteErr::Structure)
                    } else {
                        match rewrite_spec(attrs, f) {
                            RewriteSpec::BadValue => Err(RouteErr::Value(pos)),
                            _ => match route_from(rest, stack.push(name), path, f) {
                                Ok(out) => Ok(
                                    seq![routed_event(head, stack, path, f)] + out,
                                ),
                                Err(e) => Err(e),
                            },
                        }
                    }
                } else {
                    match route_from(rest, stack.push(name), path, f) {
                        Ok(out) => Ok(seq![head] + out),
                        Err(e) => Err(e),
                    }
                }
            },
            GEvent::Empty { name, attrs, pos, ok, .. } => {
                if dispatched(stack, name, path) {
                    if !ok {
                        Err(RouteErr::Structure)
                    } else {
                        match rewrite_spec(attrs, f) {
                            RewriteSpec::BadValue => Err(RouteErr::Value(pos)),
                            _ => match route_from(rest, stack, path, f) {
                                Ok(out) => Ok(
                                    seq![routed_event(head, stack, path, f)] + out,
                                ),
                                Err(e) => Err(e),
                            },
                        }
                    }
                } else {
                    match route_from(rest, stack, path, f) {
                        Ok(out) => Ok(seq![head] + out),
                        Err(e) => Err(e),
                    }
                }
            },
        }
    }
}

/// The output of routing a document's events from a given chain on, one
/// output event per input event; meaningful where the route succeeds.
pub open spec fn route_out(
    events: Seq<GEvent>,
    stack: Seq<Seq<char>>,
    path: Seq<Seq<char>>,
    f: spec_fn(Seq<char>, Seq<char>) -> (Seq<char>, Seq<char>),
) -> Seq<WEvent>
    decreases events.len(),
{
    if events.len() == 0 {
        Seq::empty()
    } else {
        seq![out_event(events[0], stack, path, f)] + route_out(
            events.drop_first(),
            step_stack(stack, events[0]),
            path,
            f,
        )
    }
}

/// Two event sequences that agree below `j` run their chains to the same
/// place.
proof fn lemma_stack_at_agree(c1: Seq<GEvent>, c2: Seq<GEvent>, s0: Seq<Seq<char>>, j: int)
    requires
        j <= c1.len(),
        j <= c2.len(),
        forall|i: int| 0 <= i < j ==> c1[i] == c2[i],
    ensures
        stack_at(c1, s0, j) == stack_at(c2, s0, j),
    decreases j,
{
    if j > 0 {
        lemma_stack_at_agree(c1, c2, s0, j - 1);
    }
}

/// Appending one event steps the chain at the end by that event.
pub proof fn lemma_stack_at_snoc(c: Seq<GEvent>, e: GEvent, s0: Seq<Seq<char>>)
    ensures
        stack_at(c.push(e), s0, c.len() as int + 1) == step_stack(
            stack_at(c, s0, c.len() as int),
            e,
        ),
{
    lemma_stack_at_agree(c.push(e), c, s0, c.len() as int);
    assert(c.push(e)[c.len() as int] == e);
}

/// What routing a single event from a given chain yields.
pub proof fn lemma_route_single(
    g: GEvent,
    stack: Seq<Seq<char>>,
    path: Seq<Seq<char>>,
    f: spec_fn(Seq<char>, Seq<char>) -> (Seq<char>, Seq<char>),
)
    ensures
        route_from(seq![g], stack, path, f) == (match g {
            GEvent::Close { .. } => if stack.len() == 0 {
                Err::<Seq<GEvent>, RouteErr>(RouteErr::Structure)
            } else {
                Ok(seq![g])
            },
            GEvent::Other { .. } => Ok::<Seq<GEvent>, RouteErr>(seq![g]),
            GEvent::Open { name, attrs, pos, ok, .. } => if dispatched(stack, name, path) {
                if !ok {
                    Err::<Seq<GEvent>, RouteErr>(RouteErr::Structure)
                } else {
                    match rewrite_spec(attrs, f) {
                        RewriteSpec::BadValue => Err::<Seq<GEvent>, RouteErr>(
                            RouteErr::Value(pos),
                        ),
                        _ => Ok(seq![routed_event(g, stack, path, f)]),
                    }
                }
            } else {
                Ok(seq![g])
            },
            GEvent::Empty { name, attrs, pos, ok, .. } => if dispatched(stack, name, path) {
                if !ok {
                    Err::<Seq<GEvent>, RouteErr>(RouteErr::Structure)
                } else {
                    match rewrite_spec(attrs, f) {
                        RewriteSpec::BadValue => Err::<Seq<GEvent>, RouteErr>(
                            RouteErr::Value(pos),
                        ),
                        _ => Ok(seq![routed_event(g, stack, path, f)]),
                    }
                }
            } else {
                Ok(seq![g])
            },
        }),
        route_out(seq![g], stack, path, f) == seq![out_event(g, stack, path, f)],
{
    let e = seq![g];
    assert(e[0] == g);
    assert(e.drop_first() =~= Seq::<GEvent>::empty());
    assert(route_out(e.drop_first(), step_stack(stack, g), path, f) =~= Seq::<WEvent>::empty());
    assert(seq![out_event(g, stack, path, f)] + Seq::<WEvent>::empty() =~= seq![
        out_event(g, stack, path, f),
    ]);
    match g {
        GEvent::Close { .. } => {
            if stack.len() > 0 {
                assert(route_from(e.drop_first(), stack.drop_last(), path, f) == Ok::<
                    Seq<GEvent>,
                    RouteErr,
                >(Seq::empty()));
                assert(e + Seq::<GEvent>::empty() =~= e);
            }
        },
        GEvent::Other { .. } => {
            assert(route_from(e.drop_first(), stack, path, f) == Ok::<Seq<GEvent>, RouteErr>(
                Seq::empty(),
            ));
            assert(e + Seq::<GEvent>::empty() =~= e);
        },
        GEvent::Open { name, attrs, pos, tag, ok } => {
            assert(route_from(e.drop_first(), stack.push(name), path, f) == Ok::<
                Seq<GEvent>,
                RouteErr,
            >(Seq::empty()));
            assert(e + Seq::<GEvent>::empty() =~= e);
            assert(seq![routed_event(g, stack, path, f)] + Seq::<GEvent>::empty()
                =~= seq![routed_event(g, stack, path, f)]);
        },
        GEvent::Empty { .. } => {
            assert(route_from(e.drop_first(), stack, path, f) == Ok::<Seq<GEvent>, RouteErr>(
                Seq::empty(),
            ));
            assert(e + Seq::<GEvent>::empty() =~= e);
            assert(seq![routed_event(g, stack, path, f)] + Seq::<GEvent>::empty()
                =~= seq![routed_event(g, stack, path, f)]);
        },
    }
}

/// Routing a concatenation is routing the first part and, where that
/// succeeds, routing the second from the chain the first part reaches; the
/// output events concatenate the same way.
pub proof fn lemma_route_split(
    a: Seq<GEvent>,
    b: Seq<GEvent>,
    s0: Seq<Seq<char>>,
    path: Seq<Seq<char>>,
    f: spec_fn(Seq<char>, Seq<char>) -> (Seq<char>, Seq<char>),
)
    ensures
        route_from(a + b, s0, path, f) == (match route_from(a, s0, path, f) {
            Err(e) => Err::<Seq<GEvent>, RouteErr>(e),
            Ok(oa) => match route_from(b, stack_at(a, s0, a.len() as int), path, f) {
                Ok(ob) => Ok(oa + ob),
                Err(e) => Err(e),
            },
        }),
        route_out(a + b, s0, path, f) == route_out(a, s0, path, f) + route_out(
            b,
            stack_at(a, s0, a.len() as int),
            path,
            f,
        ),
    decreases a.len(),
{
    if a.len() == 0 {
        assert(a + b =~= b);
        assert(stack_at(a, s0, 0) == s0);
        assert(route_out(a, s0, path, f) =~= Seq::<WEvent>::empty());
        assert(Seq::<WEvent>::empty() + route_out(b, s0, path, f) =~= route_out(b, s0, path, f));
        if route_from(b, s0, path, f) is Ok {
            let ob = route_from(b, s0, path, f)->Ok_0;
            assert(route_from(a, s0, path, f) == Ok::<Seq<GEvent>, RouteErr>(Seq::empty()));
            assert(Seq::<GEvent>::empty() + ob =~= ob);
        }
    } else {
        let head = a[0];
        let s1 = step_stack(s0, head);
        assert((a + b)[0] == head);
        assert((a + b).len() > 0);
        assert((a + b).drop_first() =~= a.drop_first() + b);
        lemma_route_split(a.drop_first(), b, s1, path, f);
        lemma_stack_at_shift(a, s0, a.len() as int);
        assert(seq![out_event(head, s0, path, f)] + (route_out(a.drop_first(), s1, path, f)
            + route_out(b, stack_at(a, s0, a.len() as int), path, f)) =~= (seq![
            out_event(head, s0, path, f),
        ] + route_out(a.drop_first(), s1, path, f)) + route_out(
            b,
            stack_at(a, s0, a.len() as int),
            path,
            f,
        ));
        if route_from(a, s0, path, f) is Ok {
            let oa = route_from(a, s0, path, f)->Ok_0;
            assert(oa == seq![routed_event(head, s0, path, f)] + route_from(
                a.drop_first(),
                s1,
                path,
                f,
            )->Ok_0);
            let st_end = stack_at(a, s0, a.len() as int);
            if route_from(b, st_end, path, f) is Ok {
                let ob = route_from(b, st_end, path, f)->Ok_0;
                assert(seq![routed_event(head, s0, path, f)] + (route_from(
                    a.drop_first(),
                    s1,
                    path,
                    f,
                )->Ok_0 + ob) =~= oa + ob);
            }
        }
    }
}

proof fn lemma_stack_at_shift(
    events: Seq<GEvent>,
    stack: Seq<Seq<char>>,
    i: int,
)
    requires
        1 <= i <= events.len(),
    ensures
        stack_at(events, stack, i) == stack_at(
            events.drop_first(),
            step_stack(stack, events[0]),
            i - 1,
        ),
    decreases i,
{
    if i == 1 {
        assert(stack_at(events, stack, 0) == stack);
        assert(stack_at(events, stack, 1) == step_stack(stack, events[0]));
        assert(stack_at(events.drop_first(), step_stack(stack, events[0]), 0) == step_stack(
            stack,
            events[0],
        ));
    } else {
        lemma_stack_at_shift(events, stack, i - 1);
        assert(events.drop_first()[i - 2] == events[i - 1]);
        assert(stack_at(events.drop_first(), step_stack(stack, events[0]), i - 1) == step_stack(
            stack_at(events.drop_first(), step_stack(stack, events[0]), i - 2),
            events.drop_first()[i - 2],
        ));
    }
}

/// Path exactness and single dispatch: a successful route emits exactly one
/// event for each incoming event; an element-open whose ancestor chain is
/// not exactly the target path — and every close, text or other event —
/// passes through verbatim, and an element-open at the exact path is
/// rewritten there and only there.
pub proof fn lemma_route_exactness(
    events: Seq<GEvent>,
    stack: Seq<Seq<char>>,
    path: Seq<Seq<char>>,
    f: spec_fn(Seq<char>, Seq<char>) -> (Seq<char>, Seq<char>),
)
    requires
        route_from(events, stack, path, f) is Ok,
    ensures
        route_from(events, stack, path, f)->Ok_0.len() == events.len(),
        forall|i: int|
            0 <= i < events.len() ==> route_from(events, stack, path, f)->Ok_0[i]
                == routed_event(#[trigger] events[i], stack_at(events, stack, i), path, f),
    decreases events.len(),
{
    if events.len() == 0 {
    } else {
        let head = events[0];
        let rest = events.drop_first();
        let st2 = step_stack(stack, head);
        lemma_route_exactness(rest, st2, path, f);
        let out = route_from(events, stack, path, f)->Ok_0;
        let out_rest = route_from(rest, st2, path, f)->Ok_0;
        assert(out == seq![routed_event(head, stack, path, f)] + out_rest);
        assert(out[0] == routed_event(head, stack, path, f));
        assert(stack_at(events, stack, 0) == stack);
        assert forall|i: int| 1 <= i < events.len() implies out[i] == routed_event(
            events[i],
            stack_at(events, stack, i),
            path,
            f,
        ) by {
            lemma_stack_at_shift(events, stack, i);
            assert(rest[i - 1] == events[i]);
            assert(out[i] == out_rest[i - 1]);
        }
    }
}

/// Path exactness alone: an element-open whose ancestor chain differs from
/// the target path is emitted unchanged, its attributes untouched.
pub proof fn lemma_path_exactness(
    events: Seq<GEvent>,
    stack: Seq<Seq<char>>,
    path: Seq<Seq<char>>,
    f: spec_fn(Seq<char>, Seq<char>) -> (Seq<char>, Seq<char>),
    i: int,
)
    requires
        route_from(events, stack, path, f) is Ok,
        0 <= i < events.len(),
        events[i] matches GEvent::Open { name, .. } && !dispatched(
            stack_at(events, stack, i),
            name,
            path,
        ),
    ensures
        route_from(events, stack, path, f)->Ok_0[i] == events[i],
{
    lemma_route_exactness(events, stack, path, f);
}

proof fn lemma_scan_fine_shape(attrs: Seq<(Seq<char>, Seq<char>)>)
    requires
        scan(attrs) matches ScanOutcome::Fine { .. },
    ensures
        scan(attrs) matches ScanOutcome::Fine { others, lat, lon } ==> (forall|j: int|
            0 <= j < others.len() ==> !is_coord_key(#[trigger] others[j].0)) && (lat matches Some(
            t,
        ) ==> parses_as_float(t)) && (lon matches Some(u) ==> parses_as_float(u)),
    decreases attrs.len(),
{
    if attrs.len() == 0 {
    } else {
        let a = attrs[0];
        if scan(attrs.drop_first()) matches ScanOutcome::Fine { .. } {
            lemma_scan_fine_shape(attrs.drop_first());
        }
        if !is_coord_key(a.0) {
            if let ScanOutcome::Fine { others, lat, lon } = scan(attrs) {
                if let ScanOutcome::Fine { others: ro, .. } = scan(attrs.drop_first()) {
                    assert(others == seq![a] + ro);
                    assert forall|j: int| 0 <= j < others.len() implies !is_coord_key(
                        others[j].0,
                    ) by {
                        if j == 0 {
                            assert(others[0] == a);
                        } else {
                            assert(others[j] == ro[j - 1]);
                        }
                    }
                }
            }
        }
    }
}

proof fn lemma_scan_rebuilt(o: Seq<(Seq<char>, Seq<char>)>, a: Seq<char>, b: Seq<char>)
    requires
        forall|j: int| 0 <= j < o.len() ==> !is_coord_key(#[trigger] o[j].0),
        parses_as_float(a),
        parses_as_float(b),
    ensures
        scan(o.push((lat_key(), a)).push((lon_key(), b))) == (ScanOutcome::Fine {
            others: o,
            lat: Some(a),
            lon: Some(b),
        }),
    decreases o.len(),
{
    reveal_strlit("lat");
    reveal_strlit("lon");
    assert(lat_key()[1] != lon_key()[1]);
    let w = o.push((lat_key(), a)).push((lon_key(), b));
    if o.len() == 0 {
        assert(w[0] == (lat_key(), a));
        assert(w.drop_first() =~= seq![(lon_key(), b)]);
        let w2 = seq![(lon_key(), b)];
        assert(w2[0] == (lon_key(), b));
        assert(w2.drop_first() =~= Seq::<(Seq<char>, Seq<char>)>::empty());
        assert(scan(w2.drop_first()) == (ScanOutcome::Fine {
            others: Seq::<(Seq<char>, Seq<char>)>::empty(),
            lat: Option::<Seq<char>>::None,
            lon: Option::<Seq<char>>::None,
        }));
        assert(scan(w2) == (ScanOutcome::Fine {
            others: Seq::<(Seq<char>, Seq<char>)>::empty(),
            lat: Option::<Seq<char>>::None,
            lon: Some(b),
        }));
        assert(scan(w) == (ScanOutcome::Fine {
            others: Seq::<(Seq<char>, Seq<char>)>::empty(),
            lat: Some(a),
            lon: Some(b),
        }));
        assert(o =~= Seq::<(Seq<char>, Seq<char>)>::empty());
    } else {
        lemma_scan_rebuilt(o.drop_first(), a, b);
        assert(w[0] == o[0]);
        assert(!is_coord_key(o[0].0));
        assert(w.drop_first() =~= o.drop_first().push((lat_key(), a)).push((lon_key(), b)));
        assert(scan(w.drop_first()) == (ScanOutcome::Fine {
            others: o.drop_first(),
            lat: Some(a),
            lon: Some(b),
        }));
        assert(seq![o[0]] + o.drop_first() =~= o);
    }
}

/// Attribute order preservation: the attributes a successful scan keeps are
/// exactly the non-coordinate attributes, as a filter of the original list —
/// a subsequence in the original relative order.
pub proof fn lemma_attr_order(attrs: Seq<(Seq<char>, Seq<char>)>)
    requires
        scan(attrs) matches ScanOutcome::Fine { .. },
    ensures
        scan(attrs) matches ScanOutcome::Fine { others, .. } ==> others == attrs.filter(
            |a: (Seq<char>, Seq<char>)| !is_coord_key(a.0),
        ),
    decreases attrs.len(),
{
    let pred = |a: (Seq<char>, Seq<char>)| !is_coord_key(a.0);
    reveal(Seq::filter);
    if attrs.len() == 0 {
        assert(attrs.filter(pred) =~= Seq::<(Seq<char>, Seq<char>)>::empty());
    } else {
        let a = attrs[0];
        let rest = attrs.drop_first();
        if scan(rest) matches ScanOutcome::Fine { .. } {
            lemma_attr_order(rest);
        }
        assert(attrs =~= seq![a] + rest);
        Seq::filter_distributes_over_add(seq![a], rest, pred);
        assert(seq![a].drop_last() =~= Seq::<(Seq<char>, Seq<char>)>::empty());
        assert(seq![a].last() == a);
        assert(Seq::<(Seq<char>, Seq<char>)>::empty().filter(pred)
            =~= Seq::<(Seq<char>, Seq<char>)>::empty());
        if pred(a) {
            assert(seq![a].filter(pred) =~= seq![a]);
        } else {
            assert(seq![a].filter(pred) =~= Seq::<(Seq<char>, Seq<char>)>::empty());
            assert(Seq::<(Seq<char>, Seq<char>)>::empty() + rest.filter(pred) =~= rest.filter(
                pred,
            ));
        }
    }
}

/// Idempotence of a pass whose conversion changes nothing: under a
/// conversion that hands both coordinate texts back unchanged, routing the
/// output of a successful route changes nothing further.
pub proof fn lemma_route_idempotent(
    events: Seq<GEvent>,
    stack: Seq<Seq<char>>,
    path: Seq<Seq<char>>,
    f: spec_fn(Seq<char>, Seq<char>) -> (Seq<char>, Seq<char>),
)
    requires
        forall|a: Seq<char>, b: Seq<char>| #[trigger] f(a, b) == (a, b),
        route_from(events, stack, path, f) is Ok,
    ensures
        route_from(route_from(events, stack, path, f)->Ok_0, stack, path, f) == route_from(
            events,
            stack,
            path,
            f,
        ),
    decreases events.len(),
{
    if events.len() == 0 {
        assert(route_from(events, stack, path, f)->Ok_0 =~= Seq::<GEvent>::empty());
    } else {
        let head = events[0];
        let rest = events.drop_first();
        let st2 = step_stack(stack, head);
        lemma_route_idempotent(rest, st2, path, f);
        let out = route_from(events, stack, path, f)->Ok_0;
        let out_rest = route_from(rest, st2, path, f)->Ok_0;
        let head2 = routed_event(head, stack, path, f);
        assert(out == seq![head2] + out_rest);
        assert(out[0] == head2);
        assert(out.drop_first() =~= out_rest);
        assert(step_stack(stack, head2) == st2);
        match head {
            GEvent::Open { name, attrs, pos, tag, ok } => {
                if dispatched(stack, name, path) {
                    match rewrite_spec(attrs, f) {
                        RewriteSpec::Changed(na) => {
                            if let ScanOutcome::Fine { others, lat: Some(la), lon: Some(lo) }
                                = scan(attrs) {
                                lemma_scan_fine_shape(attrs);
                                assert(f(la, lo) == (la, lo));
                                assert(na == others.push((lat_key(), la)).push((lon_key(), lo)));
                                lemma_scan_rebuilt(others, la, lo);
                                assert(scan(na) == (ScanOutcome::Fine {
                                    others,
                                    lat: Some(la),
                                    lon: Some(lo),
                                }));
                                assert(rewrite_spec(na, f) == RewriteSpec::Changed(na));
                            }
                            assert(head2 == (GEvent::Open {
                                name,
                                attrs: na,
                                pos,
                                tag,
                                ok: true,
                            }));
                            assert(routed_event(head2, stack, path, f) == head2);
                            assert(route_from(out, stack, path, f) == Ok::<Seq<GEvent>, RouteErr>(
                                seq![head2] + out_rest,
                            ));
                        },
                        RewriteSpec::Unchanged => {
                            assert(head2 == head);
                            assert(route_from(out, stack, path, f) == Ok::<Seq<GEvent>, RouteErr>(
                                seq![head2] + out_rest,
                            ));
                        },
                        _ => {},
                    }
                } else {
                    assert(head2 == head);
                    assert(route_from(out, stack, path, f) == Ok::<Seq<GEvent>, RouteErr>(
                        seq![head2] + out_rest,
                    ));
                }
            },
            GEvent::Empty { name, attrs, pos, tag, ok } => {
                if dispatched(stack, name, path) {
                    match rewrite_spec(attrs, f) {
                        RewriteSpec::Changed(na) => {
                            if let ScanOutcome::Fine { others, lat: Some(la), lon: Some(lo) }
                                = scan(attrs) {
                                lemma_scan_fine_shape(attrs);
                                assert(f(la, lo) == (la, lo));
                                assert(na == others.push((lat_key(), la)).push((lon_key(), lo)));
                                lemma_scan_rebuilt(others, la, lo);
                                assert(scan(na) == (ScanOutcome::Fine {
                                    others,
                                    lat: Some(la),
                                    lon: Some(lo),
                                }));
                                assert(rewrite_spec(na, f) == RewriteSpec::Changed(na));
                            }
                            assert(head2 == (GEvent::Empty {
                                name,
                                attrs: na,
                                pos,
                                tag,
                                ok: true,
                            }));
                            assert(routed_event(head2, stack, path, f) == head2);
                            assert(route_from(out, stack, path, f) == Ok::<Seq<GEvent>, RouteErr>(
                                seq![head2] + out_rest,
                            ));
                        },
                        RewriteSpec::Unchanged => {
                            assert(head2 == head);
                            assert(route_from(out, stack, path, f) == Ok::<Seq<GEvent>, RouteErr>(
                                seq![head2] + out_rest,
                            ));
                        },
                        _ => {},
                    }
                } else {
                    assert(head2 == head);
                    assert(route_from(out, stack, path, f) == Ok::<Seq<GEvent>, RouteErr>(
                        seq![head2] + out_rest,
                    ));
                }
            },
            GEvent::Close { .. } => {
                assert(head2 == head);
                assert(stack.len() > 0);
                assert(route_from(out, stack, path, f) == Ok::<Seq<GEvent>, RouteErr>(
                    seq![head2] + out_rest,
                ));
            },
            GEvent::Other { .. } => {
                assert(head2 == head);
                assert(route_from(out, stack, path, f) == Ok::<Seq<GEvent>, RouteErr>(
                    seq![head2] + out_rest,
                ));
            },
        }
        assert(seq![head2] + out_rest =~= out);
    }
}

/// Single dispatch: an element — written open or self-closing — is
/// dispatched only with its chain exactly the path, so only at the path's
/// own depth; in particular a target-path element nested deeper inside an
/// already matched one is not re-matched.
pub proof fn lemma_single_dispatch(
    events: Seq<GEvent>,
    stack: Seq<Seq<char>>,
    path: Seq<Seq<char>>,
    i: int,
    name: Seq<char>,
)
    requires
        0 <= i < events.len(),
        (events[i] matches GEvent::Open { name: n, .. } && n == name) || (events[i]
            matches GEvent::Empty { name: n, .. } && n == name),
        dispatched(stack_at(events, stack, i), name, path),
    ensures
        stack_at(events, stack, i).len() == path.len() - 1,
        stack_at(events, stack, i) == path.drop_last(),
        name == path.last(),
{
    let st = stack_at(events, stack, i);
    assert(st.push(name) == path);
    assert(st.push(name).len() == path.len());
    assert(st =~= path.drop_last());
    assert(path.last() == st.push(name)[path.len() - 1]);
}

} // verus!
