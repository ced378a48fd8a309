//! The pass drivers: the streaming router over a whole document, and the
//! buffer-to-buffer entry point that a host environment can call.

use vstd::prelude::*;
use vstd::string::StringExecFns;
use crate::Error;
use crate::attrs::{
    Rewrite, RewriteSpec, distinct_keys, models, rewrite_attrs, rewrite_spec, wf_key, wf_keys,
};
use crate::depth::{
    PathTracker, gpx_path, lemma_full_match, lemma_prefix_match_bounds, lemma_prefix_match_push,
    lemma_prefix_match_pop, prefix_match, spec_gpx_path,
};
use crate::registry::{Conversion, conv_text_fn, lookup_conversion, spec_lookup};
use crate::router::{
    GEvent, RouteErr, WEvent, dispatched, lemma_route_single, lemma_route_split,
    lemma_stack_at_snoc, out_event, route_from, route_out, routed_event, stack_at, step_stack,
};
use crate::xml::{
    ReadStep, canonical, doc_events, doc_fails, empty_token, event_model, gtag, new_reader,
    new_sink, new_start, push_attr, rd_fails, read_step, remaining, serialized, sink_into_bytes,
    sink_write_built_empty, sink_write_built_start, sink_write_event, sink_write_raw_empty,
    sink_write_raw_start, start_attr_list, start_attrs, start_name, start_readable, start_token,
};

verus! {

/// The decimal digit of a value below ten.
pub open spec fn spec_digit(d: nat) -> Seq<char> {
    if d == 0 {
        "0"@
    } else if d == 1 {
        "1"@
    } else if d == 2 {
        "2"@
    } else if d == 3 {
        "3"@
    } else if d == 4 {
        "4"@
    } else if d == 5 {
        "5"@
    } else if d == 6 {
        "6"@
    } else if d == 7 {
        "7"@
    } else if d == 8 {
        "8"@
    } else {
        "9"@
    }
}

/// The decimal text of a number.
pub open spec fn spec_decimal(n: nat) -> Seq<char>
    decreases n,
{
    if n < 10 {
        spec_digit(n)
    } else {
        spec_decimal(n / 10) + spec_digit(n % 10)
    }
}

fn digit_str(d: u64) -> (r: &'static str)
    requires
        d < 10,
    ensures
        r@ == spec_digit(d as nat),
{
    if d == 0 {
        "0"
    } else if d == 1 {
        "1"
    } else if d == 2 {
        "2"
    } else if d == 3 {
        "3"
    } else if d == 4 {
        "4"
    } else if d == 5 {
        "5"
    } else if d == 6 {
        "6"
    } else if d == 7 {
        "7"
    } else if d == 8 {
        "8"
    } else {
        "9"
    }
}

/// Renders a number as decimal text.
pub fn u64_to_string(n: u64) -> (r: String)
    ensures
        r@ == spec_decimal(n as nat),
    decreases n,
{
    if n < 10 {
        digit_str(n).to_owned()
    } else {
        proof {
            assert(n / 10 < n) by (nonlinear_arith)
                requires n >= 10,
            ;
            assert((n / 10) as nat == (n as nat) / 10);
            assert((n % 10) as nat == (n as nat) % 10);
        }
        let mut s = u64_to_string(n / 10);
        s.append(digit_str(n % 10));
        s
    }
}

/// The message of an error, as the command line prints it.
pub open spec fn spec_message(e: Error) -> Seq<char> {
    match e {
        Error::XMLError(m) => "XML error: "@ + m@,
        Error::ValueError(p) => "failed to parse latitude or longitude at "@ + spec_decimal(
            p as nat,
        ) + " "@,
    }
}

impl Error {
    /// A human-readable message for the error.
    pub fn message(&self) -> (r: String)
        ensures
            r@ == spec_message(*self),
    {
        match self {
            Error::XMLError(m) => {
                let mut s = "XML error: ".to_owned();
                s.append(m.as_str());
                s
            },
            Error::ValueError(p) => {
                let mut s = "failed to parse latitude or longitude at ".to_owned();
                let d = u64_to_string(*p);
                s.append(d.as_str());
                s.append(" ");
                s
            },
        }
    }
}

/// Runs one pass over a whole document held in `input`: the document's
/// events are routed as `route_from` says over the GPX target path — every
/// element whose chain of ancestors is exactly `gpx`/`trk`/`trkseg`/`trkpt`,
/// written as an open tag or self-closing, has its attribute list rewritten
/// under `conv`, every other event is re-emitted unchanged in order — and
/// the serialization of the routed events, re-indented, is returned. Success is owed whenever the document
/// parses and the route succeeds; a coordinate value that does not parse
/// aborts the pass with its position, and a structural failure — a
/// malformed document, an unreadable attribute list on a matched element, a
/// close below the root — aborts it with the reader's message.
pub fn gpx_transform(input: &[u8], conv: &Conversion) -> (r: Result<Vec<u8>, Error>)
    ensures
        ({
            let evs = doc_events(input@);
            let f = conv_text_fn(*conv);
            let route = route_from(evs, Seq::empty(), spec_gpx_path(), f);
            match r {
                Ok(bytes) => !doc_fails(input@) && route is Ok && bytes@ == serialized(
                    route_out(evs, Seq::empty(), spec_gpx_path(), f),
                ),
                Err(e) => match e {
                    Error::XMLError(_) => doc_fails(input@) || route == Err::<
                        Seq<GEvent>,
                        RouteErr,
                    >(RouteErr::Structure) || input@.len() + 2 > usize::MAX,
                    Error::ValueError(p) => route == Err::<Seq<GEvent>, RouteErr>(
                        RouteErr::Value(p as int),
                    ),
                },
            }
        }),
{
    let ghost f = conv_text_fn(*conv);
    let ghost pm = spec_gpx_path();
    let path = gpx_path();
    let mut reader = new_reader(input);
    let mut sink = new_sink();
    let mut tracker = PathTracker::new();
    let ghost mut stack: Seq<Seq<char>> = Seq::empty();
    let ghost mut consumed: Seq<GEvent> = Seq::empty();
    // A document of n bytes yields at most n + 1 events, so a loop bound of
    // n + 2 reaches the end-of-stream event; the bound can only bind when
    // the input's length itself crowds the address space.
    let mut steps: usize = 0;
    let fuel: usize = if input.len() <= usize::MAX - 2 {
        input.len() + 2
    } else {
        usize::MAX
    };
    proof {
        assert(consumed + remaining(reader) =~= remaining(reader));
    }
    while steps < fuel
        invariant
            tracker.current == stack.len(),
            tracker.matched == prefix_match(stack, pm),
            tracker.wf(pm.len()),
            path@.map_values(|s: String| s@) == pm,
            pm == spec_gpx_path(),
            f == conv_text_fn(*conv),
            doc_events(input@) == consumed + remaining(reader),
            rd_fails(reader) == doc_fails(input@),
            doc_events(input@).len() <= input@.len() + 1,
            route_from(consumed, Seq::empty(), pm, f) is Ok,
            sink.log@ == route_out(consumed, Seq::empty(), pm, f),
            stack == stack_at(consumed, Seq::empty(), consumed.len() as int),
            stack.len() <= consumed.len(),
            consumed.len() == steps,
            fuel == if input@.len() <= usize::MAX - 2 {
                (input@.len() + 2) as int
            } else {
                usize::MAX as int
            },
        decreases fuel - steps,
    {
        steps += 1;
        let ghost old_consumed = consumed;
        let ghost old_stack = stack;
        let ghost oc = route_from(consumed, Seq::empty(), pm, f)->Ok_0;
        let ghost old_rem = remaining(reader);
        match read_step(&mut reader) {
            ReadStep::Eof => {
                proof {
                    assert(old_rem.len() == 0);
                    assert(doc_events(input@) =~= consumed);
                    assert(!doc_fails(input@));
                    assert(route_out(doc_events(input@), Seq::empty(), pm, f) == route_out(
                        consumed,
                        Seq::empty(),
                        pm,
                        f,
                    ));
                }
                return Ok(sink_into_bytes(sink));
            },
            ReadStep::Failed(m) => {
                return Err(Error::XMLError(m));
            },
            ReadStep::Other(ev) => {
                let ghost g = event_model(ev);
                proof {
                    assert(old_rem =~= seq![g] + remaining(reader));
                }
                if let Err(m) = sink_write_event(&mut sink, ev) {
                    return Err(Error::XMLError(m));
                }
                proof {
                    lemma_route_split(old_consumed, seq![g], Seq::empty(), pm, f);
                    lemma_stack_at_snoc(old_consumed, g, Seq::empty());
                    consumed = old_consumed.push(g);
                    assert(old_consumed + seq![g] =~= consumed);
                    lemma_route_single(g, old_stack, pm, f);
                    assert(route_from(seq![g], old_stack, pm, f) == Ok::<Seq<GEvent>, RouteErr>(
                        seq![g],
                    ));
                    assert(route_from(consumed, Seq::empty(), pm, f) == Ok::<
                        Seq<GEvent>,
                        RouteErr,
                    >(oc + seq![g]));
                    assert(out_event(g, old_stack, pm, f) == (WEvent::Passed { tag: gtag(g) }));
                    assert(sink.log@ =~= route_out(old_consumed, Seq::empty(), pm, f) + seq![
                        out_event(g, old_stack, pm, f),
                    ]);
                    assert(sink.log@ == route_out(consumed, Seq::empty(), pm, f));
                    assert(old_consumed + old_rem =~= consumed + remaining(reader));
                }
            },
            ReadStep::Close(ev) => {
                let ghost g = event_model(ev);
                proof {
                    assert(old_rem =~= seq![g] + remaining(reader));
                }
                if tracker.current == 0 {
                    // A close below the root is a structural failure of the
                    // route.
                    proof {
                        lemma_route_single(g, old_stack, pm, f);
                        lemma_route_split(old_consumed, seq![g], Seq::empty(), pm, f);
                        assert(route_from(old_consumed + seq![g], Seq::empty(), pm, f) == Err::<
                            Seq<GEvent>,
                            RouteErr,
                        >(RouteErr::Structure));
                        lemma_route_split(
                            old_consumed + seq![g],
                            remaining(reader),
                            Seq::empty(),
                            pm,
                            f,
                        );
                        assert(doc_events(input@) =~= (old_consumed + seq![g]) + remaining(
                            reader,
                        ));
                        assert(route_from(doc_events(input@), Seq::empty(), pm, f) == Err::<
                            Seq<GEvent>,
                            RouteErr,
                        >(RouteErr::Structure));
                    }
                    return Err(Error::XMLError("element close below the root".to_owned()));
                }
                tracker.on_close(&path);
                if let Err(m) = sink_write_event(&mut sink, ev) {
                    return Err(Error::XMLError(m));
                }
                proof {
                    lemma_prefix_match_pop(old_stack, pm);
                    lemma_route_split(old_consumed, seq![g], Seq::empty(), pm, f);
                    lemma_stack_at_snoc(old_consumed, g, Seq::empty());
                    consumed = old_consumed.push(g);
                    stack = old_stack.drop_last();
                    assert(old_consumed + seq![g] =~= consumed);
                    lemma_route_single(g, old_stack, pm, f);
                    assert(route_from(seq![g], old_stack, pm, f) == Ok::<Seq<GEvent>, RouteErr>(
                        seq![g],
                    ));
                    assert(route_from(consumed, Seq::empty(), pm, f) == Ok::<
                        Seq<GEvent>,
                        RouteErr,
                    >(oc + seq![g]));
                    assert(out_event(g, old_stack, pm, f) == (WEvent::Passed { tag: gtag(g) }));
                    assert(sink.log@ =~= route_out(old_consumed, Seq::empty(), pm, f) + seq![
                        out_event(g, old_stack, pm, f),
                    ]);
                    assert(sink.log@ == route_out(consumed, Seq::empty(), pm, f));
                    assert(old_consumed + old_rem =~= consumed + remaining(reader));
                }
            },
            ReadStep::Open(name, pos, elem) => {
                let ghost g = (GEvent::Open {
                    name: name@,
                    attrs: start_attrs(elem),
                    pos: pos as int,
                    tag: start_token(elem),
                    ok: start_readable(elem),
                });
                proof {
                    assert(old_rem =~= seq![g] + remaining(reader));
                }
                if tracker.current == usize::MAX {
                    proof {
                        assert(consumed.len() <= doc_events(input@).len() - 1);
                        assert(input@.len() + 2 > usize::MAX);
                    }
                    return Err(Error::XMLError("document is nested too deeply".to_owned()));
                }
                proof {
                    lemma_prefix_match_push(old_stack, pm, name@);
                    lemma_prefix_match_bounds(old_stack, pm);
                    if tracker.matched < path.len() {
                        assert(path@.map_values(|s: String| s@)[tracker.matched as int]
                            == path@[tracker.matched as int]@);
                    }
                }
                let hit = tracker.on_open(&name, &path);
                proof {
                    stack = old_stack.push(name@);
                    lemma_full_match(stack, pm);
                    // The dispatch decision is exactly path equality of the
                    // ancestor chain.
                    assert(hit <==> stack =~= pm);
                    assert(hit == dispatched(old_stack, name@, pm));
                    lemma_route_split(old_consumed, seq![g], Seq::empty(), pm, f);
                    lemma_stack_at_snoc(old_consumed, g, Seq::empty());
                    lemma_route_single(g, old_stack, pm, f);
                    consumed = old_consumed.push(g);
                    assert(old_consumed + seq![g] =~= consumed);
                    assert(old_consumed + old_rem =~= consumed + remaining(reader));
                    assert(doc_events(input@) == consumed + remaining(reader));
                }
                if hit {
                    match start_attr_list(&elem) {
                        Err(m) => {
                            // A matched element whose attributes cannot be
                            // read is a structural failure of the route.
                            proof {
                                assert(!start_readable(elem));
                                assert(route_from(consumed, Seq::empty(), pm, f) == Err::<
                                    Seq<GEvent>,
                                    RouteErr,
                                >(RouteErr::Structure));
                                lemma_route_split(
                                    consumed,
                                    remaining(reader),
                                    Seq::empty(),
                                    pm,
                                    f,
                                );
                                assert(route_from(doc_events(input@), Seq::empty(), pm, f)
                                    == Err::<Seq<GEvent>, RouteErr>(RouteErr::Structure));
                            }
                            return Err(Error::XMLError(m));
                        },
                        Ok(attrs) => {
                            proof {
                                assert(models(attrs@) == start_attrs(elem));
                            }
                            match rewrite_attrs(&attrs, pos, conv) {
                                Err(e) => {
                                    proof {
                                        assert(e == Error::ValueError(pos));
                                        assert(rewrite_spec(start_attrs(elem), f) is BadValue);
                                        assert(route_from(consumed, Seq::empty(), pm, f)
                                            == Err::<Seq<GEvent>, RouteErr>(RouteErr::Value(
                                            pos as int,
                                        )));
                                        lemma_route_split(
                                            consumed,
                                            remaining(reader),
                                            Seq::empty(),
                                            pm,
                                            f,
                                        );
                                        assert(route_from(doc_events(input@), Seq::empty(), pm, f)
                                            == Err::<Seq<GEvent>, RouteErr>(RouteErr::Value(
                                            pos as int,
                                        )));
                                    }
                                    return Err(e);
                                },
                                Ok(Rewrite::Unchanged) => {
                                    proof {
                                        assert(routed_event(g, old_stack, pm, f) == g);
                                        assert(out_event(g, old_stack, pm, f) == (WEvent::Passed {
                                            tag: gtag(g),
                                        }));
                                    }
                                    if let Err(m) = sink_write_raw_start(&mut sink, elem) {
                                        return Err(Error::XMLError(m));
                                    }
                                    proof {
                                        assert(route_from(consumed, Seq::empty(), pm, f) == Ok::<
                                            Seq<GEvent>,
                                            RouteErr,
                                        >(oc + seq![g]));
                                        assert(sink.log@ =~= route_out(
                                            old_consumed,
                                            Seq::empty(),
                                            pm,
                                            f,
                                        ) + seq![out_event(g, old_stack, pm, f)]);
                                        assert(sink.log@ == route_out(
                                            consumed,
                                            Seq::empty(),
                                            pm,
                                            f,
                                        ));
                                    }
                                },
                                Ok(Rewrite::Changed(new_attrs)) => {
                                    let ghost g2 = routed_event(g, old_stack, pm, f);
                                    proof {
                                        assert(rewrite_spec(start_attrs(elem), f)
                                            == RewriteSpec::Changed(models(new_attrs@)));
                                        assert(out_event(g, old_stack, pm, f) == (WEvent::Built {
                                            name: name@,
                                            attrs: models(new_attrs@),
                                            empty: false,
                                        }));
                                    }
                                    let mut ne = new_start(&name);
                                    let mut j: usize = 0;
                                    while j < new_attrs.len()
                                        invariant
                                            j <= new_attrs@.len(),
                                            start_name(ne) == name@,
                                            start_readable(ne),
                                            canonical(ne),
                                            start_attrs(ne) == models(new_attrs@.take(j as int)),
                                            wf_keys(models(new_attrs@)),
                                            distinct_keys(models(new_attrs@)),
                                        decreases new_attrs@.len() - j,
                                    {
                                        proof {
                                            assert(wf_key(models(new_attrs@)[j as int].0));
                                            assert(models(new_attrs@)[j as int]
                                                == new_attrs@[j as int].model());
                                            assert forall|i: int|
                                                0 <= i < start_attrs(ne).len() implies #[trigger]
                                            start_attrs(ne)[i].0 != new_attrs@[j as int].key@ by {
                                                assert(start_attrs(ne)[i] == models(
                                                    new_attrs@.take(j as int),
                                                )[i]);
                                                assert(models(new_attrs@.take(j as int))[i]
                                                    == models(new_attrs@)[i]);
                                                assert(models(new_attrs@)[i].0 != models(
                                                    new_attrs@,
                                                )[j as int].0);
                                            }
                                        }
                                        push_attr(&mut ne, &new_attrs[j]);
                                        j += 1;
                                        proof {
                                            assert(models(new_attrs@.take(j as int)) =~= models(
                                                new_attrs@.take(j - 1),
                                            ).push(new_attrs@[j - 1].model()));
                                        }
                                    }
                                    proof {
                                        assert(new_attrs@.take(new_attrs@.len() as int)
                                            =~= new_attrs@);
                                        // The rebuilt tag carries exactly the
                                        // rewritten attribute list.
                                        assert(start_attrs(ne) == models(new_attrs@));
                                    }
                                    if let Err(m) = sink_write_built_start(&mut sink, ne) {
                                        return Err(Error::XMLError(m));
                                    }
                                    proof {
                                        assert(route_from(consumed, Seq::empty(), pm, f) == Ok::<
                                            Seq<GEvent>,
                                            RouteErr,
                                        >(oc + seq![g2]));
                                        assert(sink.log@ =~= route_out(
                                            old_consumed,
                                            Seq::empty(),
                                            pm,
                                            f,
                                        ) + seq![out_event(g, old_stack, pm, f)]);
                                        assert(sink.log@ == route_out(
                                            consumed,
                                            Seq::empty(),
                                            pm,
                                            f,
                                        ));
                                    }
                                },
                            }
                        },
                    }
                } else {
                    proof {
                        assert(route_from(seq![g], old_stack, pm, f) == Ok::<
                            Seq<GEvent>,
                            RouteErr,
                        >(seq![g]));
                        assert(out_event(g, old_stack, pm, f) == (WEvent::Passed {
                            tag: gtag(g),
                        }));
                    }
                    if let Err(m) = sink_write_raw_start(&mut sink, elem) {
                        return Err(Error::XMLError(m));
                    }
                    proof {
                        assert(route_from(consumed, Seq::empty(), pm, f) == Ok::<
                            Seq<GEvent>,
                            RouteErr,
                        >(oc + seq![g]));
                        assert(sink.log@ =~= route_out(old_consumed, Seq::empty(), pm, f) + seq![
                            out_event(g, old_stack, pm, f),
                        ]);
                        assert(sink.log@ == route_out(consumed, Seq::empty(), pm, f));
                    }
                }
            },
            ReadStep::SelfClosed(name, pos, elem) => {
                let ghost g = (GEvent::Empty {
                    name: name@,
                    attrs: start_attrs(elem),
                    pos: pos as int,
                    tag: empty_token(elem),
                    ok: start_readable(elem),
                });
                proof {
                    assert(old_rem =~= seq![g] + remaining(reader));
                    lemma_prefix_match_push(old_stack, pm, name@);
                    lemma_prefix_match_bounds(old_stack, pm);
                    if tracker.matched < path.len() {
                        assert(path@.map_values(|s: String| s@)[tracker.matched as int]
                            == path@[tracker.matched as int]@);
                    }
                }
                let hit = tracker.at_target(&name, &path);
                proof {
                    lemma_full_match(old_stack.push(name@), pm);
                    // The dispatch decision is exactly path equality of the
                    // ancestor chain; a self-closing element leaves the
                    // chain as it was.
                    assert(hit <==> old_stack.push(name@) =~= pm);
                    assert(hit == dispatched(old_stack, name@, pm));
                    lemma_route_split(old_consumed, seq![g], Seq::empty(), pm, f);
                    lemma_stack_at_snoc(old_consumed, g, Seq::empty());
                    lemma_route_single(g, old_stack, pm, f);
                    consumed = old_consumed.push(g);
                    assert(step_stack(old_stack, g) == old_stack);
                    assert(old_consumed + seq![g] =~= consumed);
                    assert(old_consumed + old_rem =~= consumed + remaining(reader));
                    assert(doc_events(input@) == consumed + remaining(reader));
                }
                if hit {
                    match start_attr_list(&elem) {
                        Err(m) => {
                            // A matched element whose attributes cannot be
                            // read is a structural failure of the route.
                            proof {
                                assert(!start_readable(elem));
                                assert(route_from(consumed, Seq::empty(), pm, f) == Err::<
                                    Seq<GEvent>,
                                    RouteErr,
                                >(RouteErr::Structure));
                                lemma_route_split(
                                    consumed,
                                    remaining(reader),
                                    Seq::empty(),
                                    pm,
                                    f,
                                );
                                assert(route_from(doc_events(input@), Seq::empty(), pm, f)
                                    == Err::<Seq<GEvent>, RouteErr>(RouteErr::Structure));
                            }
                            return Err(Error::XMLError(m));
                        },
                        Ok(attrs) => {
                            proof {
                                assert(models(attrs@) == start_attrs(elem));
                            }
                            match rewrite_attrs(&attrs, pos, conv) {
                                Err(e) => {
                                    proof {
                                        assert(e == Error::ValueError(pos));
                                        assert(rewrite_spec(start_attrs(elem), f) is BadValue);
                                        assert(route_from(consumed, Seq::empty(), pm, f)
                                            == Err::<Seq<GEvent>, RouteErr>(RouteErr::Value(
                                            pos as int,
                                        )));
                                        lemma_route_split(
                                            consumed,
                                            remaining(reader),
                                            Seq::empty(),
                                            pm,
                                            f,
                                        );
                                        assert(route_from(doc_events(input@), Seq::empty(), pm, f)
                                            == Err::<Seq<GEvent>, RouteErr>(RouteErr::Value(
                                            pos as int,
                                        )));
                                    }
                                    return Err(e);
                                },
                                Ok(Rewrite::Unchanged) => {
                                    proof {
                                        assert(routed_event(g, old_stack, pm, f) == g);
                                        assert(out_event(g, old_stack, pm, f) == (WEvent::Passed {
                                            tag: gtag(g),
                                        }));
                                    }
                                    if let Err(m) = sink_write_raw_empty(&mut sink, elem) {
                                        return Err(Error::XMLError(m));
                                    }
                                    proof {
                                        assert(route_from(consumed, Seq::empty(), pm, f) == Ok::<
                                            Seq<GEvent>,
                                            RouteErr,
                                        >(oc + seq![g]));
                                        assert(sink.log@ =~= route_out(
                                            old_consumed,
                                            Seq::empty(),
                                            pm,
                                            f,
                                        ) + seq![out_event(g, old_stack, pm, f)]);
                                        assert(sink.log@ == route_out(
                                            consumed,
                                            Seq::empty(),
                                            pm,
                                            f,
                                        ));
                                    }
                                },
                                Ok(Rewrite::Changed(new_attrs)) => {
                                    let ghost g2 = routed_event(g, old_stack, pm, f);
                                    proof {
                                        assert(rewrite_spec(start_attrs(elem), f)
                                            == RewriteSpec::Changed(models(new_attrs@)));
                                        assert(out_event(g, old_stack, pm, f) == (WEvent::Built {
                                            name: name@,
                                            attrs: models(new_attrs@),
                                            empty: true,
                                        }));
                                    }
                                    let mut ne = new_start(&name);
                                    let mut j: usize = 0;
                                    while j < new_attrs.len()
                                        invariant
                                            j <= new_attrs@.len(),
                                            start_name(ne) == name@,
                                            start_readable(ne),
                                            canonical(ne),
                                            start_attrs(ne) == models(new_attrs@.take(j as int)),
                                            wf_keys(models(new_attrs@)),
                                            distinct_keys(models(new_attrs@)),
                                        decreases new_attrs@.len() - j,
                                    {
                                        proof {
                                            assert(wf_key(models(new_attrs@)[j as int].0));
                                            assert(models(new_attrs@)[j as int]
                                                == new_attrs@[j as int].model());
                                            assert forall|i: int|
                                                0 <= i < start_attrs(ne).len() implies #[trigger]
                                            start_attrs(ne)[i].0 != new_attrs@[j as int].key@ by {
                                                assert(start_attrs(ne)[i] == models(
                                                    new_attrs@.take(j as int),
                                                )[i]);
                                                assert(models(new_attrs@.take(j as int))[i]
                                                    == models(new_attrs@)[i]);
                                                assert(models(new_attrs@)[i].0 != models(
                                                    new_attrs@,
                                                )[j as int].0);
                                            }
                                        }
                                        push_attr(&mut ne, &new_attrs[j]);
                                        j += 1;
                                        proof {
                                            assert(models(new_attrs@.take(j as int)) =~= models(
                                                new_attrs@.take(j - 1),
                                            ).push(new_attrs@[j - 1].model()));
                                        }
                                    }
                                    proof {
                                        assert(new_attrs@.take(new_attrs@.len() as int)
                                            =~= new_attrs@);
                                        // The rebuilt tag carries exactly the
                                        // rewritten attribute list.
                                        assert(start_attrs(ne) == models(new_attrs@));
                                    }
                                    if let Err(m) = sink_write_built_empty(&mut sink, ne) {
                                        return Err(Error::XMLError(m));
                                    }
                                    proof {
                                        assert(route_from(consumed, Seq::empty(), pm, f) == Ok::<
                                            Seq<GEvent>,
                                            RouteErr,
                                        >(oc + seq![g2]));
                                        assert(sink.log@ =~= route_out(
                                            old_consumed,
                                            Seq::empty(),
                                            pm,
                                            f,
                                        ) + seq![out_event(g, old_stack, pm, f)]);
                                        assert(sink.log@ == route_out(
                                            consumed,
                                            Seq::empty(),
                                            pm,
                                            f,
                                        ));
                                    }
                                },
                            }
                        },
                    }
                } else {
                    proof {
                        assert(route_from(seq![g], old_stack, pm, f) == Ok::<
                            Seq<GEvent>,
                            RouteErr,
                        >(seq![g]));
                        assert(out_event(g, old_stack, pm, f) == (WEvent::Passed {
                            tag: gtag(g),
                        }));
                    }
                    if let Err(m) = sink_write_raw_empty(&mut sink, elem) {
                        return Err(Error::XMLError(m));
                    }
                    proof {
                        assert(route_from(consumed, Seq::empty(), pm, f) == Ok::<
                            Seq<GEvent>,
                            RouteErr,
                        >(oc + seq![g]));
                        assert(sink.log@ =~= route_out(old_consumed, Seq::empty(), pm, f) + seq![
                            out_event(g, old_stack, pm, f),
                        ]);
                        assert(sink.log@ == route_out(consumed, Seq::empty(), pm, f));
                    }
                }
            },
        }
    }
    proof {
        assert(consumed.len() <= doc_events(input@).len());
        assert(input@.len() + 2 > usize::MAX);
    }
    Err(Error::XMLError("event stream did not end".to_owned()))
}

/// What a buffer-to-buffer pass hands back: the output document, or a
/// message for the failure.
pub struct ConvertResult {
    data: Vec<u8>,
    err: String,
}

impl ConvertResult {
    /// The output document's bytes.
    pub closed spec fn data_view(self) -> Seq<u8> {
        self.data@
    }

    /// The failure message, empty on success.
    pub closed spec fn err_view(self) -> Seq<char> {
        self.err@
    }

    /// The output document held in the result.
    pub fn get_data(&self) -> (r: Vec<u8>)
        ensures
            r@ == self.data_view(),
    {
        let r = self.data.clone();
        proof {
            assert forall|i: int| 0 <= i < self.data@.len() implies r@[i] == self.data@[i] by {
                assert(vstd::prelude::cloned::<u8>(self.data[i], r[i]));
            }
            assert(r@ =~= self.data@);
        }
        r
    }

    /// The failure message held in the result.
    pub fn get_err(&self) -> (r: String)
        ensures
            r@ == self.err_view(),
    {
        self.err.clone()
    }
}

/// Runs a pass over a byte buffer with the conversion registered under
/// `func_name`: an unknown identifier is reported in the message without any
/// stream work; otherwise the pass runs, the routed document comes back with
/// an empty message exactly when it succeeds, and a failing pass hands back
/// its error's own message with no data — the value error's exact rendering,
/// or the reader's text behind the structural prefix.
pub fn convert(input: &[u8], func_name: &str) -> (r: ConvertResult)
    ensures
        spec_lookup(func_name@) is None ==> r.err_view() == "Unknown conversion of "@ + func_name@
            && r.data_view() == Seq::<u8>::empty(),
        (spec_lookup(func_name@) matches Some(c) ==> ({
            let evs = doc_events(input@);
            let f = conv_text_fn(c);
            let route = route_from(evs, Seq::empty(), spec_gpx_path(), f);
            &&& (!doc_fails(input@) && route is Ok && input@.len() + 2 <= usize::MAX
                ==> r.err_view() == Seq::<char>::empty() && r.data_view() == serialized(
                route_out(evs, Seq::empty(), spec_gpx_path(), f),
            ))
            &&& (r.err_view() == Seq::<char>::empty() ==> !doc_fails(input@) && route is Ok
                && r.data_view() == serialized(route_out(evs, Seq::empty(), spec_gpx_path(), f)))
            &&& (forall|p: int|
                route == Err::<Seq<GEvent>, RouteErr>(RouteErr::Value(p)) && !doc_fails(input@)
                    && input@.len() + 2 <= usize::MAX ==> r.data_view() == Seq::<u8>::empty()
                    && r.err_view() == spec_message(Error::ValueError(p as u64)))
            &&& ((doc_fails(input@) || route == Err::<Seq<GEvent>, RouteErr>(
                RouteErr::Structure,
            )) && !(route matches Err(RouteErr::Value(_))) && input@.len() + 2 <= usize::MAX
                ==> r.data_view() == Seq::<u8>::empty() && (exists|m: Seq<char>|
                r.err_view() == "XML error: "@ + m))
            &&& (r.data_view() == Seq::<u8>::empty() || r.err_view() == Seq::<char>::empty())
        })),
{
    match lookup_conversion(func_name) {
        None => {
            let mut msg = "Unknown conversion of ".to_owned();
            msg.append(func_name);
            proof {
                lemma_message_nonempty_prefix();
            }
            ConvertResult { data: Vec::new(), err: msg }
        },
        Some(c) => match gpx_transform(input, &c) {
            Ok(data) => ConvertResult { data, err: String::new() },
            Err(e) => {
                let m = e.message();
                proof {
                    assert(m@ == spec_message(e));
                    lemma_message_nonempty(e);
                    if e is XMLError {
                        let mm = e->XMLError_0;
                        assert(m@ == "XML error: "@ + mm@);
                    }
                }
                ConvertResult { data: Vec::new(), err: m }
            },
        },
    }
}

/// The fixed prefixes of the error messages are not empty.
proof fn lemma_message_nonempty_prefix()
    ensures
        "XML error: "@.len() > 0,
        "failed to parse latitude or longitude at "@.len() > 0,
{
    reveal_strlit("XML error: ");
    reveal_strlit("failed to parse latitude or longitude at ");
}

/// No error renders as an empty message.
proof fn lemma_message_nonempty(e: Error)
    ensures
        spec_message(e).len() > 0,
{
    lemma_message_nonempty_prefix();
}

} // verus!
