//! The windower groups incoming records into batches bounded by a fixed
//! period. It reacts to three kinds of event: a record arriving, the end of
//! the current period, and the end of the input stream. The surrounding loop
//! owns the clock and the channels; the decisions live here.

use vstd::prelude::*;
use crate::aggregation::lines_of;

verus! {

/// Spec-level picture of one windower event.
pub enum WindowEventShape {
    Value { line: Seq<char> },
    PeriodElapsed,
    StreamEnd,
}

/// One event the windower reacts to: a record arriving before the period
/// ran out, the period running out with nothing received, or the upstream
/// end-of-stream marker.
pub enum WindowEvent {
    Value(String),
    PeriodElapsed,
    StreamEnd,
}

impl View for WindowEvent {
    type V = WindowEventShape;

    open spec fn view(&self) -> WindowEventShape {
        match self {
            WindowEvent::Value(l) => WindowEventShape::Value { line: l@ },
            WindowEvent::PeriodElapsed => WindowEventShape::PeriodElapsed,
            WindowEvent::StreamEnd => WindowEventShape::StreamEnd,
        }
    }
}

/// What the windower asks its surroundings to do after a step: keep
/// collecting, emit one period's batch and start the next window, or emit
/// the final batch followed by the terminal marker and stop.
pub enum WindowAction {
    Continue,
    EmitBatch(Vec<String>),
    EmitFinal(Vec<String>),
}

/// The windower's state: the records of the window being collected, and
/// whether the stream has ended.
pub struct Windower {
    batch: Vec<String>,
    done: bool,
}

impl Windower {
    /// The records collected so far in the current window, in arrival order.
    pub closed spec fn batch_view(self) -> Seq<Seq<char>> {
        lines_of(self.batch@)
    }

    /// Whether the windower has seen the end of the stream.
    pub closed spec fn is_done(self) -> bool {
        self.done
    }

    pub fn new() -> (r: Windower)
        ensures
            r.batch_view() == Seq::<Seq<char>>::empty(),
            !r.is_done(),
    {
        let r = Windower { batch: Vec::new(), done: false };
        proof {
            assert(r.batch_view() =~= Seq::<Seq<char>>::empty());
        }
        r
    }

    /// One step of the windower: a record is appended to the current batch;
    /// an elapsed period seals and emits the batch, possibly empty, and opens
    /// the next window; the end of the stream seals and emits the final
    /// batch and stops.
    pub fn step(&mut self, ev: WindowEvent) -> (act: WindowAction)
        requires
            !old(self).is_done(),
        ensures
            match ev@ {
                WindowEventShape::Value { line } => {
                    &&& final(self).batch_view() == old(self).batch_view().push(line)
                    &&& !final(self).is_done()
                    &&& act is Continue
                },
                WindowEventShape::PeriodElapsed => {
                    &&& act matches WindowAction::EmitBatch(b) && lines_of(b@) == old(
                        self,
                    ).batch_view()
                    &&& final(self).batch_view() == Seq::<Seq<char>>::empty()
                    &&& !final(self).is_done()
                },
                WindowEventShape::StreamEnd => {
                    &&& act matches WindowAction::EmitFinal(b) && lines_of(b@) == old(
                        self,
                    ).batch_view()
                    &&& final(self).batch_view() == Seq::<Seq<char>>::empty()
                    &&& final(self).is_done()
                },
            },
    {
        match ev {
            WindowEvent::Value(l) => {
                self.batch.push(l);
                proof {
                    assert(self.batch_view() =~= old(self).batch_view().push(
                        self.batch@.last()@,
                    ));
                }
                WindowAction::Continue
            },
            WindowEvent::PeriodElapsed => {
                let mut b: Vec<String> = Vec::new();
                core::mem::swap(&mut b, &mut self.batch);
                proof {
                    assert(self.batch_view() =~= Seq::<Seq<char>>::empty());
                }
                WindowAction::EmitBatch(b)
            },
            WindowEvent::StreamEnd => {
                let mut b: Vec<String> = Vec::new();
                core::mem::swap(&mut b, &mut self.batch);
                self.done = true;
                proof {
                    assert(self.batch_view() =~= Seq::<Seq<char>>::empty());
                }
                WindowAction::EmitFinal(b)
            },
        }
    }
}

/// The batches a windower emits over a whole event sequence, together with
/// the records still pending in the open window: one emitted batch per
/// period boundary or stream end, in event order.
pub open spec fn windower_trace(events: Seq<WindowEventShape>) -> (Seq<Seq<Seq<char>>>, Seq<
    Seq<char>,
>)
    decreases events.len(),
{
    if events.len() == 0 {
        (Seq::empty(), Seq::empty())
    } else {
        let prior = windower_trace(events.drop_last());
        match events.last() {
            WindowEventShape::Value { line } => (prior.0, prior.1.push(line)),
            WindowEventShape::PeriodElapsed => (prior.0.push(prior.1), Seq::empty()),
            WindowEventShape::StreamEnd => (prior.0.push(prior.1), Seq::empty()),
        }
    }
}

/// How many window boundaries an event sequence holds: one per elapsed
/// period and one for the end of the stream.
pub open spec fn num_boundaries(events: Seq<WindowEventShape>) -> int
    decreases events.len(),
{
    if events.len() == 0 {
        0
    } else {
        num_boundaries(events.drop_last()) + match events.last() {
            WindowEventShape::Value { .. } => 0int,
            WindowEventShape::PeriodElapsed => 1int,
            WindowEventShape::StreamEnd => 1int,
        }
    }
}

/// The records an event sequence carries, in arrival order.
pub open spec fn values_in(events: Seq<WindowEventShape>) -> Seq<Seq<char>>
    decreases events.len(),
{
    if events.len() == 0 {
        Seq::empty()
    } else {
        let rest = values_in(events.drop_last());
        match events.last() {
            WindowEventShape::Value { line } => rest.push(line),
            _ => rest,
        }
    }
}

/// All emitted batches, flattened in emission order.
pub open spec fn concat_batches(batches: Seq<Seq<Seq<char>>>) -> Seq<Seq<char>>
    decreases batches.len(),
{
    if batches.len() == 0 {
        Seq::empty()
    } else {
        concat_batches(batches.drop_last()) + batches.last()
    }
}

/// One more event extends the trace exactly as `Windower::step` describes:
/// a record joins the pending window, a boundary seals it as the next
/// emitted batch and opens an empty one.
pub proof fn lemma_trace_extend(events: Seq<WindowEventShape>, e: WindowEventShape)
    ensures
        windower_trace(events.push(e)) == (match e {
            WindowEventShape::Value { line } => (
                windower_trace(events).0,
                windower_trace(events).1.push(line),
            ),
            WindowEventShape::PeriodElapsed => (
                windower_trace(events).0.push(windower_trace(events).1),
                Seq::<Seq<char>>::empty(),
            ),
            WindowEventShape::StreamEnd => (
                windower_trace(events).0.push(windower_trace(events).1),
                Seq::<Seq<char>>::empty(),
            ),
        }),
{
    assert(events.push(e).drop_last() =~= events);
    assert(events.push(e).last() == e);
}

/// Law: over any event sequence, the windower emits exactly one batch per
/// window boundary (elapsed period or stream end), in event order, and the
/// emitted batches followed by the still-pending records are exactly the
/// received records in arrival order — none lost, none duplicated, none
/// reordered.
pub proof fn lemma_one_batch_per_period(events: Seq<WindowEventShape>)
    ensures
        windower_trace(events).0.len() == num_boundaries(events),
        concat_batches(windower_trace(events).0) + windower_trace(events).1 == values_in(events),
    decreases events.len(),
{
    if events.len() == 0 {
        assert(concat_batches(windower_trace(events).0) + windower_trace(events).1 =~= values_in(
            events,
        ));
    } else {
        lemma_one_batch_per_period(events.drop_last());
        let prior = windower_trace(events.drop_last());
        match events.last() {
            WindowEventShape::Value { line } => {
                assert(concat_batches(prior.0) + prior.1.push(line) =~= (concat_batches(prior.0)
                    + prior.1).push(line));
            },
            WindowEventShape::PeriodElapsed => {
                assert(concat_batches(prior.0.push(prior.1)) == concat_batches(prior.0)
                    + prior.1) by {
                    assert(prior.0.push(prior.1).drop_last() =~= prior.0);
                }
                assert(concat_batches(prior.0.push(prior.1)) + Seq::<Seq<char>>::empty()
                    =~= concat_batches(prior.0) + prior.1);
            },
            WindowEventShape::StreamEnd => {
                assert(concat_batches(prior.0.push(prior.1)) == concat_batches(prior.0)
                    + prior.1) by {
                    assert(prior.0.push(prior.1).drop_last() =~= prior.0);
                }
                assert(concat_batches(prior.0.push(prior.1)) + Seq::<Seq<char>>::empty()
                    =~= concat_batches(prior.0) + prior.1);
            },
        }
    }
}

} // verus!
