//! Conversion driver: walks every frame of a trajectory and hands each real
//! atom to an output sink.
use vstd::prelude::*;
use crate::decoder::{
    BinaryParserV2, GlobalMetaData, ParseError, TypeAtom, WalkState, END_OF_RANK, GLOBAL_HEADER_BYTES,
    advance, bytes_left, header_ok, header_of, lemma_step_progresses, make_parser, slot_atom, slot_start,
    start_state, walk_ok, walk_step,
};

verus! {

/// Binary trajectory formats.
#[derive(Clone, Copy, Debug, PartialEq, Eq, Structural)]
pub enum FormatStandard {
    /// The legacy format, decoded by its own library outside this crate.
    Current,
    /// The block structured multi-rank format decoded here.
    Next,
}

/// Text formats a trajectory converts to.
#[derive(Clone, Copy, Debug, PartialEq, Eq, Structural)]
pub enum OutFormat {
    /// Element symbol and position per line, under an atom count.
    Xyz,
    /// Every field of every atom, one atom per line.
    Text,
    /// LAMMPS dump frames.
    Dump,
    /// Re-encoded binary records.
    Bin,
}

/// One call an output sink receives.
pub enum SinkEvent {
    Start,
    BeforeFrame(u32),
    Atom(TypeAtom),
    AfterFrame,
    Done,
}

/// Output sink driven by the conversion: `on_start` once, then per frame
/// `before_frame`, `on_atom_read` for every real atom and `after_frame`,
/// and `done` at the end. `events` is the log of the calls received so far;
/// each call appends itself to it.
pub trait WriteProgress {
    /// The calls received so far, in order. A sink checked by Verus gives
    /// its own log; the empty default stands only for sinks written outside
    /// Verus, which then carry these contracts unchecked.
    closed spec fn events(&self) -> Seq<SinkEvent> {
        Seq::empty()
    }

    /// Called with each real atom read from the trajectory.
    fn on_atom_read(&mut self, atom: &TypeAtom) -> (r: i32)
        ensures
            final(self).events() == old(self).events().push(SinkEvent::Atom(*atom)),
    ;

    /// Called before the atoms of frame `frame`.
    fn before_frame(&mut self, frame: u32, output: &str)
        ensures
            final(self).events() == old(self).events().push(SinkEvent::BeforeFrame(frame)),
    ;

    /// Called after the atoms of a frame.
    fn after_frame(&mut self)
        ensures
            final(self).events() == old(self).events().push(SinkEvent::AfterFrame),
    ;

    /// Called once before any frame.
    fn on_start(&mut self, output: &str)
        ensures
            final(self).events() == old(self).events().push(SinkEvent::Start),
    ;

    /// Called once after the last frame.
    fn done(&mut self)
        ensures
            final(self).events() == old(self).events().push(SinkEvent::Done),
    ;
}

/// The event of an atom read inside a frame: one for a real atom, none for
/// a sentinel.
pub open spec fn atom_events(a: TypeAtom) -> Seq<SinkEvent> {
    if a.tp != END_OF_RANK {
        seq![SinkEvent::Atom(a)]
    } else {
        Seq::empty()
    }
}

/// `w` with `p` put before its events.
pub open spec fn with_prefix(p: Seq<SinkEvent>, w: Option<(Seq<SinkEvent>, WalkState)>) -> Option<
    (Seq<SinkEvent>, WalkState),
> {
    match w {
        None => None,
        Some((e, t)) => Some((p + e, t)),
    }
}

/// The walk of the frame from `s`, slot by slot up to the last rank's
/// sentinel: the events of the real atoms met, in order, and the state at
/// the end; `None` when a slot lies beyond the data. Each step that
/// continues the frame moves forward in the active rank or on to the
/// following rank (`lemma_step_progresses`), which is what the walk checks
/// before it goes on.
pub open spec fn frame_walk(h: GlobalMetaData, data: Seq<u8>, s: WalkState) -> Option<
    (Seq<SinkEvent>, WalkState),
>
    decreases h.mpi_ranks - s.cur_rank, bytes_left(data, s),
{
    if !walk_ok(h, s) {
        None
    } else {
        match walk_step(h, data, s) {
            None => None,
            Some((t, more)) => if more && walk_ok(h, t) && (t.cur_rank > s.cur_rank || (t.cur_rank == s.cur_rank
                && bytes_left(data, t) < bytes_left(data, s))) {
                with_prefix(atom_events(slot_atom(data, slot_start(h, s), h.mask)), frame_walk(h, data, t))
            } else if more {
                None
            } else {
                Some((Seq::empty(), t))
            },
        }
    }
}

/// The events of the last `k` frames the header announces, started and
/// walked from `s`: per frame its number, its real atoms and its end; with
/// the state at the end. `None` when a slot lies beyond the data.
pub open spec fn run_frames(h: GlobalMetaData, data: Seq<u8>, s: WalkState, k: nat) -> Option<
    (Seq<SinkEvent>, WalkState),
>
    decreases k,
{
    if k == 0 {
        Some((Seq::empty(), s))
    } else {
        match frame_walk(h, data, advance(h, s)) {
            None => None,
            Some((e, t)) => with_prefix(
                seq![SinkEvent::BeforeFrame((h.frames - k) as u32)] + e + seq![SinkEvent::AfterFrame],
                run_frames(h, data, t, (k - 1) as nat),
            ),
        }
    }
}

/// Result of walking every frame the header announces from `s`: `Ok(1)`
/// when each frame is walked to its end, `IoFailure` when a slot lies beyond
/// the data.
pub open spec fn walk_result(h: GlobalMetaData, data: Seq<u8>, s: WalkState) -> Result<i32, ParseError> {
    match run_frames(h, data, s, h.frames as nat) {
        Some(_) => Ok(1),
        None => Err(ParseError::IoFailure),
    }
}

/// Calls a sink receives from a conversion that walks every frame from `s`:
/// `Start`, the events of each frame, then `Done`.
pub open spec fn conversion_events(h: GlobalMetaData, data: Seq<u8>, s: WalkState) -> Seq<SinkEvent> {
    seq![SinkEvent::Start] + run_frames(h, data, s, h.frames as nat)->Some_0.0 + seq![SinkEvent::Done]
}

/// Hands the real atoms of the frame the parser stands at to `writer`, in
/// rank order, up to the sentinel of the last rank.
fn parse_frame<W: WriteProgress>(parser: &mut BinaryParserV2, writer: &mut W) -> (r: Result<(), ParseError>)
    requires
        old(parser).wf(),
    ensures
        final(parser).wf(),
        final(parser).global_header == old(parser).global_header,
        final(parser).data == old(parser).data,
        match frame_walk(old(parser).global_header, old(parser).data@, old(parser).walk_state()) {
            None => r == Err::<(), ParseError>(ParseError::IoFailure),
            Some((e, t)) => {
                &&& r == Ok::<(), ParseError>(())
                &&& final(parser).walk_state() == t
                &&& final(writer).events() == old(writer).events() + e
            },
        },
{
    let ghost h = parser.global_header;
    let ghost data = parser.data@;
    let ghost walk = frame_walk(h, data, parser.walk_state());
    let ghost mut logged: Seq<SinkEvent> = Seq::empty();
    assert(with_prefix(logged, walk) == walk) by {
        if let Some((e, t)) = walk {
            assert(logged + e =~= e);
        }
    }
    assert(writer.events() =~= old(writer).events() + logged);
    loop
        invariant
            parser.wf(),
            parser.global_header == h,
            parser.data@ == data,
            parser.data == old(parser).data,
            h == old(parser).global_header,
            data == old(parser).data@,
            walk == frame_walk(old(parser).global_header, old(parser).data@, old(parser).walk_state()),
            walk == with_prefix(logged, frame_walk(h, data, parser.walk_state())),
            writer.events() == old(writer).events() + logged,
        decreases h.mpi_ranks - parser.cur_rank, bytes_left(data, parser.walk_state()),
    {
        let ghost before = parser.walk_state();
        match parser.next_atom() {
            Err(e) => {
                assert(frame_walk(h, data, before) is None);
                return Err(e);
            },
            Ok(false) => {
                assert(frame_walk(h, data, before) == Some((Seq::<SinkEvent>::empty(), parser.walk_state())));
                assert(logged + Seq::<SinkEvent>::empty() =~= logged);
                return Ok(());
            },
            Ok(true) => {
                proof {
                    lemma_step_progresses(h, data, before);
                }
                let atom = parser.current_atom();
                let ghost ev = atom_events(atom);
                assert(frame_walk(h, data, before) == with_prefix(ev, frame_walk(h, data, parser.walk_state())));
                if atom.tp != END_OF_RANK {
                    writer.on_atom_read(&atom);
                }
                proof {
                    let w = frame_walk(h, data, parser.walk_state());
                    if let Some((e, t)) = w {
                        assert(logged + (ev + e) =~= (logged + ev) + e);
                    }
                    assert(writer.events() =~= old(writer).events() + (logged + ev));
                    logged = logged + ev;
                }
            },
        }
    }
}

/// Walks every frame the header announces and hands each real atom to
/// `writer`, framed by the sink's lifecycle calls: `on_start`, then per
/// frame `before_frame`, the real atoms in rank order and `after_frame`,
/// then `done`. `Ok(1)` when every frame is walked to its end, and the sink
/// has then received exactly those calls; `IoFailure` when a slot lies
/// beyond the data.
pub fn parse<W: WriteProgress>(output: &str, parser: BinaryParserV2, writer: &mut W) -> (r: Result<
    i32,
    ParseError,
>)
    requires
        parser.wf(),
    ensures
        r == walk_result(parser.global_header, parser.data@, parser.walk_state()),
        r is Ok ==> final(writer).events() == old(writer).events() + conversion_events(
            parser.global_header,
            parser.data@,
            parser.walk_state(),
        ),
{
    let ghost h = parser.global_header;
    let ghost data = parser.data@;
    let ghost s0 = parser.walk_state();
    let ghost outcome = run_frames(h, data, s0, h.frames as nat);
    let mut walker = parser;
    let frames: u32 = walker.frame_count();
    writer.on_start(output);
    let ghost mut logged: Seq<SinkEvent> = Seq::empty();
    assert(with_prefix(logged, outcome) == outcome) by {
        if let Some((e, t)) = outcome {
            assert(logged + e =~= e);
        }
    }
    assert(writer.events() =~= old(writer).events() + seq![SinkEvent::Start] + logged);
    let mut frame: u32 = 0;
    while frame < frames
        invariant
            walker.wf(),
            walker.global_header == h,
            walker.data@ == data,
            frames == h.frames,
            frame <= frames,
            with_prefix(logged, run_frames(h, data, walker.walk_state(), (frames - frame) as nat)) == outcome,
            outcome == run_frames(h, data, s0, h.frames as nat),
            h == parser.global_header,
            data == parser.data@,
            s0 == parser.walk_state(),
            writer.events() == old(writer).events() + seq![SinkEvent::Start] + logged,
        decreases frames - frame,
    {
        let ghost before = walker.walk_state();
        let ghost k = (frames - frame) as nat;
        walker.advance_frame();
        writer.before_frame(frame, output);
        let ghost started = walker.walk_state();
        let ghost mid = writer.events();
        match parse_frame(&mut walker, writer) {
            Err(e) => {
                assert(frame_walk(h, data, started) is None);
                assert(run_frames(h, data, before, k) is None);
                assert(outcome is None);
                return Err(e);
            },
            Ok(()) => {},
        }
        writer.after_frame();
        proof {
            let e = frame_walk(h, data, started)->Some_0.0;
            let pre = seq![SinkEvent::BeforeFrame(frame)] + e + seq![SinkEvent::AfterFrame];
            assert((h.frames - k) as u32 == frame);
            assert(run_frames(h, data, before, k) == with_prefix(
                pre,
                run_frames(h, data, walker.walk_state(), (k - 1) as nat),
            ));
            assert(writer.events() =~= old(writer).events() + seq![SinkEvent::Start] + (logged + pre));
            let rest = run_frames(h, data, walker.walk_state(), (k - 1) as nat);
            if let Some((e2, t2)) = rest {
                assert(logged + (pre + e2) =~= (logged + pre) + e2);
            }
            logged = logged + pre;
        }
        frame = frame + 1;
    }
    assert(run_frames(h, data, walker.walk_state(), 0) == Some((Seq::<SinkEvent>::empty(), walker.walk_state())));
    assert(logged + Seq::<SinkEvent>::empty() =~= logged);
    writer.done();
    assert(writer.events() =~= old(writer).events() + conversion_events(h, data, s0));
    Ok(1)
}

/// Converts the trajectory held by `data` in format `standard`, handing its
/// atoms to `writer`. Only the `Next` format is decoded here; the sink
/// receives no call when the format is not decoded or the header is not
/// usable, and otherwise the calls `parse` makes.
pub fn parse_wrapper<W: WriteProgress>(standard: FormatStandard, data: Vec<u8>, output: &str, writer: &mut W) -> (r:
    Result<i32, ParseError>)
    ensures
        standard == FormatStandard::Current ==> r == Err::<i32, ParseError>(ParseError::Unsupported)
            && final(writer).events() == old(writer).events(),
        standard == FormatStandard::Next && (data@.len() < GLOBAL_HEADER_BYTES || !header_ok(header_of(data@)))
            ==> r == Err::<i32, ParseError>(ParseError::BadHeader) && final(writer).events() == old(
            writer,
        ).events(),
        standard == FormatStandard::Next && data@.len() >= GLOBAL_HEADER_BYTES && header_ok(header_of(data@))
            ==> {
            &&& r == walk_result(header_of(data@), data@, start_state(data@))
            &&& r is Ok ==> final(writer).events() == old(writer).events() + conversion_events(
                header_of(data@),
                data@,
                start_state(data@),
            )
        },
{
    match standard {
        FormatStandard::Current => Err(ParseError::Unsupported),
        FormatStandard::Next => match make_parser(data) {
            Err(e) => Err(e),
            Ok(parser) => parse(output, parser, writer),
        },
    }
}

} // verus!
