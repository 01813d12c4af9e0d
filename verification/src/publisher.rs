//! The output stage: one header line, then one line per published sample.
//!
//! A line is `<KIND>;<raw>;<filtered>` closed by a carriage return and a line
//! feed, both numbers with seven fractional digits. The stage itself is a
//! state machine: it is told what happened on the serial link and answers
//! with what to do next.

use vstd::prelude::*;
use crate::decimal::{fixed7_text, format_fixed7};
use crate::sample::{PublishedSample, SignalKind};

verus! {

/// The length that no line exceeds: the longer label, two numbers of full
/// width, two semicolons and the line end.
pub const LINE_CAPACITY: usize = 106;

/// `SIG;DIRTY;CLEAN` and the line end.
pub open spec fn header_text() -> Seq<u8> {
    seq![
        'S' as u8,
        'I' as u8,
        'G' as u8,
        ';' as u8,
        'D' as u8,
        'I' as u8,
        'R' as u8,
        'T' as u8,
        'Y' as u8,
        ';' as u8,
        'C' as u8,
        'L' as u8,
        'E' as u8,
        'A' as u8,
        'N' as u8,
        '\r' as u8,
        '\n' as u8,
    ]
}

/// `SINE` or `SQUARE`.
pub open spec fn label(kind: SignalKind) -> Seq<u8> {
    match kind {
        SignalKind::Sine => seq!['S' as u8, 'I' as u8, 'N' as u8, 'E' as u8],
        SignalKind::Square => seq![
            'S' as u8,
            'Q' as u8,
            'U' as u8,
            'A' as u8,
            'R' as u8,
            'E' as u8,
        ],
    }
}

/// The line of one published sample.
pub open spec fn line_text(sample: PublishedSample) -> Seq<u8> {
    label(sample.spec_kind()) + seq![';' as u8] + fixed7_text(sample.spec_raw()) + seq![';' as u8]
        + fixed7_text(sample.spec_filtered()) + seq!['\r' as u8, '\n' as u8]
}

/// The lines of a run of samples, one after the other.
pub open spec fn lines_text(samples: Seq<PublishedSample>) -> Seq<u8>
    decreases samples.len(),
{
    if samples.len() == 0 {
        Seq::empty()
    } else {
        lines_text(samples.drop_last()) + line_text(samples.last())
    }
}

/// Builds the header line.
pub fn header_line() -> (text: Vec<u8>)
    ensures
        text@ == header_text(),
{
    let mut out: Vec<u8> = Vec::new();
    out.push(83);
    out.push(73);
    out.push(71);
    out.push(59);
    out.push(68);
    out.push(73);
    out.push(82);
    out.push(84);
    out.push(89);
    out.push(59);
    out.push(67);
    out.push(76);
    out.push(69);
    out.push(65);
    out.push(78);
    out.push(13);
    out.push(10);
    proof {
        assert(out@ =~= header_text());
    }
    out
}

/// Builds the line of one published sample.
pub fn sample_line(sample: PublishedSample) -> (text: Vec<u8>)
    ensures
        text@ == line_text(sample),
        text@.len() <= LINE_CAPACITY,
{
    let mut out: Vec<u8> = Vec::new();
    match sample.kind() {
        SignalKind::Sine => {
            out.push(83);
            out.push(73);
            out.push(78);
            out.push(69);
        },
        SignalKind::Square => {
            out.push(83);
            out.push(81);
            out.push(85);
            out.push(65);
            out.push(82);
            out.push(69);
        },
    }
    proof {
        assert(out@ =~= label(sample.spec_kind()));
    }
    out.push(59);
    let mut raw = format_fixed7(sample.raw());
    out.append(&mut raw);
    out.push(59);
    let mut filtered = format_fixed7(sample.filtered());
    out.append(&mut filtered);
    out.push(13);
    out.push(10);
    proof {
        assert(out@ =~= line_text(sample));
    }
    out
}

/// Where the output stage stands.
#[derive(Clone, Copy, Debug, PartialEq, Eq, Structural)]
pub enum PublisherPhase {
    /// Nothing has been written yet.
    Unstarted,
    /// The header is on its way to the serial link.
    WritingHeader,
    /// The last write is done; the next sample is awaited.
    AwaitingSample,
    /// A sample's line is on its way to the serial link.
    WritingLine,
    /// A write failed, or an event came out of turn. Nothing more is written.
    Halted,
}

/// What the task that drives the stage reports to it.
#[derive(Clone, Copy, Debug, PartialEq, Eq, Structural)]
pub enum PublisherEvent {
    /// The task has started.
    Started,
    /// A sample was received from the publish channel.
    Sample(PublishedSample),
    /// The serial link took the bytes of the last `Write`.
    Written,
    /// The serial link refused the bytes of the last `Write`.
    WriteFailed,
}

/// What the stage asks of the task that drives it.
#[derive(Debug)]
pub enum PublisherAction {
    /// Write these bytes to the serial link and report how it went.
    Write(Vec<u8>),
    /// Receive the next sample from the publish channel and report it.
    Receive,
    /// Stop: the stage has halted.
    Halt,
}

/// An action with the bytes as a sequence.
pub enum ActionModel {
    Write(Seq<u8>),
    Receive,
    Halt,
}

impl PublisherAction {
    pub open spec fn model(&self) -> ActionModel {
        match *self {
            PublisherAction::Write(bytes) => ActionModel::Write(bytes@),
            PublisherAction::Receive => ActionModel::Receive,
            PublisherAction::Halt => ActionModel::Halt,
        }
    }
}

/// The phase that follows an event.
pub open spec fn next_phase(phase: PublisherPhase, event: PublisherEvent) -> PublisherPhase {
    match (phase, event) {
        (PublisherPhase::Unstarted, PublisherEvent::Started) => PublisherPhase::WritingHeader,
        (PublisherPhase::WritingHeader, PublisherEvent::Written) => PublisherPhase::AwaitingSample,
        (PublisherPhase::AwaitingSample, PublisherEvent::Sample(_)) => PublisherPhase::WritingLine,
        (PublisherPhase::WritingLine, PublisherEvent::Written) => PublisherPhase::AwaitingSample,
        _ => PublisherPhase::Halted,
    }
}

/// The action that answers an event.
pub open spec fn next_action(phase: PublisherPhase, event: PublisherEvent) -> ActionModel {
    match (phase, event) {
        (PublisherPhase::Unstarted, PublisherEvent::Started) => ActionModel::Write(header_text()),
        (PublisherPhase::WritingHeader, PublisherEvent::Written) => ActionModel::Receive,
        (PublisherPhase::AwaitingSample, PublisherEvent::Sample(s)) => ActionModel::Write(
            line_text(s),
        ),
        (PublisherPhase::WritingLine, PublisherEvent::Written) => ActionModel::Receive,
        _ => ActionModel::Halt,
    }
}

/// The output stage.
pub struct Publisher {
    phase: PublisherPhase,
}

impl Publisher {
    pub closed spec fn spec_phase(&self) -> PublisherPhase {
        self.phase
    }

    /// A stage that has written nothing.
    pub fn new() -> (p: Publisher)
        ensures
            p.spec_phase() == PublisherPhase::Unstarted,
    {
        Publisher { phase: PublisherPhase::Unstarted }
    }

    #[verifier::when_used_as_spec(spec_phase)]
    pub fn phase(&self) -> (phase: PublisherPhase)
        ensures
            phase == self.spec_phase(),
    {
        self.phase
    }

    /// Takes one event and answers with the next action. A failed write, and
    /// any event that the current phase does not expect, halts the stage for
    /// good.
    pub fn step(&mut self, event: PublisherEvent) -> (action: PublisherAction)
        ensures
            final(self).spec_phase() == next_phase(old(self).spec_phase(), event),
            action.model() == next_action(old(self).spec_phase(), event),
    {
        match (self.phase, event) {
            (PublisherPhase::Unstarted, PublisherEvent::Started) => {
                self.phase = PublisherPhase::WritingHeader;
                PublisherAction::Write(header_line())
            },
            (PublisherPhase::WritingHeader, PublisherEvent::Written) => {
                self.phase = PublisherPhase::AwaitingSample;
                PublisherAction::Receive
            },
            (PublisherPhase::AwaitingSample, PublisherEvent::Sample(s)) => {
                self.phase = PublisherPhase::WritingLine;
                PublisherAction::Write(sample_line(s))
            },
            (PublisherPhase::WritingLine, PublisherEvent::Written) => {
                self.phase = PublisherPhase::AwaitingSample;
                PublisherAction::Receive
            },
            _ => {
                self.phase = PublisherPhase::Halted;
                PublisherAction::Halt
            },
        }
    }
}

/// The phase after a run of events, from a stage that has written nothing.
pub open spec fn phase_after(events: Seq<PublisherEvent>) -> PublisherPhase
    decreases events.len(),
{
    if events.len() == 0 {
        PublisherPhase::Unstarted
    } else {
        next_phase(phase_after(events.drop_last()), events.last())
    }
}

/// All the bytes that the stage asks to have written over a run of events.
pub open spec fn output_after(events: Seq<PublisherEvent>) -> Seq<u8>
    decreases events.len(),
{
    if events.len() == 0 {
        Seq::empty()
    } else {
        let before = output_after(events.drop_last());
        match next_action(phase_after(events.drop_last()), events.last()) {
            ActionModel::Write(bytes) => before + bytes,
            _ => before,
        }
    }
}

/// The events of a run in which every write succeeds and the samples arrive
/// one by one: the start, then for each write its success, and each sample
/// when it is asked for.
pub open spec fn smooth_run(samples: Seq<PublishedSample>) -> Seq<PublisherEvent>
    decreases samples.len(),
{
    if samples.len() == 0 {
        seq![PublisherEvent::Started, PublisherEvent::Written]
    } else {
        smooth_run(samples.drop_last()) + seq![
            PublisherEvent::Sample(samples.last()),
            PublisherEvent::Written,
        ]
    }
}

/// While every write succeeds, the serial link gets the header once and
/// then the line of every sample, once each and in the order of arrival; the
/// stage then waits for the next sample.
pub proof fn lemma_header_then_lines(samples: Seq<PublishedSample>)
    ensures
        phase_after(smooth_run(samples)) == PublisherPhase::AwaitingSample,
        output_after(smooth_run(samples)) == header_text() + lines_text(samples),
    decreases samples.len(),
{
    let run = smooth_run(samples);
    if samples.len() == 0 {
        let first = seq![PublisherEvent::Started];
        assert(run.drop_last() =~= first);
        let none = Seq::<PublisherEvent>::empty();
        assert(first.drop_last() =~= none);
        assert(phase_after(none) == PublisherPhase::Unstarted);
        assert(output_after(none) =~= Seq::<u8>::empty());
        assert(first.last() == PublisherEvent::Started);
        assert(phase_after(first) == PublisherPhase::WritingHeader);
        assert(output_after(first) =~= header_text());
        assert(output_after(run) =~= header_text() + lines_text(samples));
    } else {
        let before = smooth_run(samples.drop_last());
        lemma_header_then_lines(samples.drop_last());
        let asked = before.push(PublisherEvent::Sample(samples.last()));
        assert(run.drop_last() =~= asked);
        assert(run.last() == PublisherEvent::Written);
        assert(asked.drop_last() =~= before);
        assert(phase_after(asked) == PublisherPhase::WritingLine);
        assert(output_after(asked) == output_after(before) + line_text(samples.last()));
        assert(output_after(run) =~= header_text() + lines_text(samples));
    }
}

/// A halted stage stays halted and asks for nothing more to be written.
pub proof fn lemma_halt_is_final(event: PublisherEvent)
    ensures
        next_phase(PublisherPhase::Halted, event) == PublisherPhase::Halted,
        next_action(PublisherPhase::Halted, event) == ActionModel::Halt,
{
}

/// A failed write halts the stage, whatever it was writing.
pub proof fn lemma_failed_write_halts(phase: PublisherPhase)
    ensures
        next_phase(phase, PublisherEvent::WriteFailed) == PublisherPhase::Halted,
        next_action(phase, PublisherEvent::WriteFailed) == ActionModel::Halt,
{
}

} // verus!
