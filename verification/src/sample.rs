//! The two payloads that travel through the pipeline.

use vstd::prelude::*;

verus! {

/// Which waveform a sample belongs to.
#[derive(Clone, Copy, Debug, PartialEq, Eq, Structural)]
pub enum SignalKind {
    Sine,
    Square,
}

/// One unfiltered sample, tagged with its waveform. The payload is the
/// binary32 pattern of the value.
#[derive(Clone, Copy, Debug, PartialEq, Eq, Structural)]
pub enum RawSample {
    Sine(u32),
    Square(u32),
}

/// One raw value together with its moving average, tagged with its waveform.
/// Both payloads are binary32 patterns, the raw value first.
#[derive(Clone, Copy, Debug, PartialEq, Eq, Structural)]
pub enum PublishedSample {
    Sine(u32, u32),
    Square(u32, u32),
}

impl RawSample {
    /// The waveform named by the tag.
    pub open spec fn spec_kind(&self) -> SignalKind {
        match *self {
            RawSample::Sine(_) => SignalKind::Sine,
            RawSample::Square(_) => SignalKind::Square,
        }
    }

    /// The pattern carried under the tag.
    pub open spec fn spec_value(&self) -> u32 {
        match *self {
            RawSample::Sine(v) => v,
            RawSample::Square(v) => v,
        }
    }

    /// Tags `value` with `kind`.
    pub fn new(kind: SignalKind, value: u32) -> (s: RawSample)
        ensures
            s.spec_kind() == kind,
            s.spec_value() == value,
    {
        match kind {
            SignalKind::Sine => RawSample::Sine(value),
            SignalKind::Square => RawSample::Square(value),
        }
    }

    #[verifier::when_used_as_spec(spec_kind)]
    pub fn kind(&self) -> (k: SignalKind)
        ensures
            k == self.spec_kind(),
    {
        match *self {
            RawSample::Sine(_) => SignalKind::Sine,
            RawSample::Square(_) => SignalKind::Square,
        }
    }

    #[verifier::when_used_as_spec(spec_value)]
    pub fn value(&self) -> (v: u32)
        ensures
            v == self.spec_value(),
    {
        match *self {
            RawSample::Sine(v) => v,
            RawSample::Square(v) => v,
        }
    }
}

impl PublishedSample {
    /// The waveform named by the tag.
    pub open spec fn spec_kind(&self) -> SignalKind {
        match *self {
            PublishedSample::Sine(_, _) => SignalKind::Sine,
            PublishedSample::Square(_, _) => SignalKind::Square,
        }
    }

    /// The pattern of the raw value.
    pub open spec fn spec_raw(&self) -> u32 {
        match *self {
            PublishedSample::Sine(r, _) => r,
            PublishedSample::Square(r, _) => r,
        }
    }

    /// The pattern of the filtered value.
    pub open spec fn spec_filtered(&self) -> u32 {
        match *self {
            PublishedSample::Sine(_, f) => f,
            PublishedSample::Square(_, f) => f,
        }
    }

    /// Pairs a raw sample with its moving average, keeping the tag.
    pub fn new(raw: RawSample, filtered: u32) -> (p: PublishedSample)
        ensures
            p.spec_kind() == raw.spec_kind(),
            p.spec_raw() == raw.spec_value(),
            p.spec_filtered() == filtered,
    {
        match raw {
            RawSample::Sine(v) => PublishedSample::Sine(v, filtered),
            RawSample::Square(v) => PublishedSample::Square(v, filtered),
        }
    }

    #[verifier::when_used_as_spec(spec_kind)]
    pub fn kind(&self) -> (k: SignalKind)
        ensures
            k == self.spec_kind(),
    {
        match *self {
            PublishedSample::Sine(_, _) => SignalKind::Sine,
            PublishedSample::Square(_, _) => SignalKind::Square,
        }
    }

    #[verifier::when_used_as_spec(spec_raw)]
    pub fn raw(&self) -> (v: u32)
        ensures
            v == self.spec_raw(),
    {
        match *self {
            PublishedSample::Sine(r, _) => r,
            PublishedSample::Square(r, _) => r,
        }
    }

    #[verifier::when_used_as_spec(spec_filtered)]
    pub fn filtered(&self) -> (v: u32)
        ensures
            v == self.spec_filtered(),
    {
        match *self {
            PublishedSample::Sine(_, f) => f,
            PublishedSample::Square(_, f) => f,
        }
    }
}

} // verus!
