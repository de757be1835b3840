use vstd::prelude::*;

verus! {

/// The flight phase of a single frame.
#[derive(Debug, Clone, Copy, PartialEq, Eq)]
pub enum Phase {
    OnGround,
    TakingOff,
    Ascent,
    Cruise,
    Descent,
    Landing,
}

/// The threshold comparisons on a frame's barometric altitude, ground speed
/// and vertical speed that the phase depends on. Each is a separate reading:
/// a reading that is not a number fails both `<` and `>=`.
#[derive(Debug, Clone, Copy, PartialEq, Eq)]
pub struct PhaseSignals {
    /// Barometric altitude below 2 m.
    pub on_ground: bool,
    /// Ground speed at least 3 m/s.
    pub moving: bool,
    /// Vertical speed above 0.8 m/s.
    pub climbing: bool,
    /// Vertical speed below -0.8 m/s.
    pub descending: bool,
    /// Barometric altitude below 20 m.
    pub below_20m: bool,
    /// Barometric altitude above 20 m.
    pub above_20m: bool,
    /// Barometric altitude below 140 m.
    pub below_cruise: bool,
    /// Barometric altitude at least 140 m.
    pub at_cruise: bool,
}

/// The phase named by the first rule that matches, in this order.
pub open spec fn phase_of(s: PhaseSignals) -> Phase {
    if s.on_ground && !s.moving {
        Phase::OnGround
    } else if s.on_ground && s.moving {
        Phase::TakingOff
    } else if s.below_20m && s.descending {
        Phase::Landing
    } else if !s.on_ground && s.climbing && s.below_cruise {
        Phase::Ascent
    } else if s.at_cruise && !s.climbing && !s.descending {
        Phase::Cruise
    } else if s.descending && s.above_20m {
        Phase::Descent
    } else if s.climbing {
        Phase::Ascent
    } else if !s.on_ground {
        Phase::Cruise
    } else {
        Phase::OnGround
    }
}

/// The display name of a phase.
pub open spec fn phase_name(p: Phase) -> Seq<char> {
    match p {
        Phase::OnGround => "On Ground"@,
        Phase::TakingOff => "Taking Off"@,
        Phase::Ascent => "Ascent"@,
        Phase::Cruise => "Cruise"@,
        Phase::Descent => "Descent"@,
        Phase::Landing => "Landing"@,
    }
}

/// Every frame is classified under one of the six phase names.
pub proof fn lemma_classification_total(s: PhaseSignals)
    ensures
        phase_name(phase_of(s)) == "On Ground"@ || phase_name(phase_of(s)) == "Taking Off"@
            || phase_name(phase_of(s)) == "Ascent"@ || phase_name(phase_of(s)) == "Cruise"@
            || phase_name(phase_of(s)) == "Descent"@ || phase_name(phase_of(s)) == "Landing"@,
{
}

/// Classifies a frame from its threshold comparisons.
pub fn classify_phase(s: &PhaseSignals) -> (r: Phase)
    ensures
        r == phase_of(*s),
{
    if s.on_ground && !s.moving {
        Phase::OnGround
    } else if s.on_ground && s.moving {
        Phase::TakingOff
    } else if s.below_20m && s.descending {
        Phase::Landing
    } else if !s.on_ground && s.climbing && s.below_cruise {
        Phase::Ascent
    } else if s.at_cruise && !s.climbing && !s.descending {
        Phase::Cruise
    } else if s.descending && s.above_20m {
        Phase::Descent
    } else if s.climbing {
        Phase::Ascent
    } else if !s.on_ground {
        Phase::Cruise
    } else {
        Phase::OnGround
    }
}

impl Phase {
    /// The display name of this phase.
    pub fn name(&self) -> (r: &'static str)
        ensures
            r@ == phase_name(*self),
    {
        match self {
            Phase::OnGround => "On Ground",
            Phase::TakingOff => "Taking Off",
            Phase::Ascent => "Ascent",
            Phase::Cruise => "Cruise",
            Phase::Descent => "Descent",
            Phase::Landing => "Landing",
        }
    }
}

} // verus!
