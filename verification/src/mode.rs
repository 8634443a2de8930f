use vstd::prelude::*;

verus! {

/// What happens with the chosen directory when the navigator exits.
#[derive(Debug, Clone, Copy, PartialEq, Eq, Structural)]
pub enum AppMode {
    Cd,
    Open,
    Code,
}

/// The mode that follows `m` in the cycle Cd -> Open -> Code -> Cd.
pub open spec fn next_mode(m: AppMode) -> AppMode {
    match m {
        AppMode::Cd => AppMode::Open,
        AppMode::Open => AppMode::Code,
        AppMode::Code => AppMode::Cd,
    }
}

impl AppMode {
    /// The label shown next to the selected entry.
    pub fn suffix(&self) -> (s: &'static str)
        ensures
            *self == AppMode::Cd ==> s@ == "_CD"@,
            *self == AppMode::Open ==> s@ == "_OPEN"@,
            *self == AppMode::Code ==> s@ == "_CODE"@,
    {
        match self {
            AppMode::Cd => "_CD",
            AppMode::Open => "_OPEN",
            AppMode::Code => "_CODE",
        }
    }

    /// Advances to the next mode of the cycle.
    pub fn toggle(&mut self)
        ensures
            *final(self) == next_mode(*old(self)),
    {
        *self = match self {
            AppMode::Cd => AppMode::Open,
            AppMode::Open => AppMode::Code,
            AppMode::Code => AppMode::Cd,
        };
    }
}

/// Toggling the mode three times brings back the mode one started with.
pub proof fn lemma_toggle_cycles(m: AppMode)
    ensures
        next_mode(next_mode(next_mode(m))) == m,
        next_mode(m) != m,
{
}

} // verus!
