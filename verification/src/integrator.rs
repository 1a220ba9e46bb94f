//! Identifiers of the time integrators.

use vstd::prelude::*;

verus! {

/// Which numerical scheme advances the bodies.
#[derive(Debug, Clone, Copy, PartialEq, Eq, Structural)]
pub enum IntegratorKind {
    Euler,
    Verlet,
    Leapfrog,
}

impl IntegratorKind {
    /// Every integrator, in the order the frontends cycle through them.
    pub const ALL: [IntegratorKind; 3] = [
        IntegratorKind::Euler,
        IntegratorKind::Verlet,
        IntegratorKind::Leapfrog,
    ];

    /// The label shown by the frontends.
    pub open spec fn spec_label(self) -> Seq<char> {
        match self {
            IntegratorKind::Euler => "Euler (explicite)"@,
            IntegratorKind::Verlet => "Velocity Verlet"@,
            IntegratorKind::Leapfrog => "Leapfrog / Verlet kick-drift"@,
        }
    }

    pub fn label(self) -> (s: &'static str)
        ensures
            s@ == self.spec_label(),
    {
        match self {
            IntegratorKind::Euler => "Euler (explicite)",
            IntegratorKind::Verlet => "Velocity Verlet",
            IntegratorKind::Leapfrog => "Leapfrog / Verlet kick-drift",
        }
    }
}

/// Different integrators have different labels.
pub proof fn lemma_integrator_labels_distinct(a: IntegratorKind, b: IntegratorKind)
    requires
        a != b,
    ensures
        a.spec_label() != b.spec_label(),
{
    reveal_strlit("Euler (explicite)");
    reveal_strlit("Velocity Verlet");
    reveal_strlit("Leapfrog / Verlet kick-drift");
    assert("Euler (explicite)"@[0] != "Velocity Verlet"@[0]);
    assert("Euler (explicite)"@[0] != "Leapfrog / Verlet kick-drift"@[0]);
    assert("Velocity Verlet"@[0] != "Leapfrog / Verlet kick-drift"@[0]);
}

/// Explicit Euler: unstable over long periods, kept for comparison.
pub struct Euler;

/// Velocity Verlet: symplectic scheme, stable for N-body problems.
pub struct VelocityVerlet;

/// Kick-drift-kick leapfrog (equivalent to velocity Verlet).
pub struct Leapfrog;

} // verus!
