//! Identifiers of the ready-made scenarios, and the deterministic generator
//! that scatters the bodies of the random cluster.

use vstd::prelude::*;

verus! {

/// A ready-made simulation.
#[derive(Debug, Clone, Copy, PartialEq, Eq, Structural)]
pub enum Preset {
    SolarSystem,
    Binary,
    FigureEight,
    RandomCluster,
}

impl Preset {
    /// Every preset, in the order of the number keys that select them.
    pub const ALL: [Preset; 4] = [Preset::SolarSystem, Preset::Binary, Preset::FigureEight, Preset::RandomCluster];

    /// The label shown by the frontends.
    pub open spec fn spec_label(self) -> Seq<char> {
        match self {
            Preset::SolarSystem => "Système solaire"@,
            Preset::Binary => "Étoile binaire + planète"@,
            Preset::FigureEight => "8 de chiffre (3 corps)"@,
            Preset::RandomCluster => "Amas aléatoire"@,
        }
    }

    pub fn label(self) -> (s: &'static str)
        ensures
            s@ == self.spec_label(),
    {
        match self {
            Preset::SolarSystem => "Système solaire",
            Preset::Binary => "Étoile binaire + planète",
            Preset::FigureEight => "8 de chiffre (3 corps)",
            Preset::RandomCluster => "Amas aléatoire",
        }
    }
}

/// Different presets have different labels.
pub proof fn lemma_preset_labels_distinct(a: Preset, b: Preset)
    requires
        a != b,
    ensures
        a.spec_label() != b.spec_label(),
{
    reveal_strlit("Système solaire");
    reveal_strlit("Étoile binaire + planète");
    reveal_strlit("8 de chiffre (3 corps)");
    reveal_strlit("Amas aléatoire");
    assert("Système solaire"@[0] != "Étoile binaire + planète"@[0]);
    assert("Système solaire"@[0] != "8 de chiffre (3 corps)"@[0]);
    assert("Système solaire"@[0] != "Amas aléatoire"@[0]);
    assert("Étoile binaire + planète"@[0] != "8 de chiffre (3 corps)"@[0]);
    assert("Étoile binaire + planète"@[0] != "Amas aléatoire"@[0]);
    assert("8 de chiffre (3 corps)"@[0] != "Amas aléatoire"@[0]);
}

/// The seed the random cluster always starts from, so that the preset is
/// the same on every run.
pub const CLUSTER_SEED: u64 = 0x1234_5678_9abc_def0;

/// One xorshift step (shifts 13, 7, 17) of the 64-bit generator state.
pub open spec fn xorshift(s: u64) -> u64 {
    let a = s ^ (s << 13u64);
    let b = a ^ (a >> 7u64);
    b ^ (b << 17u64)
}

/// The deterministic pseudo-random generator of the random cluster.
pub struct ClusterRng {
    pub state: u64,
}

impl ClusterRng {
    /// A generator in its fixed starting state.
    pub fn new() -> (r: ClusterRng)
        ensures
            r.state == CLUSTER_SEED,
    {
        ClusterRng { state: CLUSTER_SEED }
    }

    /// Advances the state by one xorshift step and returns its high 32 bits.
    pub fn next_u32(&mut self) -> (v: u32)
        ensures
            final(self).state == xorshift(old(self).state),
            v == (final(self).state >> 32u64) as u32,
    {
        let mut s = self.state;
        s = s ^ (s << 13u64);
        s = s ^ (s >> 7u64);
        s = s ^ (s << 17u64);
        self.state = s;
        (s >> 32u64) as u32
    }
}

/// A xorshift step never maps a non-zero state to zero: the generator never
/// gets stuck.
pub proof fn lemma_xorshift_nonzero(s: u64)
    requires
        s != 0,
    ensures
        xorshift(s) != 0,
{
    let a = s ^ (s << 13u64);
    let b = a ^ (a >> 7u64);
    assert(s != 0 ==> s ^ (s << 13u64) != 0) by (bit_vector);
    assert(a != 0 ==> a ^ (a >> 7u64) != 0) by (bit_vector);
    assert(b != 0 ==> b ^ (b << 17u64) != 0) by (bit_vector);
}

} // verus!
