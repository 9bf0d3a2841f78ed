//! Names and default parameters of the synthetic benchmark datasets, and the
//! deterministic xorshift64* generator that drives them.

use vstd::prelude::*;
use crate::text::str_eq;

verus! {

/// A synthetic dataset generator and its size parameters.
#[derive(Debug, Clone, Copy, PartialEq, Eq, Structural)]
pub enum BuiltinDataset {
    /// Isotropic gaussian blobs, one cluster per label.
    Blobs { clusters: usize, points_per_cluster: usize, dims: usize },
    /// Two interleaved 3D spirals.
    Spirals { points_per_arm: usize },
    /// Swiss-roll manifold, labeled by angle quartile.
    SwissRoll { points: usize },
    /// Heated solid block: temperature field.
    ThermalSolid { points: usize },
    /// Cantilever beam: bending-stress field.
    StressBeam { points: usize },
    /// Channel flow past a cylinder: velocity-magnitude field.
    FluidCylinder { points: usize },
    /// Vibrating plate: mode-shape displacement field.
    ModalPlate { points: usize },
}

/// The registry name of a generator kind.
pub open spec fn builtin_name(k: BuiltinDataset) -> Seq<char> {
    match k {
        BuiltinDataset::Blobs { .. } => "blobs"@,
        BuiltinDataset::Spirals { .. } => "spirals"@,
        BuiltinDataset::SwissRoll { .. } => "swiss_roll"@,
        BuiltinDataset::ThermalSolid { .. } => "cae_thermal"@,
        BuiltinDataset::StressBeam { .. } => "cae_stress"@,
        BuiltinDataset::FluidCylinder { .. } => "cae_flow"@,
        BuiltinDataset::ModalPlate { .. } => "cae_modal"@,
    }
}

/// The generator registered under `name`, with its default parameters.
pub open spec fn default_for_name(name: Seq<char>) -> Option<BuiltinDataset> {
    if name == "blobs"@ {
        Some(BuiltinDataset::Blobs { clusters: 5, points_per_cluster: 400, dims: 8 })
    } else if name == "spirals"@ {
        Some(BuiltinDataset::Spirals { points_per_arm: 800 })
    } else if name == "swiss_roll"@ {
        Some(BuiltinDataset::SwissRoll { points: 1500 })
    } else if name == "cae_thermal"@ {
        Some(BuiltinDataset::ThermalSolid { points: 6000 })
    } else if name == "cae_stress"@ {
        Some(BuiltinDataset::StressBeam { points: 6000 })
    } else if name == "cae_flow"@ {
        Some(BuiltinDataset::FluidCylinder { points: 6000 })
    } else if name == "cae_modal"@ {
        Some(BuiltinDataset::ModalPlate { points: 6000 })
    } else {
        None
    }
}

impl BuiltinDataset {
    /// Synthetic ML benchmark generators.
    pub const ALL_NAMES: [&'static str; 3] = ["blobs", "spirals", "swiss_roll"];

    /// CAE / simulation field generators.
    pub const CAE_NAMES: [&'static str; 4] = ["cae_thermal", "cae_stress", "cae_flow", "cae_modal"];

    pub fn name(&self) -> (r: &'static str)
        ensures
            r@ == builtin_name(*self),
    {
        match self {
            BuiltinDataset::Blobs { .. } => "blobs",
            BuiltinDataset::Spirals { .. } => "spirals",
            BuiltinDataset::SwissRoll { .. } => "swiss_roll",
            BuiltinDataset::ThermalSolid { .. } => "cae_thermal",
            BuiltinDataset::StressBeam { .. } => "cae_stress",
            BuiltinDataset::FluidCylinder { .. } => "cae_flow",
            BuiltinDataset::ModalPlate { .. } => "cae_modal",
        }
    }

    pub fn default_of(name: &str) -> (r: Option<Self>)
        ensures
            r == default_for_name(name@),
    {
        if str_eq(name, "blobs") {
            Some(BuiltinDataset::Blobs { clusters: 5, points_per_cluster: 400, dims: 8 })
        } else if str_eq(name, "spirals") {
            Some(BuiltinDataset::Spirals { points_per_arm: 800 })
        } else if str_eq(name, "swiss_roll") {
            Some(BuiltinDataset::SwissRoll { points: 1500 })
        } else if str_eq(name, "cae_thermal") {
            Some(BuiltinDataset::ThermalSolid { points: 6000 })
        } else if str_eq(name, "cae_stress") {
            Some(BuiltinDataset::StressBeam { points: 6000 })
        } else if str_eq(name, "cae_flow") {
            Some(BuiltinDataset::FluidCylinder { points: 6000 })
        } else if str_eq(name, "cae_modal") {
            Some(BuiltinDataset::ModalPlate { points: 6000 })
        } else {
            None
        }
    }
}

/// Looking a generator's name up again gives a generator of the same kind.
pub proof fn lemma_name_round_trip(k: BuiltinDataset)
    ensures
        default_for_name(builtin_name(k)) is Some,
        builtin_name(default_for_name(builtin_name(k))->0) == builtin_name(k),
{
    reveal_strlit("blobs");
    reveal_strlit("spirals");
    reveal_strlit("swiss_roll");
    reveal_strlit("cae_thermal");
    reveal_strlit("cae_stress");
    reveal_strlit("cae_flow");
    reveal_strlit("cae_modal");
}

/// One xorshift64 state transition.
pub open spec fn xorshift(x: u64) -> u64 {
    let a = x ^ (x >> 12u64);
    let b = a ^ (a << 25u64);
    b ^ (b >> 27u64)
}

pub const RNG_MULTIPLIER: u64 = 0x2545F4914F6CDD1D;

/// Tiny deterministic PRNG (xorshift64*). Its state is never zero.
pub struct Rng(u64);

impl Rng {
    pub closed spec fn state(&self) -> u64 {
        self.0
    }

    #[verifier::type_invariant]
    spec fn nonzero(&self) -> bool {
        self.0 != 0
    }

    pub fn new(seed: u64) -> (r: Self)
        ensures
            r.state() == if seed == 0 { 1 } else { seed },
    {
        Rng(if seed < 1 { 1 } else { seed })
    }

    pub fn next_u64(&mut self) -> (r: u64)
        ensures
            final(self).state() == xorshift(old(self).state()),
            r == xorshift(old(self).state()).wrapping_mul(RNG_MULTIPLIER),
            r != 0,
    {
        proof {
            use_type_invariant(&*self);
        }
        let mut x = self.0;
        x ^= x >> 12u64;
        x ^= x << 25u64;
        x ^= x >> 27u64;
        let ghost s = self.0;
        assert(x == xorshift(s));
        proof {
            lemma_xorshift_nonzero(s);
        }
        self.0 = x;
        x.wrapping_mul(RNG_MULTIPLIER)
    }
}

/// A nonzero state never maps to zero, and neither does its scrambled output.
pub proof fn lemma_xorshift_nonzero(x: u64)
    requires
        x != 0,
    ensures
        xorshift(x) != 0,
        xorshift(x).wrapping_mul(RNG_MULTIPLIER) != 0,
{
    let a = x ^ (x >> 12u64);
    assert(a != 0) by (bit_vector)
        requires
            x != 0,
            a == x ^ (x >> 12u64),
    ;
    let b = a ^ (a << 25u64);
    assert(b != 0) by (bit_vector)
        requires
            a != 0,
            b == a ^ (a << 25u64),
    ;
    let c = b ^ (b >> 27u64);
    assert(c != 0) by (bit_vector)
        requires
            b != 0,
            c == b ^ (b >> 27u64),
    ;
    assert(c.wrapping_mul(0x2545F4914F6CDD1Du64) != 0) by (bit_vector)
        requires
            c != 0,
    ;
}

} // verus!
