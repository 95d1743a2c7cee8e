use vstd::prelude::*;

pub mod poseidon;

verus! {

/// A tweakable hash: hashing is bound to a public parameter and a tweak that
/// marks the position (tree node, chain step) the hash is used at.
pub trait TweakableHash {
    type Parameter;

    type Tweak;

    type Domain;

    /// What a usable parameter looks like.
    spec fn parameter_ok(parameter: &Self::Parameter) -> bool;

    /// What a usable block looks like.
    spec fn domain_ok(domain: Self::Domain) -> bool;

    /// Every block of a message is usable.
    spec fn domains_ok(message: Seq<Self::Domain>) -> bool;

    /// What the hash of a message is, on a parameter and a tweak.
    spec fn apply_ok(
        parameter: &Self::Parameter,
        tweak: &Self::Tweak,
        message: Seq<Self::Domain>,
        r: Self::Domain,
    ) -> bool;

    /// Sample a fresh parameter.
    fn rand_parameter<R: rand::Rng>(rng: &mut R) -> (r: Self::Parameter)
        ensures
            Self::parameter_ok(&r),
    ;

    /// Sample a fresh block.
    fn rand_domain<R: rand::Rng>(rng: &mut R) -> (r: Self::Domain)
        ensures
            Self::domain_ok(r),
    ;

    /// The tweak of a Merkle tree node.
    fn tree_tweak(level: u8, pos_in_level: u32) -> (r: Self::Tweak);

    /// The tweak of a hash-chain step.
    fn chain_tweak(epoch: u32, chain_index: u16, pos_in_chain: u16) -> (r: Self::Tweak);

    /// Hash a message of blocks under the parameter and the tweak.
    fn apply(parameter: &Self::Parameter, tweak: &Self::Tweak, message: &[Self::Domain]) -> (r:
        Self::Domain)
        requires
            Self::parameter_ok(parameter),
            Self::domains_ok(message@),
        ensures
            Self::domain_ok(r),
            Self::apply_ok(parameter, tweak, message@, r),
    ;
}

} // verus!
