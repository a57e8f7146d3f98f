//! Hardware acceleration strategies: which known computations a target can
//! run with dedicated instructions, chosen from the target triple.

use vstd::prelude::*;
use crate::text::chars_of;

verus! {

/// Computations the compiler knows how to accelerate on some hardware.
#[derive(Debug, Clone, Copy, PartialEq, Eq, Hash, Structural)]
pub enum KnownBehavior {
    /// The SHA-256 compression function.
    Sha256Compress,
    /// The SHA-256 message schedule expansion.
    Sha256MessageSchedule,
    /// One round of AES encryption.
    AesEncryptRound,
    /// Bit rotation to the right.
    RotateRight,
}

/// A hardware acceleration strategy.
pub trait HardwareIntrinsicPort {
    /// The name of the strategy as a sequence of characters.
    spec fn spec_name(&self) -> Seq<char>;

    /// Whether the strategy accelerates `behavior`.
    spec fn spec_supports(&self, behavior: KnownBehavior) -> bool;

    /// The target triple the strategy is designed for.
    spec fn spec_target_triple(&self) -> Seq<char>;

    /// The name of the strategy, for diagnostics.
    fn name(&self) -> (r: &str)
        ensures
            r@ == self.spec_name();

    /// Whether the strategy accelerates `behavior` on its target.
    fn supports(&self, behavior: &KnownBehavior) -> (r: bool)
        ensures
            r == self.spec_supports(*behavior);

    /// The target triple the strategy is designed for.
    fn target_triple(&self) -> (r: &str)
        ensures
            r@ == self.spec_target_triple();
}

/// The x86-64 strategy, with the SHA and AES instruction set extensions.
pub struct X86_64CryptoStrategy;

impl HardwareIntrinsicPort for X86_64CryptoStrategy {
    open spec fn spec_name(&self) -> Seq<char> {
        "x86_64-sha-ni"@
    }

    open spec fn spec_supports(&self, behavior: KnownBehavior) -> bool {
        behavior is Sha256Compress || behavior is Sha256MessageSchedule || behavior is AesEncryptRound
    }

    open spec fn spec_target_triple(&self) -> Seq<char> {
        "x86_64-unknown-linux-gnu"@
    }

    fn name(&self) -> (r: &str) {
        "x86_64-sha-ni"
    }

    fn supports(&self, behavior: &KnownBehavior) -> (r: bool) {
        match behavior {
            KnownBehavior::Sha256Compress | KnownBehavior::Sha256MessageSchedule | KnownBehavior::AesEncryptRound => true,
            _ => false,
        }
    }

    fn target_triple(&self) -> (r: &str) {
        "x86_64-unknown-linux-gnu"
    }
}

/// The AArch64 strategy, with the ARMv8 cryptography extensions.
pub struct Aarch64CryptoStrategy;

impl HardwareIntrinsicPort for Aarch64CryptoStrategy {
    open spec fn spec_name(&self) -> Seq<char> {
        "aarch64-crypto"@
    }

    open spec fn spec_supports(&self, behavior: KnownBehavior) -> bool {
        behavior is Sha256Compress || behavior is Sha256MessageSchedule
    }

    open spec fn spec_target_triple(&self) -> Seq<char> {
        "aarch64-unknown-linux-gnu"@
    }

    fn name(&self) -> (r: &str) {
        "aarch64-crypto"
    }

    fn supports(&self, behavior: &KnownBehavior) -> (r: bool) {
        match behavior {
            KnownBehavior::Sha256Compress | KnownBehavior::Sha256MessageSchedule => true,
            _ => false,
        }
    }

    fn target_triple(&self) -> (r: &str) {
        "aarch64-unknown-linux-gnu"
    }
}

/// The software strategy: nothing is accelerated.
pub struct SoftwareFallbackStrategy;

impl HardwareIntrinsicPort for SoftwareFallbackStrategy {
    open spec fn spec_name(&self) -> Seq<char> {
        "software-fallback"@
    }

    open spec fn spec_supports(&self, behavior: KnownBehavior) -> bool {
        false
    }

    open spec fn spec_target_triple(&self) -> Seq<char> {
        "any"@
    }

    fn name(&self) -> (r: &str) {
        "software-fallback"
    }

    fn supports(&self, behavior: &KnownBehavior) -> (r: bool) {
        false
    }

    fn target_triple(&self) -> (r: &str) {
        "any"
    }
}

/// Whether `p` is a prefix of `s`.
pub open spec fn has_prefix(s: Seq<char>, p: Seq<char>) -> bool {
    p.len() <= s.len() && s.subrange(0, p.len() as int) == p
}

/// Whether the characters of `s` begin with those of `p`.
pub fn starts_with(s: &str, p: &str) -> (r: bool)
    ensures
        r == has_prefix(s@, p@),
{
    let sc = chars_of(s);
    let pc = chars_of(p);
    if pc.len() > sc.len() {
        return false;
    }
    let mut i: usize = 0;
    while i < pc.len()
        invariant
            pc@ == p@,
            sc@ == s@,
            pc@.len() <= sc@.len(),
            i <= pc@.len(),
            forall|j: int| 0 <= j < i ==> sc@[j] == pc@[j],
        decreases pc.len() - i,
    {
        if sc[i] != pc[i] {
            assert(s@.subrange(0, p@.len() as int)[i as int] != p@[i as int]);
            return false;
        }
        i = i + 1;
    }
    assert(s@.subrange(0, p@.len() as int) =~= p@);
    true
}

/// The strategy for a target triple.
pub enum IntrinsicStrategy {
    X86_64(X86_64CryptoStrategy),
    Aarch64(Aarch64CryptoStrategy),
    Software(SoftwareFallbackStrategy),
}

/// Which strategy serves a target triple: the x86-64 one for triples that
/// begin with `x86_64` or `x86-64`, the AArch64 one for `aarch64` or
/// `arm64`, and the software one for any other.
pub open spec fn strategy_for(triple: Seq<char>) -> IntrinsicStrategy {
    if has_prefix(triple, "x86_64"@) || has_prefix(triple, "x86-64"@) {
        IntrinsicStrategy::X86_64(X86_64CryptoStrategy)
    } else if has_prefix(triple, "aarch64"@) || has_prefix(triple, "arm64"@) {
        IntrinsicStrategy::Aarch64(Aarch64CryptoStrategy)
    } else {
        IntrinsicStrategy::Software(SoftwareFallbackStrategy)
    }
}

impl HardwareIntrinsicPort for IntrinsicStrategy {
    open spec fn spec_name(&self) -> Seq<char> {
        match self {
            IntrinsicStrategy::X86_64(s) => s.spec_name(),
            IntrinsicStrategy::Aarch64(s) => s.spec_name(),
            IntrinsicStrategy::Software(s) => s.spec_name(),
        }
    }

    open spec fn spec_supports(&self, behavior: KnownBehavior) -> bool {
        match self {
            IntrinsicStrategy::X86_64(s) => s.spec_supports(behavior),
            IntrinsicStrategy::Aarch64(s) => s.spec_supports(behavior),
            IntrinsicStrategy::Software(s) => s.spec_supports(behavior),
        }
    }

    open spec fn spec_target_triple(&self) -> Seq<char> {
        match self {
            IntrinsicStrategy::X86_64(s) => s.spec_target_triple(),
            IntrinsicStrategy::Aarch64(s) => s.spec_target_triple(),
            IntrinsicStrategy::Software(s) => s.spec_target_triple(),
        }
    }

    fn name(&self) -> (r: &str) {
        match self {
            IntrinsicStrategy::X86_64(s) => s.name(),
            IntrinsicStrategy::Aarch64(s) => s.name(),
            IntrinsicStrategy::Software(s) => s.name(),
        }
    }

    fn supports(&self, behavior: &KnownBehavior) -> (r: bool) {
        match self {
            IntrinsicStrategy::X86_64(s) => s.supports(behavior),
            IntrinsicStrategy::Aarch64(s) => s.supports(behavior),
            IntrinsicStrategy::Software(s) => s.supports(behavior),
        }
    }

    fn target_triple(&self) -> (r: &str) {
        match self {
            IntrinsicStrategy::X86_64(s) => s.target_triple(),
            IntrinsicStrategy::Aarch64(s) => s.target_triple(),
            IntrinsicStrategy::Software(s) => s.target_triple(),
        }
    }
}

/// Chooses the acceleration strategy for a compilation target.
pub struct IntrinsicFactory;

impl IntrinsicFactory {
    /// The strategy for the target triple `target_triple`.
    pub fn create(target_triple: &str) -> (r: IntrinsicStrategy)
        ensures
            r == strategy_for(target_triple@),
    {
        if starts_with(target_triple, "x86_64") || starts_with(target_triple, "x86-64") {
            IntrinsicStrategy::X86_64(X86_64CryptoStrategy)
        } else if starts_with(target_triple, "aarch64") || starts_with(target_triple, "arm64") {
            IntrinsicStrategy::Aarch64(Aarch64CryptoStrategy)
        } else {
            IntrinsicStrategy::Software(SoftwareFallbackStrategy)
        }
    }
}

} // verus!
