use vstd::prelude::*;

use crate::kinds::Sensitivity;

verus! {

impl Sensitivity {
    /// How restrictive the level is; `Public` is the least.
    pub open spec fn rank(self) -> int {
        match self {
            Sensitivity::Public => 0,
            Sensitivity::Personal => 1,
            Sensitivity::Private => 2,
            Sensitivity::Secret => 3,
            Sensitivity::Ephemeral => 4,
        }
    }

    /// The more restrictive of two levels.
    pub open spec fn stricter(self, other: Sensitivity) -> Sensitivity {
        if self.rank() >= other.rank() {
            self
        } else {
            other
        }
    }

    /// How restrictive the level is.
    pub fn restriction_rank(self) -> (r: u8)
        ensures
            r == self.rank(),
    {
        match self {
            Sensitivity::Public => 0,
            Sensitivity::Personal => 1,
            Sensitivity::Private => 2,
            Sensitivity::Secret => 3,
            Sensitivity::Ephemeral => 4,
        }
    }

    /// The more restrictive of two levels.
    pub fn most_restrictive(self, other: Sensitivity) -> (r: Sensitivity)
        ensures
            r == self.stricter(other),
    {
        if self.restriction_rank() >= other.restriction_rank() {
            self
        } else {
            other
        }
    }
}

/// Combining levels never falls below either of them, and order and repetition do not matter.
pub proof fn sensitivity_never_falls(a: Sensitivity, b: Sensitivity, c: Sensitivity)
    ensures
        a.stricter(b).rank() >= a.rank(),
        a.stricter(b).rank() >= b.rank(),
        a.stricter(b) == a || a.stricter(b) == b,
        a.stricter(b) == b.stricter(a),
        a.stricter(a) == a,
        a.stricter(b).stricter(c) == a.stricter(b.stricter(c)),
{
}

/// What a read may see of memories that must be kept closely.
pub open spec fn readable(level: Sensitivity, allow_private: bool, allow_secret: bool) -> bool {
    match level {
        Sensitivity::Public => true,
        Sensitivity::Personal => true,
        Sensitivity::Private => allow_private,
        Sensitivity::Secret => allow_secret,
        Sensitivity::Ephemeral => false,
    }
}

/// Whether a read with the given permissions may see the level.
pub(crate) fn may_read(level: Sensitivity, allow_private: bool, allow_secret: bool) -> (r: bool)
    ensures
        r == readable(level, allow_private, allow_secret),
{
    match level {
        Sensitivity::Secret => allow_secret,
        Sensitivity::Private => allow_private,
        Sensitivity::Ephemeral => false,
        Sensitivity::Public | Sensitivity::Personal => true,
    }
}

/// What may leave the machine.
#[derive(Debug, Clone, Copy)]
pub struct EgressPolicy {
    pub is_local_provider: bool,
    pub allow_personal_remote: bool,
}

impl EgressPolicy {
    /// Whether content of the level may be handed to the provider.
    pub open spec fn permits(self, level: Sensitivity) -> bool {
        match level {
            Sensitivity::Public => true,
            Sensitivity::Personal => self.is_local_provider || self.allow_personal_remote,
            Sensitivity::Private => self.is_local_provider,
            Sensitivity::Secret => self.is_local_provider,
            Sensitivity::Ephemeral => self.is_local_provider,
        }
    }

    /// Whether content of the level may be handed to the provider.
    pub fn allows(self, sensitivity: Sensitivity) -> (r: bool)
        ensures
            r == self.permits(sensitivity),
    {
        match sensitivity {
            Sensitivity::Ephemeral | Sensitivity::Secret => self.is_local_provider,
            Sensitivity::Private => self.is_local_provider,
            Sensitivity::Personal => self.is_local_provider || self.allow_personal_remote,
            Sensitivity::Public => true,
        }
    }
}

/// Nothing private, secret or ephemeral is handed to a remote provider.
pub proof fn closely_kept_stays_local(policy: EgressPolicy, level: Sensitivity)
    requires
        !policy.is_local_provider,
        level.rank() >= Sensitivity::Private.rank(),
    ensures
        !policy.permits(level),
{
}

/// Raising the sensitivity never opens a way out: what is permitted at a level is permitted at
/// every less restrictive one.
pub proof fn egress_narrows_with_sensitivity(policy: EgressPolicy, a: Sensitivity, b: Sensitivity)
    requires
        a.rank() <= b.rank(),
        policy.permits(b),
    ensures
        policy.permits(a),
{
}

/// The levels are strictly ordered, from public to ephemeral.
pub proof fn levels_are_ordered()
    ensures
        Sensitivity::Public.rank() < Sensitivity::Personal.rank(),
        Sensitivity::Personal.rank() < Sensitivity::Private.rank(),
        Sensitivity::Private.rank() < Sensitivity::Secret.rank(),
        Sensitivity::Secret.rank() < Sensitivity::Ephemeral.rank(),
{
}

/// A read sees what is public or personal, with permission what is private or secret, each by its
/// own permission, and nothing ephemeral.
pub proof fn reads_need_permission(level: Sensitivity, allow_private: bool, allow_secret: bool)
    ensures
        readable(level, allow_private, allow_secret) <==> level == Sensitivity::Public || level
            == Sensitivity::Personal || (level == Sensitivity::Private && allow_private) || (level
            == Sensitivity::Secret && allow_secret),
{
}

/// A local provider gets everything; a remote one gets what is public, and what is personal where
/// that is allowed.
pub proof fn egress_needs_permission(policy: EgressPolicy, level: Sensitivity)
    ensures
        policy.is_local_provider ==> policy.permits(level),
        !policy.is_local_provider ==> (policy.permits(level) <==> level == Sensitivity::Public || (
        level == Sensitivity::Personal && policy.allow_personal_remote)),
{
}

} // verus!
