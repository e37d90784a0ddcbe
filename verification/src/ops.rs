//! The operations on the faucet state: the authorization gate, the
//! administrative mutations, the claim engine, and the read operations.
//!
//! Each operation is specified by a transition function on `StateView` pairs:
//! the first component is the operation's result, the second the state after
//! the call. The executable methods are proved to follow those transitions
//! exactly and to preserve well-formedness.

use vstd::prelude::*;

use crate::state::FaucetState;
use crate::state::Identity;
use crate::state::StateView;
use crate::state::RECENT_CAP;
use crate::state::contains_id;
use crate::state::identity_eq;
use crate::state::pair_views;
use crate::state::seq_ids;
use crate::state::view_wf;

verus! {

/// Why an operation was rejected. Every rejection leaves the state unchanged.
#[derive(Clone, Copy, Debug, PartialEq, Eq, Structural)]
pub enum FaucetError {
    /// The caller is not in the admin set but attempted an admin operation.
    Unauthorized,
    /// A claim was attempted while the faucet is disabled.
    FaucetDisabled,
    /// The submitted claim code does not equal the configured one.
    InvalidCode,
    /// The caller has already claimed since the last reset.
    AlreadyClaimed,
    /// Removing this admin would leave the admin set empty.
    LastAdmin,
}

/// The authorization gate: may this caller perform an administrative
/// mutation?
pub open spec fn gate_ok(s: StateView, caller: Seq<u8>) -> bool {
    s.admins.contains(caller)
}

/// Transition of `add_admin`: gated; inserts the identity into the admin set
/// (a no-op when it is already a member).
pub open spec fn spec_add_admin(s: StateView, caller: Seq<u8>, id: Seq<u8>) -> (Result<
    (),
    FaucetError,
>, StateView) {
    if !gate_ok(s, caller) {
        (Err(FaucetError::Unauthorized), s)
    } else if s.admins.contains(id) {
        (Ok(()), s)
    } else {
        (Ok(()), StateView { admins: s.admins.push(id), ..s })
    }
}

/// Transition of `remove_admin`: gated; removes the identity from the admin
/// set, except that the removal emptying the set is rejected.
pub open spec fn spec_remove_admin(s: StateView, caller: Seq<u8>, id: Seq<u8>) -> (Result<
    (),
    FaucetError,
>, StateView) {
    if !gate_ok(s, caller) {
        (Err(FaucetError::Unauthorized), s)
    } else if !s.admins.contains(id) {
        (Ok(()), s)
    } else if s.admins.len() == 1 {
        (Err(FaucetError::LastAdmin), s)
    } else {
        (Ok(()), StateView { admins: s.admins.remove(s.admins.index_of(id)), ..s })
    }
}

/// Transition of `toggle_faucet`: gated; sets the enabled flag.
pub open spec fn spec_toggle(s: StateView, caller: Seq<u8>, on: bool) -> (Result<
    (),
    FaucetError,
>, StateView) {
    if !gate_ok(s, caller) {
        (Err(FaucetError::Unauthorized), s)
    } else {
        (Ok(()), StateView { enabled: on, ..s })
    }
}

/// Transition of `set_claim_code`: gated; replaces the code unconditionally.
pub open spec fn spec_set_code(s: StateView, caller: Seq<u8>, code: Seq<u8>) -> (Result<
    (),
    FaucetError,
>, StateView) {
    if !gate_ok(s, caller) {
        (Err(FaucetError::Unauthorized), s)
    } else {
        (Ok(()), StateView { code: code, ..s })
    }
}

/// Transition of `set_claim_amount`: gated; replaces the amount
/// unconditionally.
pub open spec fn spec_set_amount(s: StateView, caller: Seq<u8>, amount: u64) -> (Result<
    (),
    FaucetError,
>, StateView) {
    if !gate_ok(s, caller) {
        (Err(FaucetError::Unauthorized), s)
    } else {
        (Ok(()), StateView { amount: amount, ..s })
    }
}

/// Transition of `reset_claimed_identities`: gated; clears the eligibility
/// set only — both activity logs are kept.
pub open spec fn spec_reset(s: StateView, caller: Seq<u8>) -> (Result<(), FaucetError>, StateView) {
    if !gate_ok(s, caller) {
        (Err(FaucetError::Unauthorized), s)
    } else {
        (Ok(()), StateView { claimed: Seq::empty(), ..s })
    }
}

/// Transition of `claim`. The three checks short-circuit in this order:
/// the faucet must be enabled, the code must match byte-exactly, and the
/// caller must not have claimed already. On success the caller joins the
/// claimed set and `(caller, amount)` is appended to both logs, the bounded
/// one evicting its oldest entry at the cap.
pub open spec fn spec_claim(s: StateView, caller: Seq<u8>, code: Seq<u8>) -> (Result<
    (),
    FaucetError,
>, StateView) {
    if !s.enabled {
        (Err(FaucetError::FaucetDisabled), s)
    } else if code != s.code {
        (Err(FaucetError::InvalidCode), s)
    } else if s.claimed.contains(caller) {
        (Err(FaucetError::AlreadyClaimed), s)
    } else {
        (Ok(()), StateView {
            claimed: s.claimed.push(caller),
            recent: if s.recent.len() < RECENT_CAP {
                s.recent.push((caller, s.amount))
            } else {
                s.recent.skip(1).push((caller, s.amount))
            },
            total: s.total.push((caller, s.amount)),
            ..s
        })
    }
}

/// A well-formed state stays well-formed across every claim attempt.
pub proof fn lemma_claim_preserves_wf(s: StateView, caller: Seq<u8>, code: Seq<u8>)
    requires
        view_wf(s),
    ensures
        view_wf(spec_claim(s, caller, code).1),
{
    let s2 = spec_claim(s, caller, code).1;
    if s.enabled && code == s.code && !s.claimed.contains(caller) {
        assert forall|i: int, j: int| 0 <= i < j < s2.claimed.len() implies s2.claimed[i]
            != s2.claimed[j] by {
            if j == s.claimed.len() {
                assert(s.claimed.contains(s.claimed[i]));
            }
        }
        let p = (caller, s.amount);
        if s.recent.len() < RECENT_CAP {
            assert(s.total.len() <= RECENT_CAP);
            assert(s2.recent =~= s2.total.skip(s2.total.len() - s2.recent.len()));
        } else {
            assert(s.recent.len() == RECENT_CAP);
            assert(s.total.len() >= RECENT_CAP);
            let off = s.total.len() - RECENT_CAP;
            assert forall|i: int| 0 <= i < RECENT_CAP implies s2.recent[i] == s2.total.skip(
                s2.total.len() - RECENT_CAP,
            )[i] by {
                if i < RECENT_CAP - 1 {
                    assert(s.recent[i + 1] == s.total.skip(off)[i + 1]);
                }
            }
            assert(s2.recent =~= s2.total.skip(s2.total.len() - s2.recent.len()));
        }
    }
}

/// Compares two byte strings for exact equality.
pub fn bytes_eq(a: &Vec<u8>, b: &Vec<u8>) -> (r: bool)
    ensures
        r == (a@ == b@),
{
    if a.len() != b.len() {
        return false;
    }
    let mut i: usize = 0;
    while i < a.len()
        invariant
            i <= a.len(),
            a.len() == b.len(),
            forall|k: int| 0 <= k < i ==> a@[k] == b@[k],
        decreases a.len() - i,
    {
        if a[i] != b[i] {
            return false;
        }
        i = i + 1;
    }
    proof {
        assert(a@ =~= b@);
    }
    true
}

impl FaucetState {
    /// The authorization gate: whether `caller` may perform administrative
    /// mutations. Read-only.
    pub fn is_authorized(&self, caller: &Identity) -> (r: bool)
        ensures
            r == gate_ok(self@, caller@),
    {
        contains_id(&self.admins, caller)
    }

    /// Inserts an identity into the admin set. Admin-only.
    pub fn add_admin(&mut self, caller: &Identity, id: Identity) -> (r: Result<(), FaucetError>)
        requires
            old(self).wf(),
        ensures
            final(self).wf(),
            r == spec_add_admin(old(self)@, caller@, id@).0,
            final(self)@ == spec_add_admin(old(self)@, caller@, id@).1,
    {
        if !contains_id(&self.admins, caller) {
            return Err(FaucetError::Unauthorized);
        }
        if !contains_id(&self.admins, &id) {
            self.admins.push(id);
            proof {
                assert(self@ =~~= spec_add_admin(old(self)@, caller@, self.admins@.last()@).1);
                assert forall|i: int, j: int| 0 <= i < j < self@.admins.len() implies self@.admins[i]
                    != self@.admins[j] by {
                    if j == self@.admins.len() - 1 {
                        assert(old(self)@.admins.contains(old(self)@.admins[i]));
                    }
                }
            }
        }
        Ok(())
    }

    /// Removes an identity from the admin set, unless that would empty it.
    /// Admin-only.
    pub fn remove_admin(&mut self, caller: &Identity, id: &Identity) -> (r: Result<(), FaucetError>)
        requires
            old(self).wf(),
        ensures
            final(self).wf(),
            r == spec_remove_admin(old(self)@, caller@, id@).0,
            final(self)@ == spec_remove_admin(old(self)@, caller@, id@).1,
    {
        if !contains_id(&self.admins, caller) {
            return Err(FaucetError::Unauthorized);
        }
        if !contains_id(&self.admins, id) {
            return Ok(());
        }
        if self.admins.len() == 1 {
            return Err(FaucetError::LastAdmin);
        }
        let ghost old_admins = self@.admins;
        let mut i: usize = 0;
        while i < self.admins.len()
            invariant
                self == old(self),
                old(self).wf(),
                gate_ok(old(self)@, caller@),
                i < self.admins.len(),
                self.admins.len() >= 2,
                seq_ids(self.admins@).contains(id@),
                forall|k: int| 0 <= k < i ==> seq_ids(self.admins@)[k] != id@,
            decreases self.admins.len() - i,
        {
            if identity_eq(&self.admins[i], id) {
                proof {
                    let s = old(self)@;
                    let idx = s.admins.index_of(id@);
                    assert(s.admins[i as int] == id@);
                    assert(0 <= idx < s.admins.len() && s.admins[idx] == id@);
                    assert(idx == i) by {
                        if idx != i {
                            let a = if idx < i { idx } else { i as int };
                            let b = if idx < i { i as int } else { idx };
                            assert(s.admins[a] != s.admins[b]);
                            assert(false);
                        }
                    }
                }
                let ghost pre = self.admins@;
                self.admins.remove(i);
                proof {
                    let s = old(self)@;
                    crate::state::lemma_seq_ids_remove(pre, i as int);
                    assert(self@.admins == s.admins.remove(i as int));
                    crate::state::lemma_distinct_remove(s.admins, i as int);
                    s.admins.remove_ensures(i as int);
                    assert(self@ =~~= spec_remove_admin(s, caller@, id@).1);
                }
                return Ok(());
            }
            i = i + 1;
        }
        proof {
            assert(!seq_ids(self.admins@).contains(id@));
        }
        Ok(())
    }

    /// Turns the faucet on or off. Admin-only.
    pub fn toggle_faucet(&mut self, caller: &Identity, on: bool) -> (r: Result<(), FaucetError>)
        requires
            old(self).wf(),
        ensures
            final(self).wf(),
            r == spec_toggle(old(self)@, caller@, on).0,
            final(self)@ == spec_toggle(old(self)@, caller@, on).1,
    {
        if !contains_id(&self.admins, caller) {
            return Err(FaucetError::Unauthorized);
        }
        self.enabled = on;
        proof {
            assert(self@ =~~= spec_toggle(old(self)@, caller@, on).1);
        }
        Ok(())
    }

    /// Replaces the claim code; any byte string, the empty one included, is
    /// accepted. Admin-only.
    pub fn set_claim_code(&mut self, caller: &Identity, code: Vec<u8>) -> (r: Result<
        (),
        FaucetError,
    >)
        requires
            old(self).wf(),
        ensures
            final(self).wf(),
            r == spec_set_code(old(self)@, caller@, code@).0,
            final(self)@ == spec_set_code(old(self)@, caller@, code@).1,
    {
        if !contains_id(&self.admins, caller) {
            return Err(FaucetError::Unauthorized);
        }
        self.code = code;
        proof {
            assert(self@ =~~= spec_set_code(old(self)@, caller@, self.code@).1);
        }
        Ok(())
    }

    /// Replaces the claim amount; zero and any other value are accepted.
    /// Admin-only.
    pub fn set_claim_amount(&mut self, caller: &Identity, amount: u64) -> (r: Result<
        (),
        FaucetError,
    >)
        requires
            old(self).wf(),
        ensures
            final(self).wf(),
            r == spec_set_amount(old(self)@, caller@, amount).0,
            final(self)@ == spec_set_amount(old(self)@, caller@, amount).1,
    {
        if !contains_id(&self.admins, caller) {
            return Err(FaucetError::Unauthorized);
        }
        self.amount = amount;
        proof {
            assert(self@ =~~= spec_set_amount(old(self)@, caller@, amount).1);
        }
        Ok(())
    }

    /// Clears the eligibility set so every identity may claim again; the two
    /// activity logs are untouched. Admin-only.
    pub fn reset_claimed_identities(&mut self, caller: &Identity) -> (r: Result<(), FaucetError>)
        requires
            old(self).wf(),
        ensures
            final(self).wf(),
            r == spec_reset(old(self)@, caller@).0,
            final(self)@ == spec_reset(old(self)@, caller@).1,
    {
        if !contains_id(&self.admins, caller) {
            return Err(FaucetError::Unauthorized);
        }
        self.claimed.clear();
        proof {
            assert(self@ =~~= spec_reset(old(self)@, caller@).1);
        }
        Ok(())
    }

    /// Validates and executes a claim request, as `spec_claim` says.
    pub fn claim(&mut self, caller: &Identity, code: &Vec<u8>) -> (r: Result<(), FaucetError>)
        requires
            old(self).wf(),
        ensures
            final(self).wf(),
            r == spec_claim(old(self)@, caller@, code@).0,
            final(self)@ == spec_claim(old(self)@, caller@, code@).1,
    {
        if !self.enabled {
            return Err(FaucetError::FaucetDisabled);
        }
        if !bytes_eq(code, &self.code) {
            return Err(FaucetError::InvalidCode);
        }
        if contains_id(&self.claimed, caller) {
            return Err(FaucetError::AlreadyClaimed);
        }
        proof {
            lemma_claim_preserves_wf(old(self)@, caller@, code@);
        }
        let amount = self.amount;
        self.claimed.push(caller.clone());
        if self.recent.len() == RECENT_CAP {
            self.recent.remove(0);
        }
        self.recent.push((caller.clone(), amount));
        self.total.push((caller.clone(), amount));
        proof {
            let s = old(self)@;
            let s2 = spec_claim(s, caller@, code@).1;
            assert(self@.claimed =~= s2.claimed);
            assert(self@.total =~= s2.total);
            assert(self@.recent =~= s2.recent);
            assert(self@ =~~= s2);
        }
        Ok(())
    }

    /// A snapshot copy of the bounded recent-claims log, oldest first.
    pub fn get_recent_claims(&self) -> (r: Vec<(Identity, u64)>)
        ensures
            pair_views(r@) == self@.recent,
    {
        copy_pairs(&self.recent)
    }

    /// A snapshot copy of the full audit trail, oldest first.
    pub fn get_total_claims(&self) -> (r: Vec<(Identity, u64)>)
        ensures
            pair_views(r@) == self@.total,
    {
        copy_pairs(&self.total)
    }
}

/// Copies a log of (identity, amount) records.
fn copy_pairs(src: &Vec<(Identity, u64)>) -> (r: Vec<(Identity, u64)>)
    ensures
        pair_views(r@) == pair_views(src@),
{
    let mut out: Vec<(Identity, u64)> = Vec::new();
    let mut i: usize = 0;
    while i < src.len()
        invariant
            i <= src.len(),
            out@.len() == i as int,
            forall|k: int|
                0 <= k < i ==> #[trigger] out@[k].0@ == src@[k].0@ && out@[k].1 == src@[k].1,
        decreases src.len() - i,
    {
        out.push((src[i].0.clone(), src[i].1));
        i = i + 1;
    }
    proof {
        assert forall|k: int| 0 <= k < out@.len() implies pair_views(out@)[k] == pair_views(
            src@,
        )[k] by {
            assert(out@[k].0@ == src@[k].0@);
        }
        assert(pair_views(out@) =~= pair_views(src@));
    }
    out
}

} // verus!
