//! The faucet's data model: caller identities, the process-wide state, and
//! the well-formedness invariant that every operation preserves.

use vstd::prelude::*;

verus! {

/// How many entries the bounded recent-claims log keeps.
pub const RECENT_CAP: usize = 10;

/// An opaque caller principal, held as its raw bytes. Two identities are the
/// same exactly when their bytes are equal.
pub struct Identity {
    pub bytes: Vec<u8>,
}

impl View for Identity {
    type V = Seq<u8>;

    open spec fn view(&self) -> Seq<u8> {
        self.bytes@
    }
}

impl Identity {
    pub fn new(bytes: Vec<u8>) -> (r: Identity)
        ensures
            r@ == bytes@,
    {
        Identity { bytes }
    }
}

impl Clone for Identity {
    fn clone(&self) -> (r: Identity)
        ensures
            r@ == self@,
    {
        let mut out: Vec<u8> = Vec::new();
        let mut i: usize = 0;
        while i < self.bytes.len()
            invariant
                i <= self.bytes.len(),
                out@ == self.bytes@.take(i as int),
            decreases self.bytes.len() - i,
        {
            out.push(self.bytes[i]);
            proof {
                assert(out@ =~= self.bytes@.take(i + 1));
            }
            i = i + 1;
        }
        proof {
            assert(out@ =~= self.bytes@);
        }
        Identity { bytes: out }
    }
}

/// Compares two identities byte for byte.
pub fn identity_eq(a: &Identity, b: &Identity) -> (r: bool)
    ensures
        r == (a@ == b@),
{
    if a.bytes.len() != b.bytes.len() {
        proof {
            assert(a@.len() != b@.len());
        }
        return false;
    }
    let mut i: usize = 0;
    while i < a.bytes.len()
        invariant
            i <= a.bytes.len(),
            a.bytes.len() == b.bytes.len(),
            forall|k: int| 0 <= k < i ==> a@[k] == b@[k],
        decreases a.bytes.len() - i,
    {
        if a.bytes[i] != b.bytes[i] {
            return false;
        }
        i = i + 1;
    }
    proof {
        assert(a@ =~= b@);
    }
    true
}

/// The views of a sequence of identities.
pub open spec fn seq_ids(s: Seq<Identity>) -> Seq<Seq<u8>> {
    s.map_values(|x: Identity| x@)
}

/// The views of a sequence of (identity, amount) claim records.
pub open spec fn pair_views(s: Seq<(Identity, u64)>) -> Seq<(Seq<u8>, u64)> {
    s.map_values(|p: (Identity, u64)| (p.0@, p.1))
}

/// No identity occurs twice: the sequence models a set.
pub open spec fn distinct_ids(s: Seq<Seq<u8>>) -> bool {
    forall|i: int, j: int| 0 <= i < j < s.len() ==> s[i] != s[j]
}

/// The mathematical model of the faucet state.
#[verifier::ext_equal]
pub ghost struct StateView {
    pub admins: Seq<Seq<u8>>,
    pub enabled: bool,
    pub code: Seq<u8>,
    pub amount: u64,
    pub claimed: Seq<Seq<u8>>,
    pub recent: Seq<(Seq<u8>, u64)>,
    pub total: Seq<(Seq<u8>, u64)>,
}

/// The bounded recent log always holds exactly the newest entries of the full
/// audit trail: the last `total.len()` entries when fewer than the cap exist,
/// and the last `RECENT_CAP` otherwise.
pub open spec fn logs_ok(v: StateView) -> bool {
    &&& v.recent.len() == if v.total.len() <= RECENT_CAP { v.total.len() as int } else {
        RECENT_CAP as int
    }
    &&& v.recent == v.total.skip(v.total.len() - v.recent.len())
}

/// Well-formedness: the admin set is a non-empty set, the claimed set is a
/// set, and the two logs agree as `logs_ok` says.
pub open spec fn view_wf(v: StateView) -> bool {
    &&& distinct_ids(v.admins)
    &&& v.admins.len() >= 1
    &&& distinct_ids(v.claimed)
    &&& logs_ok(v)
}

/// The durable faucet state: configuration, eligibility set, and the two
/// activity logs.
pub struct FaucetState {
    /// Identities permitted to perform administrative mutations.
    pub admins: Vec<Identity>,
    /// Gates claim eligibility.
    pub enabled: bool,
    /// Shared secret required to claim, compared byte-exactly.
    pub code: Vec<u8>,
    /// Reward size recorded per claim.
    pub amount: u64,
    /// Every identity that has successfully claimed since the last reset.
    pub claimed: Vec<Identity>,
    /// The most recent claims, oldest first, at most `RECENT_CAP` entries.
    pub recent: Vec<(Identity, u64)>,
    /// The append-only full audit trail, oldest first.
    pub total: Vec<(Identity, u64)>,
}

impl View for FaucetState {
    type V = StateView;

    open spec fn view(&self) -> StateView {
        StateView {
            admins: seq_ids(self.admins@),
            enabled: self.enabled,
            code: self.code@,
            amount: self.amount,
            claimed: seq_ids(self.claimed@),
            recent: pair_views(self.recent@),
            total: pair_views(self.total@),
        }
    }
}

/// The state of a fresh deployment: the deploying identity is the only admin,
/// the faucet is disabled, the code is empty, the amount is zero, and no
/// claims exist.
pub open spec fn spec_init(seed_admin: Seq<u8>) -> StateView {
    StateView {
        admins: seq![seed_admin],
        enabled: false,
        code: Seq::empty(),
        amount: 0,
        claimed: Seq::empty(),
        recent: Seq::empty(),
        total: Seq::empty(),
    }
}

impl FaucetState {
    pub open spec fn wf(&self) -> bool {
        view_wf(self@)
    }

    /// Creates the state of a fresh deployment, seeded with one admin.
    pub fn init(seed_admin: Identity) -> (s: FaucetState)
        ensures
            s.wf(),
            s@ == spec_init(seed_admin@),
    {
        let s = FaucetState {
            admins: vec![seed_admin],
            enabled: false,
            code: Vec::new(),
            amount: 0,
            claimed: Vec::new(),
            recent: Vec::new(),
            total: Vec::new(),
        };
        proof {
            assert(s@ =~~= spec_init(s.admins@[0]@));
            assert(s@.recent =~= s@.total.skip(0));
        }
        s
    }
}

/// Mapping to views commutes with removing an element.
pub proof fn lemma_seq_ids_remove(s: Seq<Identity>, i: int)
    requires
        0 <= i < s.len(),
    ensures
        seq_ids(s.remove(i)) == seq_ids(s).remove(i),
{
    s.remove_ensures(i);
    seq_ids(s).remove_ensures(i);
    assert forall|k: int| 0 <= k < seq_ids(s.remove(i)).len() implies seq_ids(s.remove(i))[k]
        == seq_ids(s).remove(i)[k] by {
        if k < i {
            assert(s.remove(i)[k] == s[k]);
            assert(seq_ids(s).remove(i)[k] == seq_ids(s)[k]);
        } else {
            assert(s.remove(i)[k] == s[k + 1]);
            assert(seq_ids(s).remove(i)[k] == seq_ids(s)[k + 1]);
        }
    }
    assert(seq_ids(s.remove(i)) =~= seq_ids(s).remove(i));
}

/// Distinctness survives removing an element.
pub proof fn lemma_distinct_remove(s: Seq<Seq<u8>>, i: int)
    requires
        distinct_ids(s),
        0 <= i < s.len(),
    ensures
        distinct_ids(s.remove(i)),
{
    s.remove_ensures(i);
    assert forall|a: int, b: int| 0 <= a < b < s.remove(i).len() implies s.remove(i)[a] != s.remove(
        i,
    )[b] by {
        if a < i {
            assert(s.remove(i)[a] == s[a]);
        } else {
            assert(s.remove(i)[a] == s[a + 1]);
        }
        if b < i {
            assert(s.remove(i)[b] == s[b]);
        } else {
            assert(s.remove(i)[b] == s[b + 1]);
        }
    }
}

/// Whether no two identities in the vector have equal views.
pub fn ids_distinct(ids: &Vec<Identity>) -> (r: bool)
    ensures
        r == distinct_ids(seq_ids(ids@)),
{
    let ghost v = seq_ids(ids@);
    let mut i: usize = 0;
    while i < ids.len()
        invariant
            i <= ids.len(),
            v == seq_ids(ids@),
            forall|a: int, b: int| 0 <= a < b < v.len() && a < i ==> v[a] != v[b],
        decreases ids.len() - i,
    {
        let mut j: usize = i + 1;
        while j < ids.len()
            invariant
                i < ids.len(),
                i < j <= ids.len(),
                v == seq_ids(ids@),
                forall|a: int, b: int| 0 <= a < b < v.len() && a < i ==> v[a] != v[b],
                forall|b: int| i < b < j ==> v[i as int] != v[b],
            decreases ids.len() - j,
        {
            if identity_eq(&ids[i], &ids[j]) {
                proof {
                    assert(v[i as int] == v[j as int]);
                }
                return false;
            }
            j = j + 1;
        }
        i = i + 1;
    }
    true
}

impl FaucetState {
    /// Decides well-formedness, so that a state of unknown provenance (a
    /// restored snapshot, a hand-built value) can be checked before use.
    pub fn is_well_formed(&self) -> (r: bool)
        ensures
            r == self.wf(),
    {
        if self.admins.len() == 0 {
            return false;
        }
        if !ids_distinct(&self.admins) {
            return false;
        }
        if !ids_distinct(&self.claimed) {
            return false;
        }
        let rlen = self.recent.len();
        let tlen = self.total.len();
        let expected: usize = if tlen <= RECENT_CAP {
            tlen
        } else {
            RECENT_CAP
        };
        if rlen != expected {
            return false;
        }
        let off = tlen - rlen;
        let mut i: usize = 0;
        while i < rlen
            invariant
                i <= rlen,
                rlen == self.recent.len(),
                tlen == self.total.len(),
                rlen <= tlen,
                off == tlen - rlen,
                forall|k: int|
                    0 <= k < i ==> self@.recent[k] == self@.total.skip(off as int)[k],
            decreases rlen - i,
        {
            if !identity_eq(&self.recent[i].0, &self.total[off + i].0) {
                proof {
                    assert(self@.recent[i as int].0 != self@.total.skip(off as int)[i as int].0);
                    assert(self@.recent != self@.total.skip(
                        self@.total.len() - self@.recent.len(),
                    ));
                }
                return false;
            }
            if self.recent[i].1 != self.total[off + i].1 {
                proof {
                    assert(self@.recent[i as int].1 != self@.total.skip(off as int)[i as int].1);
                    assert(self@.recent != self@.total.skip(
                        self@.total.len() - self@.recent.len(),
                    ));
                }
                return false;
            }
            i = i + 1;
        }
        proof {
            assert(self@.recent =~= self@.total.skip(off as int));
        }
        true
    }
}

/// Membership of an identity among the views of a vector of identities.
pub fn contains_id(ids: &Vec<Identity>, id: &Identity) -> (r: bool)
    ensures
        r == seq_ids(ids@).contains(id@),
{
    let mut i: usize = 0;
    while i < ids.len()
        invariant
            i <= ids.len(),
            forall|k: int| 0 <= k < i ==> seq_ids(ids@)[k] != id@,
        decreases ids.len() - i,
    {
        if identity_eq(&ids[i], id) {
            proof {
                assert(seq_ids(ids@)[i as int] == id@);
            }
            return true;
        }
        i = i + 1;
    }
    false
}

} // verus!
