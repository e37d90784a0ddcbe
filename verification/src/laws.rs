//! The library's laws: properties of the transition functions that go beyond
//! any single operation's contract, each proved here once and for all states.

use vstd::prelude::*;

use crate::ops::FaucetError;
use crate::ops::spec_add_admin;
use crate::ops::spec_claim;
use crate::ops::spec_remove_admin;
use crate::ops::spec_reset;
use crate::ops::spec_set_amount;
use crate::ops::spec_set_code;
use crate::ops::spec_toggle;
use crate::ops::lemma_claim_preserves_wf;
use crate::state::RECENT_CAP;
use crate::state::StateView;
use crate::state::distinct_ids;
use crate::state::view_wf;

verus! {

/// How often an identity occurs in a sequence of identities.
pub open spec fn id_count(ids: Seq<Seq<u8>>, x: Seq<u8>) -> nat
    decreases ids.len(),
{
    if ids.len() == 0 {
        0
    } else {
        (if ids.last() == x {
            1nat
        } else {
            0nat
        }) + id_count(ids.drop_last(), x)
    }
}

proof fn lemma_count_zero(ids: Seq<Seq<u8>>, x: Seq<u8>)
    requires
        !ids.contains(x),
    ensures
        id_count(ids, x) == 0,
    decreases ids.len(),
{
    if ids.len() > 0 {
        assert(ids.last() != x);
        assert(!ids.drop_last().contains(x)) by {
            if ids.drop_last().contains(x) {
                let i = choose|i: int|
                    0 <= i < ids.drop_last().len() && ids.drop_last()[i] == x;
                assert(ids[i] == x);
            }
        }
        lemma_count_zero(ids.drop_last(), x);
    }
}

proof fn lemma_count_one(ids: Seq<Seq<u8>>, x: Seq<u8>)
    requires
        distinct_ids(ids),
        ids.contains(x),
    ensures
        id_count(ids, x) == 1,
    decreases ids.len(),
{
    let head = ids.drop_last();
    assert(distinct_ids(head)) by {
        assert(forall|i: int| 0 <= i < head.len() ==> head[i] == ids[i]);
    }
    if ids.last() == x {
        assert(!head.contains(x)) by {
            if head.contains(x) {
                let i = choose|i: int| 0 <= i < head.len() && head[i] == x;
                assert(ids[i] == ids[ids.len() - 1]);
            }
        }
        lemma_count_zero(head, x);
    } else {
        let i = choose|i: int| 0 <= i < ids.len() && ids[i] == x;
        assert(i != ids.len() - 1);
        assert(head[i] == x);
        lemma_count_one(head, x);
    }
}

/// Uniqueness: once an identity has claimed, it is in the claimed set exactly
/// once, and every further claim attempt by it fails — with `AlreadyClaimed`
/// whenever the faucet is enabled and the code is right — changing nothing.
pub proof fn lemma_claim_uniqueness(s: StateView, x: Seq<u8>, code: Seq<u8>)
    requires
        view_wf(s),
        spec_claim(s, x, code).0 == Ok::<(), FaucetError>(()),
    ensures
        ({
            let s2 = spec_claim(s, x, code).1;
            &&& id_count(s2.claimed, x) == 1
            &&& forall|c2: Seq<u8>| (#[trigger] spec_claim(s2, x, c2)).0 != Ok::<(), FaucetError>(
                (),
            )
            &&& forall|c2: Seq<u8>|
                s2.enabled && c2 == s2.code ==> (#[trigger] spec_claim(s2, x, c2)).0 == Err::<
                    (),
                    FaucetError,
                >(FaucetError::AlreadyClaimed)
            &&& forall|c2: Seq<u8>| (#[trigger] spec_claim(s2, x, c2)).1 == s2
        }),
{
    let s2 = spec_claim(s, x, code).1;
    lemma_claim_preserves_wf(s, x, code);
    assert(s2.claimed == s.claimed.push(x));
    assert(s2.claimed.contains(x)) by {
        assert(s2.claimed.last() == x);
    }
    lemma_count_one(s2.claimed, x);
}

/// Gate correctness: a non-admin's attempt at any administrative operation
/// fails with `Unauthorized` and leaves the state unchanged.
pub proof fn lemma_gate_correctness(
    s: StateView,
    y: Seq<u8>,
    id: Seq<u8>,
    on: bool,
    code: Seq<u8>,
    amount: u64,
)
    requires
        !s.admins.contains(y),
    ensures
        spec_add_admin(s, y, id) == (Err::<(), FaucetError>(FaucetError::Unauthorized), s),
        spec_remove_admin(s, y, id) == (Err::<(), FaucetError>(FaucetError::Unauthorized), s),
        spec_toggle(s, y, on) == (Err::<(), FaucetError>(FaucetError::Unauthorized), s),
        spec_set_code(s, y, code) == (Err::<(), FaucetError>(FaucetError::Unauthorized), s),
        spec_set_amount(s, y, amount) == (Err::<(), FaucetError>(FaucetError::Unauthorized), s),
        spec_reset(s, y) == (Err::<(), FaucetError>(FaucetError::Unauthorized), s),
{
}

/// Disabled gate: while the faucet is off, every claim fails with
/// `FaucetDisabled`, whatever the code, and changes nothing.
pub proof fn lemma_disabled_gate(s: StateView, x: Seq<u8>, code: Seq<u8>)
    requires
        !s.enabled,
    ensures
        spec_claim(s, x, code).0 == Err::<(), FaucetError>(FaucetError::FaucetDisabled),
        spec_claim(s, x, code).1 == s,
{
}

/// Code exactness: with the faucet enabled, any code not byte-equal to the
/// configured one fails with `InvalidCode` and changes nothing, whoever asks.
pub proof fn lemma_code_exactness(s: StateView, x: Seq<u8>, code: Seq<u8>)
    requires
        s.enabled,
        code != s.code,
    ensures
        spec_claim(s, x, code).0 == Err::<(), FaucetError>(FaucetError::InvalidCode),
        spec_claim(s, x, code).1 == s,
{
}

/// Bounded recency: in any well-formed state with more claims than the cap,
/// the recent log holds exactly the cap's worth of entries — the newest ones
/// of the full trail, in the trail's order.
pub proof fn lemma_bounded_recency(s: StateView)
    requires
        view_wf(s),
        s.total.len() > RECENT_CAP,
    ensures
        s.recent.len() == RECENT_CAP,
        s.recent == s.total.skip(s.total.len() - RECENT_CAP as int),
{
}

/// Reset independence: after a reset, a previously claimed identity can claim
/// again, and the full trail keeps every earlier entry alongside the new one.
pub proof fn lemma_reset_independence(s: StateView, a: Seq<u8>, x: Seq<u8>)
    requires
        view_wf(s),
        s.admins.contains(a),
        s.enabled,
    ensures
        ({
            let s1 = spec_reset(s, a).1;
            &&& spec_claim(s1, x, s.code).0 == Ok::<(), FaucetError>(())
            &&& spec_claim(s1, x, s.code).1.total == s.total.push((x, s.amount))
            &&& forall|i: int|
                0 <= i < s.total.len() ==> #[trigger] spec_claim(s1, x, s.code).1.total[i]
                    == s.total[i]
        }),
{
    let s1 = spec_reset(s, a).1;
    assert(!s1.claimed.contains(x));
}

} // verus!
