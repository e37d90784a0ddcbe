//! The snapshot codec for the persistence lifecycle.
//!
//! A suspend serializes the whole state into one byte string; a resume parses
//! it back. The format is length-prefixed and little-endian: a `u64` is eight
//! bytes, a byte string is its length followed by its bytes, a list is its
//! element count followed by its encoded elements, and the state is its seven
//! fields in order with nothing after them. `lemma_decode_encode` is the
//! round-trip theorem: decoding an encoding yields the state it came from.

use vstd::prelude::*;

use crate::state::FaucetState;
use crate::state::Identity;
use crate::state::StateView;
use crate::state::pair_views;
use crate::state::seq_ids;

verus! {

/// A `u64` as eight little-endian bytes.
pub open spec fn enc_u64(v: u64) -> Seq<u8> {
    seq![
        (v & 0xff) as u8,
        ((v >> 8) & 0xff) as u8,
        ((v >> 16) & 0xff) as u8,
        ((v >> 24) & 0xff) as u8,
        ((v >> 32) & 0xff) as u8,
        ((v >> 40) & 0xff) as u8,
        ((v >> 48) & 0xff) as u8,
        ((v >> 56) & 0xff) as u8,
    ]
}

/// The `u64` held by the first eight bytes, little-endian.
#[verifier::opaque]
pub open spec fn dec_u64_at(b: Seq<u8>) -> u64 {
    (b[0] as u64) | ((b[1] as u64) << 8) | ((b[2] as u64) << 16) | ((b[3] as u64) << 24) | ((b[4]
        as u64) << 32) | ((b[5] as u64) << 40) | ((b[6] as u64) << 48) | ((b[7] as u64) << 56)
}

pub open spec fn dec_u64(b: Seq<u8>) -> Option<(u64, Seq<u8>)> {
    if b.len() >= 8 {
        Some((dec_u64_at(b), b.skip(8)))
    } else {
        None
    }
}

pub open spec fn enc_bool(x: bool) -> Seq<u8> {
    seq![if x { 1u8 } else { 0u8 }]
}

pub open spec fn dec_bool(b: Seq<u8>) -> Option<(bool, Seq<u8>)> {
    if b.len() >= 1 {
        if b[0] == 1 {
            Some((true, b.skip(1)))
        } else if b[0] == 0 {
            Some((false, b.skip(1)))
        } else {
            None
        }
    } else {
        None
    }
}

/// A byte string: its length, then its bytes.
pub open spec fn enc_bytes(x: Seq<u8>) -> Seq<u8> {
    enc_u64(x.len() as u64) + x
}

pub open spec fn dec_bytes(b: Seq<u8>) -> Option<(Seq<u8>, Seq<u8>)> {
    match dec_u64(b) {
        Some(p) => {
            if p.0 <= usize::MAX as u64 && p.1.len() >= p.0 {
                Some((p.1.take(p.0 as int), p.1.skip(p.0 as int)))
            } else {
                None
            }
        },
        None => None,
    }
}

/// The concatenated encodings of a list's elements.
pub open spec fn enc_id_items(ids: Seq<Seq<u8>>) -> Seq<u8>
    decreases ids.len(),
{
    if ids.len() == 0 {
        Seq::empty()
    } else {
        enc_bytes(ids[0]) + enc_id_items(ids.skip(1))
    }
}

/// A list of identities: its count, then its elements.
pub open spec fn enc_ids(ids: Seq<Seq<u8>>) -> Seq<u8> {
    enc_u64(ids.len() as u64) + enc_id_items(ids)
}

pub open spec fn dec_id_items(b: Seq<u8>, n: nat) -> Option<(Seq<Seq<u8>>, Seq<u8>)>
    decreases n,
{
    if n == 0 {
        Some((Seq::empty(), b))
    } else {
        match dec_bytes(b) {
            Some(p) => match dec_id_items(p.1, (n - 1) as nat) {
                Some(t) => Some((seq![p.0] + t.0, t.1)),
                None => None,
            },
            None => None,
        }
    }
}

pub open spec fn dec_ids(b: Seq<u8>) -> Option<(Seq<Seq<u8>>, Seq<u8>)> {
    match dec_u64(b) {
        Some(p) => {
            if p.0 <= usize::MAX as u64 {
                dec_id_items(p.1, p.0 as nat)
            } else {
                None
            }
        },
        None => None,
    }
}

/// A claim record: the identity's bytes, then the amount.
pub open spec fn enc_pair(p: (Seq<u8>, u64)) -> Seq<u8> {
    enc_bytes(p.0) + enc_u64(p.1)
}

pub open spec fn dec_pair(b: Seq<u8>) -> Option<((Seq<u8>, u64), Seq<u8>)> {
    match dec_bytes(b) {
        Some(p) => match dec_u64(p.1) {
            Some(q) => Some(((p.0, q.0), q.1)),
            None => None,
        },
        None => None,
    }
}

pub open spec fn enc_pair_items(ps: Seq<(Seq<u8>, u64)>) -> Seq<u8>
    decreases ps.len(),
{
    if ps.len() == 0 {
        Seq::empty()
    } else {
        enc_pair(ps[0]) + enc_pair_items(ps.skip(1))
    }
}

/// A list of claim records: its count, then its elements.
pub open spec fn enc_pairs(ps: Seq<(Seq<u8>, u64)>) -> Seq<u8> {
    enc_u64(ps.len() as u64) + enc_pair_items(ps)
}

pub open spec fn dec_pair_items(b: Seq<u8>, n: nat) -> Option<(Seq<(Seq<u8>, u64)>, Seq<u8>)>
    decreases n,
{
    if n == 0 {
        Some((Seq::empty(), b))
    } else {
        match dec_pair(b) {
            Some(p) => match dec_pair_items(p.1, (n - 1) as nat) {
                Some(t) => Some((seq![p.0] + t.0, t.1)),
                None => None,
            },
            None => None,
        }
    }
}

pub open spec fn dec_pairs(b: Seq<u8>) -> Option<(Seq<(Seq<u8>, u64)>, Seq<u8>)> {
    match dec_u64(b) {
        Some(p) => {
            if p.0 <= usize::MAX as u64 {
                dec_pair_items(p.1, p.0 as nat)
            } else {
                None
            }
        },
        None => None,
    }
}

/// The whole state: every field in order, nothing after them.
pub open spec fn spec_encode(v: StateView) -> Seq<u8> {
    enc_ids(v.admins) + enc_bool(v.enabled) + enc_bytes(v.code) + enc_u64(v.amount) + enc_ids(
        v.claimed,
    ) + enc_pairs(v.recent) + enc_pairs(v.total)
}

pub open spec fn spec_decode(b: Seq<u8>) -> Option<StateView> {
    match dec_ids(b) {
        Some(a) => match dec_bool(a.1) {
            Some(e) => match dec_bytes(e.1) {
                Some(c) => match dec_u64(c.1) {
                    Some(m) => match dec_ids(m.1) {
                        Some(cl) => match dec_pairs(cl.1) {
                            Some(re) => match dec_pairs(re.1) {
                                Some(to) => {
                                    if to.1.len() == 0 {
                                        Some(
                                            StateView {
                                                admins: a.0,
                                                enabled: e.0,
                                                code: c.0,
                                                amount: m.0,
                                                claimed: cl.0,
                                                recent: re.0,
                                                total: to.0,
                                            },
                                        )
                                    } else {
                                        None
                                    }
                                },
                                None => None,
                            },
                            None => None,
                        },
                        None => None,
                    },
                    None => None,
                },
                None => None,
            },
            None => None,
        },
        None => None,
    }
}

/// Lengths small enough that every count fits its eight-byte prefix.
pub open spec fn id_seq_ok(ids: Seq<Seq<u8>>) -> bool {
    &&& ids.len() <= usize::MAX
    &&& forall|i: int| 0 <= i < ids.len() ==> (#[trigger] ids[i]).len() <= usize::MAX
}

pub open spec fn pair_seq_ok(ps: Seq<(Seq<u8>, u64)>) -> bool {
    &&& ps.len() <= usize::MAX
    &&& forall|i: int| 0 <= i < ps.len() ==> (#[trigger] ps[i]).0.len() <= usize::MAX
}

/// Every state a vector-backed `FaucetState` can hold is encodable.
pub open spec fn encodable(v: StateView) -> bool {
    &&& id_seq_ok(v.admins)
    &&& v.code.len() <= usize::MAX
    &&& id_seq_ok(v.claimed)
    &&& pair_seq_ok(v.recent)
    &&& pair_seq_ok(v.total)
}

proof fn lemma_u64_roundtrip(v: u64)
    ensures
        dec_u64_at(enc_u64(v)) == v,
{
    reveal(dec_u64_at);
    assert((((v & 0xff) as u8) as u64) | ((((v >> 8) & 0xff) as u8) as u64) << 8 | ((((v >> 16)
        & 0xff) as u8) as u64) << 16 | ((((v >> 24) & 0xff) as u8) as u64) << 24 | ((((v >> 32)
        & 0xff) as u8) as u64) << 32 | ((((v >> 40) & 0xff) as u8) as u64) << 40 | ((((v >> 48)
        & 0xff) as u8) as u64) << 48 | ((((v >> 56) & 0xff) as u8) as u64) << 56 == v)
        by (bit_vector);
}

proof fn lemma_dec_u64(v: u64, rest: Seq<u8>)
    ensures
        dec_u64(enc_u64(v) + rest) == Some((v, rest)),
{
    let b = enc_u64(v) + rest;
    assert(b.len() >= 8);
    assert forall|i: int| 0 <= i < 8 implies b[i] == enc_u64(v)[i] by {}
    lemma_u64_roundtrip(v);
    assert(dec_u64_at(b) == dec_u64_at(enc_u64(v))) by {
        reveal(dec_u64_at);
    }
    assert(b.skip(8) =~= rest);
}

proof fn lemma_dec_bool(x: bool, rest: Seq<u8>)
    ensures
        dec_bool(enc_bool(x) + rest) == Some((x, rest)),
{
    let b = enc_bool(x) + rest;
    assert(b[0] == enc_bool(x)[0]);
    assert(b.skip(1) =~= rest);
}

proof fn lemma_dec_bytes(x: Seq<u8>, rest: Seq<u8>)
    requires
        x.len() <= usize::MAX,
    ensures
        dec_bytes(enc_bytes(x) + rest) == Some((x, rest)),
{
    let b = enc_bytes(x) + rest;
    assert(b =~= enc_u64(x.len() as u64) + (x + rest));
    lemma_dec_u64(x.len() as u64, x + rest);
    let n = x.len() as u64;
    assert(n as int == x.len());
    assert((x + rest).take(n as int) =~= x);
    assert((x + rest).skip(n as int) =~= rest);
}

#[verifier::rlimit(100)]
proof fn lemma_dec_id_items(ids: Seq<Seq<u8>>, rest: Seq<u8>)
    requires
        id_seq_ok(ids),
    ensures
        dec_id_items(enc_id_items(ids) + rest, ids.len()) == Some((ids, rest)),
    decreases ids.len(),
{
    if ids.len() == 0 {
        assert(enc_id_items(ids) == Seq::<u8>::empty());
        assert(enc_id_items(ids) + rest =~= rest);
        assert(dec_id_items(rest, 0) == Some((Seq::<Seq<u8>>::empty(), rest)));
        assert(Seq::<Seq<u8>>::empty() =~= ids);
    } else {
        let tail = ids.skip(1);
        let bts = enc_id_items(tail) + rest;
        let b = enc_id_items(ids) + rest;
        assert(enc_id_items(ids) == enc_bytes(ids[0]) + enc_id_items(tail));
        assert(b =~= enc_bytes(ids[0]) + bts);
        lemma_dec_bytes(ids[0], bts);
        assert(dec_bytes(b) == Some((ids[0], bts)));
        assert forall|i: int| 0 <= i < tail.len() implies (#[trigger] tail[i]).len()
            <= usize::MAX by {
            assert(tail[i] == ids[i + 1]);
        }
        lemma_dec_id_items(tail, rest);
        assert(dec_id_items(bts, tail.len()) == Some((tail, rest)));
        assert(tail.len() == (ids.len() - 1) as nat);
        assert(dec_id_items(b, ids.len()) == Some((seq![ids[0]] + tail, rest)));
        assert(seq![ids[0]] + tail =~= ids);
    }
}

proof fn lemma_dec_ids(ids: Seq<Seq<u8>>, rest: Seq<u8>)
    requires
        id_seq_ok(ids),
    ensures
        dec_ids(enc_ids(ids) + rest) == Some((ids, rest)),
{
    let b = enc_ids(ids) + rest;
    assert(b =~= enc_u64(ids.len() as u64) + (enc_id_items(ids) + rest));
    lemma_dec_u64(ids.len() as u64, enc_id_items(ids) + rest);
    assert((ids.len() as u64) as nat == ids.len());
    lemma_dec_id_items(ids, rest);
}

proof fn lemma_dec_pair(p: (Seq<u8>, u64), rest: Seq<u8>)
    requires
        p.0.len() <= usize::MAX,
    ensures
        dec_pair(enc_pair(p) + rest) == Some((p, rest)),
{
    let b = enc_pair(p) + rest;
    assert(b =~= enc_bytes(p.0) + (enc_u64(p.1) + rest));
    lemma_dec_bytes(p.0, enc_u64(p.1) + rest);
    lemma_dec_u64(p.1, rest);
}

#[verifier::rlimit(50)]
proof fn lemma_dec_pair_items(ps: Seq<(Seq<u8>, u64)>, rest: Seq<u8>)
    requires
        pair_seq_ok(ps),
    ensures
        dec_pair_items(enc_pair_items(ps) + rest, ps.len()) == Some((ps, rest)),
    decreases ps.len(),
{
    if ps.len() == 0 {
        assert(enc_pair_items(ps) == Seq::<u8>::empty());
        assert(enc_pair_items(ps) + rest =~= rest);
        assert(dec_pair_items(rest, 0) == Some((Seq::<(Seq<u8>, u64)>::empty(), rest)));
        assert(Seq::<(Seq<u8>, u64)>::empty() =~= ps);
    } else {
        let tail = ps.skip(1);
        let bts = enc_pair_items(tail) + rest;
        let b = enc_pair_items(ps) + rest;
        assert(enc_pair_items(ps) == enc_pair(ps[0]) + enc_pair_items(tail));
        assert(b =~= enc_pair(ps[0]) + bts);
        lemma_dec_pair(ps[0], bts);
        assert(dec_pair(b) == Some((ps[0], bts)));
        assert forall|i: int| 0 <= i < tail.len() implies (#[trigger] tail[i]).0.len()
            <= usize::MAX by {
            assert(tail[i] == ps[i + 1]);
        }
        lemma_dec_pair_items(tail, rest);
        assert(dec_pair_items(bts, tail.len()) == Some((tail, rest)));
        assert(tail.len() == (ps.len() - 1) as nat);
        assert(dec_pair_items(b, ps.len()) == Some((seq![ps[0]] + tail, rest)));
        assert(seq![ps[0]] + tail =~= ps);
    }
}

proof fn lemma_dec_pairs(ps: Seq<(Seq<u8>, u64)>, rest: Seq<u8>)
    requires
        pair_seq_ok(ps),
    ensures
        dec_pairs(enc_pairs(ps) + rest) == Some((ps, rest)),
{
    let b = enc_pairs(ps) + rest;
    assert(b =~= enc_u64(ps.len() as u64) + (enc_pair_items(ps) + rest));
    lemma_dec_u64(ps.len() as u64, enc_pair_items(ps) + rest);
    assert((ps.len() as u64) as nat == ps.len());
    lemma_dec_pair_items(ps, rest);
}

proof fn lemma_enc_id_items_push(s: Seq<Seq<u8>>, x: Seq<u8>)
    ensures
        enc_id_items(s.push(x)) == enc_id_items(s) + enc_bytes(x),
    decreases s.len(),
{
    if s.len() == 0 {
        assert(s.push(x).skip(1) =~= Seq::<Seq<u8>>::empty());
        assert(s.push(x)[0] == x);
        assert(enc_id_items(s.push(x)) == enc_bytes(x) + enc_id_items(s.push(x).skip(1)));
        assert(enc_id_items(s.push(x).skip(1)) == Seq::<u8>::empty());
        assert(enc_id_items(s) == Seq::<u8>::empty());
        assert(enc_id_items(s.push(x)) =~= enc_id_items(s) + enc_bytes(x));
    } else {
        assert(s.push(x).len() == s.len() + 1);
        assert(s.push(x)[0] == s[0]);
        assert(s.push(x).skip(1) =~= s.skip(1).push(x));
        lemma_enc_id_items_push(s.skip(1), x);
        assert(enc_id_items(s.push(x)) == enc_bytes(s[0]) + enc_id_items(s.push(x).skip(1)));
        assert(enc_id_items(s) == enc_bytes(s[0]) + enc_id_items(s.skip(1)));
        assert(enc_id_items(s.push(x)) =~= enc_id_items(s) + enc_bytes(x));
    }
}

proof fn lemma_enc_pair_items_push(s: Seq<(Seq<u8>, u64)>, x: (Seq<u8>, u64))
    ensures
        enc_pair_items(s.push(x)) == enc_pair_items(s) + enc_pair(x),
    decreases s.len(),
{
    if s.len() == 0 {
        assert(s.push(x).skip(1) =~= Seq::<(Seq<u8>, u64)>::empty());
        assert(s.push(x)[0] == x);
        assert(enc_pair_items(s.push(x)) == enc_pair(x) + enc_pair_items(s.push(x).skip(1)));
        assert(enc_pair_items(s.push(x).skip(1)) == Seq::<u8>::empty());
        assert(enc_pair_items(s) == Seq::<u8>::empty());
        assert(enc_pair_items(s.push(x)) =~= enc_pair_items(s) + enc_pair(x));
    } else {
        assert(s.push(x).len() == s.len() + 1);
        assert(s.push(x)[0] == s[0]);
        assert(s.push(x).skip(1) =~= s.skip(1).push(x));
        lemma_enc_pair_items_push(s.skip(1), x);
        assert(enc_pair_items(s.push(x)) == enc_pair(s[0]) + enc_pair_items(s.push(x).skip(1)));
        assert(enc_pair_items(s.push(x).skip(1)) == enc_pair_items(s.skip(1).push(x)));
        assert(enc_pair_items(s.skip(1).push(x)) == enc_pair_items(s.skip(1)) + enc_pair(x));
        assert(enc_pair_items(s) == enc_pair(s[0]) + enc_pair_items(s.skip(1)));
        assert((enc_pair(s[0]) + enc_pair_items(s.skip(1))) + enc_pair(x) =~= enc_pair(s[0]) + (
        enc_pair_items(s.skip(1)) + enc_pair(x)));
        assert(enc_pair_items(s.push(x)) =~= enc_pair_items(s) + enc_pair(x));
    }
}

fn push_u64(out: &mut Vec<u8>, v: u64)
    ensures
        final(out)@ == old(out)@ + enc_u64(v),
{
    out.push((v & 0xff) as u8);
    out.push(((v >> 8) & 0xff) as u8);
    out.push(((v >> 16) & 0xff) as u8);
    out.push(((v >> 24) & 0xff) as u8);
    out.push(((v >> 32) & 0xff) as u8);
    out.push(((v >> 40) & 0xff) as u8);
    out.push(((v >> 48) & 0xff) as u8);
    out.push(((v >> 56) & 0xff) as u8);
    proof {
        assert(out@ =~= old(out)@ + enc_u64(v));
    }
}

fn push_bool(out: &mut Vec<u8>, x: bool)
    ensures
        final(out)@ == old(out)@ + enc_bool(x),
{
    out.push(if x { 1 } else { 0 });
    proof {
        assert(out@ =~= old(out)@ + enc_bool(x));
    }
}

fn push_bytes(out: &mut Vec<u8>, x: &Vec<u8>)
    ensures
        final(out)@ == old(out)@ + enc_bytes(x@),
{
    push_u64(out, x.len() as u64);
    let mut i: usize = 0;
    while i < x.len()
        invariant
            i <= x.len(),
            out@ == old(out)@ + enc_u64(x@.len() as u64) + x@.take(i as int),
        decreases x.len() - i,
    {
        out.push(x[i]);
        proof {
            assert(out@ =~= old(out)@ + enc_u64(x@.len() as u64) + x@.take(i + 1));
        }
        i = i + 1;
    }
    proof {
        assert(x@.take(x@.len() as int) =~= x@);
        assert(out@ =~= old(out)@ + enc_bytes(x@));
    }
}

fn push_ids(out: &mut Vec<u8>, ids: &Vec<Identity>)
    ensures
        final(out)@ == old(out)@ + enc_ids(seq_ids(ids@)),
{
    let ghost v = seq_ids(ids@);
    push_u64(out, ids.len() as u64);
    let mut i: usize = 0;
    while i < ids.len()
        invariant
            i <= ids.len(),
            v == seq_ids(ids@),
            out@ == old(out)@ + enc_u64(v.len() as u64) + enc_id_items(v.take(i as int)),
        decreases ids.len() - i,
    {
        push_bytes(out, &ids[i].bytes);
        proof {
            assert(v.take(i + 1) =~= v.take(i as int).push(v[i as int]));
            lemma_enc_id_items_push(v.take(i as int), v[i as int]);
            assert(out@ =~= old(out)@ + enc_u64(v.len() as u64) + enc_id_items(v.take(i + 1)));
        }
        i = i + 1;
    }
    proof {
        assert(v.take(v.len() as int) =~= v);
        assert(out@ =~= old(out)@ + enc_ids(v));
    }
}

fn push_pairs(out: &mut Vec<u8>, ps: &Vec<(Identity, u64)>)
    ensures
        final(out)@ == old(out)@ + enc_pairs(pair_views(ps@)),
{
    let ghost v = pair_views(ps@);
    push_u64(out, ps.len() as u64);
    let mut i: usize = 0;
    while i < ps.len()
        invariant
            i <= ps.len(),
            v == pair_views(ps@),
            out@ == old(out)@ + enc_u64(v.len() as u64) + enc_pair_items(v.take(i as int)),
        decreases ps.len() - i,
    {
        push_bytes(out, &ps[i].0.bytes);
        push_u64(out, ps[i].1);
        proof {
            assert(v.take(i + 1) =~= v.take(i as int).push(v[i as int]));
            lemma_enc_pair_items_push(v.take(i as int), v[i as int]);
            assert(enc_pair(v[i as int]) == enc_bytes(ps@[i as int].0@) + enc_u64(
                ps@[i as int].1,
            ));
            assert(out@ =~= old(out)@ + enc_u64(v.len() as u64) + enc_pair_items(v.take(i + 1)));
        }
        i = i + 1;
    }
    proof {
        assert(v.take(v.len() as int) =~= v);
        assert(out@ =~= old(out)@ + enc_pairs(v));
    }
}

impl FaucetState {
    /// Serializes the whole state for durable storage before the process is
    /// torn down. Never fails, and the snapshot decodes back to this state.
    pub fn suspend(&self) -> (r: Vec<u8>)
        ensures
            r@ == spec_encode(self@),
            spec_decode(r@) == Some(self@),
    {
        let mut out: Vec<u8> = Vec::new();
        push_ids(&mut out, &self.admins);
        push_bool(&mut out, self.enabled);
        push_bytes(&mut out, &self.code);
        push_u64(&mut out, self.amount);
        push_ids(&mut out, &self.claimed);
        push_pairs(&mut out, &self.recent);
        push_pairs(&mut out, &self.total);
        proof {
            assert(out@ =~= spec_encode(self@));
            lemma_state_encodable(self);
            lemma_decode_encode(self@);
        }
        out
    }
}

fn read_u64(b: &Vec<u8>, pos: usize) -> (r: Option<(u64, usize)>)
    requires
        pos <= b.len(),
    ensures
        match dec_u64(b@.skip(pos as int)) {
            Some(p) => r matches Some(q) && q.0 == p.0 && q.1 <= b@.len() && b@.skip(q.1 as int)
                == p.1,
            None => r is None,
        },
{
    if b.len() - pos < 8 {
        return None;
    }
    let v = (b[pos] as u64) | ((b[pos + 1] as u64) << 8) | ((b[pos + 2] as u64) << 16) | ((b[pos
        + 3] as u64) << 24) | ((b[pos + 4] as u64) << 32) | ((b[pos + 5] as u64) << 40) | ((b[pos
        + 6] as u64) << 48) | ((b[pos + 7] as u64) << 56);
    proof {
        reveal(dec_u64_at);
        let s = b@.skip(pos as int);
        assert(v == dec_u64_at(s));
        assert(b@.skip(pos as int + 8) =~= s.skip(8));
    }
    Some((v, pos + 8))
}

fn read_bool(b: &Vec<u8>, pos: usize) -> (r: Option<(bool, usize)>)
    requires
        pos <= b.len(),
    ensures
        match dec_bool(b@.skip(pos as int)) {
            Some(p) => r matches Some(q) && q.0 == p.0 && q.1 <= b@.len() && b@.skip(q.1 as int)
                == p.1,
            None => r is None,
        },
{
    if b.len() - pos < 1 {
        return None;
    }
    proof {
        assert(b@.skip(pos as int)[0] == b@[pos as int]);
        assert(b@.skip(pos as int + 1) =~= b@.skip(pos as int).skip(1));
    }
    let byte = b[pos];
    if byte == 1 {
        Some((true, pos + 1))
    } else if byte == 0 {
        Some((false, pos + 1))
    } else {
        None
    }
}

fn read_bytes(b: &Vec<u8>, pos: usize) -> (r: Option<(Vec<u8>, usize)>)
    requires
        pos <= b.len(),
    ensures
        match dec_bytes(b@.skip(pos as int)) {
            Some(p) => r matches Some(q) && q.0@ == p.0 && q.1 <= b@.len() && b@.skip(q.1 as int)
                == p.1,
            None => r is None,
        },
{
    let (n, pos1) = match read_u64(b, pos) {
        Some(q) => q,
        None => {
            return None;
        },
    };
    let avail = b.len() - pos1;
    if n > avail as u64 {
        return None;
    }
    let cnt = n as usize;
    proof {
        assert(cnt as u64 == n);
    }
    let mut out: Vec<u8> = Vec::new();
    let mut j: usize = 0;
    while j < cnt
        invariant
            pos1 + cnt <= b.len(),
            j <= cnt,
            out@ == b@.subrange(pos1 as int, pos1 as int + j as int),
        decreases cnt - j,
    {
        out.push(b[pos1 + j]);
        proof {
            assert(out@ =~= b@.subrange(pos1 as int, pos1 as int + (j + 1)));
        }
        j = j + 1;
    }
    proof {
        let rest = b@.skip(pos1 as int);
        assert(out@ =~= rest.take(n as int));
        assert(b@.skip(pos1 as int + cnt as int) =~= rest.skip(n as int));
    }
    Some((out, pos1 + cnt))
}

fn read_id_items(b: &Vec<u8>, pos: usize, n: u64) -> (r: Option<(Vec<Identity>, usize)>)
    requires
        pos <= b.len(),
    ensures
        match dec_id_items(b@.skip(pos as int), n as nat) {
            Some(p) => r matches Some(q) && seq_ids(q.0@) == p.0 && q.1 <= b@.len() && b@.skip(
                q.1 as int,
            ) == p.1,
            None => r is None,
        },
    decreases n,
{
    if n == 0 {
        let ids: Vec<Identity> = Vec::new();
        proof {
            assert(seq_ids(ids@) =~= Seq::<Seq<u8>>::empty());
        }
        return Some((ids, pos));
    }
    let (x, pos1) = match read_bytes(b, pos) {
        Some(q) => q,
        None => {
            return None;
        },
    };
    let ghost xv = x@;
    let (mut ids, end) = match read_id_items(b, pos1, n - 1) {
        Some(t) => t,
        None => {
            return None;
        },
    };
    let ghost pre = ids@;
    ids.insert(0, Identity { bytes: x });
    proof {
        pre.insert_ensures(0, ids@[0]);
        assert(ids@[0]@ == xv);
        assert(seq_ids(ids@) =~= seq![xv] + seq_ids(pre));
    }
    Some((ids, end))
}

fn read_ids(b: &Vec<u8>, pos: usize) -> (r: Option<(Vec<Identity>, usize)>)
    requires
        pos <= b.len(),
    ensures
        match dec_ids(b@.skip(pos as int)) {
            Some(p) => r matches Some(q) && seq_ids(q.0@) == p.0 && q.1 <= b@.len() && b@.skip(
                q.1 as int,
            ) == p.1,
            None => r is None,
        },
{
    let (n, pos1) = match read_u64(b, pos) {
        Some(q) => q,
        None => {
            return None;
        },
    };
    if n > usize::MAX as u64 {
        return None;
    }
    read_id_items(b, pos1, n)
}

fn read_pair_items(b: &Vec<u8>, pos: usize, n: u64) -> (r: Option<(Vec<(Identity, u64)>, usize)>)
    requires
        pos <= b.len(),
    ensures
        match dec_pair_items(b@.skip(pos as int), n as nat) {
            Some(p) => r matches Some(q) && pair_views(q.0@) == p.0 && q.1 <= b@.len() && b@.skip(
                q.1 as int,
            ) == p.1,
            None => r is None,
        },
    decreases n,
{
    if n == 0 {
        let ps: Vec<(Identity, u64)> = Vec::new();
        proof {
            assert(pair_views(ps@) =~= Seq::<(Seq<u8>, u64)>::empty());
        }
        return Some((ps, pos));
    }
    let (x, pos1) = match read_bytes(b, pos) {
        Some(q) => q,
        None => {
            return None;
        },
    };
    let ghost xv = x@;
    let (amount, pos2) = match read_u64(b, pos1) {
        Some(q) => q,
        None => {
            return None;
        },
    };
    let (mut ps, end) = match read_pair_items(b, pos2, n - 1) {
        Some(t) => t,
        None => {
            return None;
        },
    };
    let ghost pre = ps@;
    ps.insert(0, (Identity { bytes: x }, amount));
    proof {
        pre.insert_ensures(0, ps@[0]);
        assert(ps@[0].0@ == xv);
        assert(pair_views(ps@) =~= seq![(xv, amount)] + pair_views(pre));
    }
    Some((ps, end))
}

fn read_pairs(b: &Vec<u8>, pos: usize) -> (r: Option<(Vec<(Identity, u64)>, usize)>)
    requires
        pos <= b.len(),
    ensures
        match dec_pairs(b@.skip(pos as int)) {
            Some(p) => r matches Some(q) && pair_views(q.0@) == p.0 && q.1 <= b@.len() && b@.skip(
                q.1 as int,
            ) == p.1,
            None => r is None,
        },
{
    let (n, pos1) = match read_u64(b, pos) {
        Some(q) => q,
        None => {
            return None;
        },
    };
    if n > usize::MAX as u64 {
        return None;
    }
    read_pair_items(b, pos1, n)
}

impl FaucetState {
    /// Parses a stored snapshot back into a live state; a byte string that no
    /// suspend produced is rejected.
    pub fn resume(bytes: &Vec<u8>) -> (r: Option<FaucetState>)
        ensures
            match spec_decode(bytes@) {
                Some(v) => r matches Some(s) && s@ == v,
                None => r is None,
            },
    {
        proof {
            assert(bytes@.skip(0) =~= bytes@);
        }
        let (admins, p1) = match read_ids(bytes, 0) {
            Some(q) => q,
            None => {
                return None;
            },
        };
        let (enabled, p2) = match read_bool(bytes, p1) {
            Some(q) => q,
            None => {
                return None;
            },
        };
        let (code, p3) = match read_bytes(bytes, p2) {
            Some(q) => q,
            None => {
                return None;
            },
        };
        let (amount, p4) = match read_u64(bytes, p3) {
            Some(q) => q,
            None => {
                return None;
            },
        };
        let (claimed, p5) = match read_ids(bytes, p4) {
            Some(q) => q,
            None => {
                return None;
            },
        };
        let (recent, p6) = match read_pairs(bytes, p5) {
            Some(q) => q,
            None => {
                return None;
            },
        };
        let (total, p7) = match read_pairs(bytes, p6) {
            Some(q) => q,
            None => {
                return None;
            },
        };
        if p7 != bytes.len() {
            proof {
                assert(bytes@.skip(p7 as int).len() != 0);
            }
            return None;
        }
        let s = FaucetState { admins, enabled, code, amount, claimed, recent, total };
        proof {
            assert(bytes@.skip(p7 as int).len() == 0);
            assert(s@ =~~= spec_decode(bytes@).unwrap());
        }
        Some(s)
    }
}

/// A state held in vectors always fits the format's length prefixes.
pub proof fn lemma_state_encodable(s: &FaucetState)
    ensures
        encodable(s@),
{
    broadcast use vstd::std_specs::vec::axiom_spec_len;

    assert(s@.admins.len() == s.admins@.len() && s.admins.len() == s.admins@.len());
    assert(s@.claimed.len() == s.claimed@.len() && s.claimed.len() == s.claimed@.len());
    assert(s@.recent.len() == s.recent@.len() && s.recent.len() == s.recent@.len());
    assert(s@.total.len() == s.total@.len() && s.total.len() == s.total@.len());
    assert(s@.code.len() == s.code@.len() && s.code.len() == s.code@.len());
    assert forall|i: int| 0 <= i < s@.admins.len() implies (#[trigger] s@.admins[i]).len()
        <= usize::MAX by {
        assert(s.admins@[i].bytes.len() <= usize::MAX);
    }
    assert forall|i: int| 0 <= i < s@.claimed.len() implies (#[trigger] s@.claimed[i]).len()
        <= usize::MAX by {
        assert(s.claimed@[i].bytes.len() <= usize::MAX);
    }
    assert forall|i: int| 0 <= i < s@.recent.len() implies (#[trigger] s@.recent[i]).0.len()
        <= usize::MAX by {
        assert(s.recent@[i].0.bytes.len() <= usize::MAX);
    }
    assert forall|i: int| 0 <= i < s@.total.len() implies (#[trigger] s@.total[i]).0.len()
        <= usize::MAX by {
        assert(s.total@[i].0.bytes.len() <= usize::MAX);
    }
}

/// The round trip: decoding an encoding yields the state it came from.
#[verifier::rlimit(50)]
pub proof fn lemma_decode_encode(v: StateView)
    requires
        encodable(v),
    ensures
        spec_decode(spec_encode(v)) == Some(v),
{
    let e1 = enc_ids(v.admins);
    let e2 = enc_bool(v.enabled);
    let e3 = enc_bytes(v.code);
    let e4 = enc_u64(v.amount);
    let e5 = enc_ids(v.claimed);
    let e6 = enc_pairs(v.recent);
    let e7 = enc_pairs(v.total);
    let b = spec_encode(v);
    let empty = Seq::<u8>::empty();
    assert(b =~= e1 + (e2 + (e3 + (e4 + (e5 + (e6 + (e7 + empty)))))));
    lemma_dec_ids(v.admins, e2 + (e3 + (e4 + (e5 + (e6 + (e7 + empty))))));
    lemma_dec_bool(v.enabled, e3 + (e4 + (e5 + (e6 + (e7 + empty)))));
    lemma_dec_bytes(v.code, e4 + (e5 + (e6 + (e7 + empty))));
    lemma_dec_u64(v.amount, e5 + (e6 + (e7 + empty)));
    lemma_dec_ids(v.claimed, e6 + (e7 + empty));
    lemma_dec_pairs(v.recent, e7 + empty);
    lemma_dec_pairs(v.total, empty);
    assert(spec_decode(b) == Some(v)) by {
        assert(dec_ids(b) == Some((v.admins, e2 + (e3 + (e4 + (e5 + (e6 + (e7 + empty))))))));
    }
}

} // verus!
