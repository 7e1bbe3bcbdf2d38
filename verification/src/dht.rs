//! The sharded key-value client: consistent-hash routing over a sorted
//! list of shard ids, batch planning by shard, and the merge of fan-in
//! results. The network calls themselves happen outside the library; the
//! client decides where each key goes and what the combined answer is.

use vstd::prelude::*;
use crate::hashing::{hash64, spec_hash64};
use rand::Rng;

verus! {

/// A shard id.
pub type ShardId = u64;

/// What can go wrong while routing.
#[derive(Clone, Copy, PartialEq, Eq, Structural, Debug)]
pub enum DhtError {
    /// The client knows no shards; no key can be routed.
    NoShards,
}

/// Relies on rand::Rng::gen_range: an index below `n`, for uniform node
/// choice within a shard. Nothing more is assumed of the value.
#[verifier::external_body]
fn random_index(n: usize) -> (r: usize)
    requires
        n >= 1,
    ensures
        r < n,
{
    rand::thread_rng().gen_range(0..n)
}

/// One Raft group: the addresses of its replicas.
pub struct Shard {
    pub nodes: Vec<String>,
}

impl Shard {
    pub fn new() -> (r: Self)
        ensures
            r.nodes@.len() == 0,
    {
        Shard { nodes: Vec::new() }
    }

    pub fn add_node(&mut self, addr: String)
        ensures
            final(self).nodes@ == old(self).nodes@.push(addr),
    {
        self.nodes.push(addr);
    }

    /// Some replica of the shard, chosen uniformly; any of them serves.
    pub fn node(&self) -> (r: &String)
        requires
            self.nodes@.len() >= 1,
        ensures
            exists|i: int| 0 <= i < self.nodes@.len() && r == self.nodes@[i],
    {
        let i = random_index(self.nodes.len());
        &self.nodes[i]
    }
}

/// Which shard id a key belongs to, given the sorted id list.
pub open spec fn spec_route(ids: Seq<u64>, key: Seq<u8>) -> u64
    recommends
        ids.len() > 0,
{
    ids[(spec_hash64(key) as int) % (ids.len() as int)]
}

/// Strictly ascending ids: each id appears once, in order.
pub open spec fn ids_sorted(ids: Seq<u64>) -> bool {
    forall|i: int, j: int| 0 <= i < j < ids.len() ==> ids[i] < ids[j]
}

/// The addresses the membership list names for one shard, in discovery
/// order, from member `i` on.
pub open spec fn member_addrs(ms: Seq<(u64, String)>, id: u64, i: int) -> Seq<String>
    decreases ms.len() - i,
{
    if i < 0 || i >= ms.len() {
        Seq::empty()
    } else if ms[i].0 == id {
        seq![ms[i].1] + member_addrs(ms, id, i + 1)
    } else {
        member_addrs(ms, id, i + 1)
    }
}

/// A membership prefix without a shard's members contributes none of its
/// addresses.
proof fn lemma_member_addrs_absent(ms: Seq<(u64, String)>, id: u64, j: int, upto: int)
    requires
        0 <= j <= upto <= ms.len(),
        forall|m: int| j <= m < upto ==> (#[trigger] ms[m]).0 != id,
    ensures
        member_addrs(ms, id, j) == member_addrs(ms, id, upto),
    decreases upto - j,
{
    if j < upto {
        lemma_member_addrs_absent(ms, id, j + 1, upto);
    }
}

/// The sharded client: the sorted shard ids and, aligned with them, the
/// shards themselves.
pub struct Client {
    pub ids: Vec<u64>,
    pub shards: Vec<(u64, Shard)>,
}

impl Client {
    pub open spec fn wf(&self) -> bool {
        &&& ids_sorted(self.ids@)
        &&& self.shards@.len() == self.ids@.len()
        &&& forall|i: int|
            0 <= i < self.ids@.len() ==> (#[trigger] self.shards@[i]).0 == self.ids@[i]
    }

    /// A client over the discovered cluster members: `(shard, address)`
    /// pairs. Addresses group under their shard; shard ids are kept
    /// sorted, so routing depends only on the id set.
    pub fn new(members: Vec<(u64, String)>) -> (r: Client)
        ensures
            r.wf(),
            forall|id: u64|
                r.ids@.contains(id) <==> exists|m: int|
                    0 <= m < members@.len() && (#[trigger] members@[m]).0 == id,
            forall|k: int|
                0 <= k < r.shards@.len() ==> (#[trigger] r.shards@[k]).1.nodes@ == member_addrs(
                    members@,
                    r.shards@[k].0,
                    0,
                ),
    {
        let mut client = Client { ids: Vec::new(), shards: Vec::new() };
        let mut remaining = members;
        let ghost all = remaining@;
        while remaining.len() > 0
            invariant
                client.wf(),
                forall|id: u64|
                    client.ids@.contains(id) <==> exists|m: int|
                        0 <= m < all.len() - remaining@.len() && (#[trigger] all[m]).0 == id,
                remaining@.len() <= all.len(),
                remaining@ == all.skip(all.len() - remaining@.len()),
                forall|k: int|
                    0 <= k < client.shards@.len() ==> (#[trigger] client.shards@[k]).1.nodes@
                        + member_addrs(
                        all,
                        client.shards@[k].0,
                        all.len() - remaining@.len(),
                    ) == member_addrs(all, client.shards@[k].0, 0),
            decreases remaining@.len(),
        {
            let ghost done = all.len() - remaining@.len();
            let (shard_id, addr) = remaining.remove(0);
            proof {
                assert(all.skip(done)[0] == all[done]);
                assert((shard_id, addr) == all[done]);
                assert forall|x: int| 0 <= x < remaining@.len() implies remaining@[x] == all[done
                    + 1 + x] by {
                    assert(remaining@[x] == all.skip(done)[x + 1]);
                }
                assert(remaining@ =~= all.skip(done + 1));
            }
            let ghost pre = client;
            client.add_node(shard_id, addr);
            proof {
                // the routed shard absorbed this member's address; every
                // other shard kept its list, and the skipped member
                // contributes nothing to theirs
                if pre.ids@.contains(shard_id) {
                    let k = choose|k: int|
                        0 <= k < client.shards@.len() && (#[trigger] client.shards@[k]).0
                            == shard_id && client.shards@[k].1.nodes@
                            == pre.shards@[k].1.nodes@.push(all[done].1) && (forall|j: int|
                            0 <= j < client.shards@.len() && j != k
                                ==> #[trigger] client.shards@[j] == pre.shards@[j]);
                    assert forall|x: int|
                        0 <= x < client.shards@.len() implies (
                    #[trigger] client.shards@[x]).1.nodes@ + member_addrs(
                        all,
                        client.shards@[x].0,
                        done + 1,
                    ) == member_addrs(all, client.shards@[x].0, 0) by {
                        if x == k {
                            assert(member_addrs(all, shard_id, done) == seq![all[done].1]
                                + member_addrs(all, shard_id, done + 1));
                            assert(pre.shards@[k].1.nodes@.push(all[done].1) + member_addrs(
                                all,
                                shard_id,
                                done + 1,
                            ) =~= pre.shards@[k].1.nodes@ + member_addrs(all, shard_id, done));
                        } else {
                            assert(client.shards@[x] == pre.shards@[x]);
                            assert(client.shards@[x].0 != shard_id) by {
                                assert(pre.shards@[x].0 == pre.ids@[x]);
                                assert(pre.shards@[k].0 == pre.ids@[k]);
                            }
                            assert(member_addrs(all, client.shards@[x].0, done) == member_addrs(
                                all,
                                client.shards@[x].0,
                                done + 1,
                            ));
                        }
                    }
                } else {
                    let k = choose|k: int|
                        0 <= k < client.shards@.len() && (#[trigger] client.shards@[k]).0
                            == shard_id && client.shards@[k].1.nodes@ == seq![all[done].1] && (
                        forall|j: int|
                            0 <= j < k ==> #[trigger] client.shards@[j] == pre.shards@[j]) && (
                        forall|j: int|
                            k < j < client.shards@.len() ==> #[trigger] client.shards@[j]
                                == pre.shards@[j - 1]);
                    assert forall|x: int|
                        0 <= x < client.shards@.len() implies (
                    #[trigger] client.shards@[x]).1.nodes@ + member_addrs(
                        all,
                        client.shards@[x].0,
                        done + 1,
                    ) == member_addrs(all, client.shards@[x].0, 0) by {
                        if x == k {
                            // no earlier member names this shard
                            assert forall|m: int| 0 <= m < done implies (#[trigger] all[m]).0
                                != shard_id by {
                                if all[m].0 == shard_id {
                                    assert(pre.ids@.contains(shard_id));
                                }
                            }
                            lemma_member_addrs_absent(all, shard_id, 0, done);
                            assert(member_addrs(all, shard_id, done) == seq![all[done].1]
                                + member_addrs(all, shard_id, done + 1));
                            assert(seq![all[done].1] + member_addrs(all, shard_id, done + 1)
                                =~= member_addrs(all, shard_id, 0));
                        } else {
                            let x0: int = if x < k {
                                x
                            } else {
                                x - 1
                            };
                            assert(client.shards@[x] == pre.shards@[x0]);
                            assert(client.shards@[x].0 != shard_id) by {
                                assert(pre.shards@[x0].0 == pre.ids@[x0]);
                                if pre.shards@[x0].0 == shard_id {
                                    assert(pre.ids@.contains(shard_id));
                                }
                            }
                            assert(member_addrs(all, client.shards@[x].0, done) == member_addrs(
                                all,
                                client.shards@[x].0,
                                done + 1,
                            ));
                        }
                    }
                }
                assert forall|id: u64| client.ids@.contains(id) implies exists|m: int|
                    0 <= m < done + 1 && (#[trigger] all[m]).0 == id by {
                    if id == shard_id {
                        assert(all[done].0 == id);
                    } else {
                        let m = choose|m: int| 0 <= m < done && (#[trigger] all[m]).0 == id;
                        assert(all[m].0 == id);
                    }
                }
                assert forall|id: u64|
                    (exists|m: int| 0 <= m < done + 1 && (#[trigger] all[m]).0 == id)
                        implies client.ids@.contains(id) by {
                    let m = choose|m: int| 0 <= m < done + 1 && (#[trigger] all[m]).0 == id;
                }
            }
        }
        proof {
            assert(all.len() - remaining@.len() == all.len());
            assert forall|k: int|
                0 <= k < client.shards@.len() implies (#[trigger] client.shards@[k]).1.nodes@
                == member_addrs(all, client.shards@[k].0, 0) by {
                assert(member_addrs(all, client.shards@[k].0, all.len() as int)
                    =~= Seq::<String>::empty());
                assert(client.shards@[k].1.nodes@ + Seq::<String>::empty() =~= client.shards@[
                    k].1.nodes@);
            }
        }
        client
    }

    /// Adds one replica address, creating its shard if it is new, and
    /// keeps the id list sorted: the routed shard's replica list gains
    /// the address at its end, and every other shard stays exactly as it
    /// was.
    pub fn add_node(&mut self, shard_id: ShardId, addr: String)
        requires
            old(self).wf(),
        ensures
            final(self).wf(),
            final(self).ids@.contains(shard_id),
            forall|id: u64|
                final(self).ids@.contains(id) <==> (old(self).ids@.contains(id) || id
                    == shard_id),
            old(self).ids@.contains(shard_id) ==> final(self).ids@ == old(self).ids@ && final(self).shards@.len() == old(self).shards@.len() && (exists|k: int|
                0 <= k < final(self).shards@.len() && (#[trigger] final(self).shards@[k]).0
                    == shard_id && old(self).shards@[k].0 == shard_id && final(self).shards@[k].1.nodes@ == old(self).shards@[k].1.nodes@.push(addr) && (forall|
                    j: int,
                |
                    0 <= j < final(self).shards@.len() && j != k
                        ==> #[trigger] final(self).shards@[j] == old(self).shards@[j])),
            !old(self).ids@.contains(shard_id) ==> final(self).shards@.len() == old(self).shards@.len() + 1 && (exists|k: int|
                0 <= k < final(self).shards@.len() && (#[trigger] final(self).shards@[k]).0
                    == shard_id && final(self).shards@[k].1.nodes@ == seq![addr] && (forall|
                    j: int,
                |
                    0 <= j < k ==> #[trigger] final(self).shards@[j] == old(self).shards@[j]) && (
                forall|j: int|
                    k < j < final(self).shards@.len() ==> #[trigger] final(self).shards@[j]
                        == old(self).shards@[j - 1])),
    {
        let mut k: usize = 0;
        while k < self.ids.len() && self.ids[k] < shard_id
            invariant
                k <= self.ids@.len(),
                self.wf(),
                forall|j: int| 0 <= j < k ==> (#[trigger] self.ids@[j]) < shard_id,
            decreases self.ids@.len() - k,
        {
            k += 1;
        }
        if k < self.ids.len() && self.ids[k] == shard_id {
            let pair = &mut self.shards[k];
            // hold the invariant shape: the id of the entry is unchanged
            pair.1.nodes.push(addr);
            proof {
                assert(self.shards@[k as int].0 == old(self).shards@[k as int].0);
                assert forall|i: int| 0 <= i < self.ids@.len() implies (
                #[trigger] self.shards@[i]).0 == self.ids@[i] by {
                    if i != k {
                        assert(self.shards@[i] == old(self).shards@[i]);
                    }
                }
                assert(self.ids@[k as int] == shard_id);
                assert(old(self).ids@[k as int] == shard_id);
                assert(old(self).ids@.contains(shard_id));
                assert(self.shards@[k as int].0 == shard_id);
                assert(self.shards@[k as int].1.nodes@ == old(self).shards@[k as int].1.nodes@.push(
                    addr,
                ));
                assert forall|j: int|
                    0 <= j < self.shards@.len() && j != k implies #[trigger] self.shards@[j]
                    == old(self).shards@[j] by {}
            }
        } else {
            let ghost old_ids = self.ids@;
            proof {
                assert(!old_ids.contains(shard_id)) by {
                    if old_ids.contains(shard_id) {
                        let m = choose|m: int|
                            0 <= m < old_ids.len() && #[trigger] old_ids[m] == shard_id;
                        if m < k {
                            assert(old_ids[m] < shard_id);
                        } else if m == k {
                            assert(k < old_ids.len() && old_ids[k as int] == shard_id);
                        } else {
                            assert(!(old_ids[k as int] < shard_id));
                            assert(old_ids[k as int] < old_ids[m]);
                        }
                    }
                }
            }
            let mut shard = Shard::new();
            shard.add_node(addr);
            self.ids.insert(k, shard_id);
            self.shards.insert(k, (shard_id, shard));
            proof {
                assert(self.ids@ =~= old_ids.take(k as int) + seq![shard_id] + old_ids.skip(
                    k as int,
                ));
                assert(self.shards@[k as int].0 == shard_id);
                assert(self.shards@[k as int].1.nodes@ =~= seq![addr]);
                assert forall|j: int| 0 <= j < k implies #[trigger] self.shards@[j] == old(self).shards@[j] by {}
                assert forall|j: int|
                    k < j < self.shards@.len() implies #[trigger] self.shards@[j] == old(self).shards@[j - 1] by {}
                assert forall|i: int, j: int|
                    0 <= i < j < self.ids@.len() implies self.ids@[i] < self.ids@[j] by {
                    if i < k && j < k {
                    } else if i < k && j == k {
                        assert(self.ids@[i] == old_ids[i]);
                    } else if i == k && j > k {
                        assert(self.ids@[j] == old_ids[j - 1]);
                        assert(!(old_ids[j - 1] < shard_id));
                        assert(old_ids[j - 1] != shard_id) by {
                            if k < old_ids.len() && old_ids[k as int] == shard_id {
                                assert(false);
                            } else {
                                if j - 1 > k {
                                    assert(old_ids[k as int] < old_ids[j - 1]);
                                    assert(!(old_ids[k as int] < shard_id));
                                }
                            }
                        }
                    } else if i < k && j > k {
                        assert(self.ids@[i] == old_ids[i]);
                        assert(self.ids@[j] == old_ids[j - 1]);
                    } else if i == k && j == k {
                    } else {
                        assert(self.ids@[i] == old_ids[i - 1]);
                        assert(self.ids@[j] == old_ids[j - 1]);
                    }
                }
                assert forall|i: int| 0 <= i < self.ids@.len() implies (
                #[trigger] self.shards@[i]).0 == self.ids@[i] by {
                    if i < k {
                        assert(self.shards@[i] == old(self).shards@[i]);
                        assert(self.ids@[i] == old_ids[i]);
                    } else if i > k {
                        assert(self.shards@[i] == old(self).shards@[i - 1]);
                        assert(self.ids@[i] == old_ids[i - 1]);
                    }
                }
                assert forall|id: u64| self.ids@.contains(id) implies (old_ids.contains(id) || id
                    == shard_id) by {
                    let m = choose|m: int| 0 <= m < self.ids@.len() && #[trigger] self.ids@[m]
                        == id;
                    if m < k {
                        assert(old_ids[m] == id);
                    } else if m > k {
                        assert(old_ids[m - 1] == id);
                    }
                }
                assert forall|id: u64| old_ids.contains(id) implies self.ids@.contains(id) by {
                    let m = choose|m: int| 0 <= m < old_ids.len() && #[trigger] old_ids[m] == id;
                    if m < k {
                        assert(self.ids@[m] == id);
                    } else {
                        assert(self.ids@[m + 1] == id);
                    }
                }
                assert(self.ids@[k as int] == shard_id);
            }
        }
    }

    /// The shard id a key routes to. Fails exactly when the client knows
    /// no shards.
    pub fn shard_id_for_key(&self, key: &Vec<u8>) -> (r: Result<ShardId, DhtError>)
        requires
            self.wf(),
        ensures
            self.ids@.len() == 0 ==> r == Result::<ShardId, DhtError>::Err(DhtError::NoShards),
            self.ids@.len() > 0 ==> r == Result::<ShardId, DhtError>::Ok(
                spec_route(self.ids@, key@),
            ),
    {
        if self.ids.len() == 0 {
            return Err(DhtError::NoShards);
        }
        let h = hash64(key);
        let idx64 = h % (self.ids.len() as u64);
        let idx = idx64 as usize;
        proof {
            assert(idx == (spec_hash64(key@) as int) % (self.ids@.len() as int));
        }
        Ok(self.ids[idx])
    }

    /// The shard a key routes to.
    pub fn shard_for_key(&self, key: &Vec<u8>) -> (r: Result<&Shard, DhtError>)
        requires
            self.wf(),
        ensures
            self.ids@.len() == 0 ==> r is Err,
            self.ids@.len() > 0 ==> exists|i: int|
                0 <= i < self.shards@.len() && r == Result::<&Shard, DhtError>::Ok(
                    &(#[trigger] self.shards@[i]).1,
                ) && self.shards@[i].0 == spec_route(self.ids@, key@),
    {
        let id = match self.shard_id_for_key(key) {
            Ok(id) => id,
            Err(e) => {
                return Err(e);
            },
        };
        let mut i: usize = 0;
        while i < self.shards.len()
            invariant
                i <= self.shards@.len(),
                self.wf(),
                self.ids@.len() > 0,
                id == spec_route(self.ids@, key@),
                self.ids@.contains(id),
                forall|j: int| 0 <= j < i ==> (#[trigger] self.shards@[j]).0 != id,
            decreases self.shards@.len() - i,
        {
            let pair = &self.shards[i];
            if pair.0 == id {
                return Ok(&pair.1);
            }
            i += 1;
        }
        // unreachable: the routed id is one of the sorted ids
        proof {
            let m = choose|m: int| 0 <= m < self.ids@.len() && #[trigger] self.ids@[m] == id;
            assert(self.shards@[m].0 == id);
            assert(false);
        }
        Err(DhtError::NoShards)
    }
}

/// A key or value: an opaque byte string.
pub type Key = Vec<u8>;

pub type Value = Vec<u8>;

/// Byte-wise lexicographic order.
pub open spec fn lex_le(a: Seq<u8>, b: Seq<u8>) -> bool
    decreases a.len(),
{
    if a.len() == 0 {
        true
    } else if b.len() == 0 {
        false
    } else if a[0] < b[0] {
        true
    } else if a[0] > b[0] {
        false
    } else {
        lex_le(a.drop_first(), b.drop_first())
    }
}

pub open spec fn lex_lt(a: Seq<u8>, b: Seq<u8>) -> bool {
    lex_le(a, b) && a != b
}

/// Lexicographic order is total and antisymmetric.
pub proof fn lemma_lex_total(a: Seq<u8>, b: Seq<u8>)
    ensures
        lex_le(a, b) || lex_le(b, a),
        lex_le(a, b) && lex_le(b, a) ==> a == b,
    decreases a.len(),
{
    if a.len() > 0 && b.len() > 0 && a[0] == b[0] {
        lemma_lex_total(a.drop_first(), b.drop_first());
        if lex_le(a, b) && lex_le(b, a) {
            assert(a.drop_first() == b.drop_first());
            assert(a =~= b) by {
                assert forall|i: int| 0 <= i < a.len() implies a[i] == b[i] by {
                    if i > 0 {
                        assert(a.drop_first()[i - 1] == b.drop_first()[i - 1]);
                    }
                }
            }
        }
    } else if a.len() > 0 && b.len() == 0 {
    } else if a.len() == 0 {
    }
}

/// Compares two keys lexicographically.
pub fn bytes_le(a: &Vec<u8>, b: &Vec<u8>) -> (r: bool)
    ensures
        r == lex_le(a@, b@),
{
    let mut i: usize = 0;
    proof {
        assert(a@.skip(0) == a@);
        assert(b@.skip(0) == b@);
    }
    while i < a.len() && i < b.len() && a[i] == b[i]
        invariant
            i <= a@.len(),
            i <= b@.len(),
            lex_le(a@, b@) == lex_le(a@.skip(i as int), b@.skip(i as int)),
            lex_le(b@, a@) == lex_le(b@.skip(i as int), a@.skip(i as int)),
        decreases a@.len() - i,
    {
        proof {
            assert(a@.skip(i as int)[0] == a@[i as int]);
            assert(b@.skip(i as int)[0] == b@[i as int]);
            assert(a@.skip(i as int).drop_first() =~= a@.skip(i as int + 1));
            assert(b@.skip(i as int).drop_first() =~= b@.skip(i as int + 1));
        }
        i += 1;
    }
    proof {
        if i < a@.len() && i < b@.len() {
            assert(a@.skip(i as int)[0] == a@[i as int]);
            assert(b@.skip(i as int)[0] == b@[i as int]);
        } else if i == a@.len() {
            assert(a@.skip(i as int).len() == 0);
        } else {
            assert(b@.skip(i as int).len() == 0);
            assert(a@.skip(i as int).len() > 0);
        }
    }
    if i == a.len() {
        true
    } else if i == b.len() {
        false
    } else {
        a[i] < b[i]
    }
}

/// Inserts a result pair into a key-sorted list, after any equal keys.
pub open spec fn ins_pair(s: Seq<(Key, Value)>, x: (Key, Value)) -> Seq<(Key, Value)>
    decreases s.len(),
{
    if s.len() == 0 {
        seq![x]
    } else if lex_lt(x.0@, s[0].0@) {
        seq![x] + s
    } else {
        seq![s[0]] + ins_pair(s.drop_first(), x)
    }
}

/// Stable sort of result pairs by key.
pub open spec fn sort_pairs(s: Seq<(Key, Value)>) -> Seq<(Key, Value)>
    decreases s.len(),
{
    if s.len() == 0 {
        Seq::empty()
    } else {
        ins_pair(sort_pairs(s.drop_last()), s.last())
    }
}

/// Drops the later entries of each run of equal keys.
pub open spec fn dedup_pairs_from(s: Seq<(Key, Value)>, i: int) -> Seq<(Key, Value)>
    decreases s.len() - i,
{
    if i < 0 || i >= s.len() {
        Seq::empty()
    } else if i > 0 && s[i].0@ == s[i - 1].0@ {
        dedup_pairs_from(s, i + 1)
    } else {
        seq![s[i]] + dedup_pairs_from(s, i + 1)
    }
}

pub open spec fn dedup_pairs(s: Seq<(Key, Value)>) -> Seq<(Key, Value)> {
    dedup_pairs_from(s, 0)
}

proof fn lemma_ins_pair_at(s: Seq<(Key, Value)>, x: (Key, Value), k: int)
    requires
        0 <= k <= s.len(),
        forall|j: int| 0 <= j < k ==> !lex_lt(x.0@, (#[trigger] s[j]).0@),
        k < s.len() ==> lex_lt(x.0@, s[k].0@),
    ensures
        ins_pair(s, x) == s.take(k) + seq![x] + s.skip(k),
    decreases k,
{
    if s.len() == 0 {
        assert(s.take(0) + seq![x] + s.skip(0) =~= seq![x]);
    } else if k == 0 {
        assert(s.take(0) + seq![x] + s.skip(0) =~= seq![x] + s);
    } else {
        assert(!lex_lt(x.0@, s[0].0@));
        lemma_ins_pair_at(s.drop_first(), x, k - 1);
        assert forall|j: int| 0 <= j < k - 1 implies !lex_lt(
            x.0@,
            (#[trigger] s.drop_first()[j]).0@,
        ) by {
            assert(s.drop_first()[j] == s[j + 1]);
        }
        assert(ins_pair(s, x) == seq![s[0]] + ins_pair(s.drop_first(), x));
        assert(seq![s[0]] + (s.drop_first().take(k - 1) + seq![x] + s.drop_first().skip(k - 1))
            =~= s.take(k) + seq![x] + s.skip(k));
    }
}

/// Inserts into a key-sorted vector, after equal keys (stable).
fn insert_pair(v: &mut Vec<(Key, Value)>, x: (Key, Value))
    ensures
        final(v)@ == ins_pair(old(v)@, x),
{
    let mut k: usize = 0;
    while k < v.len() && bytes_le(&v[k].0, &x.0)
        invariant
            k <= v@.len(),
            forall|j: int| 0 <= j < k ==> lex_le((#[trigger] v@[j]).0@, x.0@),
        decreases v@.len() - k,
    {
        k += 1;
    }
    proof {
        assert forall|j: int| 0 <= j < k implies !lex_lt(x.0@, (#[trigger] v@[j]).0@) by {
            lemma_lex_total(v@[j].0@, x.0@);
        }
        if k < v@.len() {
            lemma_lex_total(v@[k as int].0@, x.0@);
        }
        lemma_ins_pair_at(v@, x, k as int);
    }
    v.insert(k, x);
    proof {
        assert(v@ =~= old(v)@.take(k as int) + seq![x] + old(v)@.skip(k as int));
    }
}

/// Merges the per-shard answers of a batch read: sorted by key, one
/// answer per key (the first among equals).
pub fn merge_batch_results(results: Vec<(Key, Value)>) -> (r: Vec<(Key, Value)>)
    ensures
        r@ == dedup_pairs(sort_pairs(results@)),
{
    let mut sorted: Vec<(Key, Value)> = Vec::new();
    let mut remaining = results;
    let ghost all = remaining@;
    while remaining.len() > 0
        invariant
            remaining@.len() <= all.len(),
            remaining@ == all.skip(all.len() - remaining@.len()),
            sorted@ == sort_pairs(all.take(all.len() - remaining@.len())),
        decreases remaining@.len(),
    {
        let ghost done = all.len() - remaining@.len();
        let x = remaining.remove(0);
        proof {
            assert(all.skip(done)[0] == all[done]);
            assert(x == all[done]);
            assert forall|y: int| 0 <= y < remaining@.len() implies remaining@[y] == all[done + 1
                + y] by {
                assert(remaining@[y] == all.skip(done)[y + 1]);
            }
            assert(remaining@ =~= all.skip(done + 1));
            assert(all.take(done + 1).drop_last() == all.take(done));
            assert(all.take(done + 1).last() == all[done]);
        }
        insert_pair(&mut sorted, x);
    }
    proof {
        assert(all.take(all.len() as int) == all);
    }
    let ghost sv = sorted@;
    let mut out: Vec<(Key, Value)> = Vec::new();
    let mut rest = sorted;
    proof {
        assert(rest@ =~= sv.skip(0));
        assert(out@ + dedup_pairs_from(sv, 0) =~= dedup_pairs(sv));
    }
    while rest.len() > 0
        invariant
            rest@.len() <= sv.len(),
            rest@ == sv.skip(sv.len() - rest@.len()),
            out@ + dedup_pairs_from(sv, sv.len() - rest@.len()) == dedup_pairs(sv),
            sv.len() - rest@.len() > 0 ==> out@.len() > 0 && out@.last().0@ == sv[sv.len()
                - rest@.len() - 1].0@,
        decreases rest@.len(),
    {
        let ghost i = sv.len() - rest@.len();
        let ghost pre = out@;
        let x = rest.remove(0);
        proof {
            assert(sv.skip(i)[0] == sv[i]);
            assert(x == sv[i]);
            assert forall|y: int| 0 <= y < rest@.len() implies rest@[y] == sv[i + 1 + y] by {
                assert(rest@[y] == sv.skip(i)[y + 1]);
            }
            assert(rest@ =~= sv.skip(i + 1));
        }
        let same = if out.len() > 0 {
            crate::schema::bytes_eq(&out[out.len() - 1].0, &x.0)
        } else {
            false
        };
        proof {
            if i == 0 {
                assert(!same);
            } else {
                assert(same == (sv[i].0@ == sv[i - 1].0@));
            }
        }
        if !same {
            out.push(x);
            proof {
                assert(out@ =~= pre + seq![sv[i]]);
                assert(pre + seq![sv[i]] + dedup_pairs_from(sv, i + 1) =~= pre + dedup_pairs_from(
                    sv,
                    i,
                ));
            }
        } else {
            proof {
                assert(dedup_pairs_from(sv, i) == dedup_pairs_from(sv, i + 1));
                assert(out@.last().0@ == sv[i].0@);
            }
        }
    }
    proof {
        assert(dedup_pairs_from(sv, sv.len() as int) =~= Seq::<(Key, Value)>::empty());
        assert(out@ =~= dedup_pairs(sv));
    }
    out
}

/// Copies a byte string.
fn clone_key(b: &Vec<u8>) -> (r: Vec<u8>)
    ensures
        r@ == b@,
{
    let r = b.clone();
    proof {
        assert(r@ =~= b@);
    }
    r
}

/// The byte images of a key list.
pub open spec fn keys_view(s: Seq<Key>) -> Seq<Seq<u8>> {
    s.map_values(|k: Key| k@)
}

/// Whether some group of a batch plan serves this shard.
pub open spec fn plan_has_shard(groups: Seq<(ShardId, Vec<Key>)>, id: u64) -> bool {
    exists|g: int| 0 <= g < groups.len() && (#[trigger] groups[g]).0 == id
}

/// Whether some key of the batch routes to this shard.
pub open spec fn some_key_routes(ids: Seq<u64>, keys: Seq<Key>, id: u64) -> bool {
    exists|j: int| 0 <= j < keys.len() && spec_route(ids, (#[trigger] keys[j])@) == id
}

/// The keys that route to one shard, in request order, from key `i` on.
pub open spec fn keys_for(ids: Seq<u64>, keys: Seq<Seq<u8>>, id: u64, i: int) -> Seq<Seq<u8>>
    decreases keys.len() - i,
{
    if i < 0 || i >= keys.len() {
        Seq::empty()
    } else if spec_route(ids, keys[i]) == id {
        seq![keys[i]] + keys_for(ids, keys, id, i + 1)
    } else {
        keys_for(ids, keys, id, i + 1)
    }
}

impl Client {
    /// Plans a batch operation: groups the keys under the shard each one
    /// routes to, shards in ascending id order, keys in request order
    /// within each shard. Fails exactly when a key exists but the client
    /// knows no shards.
    pub fn plan_batch(&self, keys: &Vec<Key>) -> (r: Result<Vec<(ShardId, Vec<Key>)>, DhtError>)
        requires
            self.wf(),
        ensures
            r is Err <==> (self.ids@.len() == 0 && keys@.len() > 0),
            r is Err ==> r == Result::<Vec<(ShardId, Vec<Key>)>, DhtError>::Err(
                DhtError::NoShards,
            ),
            r matches Ok(groups) ==> {
                &&& ids_sorted(groups@.map_values(|g: (ShardId, Vec<Key>)| g.0))
                &&& forall|id: u64|
                    #[trigger] plan_has_shard(groups@, id) <==> some_key_routes(
                        self.ids@,
                        keys@,
                        id,
                    )
                &&& forall|g: int|
                    0 <= g < groups@.len() ==> keys_view((#[trigger] groups@[g]).1@) == keys_for(
                        self.ids@,
                        keys_view(keys@),
                        groups@[g].0,
                        0,
                    )
            },
    {
        if keys.len() > 0 && self.ids.len() == 0 {
            return Err(DhtError::NoShards);
        }
        let ghost kv = keys_view(keys@);
        // the shard ids that occur, in ascending order
        let mut present: Vec<u64> = Vec::new();
        let mut i: usize = 0;
        while i < keys.len()
            invariant
                i <= keys@.len(),
                self.wf(),
                keys@.len() > 0 ==> self.ids@.len() > 0,
                kv == keys_view(keys@),
                ids_sorted(present@),
                forall|id: u64|
                    present@.contains(id) <==> exists|j: int|
                        0 <= j < i && spec_route(self.ids@, #[trigger] kv[j]) == id,
            decreases keys@.len() - i,
        {
            let key = &keys[i];
            let id = match self.shard_id_for_key(key) {
                Ok(id) => id,
                Err(e) => {
                    proof {
                        assert(false);
                    }
                    return Err(e);
                },
            };
            proof {
                assert(kv[i as int] == keys@[i as int]@);
                assert(id == spec_route(self.ids@, kv[i as int]));
            }
            let ghost pre = present@;
            let mut k: usize = 0;
            while k < present.len() && present[k] < id
                invariant
                    k <= present@.len(),
                    present@ == pre,
                    ids_sorted(pre),
                    forall|j: int| 0 <= j < k ==> (#[trigger] pre[j]) < id,
                decreases present@.len() - k,
            {
                k += 1;
            }
            if k < present.len() && present[k] == id {
                proof {
                    assert(present@.contains(id)) by {
                        assert(present@[k as int] == id);
                    }
                    assert forall|x: u64| present@.contains(x) implies exists|j: int|
                        0 <= j < i + 1 && spec_route(self.ids@, #[trigger] kv[j]) == x by {
                        let j = choose|j: int|
                            0 <= j < i && spec_route(self.ids@, #[trigger] kv[j]) == x;
                    }
                    assert forall|x: u64|
                        (exists|j: int|
                            0 <= j < i + 1 && spec_route(self.ids@, #[trigger] kv[j]) == x)
                            implies present@.contains(x) by {
                        let j = choose|j: int|
                            0 <= j < i + 1 && spec_route(self.ids@, #[trigger] kv[j]) == x;
                        if j == i {
                            assert(x == id);
                        }
                    }
                }
            } else {
                present.insert(k, id);
                proof {
                    assert(present@ =~= pre.take(k as int) + seq![id] + pre.skip(k as int));
                    assert(!pre.contains(id)) by {
                        if pre.contains(id) {
                            let m = choose|m: int| 0 <= m < pre.len() && #[trigger] pre[m] == id;
                            if m < k {
                                assert(pre[m] < id);
                            } else if m == k {
                                assert(k < pre.len() && pre[k as int] == id);
                            } else {
                                assert(!(pre[k as int] < id));
                                assert(pre[k as int] < pre[m]);
                            }
                        }
                    }
                    assert forall|a: int, b: int|
                        0 <= a < b < present@.len() implies present@[a] < present@[b] by {
                        if a < k && b < k {
                        } else if a < k && b == k {
                            assert(present@[a] == pre[a]);
                        } else if a == k && b > k {
                            assert(present@[b] == pre[b - 1]);
                            assert(!(pre[b - 1] < id));
                            assert(pre[b - 1] != id);
                        } else if a < k && b > k {
                            assert(present@[a] == pre[a]);
                            assert(present@[b] == pre[b - 1]);
                        } else {
                            assert(present@[a] == pre[a - 1]);
                            assert(present@[b] == pre[b - 1]);
                        }
                    }
                    assert forall|x: u64| present@.contains(x) implies exists|j: int|
                        0 <= j < i + 1 && spec_route(self.ids@, #[trigger] kv[j]) == x by {
                        let m = choose|m: int|
                            0 <= m < present@.len() && #[trigger] present@[m] == x;
                        if m < k {
                            assert(pre[m] == x);
                            assert(pre.contains(x));
                            let j = choose|j: int|
                                0 <= j < i && spec_route(self.ids@, #[trigger] kv[j]) == x;
                        } else if m == k {
                            assert(x == id);
                            assert(spec_route(self.ids@, kv[i as int]) == x);
                        } else {
                            assert(pre[m - 1] == x);
                            assert(pre.contains(x));
                            let j = choose|j: int|
                                0 <= j < i && spec_route(self.ids@, #[trigger] kv[j]) == x;
                        }
                    }
                    assert forall|x: u64|
                        (exists|j: int|
                            0 <= j < i + 1 && spec_route(self.ids@, #[trigger] kv[j]) == x)
                            implies present@.contains(x) by {
                        let j = choose|j: int|
                            0 <= j < i + 1 && spec_route(self.ids@, #[trigger] kv[j]) == x;
                        if j == i {
                            assert(present@[k as int] == x);
                        } else {
                            assert(pre.contains(x));
                            let m = choose|m: int|
                                0 <= m < pre.len() && #[trigger] pre[m] == x;
                            if m < k {
                                assert(present@[m] == x);
                            } else {
                                assert(present@[m + 1] == x);
                            }
                        }
                    }
                }
            }
            i += 1;
        }
        // one group per present shard, keys in request order
        let mut groups: Vec<(ShardId, Vec<Key>)> = Vec::new();
        let mut g: usize = 0;
        while g < present.len()
            invariant
                g <= present@.len(),
                self.wf(),
                keys@.len() > 0 ==> self.ids@.len() > 0,
                kv == keys_view(keys@),
                ids_sorted(present@),
                groups@.len() == g,
                forall|x: int|
                    0 <= x < g ==> (#[trigger] groups@[x]).0 == present@[x],
                forall|x: int|
                    0 <= x < g ==> keys_view((#[trigger] groups@[x]).1@) == keys_for(
                        self.ids@,
                        kv,
                        present@[x],
                        0,
                    ),
            decreases present@.len() - g,
        {
            let id = present[g];
            let mut group: Vec<Key> = Vec::new();
            let mut j: usize = 0;
            proof {
                assert(keys_view(group@) + keys_for(self.ids@, kv, id, 0) =~= keys_for(
                    self.ids@,
                    kv,
                    id,
                    0,
                ));
            }
            while j < keys.len()
                invariant
                    j <= keys@.len(),
                    self.wf(),
                    keys@.len() > 0 ==> self.ids@.len() > 0,
                    kv == keys_view(keys@),
                    keys_view(group@) + keys_for(self.ids@, kv, id, j as int) == keys_for(
                        self.ids@,
                        kv,
                        id,
                        0,
                    ),
                decreases keys@.len() - j,
            {
                let ghost pre = keys_view(group@);
                let key = &keys[j];
                let route = match self.shard_id_for_key(key) {
                    Ok(r) => r,
                    Err(_) => {
                        proof {
                            assert(false);
                        }
                        return Err(DhtError::NoShards);
                    },
                };
                proof {
                    assert(kv[j as int] == keys@[j as int]@);
                    assert(route == spec_route(self.ids@, kv[j as int]));
                }
                if route == id {
                    let copied = clone_key(key);
                    group.push(copied);
                    proof {
                        assert(keys_view(group@) =~= pre + seq![kv[j as int]]);
                        assert(pre + seq![kv[j as int]] + keys_for(self.ids@, kv, id, j as int + 1)
                            =~= pre + keys_for(self.ids@, kv, id, j as int));
                    }
                } else {
                    proof {
                        assert(keys_for(self.ids@, kv, id, j as int) == keys_for(
                            self.ids@,
                            kv,
                            id,
                            j as int + 1,
                        ));
                    }
                }
                j += 1;
            }
            proof {
                assert(keys_for(self.ids@, kv, id, keys@.len() as int)
                    =~= Seq::<Seq<u8>>::empty());
                assert(keys_view(group@) =~= keys_for(self.ids@, kv, id, 0));
            }
            groups.push((id, group));
            g += 1;
        }
        proof {
            let gids = groups@.map_values(|x: (ShardId, Vec<Key>)| x.0);
            assert forall|a: int, b: int| 0 <= a < b < gids.len() implies #[trigger] gids[a] < (
            #[trigger] gids[b]) by {
                assert(gids[a] == groups@[a].0);
                assert(gids[b] == groups@[b].0);
            }
            assert forall|id: u64| plan_has_shard(groups@, id) implies some_key_routes(
                self.ids@,
                keys@,
                id,
            ) by {
                let x = choose|x: int|
                    0 <= x < groups@.len() && (#[trigger] groups@[x]).0 == id;
                assert(present@[x] == id);
                assert(present@.contains(id));
                let j = choose|j: int|
                    0 <= j < keys@.len() && spec_route(self.ids@, #[trigger] kv[j]) == id;
                assert(keys@[j]@ == kv[j]);
            }
            assert forall|id: u64| some_key_routes(self.ids@, keys@, id) implies plan_has_shard(
                groups@,
                id,
            ) by {
                let j = choose|j: int|
                    0 <= j < keys@.len() && spec_route(self.ids@, (#[trigger] keys@[j])@) == id;
                assert(kv[j] == keys@[j]@);
                assert(present@.contains(id));
                let m = choose|m: int| 0 <= m < present@.len() && #[trigger] present@[m] == id;
                assert(groups@[m].0 == id);
            }
        }
        Ok(groups)
    }
}

/// Inserts a table name into a sorted list, after any equals.
pub open spec fn ins_name(s: Seq<Key>, x: Key) -> Seq<Key>
    decreases s.len(),
{
    if s.len() == 0 {
        seq![x]
    } else if lex_lt(x@, s[0]@) {
        seq![x] + s
    } else {
        seq![s[0]] + ins_name(s.drop_first(), x)
    }
}

/// Stable sort of table names.
pub open spec fn sort_names(s: Seq<Key>) -> Seq<Key>
    decreases s.len(),
{
    if s.len() == 0 {
        Seq::empty()
    } else {
        ins_name(sort_names(s.drop_last()), s.last())
    }
}

/// Drops the later entries of each run of equal names.
pub open spec fn dedup_names_from(s: Seq<Key>, i: int) -> Seq<Key>
    decreases s.len() - i,
{
    if i < 0 || i >= s.len() {
        Seq::empty()
    } else if i > 0 && s[i]@ == s[i - 1]@ {
        dedup_names_from(s, i + 1)
    } else {
        seq![s[i]] + dedup_names_from(s, i + 1)
    }
}

pub open spec fn dedup_names(s: Seq<Key>) -> Seq<Key> {
    dedup_names_from(s, 0)
}

proof fn lemma_ins_name_at(s: Seq<Key>, x: Key, k: int)
    requires
        0 <= k <= s.len(),
        forall|j: int| 0 <= j < k ==> !lex_lt(x@, (#[trigger] s[j])@),
        k < s.len() ==> lex_lt(x@, s[k]@),
    ensures
        ins_name(s, x) == s.take(k) + seq![x] + s.skip(k),
    decreases k,
{
    if s.len() == 0 {
        assert(s.take(0) + seq![x] + s.skip(0) =~= seq![x]);
    } else if k == 0 {
        assert(s.take(0) + seq![x] + s.skip(0) =~= seq![x] + s);
    } else {
        assert(!lex_lt(x@, s[0]@));
        lemma_ins_name_at(s.drop_first(), x, k - 1);
        assert forall|j: int| 0 <= j < k - 1 implies !lex_lt(
            x@,
            (#[trigger] s.drop_first()[j])@,
        ) by {
            assert(s.drop_first()[j] == s[j + 1]);
        }
        assert(ins_name(s, x) == seq![s[0]] + ins_name(s.drop_first(), x));
        assert(seq![s[0]] + (s.drop_first().take(k - 1) + seq![x] + s.drop_first().skip(k - 1))
            =~= s.take(k) + seq![x] + s.skip(k));
    }
}

/// Inserts into a name-sorted vector, after equal names (stable).
fn insert_name(v: &mut Vec<Key>, x: Key)
    ensures
        final(v)@ == ins_name(old(v)@, x),
{
    let mut k: usize = 0;
    while k < v.len() && bytes_le(&v[k], &x)
        invariant
            k <= v@.len(),
            forall|j: int| 0 <= j < k ==> lex_le((#[trigger] v@[j])@, x@),
        decreases v@.len() - k,
    {
        k += 1;
    }
    proof {
        assert forall|j: int| 0 <= j < k implies !lex_lt(x@, (#[trigger] v@[j])@) by {
            lemma_lex_total(v@[j]@, x@);
        }
        if k < v@.len() {
            lemma_lex_total(v@[k as int]@, x@);
        }
        lemma_ins_name_at(v@, x, k as int);
    }
    v.insert(k, x);
    proof {
        assert(v@ =~= old(v)@.take(k as int) + seq![x] + old(v)@.skip(k as int));
    }
}

/// Merges the table lists gathered from every node of every shard: one
/// sorted list, each table once.
pub fn merge_table_lists(tables: Vec<Key>) -> (r: Vec<Key>)
    ensures
        r@ == dedup_names(sort_names(tables@)),
{
    let mut sorted: Vec<Key> = Vec::new();
    let mut remaining = tables;
    let ghost all = remaining@;
    while remaining.len() > 0
        invariant
            remaining@.len() <= all.len(),
            remaining@ == all.skip(all.len() - remaining@.len()),
            sorted@ == sort_names(all.take(all.len() - remaining@.len())),
        decreases remaining@.len(),
    {
        let ghost done = all.len() - remaining@.len();
        let x = remaining.remove(0);
        proof {
            assert(all.skip(done)[0] == all[done]);
            assert(x == all[done]);
            assert forall|y: int| 0 <= y < remaining@.len() implies remaining@[y] == all[done + 1
                + y] by {
                assert(remaining@[y] == all.skip(done)[y + 1]);
            }
            assert(remaining@ =~= all.skip(done + 1));
            assert(all.take(done + 1).drop_last() == all.take(done));
            assert(all.take(done + 1).last() == all[done]);
        }
        insert_name(&mut sorted, x);
    }
    proof {
        assert(all.take(all.len() as int) == all);
    }
    let ghost sv = sorted@;
    let mut out: Vec<Key> = Vec::new();
    let mut rest = sorted;
    proof {
        assert(rest@ =~= sv.skip(0));
        assert(out@ + dedup_names_from(sv, 0) =~= dedup_names(sv));
    }
    while rest.len() > 0
        invariant
            rest@.len() <= sv.len(),
            rest@ == sv.skip(sv.len() - rest@.len()),
            out@ + dedup_names_from(sv, sv.len() - rest@.len()) == dedup_names(sv),
            sv.len() - rest@.len() > 0 ==> out@.len() > 0 && out@.last()@ == sv[sv.len()
                - rest@.len() - 1]@,
        decreases rest@.len(),
    {
        let ghost i = sv.len() - rest@.len();
        let ghost pre = out@;
        let x = rest.remove(0);
        proof {
            assert(sv.skip(i)[0] == sv[i]);
            assert(x == sv[i]);
            assert forall|y: int| 0 <= y < rest@.len() implies rest@[y] == sv[i + 1 + y] by {
                assert(rest@[y] == sv.skip(i)[y + 1]);
            }
            assert(rest@ =~= sv.skip(i + 1));
        }
        let same = if out.len() > 0 {
            crate::schema::bytes_eq(&out[out.len() - 1], &x)
        } else {
            false
        };
        proof {
            if i == 0 {
                assert(!same);
            } else {
                assert(same == (sv[i]@ == sv[i - 1]@));
            }
        }
        if !same {
            out.push(x);
            proof {
                assert(out@ =~= pre + seq![sv[i]]);
                assert(pre + seq![sv[i]] + dedup_names_from(sv, i + 1) =~= pre
                    + dedup_names_from(sv, i));
            }
        } else {
            proof {
                assert(dedup_names_from(sv, i) == dedup_names_from(sv, i + 1));
                assert(out@.last()@ == sv[i]@);
            }
        }
    }
    proof {
        assert(dedup_names_from(sv, sv.len() as int) =~= Seq::<Key>::empty());
        assert(out@ =~= dedup_names(sv));
    }
    out
}

/// Routing is a function of the key and the shard-id set alone: two
/// clients whose sorted id lists hold the same ids route every key to
/// the same shard, however their members were discovered or in which
/// order nodes were added.
pub proof fn lemma_routing_stable(ids_a: Seq<u64>, ids_b: Seq<u64>, key: Seq<u8>)
    requires
        ids_sorted(ids_a),
        ids_sorted(ids_b),
        ids_a.to_set() == ids_b.to_set(),
    ensures
        ids_a == ids_b,
        ids_a.len() > 0 ==> spec_route(ids_a, key) == spec_route(ids_b, key),
{
    lemma_sorted_same_set_equal(ids_a, ids_b);
}

/// Two strictly ascending sequences over the same set are equal.
proof fn lemma_sorted_same_set_equal(a: Seq<u64>, b: Seq<u64>)
    requires
        ids_sorted(a),
        ids_sorted(b),
        a.to_set() == b.to_set(),
    ensures
        a == b,
    decreases a.len(),
{
    broadcast use vstd::seq_lib::group_seq_properties;

    if a.len() == 0 {
        if b.len() > 0 {
            assert(b.to_set().contains(b[0]));
            assert(a.to_set().contains(b[0]));
            assert(false);
        }
        assert(a =~= b);
    } else if b.len() == 0 {
        assert(a.to_set().contains(a[0]));
        assert(false);
    } else {
        // the heads are both the minimum of the common set
        assert(a.to_set().contains(a[0]));
        assert(b.to_set().contains(b[0]));
        assert(a.contains(b[0]));
        assert(b.contains(a[0]));
        let ka = choose|k: int| 0 <= k < a.len() && #[trigger] a[k] == b[0];
        let kb = choose|k: int| 0 <= k < b.len() && #[trigger] b[k] == a[0];
        assert(a[0] <= a[ka]);
        assert(b[0] <= b[kb]);
        assert(a[0] == b[0]);
        let ta = a.drop_first();
        let tb = b.drop_first();
        assert forall|x: u64| ta.to_set().contains(x) implies tb.to_set().contains(x) by {
            let k = choose|k: int| 0 <= k < ta.len() && #[trigger] ta[k] == x;
            assert(a[k + 1] == x);
            assert(a[0] < x);
            assert(a.contains(x));
            assert(a.to_set().contains(x));
            assert(b.to_set().contains(x));
            assert(b.contains(x));
            let m = choose|m: int| 0 <= m < b.len() && #[trigger] b[m] == x;
            assert(m != 0);
            assert(tb[m - 1] == x);
        }
        assert forall|x: u64| tb.to_set().contains(x) implies ta.to_set().contains(x) by {
            let k = choose|k: int| 0 <= k < tb.len() && #[trigger] tb[k] == x;
            assert(b[k + 1] == x);
            assert(b[0] < x);
            assert(b.contains(x));
            assert(b.to_set().contains(x));
            assert(a.to_set().contains(x));
            assert(a.contains(x));
            let m = choose|m: int| 0 <= m < a.len() && #[trigger] a[m] == x;
            assert(m != 0);
            assert(ta[m - 1] == x);
        }
        assert(ta.to_set() =~= tb.to_set());
        assert forall|i: int, j: int| 0 <= i < j < ta.len() implies ta[i] < ta[j] by {
            assert(a[i + 1] < a[j + 1]);
        }
        assert forall|i: int, j: int| 0 <= i < j < tb.len() implies tb[i] < tb[j] by {
            assert(b[i + 1] < b[j + 1]);
        }
        lemma_sorted_same_set_equal(ta, tb);
        assert(a =~= b);
    }
}

} // verus!
