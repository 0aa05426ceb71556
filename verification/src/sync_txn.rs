use vstd::prelude::*;
use vstd::string::StringExecFns;
use crate::block::{Block, BlockID, ClientID};
use crate::block_store::{contains_id, covers, tombstoned};
use crate::codec::{block_like, deserialize_vector_clock, serialize_updates, spec_emit_blocks, spec_emit_vc};
use crate::doc::{ClockEntry, Doc, VectorClock, eget, ehas, eidx};
use crate::utils::{CRDTError, Peer, Updates, peer_like};

verus! {

/// A block carrying the same data occurs in the batch.
pub open spec fn in_batch(bs: Seq<Block>, b: Block) -> bool {
    exists|k: int| 0 <= k < bs.len() && block_like(bs[k], b)
}

/// The block carries the same data as some stored block.
pub open spec fn from_store(b: Block, s: Seq<Block>) -> bool {
    exists|t: int| 0 <= t < s.len() && block_like(b, s[t])
}

/// Appending a block keeps every block the batch already carried.
proof fn lemma_in_batch_push(bs: Seq<Block>, q: Block, b: Block)
    requires
        in_batch(bs, b),
    ensures
        in_batch(bs.push(q), b),
{
    let k = choose|k: int| 0 <= k < bs.len() && block_like(bs[k], b);
    assert(bs.push(q)[k] == bs[k]);
    assert(block_like(bs.push(q)[k], b));
}

/// The blocks of the given client whose clocks start at or after `start`, in
/// strictly ascending clock order: exactly the suffix of that client's
/// append-log that a peer whose clock for this client stands at `start` has
/// not seen — every returned block is a stored block, and every stored block
/// of the client at or past `start` is returned.
pub fn construct_updates(doc: &Doc, start: u32, client: ClientID) -> (r: Updates)
    requires
        doc.wf(),
    ensures
        forall|k: int|
            0 <= k < r@.len() ==> (#[trigger] r@[k]).id.client == client && r@[k].id.clock
                >= start,
        forall|k1: int, k2: int|
            0 <= k1 < k2 < r@.len() ==> r@[k1].id.clock < r@[k2].id.clock,
        forall|k: int| 0 <= k < r@.len() ==> from_store(#[trigger] r@[k], doc.block_store@),
        forall|t: int|
            (0 <= t < doc.block_store@.len() && (#[trigger] doc.block_store@[t]).id.client
                == client && doc.block_store@[t].id.clock >= start) ==> in_batch(
                r@,
                doc.block_store@[t],
            ),
{
    let s = &doc.block_store.total_store.list;
    let n = s.len();
    let mut r: Updates = Vec::new();
    let mut cursor: u32 = start;
    let mut more = true;
    while more
        invariant
            doc.wf(),
            n == doc.block_store@.len(),
            s@ == doc.block_store@,
            start <= cursor,
            forall|k: int|
                0 <= k < r@.len() ==> (#[trigger] r@[k]).id.client == client && start
                    <= r@[k].id.clock < cursor,
            forall|k1: int, k2: int|
                0 <= k1 < k2 < r@.len() ==> r@[k1].id.clock < r@[k2].id.clock,
            forall|k: int| 0 <= k < r@.len() ==> from_store(#[trigger] r@[k], doc.block_store@),
            forall|t: int|
                (0 <= t < n && (#[trigger] s@[t]).id.client == client && start <= s@[t].id.clock
                    < cursor) ==> in_batch(r@, s@[t]),
            !more ==> (forall|t: int|
                0 <= t < n ==> !((#[trigger] s@[t]).id.client == client && s@[t].id.clock
                    >= cursor)),
        decreases
            (if more {
                1int
            } else {
                0int
            }),
            u32::MAX - cursor,
    {
        // Select the stored block of this client with the least clock at or
        // past the cursor.
        let mut best: usize = 0;
        let mut found = false;
        let mut t: usize = 0;
        while t < n
            invariant
                n == s@.len(),
                s@ == doc.block_store@,
                t <= n,
                found ==> best < n && s@[best as int].id.client == client && s@[best
                    as int].id.clock >= cursor,
                found ==> (forall|q: int|
                    0 <= q < t && (#[trigger] s@[q]).id.client == client && s@[q].id.clock
                        >= cursor ==> s@[best as int].id.clock <= s@[q].id.clock),
                !found ==> (forall|q: int|
                    0 <= q < t ==> !((#[trigger] s@[q]).id.client == client && s@[q].id.clock
                        >= cursor)),
            decreases n - t,
        {
            if s[t].id.client == client && s[t].id.clock >= cursor {
                if !found || s[t].id.clock < s[best].id.clock {
                    best = t;
                    found = true;
                }
            }
            t = t + 1;
        }
        if !found {
            more = false;
        } else {
            let b = s[best].duplicate();
            let next_cursor = b.id.clock;
            let ghost rpre = r@;
            proof {
                assert(doc.block_store@[best as int].len() > 0);
                assert(doc.block_store@[best as int].id.clock + doc.block_store@[best
                    as int].len() <= u32::MAX);
            }
            r.push(b);
            proof {
                let bi = best as int;
                assert(r@ == rpre.push(b));
                assert(forall|k: int| 0 <= k < rpre.len() ==> r@[k] == rpre[k]);
                assert(r@[rpre.len() as int] == b);
                assert(b == s@[bi]);
                assert(block_like(b, s@[bi]));
                assert(from_store(b, doc.block_store@));
                assert(in_batch(r@, s@[bi]));
                assert forall|k: int|
                    0 <= k < r@.len() implies from_store(#[trigger] r@[k], doc.block_store@) by {
                    if k < rpre.len() {
                        assert(r@[k] == rpre[k]);
                        assert(from_store(rpre[k], doc.block_store@));
                    }
                }
                assert forall|t2: int|
                    (0 <= t2 < n && (#[trigger] s@[t2]).id.client == client && start
                        <= s@[t2].id.clock < b.id.clock + 1) implies in_batch(r@, s@[t2]) by {
                    if s@[t2].id.clock < cursor {
                        assert(in_batch(rpre, s@[t2]));
                        lemma_in_batch_push(rpre, b, s@[t2]);
                    } else {
                        // The selection took the least such clock, so this
                        // block's clock equals it, and ids are unique.
                        assert(s@[bi].id.clock <= s@[t2].id.clock);
                        assert(s@[t2].id.clock == b.id.clock);
                        assert(s@[t2].id == s@[bi].id);
                        if t2 != bi {
                            assert(false);
                        }
                        assert(in_batch(r@, s@[t2]));
                    }
                }
            }
            cursor = next_cursor + 1;
        }
    }
    r
}

/// What a pull must return: `bs` is a diff of the store `s` from the
/// requester's clock entries `rents` toward the responder's `lents` when
/// every batch block is unseen by the requester and carries a stored
/// block's data, only clients the requester trails contribute, each client's
/// blocks come in strictly ascending clock order, and every stored block of
/// a trailing client at or past the requester's clock is in the batch.
pub open spec fn is_diff_of(
    s: Seq<Block>,
    lents: Seq<ClockEntry>,
    rents: Seq<ClockEntry>,
    bs: Seq<Block>,
) -> bool {
    &&& (forall|k: int|
        0 <= k < bs.len() ==> (#[trigger] bs[k]).id.clock >= eget(rents, bs[k].id.client))
    &&& (forall|k: int| 0 <= k < bs.len() ==> from_store(#[trigger] bs[k], s))
    &&& (forall|k: int|
        0 <= k < bs.len() ==> eget(rents, (#[trigger] bs[k]).id.client) < eget(
            lents,
            bs[k].id.client,
        ))
    &&& (forall|k1: int, k2: int|
        (0 <= k1 < k2 < bs.len() && (#[trigger] bs[k1]).id.client == (
        #[trigger] bs[k2]).id.client) ==> bs[k1].id.clock < bs[k2].id.clock)
    &&& (forall|t: int|
        (0 <= t < s.len() && eget(rents, (#[trigger] s[t]).id.client) <= s[t].id.clock && eget(
            rents,
            s[t].id.client,
        ) < eget(lents, s[t].id.client)) ==> in_batch(bs, s[t]))
}

/// The diff a peer at `remote` is missing from this replica: for every
/// client this replica's clock knows and the peer's clock trails, the blocks
/// at or past the peer's clock, grouped per client and in clock order within
/// each group. Nothing the peer has already seen is resent, every sent block
/// is a stored block, and every stored block between the peer's clock and
/// this replica's is sent.
pub fn compute_diff(doc: &Doc, remote: &VectorClock) -> (r: Updates)
    requires
        doc.wf(),
        remote.wf(),
    ensures
        is_diff_of(doc.block_store@, doc.vector_clock.clock_map@, remote.clock_map@, r@),
{
    let entries = &doc.vector_clock.clock_map;
    let n = entries.len();
    let mut r: Updates = Vec::new();
    let mut i: usize = 0;
    while i < n
        invariant
            doc.wf(),
            remote.wf(),
            n == doc.vector_clock.clock_map@.len(),
            entries@ == doc.vector_clock.clock_map@,
            i <= n,
            forall|k: int|
                0 <= k < r@.len() ==> (#[trigger] r@[k]).id.clock >= remote.spec_get(
                    r@[k].id.client,
                ),
            forall|k: int| 0 <= k < r@.len() ==> from_store(#[trigger] r@[k], doc.block_store@),
            forall|k: int|
                0 <= k < r@.len() ==> remote.spec_get((#[trigger] r@[k]).id.client)
                    < doc.vector_clock.spec_get(r@[k].id.client),
            forall|k: int|
                0 <= k < r@.len() ==> (exists|e: int|
                    0 <= e < i && entries@[e].client == (#[trigger] r@[k]).id.client),
            forall|k1: int, k2: int|
                (0 <= k1 < k2 < r@.len() && (#[trigger] r@[k1]).id.client == (
                #[trigger] r@[k2]).id.client) ==> r@[k1].id.clock < r@[k2].id.clock,
            forall|t: int|
                (0 <= t < doc.block_store@.len() && remote.spec_get(
                    (#[trigger] doc.block_store@[t]).id.client,
                ) <= doc.block_store@[t].id.clock && remote.spec_get(
                    doc.block_store@[t].id.client,
                ) < doc.vector_clock.spec_get(doc.block_store@[t].id.client) && (exists|e: int|
                    0 <= e < i && entries@[e].client == doc.block_store@[t].id.client))
                    ==> in_batch(r@, doc.block_store@[t]),
        decreases n - i,
    {
        let c = entries[i].client;
        let local_clock = entries[i].clock;
        let rc = remote.get(c);
        proof {
            assert(local_clock == doc.vector_clock.spec_get(c)) by {
                assert(entries@[i as int].client == c);
                assert(doc.vector_clock.has(c));
                let ix = doc.vector_clock.spec_idx(c);
                if ix != i as int {
                    assert(entries@[ix].client == c);
                    assert(false);
                }
            }
        }
        let ghost rpre = r@;
        if rc < local_clock {
            let mut part = construct_updates(doc, rc, c);
            let ghost partv = part@;
            r.append(&mut part);
            proof {
                assert(r@ =~= rpre + partv);
                assert(forall|k: int| 0 <= k < rpre.len() ==> r@[k] == rpre[k]);
                assert(forall|k: int|
                    rpre.len() <= k < r@.len() ==> r@[k] == partv[k - rpre.len()]);
                assert forall|k: int|
                    0 <= k < r@.len() implies (#[trigger] r@[k]).id.clock >= remote.spec_get(
                    r@[k].id.client,
                ) && from_store(r@[k], doc.block_store@) && remote.spec_get(r@[k].id.client)
                    < doc.vector_clock.spec_get(r@[k].id.client) && (exists|e: int|
                    0 <= e < i + 1 && entries@[e].client == r@[k].id.client) by {
                    if k < rpre.len() {
                        assert(r@[k] == rpre[k]);
                        assert(from_store(rpre[k], doc.block_store@));
                        let e = choose|e: int|
                            0 <= e < i && entries@[e].client == rpre[k].id.client;
                        assert(entries@[e].client == r@[k].id.client);
                    } else {
                        assert(partv[k - rpre.len()].id.client == c);
                        assert(partv[k - rpre.len()].id.clock >= rc);
                        assert(from_store(partv[k - rpre.len()], doc.block_store@));
                        assert(entries@[i as int].client == r@[k].id.client);
                    }
                }
                // Per-client order: the parts carry distinct clients.
                assert forall|k1: int, k2: int|
                    (0 <= k1 < k2 < r@.len() && (#[trigger] r@[k1]).id.client == (
                    #[trigger] r@[k2]).id.client) implies r@[k1].id.clock < r@[k2].id.clock by {
                    if k2 < rpre.len() {
                        assert(rpre[k1].id.clock < rpre[k2].id.clock);
                    } else if k1 >= rpre.len() {
                        assert(partv[k1 - rpre.len()].id.clock < partv[k2 - rpre.len()].id.clock);
                    } else {
                        // A block of an earlier entry cannot share the
                        // current entry's client.
                        assert(r@[k2].id.client == c);
                        let e = choose|e: int|
                            0 <= e < i && entries@[e].client == rpre[k1].id.client;
                        assert(entries@[e].client == entries@[i as int].client);
                        assert(false);
                    }
                }
                assert forall|t: int|
                    (0 <= t < doc.block_store@.len() && remote.spec_get(
                        (#[trigger] doc.block_store@[t]).id.client,
                    ) <= doc.block_store@[t].id.clock && remote.spec_get(
                        doc.block_store@[t].id.client,
                    ) < doc.vector_clock.spec_get(doc.block_store@[t].id.client) && (exists|
                        e: int,
                    |
                        0 <= e < i + 1 && entries@[e].client == doc.block_store@[t].id.client))
                    implies in_batch(r@, doc.block_store@[t]) by {
                    let b = doc.block_store@[t];
                    let e = choose|e: int|
                        0 <= e < i + 1 && entries@[e].client == b.id.client;
                    if e < i as int {
                        let k = choose|k: int| 0 <= k < rpre.len() && block_like(rpre[k], b);
                        assert(r@[k] == rpre[k]);
                        assert(block_like(r@[k], b));
                    } else {
                        assert(b.id.client == c);
                        assert(b.id.clock >= rc);
                        assert(in_batch(partv, b));
                        let k = choose|k: int| 0 <= k < partv.len() && block_like(partv[k], b);
                        assert(r@[rpre.len() + k] == partv[k]);
                        assert(block_like(r@[rpre.len() + k], b));
                    }
                }
            }
        } else {
            proof {
                assert forall|t: int|
                    (0 <= t < doc.block_store@.len() && remote.spec_get(
                        (#[trigger] doc.block_store@[t]).id.client,
                    ) <= doc.block_store@[t].id.clock && remote.spec_get(
                        doc.block_store@[t].id.client,
                    ) < doc.vector_clock.spec_get(doc.block_store@[t].id.client) && (exists|
                        e: int,
                    |
                        0 <= e < i + 1 && entries@[e].client == doc.block_store@[t].id.client))
                    implies in_batch(r@, doc.block_store@[t]) by {
                    let b = doc.block_store@[t];
                    let e = choose|e: int|
                        0 <= e < i + 1 && entries@[e].client == b.id.client;
                    if e < i as int {
                        let k = choose|k: int| 0 <= k < r@.len() && block_like(r@[k], b);
                        assert(block_like(r@[k], b));
                    } else {
                        // The requester does not trail this client: no block
                        // of it is owed.
                        assert(b.id.client == c);
                        assert(remote.spec_get(c) < doc.vector_clock.spec_get(c));
                        assert(rc < local_clock);
                        assert(false);
                    }
                }
            }
        }
        i = i + 1;
    }
    proof {
        assert forall|t: int|
            (0 <= t < doc.block_store@.len() && eget(
                remote.clock_map@,
                (#[trigger] doc.block_store@[t]).id.client,
            ) <= doc.block_store@[t].id.clock && eget(
                remote.clock_map@,
                doc.block_store@[t].id.client,
            ) < eget(doc.vector_clock.clock_map@, doc.block_store@[t].id.client)) implies in_batch(
            r@,
            doc.block_store@[t],
        ) by {
            let b = doc.block_store@[t];
            assert(eget(doc.vector_clock.clock_map@, b.id.client) > 0);
            assert(ehas(doc.vector_clock.clock_map@, b.id.client));
            let e = eidx(doc.vector_clock.clock_map@, b.id.client);
            assert(entries@[e].client == b.id.client);
        }
    }
    r
}

/// Routes a batch of remote updates by the tombstone bit: the non-tombstoned
/// sublist is integrated as insertions, then the tombstoned sublist as
/// deletions, each in arrival order. Every block of the batch is afterwards
/// in the store by id or waiting in the pending buffer — except the owner's
/// own echoed insertions, which are dropped — every tombstoned batch block
/// whose target clock was covered ends present and tombstoned, and the
/// buffer holds only blocks it already held or blocks of this batch.
pub fn update_remote(doc: &mut Doc, updates: Updates)
    requires
        old(doc).wf(),
    ensures
        final(doc).wf(),
        final(doc).client == old(doc).client,
        final(doc).name == old(doc).name,
        final(doc).peers == old(doc).peers,
        forall|q: BlockID|
            contains_id(old(doc).block_store@, q) ==> contains_id(final(doc).block_store@, q),
        forall|q: BlockID|
            tombstoned(old(doc).block_store@, q) ==> tombstoned(final(doc).block_store@, q),
        forall|j: int|
            0 <= j < updates@.len() ==> contains_id(
                final(doc).block_store@,
                (#[trigger] updates@[j]).id,
            ) || final(doc).pending_holds(updates@[j].id) || (updates@[j].id.client == old(
                doc,
            ).client && !updates@[j].is_deleted),
        forall|j: int|
            (0 <= j < updates@.len() && (#[trigger] updates@[j]).is_deleted && covers(
                old(doc).block_store@,
                updates@[j].id.client,
                updates@[j].id.clock as nat,
            )) ==> tombstoned(final(doc).block_store@, updates@[j].id),
        forall|q: BlockID|
            old(doc).pending_holds(q) ==> final(doc).pending_holds(q) || contains_id(
                final(doc).block_store@,
                q,
            ),
        forall|p: int|
            0 <= p < final(doc).pending_updates@.len() ==> old(doc).pending_holds(
                (#[trigger] final(doc).pending_updates@[p]).id,
            ) || (exists|j: int|
                0 <= j < updates@.len() && updates@[j].id == final(doc).pending_updates@[p].id),
{
    let mut delete_list: Updates = Vec::new();
    let mut update_list: Updates = Vec::new();
    let n = updates.len();
    let mut i: usize = 0;
    while i < n
        invariant
            n == updates@.len(),
            i <= n,
            forall|k: int|
                0 <= k < update_list@.len() ==> exists|j: int|
                    0 <= j < i && #[trigger] update_list@[k] == updates@[j],
            forall|k: int|
                0 <= k < delete_list@.len() ==> exists|j: int|
                    0 <= j < i && #[trigger] delete_list@[k] == updates@[j],
            forall|j: int|
                0 <= j < i && !(#[trigger] updates@[j]).is_deleted ==> exists|k: int|
                    0 <= k < update_list@.len() && update_list@[k] == updates@[j],
            forall|j: int|
                0 <= j < i && (#[trigger] updates@[j]).is_deleted ==> exists|k: int|
                    0 <= k < delete_list@.len() && delete_list@[k] == updates@[j],
        decreases n - i,
    {
        let b = updates[i].duplicate();
        let ghost upre = update_list@;
        let ghost dpre = delete_list@;
        if b.is_deleted {
            delete_list.push(b);
        } else {
            update_list.push(b);
        }
        proof {
            if updates@[i as int].is_deleted {
                assert(delete_list@[dpre.len() as int] == updates@[i as int]);
                assert(forall|k: int| 0 <= k < dpre.len() ==> delete_list@[k] == dpre[k]);
            } else {
                assert(update_list@[upre.len() as int] == updates@[i as int]);
                assert(forall|k: int| 0 <= k < upre.len() ==> update_list@[k] == upre[k]);
            }
            assert forall|k: int|
                0 <= k < update_list@.len() implies exists|j: int|
                    0 <= j < i + 1 && #[trigger] update_list@[k] == updates@[j] by {
                if k < upre.len() {
                    let j = choose|j: int| 0 <= j < i && upre[k] == updates@[j];
                    assert(update_list@[k] == updates@[j]);
                }
            }
            assert forall|k: int|
                0 <= k < delete_list@.len() implies exists|j: int|
                    0 <= j < i + 1 && #[trigger] delete_list@[k] == updates@[j] by {
                if k < dpre.len() {
                    let j = choose|j: int| 0 <= j < i && dpre[k] == updates@[j];
                    assert(delete_list@[k] == updates@[j]);
                }
            }
            assert forall|j: int|
                0 <= j < i + 1 && !(#[trigger] updates@[j]).is_deleted implies exists|k: int|
                    0 <= k < update_list@.len() && update_list@[k] == updates@[j] by {
                if j < i as int {
                    let k = choose|k: int| 0 <= k < upre.len() && upre[k] == updates@[j];
                    assert(update_list@[k] == updates@[j]);
                }
            }
            assert forall|j: int|
                0 <= j < i + 1 && (#[trigger] updates@[j]).is_deleted implies exists|k: int|
                    0 <= k < delete_list@.len() && delete_list@[k] == updates@[j] by {
                if j < i as int {
                    let k = choose|k: int| 0 <= k < dpre.len() && dpre[k] == updates@[j];
                    assert(delete_list@[k] == updates@[j]);
                }
            }
        }
        i = i + 1;
    }
    let ghost ul = update_list@;
    let ghost dl = delete_list@;
    let ghost pre = *doc;
    doc.insert_remote(update_list);
    let ghost mid = *doc;
    doc.delete_remote(delete_list);
    proof {
        assert forall|j: int|
            (0 <= j < updates@.len() && (#[trigger] updates@[j]).is_deleted && covers(
                old(doc).block_store@,
                updates@[j].id.client,
                updates@[j].id.clock as nat,
            )) implies tombstoned(doc.block_store@, updates@[j].id) by {
            let k = choose|k: int| 0 <= k < dl.len() && dl[k] == updates@[j];
            assert(covers(mid.block_store@, dl[k].id.client, dl[k].id.clock as nat));
            assert(tombstoned(doc.block_store@, dl[k].id));
        }
        assert forall|j: int|
            0 <= j < updates@.len() implies contains_id(
            doc.block_store@,
            (#[trigger] updates@[j]).id,
        ) || doc.pending_holds(updates@[j].id) || (updates@[j].id.client == old(doc).client
            && !updates@[j].is_deleted) by {
            if updates@[j].is_deleted {
                let k = choose|k: int| 0 <= k < dl.len() && dl[k] == updates@[j];
                assert(contains_id(doc.block_store@, dl[k].id) || doc.pending_holds(dl[k].id));
            } else {
                let k = choose|k: int| 0 <= k < ul.len() && ul[k] == updates@[j];
                assert(contains_id(mid.block_store@, ul[k].id) || mid.pending_holds(ul[k].id)
                    || ul[k].id.client == pre.client);
            }
        }
        assert forall|p: int|
            0 <= p < doc.pending_updates@.len() implies old(doc).pending_holds(
            (#[trigger] doc.pending_updates@[p]).id,
        ) || (exists|j: int|
            0 <= j < updates@.len() && updates@[j].id == doc.pending_updates@[p].id) by {
            let q = doc.pending_updates@[p].id;
            if mid.pending_holds(q) {
                let p2 = choose|p2: int|
                    0 <= p2 < mid.pending_updates@.len() && mid.pending_updates@[p2].id == q;
                if !pre.pending_holds(q) {
                    let j2 = choose|j2: int| 0 <= j2 < ul.len() && ul[j2].id == q;
                    let j3 = choose|j3: int| 0 <= j3 < updates@.len() && ul[j2] == updates@[j3];
                    assert(updates@[j3].id == q);
                }
            } else {
                let j2 = choose|j2: int| 0 <= j2 < dl.len() && dl[j2].id == q;
                let j3 = choose|j3: int| 0 <= j3 < updates@.len() && dl[j2] == updates@[j3];
                assert(updates@[j3].id == q);
            }
        }
    }
}

/// The list holds a peer with the same data.
pub open spec fn has_peer(list: Seq<Peer>, p: Peer) -> bool {
    exists|k: int| 0 <= k < list.len() && peer_like(list[k], p)
}

/// The peer carries the same data as some entry of the list.
pub open spec fn from_list(p: Peer, list: Seq<Peer>) -> bool {
    exists|t: int| 0 <= t < list.len() && peer_like(p, list[t])
}

/// Appending an entry keeps every peer the list already held.
proof fn lemma_has_peer_push(list: Seq<Peer>, q: Peer, p: Peer)
    requires
        has_peer(list, p),
    ensures
        has_peer(list.push(q), p),
{
    let k = choose|k: int| 0 <= k < list.len() && peer_like(list[k], p);
    assert(list.push(q)[k] == list[k]);
    assert(peer_like(list.push(q)[k], p));
}

/// Whether the list holds a peer with the same data.
fn contains_peer(list: &Vec<Peer>, p: &Peer) -> (r: bool)
    ensures
        r == has_peer(list@, *p),
{
    let m = list.len();
    let mut k: usize = 0;
    while k < m
        invariant
            m == list@.len(),
            k <= m,
            forall|t: int| 0 <= t < k ==> !peer_like(list@[t], *p),
        decreases m - k,
    {
        if list[k].same_as(p) {
            proof {
                assert(peer_like(list@[k as int], *p));
            }
            return true;
        }
        k = k + 1;
    }
    false
}

/// Merges a received peer list into the local one, additively: known peers
/// are never removed, every received peer is present afterwards, and nothing
/// but received peers is added.
pub fn merge_peers(local: &mut Vec<Peer>, remote: &Vec<Peer>)
    ensures
        final(local)@.len() >= old(local)@.len(),
        forall|k: int| 0 <= k < old(local)@.len() ==> final(local)@[k] == old(local)@[k],
        forall|t: int| 0 <= t < remote@.len() ==> has_peer(final(local)@, #[trigger] remote@[t]),
        forall|k: int|
            old(local)@.len() <= k < final(local)@.len() ==> from_list(
                #[trigger] final(local)@[k],
                remote@,
            ),
{
    let n = remote.len();
    let mut j: usize = 0;
    while j < n
        invariant
            n == remote@.len(),
            j <= n,
            local@.len() >= old(local)@.len(),
            forall|k: int| 0 <= k < old(local)@.len() ==> local@[k] == old(local)@[k],
            forall|t: int| 0 <= t < j ==> has_peer(local@, #[trigger] remote@[t]),
            forall|k: int|
                old(local)@.len() <= k < local@.len() ==> from_list(
                    #[trigger] local@[k],
                    remote@,
                ),
        decreases n - j,
    {
        let p = Peer { client_id: remote[j].client_id, ip_addr: remote[j].ip_addr.clone() };
        proof {
            assert(p.client_id == remote@[j as int].client_id);
            assert(p.ip_addr@ == remote@[j as int].ip_addr@);
        }
        if !contains_peer(local, &p) {
            let ghost lpre = local@;
            local.push(p);
            proof {
                let m = lpre.len() as int;
                assert(local@ == lpre.push(local@[m]));
                assert(peer_like(local@[m], remote@[j as int]));
                assert(has_peer(local@, remote@[j as int]));
                assert(from_list(local@[m], remote@));
                assert forall|t: int| 0 <= t < j + 1 implies has_peer(
                    local@,
                    #[trigger] remote@[t],
                ) by {
                    if t < j as int {
                        lemma_has_peer_push(lpre, local@[m], remote@[t]);
                    }
                }
                assert forall|k: int|
                    old(local)@.len() <= k < local@.len() implies from_list(
                    #[trigger] local@[k],
                    remote@,
                ) by {
                    if k < m {
                        assert(local@[k] == lpre[k]);
                        assert(from_list(lpre[k], remote@));
                    }
                }
            }
        } else {
            proof {
                let k = choose|k: int| 0 <= k < local@.len() && peer_like(local@[k], p);
                assert(peer_like(local@[k], remote@[j as int]));
                assert(has_peer(local@, remote@[j as int]));
            }
        }
        j = j + 1;
    }
}

/// Serves one pull: reads the requester's vector clock from its wire form,
/// computes the diff, and returns it in wire form. Succeeds exactly on the
/// canonical emission of a clock with distinct clients, and the payload is
/// then the emission of a diff of this replica's store from that clock;
/// anything else is refused as a malformed payload.
pub fn get_remote_updates(doc: &Doc, vector_clock_json: &str) -> (r: Result<String, CRDTError>)
    requires
        doc.wf(),
    ensures
        match r {
            Ok(out) => exists|es: Seq<ClockEntry>, bs: Seq<Block>|
                {
                    &&& vector_clock_json@ == spec_emit_vc(es)
                    &&& (forall|a: int, b: int|
                        0 <= a < b < es.len() ==> es[a].client != es[b].client)
                    &&& out@ == spec_emit_blocks(bs)
                    &&& #[trigger] is_diff_of(
                        doc.block_store@,
                        doc.vector_clock.clock_map@,
                        es,
                        bs,
                    )
                },
            Err(e) => e is MalformedPayload && (forall|es: Seq<ClockEntry>|
                (vector_clock_json@ == spec_emit_vc(es) && (forall|a: int, b: int|
                    0 <= a < b < es.len() ==> es[a].client != es[b].client)) ==> false),
        },
{
    match deserialize_vector_clock(vector_clock_json) {
        Some(remote) => {
            let diff = compute_diff(doc, &remote);
            let out = serialize_updates(&diff);
            proof {
                assert(vector_clock_json@ == spec_emit_vc(remote.clock_map@));
                assert(out@ == spec_emit_blocks(diff@));
                assert(is_diff_of(
                    doc.block_store@,
                    doc.vector_clock.clock_map@,
                    remote.clock_map@,
                    diff@,
                ));
            }
            Ok(out)
        },
        None => {
            let mut m = String::new();
            m.append("vector clock does not parse");
            Err(CRDTError::MalformedPayload(m))
        },
    }
}

/// Installs the peer list received at registration; the owner's clock is
/// already correct, since every reachable document keeps it equal to the
/// owner's log length.
pub fn apply_registration(doc: &mut Doc, peers: Vec<Peer>)
    requires
        old(doc).wf(),
    ensures
        final(doc).wf(),
        final(doc).client == old(doc).client,
        final(doc).name == old(doc).name,
        final(doc).peers == peers,
        final(doc).block_store@ == old(doc).block_store@,
        final(doc).vector_clock == old(doc).vector_clock,
        final(doc).pending_updates == old(doc).pending_updates,
{
    doc.peers = peers;
}

} // verus!
