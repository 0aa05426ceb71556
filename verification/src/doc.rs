use vstd::prelude::*;
use vstd::string::StrSliceExecFns;
use crate::block::{Block, BlockID, Content, ClientID};
use crate::block_store::{
    BlockStore, anchor_resolved, client_contiguous, client_len, contains_id, cover_idx, covers,
    is_split_of, tombstoned,
    lemma_client_len_insert, spec_index_of, lemma_covers_insert, lemma_insert_wf, lemma_render_concat, lemma_render_insert,
    lemma_render_singleton, lemma_tombstone_preserves, ranges_disjoint, spec_render, unique_ids,
    visible, wf_seq,
};
use crate::utils::{Peer, Updates};

verus! {

/// One client's entry in a vector clock.
#[derive(Clone, Copy, PartialEq, Eq, Structural, Debug)]
pub struct ClockEntry {
    pub client: ClientID,
    pub clock: u32,
}

/// Some entry of the sequence names the client.
pub open spec fn ehas(es: Seq<ClockEntry>, c: ClientID) -> bool {
    exists|i: int| 0 <= i < es.len() && es[i].client == c
}

/// The index of the client's entry; meaningful when one exists and clients
/// are unique.
pub open spec fn eidx(es: Seq<ClockEntry>, c: ClientID) -> int {
    choose|i: int| 0 <= i < es.len() && es[i].client == c
}

/// The clock an entry sequence records for a client; zero when the client
/// has no entry.
pub open spec fn eget(es: Seq<ClockEntry>, c: ClientID) -> u32 {
    if ehas(es, c) {
        es[eidx(es, c)].clock
    } else {
        0
    }
}

/// The latest clock of every known client: for each client, the total number
/// of characters that client has appended, which is also the next unused
/// clock value. A client without an entry stands at zero.
#[derive(Clone, Debug)]
pub struct VectorClock {
    pub clock_map: Vec<ClockEntry>,
}

impl VectorClock {
    /// At most one entry per client.
    pub open spec fn wf(self) -> bool {
        forall|i: int, j: int|
            0 <= i < j < self.clock_map@.len() ==> self.clock_map@[i].client
                != self.clock_map@[j].client
    }

    pub open spec fn has(self, c: ClientID) -> bool {
        ehas(self.clock_map@, c)
    }

    pub open spec fn spec_idx(self, c: ClientID) -> int {
        eidx(self.clock_map@, c)
    }

    /// The clock recorded for a client; zero when the client is unknown.
    pub open spec fn spec_get(self, c: ClientID) -> u32 {
        eget(self.clock_map@, c)
    }

    pub fn new() -> (r: VectorClock)
        ensures
            r.wf(),
            forall|c: ClientID| r.spec_get(c) == 0,
    {
        VectorClock { clock_map: Vec::new() }
    }

    /// A vector clock holding exactly the given entries.
    pub fn from(entries: Vec<ClockEntry>) -> (r: VectorClock)
        requires
            forall|i: int, j: int|
                0 <= i < j < entries@.len() ==> entries@[i].client != entries@[j].client,
        ensures
            r.wf(),
            r.clock_map@ == entries@,
    {
        VectorClock { clock_map: entries }
    }

    /// An exact copy.
    pub fn duplicate(&self) -> (r: VectorClock)
        ensures
            r.clock_map@ == self.clock_map@,
    {
        let mut entries: Vec<ClockEntry> = Vec::new();
        let mut i: usize = 0;
        while i < self.clock_map.len()
            invariant
                i <= self.clock_map@.len(),
                entries@ =~= self.clock_map@.take(i as int),
            decreases self.clock_map@.len() - i,
        {
            entries.push(self.clock_map[i]);
            i = i + 1;
        }
        assert(entries@ =~= self.clock_map@);
        VectorClock { clock_map: entries }
    }

    /// The clock recorded for a client; zero when the client is unknown.
    pub fn get(&self, c: ClientID) -> (r: u32)
        requires
            self.wf(),
        ensures
            r == self.spec_get(c),
    {
        let mut i: usize = 0;
        while i < self.clock_map.len()
            invariant
                self.wf(),
                i <= self.clock_map@.len(),
                forall|j: int| 0 <= j < i ==> self.clock_map@[j].client != c,
            decreases self.clock_map@.len() - i,
        {
            if self.clock_map[i].client == c {
                proof {
                    let j = self.spec_idx(c);
                    assert(self.clock_map@[j].client == c);
                    if j != i as int {
                        assert(false);
                    }
                }
                return self.clock_map[i].clock;
            }
            i = i + 1;
        }
        proof {
            if self.has(c) {
                let j = self.spec_idx(c);
                assert(self.clock_map@[j].client == c);
                assert(false);
            }
        }
        0
    }

    /// Records `v` as the client's clock.
    pub fn set(&mut self, c: ClientID, v: u32)
        requires
            old(self).wf(),
        ensures
            final(self).wf(),
            final(self).spec_get(c) == v,
            forall|c2: ClientID| c2 != c ==> final(self).spec_get(c2) == old(self).spec_get(c2),
    {
        let n = self.clock_map.len();
        let mut i: usize = 0;
        while i < n
            invariant
                n == self.clock_map@.len(),
                self.wf(),
                self == old(self),
                i <= n,
                forall|j: int| 0 <= j < i ==> self.clock_map@[j].client != c,
            decreases n - i,
        {
            if self.clock_map[i].client == c {
                self.clock_map[i] = ClockEntry { client: c, clock: v };
                proof {
                    let post = self.clock_map@;
                    let pre = old(self).clock_map@;
                    assert(forall|j: int| 0 <= j < post.len() && j != i ==> post[j] == pre[j]);
                    assert(final(self).wf());
                    assert(final(self).has(c));
                    let k = final(self).spec_idx(c);
                    if k != i as int {
                        assert(pre[k].client == c);
                        assert(false);
                    }
                    assert forall|c2: ClientID| c2 != c implies final(self).spec_get(c2) == old(
                        self,
                    ).spec_get(c2) by {
                        if final(self).has(c2) {
                            let k2 = final(self).spec_idx(c2);
                            assert(post[k2].client == c2);
                            assert(k2 != i as int);
                            assert(pre[k2].client == c2);
                            assert(old(self).has(c2));
                            let k3 = old(self).spec_idx(c2);
                            if k3 != k2 {
                                assert(pre[k3].client == c2);
                                assert(false);
                            }
                        }
                        if old(self).has(c2) {
                            let k2 = old(self).spec_idx(c2);
                            assert(pre[k2].client == c2);
                            assert(k2 != i as int);
                            assert(post[k2].client == c2);
                            assert(final(self).has(c2));
                        }
                    }
                }
                return ;
            }
            i = i + 1;
        }
        proof {
            if self.has(c) {
                let j = self.spec_idx(c);
                assert(self.clock_map@[j].client == c);
                assert(false);
            }
        }
        self.clock_map.push(ClockEntry { client: c, clock: v });
        proof {
            let post = self.clock_map@;
            let pre = old(self).clock_map@;
            let m = pre.len() as int;
            assert(forall|j: int| 0 <= j < m ==> post[j] == pre[j]);
            assert(post[m].client == c);
            assert(final(self).wf());
            assert(final(self).has(c));
            let k = final(self).spec_idx(c);
            if k != m {
                assert(pre[k].client == c);
                assert(false);
            }
            assert forall|c2: ClientID| c2 != c implies final(self).spec_get(c2) == old(
                self,
            ).spec_get(c2) by {
                if final(self).has(c2) {
                    let k2 = final(self).spec_idx(c2);
                    assert(post[k2].client == c2);
                    assert(k2 != m);
                    assert(old(self).has(c2));
                    let k3 = old(self).spec_idx(c2);
                    if k3 != k2 {
                        assert(pre[k3].client == c2);
                        assert(false);
                    }
                }
                if old(self).has(c2) {
                    let k2 = old(self).spec_idx(c2);
                    assert(post[k2].client == c2);
                    assert(final(self).has(c2));
                }
            }
        }
    }

    /// Advances the client's clock by `val` characters.
    pub fn increment(&mut self, client: ClientID, val: usize)
        requires
            old(self).wf(),
            old(self).spec_get(client) + val <= u32::MAX,
        ensures
            final(self).wf(),
            final(self).spec_get(client) == old(self).spec_get(client) + val,
            forall|c2: ClientID|
                c2 != client ==> final(self).spec_get(c2) == old(self).spec_get(c2),
    {
        let cur = self.get(client);
        self.set(client, cur + (val as u32));
    }

    /// Pointwise comparison: this clock is at or behind `other` for every
    /// client.
    pub fn le(&self, other: &VectorClock) -> (r: bool)
        requires
            self.wf(),
            other.wf(),
        ensures
            r == (forall|c: ClientID| self.spec_get(c) <= other.spec_get(c)),
    {
        let n = self.clock_map.len();
        let mut i: usize = 0;
        while i < n
            invariant
                n == self.clock_map@.len(),
                self.wf(),
                other.wf(),
                i <= n,
                forall|j: int|
                    0 <= j < i ==> self.clock_map@[j].clock <= other.spec_get(
                        #[trigger] self.clock_map@[j].client,
                    ),
            decreases n - i,
        {
            let e = self.clock_map[i];
            if e.clock > other.get(e.client) {
                proof {
                    assert(self.has(e.client));
                    let k = self.spec_idx(e.client);
                    if k != i as int {
                        assert(self.clock_map@[k].client == e.client);
                        assert(false);
                    }
                    assert(self.spec_get(e.client) > other.spec_get(e.client));
                }
                return false;
            }
            i = i + 1;
        }
        proof {
            assert forall|c: ClientID| self.spec_get(c) <= other.spec_get(c) by {
                if self.has(c) {
                    let k = self.spec_idx(c);
                    assert(self.clock_map@[k].client == c);
                    assert(self.clock_map@[k].clock <= other.spec_get(c));
                }
            }
        }
        true
    }
}

/// One replica's copy of the collaboratively edited document: the block
/// store, the owner, the known peers, the buffer of remote blocks whose
/// anchors have not arrived yet, and the vector clock.
pub struct Doc {
    pub name: String,
    pub client: ClientID,
    pub block_store: BlockStore,
    pub peers: Vec<Peer>,
    pub pending_updates: Vec<Block>,
    pub vector_clock: VectorClock,
}

impl Doc {
    /// The document's invariant: the store is well-formed, the vector clock
    /// records for every client exactly the total content length of that
    /// client's blocks, and the owner's own blocks cover the clock range
    /// `[0, vector_clock[client])` without gaps.
    pub open spec fn wf(self) -> bool {
        &&& wf_seq(self.block_store@)
        &&& self.vector_clock.wf()
        &&& (forall|c: ClientID|
            (#[trigger] self.vector_clock.spec_get(c)) as nat == client_len(self.block_store@, c))
        &&& client_contiguous(self.block_store@, self.client)
    }

    /// The rendered document.
    pub open spec fn spec_text(self) -> Seq<char> {
        spec_render(self.block_store@)
    }

    pub fn new(name: String, client: ClientID) -> (r: Doc)
        requires
            client != 0,
        ensures
            r.wf(),
            r.name == name,
            r.client == client,
            r.block_store@ =~= Seq::<Block>::empty(),
            r.peers@ =~= Seq::<Peer>::empty(),
            r.pending_updates@ =~= Seq::<Block>::empty(),
            forall|c: ClientID| r.vector_clock.spec_get(c) == 0,
    {
        let d = Doc {
            name,
            client,
            block_store: BlockStore::new(),
            peers: Vec::new(),
            pending_updates: Vec::new(),
            vector_clock: VectorClock::new(),
        };
        proof {
            assert forall|c: ClientID| (#[trigger] d.vector_clock.spec_get(c)) as nat == client_len(
                d.block_store@,
                c,
            ) by {
                assert(client_len(d.block_store@, c) == 0);
            }
            assert forall|k: nat| covers(d.block_store@, d.client, k) <==> k < client_len(
                d.block_store@,
                d.client,
            ) by {
                assert(!covers(d.block_store@, d.client, k));
            }
        }
        d
    }

    /// The rendered document as a string.
    pub fn to_string(&self) -> (r: String)
        ensures
            r@ == self.spec_text(),
    {
        self.block_store.to_string()
    }

    /// Inserts `text` into the rendered string at character offset `pos`,
    /// clamped to the end of the document. The new block is appended to the
    /// owner's log at the next unused clock, anchored to the blocks adjacent
    /// to the insertion point.
    pub fn insert_local(&mut self, content: Content, pos: u32)
        requires
            old(self).wf(),
            content.content@.len() > 0,
            old(self).vector_clock.spec_get(old(self).client) + content.content@.len()
                <= u32::MAX,
        ensures
            final(self).wf(),
            final(self).client == old(self).client,
            final(self).name == old(self).name,
            final(self).peers == old(self).peers,
            final(self).pending_updates == old(self).pending_updates,
            ({
                let r = old(self).spec_text();
                let p = if pos as int <= r.len() {
                    pos as int
                } else {
                    r.len() as int
                };
                final(self).spec_text() == r.take(p) + content.content@ + r.skip(p)
            }),
            forall|c: ClientID|
                client_len(final(self).block_store@, c) == client_len(old(self).block_store@, c)
                    + (if c == old(self).client {
                    content.content@.len()
                } else {
                    0
                }),
            contains_id(
                final(self).block_store@,
                (BlockID {
                    client: old(self).client,
                    clock: old(self).vector_clock.spec_get(old(self).client),
                }),
            ),
            forall|c: ClientID|
                client_contiguous(old(self).block_store@, c) ==> client_contiguous(
                    final(self).block_store@,
                    c,
                ),
            exists|i: int|
                #![trigger final(self).block_store@[i]]
                {
                    let s = final(self).block_store@;
                    let r = old(self).spec_text();
                    let p = if pos as int <= r.len() {
                        pos as int
                    } else {
                        r.len() as int
                    };
                    &&& 0 <= i < s.len()
                    &&& s[i].id == (BlockID {
                        client: old(self).client,
                        clock: old(self).vector_clock.spec_get(old(self).client),
                    })
                    &&& s[i].left_origin == (if i == 0 {
                        Option::<BlockID>::None
                    } else {
                        Some(s[i - 1].id)
                    })
                    &&& s[i].right_origin == (if i + 1 == s.len() {
                        Option::<BlockID>::None
                    } else {
                        Some(s[i + 1].id)
                    })
                    &&& !s[i].is_deleted
                    &&& s[i].content.content@ == content.content@
                    &&& spec_render(s.take(i)).len() == p
                },
    {
        let ghost orig = self.block_store@;
        let ghost full = spec_render(orig);
        let clen = content.content.as_str().unicode_len();
        let ck = self.vector_clock.get(self.client);
        let (idx, rem) = self.block_store.walk_visible(pos as u64);
        let ghost mid = self.block_store@;
        let ghost p = pos as int - rem as int;
        let n = self.block_store.total_store.list.len();
        let left_id = if idx > 0 {
            Some(self.block_store.total_store.list[idx - 1].id)
        } else {
            None
        };
        let right_id = if idx < n {
            Some(self.block_store.total_store.list[idx].id)
        } else {
            None
        };
        let new_id = BlockID { client: self.client, clock: ck };
        let new_block = Block {
            id: new_id,
            left_origin: left_id,
            right_origin: right_id,
            is_deleted: false,
            content,
        };
        proof {
            // The owner's blocks cover exactly [0, ck), so the new block's
            // range [ck, ck + clen) is disjoint from all of them.
            assert(client_len(mid, self.client) == ck as nat);
            assert forall|j: int| 0 <= j < mid.len() implies #[trigger] ranges_disjoint(
                mid[j],
                new_block,
            ) by {
                if mid[j].id.client == new_block.id.client {
                    let kk = (mid[j].id.clock + mid[j].len() - 1) as nat;
                    assert(mid[j].len() > 0);
                    assert(mid[j].id.clock <= kk < mid[j].id.clock + mid[j].len());
                    assert(covers(mid, self.client, kk));
                    assert(kk < ck as nat);
                }
            }
            match left_id {
                Some(l) => {
                    assert(mid[idx - 1].id == l);
                    assert(contains_id(mid, l));
                },
                None => {},
            }
        }
        let at = self.block_store.insert(new_block, left_id);
        proof {
            let post = self.block_store@;
            // The insertion really happened at the walk boundary.
            assert(at == idx) by {
                match left_id {
                    Some(l) => {
                        assert(1 <= at);
                        assert(mid[at as int - 1].id == l);
                        assert(idx >= 1);
                        assert(mid[idx as int - 1].id == l);
                        assert(unique_ids(mid));
                        if at as int - 1 < idx as int - 1 {
                            assert(mid[at as int - 1].id != mid[idx as int - 1].id);
                            assert(false);
                        }
                        if idx as int - 1 < at as int - 1 {
                            assert(mid[idx as int - 1].id != mid[at as int - 1].id);
                            assert(false);
                        }
                    },
                    None => {
                        assert(idx == 0);
                    },
                }
            }
            assert(post == mid.insert(idx as int, new_block));
            lemma_render_insert(mid, idx as int, new_block);
            lemma_insert_wf(mid, idx as int, new_block);
            lemma_covers_insert(mid, idx as int, new_block);
            assert(visible(new_block) == content.content@);
            // Rendered string: the text goes in at the clamped position.
            assert(spec_render(mid.take(idx as int)) == full.take(p));
            assert(spec_render(mid.skip(idx as int)) == full.skip(p));
            assert(spec_render(post) == spec_render(mid.take(idx as int)) + visible(new_block)
                + spec_render(mid.skip(idx as int)));
            assert(spec_render(post) == full.take(p) + content.content@ + full.skip(p));
            assert(p == if pos as int <= full.len() {
                pos as int
            } else {
                full.len() as int
            });
            // Per-client lengths.
            assert forall|c: ClientID|
                client_len(post, c) == client_len(orig, c) + (if c == old(self).client {
                    content.content@.len()
                } else {
                    0
                }) by {
                lemma_client_len_insert(mid, idx as int, new_block, c);
            }
            assert(post[idx as int] == new_block);
            assert(contains_id(post, new_id));
            // Contiguity: the owner's coverage grows by exactly the new range.
            assert forall|c: ClientID|
                client_contiguous(orig, c) implies client_contiguous(post, c) by {
                if c == new_block.id.client {
                    assert forall|k: nat| covers(post, c, k) <==> k < client_len(post, c) by {
                        assert(covers(post, c, k) <==> covers(mid, c, k) || (ck as nat <= k < ck
                            as nat + content.content@.len()));
                        assert(covers(mid, c, k) <==> covers(orig, c, k));
                        assert(covers(orig, c, k) <==> k < client_len(orig, c));
                    }
                } else {
                    assert forall|k: nat| covers(post, c, k) <==> k < client_len(post, c) by {
                        assert(covers(post, c, k) <==> covers(mid, c, k));
                        assert(covers(mid, c, k) <==> covers(orig, c, k));
                        assert(covers(orig, c, k) <==> k < client_len(orig, c));
                    }
                }
            }
            assert(client_contiguous(orig, old(self).client));
        }
        self.vector_clock.increment(self.client, clen);
        proof {
            assert forall|c: ClientID| (#[trigger] self.vector_clock.spec_get(c)) as nat
                == client_len(self.block_store@, c) by {
                if c != old(self).client {
                    assert(self.vector_clock.spec_get(c) == old(self).vector_clock.spec_get(c));
                }
            }
            // The new block sits at the boundary, anchored to its spatial
            // neighbours.
            let s = self.block_store@;
            let i = at as int;
            assert(s == mid.insert(i, new_block));
            assert(s[i] == new_block);
            assert(s.len() == mid.len() + 1);
            assert(i > 0 ==> s[i - 1] == mid[i - 1]);
            assert(i + 1 < s.len() ==> s[i + 1] == mid[i]);
            assert(s[i].left_origin == (if i == 0 {
                Option::<BlockID>::None
            } else {
                Some(s[i - 1].id)
            }));
            assert(s[i].right_origin == (if i + 1 == s.len() {
                Option::<BlockID>::None
            } else {
                Some(s[i + 1].id)
            }));
            assert(s.take(i) =~= mid.take(i));
            assert(spec_render(s.take(i)).len() == p);
        }
    }
    /// Removes `len` visible characters starting at character offset `pos`.
    /// No effect when `pos` is at or past the end of the rendered string;
    /// otherwise the range is clamped to the end. Blocks at the range
    /// boundaries are split so the range aligns with block edges, and every
    /// block inside it is tombstoned; no block is removed, and the vector
    /// clock does not move.
    pub fn delete_local(&mut self, pos: u32, len: u32)
        requires
            old(self).wf(),
        ensures
            final(self).wf(),
            final(self).client == old(self).client,
            final(self).name == old(self).name,
            final(self).peers == old(self).peers,
            final(self).pending_updates == old(self).pending_updates,
            final(self).vector_clock.clock_map@ == old(self).vector_clock.clock_map@,
            ({
                let r = old(self).spec_text();
                let p = if pos as int <= r.len() {
                    pos as int
                } else {
                    r.len() as int
                };
                let e = if pos as int + len as int <= r.len() {
                    pos as int + len as int
                } else {
                    r.len() as int
                };
                final(self).spec_text() == r.take(p) + r.skip(e)
            }),
            forall|c: ClientID|
                client_len(final(self).block_store@, c) == client_len(old(self).block_store@, c),
            forall|c: ClientID, n: nat|
                covers(final(self).block_store@, c, n) <==> covers(old(self).block_store@, c, n),
            forall|id: BlockID|
                contains_id(old(self).block_store@, id) ==> contains_id(
                    final(self).block_store@,
                    id,
                ),
            forall|c: ClientID|
                client_contiguous(old(self).block_store@, c) ==> client_contiguous(
                    final(self).block_store@,
                    c,
                ),
            (len == 0 || pos as int >= old(self).spec_text().len()) ==> final(self).block_store@
                == old(self).block_store@,
            old(self).block_store@.len() <= final(self).block_store@.len() <= old(
                self,
            ).block_store@.len() + 2,
    {
        let ghost orig = self.block_store@;
        let ghost full = spec_render(orig);
        if len == 0 {
            proof {
                let r = spec_render(orig);
                let p = if pos as int <= r.len() {
                    pos as int
                } else {
                    r.len() as int
                };
                assert(r.take(p) + r.skip(p) =~= r);
            }
            return ;
        }
        let (start, rem) = self.block_store.walk_visible(pos as u64);
        let ghost p = pos as int - rem as int;
        let mut i = start;
        let mut del: u64 = len as u64;
        proof {
            assert(spec_render(self.block_store@.take(i as int)) == full.take(p));
            assert(spec_render(self.block_store@.skip(i as int)) == full.skip(p));
        }
        while del > 0 && i < self.block_store.total_store.list.len()
            invariant
                wf_seq(self.block_store@),
                forall|c: ClientID| client_len(self.block_store@, c) == client_len(orig, c),
                forall|c: ClientID, n: nat|
                    covers(self.block_store@, c, n) <==> covers(orig, c, n),
                forall|id: BlockID| contains_id(orig, id) ==> contains_id(self.block_store@, id),
                i <= self.block_store@.len(),
                del <= len,
                0 <= p <= full.len(),
                p + (len - del) <= full.len(),
                spec_render(self.block_store@.take(i as int)) == full.take(p),
                spec_render(self.block_store@.skip(i as int)) == full.skip(p + (len - del)),
                self.name == old(self).name,
                self.client == old(self).client,
                self.peers == old(self).peers,
                self.pending_updates == old(self).pending_updates,
                self.vector_clock == old(self).vector_clock,
                self.block_store.total_store.list.len() == self.block_store@.len(),
                pos as int >= full.len() ==> self.block_store@ == orig,
                p == full.len() || p == pos as int,
                orig.len() <= self.block_store@.len() <= orig.len() + 2,
                del > 0 ==> self.block_store@.len() <= orig.len() + 1,
            decreases del, self.block_store@.len() - i,
        {
            let ghost cur = self.block_store@;
            let ghost e0 = p + (len - del);
            proof {
                assert(cur.take(i + 1) =~= cur.take(i as int) + seq![cur[i as int]]);
                lemma_render_concat(cur.take(i as int), seq![cur[i as int]]);
                lemma_render_singleton(cur[i as int]);
                assert(cur.skip(i as int) =~= seq![cur[i as int]] + cur.skip(i + 1));
                lemma_render_concat(seq![cur[i as int]], cur.skip(i + 1));
                assert(full.skip(e0) == visible(cur[i as int]) + spec_render(cur.skip(i + 1)));
            }
            if self.block_store.total_store.list[i].is_deleted {
                proof {
                    assert(visible(cur[i as int]) =~= Seq::<char>::empty());
                    assert(spec_render(cur.take(i + 1)) =~= spec_render(cur.take(i as int)));
                    assert(spec_render(cur.skip(i + 1)) =~= spec_render(cur.skip(i as int)));
                }
                i = i + 1;
                continue ;
            }
            let blen = self.block_store.total_store.list[i].content.content.as_str().unicode_len();
            let ghost ct = cur[i as int].content.content@;
            proof {
                assert(visible(cur[i as int]) == ct);
                assert(full.skip(e0) == ct + spec_render(cur.skip(i + 1)));
                assert(full.skip(e0).len() == full.len() - e0);
                assert(e0 + ct.len() <= full.len());
                if pos as int >= full.len() {
                    // Everything visible lies before the boundary; a visible
                    // block past it cannot exist.
                    assert(cur[i as int].len() > 0);
                    assert(p == full.len());
                    assert(e0 >= full.len());
                    assert(false);
                }
            }
            if (blen as u64) <= del {
                // The whole block lies inside the range: tombstone it.
                let b = self.block_store.total_store.list[i].duplicate();
                let nb = Block { is_deleted: true, ..b };
                self.block_store.total_store.list[i] = nb;
                proof {
                    let post = self.block_store@;
                    assert(post == cur.update(i as int, nb));
                    lemma_tombstone_preserves(cur, i as int);
                    assert(post.take(i + 1) =~= cur.take(i as int) + seq![nb]);
                    lemma_render_concat(cur.take(i as int), seq![nb]);
                    lemma_render_singleton(nb);
                    assert(visible(nb) =~= Seq::<char>::empty());
                    assert(spec_render(post.take(i + 1)) =~= full.take(p));
                    assert(post.skip(i + 1) =~= cur.skip(i + 1));
                    assert(full =~= full.take(e0) + full.skip(e0));
                    assert(full.skip(e0 + ct.len()) =~= spec_render(cur.skip(i + 1)));
                }
                del = del - (blen as u64);
                i = i + 1;
            } else {
                // The range ends strictly inside this block: split it and
                // tombstone the left half.
                proof {
                    assert(cur[i as int].id.clock + cur[i as int].len() <= u32::MAX);
                }
                let bid = self.block_store.total_store.list[i].id;
                let k = del as u32;
                proof {
                    let j = crate::block_store::spec_index_of(cur, bid);
                    assert(cur[i as int].id == bid);
                    if j != i as int {
                        assert(cur[j].id == bid);
                        assert(false);
                    }
                }
                self.block_store.split(bid, k);
                let ghost sp = self.block_store@;
                proof {
                    assert(crate::block_store::is_split_of(cur, sp, i as int, k as int));
                }
                let b = self.block_store.total_store.list[i].duplicate();
                let nb = Block { is_deleted: true, ..b };
                self.block_store.total_store.list[i] = nb;
                proof {
                    let post = self.block_store@;
                    let bl = sp[i as int];
                    let br = sp[i + 1];
                    assert(post == sp.update(i as int, nb));
                    lemma_tombstone_preserves(sp, i as int);
                    // Prefix: unchanged, then a tombstone contributing nothing.
                    assert(post.take(i + 1) =~= cur.take(i as int) + seq![nb]);
                    lemma_render_concat(cur.take(i as int), seq![nb]);
                    lemma_render_singleton(nb);
                    assert(visible(nb) =~= Seq::<char>::empty());
                    assert(spec_render(post.take(i + 1)) =~= full.take(p));
                    // Suffix: the right half carries the survivors.
                    assert(post.skip(i + 1) =~= seq![br] + cur.skip(i + 1)) by {
                        assert forall|j: int|
                            0 <= j < post.skip(i + 1).len() implies #[trigger] post.skip(i + 1)[j]
                            == (seq![br] + cur.skip(i + 1))[j] by {
                            if j > 0 {
                                assert(post[i + 1 + j] == sp[i + 1 + j]);
                                assert(sp[i + 1 + j] == cur[i + j]);
                            }
                        }
                    }
                    lemma_render_concat(seq![br], cur.skip(i + 1));
                    lemma_render_singleton(br);
                    assert(visible(br) == ct.skip(k as int));
                    assert(full =~= full.take(e0) + full.skip(e0));
                    assert(full.skip(e0 + k) =~= ct.skip(k as int) + spec_render(cur.skip(i + 1)));
                    assert(spec_render(post.skip(i + 1)) == full.skip(e0 + k));
                }
                i = i + 1;
                del = 0;
            }
        }
        proof {
            let fin = self.block_store@;
            let e = p + (len - del);
            assert(fin =~= fin.take(i as int) + fin.skip(i as int));
            lemma_render_concat(fin.take(i as int), fin.skip(i as int));
            assert(spec_render(fin) == full.take(p) + full.skip(e));
            if del > 0 {
                // Ran out of document: everything from `p` on is gone.
                assert(i == fin.len());
                assert(fin.skip(i as int) =~= Seq::<Block>::empty());
                assert(full.skip(e).len() == 0);
                assert(e == full.len());
            }
            // The clamped bounds match.
            let r = spec_render(orig);
            let pp = if pos as int <= r.len() {
                pos as int
            } else {
                r.len() as int
            };
            let ee = if pos as int + len as int <= r.len() {
                pos as int + len as int
            } else {
                r.len() as int
            };
            if rem > 0 {
                assert(p == full.len());
                assert(full.take(p) =~= full);
                assert(full.skip(e) =~= full.skip(p)) by {
                    assert(e >= p);
                    assert(full.skip(e).len() == 0);
                    assert(full.skip(p).len() == 0);
                }
                assert(full.take(pp) =~= full);
                assert(full.skip(ee).len() == 0);
                assert(full.skip(ee) =~= full.skip(e));
            } else {
                assert(p == pos as int);
                assert(pp == p);
                if del > 0 {
                    assert(e == full.len());
                    assert(pos as int + len as int >= e);
                    assert(ee == e);
                } else {
                    assert(e == pos as int + len as int);
                    assert(e <= full.len());
                    assert(ee == e);
                }
            }
            // The owner's contiguity carries over pointwise.
            assert forall|c: ClientID|
                client_contiguous(orig, c) implies client_contiguous(fin, c) by {
                assert forall|k: nat| covers(fin, c, k) <==> k < client_len(fin, c) by {
                    assert(covers(fin, c, k) <==> covers(orig, c, k));
                    assert(covers(orig, c, k) <==> k < client_len(orig, c));
                }
            }
            assert forall|c: ClientID| (#[trigger] self.vector_clock.spec_get(c)) as nat
                == client_len(self.block_store@, c) by {
                assert(self.vector_clock.spec_get(c) == old(self).vector_clock.spec_get(c));
            }
        }
    }
    /// A remote insertion that integration owes success: the block's id is
    /// fresh, the block is intact (non-empty, not tombstoned, not the
    /// owner's), its clock range is within bounds and free, the clock has
    /// headroom, and each anchor is the document boundary or covered.
    pub open spec fn must_integrate(self, b: Block) -> bool {
        &&& !contains_id(self.block_store@, b.id)
        &&& b.len() > 0
        &&& !b.is_deleted
        &&& b.id.client != self.client
        &&& b.id.clock + b.len() <= u32::MAX
        &&& self.vector_clock.spec_get(b.id.client) + b.len() <= u32::MAX
        &&& (forall|k: nat|
            b.id.clock <= k < b.id.clock + b.len() ==> !covers(self.block_store@, b.id.client, k))
        &&& (match b.left_origin {
            Some(a) => covers(self.block_store@, a.client, a.clock as nat),
            None => true,
        })
        &&& (match b.right_origin {
            Some(a) => covers(self.block_store@, a.client, a.clock as nat),
            None => true,
        })
    }

    /// Integrates one remote insertion (the YATA conflict resolution).
    /// Returns `true` when the block is in the store afterwards — newly
    /// placed, or already present (integration is idempotent: a block whose
    /// id the store already holds changes nothing at all). Returns `false`
    /// when an anchor cannot be resolved or the block is malformed; the
    /// rendered string is then unchanged and the caller may buffer the block.
    #[verifier::rlimit(100)]
    pub fn insert_single_block(&mut self, block: &Block) -> (r: bool)
        requires
            old(self).wf(),
        ensures
            final(self).wf(),
            final(self).client == old(self).client,
            final(self).name == old(self).name,
            final(self).peers == old(self).peers,
            final(self).pending_updates == old(self).pending_updates,
            contains_id(old(self).block_store@, block.id) ==> r && *final(self) == *old(self),
            r ==> contains_id(final(self).block_store@, block.id),
            ({
                let applied_new = r && !contains_id(old(self).block_store@, block.id);
                &&& (forall|c: ClientID|
                    client_len(final(self).block_store@, c) == client_len(old(self).block_store@, c)
                        + (if applied_new && c == block.id.client {
                        block.len()
                    } else {
                        0
                    }))
                &&& (forall|c: ClientID, n: nat|
                    covers(final(self).block_store@, c, n) <==> covers(old(self).block_store@, c, n)
                        || (applied_new && c == block.id.client && block.id.clock <= n
                        < block.id.clock + block.len()))
                &&& (applied_new ==> exists|q: int|
                    0 <= q <= old(self).spec_text().len() && final(self).spec_text() == old(
                        self,
                    ).spec_text().take(q) + block.content.content@ + old(self).spec_text().skip(q))
                &&& (!applied_new ==> final(self).spec_text() == old(self).spec_text())
                &&& (applied_new ==> block.id.client != old(self).client)
            }),
            forall|q: BlockID|
                contains_id(old(self).block_store@, q) ==> contains_id(
                    final(self).block_store@,
                    q,
                ),
            forall|q: BlockID|
                tombstoned(old(self).block_store@, q) ==> tombstoned(final(self).block_store@, q),
            old(self).must_integrate(*block) ==> r,
            (r && !contains_id(old(self).block_store@, block.id)) ==> exists|
                m1: Seq<Block>,
                m2: Seq<Block>,
                nb: Block,
                d: int,
            |
                #![trigger anchor_resolved(old(self).block_store@, m1, block.left_origin),
                    anchor_resolved(m1, m2, block.right_origin), m2.insert(d, nb)]
                {
                    &&& anchor_resolved(old(self).block_store@, m1, block.left_origin)
                    &&& anchor_resolved(m1, m2, block.right_origin)
                    &&& crate::codec::block_like(nb, *block)
                    &&& !nb.is_deleted
                    &&& 0 <= d <= m2.len()
                    &&& ({
                        let li = match block.left_origin {
                            Some(a) => Some(spec_index_of(m1, a)),
                            None => None::<int>,
                        };
                        let ri = match block.right_origin {
                            Some(a) => Some(spec_index_of(m2, a)),
                            None => None::<int>,
                        };
                        let lp: int = match li {
                            Some(x) => x + 1,
                            None => 0,
                        };
                        d == yata_dest(m2, li, ri, block.id, lp, lp)
                    })
                    &&& final(self).block_store@ == m2.insert(d, nb)
                },
    {
        let ghost orig = self.block_store@;
        let ghost full = spec_render(orig);
        // Idempotence: a block already present is left exactly as it is.
        if self.block_store.exist(block) {
            return true;
        }
        // Validation: a block must carry text, its clock range must fit the
        // log index space and be free, the owner's log only grows locally,
        // and the owner's clock must have headroom.
        let blen = block.content.content.as_str().unicode_len();
        if blen == 0 {
            return false;
        }
        if block.is_deleted {
            return false;
        }
        if block.id.client == self.client {
            return false;
        }
        if (blen as u64) > (u32::MAX as u64) {
            return false;
        }
        if !((block.id.clock as u64) + (blen as u64) <= (u32::MAX as u64)) {
            return false;
        }
        if !self.block_store.range_free(block.id.client, block.id.clock, blen) {
            return false;
        }
        let cur_clock = self.vector_clock.get(block.id.client);
        if !((cur_clock as u64) + (blen as u64) <= (u32::MAX as u64)) {
            return false;
        }
        // Anchor resolution; a missing anchor defers the block. A resolving
        // split never changes the rendered string.
        let l_opt: Option<usize> = match &block.left_origin {
            Some(a) => {
                match self.block_store.resolve_anchor(a) {
                    Some(i) => Some(i),
                    None => {
                        return false;
                    },
                }
            },
            None => None,
        };
        let ghost m1 = self.block_store@;
        let r_opt: Option<usize> = match &block.right_origin {
            Some(a) => {
                match self.block_store.resolve_anchor(a) {
                    Some(i) => Some(i),
                    None => {
                        return false;
                    },
                }
            },
            None => None,
        };
        let ghost mid = self.block_store@;
        // Conflict scan between the two anchors: candidates are ordered by
        // the positions of their own anchors; ties break on the block id.
        // The loop computes exactly [`yata_dest`].
        let n = self.block_store.total_store.list.len();
        let lplus: usize = match l_opt {
            Some(i) => i + 1,
            None => 0,
        };
        let rbound: usize = match r_opt {
            Some(i) => i,
            None => n,
        };
        let ghost lg: Option<int> = match l_opt {
            Some(x) => Some(x as int),
            None => None,
        };
        let ghost rg: Option<int> = match r_opt {
            Some(x) => Some(x as int),
            None => None,
        };
        let mut i = lplus;
        let mut dest = lplus;
        let mut stop = false;
        proof {
            assert(lplus <= n);
            // Anchor splits kept the document text, the per-client counts,
            // the covered positions and the stored ids; so the whole
            // document invariant still holds at the scan.
            assert forall|k: nat|
                covers(mid, self.client, k) <==> k < client_len(mid, self.client) by {
                assert(covers(mid, self.client, k) <==> covers(orig, self.client, k));
                assert(covers(orig, self.client, k) <==> k < client_len(orig, self.client));
            }
            assert forall|c: ClientID| (#[trigger] self.vector_clock.spec_get(c)) as nat
                == client_len(mid, c) by {
                assert(client_len(mid, c) == client_len(orig, c));
            }
            assert(self.wf());
        }
        while !stop && i < n && i != rbound
            invariant
                self.wf(),
                self.block_store@ == mid,
                !contains_id(old(self).block_store@, block.id),
                self.client == old(self).client,
                self.name == old(self).name,
                self.peers == old(self).peers,
                self.pending_updates == old(self).pending_updates,
                self.vector_clock == old(self).vector_clock,
                old(self).wf(),
                spec_render(mid) == spec_render(old(self).block_store@),
                forall|c: ClientID|
                    client_len(mid, c) == client_len(old(self).block_store@, c),
                forall|c: ClientID, n2: nat|
                    covers(mid, c, n2) <==> covers(old(self).block_store@, c, n2),
                forall|q: BlockID|
                    contains_id(old(self).block_store@, q) ==> contains_id(mid, q),
                wf_seq(mid),
                n == mid.len(),
                i <= n,
                lplus <= i,
                lplus <= dest,
                dest <= i,
                dest <= n,
                rbound == (match rg {
                    Some(x) => x,
                    None => n as int,
                }),
                lg == (match l_opt {
                    Some(x) => Some(x as int),
                    None => None::<int>,
                }),
                rg == (match r_opt {
                    Some(x) => Some(x as int),
                    None => None::<int>,
                }),
                yata_dest(mid, lg, rg, block.id, i as int, dest as int) == yata_dest(
                    mid,
                    lg,
                    rg,
                    block.id,
                    lplus as int,
                    lplus as int,
                ),
                stop ==> yata_dest(mid, lg, rg, block.id, i as int, dest as int) == dest as int,
            decreases n - i, (if stop {
                0int
            } else {
                1int
            }),
        {
            let c_left = self.block_store.total_store.list[i].left_origin;
            let c_right = self.block_store.total_store.list[i].right_origin;
            let c_id = self.block_store.total_store.list[i].id;
            proof {
                assert(mid[i as int].left_origin == c_left);
                assert(mid[i as int].right_origin == c_right);
                assert(mid[i as int].id == c_id);
            }
            // A candidate whose own anchor no longer resolves can only come
            // from a corrupted history; stop the walk and insert here.
            let mut cl_bad = false;
            let cl: Option<(usize, u32)> = match &c_left {
                Some(a) => {
                    match self.block_store.anchor_pos(a) {
                        Some(p) => Some(p),
                        None => {
                            cl_bad = true;
                            None
                        },
                    }
                },
                None => None,
            };
            if cl_bad {
                proof {
                    assert(yata_dest(mid, lg, rg, block.id, i as int, dest as int)
                        == dest as int);
                }
                stop = true;
            } else {
                // Compare the candidate's left anchor with ours; `None` is
                // the document start and sorts before every position. A
                // position is the pair (block index, offset), ordered
                // lexicographically; our own anchor sits at offset 0 of its
                // block.
                let (cl_lt, cl_eq): (bool, bool) = match (&cl, &l_opt) {
                    (None, None) => (false, true),
                    (None, Some(_)) => (true, false),
                    (Some(_), None) => (false, false),
                    (Some(p), Some(l)) => (p.0 < *l, p.0 == *l && p.1 == 0),
                };
                proof {
                    match c_left {
                        Some(a) => {
                            assert(covers(mid, a.client, a.clock as nat));
                            assert(!(cl is None));
                        },
                        None => {
                            assert(cl is None);
                        },
                    }
                }
                if cl_lt {
                    proof {
                        assert(yata_dest(mid, lg, rg, block.id, i as int, dest as int)
                            == dest as int);
                    }
                    stop = true;
                } else if cl_eq {
                    let mut cr_bad = false;
                    let cr: Option<(usize, u32)> = match &c_right {
                        Some(a) => {
                            match self.block_store.anchor_pos(a) {
                                Some(p) => Some(p),
                                None => {
                                    cr_bad = true;
                                    None
                                },
                            }
                        },
                        None => None,
                    };
                    if cr_bad {
                        proof {
                            assert(yata_dest(mid, lg, rg, block.id, i as int, dest as int)
                                == yata_dest(mid, lg, rg, block.id, i + 1, i + 1));
                        }
                        i = i + 1;
                        dest = i;
                    } else {
                        // Compare right anchors; `None` is the document end
                        // and sorts after every position.
                        let (cr_lt, cr_eq): (bool, bool) = match (&cr, &r_opt) {
                            (None, None) => (false, true),
                            (None, Some(_)) => (false, false),
                            (Some(_), None) => (true, false),
                            (Some(p), Some(rb)) => (p.0 < *rb, p.0 == *rb && p.1 == 0),
                        };
                        proof {
                            match c_right {
                                Some(a) => {
                                    assert(covers(mid, a.client, a.clock as nat));
                                    assert(!(cr is None));
                                },
                                None => {
                                    assert(cr is None);
                                },
                            }
                        }
                        if cr_lt {
                            // A candidate bound to an earlier right anchor
                            // belongs to a left-leaning group: pass it
                            // without committing.
                            proof {
                                assert(yata_dest(mid, lg, rg, block.id, i as int, dest as int)
                                    == yata_dest(mid, lg, rg, block.id, i + 1, dest as int));
                            }
                            i = i + 1;
                        } else if cr_eq {
                            if block.id.lt(&c_id) {
                                proof {
                                    assert(yata_dest(
                                        mid,
                                        lg,
                                        rg,
                                        block.id,
                                        i as int,
                                        dest as int,
                                    ) == dest as int);
                                }
                                stop = true;
                            } else {
                                proof {
                                    assert(yata_dest(
                                        mid,
                                        lg,
                                        rg,
                                        block.id,
                                        i as int,
                                        dest as int,
                                    ) == yata_dest(mid, lg, rg, block.id, i + 1, i + 1));
                                }
                                i = i + 1;
                                dest = i;
                            }
                        } else {
                            proof {
                                assert(yata_dest(mid, lg, rg, block.id, i as int, dest as int)
                                    == yata_dest(mid, lg, rg, block.id, i + 1, i + 1));
                            }
                            i = i + 1;
                            dest = i;
                        }
                    }
                } else {
                    proof {
                        assert(yata_dest(mid, lg, rg, block.id, i as int, dest as int)
                            == yata_dest(mid, lg, rg, block.id, i + 1, dest as int));
                    }
                    i = i + 1;
                }
            }
        }
        proof {
            // At the exit the walk's value is the committed destination.
            if !stop {
                assert(yata_dest(mid, lg, rg, block.id, i as int, dest as int) == dest as int);
            }
            assert(dest as int == yata_dest(
                mid,
                lg,
                rg,
                block.id,
                lplus as int,
                lplus as int,
            ));
        }
        // Place the block just after the chosen destination.
        // Place the block just after the chosen destination.
        let left_id = if dest == 0 {
            None
        } else {
            Some(self.block_store.total_store.list[dest - 1].id)
        };
        let nb = block.duplicate();
        proof {
            match left_id {
                Some(l) => {
                    assert(mid[dest - 1].id == l);
                    assert(contains_id(mid, l));
                },
                None => {},
            }
            // The validated clock range stays free through anchor splits.
            assert forall|j: int| 0 <= j < mid.len() implies #[trigger] ranges_disjoint(
                mid[j],
                nb,
            ) by {
                if mid[j].id.client == nb.id.client {
                    if !(mid[j].id.clock + mid[j].len() <= nb.id.clock || nb.id.clock + nb.len()
                        <= mid[j].id.clock) {
                        let kk: nat = if mid[j].id.clock >= nb.id.clock {
                            mid[j].id.clock as nat
                        } else {
                            nb.id.clock as nat
                        };
                        assert(mid[j].len() > 0);
                        assert(mid[j].id.clock <= kk < mid[j].id.clock + mid[j].len());
                        assert(covers(mid, nb.id.client, kk));
                        assert(covers(orig, nb.id.client, kk));
                        assert(nb.id.clock <= kk < nb.id.clock + nb.len());
                        assert(false);
                    }
                }
            }
        }
        let at = self.block_store.insert(nb, left_id);
        proof {
            let post = self.block_store@;
            assert(post == mid.insert(at as int, nb));
            // The insertion landed at the scan's destination, inside the
            // exactly-resolved store.
            assert(at == dest) by {
                match left_id {
                    Some(l) => {
                        assert(mid[at as int - 1].id == l);
                        assert(mid[dest - 1].id == l);
                        assert(unique_ids(mid));
                        if at as int - 1 < dest - 1 {
                            assert(mid[at as int - 1].id != mid[dest - 1].id);
                        }
                        if dest - 1 < at as int - 1 {
                            assert(mid[dest - 1].id != mid[at as int - 1].id);
                        }
                    },
                    None => {
                        assert(dest == 0);
                    },
                }
            }
            assert(anchor_resolved(orig, m1, block.left_origin));
            assert(anchor_resolved(m1, mid, block.right_origin));
            assert(crate::codec::block_like(nb, *block));
            // The anchor indices the scan used are exactly the anchors'
            // positions in the resolved stores.
            match block.left_origin {
                Some(a) => {
                    assert(m1[spec_index_of(m1, a)].id == a);
                    match l_opt {
                        Some(lv) => {
                            assert(m1[lv as int].id == a);
                            assert(unique_ids(m1));
                            if lv as int != spec_index_of(m1, a) {
                                assert(false);
                            }
                        },
                        None => {
                            assert(false);
                        },
                    }
                },
                None => {
                    assert(l_opt is None);
                },
            }
            match block.right_origin {
                Some(a) => {
                    assert(mid[spec_index_of(mid, a)].id == a);
                    match r_opt {
                        Some(rv) => {
                            assert(mid[rv as int].id == a);
                            assert(unique_ids(mid));
                            if rv as int != spec_index_of(mid, a) {
                                assert(false);
                            }
                        },
                        None => {
                            assert(false);
                        },
                    }
                },
                None => {
                    assert(r_opt is None);
                },
            }
            assert(lg == (match block.left_origin {
                Some(a) => Some(spec_index_of(m1, a)),
                None => None::<int>,
            }));
            assert(rg == (match block.right_origin {
                Some(a) => Some(spec_index_of(mid, a)),
                None => None::<int>,
            }));
            assert(lplus as int == (match lg {
                Some(x) => x + 1,
                None => 0int,
            }));
            lemma_insert_wf(mid, at as int, nb);
            lemma_covers_insert(mid, at as int, nb);
            lemma_render_insert(mid, at as int, nb);
            crate::block_store::lemma_render_split(mid, at as int);
            let q = spec_render(mid.take(at as int)).len() as int;
            crate::block_store::lemma_concat_parts(
                spec_render(mid.take(at as int)),
                spec_render(mid.skip(at as int)),
                full,
            );
            assert(visible(nb) == block.content.content@);
            assert(spec_render(post) == full.take(q) + block.content.content@ + full.skip(q));
            assert(0 <= q <= full.len());
            assert(exists|qq: int|
                0 <= qq <= old(self).spec_text().len() && self.spec_text() == old(
                    self,
                ).spec_text().take(qq) + block.content.content@ + old(self).spec_text().skip(qq))
                by {
                assert(0 <= q <= old(self).spec_text().len() && self.spec_text() == old(
                    self,
                ).spec_text().take(q) + block.content.content@ + old(self).spec_text().skip(q));
            }
            assert forall|c: ClientID|
                client_len(post, c) == client_len(orig, c) + (if c == block.id.client {
                    block.len()
                } else {
                    0
                }) by {
                lemma_client_len_insert(mid, at as int, nb, c);
            }
            assert(post[at as int] == nb);
            assert(contains_id(post, block.id));
        }
        self.vector_clock.increment(block.id.client, blen);
        proof {
            assert forall|c: ClientID| (#[trigger] self.vector_clock.spec_get(c)) as nat
                == client_len(self.block_store@, c) by {
                if c != block.id.client {
                    assert(self.vector_clock.spec_get(c) == old(self).vector_clock.spec_get(c));
                }
            }
            // The owner's log is untouched, so its contiguity carries over.
            assert forall|k: nat|
                covers(self.block_store@, self.client, k) <==> k < client_len(
                    self.block_store@,
                    self.client,
                ) by {
                assert(covers(self.block_store@, self.client, k) <==> covers(
                    orig,
                    self.client,
                    k,
                ));
                assert(covers(orig, self.client, k) <==> k < client_len(orig, self.client));
            }
        }
        true
    }

    /// Integrates one remote deletion: tombstones the block with the given
    /// id, splitting first when the id falls strictly inside a stored block
    /// so that exactly the suffix starting at the id is tombstoned. Returns
    /// `false`, leaving the document untouched, when no block covers the id.
    pub fn delete_single_block(&mut self, block: &Block) -> (r: bool)
        requires
            old(self).wf(),
        ensures
            final(self).wf(),
            final(self).client == old(self).client,
            final(self).name == old(self).name,
            final(self).peers == old(self).peers,
            final(self).pending_updates == old(self).pending_updates,
            final(self).vector_clock.clock_map@ == old(self).vector_clock.clock_map@,
            r == covers(old(self).block_store@, block.id.client, block.id.clock as nat),
            !r ==> final(self).block_store@ == old(self).block_store@,
            r ==> tombstoned(final(self).block_store@, block.id),
            forall|c: ClientID|
                client_len(final(self).block_store@, c) == client_len(old(self).block_store@, c),
            forall|c: ClientID, n: nat|
                covers(final(self).block_store@, c, n) <==> covers(old(self).block_store@, c, n),
            forall|q: BlockID|
                contains_id(old(self).block_store@, q) ==> contains_id(
                    final(self).block_store@,
                    q,
                ),
            forall|q: BlockID|
                tombstoned(old(self).block_store@, q) ==> tombstoned(final(self).block_store@, q),
            r ==> ({
                let s = old(self).block_store@;
                let j = cover_idx(s, block.id.client, block.id.clock as nat);
                if contains_id(s, block.id) {
                    final(self).block_store@ == s.update(
                        spec_index_of(s, block.id),
                        (Block { is_deleted: true, ..s[spec_index_of(s, block.id)] }),
                    )
                } else {
                    exists|m: Seq<Block>|
                        #[trigger] is_split_of(s, m, j, block.id.clock - s[j].id.clock)
                            && final(self).block_store@ == m.update(
                            j + 1,
                            (Block { is_deleted: true, ..m[j + 1] }),
                        )
                }
            }),
    {
        let ghost orig = self.block_store@;
        let at = match self.block_store.resolve_anchor(&block.id) {
            Some(i) => i,
            None => {
                return false;
            },
        };
        let ghost mid = self.block_store@;
        let b = self.block_store.total_store.list[at].duplicate();
        let nb = Block { is_deleted: true, ..b };
        self.block_store.total_store.list[at] = nb;
        proof {
            let post = self.block_store@;
            assert(post == mid.update(at as int, nb));
            lemma_tombstone_preserves(mid, at as int);
            assert(post[at as int].id == block.id);
            assert(post[at as int].is_deleted);
            assert forall|k: nat|
                covers(post, self.client, k) <==> k < client_len(post, self.client) by {
                assert(covers(post, self.client, k) <==> covers(orig, self.client, k));
                assert(covers(orig, self.client, k) <==> k < client_len(orig, self.client));
            }
            assert forall|c: ClientID| (#[trigger] self.vector_clock.spec_get(c)) as nat
                == client_len(self.block_store@, c) by {
                assert(client_len(post, c) == client_len(orig, c));
            }
            // The tombstone lands exactly where the anchor resolved.
            assert(nb == (Block { is_deleted: true, ..mid[at as int] }));
            if contains_id(orig, block.id) {
                assert(mid == orig);
                assert(at as int == spec_index_of(orig, block.id));
            } else {
                let j = cover_idx(orig, block.id.client, block.id.clock as nat);
                assert(is_split_of(orig, mid, j, block.id.clock - orig[j].id.clock));
                assert(at as int == j + 1);
            }
        }
        true
    }

    /// The pending buffer holds a block with the given id.
    pub open spec fn pending_holds(self, id: BlockID) -> bool {
        exists|p: int|
            0 <= p < self.pending_updates@.len() && self.pending_updates@[p].id == id
    }

    /// Whether the pending buffer already holds a block with this id.
    fn pending_has(&self, id: &BlockID) -> (r: bool)
        ensures
            r == self.pending_holds(*id),
    {
        let n = self.pending_updates.len();
        let mut i: usize = 0;
        while i < n
            invariant
                n == self.pending_updates@.len(),
                i <= n,
                forall|j: int| 0 <= j < i ==> self.pending_updates@[j].id != *id,
            decreases n - i,
        {
            if self.pending_updates[i].id == *id {
                return true;
            }
            i = i + 1;
        }
        false
    }

    /// Buffers a deferred block, unless one with the same id already waits.
    fn push_pending(&mut self, block: Block)
        ensures
            final(self).name == old(self).name,
            final(self).client == old(self).client,
            final(self).block_store == old(self).block_store,
            final(self).peers == old(self).peers,
            final(self).vector_clock == old(self).vector_clock,
            final(self).pending_updates@ == old(self).pending_updates@
                || final(self).pending_updates@ == old(self).pending_updates@.push(block),
            final(self).pending_holds(block.id),
            forall|q: BlockID|
                old(self).pending_holds(q) ==> final(self).pending_holds(q),
    {
        if !self.pending_has(&block.id) {
            let ghost pre = self.pending_updates@;
            self.pending_updates.push(block);
            proof {
                assert(self.pending_updates@[pre.len() as int] == block);
                assert forall|q: BlockID|
                    old(self).pending_holds(q) implies self.pending_holds(q) by {
                    let p = choose|p: int| 0 <= p < pre.len() && pre[p].id == q;
                    assert(self.pending_updates@[p].id == q);
                }
            }
        }
    }

    /// Retries every buffered block once, routing tombstones to deletion and
    /// the rest to insertion, and keeps those still deferred: every buffered
    /// block is afterwards in the store by id or still buffered, every
    /// buffered tombstone whose target clock is covered is applied, and the
    /// buffer holds nothing it did not hold before. An empty buffer makes
    /// the flush a no-op.
    fn flush_pending_updates(&mut self)
        requires
            old(self).wf(),
        ensures
            final(self).wf(),
            final(self).client == old(self).client,
            final(self).name == old(self).name,
            final(self).peers == old(self).peers,
            forall|q: BlockID|
                contains_id(old(self).block_store@, q) ==> contains_id(
                    final(self).block_store@,
                    q,
                ),
            forall|q: BlockID|
                tombstoned(old(self).block_store@, q) ==> tombstoned(final(self).block_store@, q),
            forall|c: ClientID, n: nat|
                covers(old(self).block_store@, c, n) ==> covers(final(self).block_store@, c, n),
            forall|q: BlockID|
                old(self).pending_holds(q) ==> final(self).pending_holds(q) || contains_id(
                    final(self).block_store@,
                    q,
                ),
            forall|p: int|
                0 <= p < final(self).pending_updates@.len() ==> old(self).pending_holds(
                    (#[trigger] final(self).pending_updates@[p]).id,
                ),
            forall|t: int|
                (0 <= t < old(self).pending_updates@.len() && (#[trigger] old(
                    self,
                ).pending_updates@[t]).is_deleted && covers(
                    old(self).block_store@,
                    old(self).pending_updates@[t].id.client,
                    old(self).pending_updates@[t].id.clock as nat,
                )) ==> tombstoned(final(self).block_store@, old(self).pending_updates@[t].id),
            (old(self).pending_updates@.len() >= 1 && old(self).pending_updates@[0].is_deleted
                && old(self).must_integrate(
                (Block { is_deleted: false, ..old(self).pending_updates@[0] }),
            )) ==> tombstoned(final(self).block_store@, old(self).pending_updates@[0].id),
            old(self).pending_updates@.len() == 0 ==> final(self).block_store@ == old(
                self,
            ).block_store@ && final(self).pending_updates@.len() == 0 && final(self).vector_clock
                == old(self).vector_clock,
    {
        let n = self.pending_updates.len();
        let mut pending: Vec<Block> = Vec::new();
        let mut i: usize = 0;
        while i < n
            invariant
                n == self.pending_updates@.len(),
                i <= n,
                pending@ =~= self.pending_updates@.take(i as int),
            decreases n - i,
        {
            pending.push(self.pending_updates[i].duplicate());
            i = i + 1;
        }
        assert(pending@ =~= self.pending_updates@);
        self.pending_updates = Vec::new();
        proof {
            assert(self.pending_updates@.len() == 0);
        }
        let mut i: usize = 0;
        while i < pending.len()
            invariant
                self.wf(),
                self.client == old(self).client,
                self.name == old(self).name,
                self.peers == old(self).peers,
                self.vector_clock == old(self).vector_clock || pending@.len() > 0,
                pending@ == old(self).pending_updates@,
                i <= pending@.len(),
                forall|q: BlockID|
                    contains_id(old(self).block_store@, q) ==> contains_id(
                        self.block_store@,
                        q,
                    ),
                forall|q: BlockID|
                    tombstoned(old(self).block_store@, q) ==> tombstoned(self.block_store@, q),
                forall|c: ClientID, n2: nat|
                    covers(old(self).block_store@, c, n2) ==> covers(self.block_store@, c, n2),
                forall|t: int|
                    0 <= t < i ==> self.pending_holds((#[trigger] pending@[t]).id)
                        || contains_id(self.block_store@, pending@[t].id),
                forall|t: int|
                    (0 <= t < i && (#[trigger] pending@[t]).is_deleted && covers(
                        old(self).block_store@,
                        pending@[t].id.client,
                        pending@[t].id.clock as nat,
                    )) ==> tombstoned(self.block_store@, pending@[t].id),
                (i > 0 && pending@.len() >= 1 && pending@[0].is_deleted && old(
                    self,
                ).must_integrate((Block { is_deleted: false, ..pending@[0] }))) ==> tombstoned(
                    self.block_store@,
                    pending@[0].id,
                ),
                i == 0 ==> self.block_store@ == old(self).block_store@ && self.vector_clock
                    == old(self).vector_clock,
                forall|p: int|
                    0 <= p < self.pending_updates@.len() ==> old(self).pending_holds(
                        (#[trigger] self.pending_updates@[p]).id,
                    ),
                pending@.len() == 0 ==> self.block_store@ == old(self).block_store@
                    && self.pending_updates@.len() == 0,
            decreases pending@.len() - i,
        {
            let ghost pre = *self;
            let b = pending[i].duplicate();
            let ok = if b.is_deleted {
                self.apply_delete(&b)
            } else {
                self.insert_single_block(&b)
            };
            proof {
                assert(b == pending@[i as int]);
                assert(self.pending_updates@ == pre.pending_updates@);
                if ok {
                    assert(contains_id(self.block_store@, pending@[i as int].id));
                }
                // A buffered tombstone with a covered target is applied.
                if b.is_deleted && covers(
                    old(self).block_store@,
                    pending@[i as int].id.client,
                    pending@[i as int].id.clock as nat,
                ) {
                    assert(covers(
                        pre.block_store@,
                        pending@[i as int].id.client,
                        pending@[i as int].id.clock as nat,
                    ));
                    assert(ok);
                    assert(tombstoned(self.block_store@, pending@[i as int].id));
                }
                // The first buffered tombstone is applied outright when its
                // carried block is integrable.
                if i == 0 && b.is_deleted && old(self).must_integrate(
                    (Block { is_deleted: false, ..pending@[0] }),
                ) {
                    assert(pre.block_store@ == old(self).block_store@);
                    assert(pre.vector_clock == old(self).vector_clock);
                    assert(pre.must_integrate((Block { is_deleted: false, ..b })));
                    assert(ok);
                    assert(tombstoned(self.block_store@, pending@[0].id));
                }
            }
            if !ok {
                self.push_pending(b);
            }
            proof {
                assert forall|t: int|
                    0 <= t < i + 1 implies self.pending_holds((#[trigger] pending@[t]).id)
                        || contains_id(self.block_store@, pending@[t].id) by {
                    if t < i as int {
                        if pre.pending_holds(pending@[t].id) {
                            assert(self.pending_holds(pending@[t].id));
                        }
                    } else {
                        if !ok {
                            assert(self.pending_holds(pending@[t].id));
                        }
                    }
                }
                assert forall|p: int|
                    0 <= p < self.pending_updates@.len() implies old(self).pending_holds(
                    (#[trigger] self.pending_updates@[p]).id,
                ) by {
                    if self.pending_updates@ == pre.pending_updates@ {
                    } else {
                        assert(self.pending_updates@ == pre.pending_updates@.push(b));
                        if p < pre.pending_updates@.len() {
                            assert(self.pending_updates@[p] == pre.pending_updates@[p]);
                        } else {
                            assert(self.pending_updates@[p] == b);
                            assert(old(self).pending_updates@[i as int].id == b.id);
                        }
                    }
                }
            }
            i = i + 1;
        }
        proof {
            assert forall|q: BlockID|
                old(self).pending_holds(q) implies self.pending_holds(q) || contains_id(
                self.block_store@,
                q,
            ) by {
                let p = choose|p: int|
                    0 <= p < old(self).pending_updates@.len() && old(
                        self,
                    ).pending_updates@[p].id == q;
                assert(pending@[p].id == q);
            }
        }
    }

    /// Integrates a batch of remote insertions, in order. Every block of the
    /// batch is afterwards in the store by id or waiting in the pending
    /// buffer — except the owner's own echoes, which are dropped — and the
    /// buffer holds only blocks it already held or blocks of this batch.
    /// A batch of blocks that are all already present changes nothing when
    /// no blocks are waiting (integration is idempotent), and a single block
    /// that integration owes success to is applied.
    pub fn insert_remote(&mut self, update: Updates)
        requires
            old(self).wf(),
        ensures
            final(self).wf(),
            final(self).client == old(self).client,
            final(self).name == old(self).name,
            final(self).peers == old(self).peers,
            forall|q: BlockID|
                contains_id(old(self).block_store@, q) ==> contains_id(
                    final(self).block_store@,
                    q,
                ),
            forall|q: BlockID|
                tombstoned(old(self).block_store@, q) ==> tombstoned(final(self).block_store@, q),
            forall|c: ClientID, n: nat|
                covers(old(self).block_store@, c, n) ==> covers(final(self).block_store@, c, n),
            (old(self).pending_updates@.len() == 0 && update@.len() == 1 && old(
                self,
            ).must_integrate(update@[0])) ==> contains_id(
                final(self).block_store@,
                update@[0].id,
            ),
            forall|t: int|
                (update@.len() > 0 && 0 <= t < old(self).pending_updates@.len() && (#[trigger] old(
                    self,
                ).pending_updates@[t]).is_deleted && covers(
                    old(self).block_store@,
                    old(self).pending_updates@[t].id.client,
                    old(self).pending_updates@[t].id.clock as nat,
                )) ==> tombstoned(final(self).block_store@, old(self).pending_updates@[t].id),
            (update@.len() > 0 && old(self).pending_updates@.len() >= 1 && old(
                self,
            ).pending_updates@[0].is_deleted && old(self).must_integrate(
                (Block { is_deleted: false, ..old(self).pending_updates@[0] }),
            )) ==> tombstoned(final(self).block_store@, old(self).pending_updates@[0].id),
            forall|j: int|
                0 <= j < update@.len() ==> contains_id(
                    final(self).block_store@,
                    (#[trigger] update@[j]).id,
                ) || final(self).pending_holds(update@[j].id) || update@[j].id.client == old(
                    self,
                ).client,
            forall|q: BlockID|
                old(self).pending_holds(q) ==> final(self).pending_holds(q) || contains_id(
                    final(self).block_store@,
                    q,
                ),
            forall|p: int|
                0 <= p < final(self).pending_updates@.len() ==> old(self).pending_holds(
                    (#[trigger] final(self).pending_updates@[p]).id,
                ) || (exists|j: int|
                    0 <= j < update@.len() && update@[j].id == final(self).pending_updates@[p].id),
            (old(self).pending_updates@.len() == 0 && (forall|j: int|
                0 <= j < update@.len() ==> contains_id(
                    old(self).block_store@,
                    (#[trigger] update@[j]).id,
                ))) ==> final(self).block_store@ == old(self).block_store@ && final(self).pending_updates@.len() == 0 && final(self).vector_clock == old(self).vector_clock,
    {
        let ghost h = old(self).pending_updates@.len() == 0 && (forall|j: int|
            0 <= j < update@.len() ==> contains_id(
                old(self).block_store@,
                (#[trigger] update@[j]).id,
            ));
        let n = update.len();
        let mut i: usize = 0;
        while i < n
            invariant
                n == update@.len(),
                self.wf(),
                self.client == old(self).client,
                self.name == old(self).name,
                self.peers == old(self).peers,
                i <= n,
                h == (old(self).pending_updates@.len() == 0 && (forall|j: int|
                    0 <= j < update@.len() ==> contains_id(
                        old(self).block_store@,
                        (#[trigger] update@[j]).id,
                    ))),
                forall|q: BlockID|
                    contains_id(old(self).block_store@, q) ==> contains_id(
                        self.block_store@,
                        q,
                    ),
                forall|q: BlockID|
                    tombstoned(old(self).block_store@, q) ==> tombstoned(self.block_store@, q),
                forall|c: ClientID, n2: nat|
                    covers(old(self).block_store@, c, n2) ==> covers(self.block_store@, c, n2),
                i == 0 ==> self.block_store@ == old(self).block_store@
                    && self.pending_updates@ == old(self).pending_updates@ && self.vector_clock
                    == old(self).vector_clock,
                (old(self).pending_updates@.len() == 0 && update@.len() == 1 && old(
                    self,
                ).must_integrate(update@[0]) && i > 0) ==> contains_id(
                    self.block_store@,
                    update@[0].id,
                ),
                forall|t: int|
                    (i > 0 && 0 <= t < old(self).pending_updates@.len() && (#[trigger] old(
                        self,
                    ).pending_updates@[t]).is_deleted && covers(
                        old(self).block_store@,
                        old(self).pending_updates@[t].id.client,
                        old(self).pending_updates@[t].id.clock as nat,
                    )) ==> tombstoned(self.block_store@, old(self).pending_updates@[t].id),
                (i > 0 && old(self).pending_updates@.len() >= 1 && old(
                    self,
                ).pending_updates@[0].is_deleted && old(self).must_integrate(
                    (Block { is_deleted: false, ..old(self).pending_updates@[0] }),
                )) ==> tombstoned(self.block_store@, old(self).pending_updates@[0].id),
                forall|j: int|
                    0 <= j < i ==> contains_id(self.block_store@, (#[trigger] update@[j]).id)
                        || self.pending_holds(update@[j].id) || update@[j].id.client == old(
                        self,
                    ).client,
                forall|q: BlockID|
                    old(self).pending_holds(q) ==> self.pending_holds(q) || contains_id(
                        self.block_store@,
                        q,
                    ),
                forall|p: int|
                    0 <= p < self.pending_updates@.len() ==> old(self).pending_holds(
                        (#[trigger] self.pending_updates@[p]).id,
                    ) || (exists|j: int|
                        0 <= j < update@.len() && update@[j].id == self.pending_updates@[p].id),
                h ==> self.block_store@ == old(self).block_store@
                    && self.pending_updates@.len() == 0 && self.vector_clock == old(
                    self,
                ).vector_clock,
            decreases n - i,
        {
            let ghost pre = *self;
            self.flush_pending_updates();
            let ghost mid1 = *self;
            let b = update[i].duplicate();
            let ok = self.insert_single_block(&b);
            let ghost mid2 = *self;
            if ok {
                self.flush_pending_updates();
            } else {
                if b.id.client != self.client {
                    self.push_pending(b);
                }
            }
            proof {
                assert(b == update@[i as int]);
                // The processed block is disposed of.
                if ok {
                    assert(contains_id(mid2.block_store@, update@[i as int].id));
                    assert(contains_id(self.block_store@, update@[i as int].id));
                } else {
                    if b.id.client != old(self).client {
                        assert(self.pending_holds(update@[i as int].id));
                    }
                }
                // In the first iteration the flush sees exactly the entry
                // state, so its buffered-tombstone obligations transfer.
                if i == 0 {
                    assert(pre.block_store@ == old(self).block_store@);
                    assert(pre.pending_updates@ == old(self).pending_updates@);
                    assert(pre.vector_clock == old(self).vector_clock);
                    assert forall|t: int|
                        (0 <= t < old(self).pending_updates@.len() && (#[trigger] old(
                            self,
                        ).pending_updates@[t]).is_deleted && covers(
                            old(self).block_store@,
                            old(self).pending_updates@[t].id.client,
                            old(self).pending_updates@[t].id.clock as nat,
                        )) implies tombstoned(self.block_store@, old(self).pending_updates@[t].id)
                        by {
                        assert(tombstoned(mid1.block_store@, old(self).pending_updates@[t].id));
                    }
                    if old(self).pending_updates@.len() >= 1 && old(
                        self,
                    ).pending_updates@[0].is_deleted && old(self).must_integrate(
                        (Block { is_deleted: false, ..old(self).pending_updates@[0] }),
                    ) {
                        assert(pre.must_integrate(
                            (Block { is_deleted: false, ..pre.pending_updates@[0] }),
                        ));
                        assert(tombstoned(mid1.block_store@, old(self).pending_updates@[0].id));
                        assert(tombstoned(self.block_store@, old(self).pending_updates@[0].id));
                    }
                }
                // A lone integrable block is applied: the first flush is a
                // no-op on an empty buffer, so the obligation transfers.
                if old(self).pending_updates@.len() == 0 && update@.len() == 1 && old(
                    self,
                ).must_integrate(update@[0]) && i == 0 {
                    assert(pre.pending_updates@.len() == 0);
                    assert(mid1.block_store@ == old(self).block_store@);
                    assert(mid1.vector_clock == old(self).vector_clock);
                    assert(mid1.must_integrate(update@[0]));
                    assert(ok);
                    assert(contains_id(mid2.block_store@, update@[0].id));
                    assert(contains_id(self.block_store@, update@[0].id));
                }
                // Earlier dispositions survive the flushes and the push.
                assert forall|j: int|
                    0 <= j < i + 1 implies contains_id(
                    self.block_store@,
                    (#[trigger] update@[j]).id,
                ) || self.pending_holds(update@[j].id) || update@[j].id.client == old(
                    self,
                ).client by {
                    if j < i as int {
                        if contains_id(pre.block_store@, update@[j].id) {
                            assert(contains_id(self.block_store@, update@[j].id));
                        } else if pre.pending_holds(update@[j].id) {
                            assert(mid1.pending_holds(update@[j].id) || contains_id(
                                mid1.block_store@,
                                update@[j].id,
                            ));
                            assert(mid2.pending_holds(update@[j].id) || contains_id(
                                mid2.block_store@,
                                update@[j].id,
                            ));
                            assert(self.pending_holds(update@[j].id) || contains_id(
                                self.block_store@,
                                update@[j].id,
                            ));
                        }
                    }
                }
                // Under the duplicate-batch hypothesis nothing moves.
                if h {
                    assert(mid1.block_store@ == pre.block_store@);
                    assert(contains_id(mid1.block_store@, b.id));
                    assert(mid2 == mid1);
                    assert(mid2.pending_updates@.len() == 0);
                    assert(self.block_store@ == old(self).block_store@);
                    assert(self.pending_updates@.len() == 0);
                    assert(self.vector_clock == old(self).vector_clock);
                }
            }
            i = i + 1;
        }
    }

    /// Applies one remote deletion: tombstones the covering block when one
    /// is present. When the target has not arrived, the delete deliberately
    /// integrates the block it carries and tombstones it at once — instead
    /// of only waiting for the insertion — so that deleted history also
    /// reaches replicas that never saw the insertion; the clock then moves
    /// by the carried content, exactly as if insertion and deletion had
    /// arrived in order. Returns `false`, leaving the document unchanged,
    /// only when the carried block's anchors are missing too.
    pub fn apply_delete(&mut self, block: &Block) -> (r: bool)
        requires
            old(self).wf(),
        ensures
            final(self).wf(),
            final(self).client == old(self).client,
            final(self).name == old(self).name,
            final(self).peers == old(self).peers,
            final(self).pending_updates == old(self).pending_updates,
            forall|q: BlockID|
                contains_id(old(self).block_store@, q) ==> contains_id(
                    final(self).block_store@,
                    q,
                ),
            forall|q: BlockID|
                tombstoned(old(self).block_store@, q) ==> tombstoned(final(self).block_store@, q),
            forall|c: ClientID, n: nat|
                covers(old(self).block_store@, c, n) ==> covers(final(self).block_store@, c, n),
            r ==> contains_id(final(self).block_store@, block.id),
            r ==> tombstoned(final(self).block_store@, block.id),
            covers(old(self).block_store@, block.id.client, block.id.clock as nat) ==> r,
            old(self).must_integrate((Block { is_deleted: false, ..*block })) ==> r,
    {
        if self.delete_single_block(block) {
            return true;
        }
        let mut nb = block.duplicate();
        nb.is_deleted = false;
        proof {
            assert(nb == (Block { is_deleted: false, ..*block }));
        }
        let ghost mid = *self;
        if self.insert_single_block(&nb) {
            proof {
                // The freshly integrated block starts at the target id, so
                // the id's clock is now covered.
                assert(contains_id(self.block_store@, block.id));
                let w = choose|w: int|
                    0 <= w < self.block_store@.len() && self.block_store@[w].id == block.id;
                assert(self.block_store@[w].len() > 0);
                assert(covers(self.block_store@, block.id.client, block.id.clock as nat));
            }
            self.delete_single_block(block)
        } else {
            proof {
                if old(self).must_integrate(nb) {
                    assert(mid.block_store@ == old(self).block_store@);
                    assert(mid.vector_clock.clock_map@ == old(self).vector_clock.clock_map@);
                    assert(mid.must_integrate(nb));
                    assert(false);
                }
            }
            false
        }
    }

    /// Integrates a batch of remote deletions, in order, buffering those
    /// whose target block has not arrived yet: every block of the batch is
    /// afterwards in the store by id or waiting in the pending buffer, every
    /// batch block whose target clock was covered ends present and
    /// tombstoned, and the buffer holds only blocks it already held or
    /// blocks of this batch.
    pub fn delete_remote(&mut self, update: Updates)
        requires
            old(self).wf(),
        ensures
            final(self).wf(),
            final(self).client == old(self).client,
            final(self).name == old(self).name,
            final(self).peers == old(self).peers,
            forall|q: BlockID|
                contains_id(old(self).block_store@, q) ==> contains_id(
                    final(self).block_store@,
                    q,
                ),
            forall|q: BlockID|
                tombstoned(old(self).block_store@, q) ==> tombstoned(final(self).block_store@, q),
            forall|c: ClientID, n: nat|
                covers(old(self).block_store@, c, n) ==> covers(final(self).block_store@, c, n),
            forall|j: int|
                0 <= j < update@.len() ==> contains_id(
                    final(self).block_store@,
                    (#[trigger] update@[j]).id,
                ) || final(self).pending_holds(update@[j].id),
            forall|j: int|
                (0 <= j < update@.len() && covers(
                    old(self).block_store@,
                    (#[trigger] update@[j]).id.client,
                    update@[j].id.clock as nat,
                )) ==> tombstoned(final(self).block_store@, update@[j].id),
            forall|q: BlockID|
                old(self).pending_holds(q) ==> final(self).pending_holds(q) || contains_id(
                    final(self).block_store@,
                    q,
                ),
            forall|p: int|
                0 <= p < final(self).pending_updates@.len() ==> old(self).pending_holds(
                    (#[trigger] final(self).pending_updates@[p]).id,
                ) || (exists|j: int|
                    0 <= j < update@.len() && update@[j].id
                        == final(self).pending_updates@[p].id),
    {
        let n = update.len();
        let mut i: usize = 0;
        while i < n
            invariant
                n == update@.len(),
                self.wf(),
                self.client == old(self).client,
                self.name == old(self).name,
                self.peers == old(self).peers,
                i <= n,
                forall|q: BlockID|
                    contains_id(old(self).block_store@, q) ==> contains_id(
                        self.block_store@,
                        q,
                    ),
                forall|q: BlockID|
                    tombstoned(old(self).block_store@, q) ==> tombstoned(self.block_store@, q),
                forall|c: ClientID, n2: nat|
                    covers(old(self).block_store@, c, n2) ==> covers(self.block_store@, c, n2),
                forall|j: int|
                    0 <= j < i ==> contains_id(self.block_store@, (#[trigger] update@[j]).id)
                        || self.pending_holds(update@[j].id),
                forall|j: int|
                    (0 <= j < i && covers(
                        old(self).block_store@,
                        (#[trigger] update@[j]).id.client,
                        update@[j].id.clock as nat,
                    )) ==> tombstoned(self.block_store@, update@[j].id),
                forall|q: BlockID|
                    old(self).pending_holds(q) ==> self.pending_holds(q) || contains_id(
                        self.block_store@,
                        q,
                    ),
                forall|p: int|
                    0 <= p < self.pending_updates@.len() ==> old(self).pending_holds(
                        (#[trigger] self.pending_updates@[p]).id,
                    ) || (exists|j: int|
                        0 <= j < update@.len() && update@[j].id == self.pending_updates@[p].id),
            decreases n - i,
        {
            let ghost pre = *self;
            self.flush_pending_updates();
            let ghost mid1 = *self;
            let b = update[i].duplicate();
            let ok = self.apply_delete(&b);
            if !ok {
                self.push_pending(b);
            }
            proof {
                assert(b == update@[i as int]);
                if ok {
                    assert(contains_id(self.block_store@, update@[i as int].id));
                } else {
                    assert(self.pending_holds(update@[i as int].id));
                }
                // A covered target is tombstoned now and stays tombstoned.
                if covers(
                    old(self).block_store@,
                    update@[i as int].id.client,
                    update@[i as int].id.clock as nat,
                ) {
                    assert(covers(
                        mid1.block_store@,
                        update@[i as int].id.client,
                        update@[i as int].id.clock as nat,
                    ));
                    assert(ok);
                    assert(tombstoned(self.block_store@, update@[i as int].id));
                }
                assert forall|j: int|
                    0 <= j < i + 1 implies contains_id(
                    self.block_store@,
                    (#[trigger] update@[j]).id,
                ) || self.pending_holds(update@[j].id) by {
                    if j < i as int {
                        if contains_id(pre.block_store@, update@[j].id) {
                            assert(contains_id(self.block_store@, update@[j].id));
                        } else if pre.pending_holds(update@[j].id) {
                            assert(mid1.pending_holds(update@[j].id) || contains_id(
                                mid1.block_store@,
                                update@[j].id,
                            ));
                            assert(self.pending_holds(update@[j].id) || contains_id(
                                self.block_store@,
                                update@[j].id,
                            ));
                        }
                    }
                }
            }
            i = i + 1;
        }
    }
}

/// The conflict-scan destination for a remote block: starting just past the
/// resolved left origin, candidates up to the resolved right origin are
/// passed or stopped at by comparing the positions of their own anchors —
/// a strictly earlier left origin stops the walk; an equal left origin
/// compares right origins, breaking full ties on the block-id order; a later
/// left origin is passed without committing. `dest` is the committed
/// insertion index so far. A candidate whose own anchor no longer resolves
/// stops the walk (such anchors only arise from corrupted histories).
pub open spec fn yata_dest(
    s: Seq<Block>,
    l: Option<int>,
    r: Option<int>,
    bid: BlockID,
    i: int,
    dest: int,
) -> int
    decreases s.len() - i,
{
    let rb: int = match r {
        Some(x) => x,
        None => s.len() as int,
    };
    if i < 0 || i >= s.len() || i == rb {
        dest
    } else {
        let lstop = match s[i].left_origin {
            Some(a) => !covers(s, a.client, a.clock as nat),
            None => false,
        };
        if lstop {
            dest
        } else {
            let cl_lt = match (s[i].left_origin, l) {
                (Option::None, Option::None) => false,
                (Option::None, Option::Some(_)) => true,
                (Option::Some(_), Option::None) => false,
                (Option::Some(a), Option::Some(li)) => cover_idx(s, a.client, a.clock as nat)
                    < li,
            };
            let cl_eq = match (s[i].left_origin, l) {
                (Option::None, Option::None) => true,
                (Option::Some(a), Option::Some(li)) => cover_idx(s, a.client, a.clock as nat)
                    == li && a.clock == s[cover_idx(s, a.client, a.clock as nat)].id.clock,
                _ => false,
            };
            if cl_lt {
                dest
            } else if cl_eq {
                let rstop = match s[i].right_origin {
                    Some(a) => !covers(s, a.client, a.clock as nat),
                    None => false,
                };
                if rstop {
                    yata_dest(s, l, r, bid, i + 1, i + 1)
                } else {
                    let cr_lt = match (s[i].right_origin, r) {
                        (Option::None, Option::None) => false,
                        (Option::None, Option::Some(_)) => false,
                        (Option::Some(_), Option::None) => true,
                        (Option::Some(a), Option::Some(ri)) => cover_idx(
                            s,
                            a.client,
                            a.clock as nat,
                        ) < ri,
                    };
                    let cr_eq = match (s[i].right_origin, r) {
                        (Option::None, Option::None) => true,
                        (Option::Some(a), Option::Some(ri)) => cover_idx(
                            s,
                            a.client,
                            a.clock as nat,
                        ) == ri && a.clock == s[cover_idx(s, a.client, a.clock as nat)].id.clock,
                        _ => false,
                    };
                    if cr_lt {
                        yata_dest(s, l, r, bid, i + 1, dest)
                    } else if cr_eq {
                        if bid.spec_lt(s[i].id) {
                            dest
                        } else {
                            yata_dest(s, l, r, bid, i + 1, i + 1)
                        }
                    } else {
                        yata_dest(s, l, r, bid, i + 1, i + 1)
                    }
                }
            } else {
                yata_dest(s, l, r, bid, i + 1, dest)
            }
        }
    }
}

/// For every reachable document, the clock recorded for each client equals
/// the total content length of that client's blocks in the store.
pub proof fn lemma_clock_matches_log(d: Doc, c: ClientID)
    requires
        d.wf(),
    ensures
        d.vector_clock.spec_get(c) as nat == client_len(d.block_store@, c),
{
}

/// A remote block that arrives in clock order — its clock equals the length
/// of its client's log so far — extends a contiguous log contiguously. The
/// covering and length conditions are exactly what integration guarantees;
/// out-of-order arrivals are the inputs on which contiguity cannot be
/// promised.
pub proof fn lemma_integration_keeps_contiguity(
    pre: Seq<Block>,
    post: Seq<Block>,
    b: Block,
    c: ClientID,
)
    requires
        client_contiguous(pre, c),
        forall|n: nat|
            covers(post, c, n) <==> covers(pre, c, n) || (b.id.client == c && b.id.clock <= n
                < b.id.clock + b.len()),
        client_len(post, c) == client_len(pre, c) + (if b.id.client == c {
            b.len()
        } else {
            0
        }),
        b.id.client == c ==> b.id.clock == client_len(pre, c),
    ensures
        client_contiguous(post, c),
{
    assert forall|k: nat| covers(post, c, k) <==> k < client_len(post, c) by {
        assert(covers(pre, c, k) <==> k < client_len(pre, c));
        assert(covers(post, c, k) <==> covers(pre, c, k) || (b.id.client == c && b.id.clock <= k
            < b.id.clock + b.len()));
    }
}

} // verus!
