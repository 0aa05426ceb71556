use vstd::prelude::*;
use vstd::string::StringExecFns;
use vstd::string::StrSliceExecFns;
use crate::block::{Block, BlockID, Content, ClientID};

verus! {

/// The characters a block contributes to the rendered document.
pub open spec fn visible(b: Block) -> Seq<char> {
    if b.is_deleted {
        Seq::<char>::empty()
    } else {
        b.content.content@
    }
}

/// The rendered document of a block sequence: the concatenation, in spatial
/// order, of the content of the non-tombstoned blocks.
pub open spec fn spec_render(s: Seq<Block>) -> Seq<char>
    decreases s.len(),
{
    if s.len() == 0 {
        Seq::<char>::empty()
    } else {
        visible(s[0]) + spec_render(s.skip(1))
    }
}

/// No two blocks of the sequence share an id.
pub open spec fn unique_ids(s: Seq<Block>) -> bool {
    forall|i: int, j: int| 0 <= i < j < s.len() ==> s[i].id != s[j].id
}

/// Every block of the sequence carries at least one character.
pub open spec fn nonempty_contents(s: Seq<Block>) -> bool {
    forall|i: int| 0 <= i < s.len() ==> #[trigger] s[i].len() > 0
}

/// A block's clock range stays within the `u32` append-log index space.
pub open spec fn clocks_bounded(s: Seq<Block>) -> bool {
    forall|i: int| 0 <= i < s.len() ==> (#[trigger] s[i]).id.clock + s[i].len() <= u32::MAX
}

/// Two blocks of the same client never cover the same clock position.
pub open spec fn ranges_disjoint(a: Block, b: Block) -> bool {
    a.id.client == b.id.client ==> (a.id.clock + a.len() <= b.id.clock || b.id.clock + b.len()
        <= a.id.clock)
}

/// Clock ranges of one client's blocks are pairwise disjoint.
pub open spec fn client_disjoint(s: Seq<Block>) -> bool {
    forall|i: int, j: int| 0 <= i < j < s.len() ==> #[trigger] ranges_disjoint(s[i], s[j])
}

/// Well-formedness of a block sequence: unique ids, non-empty contents,
/// clock ranges within `u32` and pairwise disjoint per client.
pub open spec fn wf_seq(s: Seq<Block>) -> bool {
    unique_ids(s) && nonempty_contents(s) && clocks_bounded(s) && client_disjoint(s)
}

/// Some block of the sequence has the given id.
pub open spec fn contains_id(s: Seq<Block>, id: BlockID) -> bool {
    exists|i: int| 0 <= i < s.len() && s[i].id == id
}

/// The sequence holds a tombstoned block with the given id.
pub open spec fn tombstoned(s: Seq<Block>, id: BlockID) -> bool {
    exists|i: int| 0 <= i < s.len() && s[i].id == id && s[i].is_deleted
}

/// The index of the block with the given id; meaningful when the id occurs
/// and ids are unique.
pub open spec fn spec_index_of(s: Seq<Block>, id: BlockID) -> int {
    choose|i: int| 0 <= i < s.len() && s[i].id == id
}

/// The total number of characters ever appended by the given client:
/// the sum of the content lengths of its blocks.
pub open spec fn client_len(s: Seq<Block>, c: ClientID) -> nat
    decreases s.len(),
{
    if s.len() == 0 {
        0
    } else {
        (if s[0].id.client == c {
            s[0].len()
        } else {
            0
        }) + client_len(s.skip(1), c)
    }
}

/// The given clock position of the given client is covered by some block.
pub open spec fn covers(s: Seq<Block>, c: ClientID, k: nat) -> bool {
    exists|i: int|
        0 <= i < s.len() && s[i].id.client == c && s[i].id.clock <= k < s[i].id.clock + s[i].len()
}

/// The index of the block covering the given clock position of the given
/// client; meaningful when the position is covered and ranges are disjoint.
pub open spec fn cover_idx(s: Seq<Block>, c: ClientID, k: nat) -> int {
    choose|i: int|
        0 <= i < s.len() && s[i].id.client == c && s[i].id.clock <= k < s[i].id.clock + s[i].len()
}

/// Under disjoint per-client ranges the covering block is unique.
pub proof fn lemma_cover_unique(s: Seq<Block>, c: ClientID, k: nat, i: int, j: int)
    requires
        client_disjoint(s),
        0 <= i < s.len(),
        0 <= j < s.len(),
        s[i].id.client == c && s[i].id.clock <= k < s[i].id.clock + s[i].len(),
        s[j].id.client == c && s[j].id.clock <= k < s[j].id.clock + s[j].len(),
    ensures
        i == j,
{
    if i < j {
        assert(ranges_disjoint(s[i], s[j]));
    }
    if j < i {
        assert(ranges_disjoint(s[j], s[i]));
    }
}

/// The store after one anchor resolution: unchanged for a boundary anchor
/// or an anchor that is a block's own start, and split exactly at the anchor
/// when it falls strictly inside the covering block.
pub open spec fn anchor_resolved(pre: Seq<Block>, post: Seq<Block>, a: Option<BlockID>) -> bool {
    match a {
        None => post == pre,
        Some(id) => {
            if contains_id(pre, id) {
                post == pre
            } else {
                is_split_of(
                    pre,
                    post,
                    cover_idx(pre, id.client, id.clock as nat),
                    id.clock - pre[cover_idx(pre, id.client, id.clock as nat)].id.clock,
                )
            }
        },
    }
}

/// The blocks of the given client partition the clock range
/// `[0, client_len)`: no gaps, no overlap, nothing beyond.
pub open spec fn client_contiguous(s: Seq<Block>, c: ClientID) -> bool {
    forall|k: nat| #[trigger] covers(s, c, k) <==> k < client_len(s, c)
}

/// Rendering distributes over concatenation of block sequences.
pub proof fn lemma_render_concat(s1: Seq<Block>, s2: Seq<Block>)
    ensures
        spec_render(s1 + s2) == spec_render(s1) + spec_render(s2),
    decreases s1.len(),
{
    if s1.len() == 0 {
        assert(s1 + s2 =~= s2);
        assert(spec_render(s1) + spec_render(s2) =~= spec_render(s2));
    } else {
        assert((s1 + s2).skip(1) =~= s1.skip(1) + s2);
        lemma_render_concat(s1.skip(1), s2);
        assert(spec_render(s1 + s2) =~= spec_render(s1) + spec_render(s2));
    }
}

/// Rendering a single block yields its visible characters.
pub proof fn lemma_render_singleton(b: Block)
    ensures
        spec_render(seq![b]) == visible(b),
{
    let s = seq![b];
    assert(s.len() == 1);
    assert(s[0] == b);
    assert(s.skip(1) =~= Seq::<Block>::empty());
    assert(spec_render(s.skip(1)) == Seq::<char>::empty());
    assert(spec_render(s) == visible(b) + Seq::<char>::empty());
    assert(visible(b) + Seq::<char>::empty() =~= visible(b));
}

/// The render of a sequence splits at any index.
pub proof fn lemma_render_split(s: Seq<Block>, i: int)
    requires
        0 <= i <= s.len(),
    ensures
        spec_render(s) == spec_render(s.take(i)) + spec_render(s.skip(i)),
{
    assert(s =~= s.take(i) + s.skip(i));
    lemma_render_concat(s.take(i), s.skip(i));
}

/// The render of a sequence with one block inserted.
pub proof fn lemma_render_insert(s: Seq<Block>, i: int, b: Block)
    requires
        0 <= i <= s.len(),
    ensures
        spec_render(s.insert(i, b)) == spec_render(s.take(i)) + visible(b) + spec_render(s.skip(i)),
{
    assert(s.insert(i, b) =~= s.take(i) + seq![b] + s.skip(i));
    lemma_render_concat(s.take(i) + seq![b], s.skip(i));
    lemma_render_concat(s.take(i), seq![b]);
    lemma_render_singleton(b);
}

/// The render of a sequence with one block replaced.
pub proof fn lemma_render_update(s: Seq<Block>, i: int, b: Block)
    requires
        0 <= i < s.len(),
    ensures
        spec_render(s.update(i, b)) == spec_render(s.take(i)) + visible(b) + spec_render(s.skip(i + 1)),
        spec_render(s) == spec_render(s.take(i)) + visible(s[i]) + spec_render(s.skip(i + 1)),
{
    assert(s.update(i, b) =~= s.take(i) + seq![b] + s.skip(i + 1));
    assert(s =~= s.take(i) + seq![s[i]] + s.skip(i + 1));
    lemma_render_concat(s.take(i) + seq![b], s.skip(i + 1));
    lemma_render_concat(s.take(i), seq![b]);
    lemma_render_singleton(b);
    lemma_render_concat(s.take(i) + seq![s[i]], s.skip(i + 1));
    lemma_render_concat(s.take(i), seq![s[i]]);
    lemma_render_singleton(s[i]);
}

/// Per-client length distributes over concatenation.
pub proof fn lemma_client_len_concat(s1: Seq<Block>, s2: Seq<Block>, c: ClientID)
    ensures
        client_len(s1 + s2, c) == client_len(s1, c) + client_len(s2, c),
    decreases s1.len(),
{
    if s1.len() == 0 {
        assert(s1 + s2 =~= s2);
    } else {
        assert((s1 + s2).skip(1) =~= s1.skip(1) + s2);
        lemma_client_len_concat(s1.skip(1), s2, c);
    }
}

/// Per-client length of a singleton.
pub proof fn lemma_client_len_singleton(b: Block, c: ClientID)
    ensures
        client_len(seq![b], c) == if b.id.client == c { b.len() } else { 0 },
{
    let s = seq![b];
    assert(s.len() == 1);
    assert(s[0] == b);
    assert(s.skip(1) =~= Seq::<Block>::empty());
    assert(client_len(s.skip(1), c) == 0);
}

/// Per-client length after inserting one block.
pub proof fn lemma_client_len_insert(s: Seq<Block>, i: int, b: Block, c: ClientID)
    requires
        0 <= i <= s.len(),
    ensures
        client_len(s.insert(i, b), c) == client_len(s, c) + if b.id.client == c { b.len() } else { 0 },
{
    assert(s.insert(i, b) =~= s.take(i) + seq![b] + s.skip(i));
    assert(s =~= s.take(i) + s.skip(i));
    lemma_client_len_concat(s.take(i) + seq![b], s.skip(i), c);
    lemma_client_len_concat(s.take(i), seq![b], c);
    lemma_client_len_concat(s.take(i), s.skip(i), c);
    lemma_client_len_singleton(b, c);
}

/// Per-client length after replacing one block.
pub proof fn lemma_client_len_update(s: Seq<Block>, i: int, b: Block, c: ClientID)
    requires
        0 <= i < s.len(),
    ensures
        client_len(s.update(i, b), c) == client_len(s, c)
            - (if s[i].id.client == c { s[i].len() } else { 0 })
            + (if b.id.client == c { b.len() } else { 0 }),
{
    assert(s.update(i, b) =~= s.take(i) + seq![b] + s.skip(i + 1));
    assert(s =~= s.take(i) + seq![s[i]] + s.skip(i + 1));
    lemma_client_len_concat(s.take(i) + seq![b], s.skip(i + 1), c);
    lemma_client_len_concat(s.take(i), seq![b], c);
    lemma_client_len_concat(s.take(i) + seq![s[i]], s.skip(i + 1), c);
    lemma_client_len_concat(s.take(i), seq![s[i]], c);
    lemma_client_len_singleton(b, c);
    lemma_client_len_singleton(s[i], c);
}

/// Disjoint clock ranges with non-empty contents force distinct ids.
pub proof fn lemma_disjoint_unique(s: Seq<Block>)
    requires
        nonempty_contents(s),
        client_disjoint(s),
    ensures
        unique_ids(s),
{
    assert forall|i: int, j: int| 0 <= i < j < s.len() implies s[i].id != s[j].id by {
        assert(ranges_disjoint(s[i], s[j]));
        assert(s[i].len() > 0);
        assert(s[j].len() > 0);
    }
}

/// The id of the right half produced by splitting block `b` at offset `k`.
pub open spec fn split_right_id(b: Block, k: int) -> BlockID {
    BlockID { client: b.id.client, clock: (b.id.clock + k) as u32 }
}

/// The shape of a block sequence after the block at index `i` was split at
/// character offset `k`: the left half keeps the identity and points right at
/// the new half; the right half carries the suffix, points left at the left
/// half and right at the original right origin; the tombstone flag is shared.
pub open spec fn is_split_of(pre: Seq<Block>, post: Seq<Block>, i: int, k: int) -> bool {
    let b = pre[i];
    let rid = split_right_id(b, k);
    &&& post.len() == pre.len() + 1
    &&& (forall|j: int| 0 <= j < i ==> post[j] == pre[j])
    &&& (forall|j: int| i + 2 <= j < post.len() ==> post[j] == pre[j - 1])
    &&& post[i].id == b.id
    &&& post[i].left_origin == b.left_origin
    &&& post[i].right_origin == Some(rid)
    &&& post[i].is_deleted == b.is_deleted
    &&& post[i].content.content@ == b.content.content@.take(k)
    &&& post[i + 1].id == rid
    &&& post[i + 1].left_origin == Some(b.id)
    &&& post[i + 1].right_origin == b.right_origin
    &&& post[i + 1].is_deleted == b.is_deleted
    &&& post[i + 1].content.content@ == b.content.content@.skip(k)
}

/// A split leaves the rendered string, the per-client character counts and
/// the covered clock positions unchanged, and preserves well-formedness; the
/// only id it adds is the right half's.
pub proof fn lemma_split_of_properties(pre: Seq<Block>, post: Seq<Block>, i: int, k: int)
    requires
        wf_seq(pre),
        0 <= i < pre.len(),
        0 < k < pre[i].len(),
        is_split_of(pre, post, i, k),
    ensures
        wf_seq(post),
        spec_render(post) == spec_render(pre),
        forall|c: ClientID| client_len(post, c) == client_len(pre, c),
        forall|c: ClientID, n: nat| covers(post, c, n) <==> covers(pre, c, n),
        forall|id: BlockID| contains_id(pre, id) ==> contains_id(post, id),
        forall|id: BlockID| contains_id(post, id) ==> contains_id(pre, id) || id == split_right_id(
            pre[i],
            k,
        ),
        contains_id(post, split_right_id(pre[i], k)),
        contains_id(post, pre[i].id),
        forall|id: BlockID| tombstoned(pre, id) ==> tombstoned(post, id),
{
    let b = pre[i];
    let bl = post[i];
    let br = post[i + 1];
    assert forall|id: BlockID| tombstoned(pre, id) implies tombstoned(post, id) by {
        let j = choose|j: int| 0 <= j < pre.len() && pre[j].id == id && pre[j].is_deleted;
        if j < i {
            assert(post[j] == pre[j]);
        } else if j == i {
            assert(post[i].id == id && post[i].is_deleted);
        } else {
            assert(post[j + 1] == pre[j]);
        }
    }
    assert(b.id.clock + b.len() <= u32::MAX);
    assert(b.len() > 0);
    assert(bl.len() == k);
    assert(br.len() == b.len() - k);

    // Decompose both sequences around the split point.
    assert(pre =~= pre.take(i) + seq![b] + pre.skip(i + 1));
    assert(post =~= pre.take(i) + seq![bl, br] + pre.skip(i + 1)) by {
        assert forall|j: int| 0 <= j < post.len() implies post[j] == (pre.take(i) + seq![bl, br]
            + pre.skip(i + 1))[j] by {
            if j < i {
            } else if j == i {
            } else if j == i + 1 {
            } else {
            }
        }
    }
    assert(seq![bl, br] =~= seq![bl] + seq![br]);

    // Rendering is unchanged: the two halves concatenate to the original.
    assert(visible(bl) + visible(br) =~= visible(b));
    lemma_render_concat(pre.take(i) + seq![b], pre.skip(i + 1));
    lemma_render_concat(pre.take(i), seq![b]);
    lemma_render_singleton(b);
    lemma_render_concat(pre.take(i) + (seq![bl] + seq![br]), pre.skip(i + 1));
    lemma_render_concat(pre.take(i), seq![bl] + seq![br]);
    lemma_render_concat(seq![bl], seq![br]);
    lemma_render_singleton(bl);
    lemma_render_singleton(br);
    assert(spec_render(post) == spec_render(pre));

    // Per-client character counts are unchanged.
    assert forall|c: ClientID| client_len(post, c) == client_len(pre, c) by {
        lemma_client_len_concat(pre.take(i) + seq![b], pre.skip(i + 1), c);
        lemma_client_len_concat(pre.take(i), seq![b], c);
        lemma_client_len_singleton(b, c);
        lemma_client_len_concat(pre.take(i) + (seq![bl] + seq![br]), pre.skip(i + 1), c);
        lemma_client_len_concat(pre.take(i), seq![bl] + seq![br], c);
        lemma_client_len_concat(seq![bl], seq![br], c);
        lemma_client_len_singleton(bl, c);
        lemma_client_len_singleton(br, c);
    }

    // Covered clock positions are unchanged.
    assert forall|c: ClientID, n: nat| covers(post, c, n) <==> covers(pre, c, n) by {
        if covers(post, c, n) {
            let j = choose|j: int|
                0 <= j < post.len() && post[j].id.client == c && post[j].id.clock <= n < post[j].id.clock
                    + post[j].len();
            if j < i {
                assert(pre[j] == post[j]);
                assert(covers(pre, c, n));
            } else if j == i || j == i + 1 {
                assert(b.id.client == c && b.id.clock <= n < b.id.clock + b.len());
                assert(covers(pre, c, n));
            } else {
                assert(post[j] == pre[j - 1]);
                assert(covers(pre, c, n));
            }
        }
        if covers(pre, c, n) {
            let j = choose|j: int|
                0 <= j < pre.len() && pre[j].id.client == c && pre[j].id.clock <= n < pre[j].id.clock
                    + pre[j].len();
            if j < i {
                assert(post[j] == pre[j]);
                assert(covers(post, c, n));
            } else if j == i {
                if n < b.id.clock + k {
                    assert(post[i].id.client == c && post[i].id.clock <= n < post[i].id.clock
                        + post[i].len());
                } else {
                    assert(post[i + 1].id.client == c && post[i + 1].id.clock <= n < post[i
                        + 1].id.clock + post[i + 1].len());
                }
                assert(covers(post, c, n));
            } else {
                assert(post[j + 1] == pre[j]);
                assert(covers(post, c, n));
            }
        }
    }

    // Old ids persist; the only new id is the right half's.
    assert forall|id: BlockID| contains_id(pre, id) implies contains_id(post, id) by {
        let j = choose|j: int| 0 <= j < pre.len() && pre[j].id == id;
        if j < i {
            assert(post[j].id == id);
        } else if j == i {
            assert(post[i].id == id);
        } else {
            assert(post[j + 1] == pre[j]);
            assert(post[j + 1].id == id);
        }
    }
    assert forall|id: BlockID| contains_id(post, id) implies contains_id(pre, id) || id
        == split_right_id(pre[i], k) by {
        let j = choose|j: int| 0 <= j < post.len() && post[j].id == id;
        if j < i {
            assert(pre[j].id == id);
        } else if j == i {
            assert(pre[i].id == id);
        } else if j == i + 1 {
        } else {
            assert(post[j] == pre[j - 1]);
            assert(pre[j - 1].id == id);
        }
    }
    assert(post[i + 1].id == split_right_id(pre[i], k));
    assert(post[i].id == pre[i].id);

    // Well-formedness is preserved.
    assert(nonempty_contents(post)) by {
        assert forall|j: int| 0 <= j < post.len() implies #[trigger] post[j].len() > 0 by {
            if j < i {
                assert(post[j] == pre[j]);
                assert(pre[j].len() > 0);
            } else if j == i || j == i + 1 {
            } else {
                assert(post[j] == pre[j - 1]);
                assert(pre[j - 1].len() > 0);
            }
        }
    }
    assert(clocks_bounded(post)) by {
        assert forall|j: int| 0 <= j < post.len() implies (#[trigger] post[j]).id.clock
            + post[j].len() <= u32::MAX by {
            if j < i {
                assert(post[j] == pre[j]);
                assert(pre[j].id.clock + pre[j].len() <= u32::MAX);
            } else if j == i || j == i + 1 {
            } else {
                assert(post[j] == pre[j - 1]);
                assert(pre[j - 1].id.clock + pre[j - 1].len() <= u32::MAX);
            }
        }
    }
    assert(client_disjoint(post)) by {
        assert forall|j1: int, j2: int| 0 <= j1 < j2 < post.len() implies #[trigger] ranges_disjoint(
            post[j1],
            post[j2],
        ) by {
            let p1 = if j1 < i { j1 } else if j1 == i || j1 == i + 1 { i } else { j1 - 1 };
            let p2 = if j2 < i { j2 } else if j2 == i || j2 == i + 1 { i } else { j2 - 1 };
            if j1 == i && j2 == i + 1 {
                assert(ranges_disjoint(post[j1], post[j2]));
            } else {
                assert(0 <= p1 < pre.len());
                assert(0 <= p2 < pre.len());
                assert(p1 != p2);
                if p1 < p2 {
                    assert(ranges_disjoint(pre[p1], pre[p2]));
                } else {
                    assert(ranges_disjoint(pre[p2], pre[p1]));
                }
                assert(post[j1].id.client == pre[p1].id.client);
                assert(post[j2].id.client == pre[p2].id.client);
                assert(pre[p1].id.clock <= post[j1].id.clock && post[j1].id.clock + post[j1].len()
                    <= pre[p1].id.clock + pre[p1].len());
                assert(pre[p2].id.clock <= post[j2].id.clock && post[j2].id.clock + post[j2].len()
                    <= pre[p2].id.clock + pre[p2].len());
            }
        }
    }
    lemma_disjoint_unique(post);
}

/// Inserting a block extends the covered clock positions by exactly the new
/// block's range.
pub proof fn lemma_covers_insert(s: Seq<Block>, i: int, b: Block)
    requires
        0 <= i <= s.len(),
    ensures
        forall|c: ClientID, k: nat|
            covers(s.insert(i, b), c, k) <==> covers(s, c, k) || (b.id.client == c && b.id.clock
                <= k < b.id.clock + b.len()),
{
    let post = s.insert(i, b);
    assert forall|c: ClientID, k: nat|
        covers(post, c, k) <==> covers(s, c, k) || (b.id.client == c && b.id.clock <= k
            < b.id.clock + b.len()) by {
        if covers(post, c, k) {
            let j = choose|j: int|
                0 <= j < post.len() && post[j].id.client == c && post[j].id.clock <= k
                    < post[j].id.clock + post[j].len();
            if j < i {
                assert(post[j] == s[j]);
                assert(covers(s, c, k));
            } else if j == i {
            } else {
                assert(post[j] == s[j - 1]);
                assert(covers(s, c, k));
            }
        }
        if covers(s, c, k) {
            let j = choose|j: int|
                0 <= j < s.len() && s[j].id.client == c && s[j].id.clock <= k < s[j].id.clock
                    + s[j].len();
            if j < i {
                assert(post[j] == s[j]);
            } else {
                assert(post[j + 1] == s[j]);
            }
            assert(covers(post, c, k));
        }
        if b.id.client == c && b.id.clock <= k < b.id.clock + b.len() {
            assert(post[i] == b);
            assert(covers(post, c, k));
        }
    }
}

/// Inserting a block whose clock range is in bounds and disjoint from every
/// same-client block keeps the sequence well-formed.
pub proof fn lemma_insert_wf(s: Seq<Block>, i: int, b: Block)
    requires
        wf_seq(s),
        0 <= i <= s.len(),
        b.len() > 0,
        b.id.clock + b.len() <= u32::MAX,
        forall|j: int| 0 <= j < s.len() ==> #[trigger] ranges_disjoint(s[j], b),
    ensures
        wf_seq(s.insert(i, b)),
        forall|id: BlockID|
            contains_id(s.insert(i, b), id) <==> contains_id(s, id) || id == b.id,
        forall|id: BlockID| tombstoned(s, id) ==> tombstoned(s.insert(i, b), id),
{
    let post = s.insert(i, b);
    assert forall|id: BlockID| tombstoned(s, id) implies tombstoned(post, id) by {
        let j = choose|j: int| 0 <= j < s.len() && s[j].id == id && s[j].is_deleted;
        if j < i {
            assert(post[j] == s[j]);
        } else {
            assert(post[j + 1] == s[j]);
        }
    }
    assert(nonempty_contents(post)) by {
        assert forall|j: int| 0 <= j < post.len() implies #[trigger] post[j].len() > 0 by {
            if j < i {
                assert(post[j] == s[j]);
                assert(s[j].len() > 0);
            } else if j == i {
            } else {
                assert(post[j] == s[j - 1]);
                assert(s[j - 1].len() > 0);
            }
        }
    }
    assert(clocks_bounded(post)) by {
        assert forall|j: int| 0 <= j < post.len() implies (#[trigger] post[j]).id.clock
            + post[j].len() <= u32::MAX by {
            if j < i {
                assert(post[j] == s[j]);
                assert(s[j].id.clock + s[j].len() <= u32::MAX);
            } else if j == i {
            } else {
                assert(post[j] == s[j - 1]);
                assert(s[j - 1].id.clock + s[j - 1].len() <= u32::MAX);
            }
        }
    }
    assert(client_disjoint(post)) by {
        assert forall|j1: int, j2: int| 0 <= j1 < j2 < post.len() implies #[trigger] ranges_disjoint(
            post[j1],
            post[j2],
        ) by {
            let p1 = if j1 < i { j1 } else { j1 - 1 };
            let p2 = if j2 < i { j2 } else { j2 - 1 };
            if j1 == i {
                assert(post[j2] == s[p2]);
                assert(ranges_disjoint(s[p2], b));
            } else if j2 == i {
                assert(post[j1] == s[p1]);
                assert(ranges_disjoint(s[p1], b));
            } else {
                assert(post[j1] == s[p1]);
                assert(post[j2] == s[p2]);
                if p1 < p2 {
                    assert(ranges_disjoint(s[p1], s[p2]));
                } else {
                    assert(ranges_disjoint(s[p2], s[p1]));
                }
            }
        }
    }
    lemma_disjoint_unique(post);
    assert forall|id: BlockID|
        contains_id(post, id) <==> contains_id(s, id) || id == b.id by {
        if contains_id(post, id) {
            let j = choose|j: int| 0 <= j < post.len() && post[j].id == id;
            if j < i {
                assert(s[j].id == id);
            } else if j == i {
            } else {
                assert(post[j] == s[j - 1]);
                assert(s[j - 1].id == id);
            }
        }
        if contains_id(s, id) {
            let j = choose|j: int| 0 <= j < s.len() && s[j].id == id;
            if j < i {
                assert(post[j].id == id);
            } else {
                assert(post[j + 1] == s[j]);
                assert(post[j + 1].id == id);
            }
        }
        if id == b.id {
            assert(post[i].id == id);
        }
    }
}

/// Setting the tombstone of one block touches neither the ids, the per-client
/// character counts, the covered clock positions, nor well-formedness; the
/// rendered string loses exactly that block's visible characters.
pub proof fn lemma_tombstone_preserves(s: Seq<Block>, i: int)
    requires
        wf_seq(s),
        0 <= i < s.len(),
    ensures
        ({
            let post = s.update(i, (Block { is_deleted: true, ..s[i] }));
            &&& wf_seq(post)
            &&& (forall|c: ClientID| client_len(post, c) == client_len(s, c))
            &&& (forall|c: ClientID, n: nat| covers(post, c, n) <==> covers(s, c, n))
            &&& (forall|id: BlockID| contains_id(post, id) <==> contains_id(s, id))
            &&& (forall|id: BlockID| tombstoned(s, id) ==> tombstoned(post, id))
            &&& tombstoned(post, s[i].id)
            &&& spec_render(post) == spec_render(s.take(i)) + spec_render(s.skip(i + 1))
        }),
{
    let nb = Block { is_deleted: true, ..s[i] };
    let post = s.update(i, nb);
    lemma_render_update(s, i, nb);
    assert(visible(nb) =~= Seq::<char>::empty());
    assert(spec_render(post) =~= spec_render(s.take(i)) + spec_render(s.skip(i + 1)));
    assert forall|c: ClientID| client_len(post, c) == client_len(s, c) by {
        lemma_client_len_update(s, i, nb, c);
    }
    assert forall|c: ClientID, n: nat| covers(post, c, n) <==> covers(s, c, n) by {
        if covers(post, c, n) {
            let j = choose|j: int|
                0 <= j < post.len() && post[j].id.client == c && post[j].id.clock <= n
                    < post[j].id.clock + post[j].len();
            if j == i {
                assert(s[i].id.client == c && s[i].id.clock <= n < s[i].id.clock + s[i].len());
            }
            assert(covers(s, c, n));
        }
        if covers(s, c, n) {
            let j = choose|j: int|
                0 <= j < s.len() && s[j].id.client == c && s[j].id.clock <= n < s[j].id.clock
                    + s[j].len();
            if j == i {
                assert(post[i].id.client == c && post[i].id.clock <= n < post[i].id.clock
                    + post[i].len());
            }
            assert(covers(post, c, n));
        }
    }
    assert forall|id: BlockID| contains_id(post, id) <==> contains_id(s, id) by {
        if contains_id(post, id) {
            let j = choose|j: int| 0 <= j < post.len() && post[j].id == id;
            if j == i {
                assert(s[i].id == id);
            }
            assert(contains_id(s, id));
        }
        if contains_id(s, id) {
            let j = choose|j: int| 0 <= j < s.len() && s[j].id == id;
            if j == i {
                assert(post[i].id == id);
            } else {
                assert(post[j] == s[j]);
                assert(post[j].id == id);
            }
            assert(contains_id(post, id));
        }
    }
    assert(nonempty_contents(post)) by {
        assert forall|j: int| 0 <= j < post.len() implies #[trigger] post[j].len() > 0 by {
            if j != i {
                assert(post[j] == s[j]);
            }
            assert(s[j].len() > 0);
        }
    }
    assert(clocks_bounded(post)) by {
        assert forall|j: int| 0 <= j < post.len() implies (#[trigger] post[j]).id.clock
            + post[j].len() <= u32::MAX by {
            if j != i {
                assert(post[j] == s[j]);
            }
            assert(s[j].id.clock + s[j].len() <= u32::MAX);
        }
    }
    assert(client_disjoint(post)) by {
        assert forall|j1: int, j2: int| 0 <= j1 < j2 < post.len() implies #[trigger] ranges_disjoint(
            post[j1],
            post[j2],
        ) by {
            assert(ranges_disjoint(s[j1], s[j2]));
        }
    }
    lemma_disjoint_unique(post);
    assert forall|id: BlockID| tombstoned(s, id) implies tombstoned(post, id) by {
        let j = choose|j: int| 0 <= j < s.len() && s[j].id == id && s[j].is_deleted;
        if j == i {
            assert(post[i].id == id && post[i].is_deleted);
        } else {
            assert(post[j] == s[j]);
        }
    }
    assert(post[i].id == s[i].id && post[i].is_deleted);
}

/// The id index is a bijection onto the spatial sequence: every stored id
/// resolves to exactly one position (no duplicates), and every block is
/// reachable from its id (no orphans).
pub proof fn lemma_by_id_bijection(s: Seq<Block>)
    requires
        wf_seq(s),
    ensures
        forall|i: int| 0 <= i < s.len() ==> contains_id(s, (#[trigger] s[i]).id),
        forall|i: int, j: int|
            0 <= i < s.len() && 0 <= j < s.len() && s[i].id == s[j].id ==> i == j,
{
    assert forall|i: int, j: int|
        0 <= i < s.len() && 0 <= j < s.len() && s[i].id == s[j].id implies i == j by {
        if i < j {
            assert(s[i].id != s[j].id);
        }
        if j < i {
            assert(s[j].id != s[i].id);
        }
    }
}

/// A client's append-log is clock-contiguous: its blocks never reach past
/// the log's total length, and every clock position below it belongs to
/// exactly one block.
pub proof fn lemma_client_log_contiguous(s: Seq<Block>, c: ClientID)
    requires
        wf_seq(s),
        client_contiguous(s, c),
    ensures
        forall|i: int|
            0 <= i < s.len() && (#[trigger] s[i]).id.client == c ==> s[i].id.clock + s[i].len()
                <= client_len(s, c),
        forall|k: nat| k < client_len(s, c) ==> covers(s, c, k),
{
    assert forall|i: int|
        0 <= i < s.len() && (#[trigger] s[i]).id.client == c implies s[i].id.clock + s[i].len()
        <= client_len(s, c) by {
        let kk = (s[i].id.clock + s[i].len() - 1) as nat;
        assert(s[i].len() > 0);
        assert(s[i].id.clock <= kk < s[i].id.clock + s[i].len());
        assert(covers(s, c, kk));
        assert(kk < client_len(s, c));
    }
    assert forall|k: nat| k < client_len(s, c) implies covers(s, c, k) by {
        assert(covers(s, c, k) <==> k < client_len(s, c));
    }
}

/// The rendered string depends only on the per-position content and
/// tombstone flags, never on the ids or anchors.
pub proof fn lemma_render_pointwise(s1: Seq<Block>, s2: Seq<Block>)
    requires
        s1.len() == s2.len(),
        forall|i: int|
            0 <= i < s1.len() ==> (#[trigger] s1[i]).content.content@ == s2[i].content.content@
                && s1[i].is_deleted == s2[i].is_deleted,
    ensures
        spec_render(s1) == spec_render(s2),
    decreases s1.len(),
{
    if s1.len() > 0 {
        assert(visible(s1[0]) == visible(s2[0]));
        assert forall|i: int|
            0 <= i < s1.skip(1).len() implies (#[trigger] s1.skip(1)[i]).content.content@
            == s2.skip(1)[i].content.content@ && s1.skip(1)[i].is_deleted == s2.skip(
            1,
        )[i].is_deleted by {
            assert(s1.skip(1)[i] == s1[i + 1]);
            assert(s2.skip(1)[i] == s2[i + 1]);
        }
        lemma_render_pointwise(s1.skip(1), s2.skip(1));
    }
}

/// A concatenation determines its own parts: the prefix of the combined
/// sequence of the first part's length is the first part, and the rest is
/// the second.
pub proof fn lemma_concat_parts(x: Seq<char>, y: Seq<char>, r: Seq<char>)
    requires
        r == x + y,
    ensures
        x == r.take(x.len() as int),
        y == r.skip(x.len() as int),
{
    assert(x =~= r.take(x.len() as int));
    assert(y =~= r.skip(x.len() as int));
}

/// The shape of a block sequence after the adjacent blocks at `i` and `i + 1`
/// were merged into one: the merged block keeps the left identity and left
/// origin, takes the right block's right origin, and concatenates the texts.
pub open spec fn is_merge_of(pre: Seq<Block>, post: Seq<Block>, i: int) -> bool {
    let a = pre[i];
    let b = pre[i + 1];
    &&& post.len() + 1 == pre.len()
    &&& (forall|j: int| 0 <= j < i ==> post[j] == pre[j])
    &&& (forall|j: int| i + 1 <= j < post.len() ==> post[j] == pre[j + 1])
    &&& post[i].id == a.id
    &&& post[i].left_origin == a.left_origin
    &&& post[i].right_origin == b.right_origin
    &&& post[i].is_deleted == false
    &&& post[i].content.content@ == a.content.content@ + b.content.content@
}

/// The squash guards for merging the neighbours at `i` and `i + 1`: same
/// client, both non-tombstoned, clock-contiguous, and neither observed by
/// any peer (`None` when nothing was synchronized yet).
pub open spec fn merge_guard(s: Seq<Block>, i: int, latest: Option<u32>) -> bool {
    &&& s[i].id.client == s[i + 1].id.client
    &&& !s[i].is_deleted
    &&& !s[i + 1].is_deleted
    &&& s[i].id.clock + s[i].len() == s[i + 1].id.clock
    &&& (match latest {
        None => true,
        Some(l) => s[i].id.clock > l && s[i + 1].id.clock > l,
    })
}

/// One squash step at index `i`: the neighbours merge exactly when the
/// guards hold, and nothing changes otherwise.
pub open spec fn squash_step(pre: Seq<Block>, post: Seq<Block>, i: int, latest: Option<u32>) -> bool {
    if 0 <= i && i + 1 < pre.len() && merge_guard(pre, i, latest) {
        is_merge_of(pre, post, i)
    } else {
        post == pre
    }
}

/// Merging two same-client, non-deleted, clock-contiguous neighbours leaves
/// the rendered string, the per-client character counts and the covered
/// clock positions unchanged, preserves well-formedness, and removes exactly
/// the right block's id.
pub proof fn lemma_merge_of_properties(pre: Seq<Block>, post: Seq<Block>, i: int)
    requires
        wf_seq(pre),
        0 <= i,
        i + 1 < pre.len(),
        pre[i].id.client == pre[i + 1].id.client,
        !pre[i].is_deleted,
        !pre[i + 1].is_deleted,
        pre[i].id.clock + pre[i].len() == pre[i + 1].id.clock,
        is_merge_of(pre, post, i),
    ensures
        wf_seq(post),
        spec_render(post) == spec_render(pre),
        forall|c: ClientID| client_len(post, c) == client_len(pre, c),
        forall|c: ClientID, n: nat| covers(post, c, n) <==> covers(pre, c, n),
        forall|id: BlockID| contains_id(post, id) ==> contains_id(pre, id),
        forall|id: BlockID|
            contains_id(pre, id) && id != pre[i + 1].id ==> contains_id(post, id),
{
    let a = pre[i];
    let b = pre[i + 1];
    let m = post[i];
    assert(b.id.clock + b.len() <= u32::MAX);
    assert(a.len() > 0);
    assert(b.len() > 0);
    assert(m.len() == a.len() + b.len());

    // Decompose both sequences around the merge point.
    assert(pre =~= pre.take(i) + (seq![a] + seq![b]) + pre.skip(i + 2));
    assert(post =~= pre.take(i) + seq![m] + pre.skip(i + 2)) by {
        assert forall|j: int| 0 <= j < post.len() implies post[j] == (pre.take(i) + seq![m]
            + pre.skip(i + 2))[j] by {
            if j < i {
            } else if j == i {
            } else {
                assert(post[j] == pre[j + 1]);
            }
        }
    }

    // Rendering is unchanged.
    assert(visible(m) =~= visible(a) + visible(b));
    lemma_render_concat(pre.take(i) + (seq![a] + seq![b]), pre.skip(i + 2));
    lemma_render_concat(pre.take(i), seq![a] + seq![b]);
    lemma_render_concat(seq![a], seq![b]);
    lemma_render_singleton(a);
    lemma_render_singleton(b);
    lemma_render_concat(pre.take(i) + seq![m], pre.skip(i + 2));
    lemma_render_concat(pre.take(i), seq![m]);
    lemma_render_singleton(m);
    assert(spec_render(post) == spec_render(pre));

    // Per-client character counts are unchanged.
    assert forall|c: ClientID| client_len(post, c) == client_len(pre, c) by {
        lemma_client_len_concat(pre.take(i) + (seq![a] + seq![b]), pre.skip(i + 2), c);
        lemma_client_len_concat(pre.take(i), seq![a] + seq![b], c);
        lemma_client_len_concat(seq![a], seq![b], c);
        lemma_client_len_singleton(a, c);
        lemma_client_len_singleton(b, c);
        lemma_client_len_concat(pre.take(i) + seq![m], pre.skip(i + 2), c);
        lemma_client_len_concat(pre.take(i), seq![m], c);
        lemma_client_len_singleton(m, c);
    }

    // Covered clock positions are unchanged.
    assert forall|c: ClientID, n: nat| covers(post, c, n) <==> covers(pre, c, n) by {
        if covers(post, c, n) {
            let j = choose|j: int|
                0 <= j < post.len() && post[j].id.client == c && post[j].id.clock <= n
                    < post[j].id.clock + post[j].len();
            if j < i {
                assert(covers(pre, c, n));
            } else if j == i {
                if n < a.id.clock + a.len() {
                    assert(pre[i].id.client == c && pre[i].id.clock <= n < pre[i].id.clock
                        + pre[i].len());
                } else {
                    assert(pre[i + 1].id.client == c && pre[i + 1].id.clock <= n < pre[i
                        + 1].id.clock + pre[i + 1].len());
                }
                assert(covers(pre, c, n));
            } else {
                assert(post[j] == pre[j + 1]);
                assert(covers(pre, c, n));
            }
        }
        if covers(pre, c, n) {
            let j = choose|j: int|
                0 <= j < pre.len() && pre[j].id.client == c && pre[j].id.clock <= n
                    < pre[j].id.clock + pre[j].len();
            if j < i {
                assert(post[j] == pre[j]);
                assert(covers(post, c, n));
            } else if j == i || j == i + 1 {
                assert(m.id.client == c && m.id.clock <= n < m.id.clock + m.len());
                assert(covers(post, c, n));
            } else {
                assert(post[j - 1] == pre[j]);
                assert(covers(post, c, n));
            }
        }
    }

    // The merged sequence's ids are the old ones without the right block's.
    assert forall|id: BlockID| contains_id(post, id) implies contains_id(pre, id) by {
        let j = choose|j: int| 0 <= j < post.len() && post[j].id == id;
        if j < i {
            assert(pre[j].id == id);
        } else if j == i {
            assert(pre[i].id == id);
        } else {
            assert(post[j] == pre[j + 1]);
            assert(pre[j + 1].id == id);
        }
    }
    assert forall|id: BlockID| contains_id(pre, id) && id != pre[i + 1].id implies contains_id(
        post,
        id,
    ) by {
        let j = choose|j: int| 0 <= j < pre.len() && pre[j].id == id;
        if j < i {
            assert(post[j].id == id);
        } else if j == i {
            assert(post[i].id == id);
        } else if j == i + 1 {
            assert(false);
        } else {
            assert(post[j - 1] == pre[j]);
            assert(post[j - 1].id == id);
        }
    }

    // Well-formedness is preserved.
    assert(nonempty_contents(post)) by {
        assert forall|j: int| 0 <= j < post.len() implies #[trigger] post[j].len() > 0 by {
            if j < i {
                assert(post[j] == pre[j]);
                assert(pre[j].len() > 0);
            } else if j == i {
            } else {
                assert(post[j] == pre[j + 1]);
                assert(pre[j + 1].len() > 0);
            }
        }
    }
    assert(clocks_bounded(post)) by {
        assert forall|j: int| 0 <= j < post.len() implies (#[trigger] post[j]).id.clock
            + post[j].len() <= u32::MAX by {
            if j < i {
                assert(post[j] == pre[j]);
                assert(pre[j].id.clock + pre[j].len() <= u32::MAX);
            } else if j == i {
                assert(m.id.clock + m.len() == b.id.clock + b.len());
            } else {
                assert(post[j] == pre[j + 1]);
                assert(pre[j + 1].id.clock + pre[j + 1].len() <= u32::MAX);
            }
        }
    }
    assert(client_disjoint(post)) by {
        assert forall|j1: int, j2: int| 0 <= j1 < j2 < post.len() implies #[trigger] ranges_disjoint(
            post[j1],
            post[j2],
        ) by {
            if j1 == i || j2 == i {
                let o = if j1 == i { j2 } else { j1 };
                let p = if o < i { o } else { o + 1 };
                assert(0 <= p < pre.len() && p != i && p != i + 1);
                assert(post[o] == pre[p]);
                if p < i {
                    assert(ranges_disjoint(pre[p], pre[i]));
                    assert(ranges_disjoint(pre[p], pre[i + 1]));
                } else {
                    assert(ranges_disjoint(pre[i], pre[p]));
                    assert(ranges_disjoint(pre[i + 1], pre[p]));
                }
            } else {
                let p1 = if j1 < i { j1 } else { j1 + 1 };
                let p2 = if j2 < i { j2 } else { j2 + 1 };
                assert(post[j1] == pre[p1]);
                assert(post[j2] == pre[p2]);
                assert(ranges_disjoint(pre[p1], pre[p2]));
            }
        }
    }
    lemma_disjoint_unique(post);
}

/// A list of blocks; the position in the vector is the spatial order.
#[derive(Debug)]
pub struct BlockList {
    pub list: Vec<Block>,
}

impl BlockList {
    pub fn new() -> (r: BlockList)
        ensures
            r.list@ =~= Seq::<Block>::empty(),
    {
        BlockList { list: Vec::new() }
    }

    /// A copy of the blocks, in spatial order.
    pub fn getList(&self) -> (r: Vec<Block>)
        ensures
            r@ == self.list@,
    {
        let mut res: Vec<Block> = Vec::new();
        let mut i: usize = 0;
        while i < self.list.len()
            invariant
                i <= self.list@.len(),
                res@ =~= self.list@.take(i as int),
            decreases self.list@.len() - i,
        {
            res.push(self.list[i].duplicate());
            i = i + 1;
        }
        assert(self.list@.take(self.list@.len() as int) =~= self.list@);
        res
    }
}

/// The store of all blocks of one replica's document copy.
///
/// The spatial sequence is the single source of truth; the id index and the
/// per-client append-logs of the data model are derived views of it (see
/// [`contains_id`], [`client_len`], [`covers`]).
pub struct BlockStore {
    pub total_store: BlockList,
}

impl View for BlockStore {
    type V = Seq<Block>;

    open spec fn view(&self) -> Seq<Block> {
        self.total_store.list@
    }
}

impl BlockStore {
    pub fn new() -> (r: BlockStore)
        ensures
            r@ =~= Seq::<Block>::empty(),
    {
        BlockStore { total_store: BlockList::new() }
    }

    /// Whether a block with this block's id is already stored.
    pub fn exist(&self, block: &Block) -> (r: bool)
        ensures
            r == contains_id(self@, block.id),
    {
        self.index_of_id(&block.id).is_some()
    }

    /// The index of the block with the given id, if present.
    pub fn index_of_id(&self, id: &BlockID) -> (r: Option<usize>)
        ensures
            match r {
                Some(i) => i < self@.len() && self@[i as int].id == *id,
                None => !contains_id(self@, *id),
            },
    {
        let n = self.total_store.list.len();
        let mut i: usize = 0;
        while i < n
            invariant
                n == self@.len(),
                i <= n,
                forall|j: int| 0 <= j < i ==> self@[j].id != *id,
            decreases n - i,
        {
            if self.total_store.list[i].id == *id {
                return Some(i);
            }
            i = i + 1;
        }
        None
    }

    /// Places `block` immediately after the block with id `left_id`, or at
    /// position 0 when `left_id` is `None`.
    pub fn insert(&mut self, block: Block, left_id: Option<BlockID>) -> (pos: usize)
        requires
            match left_id {
                Some(l) => contains_id(old(self)@, l),
                None => true,
            },
        ensures
            pos <= old(self)@.len(),
            final(self)@ == old(self)@.insert(pos as int, block),
            match left_id {
                Some(l) => pos >= 1 && old(self)@[pos - 1].id == l,
                None => pos == 0,
            },
    {
        match left_id {
            Some(l) => {
                let i = match self.index_of_id(&l) {
                    Some(i) => i,
                    None => {
                        proof {
                            assert(false);
                        }
                        0
                    },
                };
                let n = self.total_store.list.len();
                assert(i < n);
                self.total_store.list.insert(i + 1, block);
                i + 1
            },
            None => {
                self.total_store.list.insert(0, block);
                0
            },
        }
    }

    /// Sets the tombstone of the block with the given id; no effect when the
    /// id is absent. Idempotent.
    pub fn delete(&mut self, block_id: BlockID)
        ensures
            !contains_id(old(self)@, block_id) ==> final(self)@ == old(self)@,
            contains_id(old(self)@, block_id) ==> exists|i: int|
                0 <= i < old(self)@.len() && old(self)@[i].id == block_id && final(self)@
                    == old(self)@.update(i, (Block { is_deleted: true, ..old(self)@[i] })),
    {
        match self.index_of_id(&block_id) {
            Some(i) => {
                let b = self.total_store.list[i].duplicate();
                let nb = Block { is_deleted: true, ..b };
                self.total_store.list[i] = nb;
            },
            None => {},
        }
    }

    /// Splits the block with the given id at character offset `len`, as laid
    /// out by [`is_split_of`]: the left half keeps the identity, the right
    /// half starts a new block at clock `id.clock + len`. No effect when the
    /// id is absent, `len == 0`, or `len` is not strictly inside the content.
    /// The split never changes the rendered string.
    pub fn split(&mut self, block_id: BlockID, len: u32)
        requires
            wf_seq(old(self)@),
        ensures
            wf_seq(final(self)@),
            spec_render(final(self)@) == spec_render(old(self)@),
            forall|c: ClientID| client_len(final(self)@, c) == client_len(old(self)@, c),
            forall|c: ClientID, n: nat| covers(final(self)@, c, n) <==> covers(old(self)@, c, n),
            forall|id: BlockID| contains_id(old(self)@, id) ==> contains_id(final(self)@, id),
            forall|id: BlockID| tombstoned(old(self)@, id) ==> tombstoned(final(self)@, id),
            ({
                let s = old(self)@;
                let i = spec_index_of(s, block_id);
                if contains_id(s, block_id) && 0 < len < s[i].len() {
                    &&& is_split_of(s, final(self)@, i, len as int)
                    &&& (forall|id: BlockID|
                        contains_id(final(self)@, id) ==> contains_id(s, id) || id
                            == split_right_id(s[i], len as int))
                    &&& contains_id(final(self)@, split_right_id(s[i], len as int))
                } else {
                    final(self)@ == s
                }
            }),
    {
        let idx = match self.index_of_id(&block_id) {
            Some(i) => i,
            None => {
                return ;
            },
        };
        proof {
            let j = spec_index_of(self@, block_id);
            assert(self@[j].id == block_id);
            if j != idx as int {
                assert(false);
            }
        }
        let b = self.total_store.list[idx].duplicate();
        let clen = b.content.content.as_str().unicode_len();
        if len == 0 || len as usize >= clen {
            return ;
        }
        let k = len as usize;
        proof {
            assert(self@[idx as int].id.clock + self@[idx as int].len() <= u32::MAX);
        }
        let rid = BlockID { client: b.id.client, clock: b.id.clock + len };
        let left_str = b.content.content.as_str().substring_char(0, k);
        let right_str = b.content.content.as_str().substring_char(k, clen);
        let left_b = Block {
            id: b.id,
            left_origin: b.left_origin,
            right_origin: Some(rid),
            is_deleted: b.is_deleted,
            content: Content { content: left_str.to_owned() },
        };
        let right_b = Block {
            id: rid,
            left_origin: Some(b.id),
            right_origin: b.right_origin,
            is_deleted: b.is_deleted,
            content: Content { content: right_str.to_owned() },
        };
        self.total_store.list[idx] = left_b;
        let n = self.total_store.list.len();
        assert(idx < n);
        self.total_store.list.insert(idx + 1, right_b);
        proof {
            let s = old(self)@;
            let i = idx as int;
            assert(final(self)@.len() == s.len() + 1);
            assert forall|j: int| 0 <= j < i implies final(self)@[j] == s[j] by {}
            assert forall|j: int| i + 2 <= j < final(self)@.len() implies final(self)@[j] == s[j
                - 1] by {}
            assert(is_split_of(s, final(self)@, i, len as int));
            lemma_split_of_properties(s, final(self)@, i, len as int);
        }
    }

    /// Merges the blocks at `i` and `i + 1` into one, as laid out by
    /// [`is_merge_of`].
    fn merge_pair(&mut self, i: usize)
        requires
            wf_seq(old(self)@),
            i + 1 < old(self)@.len(),
            old(self)@[i as int].id.client == old(self)@[i + 1].id.client,
            !old(self)@[i as int].is_deleted,
            !old(self)@[i + 1].is_deleted,
            old(self)@[i as int].id.clock + old(self)@[i as int].len() == old(self)@[i
                + 1].id.clock,
        ensures
            wf_seq(final(self)@),
            spec_render(final(self)@) == spec_render(old(self)@),
            forall|c: ClientID| client_len(final(self)@, c) == client_len(old(self)@, c),
            forall|c: ClientID, n: nat| covers(final(self)@, c, n) <==> covers(old(self)@, c, n),
            forall|id: BlockID| contains_id(final(self)@, id) ==> contains_id(old(self)@, id),
            is_merge_of(old(self)@, final(self)@, i as int),
    {
        let n = self.total_store.list.len();
        assert(i < n);
        let a = self.total_store.list[i].duplicate();
        let b = self.total_store.list[i + 1].duplicate();
        let mut text = a.content.content;
        text.append(b.content.content.as_str());
        let merged = Block {
            id: a.id,
            left_origin: a.left_origin,
            right_origin: b.right_origin,
            is_deleted: false,
            content: Content { content: text },
        };
        self.total_store.list[i] = merged;
        self.total_store.list.remove(i + 1);
        proof {
            assert(is_merge_of(old(self)@, final(self)@, i as int));
            lemma_merge_of_properties(old(self)@, final(self)@, i as int);
        }
    }

    /// Squashes the block with the given id into its spatial neighbours where
    /// the data model allows it: a neighbour must belong to the same client,
    /// both blocks must be non-tombstoned and clock-contiguous, and the
    /// neighbour's clock must exceed `latest_clock`, the largest clock any
    /// peer has observed (`None` when nothing was synchronized yet), so that
    /// no peer anchors to the merged-away boundary. The squash never changes
    /// the rendered string, the per-client character counts, nor the covered
    /// clock positions.
    pub fn squash(&mut self, block_id: BlockID, latest_clock: Option<u32>)
        requires
            wf_seq(old(self)@),
        ensures
            wf_seq(final(self)@),
            spec_render(final(self)@) == spec_render(old(self)@),
            forall|c: ClientID| client_len(final(self)@, c) == client_len(old(self)@, c),
            forall|c: ClientID, n: nat| covers(final(self)@, c, n) <==> covers(old(self)@, c, n),
            forall|id: BlockID| contains_id(final(self)@, id) ==> contains_id(old(self)@, id),
            !contains_id(old(self)@, block_id) ==> final(self)@ == old(self)@,
            (unique_ids(old(self)@) && contains_id(old(self)@, block_id)) ==> ({
                let s = old(self)@;
                let i = spec_index_of(s, block_id);
                let left = 0 < i && merge_guard(s, i - 1, latest_clock);
                let i2 = if left {
                    i - 1
                } else {
                    i
                };
                exists|m: Seq<Block>|
                    #[trigger] squash_step(s, m, i - 1, latest_clock) && squash_step(
                        m,
                        final(self)@,
                        i2,
                        latest_clock,
                    )
            }),
    {
        let idx = match self.index_of_id(&block_id) {
            Some(i) => i,
            None => {
                return ;
            },
        };
        proof {
            if unique_ids(self@) {
                let j = spec_index_of(self@, block_id);
                assert(self@[j].id == block_id);
                if j != idx as int {
                    assert(false);
                }
            }
        }
        let ghost s0 = self@;
        let mut at = idx;
        if at > 0 {
            if self.may_merge(at - 1, latest_clock) {
                self.merge_pair(at - 1);
                at = at - 1;
            }
        }
        let ghost s1 = self@;
        proof {
            assert(squash_step(s0, s1, idx as int - 1, latest_clock));
        }
        let n = self.total_store.list.len();
        assert(at < n);
        if at + 1 < n {
            if self.may_merge(at, latest_clock) {
                self.merge_pair(at);
            }
        }
        proof {
            assert(squash_step(s1, self@, at as int, latest_clock));
        }
    }

    /// Whether the blocks at `i` and `i + 1` satisfy the squash guards.
    fn may_merge(&self, i: usize, latest_clock: Option<u32>) -> (r: bool)
        requires
            wf_seq(self@),
            i + 1 < self@.len(),
        ensures
            r == merge_guard(self@, i as int, latest_clock),
    {
        let n = self.total_store.list.len();
        assert(i < n);
        let a = &self.total_store.list[i];
        let b = &self.total_store.list[i + 1];
        if a.id.client != b.id.client || a.is_deleted || b.is_deleted {
            return false;
        }
        let alen = a.content.content.as_str().unicode_len();
        proof {
            assert(self@[i as int].id.clock + self@[i as int].len() <= u32::MAX);
        }
        if !(a.id.clock + (alen as u32) == b.id.clock) {
            return false;
        }
        match latest_clock {
            None => true,
            Some(latest) => a.id.clock > latest && b.id.clock > latest,
        }
    }

    /// Advances past `pos` visible characters from the start of the spatial
    /// sequence, splitting the block at the stopping point when it falls
    /// strictly inside one. Returns `(i, rem)`: after the call, the blocks
    /// before index `i` render exactly the first `pos - rem` characters of
    /// the document, and `rem` is what could not be consumed (`rem > 0` only
    /// when `pos` exceeds the rendered length). The walk never changes the
    /// rendered string.
    pub(crate) fn walk_visible(&mut self, pos: u64) -> (r: (usize, u64))
        requires
            wf_seq(old(self)@),
        ensures
            wf_seq(final(self)@),
            spec_render(final(self)@) == spec_render(old(self)@),
            forall|c: ClientID| client_len(final(self)@, c) == client_len(old(self)@, c),
            forall|c: ClientID, n: nat| covers(final(self)@, c, n) <==> covers(old(self)@, c, n),
            forall|id: BlockID| contains_id(old(self)@, id) ==> contains_id(final(self)@, id),
            r.0 <= final(self)@.len(),
            r.1 <= pos,
            pos - r.1 <= spec_render(old(self)@).len(),
            spec_render(final(self)@.take(r.0 as int)) == spec_render(old(self)@).take(
                pos - r.1,
            ),
            spec_render(final(self)@.skip(r.0 as int)) == spec_render(old(self)@).skip(
                pos - r.1,
            ),
            r.1 > 0 ==> r.0 == final(self)@.len(),
            r.0 == final(self)@.len() ==> pos - r.1 == spec_render(old(self)@).len(),
            r.1 > 0 ==> final(self)@ == old(self)@,
            pos >= spec_render(old(self)@).len() ==> final(self)@ == old(self)@,
            old(self)@.len() <= final(self)@.len() <= old(self)@.len() + 1,
    {
        let ghost orig = self@;
        let ghost full = spec_render(orig);
        let mut i: usize = 0;
        let mut rem: u64 = pos;
        proof {
            assert(self@.take(0) =~= Seq::<Block>::empty());
            assert(self@.skip(0) =~= self@);
            assert(full.take(0) =~= Seq::<char>::empty());
            assert(full.skip(0) =~= full);
        }
        while rem > 0 && i < self.total_store.list.len()
            invariant
                wf_seq(self@),
                spec_render(self@) == full,
                forall|c: ClientID| client_len(self@, c) == client_len(orig, c),
                forall|c: ClientID, n: nat| covers(self@, c, n) <==> covers(orig, c, n),
                forall|id: BlockID| contains_id(orig, id) ==> contains_id(self@, id),
                i <= self@.len(),
                rem <= pos,
                pos - rem <= full.len(),
                spec_render(self@.take(i as int)) == full.take(pos - rem),
                spec_render(self@.skip(i as int)) == full.skip(pos - rem),
                rem > 0 ==> self@ == old(self)@,
                pos >= full.len() ==> self@ == old(self)@,
                old(self)@.len() <= self@.len() <= old(self)@.len() + 1,
            decreases rem, self@.len() - i,
        {
            let ghost cur = self@;
            let ghost x = pos - rem;
            proof {
                assert(cur.take(i + 1) =~= cur.take(i as int) + seq![cur[i as int]]);
                lemma_render_concat(cur.take(i as int), seq![cur[i as int]]);
                lemma_render_singleton(cur[i as int]);
                assert(cur.skip(i as int) =~= seq![cur[i as int]] + cur.skip(i + 1));
                lemma_render_concat(seq![cur[i as int]], cur.skip(i + 1));
                assert(spec_render(cur.skip(i as int)) == visible(cur[i as int]) + spec_render(
                    cur.skip(i + 1),
                ));
                assert(spec_render(cur.take(i + 1)) == spec_render(cur.take(i as int)) + visible(
                    cur[i as int],
                ));
                assert(full.skip(x) == visible(cur[i as int]) + spec_render(cur.skip(i + 1)));
            }
            if self.total_store.list[i].is_deleted {
                proof {
                    assert(visible(cur[i as int]) =~= Seq::<char>::empty());
                    assert(spec_render(cur.take(i + 1)) =~= spec_render(cur.take(i as int)));
                    assert(spec_render(cur.skip(i + 1)) =~= spec_render(cur.skip(i as int)));
                }
                i = i + 1;
                continue ;
            }
            let blen = self.total_store.list[i].content.content.as_str().unicode_len();
            let ghost ct = cur[i as int].content.content@;
            proof {
                assert(visible(cur[i as int]) == ct);
                assert(full.skip(x) == ct + spec_render(cur.skip(i + 1)));
                assert(full.skip(x).len() == full.len() - x);
                assert(x + ct.len() <= full.len());
            }
            if (blen as u64) <= rem {
                proof {
                    assert(full =~= full.take(x) + full.skip(x));
                    assert(full.take(x + ct.len()) =~= full.take(x) + ct);
                    assert(full.skip(x + ct.len()) =~= spec_render(cur.skip(i + 1)));
                    assert(spec_render(cur.take(i + 1)) == full.take(x + ct.len()));
                }
                rem = rem - (blen as u64);
                i = i + 1;
            } else {
                // The boundary falls strictly inside this block: split it so
                // the boundary coincides with a block edge.
                proof {
                    assert(cur[i as int].id.clock + cur[i as int].len() <= u32::MAX);
                }
                let bid = self.total_store.list[i].id;
                let k = rem as u32;
                proof {
                    let j = spec_index_of(cur, bid);
                    assert(cur[i as int].id == bid);
                    if j != i as int {
                        assert(cur[j].id == bid);
                        assert(false);
                    }
                }
                self.split(bid, k);
                proof {
                    let post = self@;
                    assert(is_split_of(cur, post, i as int, k as int));
                    let bl = post[i as int];
                    let br = post[i + 1];
                    assert(post.take(i + 1) =~= cur.take(i as int) + seq![bl]);
                    lemma_render_concat(cur.take(i as int), seq![bl]);
                    lemma_render_singleton(bl);
                    assert(visible(bl) == ct.take(k as int));
                    assert(post.skip(i + 1) =~= seq![br] + cur.skip(i + 1)) by {
                        assert forall|j: int|
                            0 <= j < post.skip(i + 1).len() implies #[trigger] post.skip(i + 1)[j]
                            == (seq![br] + cur.skip(i + 1))[j] by {
                            if j > 0 {
                                assert(post[i + 1 + j] == cur[i + j]);
                            }
                        }
                    }
                    lemma_render_concat(seq![br], cur.skip(i + 1));
                    lemma_render_singleton(br);
                    assert(visible(br) == ct.skip(k as int));
                    assert(full =~= full.take(x) + full.skip(x));
                    assert(full.take(x + k) =~= full.take(x) + ct.take(k as int));
                    assert(full.skip(x + k) =~= ct.skip(k as int) + spec_render(cur.skip(i + 1)));
                    assert(spec_render(post.take(i + 1)) == full.take(x + k));
                    assert(spec_render(post.skip(i + 1)) == full.skip(x + k));
                }
                i = i + 1;
                rem = 0;
            }
        }
        proof {
            if i == self@.len() {
                assert(self@.skip(i as int) =~= Seq::<Block>::empty());
                assert(spec_render(Seq::<Block>::empty()) == Seq::<char>::empty());
                assert(full.skip(pos - rem).len() == 0);
                assert(pos - rem == full.len());
            }
            if rem > 0 {
                assert(i == self@.len());
            }
        }
        (i, rem)
    }

    /// Finds the block that starts exactly at the given anchor id, splitting
    /// a block when the anchor falls strictly inside it. `None` exactly when
    /// no block covers the anchor's clock; the store is then unchanged. A
    /// split never changes the rendered string.
    pub(crate) fn resolve_anchor(&mut self, id: &BlockID) -> (r: Option<usize>)
        requires
            wf_seq(old(self)@),
        ensures
            wf_seq(final(self)@),
            spec_render(final(self)@) == spec_render(old(self)@),
            forall|c: ClientID| client_len(final(self)@, c) == client_len(old(self)@, c),
            forall|c: ClientID, n: nat| covers(final(self)@, c, n) <==> covers(old(self)@, c, n),
            forall|q: BlockID| contains_id(old(self)@, q) ==> contains_id(final(self)@, q),
            forall|q: BlockID| tombstoned(old(self)@, q) ==> tombstoned(final(self)@, q),
            final(self)@.len() >= old(self)@.len(),
            match r {
                Some(i) => i < final(self)@.len() && final(self)@[i as int].id == *id && covers(
                    old(self)@,
                    id.client,
                    id.clock as nat,
                ),
                None => final(self)@ == old(self)@,
            },
            r is None ==> !covers(old(self)@, id.client, id.clock as nat),
            r is Some ==> ({
                let s = old(self)@;
                let j = cover_idx(s, id.client, id.clock as nat);
                if contains_id(s, *id) {
                    final(self)@ == s && r == Some(spec_index_of(s, *id) as usize)
                } else {
                    is_split_of(s, final(self)@, j, id.clock - s[j].id.clock) && r == Some(
                        (j + 1) as usize,
                    )
                }
            }),
    {
        let mut i: usize = 0;
        let n = self.total_store.list.len();
        while i < n
            invariant
                wf_seq(self@),
                self@ == old(self)@,
                n == self@.len(),
                forall|j: int|
                    0 <= j < i ==> !(self@[j].id.client == id.client && self@[j].id.clock
                        <= id.clock < self@[j].id.clock + self@[j].len()),
            decreases n - i,
        {
            let bid = self.total_store.list[i].id;
            if bid == *id {
                proof {
                    assert(self@[i as int].len() > 0);
                    assert(covers(self@, id.client, id.clock as nat));
                    assert(contains_id(self@, *id));
                    let w = spec_index_of(self@, *id);
                    assert(self@[w].id == *id);
                    if w != i as int {
                        assert(false);
                    }
                }
                return Some(i);
            }
            let blen = self.total_store.list[i].content.content.as_str().unicode_len();
            proof {
                assert(self@[i as int].id.clock + self@[i as int].len() <= u32::MAX);
            }
            if bid.client == id.client && bid.clock < id.clock && (id.clock as u64) < (bid.clock
                as u64) + (blen as u64) {
                let ghost cur = self@;
                let k = id.clock - bid.clock;
                proof {
                    assert(cur[i as int].id.clock <= id.clock < cur[i as int].id.clock + cur[i
                        as int].len());
                    assert(covers(cur, id.client, id.clock as nat));
                    let j = spec_index_of(cur, bid);
                    assert(cur[i as int].id == bid);
                    if j != i as int {
                        assert(cur[j].id == bid);
                        assert(false);
                    }
                }
                self.split(bid, k);
                proof {
                    assert(is_split_of(cur, self@, i as int, k as int));
                    assert(self@[i + 1].id == split_right_id(cur[i as int], k as int));
                    assert(self@[i + 1].id == *id);
                    // No block carries the anchor id itself, and the covering
                    // block is the one just split.
                    if contains_id(cur, *id) {
                        let w = spec_index_of(cur, *id);
                        assert(cur[w].id == *id);
                        assert(cur[w].len() > 0);
                        lemma_cover_unique(cur, id.client, id.clock as nat, w, i as int);
                        assert(false);
                    }
                    let j = cover_idx(cur, id.client, id.clock as nat);
                    assert(0 <= j < cur.len() && cur[j].id.client == id.client && cur[j].id.clock
                        <= (id.clock as nat) < cur[j].id.clock + cur[j].len());
                    lemma_cover_unique(cur, id.client, id.clock as nat, j, i as int);
                    assert(j == i as int);
                    assert(k as int == id.clock - cur[j].id.clock);
                }
                return Some(i + 1);
            }
            proof {
                if bid.client == id.client && bid.clock <= id.clock < bid.clock + self@[i
                    as int].len() {
                    assert(bid.clock < id.clock || bid.clock == id.clock);
                    if bid.clock == id.clock {
                        assert(bid == *id);
                        assert(false);
                    }
                    assert(false);
                }
            }
            i = i + 1;
        }
        proof {
            if covers(self@, id.client, id.clock as nat) {
                let j = choose|j: int|
                    0 <= j < self@.len() && self@[j].id.client == id.client && self@[j].id.clock
                        <= (id.clock as nat) < self@[j].id.clock + self@[j].len();
                assert(!(self@[j].id.client == id.client && self@[j].id.clock <= id.clock
                    < self@[j].id.clock + self@[j].len()));
                assert(false);
            }
        }
        None
    }

    /// The position of an anchor id in the spatial sequence, as the index of
    /// the block covering it and the character offset inside that block.
    /// Read-only: used to order candidate anchors during the conflict scan.
    pub(crate) fn anchor_pos(&self, id: &BlockID) -> (r: Option<(usize, u32)>)
        requires
            wf_seq(self@),
        ensures
            match r {
                Some(p) => p.0 < self@.len() && covers(self@, id.client, id.clock as nat)
                    && p.0 as int == cover_idx(self@, id.client, id.clock as nat) && p.1
                    == id.clock - self@[p.0 as int].id.clock,
                None => !covers(self@, id.client, id.clock as nat),
            },
    {
        let n = self.total_store.list.len();
        let mut i: usize = 0;
        while i < n
            invariant
                wf_seq(self@),
                n == self@.len(),
                i <= n,
                forall|j: int|
                    0 <= j < i ==> !(self@[j].id.client == id.client && self@[j].id.clock
                        <= id.clock < self@[j].id.clock + self@[j].len()),
            decreases n - i,
        {
            let bid = self.total_store.list[i].id;
            let blen = self.total_store.list[i].content.content.as_str().unicode_len();
            proof {
                assert(self@[i as int].id.clock + self@[i as int].len() <= u32::MAX);
            }
            if bid.client == id.client && bid.clock <= id.clock && (id.clock as u64) < (bid.clock
                as u64) + (blen as u64) {
                proof {
                    assert(self@[i as int].id.client == id.client && self@[i as int].id.clock
                        <= (id.clock as nat) < self@[i as int].id.clock + self@[i as int].len());
                    assert(covers(self@, id.client, id.clock as nat));
                    let j = cover_idx(self@, id.client, id.clock as nat);
                    assert(self@[j].id.client == id.client && self@[j].id.clock <= (id.clock
                        as nat) < self@[j].id.clock + self@[j].len());
                    lemma_cover_unique(self@, id.client, id.clock as nat, j, i as int);
                }
                return Some((i, id.clock - bid.clock));
            }
            i = i + 1;
        }
        proof {
            if covers(self@, id.client, id.clock as nat) {
                let j = cover_idx(self@, id.client, id.clock as nat);
                assert(self@[j].id.client == id.client && self@[j].id.clock <= (id.clock as nat)
                    < self@[j].id.clock + self@[j].len());
                assert(false);
            }
        }
        None
    }

    /// Whether the clock range `[clock, clock + len)` of the given client is
    /// free of any stored block of that client.
    pub(crate) fn range_free(&self, client: ClientID, clock: u32, len: usize) -> (r: bool)
        requires
            wf_seq(self@),
            0 < len,
            clock + len <= u32::MAX,
        ensures
            r == (forall|k: nat| clock <= k < clock + len ==> !covers(self@, client, k)),
    {
        let n = self.total_store.list.len();
        let top: u32 = clock + (len as u32);
        let mut i: usize = 0;
        while i < n
            invariant
                wf_seq(self@),
                n == self@.len(),
                i <= n,
                0 < len,
                top == clock + len,
                forall|j: int|
                    0 <= j < i ==> (self@[j].id.client != client || self@[j].id.clock + self@[j].len()
                        <= clock || clock + len <= self@[j].id.clock),
            decreases n - i,
        {
            let bid = self.total_store.list[i].id;
            let blen = self.total_store.list[i].content.content.as_str().unicode_len();
            proof {
                assert(self@[i as int].id.clock + self@[i as int].len() <= u32::MAX);
            }
            if bid.client == client && bid.clock < top && (clock as u64) < (bid.clock as u64)
                + (blen as u64) {
                proof {
                    // The overlap covers the later of the two range starts.
                    let kk: nat = if bid.clock >= clock {
                        bid.clock as nat
                    } else {
                        clock as nat
                    };
                    assert(self@[i as int].len() > 0);
                    assert(self@[i as int].len() == blen as nat);
                    assert((clock as int) < bid.clock + blen);
                    assert(self@[i as int].id == bid);
                    assert(self@[i as int].id.clock <= kk);
                    assert(kk < self@[i as int].id.clock + self@[i as int].len());
                    assert(covers(self@, client, kk));
                    assert(bid.clock < top);
                    assert(top == clock + len);
                    assert(clock <= kk);
                    assert(kk < clock + len);
                }
                return false;
            }
            i = i + 1;
        }
        proof {
            assert forall|k: nat| clock <= k < clock + len implies !covers(self@, client, k) by {
                if covers(self@, client, k) {
                    let j = choose|j: int|
                        0 <= j < self@.len() && self@[j].id.client == client && self@[j].id.clock
                            <= k < self@[j].id.clock + self@[j].len();
                    assert(self@[j].id.client != client || self@[j].id.clock + self@[j].len()
                        <= clock || clock + len <= self@[j].id.clock);
                    assert(false);
                }
            }
        }
        true
    }

    /// Renders the document: the content of the non-tombstoned blocks,
    /// concatenated in spatial order.
    pub fn to_string(&self) -> (r: String)
        ensures
            r@ == spec_render(self@),
    {
        let mut res = String::new();
        let n = self.total_store.list.len();
        let mut i: usize = 0;
        while i < n
            invariant
                n == self@.len(),
                i <= n,
                res@ =~= spec_render(self@.take(i as int)),
            decreases n - i,
        {
            proof {
                assert(self@.take(i + 1) =~= self@.take(i as int) + seq![self@[i as int]]);
                lemma_render_concat(self@.take(i as int), seq![self@[i as int]]);
                lemma_render_singleton(self@[i as int]);
            }
            if !self.total_store.list[i].is_deleted {
                res.append(self.total_store.list[i].content.content.as_str());
            }
            i = i + 1;
        }
        assert(self@.take(n as int) =~= self@);
        res
    }
}

} // verus!
