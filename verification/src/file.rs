//! The sender side's view of a file: how it is cut into blocks, and the
//! two-level index that maps a block's checksums back to its place.
//!
//! A source of `n` bytes and a block size `B` yield `ceil(n / B)`
//! non-overlapping blocks; every block is `B` bytes long except possibly
//! the last.  Each block is filed under its weak checksum and, below
//! that, its strong digest.  If two distinct blocks agree on both
//! checksums — a genuine collision, accepted as a residual ambiguity —
//! the index retains the later one.

use std::collections::HashMap;
use vstd::prelude::*;
use vstd::arithmetic::div_mod::{lemma_fundamental_div_mod, lemma_fundamental_div_mod_converse};
use crate::checksum::{adler32, md5_digest, md5_of, weak_of};

verus! {

broadcast use vstd::std_specs::hash::group_hash_axioms;

/// Descriptor of one source block: where it begins and how long it is.
#[derive(Clone, Copy, Debug, PartialEq, Eq, Structural)]
pub struct ChunkInfo {
    pub begin: usize,
    pub size: usize,
}

/// How many blocks a source of length `len` has under block size `bs`.
pub open spec fn block_count(len: int, bs: int) -> int {
    (len + bs - 1) / bs
}

/// The length of block `k`: the block size, except for a shorter final
/// block when the source does not divide evenly.
pub open spec fn block_len_at(len: int, bs: int, k: int) -> int {
    if len - k * bs < bs {
        len - k * bs
    } else {
        bs
    }
}

/// The bytes of block `k` of the source.
pub open spec fn block_data(src: Seq<u8>, bs: int, k: int) -> Seq<u8> {
    src.subrange(k * bs, k * bs + block_len_at(src.len() as int, bs, k))
}

/// The descriptor of block `k` of a source of length `len`.
pub open spec fn block_info_at(len: int, bs: int, k: int) -> ChunkInfo {
    ChunkInfo { begin: (k * bs) as usize, size: block_len_at(len, bs, k) as usize }
}

/// The pair a byte window is filed under: weak checksum, then strong.
pub open spec fn index_key(w: Seq<u8>) -> (u32, Seq<u8>) {
    (weak_of(w), md5_of(w))
}

/// The index contents after filing the first `k` blocks, in order.  A
/// later block with the same key replaces an earlier one.
pub open spec fn index_model_upto(src: Seq<u8>, bs: int, k: int) -> Map<(u32, Seq<u8>), ChunkInfo>
    decreases k,
{
    if k <= 0 {
        Map::empty()
    } else {
        index_model_upto(src, bs, k - 1).insert(
            index_key(block_data(src, bs, k - 1)),
            block_info_at(src.len() as int, bs, k - 1),
        )
    }
}

/// The index contents for a whole source file.
pub open spec fn index_model_of(src: Seq<u8>, bs: int) -> Map<(u32, Seq<u8>), ChunkInfo> {
    index_model_upto(src, bs, block_count(src.len() as int, bs))
}

/// Bounds that the block count keeps: enough blocks to cover the
/// source, no block past its end.
pub proof fn lemma_block_count_props(len: int, bs: int)
    requires
        len >= 0,
        bs >= 1,
    ensures
        0 <= block_count(len, bs) <= len,
        block_count(len, bs) * bs >= len,
        len > 0 ==> block_count(len, bs) >= 1,
        len == 0 ==> block_count(len, bs) == 0,
{
    let q = block_count(len, bs);
    let r = (len + bs - 1) % bs;
    lemma_fundamental_div_mod(len + bs - 1, bs);
    vstd::arithmetic::div_mod::lemma_mod_bound(len + bs - 1, bs);
    assert(len + bs - 1 == bs * q + r);
    assert(q * bs >= len && q >= 0 && (len > 0 ==> q >= 1)) by (nonlinear_arith)
        requires
            len + bs - 1 == bs * q + r,
            0 <= r < bs,
            len >= 0,
            bs >= 1,
    ;
    assert(q <= len) by (nonlinear_arith)
        requires
            len + bs - 1 == bs * q + r,
            0 <= r < bs,
            len >= 0,
            bs >= 1,
    ;
    if len == 0 {
        assert(bs - 1 == 0 * bs + (bs - 1));
        lemma_fundamental_div_mod_converse(bs - 1, bs, 0, bs - 1);
    }
}

/// Every block below the block count sits inside the source and is
/// between one byte and one block long.
pub proof fn lemma_block_in_range(len: int, bs: int, k: int)
    requires
        len >= 0,
        bs >= 1,
        0 <= k < block_count(len, bs),
    ensures
        k * bs < len,
        1 <= block_len_at(len, bs, k) <= bs,
        k * bs + block_len_at(len, bs, k) <= len,
{
    let q = block_count(len, bs);
    let r = (len + bs - 1) % bs;
    lemma_fundamental_div_mod(len + bs - 1, bs);
    vstd::arithmetic::div_mod::lemma_mod_bound(len + bs - 1, bs);
    assert(k * bs < len) by (nonlinear_arith)
        requires
            len + bs - 1 == bs * q + r,
            0 <= r < bs,
            0 <= k < q,
            bs >= 1,
    ;
}

/// A source that ends exactly at `k` whole blocks counts `k` blocks.
pub proof fn lemma_block_count_multiple(bs: int, k: int)
    requires
        bs >= 1,
        k >= 0,
    ensures
        block_count(k * bs, bs) == k,
{
    assert(k * bs + bs - 1 == k * bs + (bs - 1));
    lemma_fundamental_div_mod_converse(k * bs + bs - 1, bs, k, bs - 1);
}

/// A source that ends inside block `k` counts `k + 1` blocks.
pub proof fn lemma_block_count_partial(len: int, bs: int, k: int)
    requires
        bs >= 1,
        k >= 0,
        k * bs < len,
        len <= (k + 1) * bs,
    ensures
        block_count(len, bs) == k + 1,
{
    assert(len + bs - 1 == bs * (k + 1) + (len - 1 - k * bs)) by (nonlinear_arith);
    assert(0 <= len - 1 - k * bs < bs) by (nonlinear_arith)
        requires
            k * bs < len,
            len <= (k + 1) * bs,
            bs >= 1,
    ;
    lemma_fundamental_div_mod_converse(len + bs - 1, bs, k + 1, len - 1 - k * bs);
}

/// The index of the first `k` blocks holds at most `k` entries, one per
/// block less any collisions.
pub proof fn lemma_index_upto_dom(src: Seq<u8>, bs: int, k: int)
    requires
        k >= 0,
    ensures
        index_model_upto(src, bs, k).dom().finite(),
        index_model_upto(src, bs, k).dom().len() <= k,
    decreases k,
{
    if k == 0 {
        assert(index_model_upto(src, bs, 0).dom() =~= Set::<(u32, Seq<u8>)>::empty());
    } else {
        lemma_index_upto_dom(src, bs, k - 1);
        let prev = index_model_upto(src, bs, k - 1);
        let key = index_key(block_data(src, bs, k - 1));
        assert(index_model_upto(src, bs, k).dom() =~= prev.dom().insert(key));
    }
}

/// Byte-for-byte equality of two slices.
pub(crate) fn bytes_eq(a: &[u8], b: &[u8]) -> (r: bool)
    ensures
        r == (a@ == b@),
{
    if a.len() != b.len() {
        return false;
    }
    let mut i: usize = 0;
    while i < a.len()
        invariant
            i <= a@.len(),
            a@.len() == b@.len(),
            forall|j: int| 0 <= j < i ==> a@[j] == b@[j],
        decreases a@.len() - i,
    {
        if a[i] != b[i] {
            return false;
        }
        i = i + 1;
    }
    proof {
        assert(a@ =~= b@);
    }
    true
}

/// One rung of the strong-checksum ladder under a weak key.
struct StrongEntry {
    strong: Vec<u8>,
    info: ChunkInfo,
}

/// The descriptor filed under `strong`, taking the earliest entry first.
spec fn entry_lookup(s: Seq<StrongEntry>, strong: Seq<u8>) -> Option<ChunkInfo>
    decreases s.len(),
{
    if s.len() == 0 {
        None
    } else if s[0].strong@ == strong {
        Some(s[0].info)
    } else {
        entry_lookup(s.drop_first(), strong)
    }
}

proof fn lemma_entry_lookup_at(s: Seq<StrongEntry>, strong: Seq<u8>, i: int)
    requires
        0 <= i < s.len(),
        forall|j: int| 0 <= j < i ==> s[j].strong@ != strong,
        s[i].strong@ == strong,
    ensures
        entry_lookup(s, strong) == Some(s[i].info),
    decreases i,
{
    if i > 0 {
        lemma_entry_lookup_at(s.drop_first(), strong, i - 1);
    }
}

proof fn lemma_entry_lookup_none(s: Seq<StrongEntry>, strong: Seq<u8>)
    requires
        forall|j: int| 0 <= j < s.len() ==> s[j].strong@ != strong,
    ensures
        entry_lookup(s, strong) is None,
    decreases s.len(),
{
    if s.len() > 0 {
        lemma_entry_lookup_none(s.drop_first(), strong);
    }
}

proof fn lemma_entry_lookup_some(s: Seq<StrongEntry>, strong: Seq<u8>, i: int)
    requires
        0 <= i < s.len(),
        s[i].strong@ == strong,
    ensures
        entry_lookup(s, strong) is Some,
    decreases i,
{
    if s[0].strong@ != strong {
        lemma_entry_lookup_some(s.drop_first(), strong, i - 1);
    }
}

/// The pairs one rung ladder contributes to an index: every strong
/// digest filed under the one weak key `w`.
spec fn weak_pairs(w: u32, s: Seq<StrongEntry>) -> Map<(u32, Seq<u8>), ChunkInfo> {
    Map::new(
        |p: (u32, Seq<u8>)| p.0 == w && entry_lookup(s, p.1) is Some,
        |p: (u32, Seq<u8>)| entry_lookup(s, p.1).unwrap(),
    )
}

proof fn lemma_weak_pairs_dom(w: u32, s: Seq<StrongEntry>)
    ensures
        weak_pairs(w, s).dom().finite(),
        weak_pairs(w, s).dom().len() <= s.len(),
    decreases s.len(),
{
    if s.len() == 0 {
        assert(weak_pairs(w, s).dom() =~= Set::<(u32, Seq<u8>)>::empty());
    } else {
        lemma_weak_pairs_dom(w, s.drop_first());
        assert(weak_pairs(w, s).dom() =~= weak_pairs(w, s.drop_first()).dom().insert(
            (w, s[0].strong@),
        ));
    }
}

/// The two-level block index: weak checksum first, strong digest below
/// it, a block descriptor at the bottom.  Built once by the indexer,
/// read-only while the matcher queries it.
pub struct BlockIndex {
    map: HashMap<u32, Vec<StrongEntry>>,
    count: usize,
    block_size: usize,
}

impl BlockIndex {
    /// What the index holds: a map from (weak, strong) pairs to block
    /// descriptors.
    pub closed spec fn model(self) -> Map<(u32, Seq<u8>), ChunkInfo> {
        Map::new(
            |p: (u32, Seq<u8>)|
                self.map@.contains_key(p.0) && entry_lookup(self.map@[p.0]@, p.1) is Some,
            |p: (u32, Seq<u8>)| entry_lookup(self.map@[p.0]@, p.1).unwrap(),
        )
    }

    /// The block size the index was built with.
    pub closed spec fn spec_block_size(self) -> int {
        self.block_size as int
    }

    /// Internal shape: no weak key hangs empty, and the entry count
    /// tracks the number of filed pairs.
    pub closed spec fn wf(self) -> bool {
        &&& forall|w: u32| #[trigger]
            self.map@.contains_key(w) ==> self.map@[w]@.len() >= 1
        &&& self.model().dom().finite()
        &&& self.count == self.model().dom().len()
        &&& self.block_size >= 1
    }

    /// An empty index for the given block size.
    pub fn new(block_size: usize) -> (r: Self)
        requires
            block_size >= 1,
        ensures
            r.wf(),
            r.model() == Map::<(u32, Seq<u8>), ChunkInfo>::empty(),
            r.spec_block_size() == block_size,
    {
        let r = BlockIndex { map: HashMap::new(), count: 0, block_size };
        proof {
            assert(r.model() =~= Map::<(u32, Seq<u8>), ChunkInfo>::empty());
            assert(r.model().dom() =~= Set::<(u32, Seq<u8>)>::empty());
        }
        r
    }

    /// The block size the index was built with.
    pub fn block_size(&self) -> (r: usize)
        requires
            self.wf(),
        ensures
            r == self.spec_block_size(),
            r >= 1,
    {
        self.block_size
    }

    /// How many (weak, strong) pairs the index holds.
    pub fn len(&self) -> (r: usize)
        requires
            self.wf(),
        ensures
            r == self.model().dom().len(),
    {
        self.count
    }

    /// Files a descriptor under its checksum pair.  An existing entry
    /// under the same pair is superseded.
    pub fn insert(&mut self, weak: u32, strong: Vec<u8>, info: ChunkInfo)
        requires
            old(self).wf(),
            old(self).model().contains_key((weak, strong@)) || old(self).model().dom().len()
                < usize::MAX,
        ensures
            final(self).wf(),
            final(self).model() == old(self).model().insert((weak, strong@), info),
            final(self).spec_block_size() == old(self).spec_block_size(),
    {
        let ghost key = (weak, strong@);
        let ghost old_model = self.model();
        let ghost old_map = self.map@;
        let mut v: Vec<StrongEntry> = match self.map.remove(&weak) {
            Some(v0) => v0,
            None => Vec::new(),
        };
        let ghost old_v = v@;
        let ghost had_weak = old_map.contains_key(weak);
        // whether this pair is already filed
        let mut found: bool = false;
        let mut i: usize = 0;
        while i < v.len()
            invariant_except_break
                0 <= i <= v@.len(),
                !found,
                forall|j: int| 0 <= j < i ==> v@[j].strong@ != strong@,
            ensures
                found ==> entry_lookup(v@, strong@) is Some,
                !found ==> forall|j: int| 0 <= j < v@.len() ==> v@[j].strong@ != strong@,
            decreases v@.len() - i,
        {
            if bytes_eq(v[i].strong.as_slice(), strong.as_slice()) {
                proof {
                    assert(v@[i as int].strong@ == strong@);
                    lemma_entry_lookup_at(v@, strong@, i as int);
                }
                found = true;
                break ;
            }
            i = i + 1;
        }
        proof {
            if !found {
                lemma_entry_lookup_none(v@, strong@);
            }
            assert(found <==> entry_lookup(old_v, strong@) is Some);
        }
        let entry = StrongEntry { strong, info };
        v.insert(0, entry);
        proof {
            assert(v@ =~= seq![StrongEntry { strong: entry.strong, info }].add(old_v));
        }
        self.map.insert(weak, v);
        let ghost pair_was_there = old_model.contains_key(key);
        proof {
            // the old model held the pair exactly when the scan found it
            assert(pair_was_there <==> (had_weak && entry_lookup(old_map[weak]@, strong@) is Some));
            // the new contents are the old contents plus this pair
            assert forall|p: (u32, Seq<u8>)| #[trigger]
                self.model().contains_key(p) || old_model.insert(key, info).contains_key(
                    p,
                ) implies self.model().contains_key(p) == old_model.insert(key, info).contains_key(
                p,
            ) && (self.model().contains_key(p) ==> self.model()[p] == old_model.insert(key, info)[p]) by {
                if p.0 == weak {
                    assert(self.map@[weak]@ == v@);
                    assert(v@.drop_first() =~= old_v);
                    if p.1 == strong@ {
                        assert(entry_lookup(v@, p.1) == Some(info));
                    } else {
                        assert(entry_lookup(v@, p.1) == entry_lookup(old_v, p.1));
                    }
                } else {
                    assert(self.map@.contains_key(p.0) == old_map.contains_key(p.0));
                    if self.map@.contains_key(p.0) {
                        assert(self.map@[p.0] == old_map[p.0]);
                    }
                }
            }
            assert(self.model() =~= old_model.insert(key, info));
            assert(self.model().dom() =~= old_model.dom().insert(key));
        }
        if !found {
            proof {
                assert(!pair_was_there);
            }
            self.count = self.count + 1;
        } else {
            proof {
                assert(pair_was_there);
            }
        }
        proof {
            assert forall|w: u32| #[trigger] self.map@.contains_key(w) implies self.map@[w]@.len()
                >= 1 by {
                if w != weak {
                    assert(old_map.contains_key(w) && old_map[w] == self.map@[w]);
                }
            }
        }
    }

    /// Files every entry of one ladder under the weak key `weak`,
    /// earliest entry winning, over whatever was filed before.
    fn insert_all(&mut self, weak: u32, vs: &Vec<StrongEntry>)
        requires
            old(self).wf(),
            old(self).model().dom().union(weak_pairs(weak, vs@).dom()).len() < usize::MAX,
        ensures
            final(self).wf(),
            final(self).model() == old(self).model().union_prefer_right(weak_pairs(weak, vs@)),
            final(self).spec_block_size() == old(self).spec_block_size(),
    {
        let ghost base = self.model();
        let ghost bound = base.dom().union(weak_pairs(weak, vs@).dom());
        proof {
            lemma_weak_pairs_dom(weak, vs@);
        }
        let mut i: usize = vs.len();
        proof {
            assert(vs@.skip(vs@.len() as int) =~= Seq::<StrongEntry>::empty());
            assert(base.union_prefer_right(weak_pairs(weak, vs@.skip(vs@.len() as int))) =~= base);
        }
        while i > 0
            invariant
                i <= vs@.len(),
                self.wf(),
                self.spec_block_size() == old(self).spec_block_size(),
                self.model() == base.union_prefer_right(weak_pairs(weak, vs@.skip(i as int))),
                self.model().dom().subset_of(bound),
                bound.finite(),
                bound.len() < usize::MAX,
                bound == base.dom().union(weak_pairs(weak, vs@).dom()),
            decreases i,
        {
            let idx = i - 1;
            let entry_strong = vstd::slice::slice_to_vec(vs[idx].strong.as_slice());
            let entry_info = vs[idx].info;
            let ghost prev = self.model();
            proof {
                // the pair being filed is one of the ladder's own pairs
                lemma_entry_lookup_some(vs@, entry_strong@, idx as int);
                assert(weak_pairs(weak, vs@).dom().contains((weak, entry_strong@)));
                // so there is room for it
                vstd::set_lib::lemma_len_subset(self.model().dom(), bound);
            }
            self.insert(weak, entry_strong, entry_info);
            proof {
                let w0 = weak_pairs(weak, vs@.skip(idx as int));
                let w1 = weak_pairs(weak, vs@.skip(i as int));
                assert(vs@.skip(idx as int)[0] == vs@[idx as int]);
                assert(vs@.skip(idx as int).drop_first() =~= vs@.skip(i as int));
                assert forall|p: (u32, Seq<u8>)|
                    #![trigger self.model().contains_key(p)]
                    #![trigger base.union_prefer_right(w0).contains_key(p)]
                    true implies self.model().contains_key(p) == base.union_prefer_right(
                    w0,
                ).contains_key(p) && (self.model().contains_key(p) ==> self.model()[p]
                    == base.union_prefer_right(w0)[p]) by {
                    if p.0 == weak {
                        if p.1 == entry_strong@ {
                            assert(entry_lookup(vs@.skip(idx as int), p.1) == Some(entry_info));
                        } else {
                            assert(entry_lookup(vs@.skip(idx as int), p.1) == entry_lookup(
                                vs@.skip(i as int),
                                p.1,
                            ));
                        }
                    } else {
                        assert(!w0.contains_key(p) && !w1.contains_key(p));
                    }
                }
                assert(self.model() =~= base.union_prefer_right(w0));
                // the new pair keeps the contents inside the bound
                assert(self.model().dom() =~= prev.dom().insert((weak, entry_strong@)));
            }
            i = idx;
        }
        proof {
            assert(vs@.skip(0) =~= vs@);
        }
    }

    /// Looks a checksum pair up, yielding the descriptor filed under it.
    pub fn lookup(&self, weak: u32, strong: &Vec<u8>) -> (r: Option<ChunkInfo>)
        requires
            self.wf(),
        ensures
            r == if self.model().contains_key((weak, strong@)) {
                Some(self.model()[(weak, strong@)])
            } else {
                None::<ChunkInfo>
            },
    {
        match self.map.get(&weak) {
            None => None,
            Some(v) => {
                let mut i: usize = 0;
                while i < v.len()
                    invariant
                        0 <= i <= v@.len(),
                        forall|j: int| 0 <= j < i ==> v@[j].strong@ != strong@,
                        v@ == self.map@[weak]@,
                        self.map@.contains_key(weak),
                    decreases v@.len() - i,
                {
                    if bytes_eq(v[i].strong.as_slice(), strong.as_slice()) {
                        proof {
                            lemma_entry_lookup_at(v@, strong@, i as int);
                        }
                        return Some(v[i].info);
                    }
                    i = i + 1;
                }
                proof {
                    lemma_entry_lookup_none(v@, strong@);
                }
                None
            },
        }
    }

    /// Whether any block is filed under this weak checksum.  The matcher
    /// asks this first and computes the strong digest only on a hit.
    pub fn has_weak(&self, weak: u32) -> (r: bool)
        requires
            self.wf(),
        ensures
            r == exists|s: Seq<u8>| self.model().contains_key((weak, s)),
    {
        let r = self.map.contains_key(&weak);
        proof {
            if r {
                let v = self.map@[weak];
                assert(entry_lookup(v@, v@[0].strong@) is Some);
                assert(self.model().contains_key((weak, v@[0].strong@)));
            } else {
                assert forall|s: Seq<u8>| !(#[trigger] self.model().contains_key((weak, s))) by {}
            }
        }
        r
    }
}

/// Folds one index into another: every pair filed in `snd` is filed in
/// `fst`, superseding what `fst` held under the same pair.
pub fn merge_maps(fst: &mut BlockIndex, snd: BlockIndex)
    requires
        old(fst).wf(),
        snd.wf(),
        old(fst).model().dom().len() + snd.model().dom().len() < usize::MAX,
    ensures
        final(fst).wf(),
        final(fst).model() == old(fst).model().union_prefer_right(snd.model()),
        final(fst).spec_block_size() == old(fst).spec_block_size(),
{
    let ghost base = fst.model();
    let ghost bsz = fst.spec_block_size();
    let ghost snd_model = snd.model();
    let ghost mut processed: Map<(u32, Seq<u8>), ChunkInfo> = Map::empty();
    proof {
        assert(base.union_prefer_right(Map::empty()) =~= base);
    }
    for kv in it: snd.map.iter()
        invariant
            fst.wf(),
            fst.spec_block_size() == bsz,
            snd.wf(),
            snd_model == snd.model(),
            base.dom().finite(),
            base.dom().len() + snd_model.dom().len() < usize::MAX,
            forall|j: int|
                0 <= j < it.seq().len() ==> snd.map@.contains_key(*(#[trigger] it.seq()[j]).0)
                    && snd.map@[*it.seq()[j].0] == *it.seq()[j].1,
            forall|p: (u32, Seq<u8>)| #[trigger]
                snd_model.contains_key(p) ==> exists|j: int|
                    0 <= j < it.seq().len() && *(#[trigger] it.seq()[j]).0 == p.0,
            forall|p: (u32, Seq<u8>)| #[trigger]
                processed.contains_key(p) ==> snd_model.contains_key(p) && processed[p]
                    == snd_model[p],
            forall|p: (u32, Seq<u8>), j: int|
                snd_model.contains_key(p) && 0 <= j < it.index() && *(#[trigger] it.seq()[j]).0
                    == p.0 ==> #[trigger] processed.contains_key(p),
            fst.model() == base.union_prefer_right(processed),
        ensures
            fst.wf(),
            fst.spec_block_size() == bsz,
            forall|p: (u32, Seq<u8>)| #[trigger]
                processed.contains_key(p) ==> snd_model.contains_key(p) && processed[p]
                    == snd_model[p],
            forall|p: (u32, Seq<u8>)| #[trigger]
                snd_model.contains_key(p) ==> processed.contains_key(p),
            fst.model() == base.union_prefer_right(processed),
    {
        let (k, vs) = kv;
        let ghost w = weak_pairs(*k, vs@);
        proof {
            lemma_weak_pairs_dom(*k, vs@);
            // this entry's pairs are pairs of the second index
            assert(snd.map@[*k]@ == vs@);
            assert forall|p: (u32, Seq<u8>)| #[trigger]
                w.contains_key(p) implies snd_model.contains_key(p) && w[p] == snd_model[p] by {}
            // so there is room for all of them
            assert(fst.model().dom().union(w.dom()).subset_of(
                base.dom().union(snd_model.dom()),
            ));
            vstd::set_lib::lemma_len_union(base.dom(), snd_model.dom());
            vstd::set_lib::lemma_len_subset(
                fst.model().dom().union(w.dom()),
                base.dom().union(snd_model.dom()),
            );
        }
        fst.insert_all(*k, vs);
        proof {
            let next = processed.union_prefer_right(w);
            assert(base.union_prefer_right(processed).union_prefer_right(w)
                =~= base.union_prefer_right(next));
            // pairs of the second index under this weak key are now filed
            assert forall|p: (u32, Seq<u8>)|
                snd_model.contains_key(p) && p.0 == *k implies #[trigger] next.contains_key(
                p,
            ) by {
                assert(w.contains_key(p));
            }
            processed = next;
        }
    }
    proof {
        assert(fst.model() =~= base.union_prefer_right(snd_model));
    }
}

/// Walks a byte source block by block, handing out each block's weak
/// checksum, strong digest, and descriptor.
pub struct FileChunkIterator {
    data: Vec<u8>,
    chunk_size: usize,
    offset: usize,
}

impl FileChunkIterator {
    /// The bytes being walked.
    pub closed spec fn spec_data(self) -> Seq<u8> {
        self.data@
    }

    /// The block size of the walk.
    pub closed spec fn spec_chunk_size(self) -> int {
        self.chunk_size as int
    }

    /// How far the walk has come.
    pub closed spec fn spec_offset(self) -> int {
        self.offset as int
    }

    /// The cursor stands at a block boundary, or at the very end.
    pub open spec fn at_boundary(self) -> bool {
        &&& self.spec_chunk_size() >= 1
        &&& 0 <= self.spec_offset() <= self.spec_data().len()
        &&& (self.spec_offset() == self.spec_data().len() || self.spec_offset()
            % self.spec_chunk_size() == 0)
    }

    /// Starts a walk over `data` with the given block size.
    pub fn new(data: Vec<u8>, chunk_size: usize) -> (r: Self)
        requires
            chunk_size >= 1,
        ensures
            r.at_boundary(),
            r.spec_data() == data@,
            r.spec_chunk_size() == chunk_size,
            r.spec_offset() == 0,
    {
        proof {
            vstd::arithmetic::div_mod::lemma_small_mod(0, chunk_size as nat);
        }
        FileChunkIterator { data, chunk_size, offset: 0 }
    }

    /// Hands out the next block, or nothing once the source is spent.
    pub fn next_chunk(&mut self) -> (r: Option<(u32, Vec<u8>, ChunkInfo)>)
        requires
            old(self).at_boundary(),
        ensures
            final(self).at_boundary(),
            final(self).spec_data() == old(self).spec_data(),
            final(self).spec_chunk_size() == old(self).spec_chunk_size(),
            old(self).spec_offset() == old(self).spec_data().len() ==> r is None && *final(self)
                == *old(self),
            old(self).spec_offset() < old(self).spec_data().len() ==> {
                let off = old(self).spec_offset();
                let len = old(self).spec_data().len() as int;
                let bs = old(self).spec_chunk_size();
                let blen = if len - off < bs {
                    len - off
                } else {
                    bs
                };
                let w = old(self).spec_data().subrange(off, off + blen);
                match r {
                    Some(c) => {
                        &&& c.0 == weak_of(w)
                        &&& c.1@ == md5_of(w)
                        &&& c.2 == (ChunkInfo { begin: off as usize, size: blen as usize })
                        &&& final(self).spec_offset() == off + blen
                    },
                    None => false,
                }
            },
    {
        if self.offset >= self.data.len() {
            return None;
        }
        let rem = self.data.len() - self.offset;
        let blen = if rem < self.chunk_size {
            rem
        } else {
            self.chunk_size
        };
        let window = vstd::slice::slice_subrange(self.data.as_slice(), self.offset, self.offset
            + blen);
        let weak = adler32(window);
        let strong = md5_digest(window);
        let info = ChunkInfo { begin: self.offset, size: blen };
        proof {
            if rem > self.chunk_size {
                vstd::arithmetic::div_mod::lemma_mod_add_multiples_vanish(
                    self.offset as int,
                    self.chunk_size as int,
                );
            }
        }
        self.offset = self.offset + blen;
        Some((weak, strong, info))
    }
}

} // verus!
