//! Properties of the scan, proved once and for all: its regions never
//! overlap, and wherever the destination carries a verbatim copy of the
//! source, the scan finds it.
//!
//! The lemmas about recovered copies assume that distinct source blocks
//! carry distinct checksum pairs.  A genuine pair collision makes the
//! index keep one of the two blocks, a residual ambiguity the design
//! accepts; under that hypothesis the index is exact and the scan's
//! output can be written down block by block.

use vstd::prelude::*;
use crate::client::{match_at, scan_from, window_len_at, Common};
use crate::file::{
    block_count, block_data, block_info_at, block_len_at, index_key, index_model_of,
    index_model_upto, lemma_block_count_multiple, lemma_block_count_partial,
    lemma_block_count_props, lemma_block_in_range, ChunkInfo,
};

verus! {

/// No two source blocks share a (weak, strong) checksum pair.
pub open spec fn distinct_block_keys(src: Seq<u8>, bs: int) -> bool {
    forall|i: int, j: int|
        0 <= i < block_count(src.len() as int, bs) && 0 <= j < block_count(src.len() as int, bs)
            && i != j ==> index_key(block_data(src, bs, i)) != index_key(block_data(src, bs, j))
}

/// The region the scan reports for block `k` found at destination
/// offset `d0 + k * bs`.
pub open spec fn block_common(len: int, bs: int, d0: int, k: int) -> Common {
    Common {
        src_begin: (k * bs) as usize,
        dst_begin: (d0 + k * bs) as usize,
        size: block_len_at(len, bs, k) as usize,
    }
}

proof fn lemma_upto_lookup(src: Seq<u8>, bs: int, n: int, k: int)
    requires
        bs >= 1,
        distinct_block_keys(src, bs),
        0 <= k < n <= block_count(src.len() as int, bs),
    ensures
        index_model_upto(src, bs, n).contains_key(index_key(block_data(src, bs, k))),
        index_model_upto(src, bs, n)[index_key(block_data(src, bs, k))] == block_info_at(
            src.len() as int,
            bs,
            k,
        ),
    decreases n,
{
    if n == k + 1 {
    } else {
        lemma_upto_lookup(src, bs, n - 1, k);
        assert(index_key(block_data(src, bs, n - 1)) != index_key(block_data(src, bs, k)));
    }
}

/// Under distinct keys, the finished index maps every block's key to
/// exactly that block's descriptor.
pub proof fn lemma_index_complete(src: Seq<u8>, bs: int, k: int)
    requires
        bs >= 1,
        distinct_block_keys(src, bs),
        0 <= k < block_count(src.len() as int, bs),
    ensures
        index_model_of(src, bs).contains_key(index_key(block_data(src, bs, k))),
        index_model_of(src, bs)[index_key(block_data(src, bs, k))] == block_info_at(
            src.len() as int,
            bs,
            k,
        ),
{
    lemma_upto_lookup(src, bs, block_count(src.len() as int, bs), k);
}

/// Shape facts about every scan: regions start at or after the scan
/// start, are at least one byte, end inside the destination, and never
/// overlap.
pub proof fn lemma_scan_props(m: Map<(u32, Seq<u8>), ChunkInfo>, dest: Seq<u8>, pos: int, bs: int)
    requires
        dest.len() <= usize::MAX,
    ensures
        ({
            let cs = scan_from(m, dest, pos, bs);
            &&& forall|i: int|
                0 <= i < cs.len() ==> (#[trigger] cs[i]).dst_begin >= pos && cs[i].size >= 1
                    && cs[i].dst_begin + cs[i].size <= dest.len()
            &&& forall|i: int, j: int|
                0 <= i < j < cs.len() ==> (#[trigger] cs[i]).dst_begin + cs[i].size <= (
                #[trigger] cs[j]).dst_begin
        }),
    decreases dest.len() - pos,
{
    if pos < 0 || pos >= dest.len() || bs < 1 {
    } else {
        let cs = scan_from(m, dest, pos, bs);
        let wl = window_len_at(dest.len() as int, bs, pos);
        let win = dest.subrange(pos, pos + wl);
        match match_at(m, win, pos) {
            Some(c) => {
                lemma_scan_props(m, dest, pos + wl, bs);
                let rest = scan_from(m, dest, pos + wl, bs);
                assert(cs == seq![c] + rest);
                assert(c.dst_begin == pos && c.size == wl);
                assert forall|i: int| 0 <= i < cs.len() implies (#[trigger] cs[i]).dst_begin >= pos
                    && cs[i].size >= 1 && cs[i].dst_begin + cs[i].size <= dest.len() by {
                    if i > 0 {
                        assert(cs[i] == rest[i - 1]);
                    }
                }
                assert forall|i: int, j: int| 0 <= i < j < cs.len() implies (
                #[trigger] cs[i]).dst_begin + cs[i].size <= (#[trigger] cs[j]).dst_begin by {
                    if i > 0 {
                        assert(cs[i] == rest[i - 1] && cs[j] == rest[j - 1]);
                    } else {
                        assert(cs[j] == rest[j - 1]);
                        assert(rest[j - 1].dst_begin >= pos + wl);
                    }
                }
            },
            None => {
                lemma_scan_props(m, dest, pos + 1, bs);
                assert(cs == scan_from(m, dest, pos + 1, bs));
            },
        }
    }
}

/// No-overlap law: in any reported list, no two regions' destination
/// ranges intersect.
pub proof fn lemma_scan_no_overlap(m: Map<(u32, Seq<u8>), ChunkInfo>, dest: Seq<u8>, bs: int)
    requires
        dest.len() <= usize::MAX,
    ensures
        ({
            let cs = scan_from(m, dest, 0, bs);
            forall|i: int, j: int|
                0 <= i < j < cs.len() ==> (#[trigger] cs[i]).dst_begin + cs[i].size <= (
                #[trigger] cs[j]).dst_begin
        }),
{
    lemma_scan_props(m, dest, 0, bs);
}

/// A scan through a stretch where every window misses walks byte by
/// byte to the far end and reports nothing on the way.
pub proof fn lemma_scan_miss_through(
    m: Map<(u32, Seq<u8>), ChunkInfo>,
    dest: Seq<u8>,
    pos: int,
    upto: int,
    bs: int,
)
    requires
        0 <= pos <= upto <= dest.len(),
        forall|p: int|
            pos <= p < upto ==> #[trigger] match_at(
                m,
                dest.subrange(p, p + window_len_at(dest.len() as int, bs, p)),
                p,
            ) is None,
    ensures
        scan_from(m, dest, pos, bs) == scan_from(m, dest, upto, bs),
    decreases upto - pos,
{
    if pos < upto && bs >= 1 {
        assert(match_at(m, dest.subrange(pos, pos + window_len_at(dest.len() as int, bs, pos)), pos)
            is None);
        lemma_scan_miss_through(m, dest, pos + 1, upto, bs);
    }
}

/// Where a verbatim copy of the source begins at `d0` and runs to the
/// destination's end, the scan from block boundary `k` onward reports
/// exactly the remaining blocks, in order.
pub proof fn lemma_scan_aligned(src: Seq<u8>, bs: int, dest: Seq<u8>, d0: int, k: int)
    requires
        bs >= 1,
        distinct_block_keys(src, bs),
        0 <= d0,
        d0 + src.len() == dest.len(),
        dest.subrange(d0, dest.len() as int) == src,
        0 <= k <= block_count(src.len() as int, bs),
        dest.len() <= usize::MAX,
    ensures
        scan_from(index_model_of(src, bs), dest, d0 + k * bs, bs) == Seq::new(
            (block_count(src.len() as int, bs) - k) as nat,
            |i: int| block_common(src.len() as int, bs, d0, k + i),
        ),
    decreases block_count(src.len() as int, bs) - k,
{
    let m = index_model_of(src, bs);
    let len = src.len() as int;
    let dlen = dest.len() as int;
    let bc = block_count(len, bs);
    lemma_block_count_props(len, bs);
    if k == bc {
        assert(k * bs >= len) by (nonlinear_arith)
            requires
                k * bs == bc * bs,
                bc * bs >= len,
        ;
        assert(scan_from(m, dest, d0 + k * bs, bs) =~= Seq::new(0nat, |i: int| block_common(len, bs, d0, k + i)));
    } else {
        lemma_block_in_range(len, bs, k);
        let pos = d0 + k * bs;
        let blen = block_len_at(len, bs, k);
        let wl = window_len_at(dlen, bs, pos);
        assert(wl == blen);
        let win = dest.subrange(pos, pos + wl);
        assert(win =~= block_data(src, bs, k));
        lemma_index_complete(src, bs, k);
        let key = index_key(win);
        assert(m.contains_key(key) && m[key] == block_info_at(len, bs, k));
        assert(m[key].size == wl);
        let c = match_at(m, win, pos).unwrap();
        assert(c == block_common(len, bs, d0, k));
        assert(scan_from(m, dest, pos, bs) == seq![c] + scan_from(m, dest, pos + wl, bs));
        lemma_scan_aligned(src, bs, dest, d0, k + 1);
        let rest = scan_from(m, dest, d0 + (k + 1) * bs, bs);
        if blen == bs {
            assert(pos + wl == d0 + (k + 1) * bs) by (nonlinear_arith)
                requires
                    pos == d0 + k * bs,
                    wl == bs,
            ;
        } else {
            // the copy ends inside block k, so k is the last block
            assert(len <= (k + 1) * bs) by (nonlinear_arith)
                requires
                    len - k * bs < bs,
            ;
            lemma_block_count_partial(len, bs, k);
            assert(k + 1 == bc);
            assert(pos + wl == dlen);
            assert(d0 + (k + 1) * bs >= dlen) by (nonlinear_arith)
                requires
                    (k + 1) * bs >= len,
                    d0 + len == dlen,
            ;
            assert(scan_from(m, dest, pos + wl, bs) =~= Seq::<Common>::empty());
            assert(rest =~= Seq::<Common>::empty());
        }
        assert(scan_from(m, dest, pos + wl, bs) == rest);
        assert(seq![c] + rest =~= Seq::new(
            (bc - k) as nat,
            |i: int| block_common(len, bs, d0, k + i),
        ));
    }
}

/// Identity law: scanning a file against its own index reports one
/// region per block, covering every byte, with source and destination
/// offsets equal.
pub proof fn lemma_identity(src: Seq<u8>, bs: int)
    requires
        bs >= 1,
        distinct_block_keys(src, bs),
        src.len() <= usize::MAX,
    ensures
        ({
            let cs = scan_from(index_model_of(src, bs), src, 0, bs);
            let bc = block_count(src.len() as int, bs);
            &&& cs.len() == bc
            &&& forall|i: int|
                0 <= i < bc ==> #[trigger] cs[i] == block_common(src.len() as int, bs, 0, i)
            &&& forall|i: int| 0 <= i < bc ==> (#[trigger] cs[i]).src_begin == cs[i].dst_begin
            &&& forall|i: int|
                0 <= i < bc - 1 ==> (#[trigger] cs[i]).dst_begin + cs[i].size == cs[i
                    + 1].dst_begin
            &&& bc > 0 ==> cs[0].dst_begin == 0 && cs[bc - 1].dst_begin + cs[bc - 1].size
                == src.len()
        }),
{
    let len = src.len() as int;
    let bc = block_count(len, bs);
    assert(src.subrange(0, len) =~= src);
    lemma_scan_aligned(src, bs, src, 0, 0);
    let cs = scan_from(index_model_of(src, bs), src, 0, bs);
    assert(cs == Seq::new(bc as nat, |i: int| block_common(len, bs, 0, i)));
    assert forall|i: int| 0 <= i < bc - 1 implies (#[trigger] cs[i]).dst_begin + cs[i].size == cs[i
        + 1].dst_begin by {
        lemma_block_in_range(len, bs, i);
        lemma_block_in_range(len, bs, i + 1);
        assert((i + 1) * bs == i * bs + bs) by (nonlinear_arith);
        assert(block_len_at(len, bs, i) == bs) by (nonlinear_arith)
            requires
                (i + 1) * bs < len,
                bs >= 1,
                block_len_at(len, bs, i) == (if len - i * bs < bs {
                    len - i * bs
                } else {
                    bs
                }),
        ;
    }
    if bc > 0 {
        lemma_block_in_range(len, bs, bc - 1);
        lemma_block_count_props(len, bs);
        assert((bc - 1) * bs + block_len_at(len, bs, bc - 1) == len) by (nonlinear_arith)
            requires
                (bc - 1) * bs < len,
                bc * bs >= len,
                bs >= 1,
                block_len_at(len, bs, bc - 1) == (if len - (bc - 1) * bs < bs {
                    len - (bc - 1) * bs
                } else {
                    bs
                }),
        ;
    }
}

/// Shifted-content law: with unmatched content prepended, the scan
/// resynchronizes byte by byte and still reports every source block,
/// shifted by the prefix length.
pub proof fn lemma_shifted(src: Seq<u8>, z: Seq<u8>, bs: int)
    requires
        bs >= 1,
        distinct_block_keys(src, bs),
        z.len() + src.len() <= usize::MAX,
        // no window inside the prepended stretch matches the index
        forall|p: int|
            0 <= p < z.len() ==> #[trigger] match_at(
                index_model_of(src, bs),
                (z + src).subrange(
                    p,
                    p + window_len_at((z + src).len() as int, bs, p),
                ),
                p,
            ) is None,
    ensures
        ({
            let cs = scan_from(index_model_of(src, bs), z + src, 0, bs);
            let bc = block_count(src.len() as int, bs);
            &&& cs.len() == bc
            &&& forall|i: int|
                0 <= i < bc ==> #[trigger] cs[i] == block_common(
                    src.len() as int,
                    bs,
                    z.len() as int,
                    i,
                )
        }),
{
    let dest = z + src;
    let m = index_model_of(src, bs);
    let d0 = z.len() as int;
    lemma_scan_miss_through(m, dest, 0, d0, bs);
    assert(dest.subrange(d0, dest.len() as int) =~= src);
    lemma_scan_aligned(src, bs, dest, d0, 0);
}

/// A source of whole blocks scanned at the head of a longer
/// destination: every block matches in turn, and the scan continues at
/// the end of the copy.
proof fn lemma_scan_prefix_blocks(src: Seq<u8>, bs: int, dest: Seq<u8>, k: int)
    requires
        bs >= 1,
        distinct_block_keys(src, bs),
        src.len() as int % bs == 0,
        src.len() <= dest.len(),
        dest.subrange(0, src.len() as int) == src,
        0 <= k <= block_count(src.len() as int, bs),
        dest.len() <= usize::MAX,
    ensures
        scan_from(index_model_of(src, bs), dest, k * bs, bs) == Seq::new(
            (block_count(src.len() as int, bs) - k) as nat,
            |i: int| block_common(src.len() as int, bs, 0, k + i),
        ) + scan_from(index_model_of(src, bs), dest, src.len() as int, bs),
    decreases block_count(src.len() as int, bs) - k,
{
    let m = index_model_of(src, bs);
    let len = src.len() as int;
    let dlen = dest.len() as int;
    let bc = block_count(len, bs);
    lemma_block_count_props(len, bs);
    // whole blocks: the block count times the size is exactly the length
    vstd::arithmetic::div_mod::lemma_fundamental_div_mod(len, bs);
    lemma_block_count_multiple(bs, len / bs);
    vstd::arithmetic::div_mod::lemma_div_basics_4(len, bs);
    assert(bc * bs == len);
    if k == bc {
        assert(Seq::new(0nat, |i: int| block_common(len, bs, 0, k + i)) =~= Seq::<Common>::empty());
        assert(Seq::<Common>::empty() + scan_from(m, dest, len, bs) =~= scan_from(m, dest, len, bs));
    } else {
        lemma_block_in_range(len, bs, k);
        let pos = k * bs;
        let blen = block_len_at(len, bs, k);
        // every block here is full: the copy is whole blocks and the
        // destination continues past it
        assert((k + 1) * bs <= len) by (nonlinear_arith)
            requires
                k < bc,
                bc * bs == len,
                bs >= 1,
        ;
        assert(blen == bs) by (nonlinear_arith)
            requires
                (k + 1) * bs <= len,
                bs >= 1,
                blen == if len - k * bs < bs {
                    len - k * bs
                } else {
                    bs
                },
        ;
        let wl = window_len_at(dlen, bs, pos);
        assert(wl == bs);
        let win = dest.subrange(pos, pos + wl);
        assert(win =~= block_data(src, bs, k));
        lemma_index_complete(src, bs, k);
        let key = index_key(win);
        assert(m.contains_key(key) && m[key] == block_info_at(len, bs, k));
        let c = match_at(m, win, pos).unwrap();
        assert(c == block_common(len, bs, 0, k));
        assert(scan_from(m, dest, pos, bs) == seq![c] + scan_from(m, dest, pos + wl, bs));
        assert(pos + wl == (k + 1) * bs) by (nonlinear_arith)
            requires
                pos == k * bs,
                wl == bs,
        ;
        lemma_scan_prefix_blocks(src, bs, dest, k + 1);
        assert(seq![c] + (Seq::new((bc - k - 1) as nat, |i: int| block_common(len, bs, 0, k + 1 + i))
            + scan_from(m, dest, len, bs)) =~= Seq::new(
            (bc - k) as nat,
            |i: int| block_common(len, bs, 0, k + i),
        ) + scan_from(m, dest, len, bs));
    }
}

/// Appended-content law: with a whole-block source and unmatched bytes
/// appended, the scan covers all of the source copy and reports nothing
/// for the appended tail.
pub proof fn lemma_appended(src: Seq<u8>, y: Seq<u8>, bs: int)
    requires
        bs >= 1,
        distinct_block_keys(src, bs),
        src.len() as int % bs == 0,
        src.len() + y.len() <= usize::MAX,
        // no window at or past the copy's end matches the index
        forall|p: int|
            src.len() <= p < (src + y).len() ==> #[trigger] match_at(
                index_model_of(src, bs),
                (src + y).subrange(
                    p,
                    p + window_len_at((src + y).len() as int, bs, p),
                ),
                p,
            ) is None,
    ensures
        ({
            let cs = scan_from(index_model_of(src, bs), src + y, 0, bs);
            let bc = block_count(src.len() as int, bs);
            &&& cs.len() == bc
            &&& forall|i: int|
                0 <= i < bc ==> #[trigger] cs[i] == block_common(src.len() as int, bs, 0, i)
        }),
{
    let dest = src + y;
    let m = index_model_of(src, bs);
    let len = src.len() as int;
    assert(dest.subrange(0, len) =~= src);
    assert(0 * bs == 0);
    lemma_scan_prefix_blocks(src, bs, dest, 0);
    lemma_scan_miss_through(m, dest, len, dest.len() as int, bs);
    assert(scan_from(m, dest, dest.len() as int, bs) =~= Seq::<Common>::empty());
    let bc = block_count(len, bs);
    assert(scan_from(m, dest, 0, bs) =~= Seq::new(bc as nat, |i: int| block_common(len, bs, 0, i)));
}

} // verus!
