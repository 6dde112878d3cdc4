//! The diff pipeline: the sender indexes a source file, the receiver
//! scans a destination file against that index, and the client joins the
//! two for a file pair.
//!
//! The receiver slides a window of block size over the destination.  On
//! a hit — weak checksum found, then strong digest confirmed, sizes
//! equal — it emits a `Common` region and jumps past it; on a miss it
//! advances one byte, updating the weak checksum in constant time.

use vstd::prelude::*;
use vstd::utf8::{
    decode_utf8, decode_utf8_split, encode_utf8, encode_utf8_decode_utf8, encode_utf8_valid_utf8,
    is_char_boundary_iff_is_leading_byte, is_char_boundary_start_end_of_seq,
    partial_valid_partial_invalid_utf8, valid_utf8,
};
use vstd::string::StringSliceAdditionalSpecFns;
use crate::checksum::{adler32, md5_digest, md5_of, RollingWeak};
use crate::file::{bytes_eq, index_key, index_model_of, BlockIndex, ChunkInfo, FileChunkIterator};
use crate::file::{
    block_count, block_data, block_info_at, block_len_at, index_model_upto,
    lemma_block_count_multiple, lemma_block_count_partial, lemma_block_count_props,
    lemma_index_upto_dom,
};

verus! {

/// How much the surrounding program is meant to report.
#[derive(Clone, Copy, Debug, PartialEq, Eq, Structural)]
pub enum Verbosity {
    OFF,
    LOW,
    REG,
    HIGH,
}

/// Why a diff request was refused.
#[derive(Clone, Copy, Debug, PartialEq, Eq, Structural)]
pub enum DiffError {
    /// The block size handed to the matcher differs from the one the
    /// index was built with.
    SizeMismatch,
    /// A file path does not lie under the tree root it was paired with.
    NotUnderRoot,
}

/// Holder of one side of a transfer: a bare address for the program
/// around this library to connect with.
pub struct TcpClient {
    pub address: String,
}

impl TcpClient {
    pub fn new(address: &str) -> (r: Self)
        ensures
            r.address@ == address@,
    {
        TcpClient { address: address.to_owned() }
    }
}

/// As `TcpClient`, for a datagram transport.
pub struct UdpClient {
    pub address: String,
}

impl UdpClient {
    pub fn new(address: &str) -> (r: Self)
        ensures
            r.address@ == address@,
    {
        UdpClient { address: address.to_owned() }
    }
}

/// The two transport kinds, as a tagged union.
pub enum NetworkClient {
    UDP(UdpClient),
    TCP(TcpClient),
}

impl NetworkClient {
    /// The address of whichever transport this is.
    pub fn address(&self) -> (r: &String)
        ensures
            r@ == match self {
                NetworkClient::UDP(u) => u.address@,
                NetworkClient::TCP(t) => t.address@,
            },
    {
        match self {
            NetworkClient::UDP(u) => &u.address,
            NetworkClient::TCP(t) => &t.address,
        }
    }
}

/// A byte range present verbatim in both files.
#[derive(Clone, Copy, Debug, PartialEq, Eq, Structural)]
pub struct Common {
    pub src_begin: usize,
    pub dst_begin: usize,
    pub size: usize,
}

/// One indexed source file: its path relative to the sender root, and
/// its block index.
pub struct FileInfo {
    pub path_suffix: String,
    pub data: BlockIndex,
}

/// The outcome for one file pair: the relative path and the matched
/// regions, in ascending destination order.
pub struct FileCompare {
    pub path_suffix: String,
    pub common: Vec<Common>,
}

/// Whether `p` begins `q`, byte for byte.
pub open spec fn is_byte_prefix(p: Seq<u8>, q: Seq<u8>) -> bool {
    p.len() <= q.len() && q.subrange(0, p.len() as int) == p
}

/// Whether `p` begins `q` and ends at a path-component boundary: it is
/// the whole of `q`, it is empty, it already ends in the separator, or
/// the next byte of `q` is the separator.
pub open spec fn is_path_prefix(p: Seq<u8>, q: Seq<u8>) -> bool {
    &&& is_byte_prefix(p, q)
    &&& {
        ||| p.len() == q.len()
        ||| p.len() == 0
        ||| p[p.len() - 1] == 47
        ||| q[p.len() as int] == 47
    }
}

/// The window the matcher tests at `pos`: a whole block, or what is
/// left of the destination.
pub open spec fn window_len_at(dlen: int, bs: int, pos: int) -> int {
    if dlen - pos < bs {
        dlen - pos
    } else {
        bs
    }
}

/// What one window yields against the index: a `Common` region exactly
/// when both checksums are filed and the filed block has the window's
/// length.
pub open spec fn match_at(m: Map<(u32, Seq<u8>), ChunkInfo>, win: Seq<u8>, offset: int) -> Option<
    Common,
> {
    let key = index_key(win);
    if m.contains_key(key) && m[key].size == win.len() {
        Some(
            Common {
                src_begin: m[key].begin,
                dst_begin: offset as usize,
                size: win.len() as usize,
            },
        )
    } else {
        None
    }
}

/// The regions the scan emits from `pos` on: jump a whole window past a
/// hit, slide one byte past a miss.
pub open spec fn scan_from(
    m: Map<(u32, Seq<u8>), ChunkInfo>,
    dest: Seq<u8>,
    pos: int,
    bs: int,
) -> Seq<Common>
    decreases dest.len() - pos,
{
    if pos < 0 || pos >= dest.len() || bs < 1 {
        Seq::empty()
    } else {
        let wl = window_len_at(dest.len() as int, bs, pos);
        let win = dest.subrange(pos, pos + wl);
        match match_at(m, win, pos) {
            Some(c) => seq![c] + scan_from(m, dest, pos + wl, bs),
            None => scan_from(m, dest, pos + 1, bs),
        }
    }
}

proof fn lemma_slash_encoding()
    ensures
        encode_utf8(seq!['/']) == seq![47u8],
{
    let s = seq!['/'];
    assert(s[0] == '/' && s.len() == 1);
    assert(s.drop_first() =~= Seq::<char>::empty());
    assert('/' as u32 == 47);
    assert((47u32 & 0x7F) as u8 == 47u8) by (bit_vector);
    assert(vstd::utf8::has_width_1_encoding(47));
    assert(vstd::utf8::encode_scalar(47) =~= seq![47u8]);
    assert(encode_utf8(Seq::<char>::empty()) =~= Seq::<u8>::empty());
    assert(encode_utf8(s) == vstd::utf8::encode_scalar(s[0] as u32) + encode_utf8(s.drop_first()));
    assert(encode_utf8(s) =~= seq![47u8]);
}

/// The part of `path` after the root `prefix`, with the separator
/// between them consumed, or a refusal where `prefix` does not begin
/// `path` at a component boundary.
pub fn get_suffix(path: &str, prefix: &str) -> (r: Result<String, DiffError>)
    ensures
        r is Err <==> !is_path_prefix(prefix.spec_bytes(), path.spec_bytes()),
        r matches Err(e) ==> e == DiffError::NotUnderRoot,
        r matches Ok(s) ==> ({
            let pb = prefix.spec_bytes();
            let qb = path.spec_bytes();
            if pb.len() < qb.len() && pb.len() > 0 && pb[pb.len() - 1] != 47 {
                path@ == prefix@ + seq!['/'] + s@
            } else {
                path@ == prefix@ + s@
            }
        }),
{
    let pb = prefix.as_bytes();
    let qb = path.as_bytes();
    if pb.len() > qb.len() {
        return Err(DiffError::NotUnderRoot);
    }
    let head = vstd::slice::slice_subrange(qb, 0, pb.len());
    if !bytes_eq(head, pb) {
        return Err(DiffError::NotUnderRoot);
    }
    let ghost pbs = prefix.spec_bytes();
    let ghost qbs = path.spec_bytes();
    let ghost mid = pbs.len() as int;
    proof {
        encode_utf8_valid_utf8(path@);
        encode_utf8_valid_utf8(prefix@);
        assert(qbs.subrange(0, mid) == pbs);
    }
    if pb.len() == qb.len() {
        proof {
            // equal bytes decode to equal strings
            assert(pbs =~= qbs);
            encode_utf8_decode_utf8(path@);
            encode_utf8_decode_utf8(prefix@);
            assert(path@ =~= prefix@ + Seq::<char>::empty());
        }
        return Ok(String::new());
    }
    // where does the component boundary lie?
    let root_is_boundary = pb.len() == 0 || pb[pb.len() - 1] == 47;
    if !root_is_boundary && qb[pb.len()] != 47 {
        return Err(DiffError::NotUnderRoot);
    }
    proof {
        let rest = qbs.subrange(mid, qbs.len() as int);
        if !valid_utf8(rest) {
            partial_valid_partial_invalid_utf8(qbs, mid);
            assert(false);
        }
        assert(rest[0] == qbs[mid]);
        is_char_boundary_iff_is_leading_byte(qbs, mid);
    }
    let (_, tail) = path.split_at(pb.len());
    proof {
        decode_utf8_split(qbs, mid);
        encode_utf8_decode_utf8(path@);
        encode_utf8_decode_utf8(prefix@);
        encode_utf8_decode_utf8(tail@);
        assert(tail.spec_bytes() == qbs.subrange(mid, qbs.len() as int));
        assert(path@ == prefix@ + tail@);
    }
    if root_is_boundary {
        return Ok(tail.to_owned());
    }
    // the suffix begins with the separator: consume it
    let ghost tbs = tail.spec_bytes();
    proof {
        lemma_slash_encoding();
        encode_utf8_valid_utf8(tail@);
        assert(tbs[0] == 47);
        if tbs.len() == 1 {
            is_char_boundary_start_end_of_seq(tbs);
        } else {
            assert(tbs.subrange(0, 1) =~= seq![47u8]);
            assert(valid_utf8(tbs.subrange(0, 1))) by {
                encode_utf8_valid_utf8(seq!['/']);
            }
            let rest2 = tbs.subrange(1, tbs.len() as int);
            if !valid_utf8(rest2) {
                partial_valid_partial_invalid_utf8(tbs, 1);
                assert(false);
            }
            assert(rest2[0] == tbs[1]);
            is_char_boundary_iff_is_leading_byte(tbs, 1);
        }
    }
    let (_, tail2) = tail.split_at(1);
    proof {
        decode_utf8_split(tbs, 1);
        encode_utf8_decode_utf8(tail@);
        encode_utf8_decode_utf8(tail2@);
        assert(tail2.spec_bytes() == tbs.subrange(1, tbs.len() as int));
        assert(tbs.subrange(0, 1) =~= seq![47u8]);
        assert(decode_utf8(seq![47u8]) == seq!['/']) by {
            encode_utf8_decode_utf8(seq!['/']);
        }
        assert(tail@ == seq!['/'] + tail2@);
        assert(path@ =~= prefix@ + seq!['/'] + tail2@);
    }
    Ok(tail2.to_owned())
}

/// The indexing side: for files under `path`, cut into `block_size`
/// blocks and file each under its checksums.
pub struct Sender {
    pub verbosity: Verbosity,
    pub block_size: usize,
    pub path: String,
}

impl Sender {
    pub fn new(path: &str, verbosity: Verbosity, block_size: usize) -> (r: Sender)
        requires
            block_size >= 1,
        ensures
            r.path@ == path@,
            r.block_size == block_size,
            r.verbosity == verbosity,
    {
        Sender { path: path.to_owned(), verbosity, block_size }
    }

    /// Indexes one file's bytes: every block of the source is filed in
    /// the returned index, later blocks superseding earlier ones on a
    /// full checksum collision.
    pub fn get_file_chunks(&self, file_path: &str, data: &Vec<u8>) -> (r: FileInfo)
        requires
            self.block_size >= 1,
            is_path_prefix(encode_utf8(self.path@), encode_utf8(file_path@)),
        ensures
            r.data.wf(),
            r.data.spec_block_size() == self.block_size,
            r.data.model() == index_model_of(data@, self.block_size as int),
            ({
                let pb = encode_utf8(self.path@);
                let qb = encode_utf8(file_path@);
                if pb.len() < qb.len() && pb.len() > 0 && pb[pb.len() - 1] != 47 {
                    self.path@ + seq!['/'] + r.path_suffix@ == file_path@
                } else {
                    self.path@ + r.path_suffix@ == file_path@
                }
            }),
    {
        let root = self.path.as_str();
        proof {
            assert(root.spec_bytes() == encode_utf8(self.path@));
            assert(is_path_prefix(root.spec_bytes(), file_path.spec_bytes()));
        }
        let suffix = match get_suffix(file_path, root) {
            Ok(s) => s,
            Err(_) => vstd::pervasive::unreached(),
        };
        let bs = self.block_size;
        let ghost src = data@;
        let mut index = BlockIndex::new(bs);
        let mut it = FileChunkIterator::new(data.clone(), bs);
        proof {
            lemma_block_count_props(0, bs as int);
        }
        loop
            invariant
                bs >= 1,
                src.len() <= usize::MAX,
                it.at_boundary(),
                it.spec_data() == src,
                it.spec_chunk_size() == bs,
                index.wf(),
                index.spec_block_size() == bs,
                index.model() == index_model_upto(src, bs as int, block_count(it.spec_offset(), bs as int)),
            ensures
                index.wf(),
                index.spec_block_size() == bs,
                index.model() == index_model_of(src, bs as int),
            decreases src.len() - it.spec_offset(),
        {
            let ghost off = it.spec_offset();
            let ghost len = src.len() as int;
            match it.next_chunk() {
                None => {
                    proof {
                        assert(off == len);
                    }
                    break ;
                },
                Some((w, s, info)) => {
                    proof {
                        let bsi = bs as int;
                        // the cursor stood at a whole number of blocks
                        assert(off % bsi == 0);
                        vstd::arithmetic::div_mod::lemma_fundamental_div_mod(off, bsi);
                        let k = off / bsi;
                        assert(off == bsi * k + off % bsi);
                        assert(bsi * k == k * bsi) by (nonlinear_arith);
                        assert(off == k * bsi);
                        vstd::arithmetic::div_mod::lemma_div_basics_4(off, bsi);
                        lemma_block_count_multiple(bsi, k);
                        assert(block_count(off, bsi) == k);
                        let blen = if len - off < bsi {
                            len - off
                        } else {
                            bsi
                        };
                        assert(block_len_at(len, bsi, k) == blen);
                        assert(block_data(src, bsi, k) == src.subrange(off, off + blen));
                        assert(info == block_info_at(len, bsi, k));
                        // room for one more entry
                        lemma_index_upto_dom(src, bsi, k);
                        assert(k <= k * bsi) by (nonlinear_arith)
                            requires
                                k >= 0,
                                bsi >= 1,
                        ;
                        assert(index.model().dom().len() <= k);
                        assert(k < usize::MAX);
                        // the walk advances to the next block boundary
                        if blen == bsi {
                            lemma_block_count_multiple(bsi, k + 1);
                            assert((k + 1) * bsi == off + blen) by (nonlinear_arith)
                                requires
                                    off == k * bsi,
                                    blen == bsi,
                            ;
                        } else {
                            assert(len <= (k + 1) * bsi) by (nonlinear_arith)
                                requires
                                    off == k * bsi,
                                    len - off < bsi,
                            ;
                            lemma_block_count_partial(len, bsi, k);
                        }
                    }
                    index.insert(w, s, info);
                },
            }
        }
        FileInfo { path_suffix: suffix, data: index }
    }
}

/// The matching side: scans a destination file against a frozen index.
pub struct Receiver {
    pub path: String,
    pub verbosity: Verbosity,
}

impl Receiver {
    pub fn new(&mut self, path: &str, verbosity: Verbosity) -> (r: Self)
        ensures
            r.path@ == path@,
            r.verbosity == verbosity,
            *final(self) == *old(self),
    {
        Receiver { path: path.to_owned(), verbosity }
    }

    /// Tests one window against the index: a `Common` region comes back
    /// exactly when weak and strong checksums are filed and the filed
    /// block is as long as the window.
    pub fn check_is_identical(&self, slice: &[u8], offset: usize, file_info: &FileInfo) -> (r:
        Option<Common>)
        requires
            file_info.data.wf(),
        ensures
            r == match_at(file_info.data.model(), slice@, offset as int),
    {
        let weak = adler32(slice);
        if file_info.data.has_weak(weak) {
            let strong = md5_digest(slice);
            match file_info.data.lookup(weak, &strong) {
                Some(info) => {
                    if info.size == slice.len() {
                        Some(Common { src_begin: info.begin, dst_begin: offset, size: slice.len() })
                    } else {
                        None
                    }
                },
                None => None,
            }
        } else {
            proof {
                assert(!file_info.data.model().contains_key((weak, md5_of(slice@))));
            }
            None
        }
    }

    /// Scans the destination bytes against the index and reports the
    /// matched regions in ascending destination order.  The block size
    /// must be the one the index was built with.
    pub fn compare(&self, suffix: &str, file_info: &FileInfo, data: &Vec<u8>, chunk_size: usize)
        -> (r: Result<FileCompare, DiffError>)
        requires
            file_info.data.wf(),
        ensures
            r is Err <==> chunk_size != file_info.data.spec_block_size(),
            r matches Err(e) ==> e == DiffError::SizeMismatch,
            r matches Ok(fc) ==> {
                &&& fc.common@ == scan_from(
                    file_info.data.model(),
                    data@,
                    0,
                    chunk_size as int,
                )
                &&& fc.path_suffix@ == suffix@
            },
    {
        if chunk_size != file_info.data.block_size() {
            return Err(DiffError::SizeMismatch);
        }
        let bs = chunk_size;
        let len = data.len();
        let ghost m = file_info.data.model();
        let mut commons: Vec<Common> = Vec::new();
        let mut pos: usize = 0;
        if len == 0 {
            return Ok(FileCompare { path_suffix: suffix.to_owned(), common: commons });
        }
        let mut wl: usize = if len < bs {
            len
        } else {
            bs
        };
        let mut rw = RollingWeak::new(vstd::slice::slice_subrange(data.as_slice(), 0, wl));
        while pos < len
            invariant
                bs >= 1,
                len == data@.len(),
                pos <= len,
                file_info.data.wf(),
                m == file_info.data.model(),
                pos < len ==> wl == window_len_at(len as int, bs as int, pos as int),
                pos < len ==> rw.is_for(data@.subrange(pos as int, pos as int + wl as int)),
                commons@ + scan_from(m, data@, pos as int, bs as int) == scan_from(
                    m,
                    data@,
                    0,
                    bs as int,
                ),
            decreases len - pos,
        {
            let ghost win = data@.subrange(pos as int, pos as int + wl as int);
            let weak = rw.hash(Ghost(win));
            let mut hit: Option<ChunkInfo> = None;
            if file_info.data.has_weak(weak) {
                let window = vstd::slice::slice_subrange(data.as_slice(), pos, pos + wl);
                let strong = md5_digest(window);
                hit = file_info.data.lookup(weak, &strong);
            } else {
                proof {
                    assert(!m.contains_key((weak, md5_of(win))));
                }
            }
            let mut matched: bool = false;
            let mut minfo = ChunkInfo { begin: 0, size: 0 };
            match hit {
                Some(info) => {
                    if info.size == wl {
                        matched = true;
                        minfo = info;
                    }
                },
                None => {},
            }
            let ghost key = index_key(win);
            proof {
                assert(matched <==> (m.contains_key(key) && m[key].size == wl));
                if matched {
                    assert(minfo == m[key]);
                }
            }
            let ghost old_pos = pos as int;
            let ghost old_wl = wl as int;
            let ghost old_commons = commons@;
            if matched {
                let c = Common { src_begin: minfo.begin, dst_begin: pos, size: wl };
                commons.push(c);
                pos = pos + wl;
                if pos < len {
                    let rem = len - pos;
                    wl = if rem < bs {
                        rem
                    } else {
                        bs
                    };
                    rw = RollingWeak::new(
                        vstd::slice::slice_subrange(data.as_slice(), pos, pos + wl),
                    );
                }
                proof {
                    assert(match_at(m, win, old_pos) == Some(c));
                    assert(scan_from(m, data@, old_pos, bs as int) == seq![c] + scan_from(
                        m,
                        data@,
                        old_pos + old_wl,
                        bs as int,
                    ));
                    assert(old_commons.push(c) + scan_from(m, data@, old_pos + old_wl, bs as int)
                        =~= old_commons + (seq![c] + scan_from(
                        m,
                        data@,
                        old_pos + old_wl,
                        bs as int,
                    )));
                }
            } else {
                let out = data[pos];
                pos = pos + 1;
                if pos < len {
                    if wl == bs && bs <= len - pos {
                        let inb = data[pos + (bs - 1)];
                        rw.roll(bs, out, inb, Ghost(win));
                        proof {
                            assert(win.drop_first().push(inb) =~= data@.subrange(
                                pos as int,
                                pos as int + bs as int,
                            ));
                        }
                    } else {
                        rw.shrink(wl, out, Ghost(win));
                        wl = wl - 1;
                        proof {
                            assert(win.drop_first() =~= data@.subrange(
                                pos as int,
                                pos as int + wl as int,
                            ));
                        }
                    }
                }
                proof {
                    assert(match_at(m, win, old_pos) is None);
                    assert(scan_from(m, data@, old_pos, bs as int) == scan_from(
                        m,
                        data@,
                        old_pos + 1,
                        bs as int,
                    ));
                }
            }
        }
        proof {
            assert(scan_from(m, data@, pos as int, bs as int) =~= Seq::<Common>::empty());
            assert(commons@ =~= scan_from(m, data@, 0, bs as int));
        }
        Ok(FileCompare { path_suffix: suffix.to_owned(), common: commons })
    }
}

/// The per-pair orchestrator: indexes the source, matches the
/// destination, and packages the result.
pub struct Client {
    pub sender: Sender,
    pub receiver: Receiver,
    pub block_size: usize,
    pub src: String,
    pub dst: String,
}

impl Client {
    /// A client is usable when its parts agree on the block size and on
    /// the source root.
    pub open spec fn wf(self) -> bool {
        &&& self.block_size >= 1
        &&& self.sender.block_size == self.block_size
        &&& self.sender.path@ == self.src@
    }

    pub fn new(src: String, dst: String, block_size: usize) -> (r: Self)
        requires
            block_size >= 1,
        ensures
            r.wf(),
            r.src@ == src@,
            r.dst@ == dst@,
            r.block_size == block_size,
            r.receiver.path@ == dst@,
    {
        let sender = Sender {
            verbosity: Verbosity::HIGH,
            block_size,
            path: src.clone(),
        };
        let receiver = Receiver { verbosity: Verbosity::HIGH, path: dst.clone() };
        Client { sender, receiver, block_size, src, dst }
    }

    /// Diffs one file pair.  A missing destination is no error: every
    /// byte of the source is new, and the region list is empty.
    pub fn run(&self, src_data: &Vec<u8>, dst_data: Option<&Vec<u8>>) -> (r: FileCompare)
        requires
            self.wf(),
        ensures
            r.common@ == match dst_data {
                None => Seq::<Common>::empty(),
                Some(d) => scan_from(
                    index_model_of(src_data@, self.block_size as int),
                    d@,
                    0,
                    self.block_size as int,
                ),
            },
            r.path_suffix@ == Seq::<char>::empty(),
    {
        proof {
            let pb = encode_utf8(self.sender.path@);
            assert(pb.subrange(0, pb.len() as int) =~= pb);
            assert(is_path_prefix(pb, encode_utf8(self.src@)));
        }
        let file_info = self.sender.get_file_chunks(self.src.as_str(), src_data);
        proof {
            // the file is the root itself, so its relative path is empty
            assert(file_info.path_suffix@ =~= Seq::<char>::empty());
        }
        match dst_data {
            None => FileCompare { path_suffix: file_info.path_suffix, common: Vec::new() },
            Some(d) => {
                match self.receiver.compare(
                    file_info.path_suffix.as_str(),
                    &file_info,
                    d,
                    self.block_size,
                ) {
                    Ok(fc) => fc,
                    Err(_) => vstd::pervasive::unreached(),
                }
            },
        }
    }
}

} // verus!
