//! Canonical binary encoding of directories, and its exact inverse.
//!
//! A directory is encoded as a 64-bit little-endian file count, the file
//! entries in name order, a 64-bit subdirectory count, then the
//! subdirectory entries in name order. Each entry is a length-prefixed
//! name, the 32 fingerprint bytes, the 64-bit content length and, for
//! files, one explicit executable-flag byte, so that "not executable" is
//! encoded and not inferred. Two directories with the same entries encode
//! byte-identically, whatever order they were built in; decoding rejects
//! anything but an exact canonical encoding.

use vstd::prelude::*;
use crate::digest::Digest;
use crate::digest::DigestView;
use crate::digest::Fingerprint;
use crate::digest::spec_digest_of;
use crate::directory::Directory;
use crate::directory::DirectoryNode;
use crate::directory::DirectoryNodeView;
use crate::directory::DirectoryView;
use crate::directory::FileNode;
use crate::directory::FileNodeView;
use crate::directory::StructuralError;
use crate::directory::dirs_view;
use crate::directory::files_view;

verus! {

/// The eight little-endian bytes of a length or count field.
pub open spec fn u64_le(n: u64) -> Seq<u8> {
    seq![
        n as u8,
        (n >> 8) as u8,
        (n >> 16) as u8,
        (n >> 24) as u8,
        (n >> 32) as u8,
        (n >> 40) as u8,
        (n >> 48) as u8,
        (n >> 56) as u8,
    ]
}

/// The value read back from eight little-endian bytes.
pub open spec fn u64_from_le(b: Seq<u8>) -> u64
    recommends
        b.len() == 8,
{
    (b[0] as u64) | ((b[1] as u64) << 8) | ((b[2] as u64) << 16) | ((b[3] as u64) << 24) | ((
    b[4] as u64) << 32) | ((b[5] as u64) << 40) | ((b[6] as u64) << 48) | ((b[7] as u64) << 56)
}

/// Reading back the little-endian bytes of a value yields the value.
pub proof fn lemma_u64_le_inverse(n: u64)
    ensures
        u64_from_le(u64_le(n)) == n,
{
    assert(((n as u8) as u64) | ((((n >> 8) as u8) as u64) << 8) | ((((n >> 16) as u8) as u64)
        << 16) | ((((n >> 24) as u8) as u64) << 24) | ((((n >> 32) as u8) as u64) << 32) | ((((n
        >> 40) as u8) as u64) << 40) | ((((n >> 48) as u8) as u64) << 48) | ((((n >> 56) as u8)
        as u64) << 56) == n) by (bit_vector);
}

/// Append the eight little-endian bytes of a value.
pub(crate) fn push_u64_le(out: &mut Vec<u8>, n: u64)
    ensures
        final(out)@ == old(out)@ + u64_le(n),
{
    let ghost base = out@;
    out.push(n as u8);
    out.push((n >> 8) as u8);
    out.push((n >> 16) as u8);
    out.push((n >> 24) as u8);
    out.push((n >> 32) as u8);
    out.push((n >> 40) as u8);
    out.push((n >> 48) as u8);
    out.push((n >> 56) as u8);
    proof {
        assert(out@ =~= base + u64_le(n));
    }
}

/// Append a copy of the given bytes.
pub(crate) fn push_bytes(out: &mut Vec<u8>, v: &Vec<u8>)
    ensures
        final(out)@ == old(out)@ + v@,
{
    let ghost base = out@;
    let mut i: usize = 0;
    while i < v.len()
        invariant
            i <= v@.len(),
            out@ == base + v@.take(i as int),
        decreases v@.len() - i,
    {
        out.push(v[i]);
        proof {
            assert(base + v@.take(i + 1) =~= (base + v@.take(i as int)).push(v@[i as int]));
        }
        i = i + 1;
    }
    proof {
        assert(v@.take(v@.len() as int) =~= v@);
    }
}

/// Encoded form of one file entry.
pub open spec fn enc_file(f: FileNodeView) -> Seq<u8> {
    u64_le(f.name.len() as u64) + f.name + f.digest.fingerprint + u64_le(f.digest.size_bytes)
        + seq![
        if f.is_executable {
            1u8
        } else {
            0u8
        },
    ]
}

/// Encoded form of one subdirectory entry.
pub open spec fn enc_dirnode(d: DirectoryNodeView) -> Seq<u8> {
    u64_le(d.name.len() as u64) + d.name + d.digest.fingerprint + u64_le(d.digest.size_bytes)
}

/// Encoded forms of a list of file entries, concatenated in order.
pub open spec fn enc_files(s: Seq<FileNodeView>) -> Seq<u8>
    decreases s.len(),
{
    if s.len() == 0 {
        Seq::empty()
    } else {
        enc_file(s[0]) + enc_files(s.drop_first())
    }
}

/// Encoded forms of a list of subdirectory entries, concatenated in order.
pub open spec fn enc_dirnodes(s: Seq<DirectoryNodeView>) -> Seq<u8>
    decreases s.len(),
{
    if s.len() == 0 {
        Seq::empty()
    } else {
        enc_dirnode(s[0]) + enc_dirnodes(s.drop_first())
    }
}

/// Canonical encoding of a whole directory.
pub open spec fn encode_directory(d: DirectoryView) -> Seq<u8> {
    u64_le(d.files.len() as u64) + enc_files(d.files) + u64_le(d.directories.len() as u64)
        + enc_dirnodes(d.directories)
}

/// Appending one file entry appends its encoding.
proof fn lemma_enc_files_snoc(s: Seq<FileNodeView>, f: FileNodeView)
    ensures
        enc_files(s.push(f)) == enc_files(s) + enc_file(f),
    decreases s.len(),
{
    if s.len() == 0 {
        assert(s.push(f)[0] == f);
        assert(s.push(f).drop_first() =~= Seq::<FileNodeView>::empty());
        assert(enc_files(Seq::<FileNodeView>::empty()) == Seq::<u8>::empty());
        assert(enc_files(s.push(f)) == enc_file(f) + Seq::<u8>::empty());
        assert(enc_files(s.push(f)) =~= enc_files(s) + enc_file(f));
    } else {
        assert(s.push(f)[0] == s[0]);
        assert(s.push(f).drop_first() =~= s.drop_first().push(f));
        lemma_enc_files_snoc(s.drop_first(), f);
        assert(enc_file(s[0]) + (enc_files(s.drop_first()) + enc_file(f)) =~= (enc_file(s[0])
            + enc_files(s.drop_first())) + enc_file(f));
    }
}

/// Appending one subdirectory entry appends its encoding.
proof fn lemma_enc_dirnodes_snoc(s: Seq<DirectoryNodeView>, d: DirectoryNodeView)
    ensures
        enc_dirnodes(s.push(d)) == enc_dirnodes(s) + enc_dirnode(d),
    decreases s.len(),
{
    if s.len() == 0 {
        assert(s.push(d)[0] == d);
        assert(s.push(d).drop_first() =~= Seq::<DirectoryNodeView>::empty());
        assert(enc_dirnodes(Seq::<DirectoryNodeView>::empty()) == Seq::<u8>::empty());
        assert(enc_dirnodes(s.push(d)) == enc_dirnode(d) + Seq::<u8>::empty());
        assert(enc_dirnodes(s.push(d)) =~= enc_dirnodes(s) + enc_dirnode(d));
    } else {
        assert(s.push(d)[0] == s[0]);
        assert(s.push(d).drop_first() =~= s.drop_first().push(d));
        lemma_enc_dirnodes_snoc(s.drop_first(), d);
        assert(enc_dirnode(s[0]) + (enc_dirnodes(s.drop_first()) + enc_dirnode(d)) =~= (enc_dirnode(
            s[0],
        ) + enc_dirnodes(s.drop_first())) + enc_dirnode(d));
    }
}

impl Directory {
    /// Serialize this directory into its canonical byte form.
    pub fn encode(&self) -> (r: Vec<u8>)
        ensures
            r@ == encode_directory(self@),
    {
        let mut out: Vec<u8> = Vec::new();
        push_u64_le(&mut out, self.files.len() as u64);
        let ghost fv = files_view(self.files@);
        let ghost head = u64_le(self.files@.len() as u64);
        proof {
            assert(enc_files(fv.take(0)) =~= Seq::<u8>::empty());
            assert(out@ =~= head + enc_files(fv.take(0)));
        }
        let mut i: usize = 0;
        while i < self.files.len()
            invariant
                i <= self.files@.len(),
                out@ == u64_le(self.files@.len() as u64) + enc_files(
                    files_view(self.files@).take(i as int),
                ),
            decreases self.files@.len() - i,
        {
            let ghost before = out@;
            let ghost fvl = files_view(self.files@);
            let f = &self.files[i];
            push_u64_le(&mut out, f.name.len() as u64);
            push_bytes(&mut out, &f.name);
            push_bytes(&mut out, &f.digest.fingerprint.bytes);
            push_u64_le(&mut out, f.digest.size_bytes);
            if f.is_executable {
                out.push(1u8);
            } else {
                out.push(0u8);
            }
            proof {
                assert(fvl[i as int] == self.files@[i as int]@);
                assert(out@ =~= before + enc_file(fvl[i as int]));
                assert(fvl.take(i + 1) =~= fvl.take(i as int).push(fvl[i as int]));
                lemma_enc_files_snoc(fvl.take(i as int), fvl[i as int]);
                assert(out@ =~= u64_le(self.files@.len() as u64) + enc_files(fvl.take(i + 1)));
            }
            i = i + 1;
        }
        proof {
            assert(files_view(self.files@).take(self.files@.len() as int) =~= files_view(
                self.files@,
            ));
        }
        push_u64_le(&mut out, self.directories.len() as u64);
        let ghost mid = out@;
        proof {
            assert(enc_dirnodes(dirs_view(self.directories@).take(0)) =~= Seq::<u8>::empty());
            assert(out@ =~= mid + enc_dirnodes(dirs_view(self.directories@).take(0)));
        }
        let mut j: usize = 0;
        while j < self.directories.len()
            invariant
                j <= self.directories@.len(),
                out@ == mid + enc_dirnodes(dirs_view(self.directories@).take(j as int)),
                mid == u64_le(self.files@.len() as u64) + enc_files(files_view(self.files@))
                    + u64_le(self.directories@.len() as u64),
            decreases self.directories@.len() - j,
        {
            let ghost before = out@;
            let ghost dvl = dirs_view(self.directories@);
            let d = &self.directories[j];
            push_u64_le(&mut out, d.name.len() as u64);
            push_bytes(&mut out, &d.name);
            push_bytes(&mut out, &d.digest.fingerprint.bytes);
            push_u64_le(&mut out, d.digest.size_bytes);
            proof {
                assert(dvl[j as int] == self.directories@[j as int]@);
                assert(out@ =~= before + enc_dirnode(dvl[j as int]));
                assert(dvl.take(j + 1) =~= dvl.take(j as int).push(dvl[j as int]));
                lemma_enc_dirnodes_snoc(dvl.take(j as int), dvl[j as int]);
                assert(out@ =~= mid + enc_dirnodes(dvl.take(j + 1)));
            }
            j = j + 1;
        }
        proof {
            assert(dirs_view(self.directories@).take(self.directories@.len() as int) =~= dirs_view(
                self.directories@,
            ));
            assert(out@ =~= encode_directory(self@));
        }
        out
    }

    /// The digest identifying this directory: the digest of its canonical
    /// encoding.
    pub fn digest(&self) -> (r: Digest)
        ensures
            r@ == spec_digest_of(encode_directory(self@)),
            r.wf(),
    {
        let bytes = self.encode();
        Digest::of_bytes(bytes.as_slice())
    }
}

/// Encoding the same directory twice yields byte-identical output: the
/// encoding is a function of the directory value alone.
pub proof fn lemma_encode_deterministic(d1: DirectoryView, d2: DirectoryView)
    requires
        d1 == d2,
    ensures
        encode_directory(d1) == encode_directory(d2),
{
}

/// Order invariance: canonical directories built from the same entries, in
/// whatever order, encode to the same bytes and hence the same digest.
pub proof fn lemma_encode_order_invariant(d1: DirectoryView, d2: DirectoryView)
    requires
        d1.wf(),
        d2.wf(),
        d1.files.to_multiset() == d2.files.to_multiset(),
        d1.directories.to_multiset() == d2.directories.to_multiset(),
    ensures
        encode_directory(d1) == encode_directory(d2),
        spec_digest_of(encode_directory(d1)) == spec_digest_of(encode_directory(d2)),
{
    crate::directory::lemma_canonical_unique(d1, d2);
}

/// Read an eight-byte little-endian field at the given position.
fn read_u64_le(b: &Vec<u8>, pos: usize) -> (r: u64)
    requires
        pos + 8 <= b@.len(),
    ensures
        r == u64_from_le(b@.subrange(pos as int, pos as int + 8)),
{
    let n = b.len();
    let r = (b[pos] as u64) | ((b[pos + 1] as u64) << 8) | ((b[pos + 2] as u64) << 16) | ((b[pos
        + 3] as u64) << 24) | ((b[pos + 4] as u64) << 32) | ((b[pos + 5] as u64) << 40) | ((b[pos
        + 6] as u64) << 48) | ((b[pos + 7] as u64) << 56);
    proof {
        let s = b@.subrange(pos as int, pos as int + 8);
        assert(s[0] == b@[pos as int]);
        assert(s[1] == b@[pos as int + 1]);
        assert(s[2] == b@[pos as int + 2]);
        assert(s[3] == b@[pos as int + 3]);
        assert(s[4] == b@[pos as int + 4]);
        assert(s[5] == b@[pos as int + 5]);
        assert(s[6] == b@[pos as int + 6]);
        assert(s[7] == b@[pos as int + 7]);
    }
    r
}

/// Copy the bytes of a half-open range into a fresh vector.
fn copy_range(b: &Vec<u8>, from: usize, to: usize) -> (r: Vec<u8>)
    requires
        from <= to <= b@.len(),
    ensures
        r@ == b@.subrange(from as int, to as int),
{
    let mut out: Vec<u8> = Vec::new();
    let mut i: usize = from;
    while i < to
        invariant
            from <= i <= to <= b@.len(),
            out@ == b@.subrange(from as int, i as int),
        decreases to - i,
    {
        out.push(b[i]);
        proof {
            assert(b@.subrange(from as int, i + 1) =~= b@.subrange(from as int, i as int).push(
                b@[i as int],
            ));
        }
        i = i + 1;
    }
    out
}

/// Parse an eight-byte little-endian field from the front.
pub open spec fn parse_u64(b: Seq<u8>) -> Option<(u64, Seq<u8>)> {
    if b.len() >= 8 {
        Some((u64_from_le(b.take(8)), b.skip(8)))
    } else {
        None
    }
}

/// Parse one encoded file entry from the front.
pub open spec fn parse_file(b: Seq<u8>) -> Option<(FileNodeView, Seq<u8>)> {
    match parse_u64(b) {
        Some((nlen, r1)) => if r1.len() >= nlen {
            let name = r1.take(nlen as int);
            let r2 = r1.skip(nlen as int);
            if r2.len() >= 32 {
                let fingerprint = r2.take(32);
                let r3 = r2.skip(32);
                match parse_u64(r3) {
                    Some((size, r4)) => if r4.len() >= 1 && (r4[0] == 0 || r4[0] == 1) {
                        Some(
                            (
                                FileNodeView {
                                    name,
                                    digest: DigestView { fingerprint, size_bytes: size },
                                    is_executable: r4[0] == 1,
                                },
                                r4.skip(1),
                            ),
                        )
                    } else {
                        None
                    },
                    None => None,
                }
            } else {
                None
            }
        } else {
            None
        },
        None => None,
    }
}

/// Parse one encoded subdirectory entry from the front.
pub open spec fn parse_dirnode(b: Seq<u8>) -> Option<(DirectoryNodeView, Seq<u8>)> {
    match parse_u64(b) {
        Some((nlen, r1)) => if r1.len() >= nlen {
            let name = r1.take(nlen as int);
            let r2 = r1.skip(nlen as int);
            if r2.len() >= 32 {
                let fingerprint = r2.take(32);
                let r3 = r2.skip(32);
                match parse_u64(r3) {
                    Some((size, r4)) => Some(
                        (
                            DirectoryNodeView {
                                name,
                                digest: DigestView { fingerprint, size_bytes: size },
                            },
                            r4,
                        ),
                    ),
                    None => None,
                }
            } else {
                None
            }
        } else {
            None
        },
        None => None,
    }
}

/// Parse a given number of file entries from the front.
pub open spec fn parse_files(b: Seq<u8>, n: nat) -> Option<(Seq<FileNodeView>, Seq<u8>)>
    decreases n,
{
    if n == 0 {
        Some((Seq::empty(), b))
    } else {
        match parse_file(b) {
            Some((f, r)) => match parse_files(r, (n - 1) as nat) {
                Some((fs, r2)) => Some((seq![f] + fs, r2)),
                None => None,
            },
            None => None,
        }
    }
}

/// Parse a given number of subdirectory entries from the front.
pub open spec fn parse_dirnodes(b: Seq<u8>, n: nat) -> Option<(Seq<DirectoryNodeView>, Seq<u8>)>
    decreases n,
{
    if n == 0 {
        Some((Seq::empty(), b))
    } else {
        match parse_dirnode(b) {
            Some((d, r)) => match parse_dirnodes(r, (n - 1) as nat) {
                Some((ds, r2)) => Some((seq![d] + ds, r2)),
                None => None,
            },
            None => None,
        }
    }
}

/// Parse a whole directory encoding: both counted entry lists, with
/// nothing left over. Canonical-form validity is checked separately.
pub open spec fn parse_directory_shape(b: Seq<u8>) -> Option<DirectoryView> {
    match parse_u64(b) {
        Some((nf, r1)) => match parse_files(r1, nf as nat) {
            Some((fs, r2)) => match parse_u64(r2) {
                Some((nd, r3)) => match parse_dirnodes(r3, nd as nat) {
                    Some((ds, r4)) => if r4.len() == 0 {
                        Some(DirectoryView { files: fs, directories: ds })
                    } else {
                        None
                    },
                    None => None,
                },
                None => None,
            },
            None => None,
        },
        None => None,
    }
}

/// Every entry of the directory is well-formed.
pub open spec fn entries_all_wf(d: DirectoryView) -> bool {
    &&& forall|i: int| 0 <= i < d.files.len() ==> (#[trigger] d.files[i]).wf()
    &&& forall|i: int| 0 <= i < d.directories.len() ==> (#[trigger] d.directories[i]).wf()
}

/// What decoding yields: the parsed directory when the bytes are a
/// canonical encoding of a well-formed directory, and nothing otherwise.
pub open spec fn parse_directory(b: Seq<u8>) -> Option<DirectoryView> {
    match parse_directory_shape(b) {
        Some(d) => if d.wf() {
            Some(d)
        } else {
            None
        },
        None => None,
    }
}

/// Why a byte string failed to decode.
#[derive(Clone, Copy, Debug, PartialEq, Eq, Structural)]
pub enum DecodeError {
    /// Truncated, trailing bytes, or a malformed field: the bytes are not
    /// an exact encoding of any directory.
    Malformed,
    /// The bytes parse, but the entries break a directory invariant.
    Invalid(StructuralError),
}

/// Parse one file entry at the given position, as [`parse_file`] does on
/// the remaining bytes.
fn parse_file_at(b: &Vec<u8>, pos: usize) -> (r: Result<(FileNode, usize), DecodeError>)
    requires
        pos <= b@.len(),
    ensures
        r matches Ok((f, np)) ==> pos < np <= b@.len() && parse_file(b@.skip(pos as int)) == Some(
            (f@, b@.skip(np as int)),
        ),
        r is Err ==> parse_file(b@.skip(pos as int)) is None,
{
    let n = b.len();
    let ghost rem = b@.skip(pos as int);
    if n - pos < 8 {
        return Err(DecodeError::Malformed);
    }
    let nlen = read_u64_le(b, pos);
    let pos1 = pos + 8;
    proof {
        assert(rem.take(8) =~= b@.subrange(pos as int, pos as int + 8));
        assert(rem.skip(8) =~= b@.skip(pos1 as int));
        assert(parse_u64(rem) == Some((nlen, b@.skip(pos1 as int))));
    }
    let ghost r1 = b@.skip(pos1 as int);
    if nlen > (n - pos1) as u64 {
        return Err(DecodeError::Malformed);
    }
    let nlen_us = nlen as usize;
    let pos2 = pos1 + nlen_us;
    let name = copy_range(b, pos1, pos2);
    proof {
        assert(r1.take(nlen as int) =~= b@.subrange(pos1 as int, pos2 as int));
        assert(r1.skip(nlen as int) =~= b@.skip(pos2 as int));
    }
    if n - pos2 < 32 {
        return Err(DecodeError::Malformed);
    }
    let pos3 = pos2 + 32;
    let fingerprint = copy_range(b, pos2, pos3);
    proof {
        assert(b@.skip(pos2 as int).take(32) =~= b@.subrange(pos2 as int, pos3 as int));
        assert(b@.skip(pos2 as int).skip(32) =~= b@.skip(pos3 as int));
    }
    if n - pos3 < 8 {
        return Err(DecodeError::Malformed);
    }
    let size = read_u64_le(b, pos3);
    let pos4 = pos3 + 8;
    proof {
        assert(b@.skip(pos3 as int).take(8) =~= b@.subrange(pos3 as int, pos4 as int));
        assert(b@.skip(pos3 as int).skip(8) =~= b@.skip(pos4 as int));
        assert(parse_u64(b@.skip(pos3 as int)) == Some((size, b@.skip(pos4 as int))));
    }
    if n - pos4 < 1 {
        return Err(DecodeError::Malformed);
    }
    let flag = b[pos4];
    proof {
        assert(b@.skip(pos4 as int)[0] == flag);
    }
    if flag > 1 {
        return Err(DecodeError::Malformed);
    }
    let pos5 = pos4 + 1;
    let f = FileNode {
        name,
        digest: Digest { fingerprint: Fingerprint { bytes: fingerprint }, size_bytes: size },
        is_executable: flag == 1,
    };
    proof {
        assert(b@.skip(pos4 as int).skip(1) =~= b@.skip(pos5 as int));
        let parsed = parse_file(rem);
        assert(parsed matches Some((pf, pr)) && pf =~= f@ && pr =~= b@.skip(pos5 as int));
    }
    Ok((f, pos5))
}

/// Parse one subdirectory entry at the given position, as
/// [`parse_dirnode`] does on the remaining bytes.
fn parse_dirnode_at(b: &Vec<u8>, pos: usize) -> (r: Result<(DirectoryNode, usize), DecodeError>)
    requires
        pos <= b@.len(),
    ensures
        r matches Ok((d, np)) ==> pos < np <= b@.len() && parse_dirnode(b@.skip(pos as int))
            == Some((d@, b@.skip(np as int))),
        r is Err ==> parse_dirnode(b@.skip(pos as int)) is None,
{
    let n = b.len();
    let ghost rem = b@.skip(pos as int);
    if n - pos < 8 {
        return Err(DecodeError::Malformed);
    }
    let nlen = read_u64_le(b, pos);
    let pos1 = pos + 8;
    proof {
        assert(rem.take(8) =~= b@.subrange(pos as int, pos as int + 8));
        assert(rem.skip(8) =~= b@.skip(pos1 as int));
        assert(parse_u64(rem) == Some((nlen, b@.skip(pos1 as int))));
    }
    let ghost r1 = b@.skip(pos1 as int);
    if nlen > (n - pos1) as u64 {
        return Err(DecodeError::Malformed);
    }
    let nlen_us = nlen as usize;
    let pos2 = pos1 + nlen_us;
    let name = copy_range(b, pos1, pos2);
    proof {
        assert(r1.take(nlen as int) =~= b@.subrange(pos1 as int, pos2 as int));
        assert(r1.skip(nlen as int) =~= b@.skip(pos2 as int));
    }
    if n - pos2 < 32 {
        return Err(DecodeError::Malformed);
    }
    let pos3 = pos2 + 32;
    let fingerprint = copy_range(b, pos2, pos3);
    proof {
        assert(b@.skip(pos2 as int).take(32) =~= b@.subrange(pos2 as int, pos3 as int));
        assert(b@.skip(pos2 as int).skip(32) =~= b@.skip(pos3 as int));
    }
    if n - pos3 < 8 {
        return Err(DecodeError::Malformed);
    }
    let size = read_u64_le(b, pos3);
    let pos4 = pos3 + 8;
    proof {
        assert(b@.skip(pos3 as int).take(8) =~= b@.subrange(pos3 as int, pos4 as int));
        assert(b@.skip(pos3 as int).skip(8) =~= b@.skip(pos4 as int));
        assert(parse_u64(b@.skip(pos3 as int)) == Some((size, b@.skip(pos4 as int))));
    }
    let d = DirectoryNode {
        name,
        digest: Digest { fingerprint: Fingerprint { bytes: fingerprint }, size_bytes: size },
    };
    proof {
        let parsed = parse_dirnode(rem);
        assert(parsed matches Some((pd, pr)) && pd =~= d@ && pr =~= b@.skip(pos4 as int));
    }
    Ok((d, pos4))
}

/// Splice a parsed prefix onto the outcome of parsing more file entries.
pub open spec fn files_then(
    acc: Seq<FileNodeView>,
    r: Option<(Seq<FileNodeView>, Seq<u8>)>,
) -> Option<(Seq<FileNodeView>, Seq<u8>)> {
    match r {
        Some((s, rest)) => Some((acc + s, rest)),
        None => None,
    }
}

/// Splice a parsed prefix onto the outcome of parsing more subdirectory
/// entries.
pub open spec fn dirs_then(
    acc: Seq<DirectoryNodeView>,
    r: Option<(Seq<DirectoryNodeView>, Seq<u8>)>,
) -> Option<(Seq<DirectoryNodeView>, Seq<u8>)> {
    match r {
        Some((s, rest)) => Some((acc + s, rest)),
        None => None,
    }
}

/// One parsed entry moves from the count to the accumulated prefix.
proof fn lemma_files_step(acc: Seq<FileNodeView>, b: Seq<u8>, n: nat, f: FileNodeView, r: Seq<u8>)
    requires
        n > 0,
        parse_file(b) == Some((f, r)),
    ensures
        files_then(acc, parse_files(b, n)) == files_then(acc.push(f), parse_files(r, (n - 1) as nat)),
{
    match parse_files(r, (n - 1) as nat) {
        Some((fs, r2)) => {
            assert(parse_files(b, n) == Some((seq![f] + fs, r2)));
            assert(acc + (seq![f] + fs) =~= acc.push(f) + fs);
        },
        None => {
            assert(parse_files(b, n) is None);
        },
    }
}

/// One parsed entry moves from the count to the accumulated prefix.
proof fn lemma_dirs_step(
    acc: Seq<DirectoryNodeView>,
    b: Seq<u8>,
    n: nat,
    d: DirectoryNodeView,
    r: Seq<u8>,
)
    requires
        n > 0,
        parse_dirnode(b) == Some((d, r)),
    ensures
        dirs_then(acc, parse_dirnodes(b, n)) == dirs_then(
            acc.push(d),
            parse_dirnodes(r, (n - 1) as nat),
        ),
{
    match parse_dirnodes(r, (n - 1) as nat) {
        Some((ds, r2)) => {
            assert(parse_dirnodes(b, n) == Some((seq![d] + ds, r2)));
            assert(acc + (seq![d] + ds) =~= acc.push(d) + ds);
        },
        None => {
            assert(parse_dirnodes(b, n) is None);
        },
    }
}

/// Find the first break of strict name order among file entries.
fn check_files_strict(files: &Vec<FileNode>) -> (r: Option<StructuralError>)
    ensures
        (r is None) == crate::directory::files_strictly_sorted(files_view(files@)),
        r == Some(StructuralError::DuplicateName) ==> !crate::directory::files_no_dup_names(
            files_view(files@),
        ),
        r == Some(StructuralError::OutOfOrder) ==> !crate::directory::files_sorted_le(
            files_view(files@),
        ),
        r is Some ==> r == Some(StructuralError::DuplicateName) || r == Some(
            StructuralError::OutOfOrder,
        ),
{
    let m = files.len();
    if m == 0 {
        return None;
    }
    let mut k: usize = 0;
    while k < m - 1
        invariant
            m == files@.len(),
            1 <= m,
            k < files@.len(),
            forall|a: int, b: int|
                0 <= a < b <= k ==> crate::directory::lex_lt(
                    #[trigger] files_view(files@)[a].name,
                    #[trigger] files_view(files@)[b].name,
                ),
        decreases files@.len() - k,
    {
        let ghost fv = files_view(files@);
        let le = crate::directory::name_le(&files[k].name, &files[k + 1].name);
        let eq = crate::directory::bytes_eq(&files[k].name, &files[k + 1].name);
        proof {
            assert(fv[k as int].name == files@[k as int]@.name);
            assert(fv[k + 1].name == files@[k + 1]@.name);
        }
        if eq {
            proof {
                assert(!crate::directory::files_strictly_sorted(fv)) by {
                    assert(!crate::directory::lex_lt(fv[k as int].name, fv[k + 1].name));
                }
                assert(!crate::directory::files_no_dup_names(fv)) by {
                    assert(fv[k as int].name == fv[k + 1].name);
                }
            }
            return Some(StructuralError::DuplicateName);
        }
        if !le {
            proof {
                assert(!crate::directory::files_strictly_sorted(fv)) by {
                    assert(!crate::directory::lex_lt(fv[k as int].name, fv[k + 1].name));
                }
                assert(!crate::directory::files_sorted_le(fv)) by {
                    assert(!crate::directory::lex_le(fv[k as int].name, fv[k + 1].name));
                }
            }
            return Some(StructuralError::OutOfOrder);
        }
        proof {
            assert(crate::directory::lex_lt(fv[k as int].name, fv[k + 1].name));
            assert forall|a: int| 0 <= a <= k implies crate::directory::lex_lt(
                #[trigger] fv[a].name,
                fv[k + 1].name,
            ) by {
                if a < k {
                    crate::directory::lemma_lex_lt_transitive(
                        fv[a].name,
                        fv[k as int].name,
                        fv[k + 1].name,
                    );
                }
            }
        }
        k = k + 1;
    }
    None
}

/// Find the first break of strict name order among subdirectory entries.
fn check_dirs_strict(dirs: &Vec<DirectoryNode>) -> (r: Option<StructuralError>)
    ensures
        (r is None) == crate::directory::dirs_strictly_sorted(dirs_view(dirs@)),
        r == Some(StructuralError::DuplicateName) ==> !crate::directory::dirs_no_dup_names(
            dirs_view(dirs@),
        ),
        r == Some(StructuralError::OutOfOrder) ==> !crate::directory::dirs_sorted_le(
            dirs_view(dirs@),
        ),
        r is Some ==> r == Some(StructuralError::DuplicateName) || r == Some(
            StructuralError::OutOfOrder,
        ),
{
    let m = dirs.len();
    if m == 0 {
        return None;
    }
    let mut k: usize = 0;
    while k < m - 1
        invariant
            m == dirs@.len(),
            1 <= m,
            k < dirs@.len(),
            forall|a: int, b: int|
                0 <= a < b <= k ==> crate::directory::lex_lt(
                    #[trigger] dirs_view(dirs@)[a].name,
                    #[trigger] dirs_view(dirs@)[b].name,
                ),
        decreases dirs@.len() - k,
    {
        let ghost dv = dirs_view(dirs@);
        let le = crate::directory::name_le(&dirs[k].name, &dirs[k + 1].name);
        let eq = crate::directory::bytes_eq(&dirs[k].name, &dirs[k + 1].name);
        proof {
            assert(dv[k as int].name == dirs@[k as int]@.name);
            assert(dv[k + 1].name == dirs@[k + 1]@.name);
        }
        if eq {
            proof {
                assert(!crate::directory::dirs_strictly_sorted(dv)) by {
                    assert(!crate::directory::lex_lt(dv[k as int].name, dv[k + 1].name));
                }
                assert(!crate::directory::dirs_no_dup_names(dv)) by {
                    assert(dv[k as int].name == dv[k + 1].name);
                }
            }
            return Some(StructuralError::DuplicateName);
        }
        if !le {
            proof {
                assert(!crate::directory::dirs_strictly_sorted(dv)) by {
                    assert(!crate::directory::lex_lt(dv[k as int].name, dv[k + 1].name));
                }
                assert(!crate::directory::dirs_sorted_le(dv)) by {
                    assert(!crate::directory::lex_le(dv[k as int].name, dv[k + 1].name));
                }
            }
            return Some(StructuralError::OutOfOrder);
        }
        proof {
            assert(crate::directory::lex_lt(dv[k as int].name, dv[k + 1].name));
            assert forall|a: int| 0 <= a <= k implies crate::directory::lex_lt(
                #[trigger] dv[a].name,
                dv[k + 1].name,
            ) by {
                if a < k {
                    crate::directory::lemma_lex_lt_transitive(
                        dv[a].name,
                        dv[k as int].name,
                        dv[k + 1].name,
                    );
                }
            }
        }
        k = k + 1;
    }
    None
}

/// Decode a canonical directory encoding: the exact inverse of
/// [`Directory::encode`].
///
/// Succeeds exactly when the bytes parse as a complete encoding whose
/// entries are well-formed, strictly sorted by name within each kind, and
/// free of duplicate or colliding names.
pub fn decode(bytes: &Vec<u8>) -> (r: Result<Directory, DecodeError>)
    ensures
        r matches Ok(dir) ==> parse_directory_shape(bytes@) == Some(dir@) && dir@.wf(),
        (r == Err::<Directory, DecodeError>(DecodeError::Malformed)) <==> parse_directory_shape(
            bytes@,
        ) is None,
        (r matches Err(e) && e matches DecodeError::Invalid(_)) <==> (parse_directory_shape(bytes@)
            matches Some(d) && !d.wf()),
        r == Err::<Directory, DecodeError>(DecodeError::Invalid(StructuralError::InvalidName))
            ==> (parse_directory_shape(bytes@) matches Some(d) && !entries_all_wf(d)),
        r == Err::<Directory, DecodeError>(DecodeError::Invalid(StructuralError::DuplicateName))
            ==> (parse_directory_shape(bytes@) matches Some(d) && (
        !crate::directory::files_no_dup_names(d.files) || !crate::directory::dirs_no_dup_names(
            d.directories,
        ))),
        r == Err::<Directory, DecodeError>(DecodeError::Invalid(StructuralError::OutOfOrder))
            ==> (parse_directory_shape(bytes@) matches Some(d) && (
        !crate::directory::files_sorted_le(d.files) || !crate::directory::dirs_sorted_le(
            d.directories,
        ))),
        r == Err::<Directory, DecodeError>(DecodeError::Invalid(StructuralError::NameCollision))
            ==> (parse_directory_shape(bytes@) matches Some(d)
            && !crate::directory::kinds_disjoint(d.files, d.directories)),
{
    let n = bytes.len();
    if n < 8 {
        return Err(DecodeError::Malformed);
    }
    let nf = read_u64_le(bytes, 0);
    proof {
        assert(bytes@.take(8) =~= bytes@.subrange(0, 8));
        assert(parse_u64(bytes@) == Some((nf, bytes@.skip(8))));
    }
    let mut pos: usize = 8;
    let mut files: Vec<FileNode> = Vec::new();
    let mut i: u64 = 0;
    proof {
        assert(files_view(files@) =~= Seq::<FileNodeView>::empty());
        assert(files_then(files_view(files@), parse_files(bytes@.skip(8), nf as nat))
            =~= parse_files(bytes@.skip(8), nf as nat)) by {
            match parse_files(bytes@.skip(8), nf as nat) {
                Some((fs, rest)) => {
                    assert(files_view(files@) + fs =~= fs);
                },
                None => {},
            }
        }
    }
    while i < nf
        invariant
            i <= nf,
            8 <= pos <= bytes@.len(),
            parse_u64(bytes@) == Some((nf, bytes@.skip(8))),
            files_view(files@).len() == i,
            files_then(files_view(files@), parse_files(bytes@.skip(pos as int), (nf - i) as nat))
                == parse_files(bytes@.skip(8), nf as nat),
        decreases nf - i,
    {
        let ghost acc = files_view(files@);
        match parse_file_at(bytes, pos) {
            Ok((f, np)) => {
                proof {
                    lemma_files_step(
                        acc,
                        bytes@.skip(pos as int),
                        (nf - i) as nat,
                        f@,
                        bytes@.skip(np as int),
                    );
                }
                files.push(f);
                proof {
                    assert(files_view(files@) =~= acc.push(f@));
                }
                pos = np;
                i = i + 1;
            },
            Err(_) => {
                proof {
                    assert(parse_files(bytes@.skip(pos as int), (nf - i) as nat) is None);
                    assert(parse_files(bytes@.skip(8), nf as nat) is None);
                }
                return Err(DecodeError::Malformed);
            },
        }
    }
    let ghost fs_parsed = files_view(files@);
    proof {
        assert(parse_files(bytes@.skip(pos as int), 0) == Some(
            (Seq::<FileNodeView>::empty(), bytes@.skip(pos as int)),
        ));
        assert(fs_parsed + Seq::<FileNodeView>::empty() =~= fs_parsed);
        assert(parse_files(bytes@.skip(8), nf as nat) == Some((fs_parsed, bytes@.skip(pos as int))));
    }
    if n - pos < 8 {
        return Err(DecodeError::Malformed);
    }
    let nd = read_u64_le(bytes, pos);
    let pos_mid = pos + 8;
    proof {
        assert(bytes@.skip(pos as int).take(8) =~= bytes@.subrange(pos as int, pos as int + 8));
        assert(bytes@.skip(pos as int).skip(8) =~= bytes@.skip(pos_mid as int));
        assert(parse_u64(bytes@.skip(pos as int)) == Some((nd, bytes@.skip(pos_mid as int))));
    }
    let ghost dirs_start = pos_mid;
    proof {
        assert(dirs_start - 8 == pos as int);
        assert(parse_files(bytes@.skip(8), nf as nat) == Some((fs_parsed, bytes@.skip(dirs_start - 8))));
        assert(parse_u64(bytes@.skip(dirs_start - 8)) == Some((nd, bytes@.skip(dirs_start as int))));
    }
    let mut pos2: usize = pos_mid;
    let mut dirs: Vec<DirectoryNode> = Vec::new();
    let mut j: u64 = 0;
    proof {
        assert(dirs_view(dirs@) =~= Seq::<DirectoryNodeView>::empty());
        assert(dirs_then(dirs_view(dirs@), parse_dirnodes(bytes@.skip(dirs_start as int), nd as nat))
            =~= parse_dirnodes(bytes@.skip(dirs_start as int), nd as nat)) by {
            match parse_dirnodes(bytes@.skip(dirs_start as int), nd as nat) {
                Some((ds, rest)) => {
                    assert(dirs_view(dirs@) + ds =~= ds);
                },
                None => {},
            }
        }
    }
    while j < nd
        invariant
            j <= nd,
            8 <= dirs_start <= pos2 <= bytes@.len(),
            parse_u64(bytes@) == Some((nf, bytes@.skip(8))),
            parse_files(bytes@.skip(8), nf as nat) == Some((fs_parsed, bytes@.skip(dirs_start - 8))),
            parse_u64(bytes@.skip(dirs_start - 8)) == Some((nd, bytes@.skip(dirs_start as int))),
            dirs_view(dirs@).len() == j,
            dirs_then(dirs_view(dirs@), parse_dirnodes(bytes@.skip(pos2 as int), (nd - j) as nat))
                == parse_dirnodes(bytes@.skip(dirs_start as int), nd as nat),
        decreases nd - j,
    {
        let ghost acc = dirs_view(dirs@);
        match parse_dirnode_at(bytes, pos2) {
            Ok((d, np)) => {
                proof {
                    lemma_dirs_step(
                        acc,
                        bytes@.skip(pos2 as int),
                        (nd - j) as nat,
                        d@,
                        bytes@.skip(np as int),
                    );
                }
                dirs.push(d);
                proof {
                    assert(dirs_view(dirs@) =~= acc.push(d@));
                }
                pos2 = np;
                j = j + 1;
            },
            Err(_) => {
                proof {
                    assert(parse_dirnodes(bytes@.skip(pos2 as int), (nd - j) as nat) is None);
                    assert(parse_dirnodes(bytes@.skip(dirs_start as int), nd as nat) is None);
                }
                return Err(DecodeError::Malformed);
            },
        }
    }
    let ghost ds_parsed = dirs_view(dirs@);
    proof {
        assert(parse_dirnodes(bytes@.skip(pos2 as int), 0) == Some(
            (Seq::<DirectoryNodeView>::empty(), bytes@.skip(pos2 as int)),
        ));
        assert(ds_parsed + Seq::<DirectoryNodeView>::empty() =~= ds_parsed);
        assert(parse_dirnodes(bytes@.skip(dirs_start as int), nd as nat) == Some(
            (ds_parsed, bytes@.skip(pos2 as int)),
        ));
    }
    if pos2 != n {
        proof {
            assert(bytes@.skip(pos2 as int).len() > 0);
        }
        return Err(DecodeError::Malformed);
    }
    let ghost shape = DirectoryView { files: fs_parsed, directories: ds_parsed };
    proof {
        assert(bytes@.skip(pos2 as int).len() == 0);
        assert(parse_directory_shape(bytes@) == Some(shape));
    }
    let files_good = crate::directory::files_entries_wf(&files);
    let dirs_good = crate::directory::dirs_entries_wf(&dirs);
    if !files_good || !dirs_good {
        proof {
            assert(shape.files == files_view(files@));
            assert(shape.directories == dirs_view(dirs@));
            assert(!entries_all_wf(shape)) by {
                if entries_all_wf(shape) {
                    assert forall|i: int| 0 <= i < files@.len() implies (#[trigger] files_view(
                        files@,
                    )[i]).wf() by {
                        assert(files_view(files@)[i] == shape.files[i]);
                    }
                    assert forall|i: int| 0 <= i < dirs@.len() implies (#[trigger] dirs_view(
                        dirs@,
                    )[i]).wf() by {
                        assert(dirs_view(dirs@)[i] == shape.directories[i]);
                    }
                    assert(false);
                }
            }
        }
        return Err(DecodeError::Invalid(StructuralError::InvalidName));
    }
    if let Some(e) = check_files_strict(&files) {
        return Err(DecodeError::Invalid(e));
    }
    if let Some(e) = check_dirs_strict(&dirs) {
        return Err(DecodeError::Invalid(e));
    }
    if crate::directory::has_kind_collision(&files, &dirs) {
        return Err(DecodeError::Invalid(StructuralError::NameCollision));
    }
    let dir = Directory { files, directories: dirs };
    proof {
        assert(crate::directory::files_no_dup_names(fs_parsed));
        assert(crate::directory::dirs_no_dup_names(ds_parsed));
        assert(fs_parsed.len() == i <= u64::MAX);
        assert(ds_parsed.len() == j <= u64::MAX);
        assert(dir@ =~= shape);
        assert(shape.wf());
    }
    Ok(dir)
}

/// Concatenation of byte strings is associative.
proof fn lemma_concat_assoc(a: Seq<u8>, b: Seq<u8>, c: Seq<u8>)
    ensures
        (a + b) + c == a + (b + c),
{
    assert((a + b) + c =~= a + (b + c));
}

/// A count field parses back to the value it encodes.
#[verifier::rlimit(100)]
#[verifier::spinoff_prover]
pub proof fn lemma_parse_u64_of_enc(n: u64, rest: Seq<u8>)
    ensures
        parse_u64(u64_le(n) + rest) == Some((n, rest)),
{
    let b = u64_le(n) + rest;
    assert(b.take(8) =~= u64_le(n));
    assert(b.skip(8) =~= rest);
    lemma_u64_le_inverse(n);
}

/// An encoded file entry parses back to the entry it encodes.
#[verifier::rlimit(100)]
#[verifier::spinoff_prover]
proof fn lemma_parse_file_of_enc(f: FileNodeView, rest: Seq<u8>)
    requires
        f.wf(),
    ensures
        parse_file(enc_file(f) + rest) == Some((f, rest)),
{
    let flag: u8 = if f.is_executable {
        1u8
    } else {
        0u8
    };
    let nlen = f.name.len() as u64;
    let t3 = u64_le(f.digest.size_bytes) + (seq![flag] + rest);
    let t2 = f.digest.fingerprint + t3;
    let t1 = f.name + t2;
    let b = enc_file(f) + rest;
    assert(b =~= u64_le(nlen) + t1);
    lemma_parse_u64_of_enc(nlen, t1);
    assert(parse_u64(b) == Some((nlen, t1)));
    assert(nlen as int == f.name.len());
    assert(t1.len() >= nlen);
    assert(t1.take(nlen as int) =~= f.name);
    assert(t1.skip(nlen as int) =~= t2);
    assert(t2.len() >= 32);
    assert(t2.take(32) =~= f.digest.fingerprint);
    assert(t2.skip(32) =~= t3);
    lemma_parse_u64_of_enc(f.digest.size_bytes, seq![flag] + rest);
    let r4 = seq![flag] + rest;
    assert(r4.len() >= 1 && r4[0] == flag);
    assert(r4.skip(1) =~= rest);
    assert(parse_file(b) matches Some((pf, pr)) && pf =~= f && pr == rest);
}

/// An encoded subdirectory entry parses back to the entry it encodes.
#[verifier::rlimit(100)]
#[verifier::spinoff_prover]
proof fn lemma_parse_dirnode_of_enc(d: DirectoryNodeView, rest: Seq<u8>)
    requires
        d.wf(),
    ensures
        parse_dirnode(enc_dirnode(d) + rest) == Some((d, rest)),
{
    let nlen = d.name.len() as u64;
    let t3 = u64_le(d.digest.size_bytes) + rest;
    let t2 = d.digest.fingerprint + t3;
    let t1 = d.name + t2;
    let b = enc_dirnode(d) + rest;
    assert(b =~= u64_le(nlen) + t1);
    lemma_parse_u64_of_enc(nlen, t1);
    assert(parse_u64(b) == Some((nlen, t1)));
    assert(nlen as int == d.name.len());
    assert(t1.take(nlen as int) =~= d.name);
    assert(t1.skip(nlen as int) =~= t2);
    assert(t2.len() >= 32);
    assert(t2.take(32) =~= d.digest.fingerprint);
    assert(t2.skip(32) =~= t3);
    lemma_parse_u64_of_enc(d.digest.size_bytes, rest);
    assert(parse_dirnode(b) matches Some((pd, pr)) && pd =~= d && pr == rest);
}

/// An encoded list of file entries parses back, leaving the rest.
#[verifier::rlimit(100)]
#[verifier::spinoff_prover]
proof fn lemma_parse_files_of_enc(s: Seq<FileNodeView>, rest: Seq<u8>)
    requires
        forall|i: int| 0 <= i < s.len() ==> (#[trigger] s[i]).wf(),
    ensures
        parse_files(enc_files(s) + rest, s.len() as nat) == Some((s, rest)),
    decreases s.len(),
{
    if s.len() == 0 {
        assert(enc_files(s) + rest =~= rest);
        assert(parse_files(rest, 0) == Some((Seq::<FileNodeView>::empty(), rest)));
        assert(s =~= Seq::<FileNodeView>::empty());
    } else {
        let t = s.drop_first();
        let tail_rest = enc_files(t) + rest;
        assert(enc_files(s) == enc_file(s[0]) + enc_files(t));
        lemma_concat_assoc(enc_file(s[0]), enc_files(t), rest);
        assert(enc_files(s) + rest == enc_file(s[0]) + tail_rest);
        assert(s[0].wf());
        lemma_parse_file_of_enc(s[0], tail_rest);
        assert forall|i: int| 0 <= i < t.len() implies (#[trigger] t[i]).wf() by {
            assert(t[i] == s[i + 1]);
        }
        lemma_parse_files_of_enc(t, rest);
        assert(parse_files(enc_files(s) + rest, s.len() as nat) == Some((seq![s[0]] + t, rest)));
        assert(seq![s[0]] + t =~= s);
    }
}

/// An encoded list of subdirectory entries parses back, leaving the rest.
#[verifier::rlimit(100)]
#[verifier::spinoff_prover]
proof fn lemma_parse_dirnodes_of_enc(s: Seq<DirectoryNodeView>, rest: Seq<u8>)
    requires
        forall|i: int| 0 <= i < s.len() ==> (#[trigger] s[i]).wf(),
    ensures
        parse_dirnodes(enc_dirnodes(s) + rest, s.len() as nat) == Some((s, rest)),
    decreases s.len(),
{
    if s.len() == 0 {
        assert(enc_dirnodes(s) + rest =~= rest);
        assert(parse_dirnodes(rest, 0) == Some((Seq::<DirectoryNodeView>::empty(), rest)));
        assert(s =~= Seq::<DirectoryNodeView>::empty());
    } else {
        let t = s.drop_first();
        let tail_rest = enc_dirnodes(t) + rest;
        assert(enc_dirnodes(s) == enc_dirnode(s[0]) + enc_dirnodes(t));
        assert(enc_dirnodes(s) + rest =~= enc_dirnode(s[0]) + tail_rest) by {
            assert((enc_dirnode(s[0]) + enc_dirnodes(t)) + rest =~= enc_dirnode(s[0]) + (
            enc_dirnodes(t) + rest));
        }
        assert(s[0].wf());
        lemma_parse_dirnode_of_enc(s[0], tail_rest);
        assert forall|i: int| 0 <= i < t.len() implies (#[trigger] t[i]).wf() by {
            assert(t[i] == s[i + 1]);
        }
        lemma_parse_dirnodes_of_enc(t, rest);
        assert(parse_dirnode(enc_dirnodes(s) + rest) == Some((s[0], tail_rest)));
        assert(parse_dirnodes(tail_rest, (s.len() - 1) as nat) == Some((t, rest)));
        assert(parse_dirnodes(enc_dirnodes(s) + rest, s.len() as nat) == Some(
            (seq![s[0]] + t, rest),
        ));
        assert(seq![s[0]] + t =~= s);
    }
}

/// Round trip: decoding the canonical encoding of any well-formed
/// directory yields that directory back, exactly.
#[verifier::rlimit(100)]
#[verifier::spinoff_prover]
pub proof fn lemma_decode_of_encode(d: DirectoryView)
    requires
        d.wf(),
    ensures
        parse_directory_shape(encode_directory(d)) == Some(d),
        parse_directory(encode_directory(d)) == Some(d),
{
    let nf = d.files.len() as u64;
    let nd = d.directories.len() as u64;
    let b = encode_directory(d);
    let rest1 = enc_files(d.files) + (u64_le(nd) + enc_dirnodes(d.directories));
    assert(b =~= u64_le(nf) + rest1);
    lemma_parse_u64_of_enc(nf, rest1);
    assert(nf as nat == d.files.len());
    lemma_parse_files_of_enc(d.files, u64_le(nd) + enc_dirnodes(d.directories));
    lemma_parse_u64_of_enc(nd, enc_dirnodes(d.directories));
    assert(nd as nat == d.directories.len());
    lemma_parse_dirnodes_of_enc(d.directories, Seq::<u8>::empty());
    assert(enc_dirnodes(d.directories) + Seq::<u8>::empty() =~= enc_dirnodes(d.directories));
    assert(parse_dirnodes(enc_dirnodes(d.directories), d.directories.len() as nat) == Some(
        (d.directories, Seq::<u8>::empty()),
    ));
    assert(parse_directory_shape(b) matches Some(p) && p =~= d);
}

/// Eight little-endian bytes spell back the value they were read as.
proof fn lemma_u64_from_le_inverse(t: Seq<u8>)
    requires
        t.len() == 8,
    ensures
        u64_le(u64_from_le(t)) == t,
{
    let b0 = t[0];
    let b1 = t[1];
    let b2 = t[2];
    let b3 = t[3];
    let b4 = t[4];
    let b5 = t[5];
    let b6 = t[6];
    let b7 = t[7];
    let n = u64_from_le(t);
    assert(n == (b0 as u64) | ((b1 as u64) << 8) | ((b2 as u64) << 16) | ((b3 as u64) << 24) | ((
    b4 as u64) << 32) | ((b5 as u64) << 40) | ((b6 as u64) << 48) | ((b7 as u64) << 56));
    assert({
        let m = (b0 as u64) | ((b1 as u64) << 8) | ((b2 as u64) << 16) | ((b3 as u64) << 24) | ((
        b4 as u64) << 32) | ((b5 as u64) << 40) | ((b6 as u64) << 48) | ((b7 as u64) << 56);
        m as u8 == b0 && (m >> 8) as u8 == b1 && (m >> 16) as u8 == b2 && (m >> 24) as u8 == b3 && (
        m >> 32) as u8 == b4 && (m >> 40) as u8 == b5 && (m >> 48) as u8 == b6 && (m >> 56) as u8
            == b7
    }) by (bit_vector);
    assert(u64_le(n) =~= t);
}

/// A parsed count field came from exactly its own encoding.
#[verifier::rlimit(100)]
#[verifier::spinoff_prover]
proof fn lemma_parse_u64_sound(b: Seq<u8>)
    ensures
        parse_u64(b) matches Some((n, r)) ==> u64_le(n) + r == b && r.len() + 8 == b.len(),
{
    if b.len() >= 8 {
        lemma_u64_from_le_inverse(b.take(8));
        assert(b.take(8) + b.skip(8) =~= b);
    }
}

/// A parsed file entry came from exactly its own encoding.
#[verifier::rlimit(100)]
#[verifier::spinoff_prover]
proof fn lemma_parse_file_sound(b: Seq<u8>)
    ensures
        parse_file(b) matches Some((f, r)) ==> enc_file(f) + r == b && r.len() < b.len()
            && f.digest.fingerprint.len() == 32,
{
    if parse_file(b) is Some {
        let (f, r) = parse_file(b).unwrap();
        lemma_parse_u64_sound(b);
        let (nlen, r1) = parse_u64(b).unwrap();
        let name = r1.take(nlen as int);
        let r2 = r1.skip(nlen as int);
        let fingerprint = r2.take(32);
        let r3 = r2.skip(32);
        lemma_parse_u64_sound(r3);
        let (size, r4) = parse_u64(r3).unwrap();
        assert(name.len() == nlen);
        assert(f.name =~= name && f.digest.fingerprint =~= fingerprint);
        assert(f.name.len() as u64 == nlen);
        assert(r1 =~= name + r2);
        assert(r2 =~= fingerprint + r3);
        assert(r4 =~= seq![r4[0]] + r4.skip(1));
        assert(seq![
            if f.is_executable {
                1u8
            } else {
                0u8
            },
        ] =~= seq![r4[0]]);
        assert(enc_file(f) + r =~= b);
    }
}

/// A parsed subdirectory entry came from exactly its own encoding.
#[verifier::spinoff_prover]
proof fn lemma_parse_dirnode_sound(b: Seq<u8>)
    requires
        parse_dirnode(b) is Some,
    ensures
        enc_dirnode(parse_dirnode(b).unwrap().0) + parse_dirnode(b).unwrap().1 == b,
        parse_dirnode(b).unwrap().1.len() < b.len(),
{
    let (d, r) = parse_dirnode(b).unwrap();
    lemma_parse_u64_sound(b);
    let (nlen, r1) = parse_u64(b).unwrap();
    let name = r1.take(nlen as int);
    let r2 = r1.skip(nlen as int);
    let fingerprint = r2.take(32);
    let r3 = r2.skip(32);
    lemma_parse_u64_sound(r3);
    assert(name.len() == nlen);
    assert(d.name =~= name && d.digest.fingerprint =~= fingerprint);
    assert(d.name.len() as u64 == nlen);
    assert(r1 =~= name + r2);
    assert(r2 =~= fingerprint + r3);
    assert(enc_dirnode(d) + r =~= b);
}

/// A parsed list of file entries came from exactly its own encoding.
#[verifier::rlimit(100)]
#[verifier::spinoff_prover]
proof fn lemma_parse_files_sound(b: Seq<u8>, n: nat)
    requires
        parse_files(b, n) is Some,
    ensures
        enc_files(parse_files(b, n).unwrap().0) + parse_files(b, n).unwrap().1 == b,
        parse_files(b, n).unwrap().0.len() == n,
    decreases n,
{
    let (fs, r) = parse_files(b, n).unwrap();
    if n == 0 {
        assert(enc_files(fs) + r =~= b);
    } else {
        lemma_parse_file_sound(b);
        let (f, r1) = parse_file(b).unwrap();
        lemma_parse_files_sound(r1, (n - 1) as nat);
        let (fs1, r2) = parse_files(r1, (n - 1) as nat).unwrap();
        assert(fs == seq![f] + fs1);
        assert(enc_files(fs) == enc_file(f) + enc_files(fs1)) by {
            assert(fs[0] == f);
            assert(fs.drop_first() =~= fs1);
        }
        assert((enc_file(f) + enc_files(fs1)) + r =~= enc_file(f) + (enc_files(fs1) + r));
        assert(enc_files(fs) + r == b);
    }
}

/// A parsed list of subdirectory entries came from exactly its own
/// encoding.
#[verifier::rlimit(100)]
#[verifier::spinoff_prover]
proof fn lemma_parse_dirnodes_sound(b: Seq<u8>, n: nat)
    requires
        parse_dirnodes(b, n) is Some,
    ensures
        enc_dirnodes(parse_dirnodes(b, n).unwrap().0) + parse_dirnodes(b, n).unwrap().1 == b,
        parse_dirnodes(b, n).unwrap().0.len() == n,
    decreases n,
{
    let (ds, r) = parse_dirnodes(b, n).unwrap();
    if n == 0 {
        assert(enc_dirnodes(ds) + r =~= b);
    } else {
        lemma_parse_dirnode_sound(b);
        let (d, r1) = parse_dirnode(b).unwrap();
        lemma_parse_dirnodes_sound(r1, (n - 1) as nat);
        let (ds1, r2) = parse_dirnodes(r1, (n - 1) as nat).unwrap();
        assert(ds == seq![d] + ds1);
        assert(enc_dirnodes(ds) == enc_dirnode(d) + enc_dirnodes(ds1)) by {
            assert(ds[0] == d);
            assert(ds.drop_first() =~= ds1);
        }
        assert((enc_dirnode(d) + enc_dirnodes(ds1)) + r =~= enc_dirnode(d) + (enc_dirnodes(ds1)
            + r));
        assert(enc_dirnodes(ds) + r == b);
    }
}

/// Decoding accepts only exact encodings: whatever parses, re-encodes to
/// the very bytes it was parsed from.
#[verifier::rlimit(100)]
#[verifier::spinoff_prover]
pub proof fn lemma_encode_of_decode(b: Seq<u8>)
    ensures
        parse_directory_shape(b) matches Some(d) ==> encode_directory(d) == b,
{
    if parse_directory_shape(b) is Some {
        let d = parse_directory_shape(b).unwrap();
        lemma_parse_u64_sound(b);
        let (nf, r1) = parse_u64(b).unwrap();
        lemma_parse_files_sound(r1, nf as nat);
        let (fs, r2) = parse_files(r1, nf as nat).unwrap();
        lemma_parse_u64_sound(r2);
        let (nd, r3) = parse_u64(r2).unwrap();
        lemma_parse_dirnodes_sound(r3, nd as nat);
        let (ds, r4) = parse_dirnodes(r3, nd as nat).unwrap();
        assert(r4.len() == 0);
        assert(d.files == fs && d.directories == ds);
        assert(d.files.len() as u64 == nf);
        assert(d.directories.len() as u64 == nd);
        assert(enc_dirnodes(ds) + r4 =~= enc_dirnodes(ds));
        assert(encode_directory(d) =~= b);
    }
}

/// Parse one directory encoding from the front, leaving what follows.
pub open spec fn parse_directory_prefix(b: Seq<u8>) -> Option<(DirectoryView, Seq<u8>)> {
    match parse_u64(b) {
        Some((nf, r1)) => match parse_files(r1, nf as nat) {
            Some((fs, r2)) => match parse_u64(r2) {
                Some((nd, r3)) => match parse_dirnodes(r3, nd as nat) {
                    Some((ds, r4)) => Some((DirectoryView { files: fs, directories: ds }, r4)),
                    None => None,
                },
                None => None,
            },
            None => None,
        },
        None => None,
    }
}

/// A directory's encoding, followed by anything, parses back to the
/// directory, leaving exactly what followed.
#[verifier::rlimit(100)]
#[verifier::spinoff_prover]
pub proof fn lemma_parse_prefix_of_enc(d: DirectoryView, rest: Seq<u8>)
    requires
        d.wf(),
    ensures
        parse_directory_prefix(encode_directory(d) + rest) == Some((d, rest)),
{
    let nf = d.files.len() as u64;
    let nd = d.directories.len() as u64;
    let t3 = enc_dirnodes(d.directories) + rest;
    let t2 = u64_le(nd) + t3;
    let t1 = enc_files(d.files) + t2;
    let b = encode_directory(d) + rest;
    assert(b =~= u64_le(nf) + t1);
    lemma_parse_u64_of_enc(nf, t1);
    assert(nf as nat == d.files.len());
    lemma_concat_assoc(enc_files(d.files), u64_le(nd), t3);
    lemma_parse_files_of_enc(d.files, t2);
    lemma_parse_u64_of_enc(nd, t3);
    assert(nd as nat == d.directories.len());
    lemma_parse_dirnodes_of_enc(d.directories, rest);
    assert(parse_directory_prefix(b) matches Some((p, pr)) && p =~= d && pr == rest);
}

} // verus!
