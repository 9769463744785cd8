//! Self-contained trees: a root directory together with every descendant
//! directory, keyed by digest, so that any nested reference resolves
//! without further lookups.
//!
//! [`assemble`] builds a tree bottom-up from a filesystem-like source:
//! each child directory is assembled first, encoded and digested, and the
//! parent stores only that digest; every descendant directory is collected
//! into the flattened child list.

use vstd::prelude::*;
use crate::codec::encode_directory;
use crate::codec::push_bytes;
use crate::codec::push_u64_le;
use crate::codec::u64_le;
use crate::digest::Digest;
use crate::digest::DigestView;
use crate::digest::spec_digest_of;
use crate::directory::Directory;
use crate::directory::DirectoryNode;
use crate::directory::DirectoryView;
use crate::directory::FileNode;
use crate::directory::FileNodeView;
use crate::directory::StructuralError;
use crate::directory::bytes_eq;
use crate::directory::clone_bytes;
use crate::directory::dirs_view;
use crate::directory::files_view;

verus! {

/// The views of a flattened child list.
pub open spec fn child_views(s: Seq<(Digest, Directory)>) -> Seq<(DigestView, DirectoryView)> {
    s.map_values(|p: (Digest, Directory)| (p.0@, p.1@))
}

/// Mathematical value of a tree.
#[verifier::ext_equal]
pub struct TreeView {
    pub root: DirectoryView,
    pub children: Seq<(DigestView, DirectoryView)>,
}

/// A root directory plus the flattened list of every descendant directory,
/// each keyed by the digest of its canonical encoding.
#[derive(Debug, PartialEq, Eq)]
pub struct Tree {
    pub root: Directory,
    pub children: Vec<(Digest, Directory)>,
}

impl View for Tree {
    type V = TreeView;

    open spec fn view(&self) -> TreeView {
        TreeView { root: self.root@, children: child_views(self.children@) }
    }
}

/// Some child entry carries this digest.
pub open spec fn has_child(children: Seq<(DigestView, DirectoryView)>, dg: DigestView) -> bool {
    exists|k: int| 0 <= k < children.len() && (#[trigger] children[k]).0 == dg
}

/// Every subdirectory reference of the directory resolves in the list.
pub open spec fn dir_refs_resolved(
    children: Seq<(DigestView, DirectoryView)>,
    d: DirectoryView,
) -> bool {
    forall|i: int|
        0 <= i < d.directories.len() ==> has_child(children, (#[trigger] d.directories[i]).digest)
}

/// Each child entry is keyed by the digest of its directory's encoding.
pub open spec fn children_keyed(children: Seq<(DigestView, DirectoryView)>) -> bool {
    forall|k: int|
        0 <= k < children.len() ==> (#[trigger] children[k]).0 == spec_digest_of(
            encode_directory(children[k].1),
        )
}

/// Every listed directory is canonical.
pub open spec fn children_dirs_wf(children: Seq<(DigestView, DirectoryView)>) -> bool {
    forall|k: int| 0 <= k < children.len() ==> (#[trigger] children[k]).1.wf()
}

/// Every subdirectory reference of every listed directory resolves.
pub open spec fn all_refs_resolved(children: Seq<(DigestView, DirectoryView)>) -> bool {
    forall|k: int|
        0 <= k < children.len() ==> dir_refs_resolved(children, (#[trigger] children[k]).1)
}

impl TreeView {
    /// Tree completeness: every subdirectory digest appearing anywhere in
    /// the tree resolves to a child entry, and each entry is keyed by the
    /// digest of its own directory's encoding.
    pub open spec fn complete(&self) -> bool {
        &&& dir_refs_resolved(self.children, self.root)
        &&& all_refs_resolved(self.children)
        &&& children_keyed(self.children)
    }
}

/// A tree reference to a digest that no child entry carries.
#[derive(Clone, Copy, Debug, PartialEq, Eq, Structural)]
pub struct DanglingReferenceError;

/// A resolved reference stays resolved when the list grows at the end.
proof fn lemma_has_child_extend(
    a: Seq<(DigestView, DirectoryView)>,
    b: Seq<(DigestView, DirectoryView)>,
    dg: DigestView,
)
    requires
        a.len() <= b.len(),
        b.take(a.len() as int) == a,
        has_child(a, dg),
    ensures
        has_child(b, dg),
{
    let k = choose|k: int| 0 <= k < a.len() && (#[trigger] a[k]).0 == dg;
    assert(b.take(a.len() as int)[k] == a[k]);
    assert(b.take(a.len() as int)[k] == b[k]);
    assert(b[k].0 == dg);
}

/// A fully resolved directory stays resolved when the list grows.
proof fn lemma_resolved_extend(
    a: Seq<(DigestView, DirectoryView)>,
    b: Seq<(DigestView, DirectoryView)>,
    d: DirectoryView,
)
    requires
        a.len() <= b.len(),
        b.take(a.len() as int) == a,
        dir_refs_resolved(a, d),
    ensures
        dir_refs_resolved(b, d),
{
    assert forall|i: int| 0 <= i < d.directories.len() implies has_child(
        b,
        (#[trigger] d.directories[i]).digest,
    ) by {
        lemma_has_child_extend(a, b, d.directories[i].digest);
    }
}

/// A prefix of a prefix is a prefix.
proof fn lemma_prefix_trans(
    a: Seq<(DigestView, DirectoryView)>,
    b: Seq<(DigestView, DirectoryView)>,
    c: Seq<(DigestView, DirectoryView)>,
)
    requires
        a.len() <= b.len() <= c.len(),
        b.take(a.len() as int) == a,
        c.take(b.len() as int) == b,
    ensures
        c.take(a.len() as int) == a,
{
    assert forall|x: int| 0 <= x < a.len() implies c.take(a.len() as int)[x] == a[x] by {
        assert(c.take(b.len() as int)[x] == c[x]);
        assert(b.take(a.len() as int)[x] == b[x]);
        assert(c.take(a.len() as int)[x] == c[x]);
    }
    assert(c.take(a.len() as int) =~= a);
}

/// One file of a directory about to be assembled: its name, its content
/// bytes, and its executable flag.
pub struct SourceFile {
    pub name: Vec<u8>,
    pub content: Vec<u8>,
    pub is_executable: bool,
}

/// A filesystem-like snapshot to assemble: files at this level, and named
/// subdirectories, each a source in turn.
pub struct SourceDir {
    pub files: Vec<SourceFile>,
    pub subdirs: Vec<(Vec<u8>, SourceDir)>,
}

/// The file entries that one level of a source yields: each file's content
/// digested.
pub open spec fn source_files_view(s: Seq<SourceFile>) -> Seq<FileNodeView> {
    s.map_values(
        |sf: SourceFile|
            FileNodeView {
                name: sf.name@,
                digest: spec_digest_of(sf.content@),
                is_executable: sf.is_executable,
            },
    )
}

/// A source that assembly accepts: at every level, file and subdirectory
/// names are valid, unique within their kind, and disjoint across kinds,
/// and the entry counts fit the encoding's count fields.
pub open spec fn source_ok(s: SourceDir) -> bool
    decreases s,
{
    &&& s.files@.len() <= u64::MAX
    &&& s.subdirs@.len() <= u64::MAX
    &&& (forall|i: int|
        0 <= i < s.files@.len() ==> crate::directory::valid_name((#[trigger] s.files@[i]).name@))
    &&& (forall|i: int|
        0 <= i < s.subdirs@.len() ==> crate::directory::valid_name((#[trigger] s.subdirs@[i]).0@))
    &&& (forall|i: int, k: int|
        0 <= i < k < s.files@.len() ==> (#[trigger] s.files@[i]).name@ != (
        #[trigger] s.files@[k]).name@)
    &&& (forall|i: int, k: int|
        0 <= i < k < s.subdirs@.len() ==> (#[trigger] s.subdirs@[i]).0@ != (
        #[trigger] s.subdirs@[k]).0@)
    &&& (forall|i: int, k: int|
        0 <= i < s.files@.len() && 0 <= k < s.subdirs@.len() ==> (#[trigger] s.files@[i]).name@
            != (#[trigger] s.subdirs@[k]).0@)
    &&& (forall|i: int| 0 <= i < s.subdirs@.len() ==> source_ok((#[trigger] s.subdirs@[i]).1))
}

/// Assemble one directory bottom-up, pushing every descendant directory,
/// keyed by its digest, onto the flattened list.
#[verifier::rlimit(100)]
fn assemble_dir(src: &SourceDir, out: &mut Vec<(Digest, Directory)>) -> (r: Result<
    Directory,
    StructuralError,
>)
    requires
        children_keyed(child_views(old(out)@)),
        all_refs_resolved(child_views(old(out)@)),
        children_dirs_wf(child_views(old(out)@)),
    ensures
        old(out)@.len() <= final(out)@.len(),
        children_dirs_wf(child_views(final(out)@)),
        child_views(final(out)@).take(old(out)@.len() as int) == child_views(old(out)@),
        children_keyed(child_views(final(out)@)),
        all_refs_resolved(child_views(final(out)@)),
        r is Ok <==> source_ok(*src),
        r matches Ok(d) ==> {
            &&& d@.wf()
            &&& dir_refs_resolved(child_views(final(out)@), d@)
            &&& d@.files.to_multiset() == source_files_view(src.files@).to_multiset()
            &&& d@.directories.len() == src.subdirs@.len()
        },
    decreases *src,
{
    broadcast use vstd::seq_lib::group_to_multiset_ensures;

    let ghost base = child_views(out@);
    let mut files: Vec<FileNode> = Vec::new();
    proof {
        assert(files_view(files@) =~= source_files_view(src.files@).take(0));
    }
    let mut i: usize = 0;
    while i < src.files.len()
        invariant
            i <= src.files@.len(),
            files_view(files@) == source_files_view(src.files@).take(i as int),
            forall|idx: int|
                0 <= idx < i ==> (#[trigger] files_view(files@)[idx]).digest.fingerprint.len()
                    == 32,
        decreases src.files@.len() - i,
    {
        let ghost prevf = files_view(files@);
        let sf = &src.files[i];
        let fd = Digest::of_bytes(sf.content.as_slice());
        let node = FileNode {
            name: clone_bytes(&sf.name),
            digest: fd,
            is_executable: sf.is_executable,
        };
        proof {
            assert(node@ =~= source_files_view(src.files@)[i as int]);
        }
        files.push(node);
        proof {
            let sv = source_files_view(src.files@);
            assert(files_view(files@) =~= prevf.push(sv[i as int]));
            assert(sv.take(i + 1) =~= sv.take(i as int).push(sv[i as int]));
        }
        i = i + 1;
    }
    proof {
        assert(source_files_view(src.files@).take(src.files@.len() as int) =~= source_files_view(
            src.files@,
        ));
    }
    let mut dirnodes: Vec<DirectoryNode> = Vec::new();
    let mut j: usize = 0;
    while j < src.subdirs.len()
        invariant
            j <= src.subdirs@.len(),
            base == child_views(old(out)@),
            children_keyed(child_views(out@)),
            all_refs_resolved(child_views(out@)),
            children_dirs_wf(child_views(out@)),
            base.len() <= child_views(out@).len(),
            child_views(out@).take(base.len() as int) == base,
            dirs_view(dirnodes@).len() == j,
            forall|idx: int|
                0 <= idx < j ==> has_child(
                    child_views(out@),
                    (#[trigger] dirs_view(dirnodes@)[idx]).digest,
                ),
            forall|idx: int|
                0 <= idx < j ==> (#[trigger] dirs_view(dirnodes@)[idx]).name
                    == src.subdirs@[idx].0@,
            forall|idx: int|
                0 <= idx < j ==> (#[trigger] dirs_view(dirnodes@)[idx]).digest.fingerprint.len()
                    == 32,
            forall|idx: int| 0 <= idx < j ==> source_ok((#[trigger] src.subdirs@[idx]).1),
        decreases src.subdirs@.len() - j,
    {
        let ghost mid = child_views(out@);
        let child = match assemble_dir(&src.subdirs[j].1, out) {
            Ok(c) => c,
            Err(e) => {
                proof {
                    let nowv = child_views(out@);
                    assert(base.len() == old(out)@.len());
                    assert(mid.len() <= nowv.len());
                    lemma_prefix_trans(base, mid, nowv);
                    assert(nowv.len() == out@.len());
                    assert(!source_ok(*src)) by {
                        if source_ok(*src) {
                            assert(source_ok((src.subdirs@[j as int]).1));
                        }
                    }
                }
                return Err(e);
            },
        };
        let ghost after_call = child_views(out@);
        let cd = child.digest();
        let cd2 = cd.clone();
        let ghost dn_before = dirs_view(dirnodes@);
        dirnodes.push(DirectoryNode { name: clone_bytes(&src.subdirs[j].0), digest: cd });
        out.push((cd2, child));
        proof {
            let now = child_views(out@);
            assert(now =~= after_call.push((cd2@, child@)));
            assert(now.take(after_call.len() as int) =~= after_call);
            assert(now[after_call.len() as int].0 == spec_digest_of(encode_directory(child@)));
            assert(children_keyed(now)) by {
                assert forall|k: int| 0 <= k < now.len() implies (#[trigger] now[k]).0
                    == spec_digest_of(encode_directory(now[k].1)) by {
                    if k < after_call.len() {
                        assert(now[k] == after_call[k]);
                    }
                }
            }
            assert(children_dirs_wf(now)) by {
                assert forall|k: int| 0 <= k < now.len() implies (#[trigger] now[k]).1.wf() by {
                    if k < after_call.len() {
                        assert(now[k] == after_call[k]);
                    }
                }
            }
            assert(all_refs_resolved(now)) by {
                assert forall|k: int| 0 <= k < now.len() implies dir_refs_resolved(
                    now,
                    (#[trigger] now[k]).1,
                ) by {
                    if k < after_call.len() {
                        assert(now[k] == after_call[k]);
                        lemma_resolved_extend(after_call, now, after_call[k].1);
                    } else {
                        lemma_resolved_extend(after_call, now, child@);
                    }
                }
            }
            lemma_prefix_trans(mid, after_call, now);
            lemma_prefix_trans(base, mid, now);
            assert forall|idx: int| 0 <= idx < j + 1 implies has_child(
                now,
                (#[trigger] dirs_view(dirnodes@)[idx]).digest,
            ) by {
                if idx < j {
                    assert(dirs_view(dirnodes@)[idx] == dn_before[idx]);
                    lemma_has_child_extend(mid, now, dn_before[idx].digest);
                } else {
                    assert(dirs_view(dirnodes@)[idx].digest == cd@);
                    assert(now[after_call.len() as int].0 == cd@);
                }
            }
            assert forall|idx: int| 0 <= idx < j + 1 implies (#[trigger] dirs_view(
                dirnodes@,
            )[idx]).name == src.subdirs@[idx].0@ && dirs_view(
                dirnodes@,
            )[idx].digest.fingerprint.len() == 32 by {
                if idx < j {
                    assert(dirs_view(dirnodes@)[idx] == dn_before[idx]);
                }
            }
        }
        j = j + 1;
    }
    let ghost dn = dirs_view(dirnodes@);
    let ghost fv = files_view(files@);
    let ghost at_end = child_views(out@);
    proof {
        assert(fv == source_files_view(src.files@));
        assert(forall|idx: int|
            0 <= idx < fv.len() ==> (#[trigger] fv[idx]).name == src.files@[idx].name@);
        assert(fv.len() == src.files@.len());
        assert(dn.len() == src.subdirs@.len());
    }
    match Directory::new(files, dirnodes) {
        Ok(d) => {
            proof {
                assert(source_ok(*src)) by {
                    assert(crate::directory::entries_ok(fv, dn));
                    assert forall|i2: int|
                        0 <= i2 < src.files@.len() implies crate::directory::valid_name(
                        (#[trigger] src.files@[i2]).name@,
                    ) by {
                        assert(fv[i2].wf());
                    }
                    assert forall|i2: int|
                        0 <= i2 < src.subdirs@.len() implies crate::directory::valid_name(
                        (#[trigger] src.subdirs@[i2]).0@,
                    ) by {
                        assert(dn[i2].wf());
                    }
                    assert forall|i2: int, k2: int|
                        0 <= i2 < k2 < src.files@.len() implies (#[trigger] src.files@[i2]).name@
                        != (#[trigger] src.files@[k2]).name@ by {
                        assert(fv[i2].name != fv[k2].name);
                    }
                    assert forall|i2: int, k2: int|
                        0 <= i2 < k2 < src.subdirs@.len() implies (
                    #[trigger] src.subdirs@[i2]).0@ != (#[trigger] src.subdirs@[k2]).0@ by {
                        assert(dn[i2].name != dn[k2].name);
                    }
                    assert forall|i2: int, k2: int|
                        0 <= i2 < src.files@.len() && 0 <= k2 < src.subdirs@.len() implies (
                    #[trigger] src.files@[i2]).name@ != (#[trigger] src.subdirs@[k2]).0@ by {
                        assert(fv[i2].name != dn[k2].name);
                    }
                }
                assert(dir_refs_resolved(at_end, d@)) by {
                    assert forall|i2: int| 0 <= i2 < d@.directories.len() implies has_child(
                        at_end,
                        (#[trigger] d@.directories[i2]).digest,
                    ) by {
                        assert(d@.directories.contains(d@.directories[i2]));
                        assert(dn.to_multiset().count(d@.directories[i2]) > 0);
                        assert(dn.contains(d@.directories[i2]));
                        let k = choose|k: int| 0 <= k < dn.len() && dn[k] == d@.directories[i2];
                        assert(has_child(at_end, dn[k].digest));
                    }
                }
                assert(d@.directories.len() == d@.directories.to_multiset().len());
                assert(dn.len() == dn.to_multiset().len());
            }
            Ok(d)
        },
        Err(e) => {
            proof {
                assert(!source_ok(*src)) by {
                    if source_ok(*src) {
                        assert(crate::directory::entries_ok(fv, dn)) by {
                            assert forall|i2: int| 0 <= i2 < fv.len() implies (
                            #[trigger] fv[i2]).wf() by {
                                assert(crate::directory::valid_name(src.files@[i2].name@));
                            }
                            assert forall|i2: int| 0 <= i2 < dn.len() implies (
                            #[trigger] dn[i2]).wf() by {
                                assert(crate::directory::valid_name(src.subdirs@[i2].0@));
                            }
                            assert forall|i2: int, k2: int| 0 <= i2 < k2 < fv.len() implies (
                            #[trigger] fv[i2].name) != (#[trigger] fv[k2].name) by {
                                assert(src.files@[i2].name@ != src.files@[k2].name@);
                            }
                            assert forall|i2: int, k2: int| 0 <= i2 < k2 < dn.len() implies (
                            #[trigger] dn[i2].name) != (#[trigger] dn[k2].name) by {
                                assert(src.subdirs@[i2].0@ != src.subdirs@[k2].0@);
                            }
                            assert forall|i2: int, k2: int|
                                0 <= i2 < fv.len() && 0 <= k2 < dn.len() implies (
                            #[trigger] fv[i2].name) != (#[trigger] dn[k2].name) by {
                                assert(src.files@[i2].name@ != src.subdirs@[k2].0@);
                            }
                        }
                        assert(false);
                    }
                }
            }
            Err(e)
        },
    }
}

/// Assemble a whole tree from a filesystem-like source, bottom-up.
///
/// On success the tree is complete: its root is canonical, every
/// subdirectory digest anywhere in it resolves in the flattened child
/// list, and every child entry is keyed by the digest of its own
/// encoding. The root holds exactly the source's files, digested, and one
/// subdirectory entry per source subdirectory.
pub fn assemble(src: &SourceDir) -> (r: Result<Tree, StructuralError>)
    ensures
        r is Ok <==> source_ok(*src),
        r matches Ok(t) ==> {
            &&& t@.root.wf()
            &&& t@.complete()
            &&& children_dirs_wf(t@.children)
            &&& t@.root.files.to_multiset() == source_files_view(src.files@).to_multiset()
            &&& t@.root.directories.len() == src.subdirs@.len()
        },
{
    let mut children: Vec<(Digest, Directory)> = Vec::new();
    proof {
        assert(child_views(children@) =~= Seq::<(DigestView, DirectoryView)>::empty());
    }
    match assemble_dir(src, &mut children) {
        Ok(root) => {
            let t = Tree { root, children };
            Ok(t)
        },
        Err(e) => Err(e),
    }
}

impl Tree {
    /// Resolve a digest in the flattened child list.
    pub fn get(&self, digest: &Digest) -> (r: Option<&Directory>)
        ensures
            r matches Some(d) ==> exists|k: int|
                0 <= k < self@.children.len() && (#[trigger] self@.children[k]) == (digest@, d@),
            r is None ==> !has_child(self@.children, digest@),
    {
        let mut k: usize = 0;
        while k < self.children.len()
            invariant
                k <= self.children@.len(),
                forall|x: int|
                    0 <= x < k ==> (#[trigger] child_views(self.children@)[x]).0 != digest@,
            decreases self.children@.len() - k,
        {
            let entry = &self.children[k];
            let same = bytes_eq(&entry.0.fingerprint.bytes, &digest.fingerprint.bytes)
                && entry.0.size_bytes == digest.size_bytes;
            proof {
                assert(child_views(self.children@)[k as int] == (
                    self.children@[k as int].0@,
                    self.children@[k as int].1@,
                ));
            }
            if same {
                proof {
                    assert(self.children@[k as int].0@ =~= digest@);
                    assert(self@.children[k as int] == (digest@, self.children@[k as int].1@));
                }
                return Some(&self.children[k].1);
            }
            proof {
                if self.children@[k as int].0@ == digest@ {
                    assert(false);
                }
            }
            k = k + 1;
        }
        None
    }
}

/// Encoded forms of the listed directories, concatenated in order.
pub open spec fn enc_child_dirs(s: Seq<(DigestView, DirectoryView)>) -> Seq<u8>
    decreases s.len(),
{
    if s.len() == 0 {
        Seq::empty()
    } else {
        encode_directory(s[0].1) + enc_child_dirs(s.drop_first())
    }
}

/// Canonical encoding of a whole tree: the root's encoding, then the
/// child count, then each child directory's encoding in list order.
pub open spec fn encode_tree(t: TreeView) -> Seq<u8> {
    encode_directory(t.root) + u64_le(t.children.len() as u64) + enc_child_dirs(t.children)
}

/// Appending one child appends its directory's encoding.
proof fn lemma_enc_child_dirs_snoc(s: Seq<(DigestView, DirectoryView)>, c: (DigestView, DirectoryView))
    ensures
        enc_child_dirs(s.push(c)) == enc_child_dirs(s) + encode_directory(c.1),
    decreases s.len(),
{
    if s.len() == 0 {
        assert(s.push(c)[0] == c);
        assert(s.push(c).drop_first() =~= Seq::<(DigestView, DirectoryView)>::empty());
        assert(enc_child_dirs(Seq::<(DigestView, DirectoryView)>::empty()) == Seq::<u8>::empty());
        assert(enc_child_dirs(s.push(c)) == encode_directory(c.1) + Seq::<u8>::empty());
        assert(enc_child_dirs(s.push(c)) =~= enc_child_dirs(s) + encode_directory(c.1));
    } else {
        assert(s.push(c)[0] == s[0]);
        assert(s.push(c).drop_first() =~= s.drop_first().push(c));
        lemma_enc_child_dirs_snoc(s.drop_first(), c);
        assert(encode_directory(s[0].1) + (enc_child_dirs(s.drop_first()) + encode_directory(c.1))
            =~= (encode_directory(s[0].1) + enc_child_dirs(s.drop_first())) + encode_directory(
            c.1,
        ));
    }
}

impl Tree {
    /// Serialize this tree into its canonical byte form.
    pub fn encode(&self) -> (r: Vec<u8>)
        ensures
            r@ == encode_tree(self@),
    {
        let mut out = self.root.encode();
        push_u64_le(&mut out, self.children.len() as u64);
        let ghost head = encode_directory(self.root@) + u64_le(self.children@.len() as u64);
        proof {
            assert(enc_child_dirs(child_views(self.children@).take(0)) =~= Seq::<u8>::empty());
            assert(out@ =~= head + enc_child_dirs(child_views(self.children@).take(0)));
        }
        let mut k: usize = 0;
        while k < self.children.len()
            invariant
                k <= self.children@.len(),
                out@ == (encode_directory(self.root@) + u64_le(self.children@.len() as u64))
                    + enc_child_dirs(child_views(self.children@).take(k as int)),
            decreases self.children@.len() - k,
        {
            let ghost before = out@;
            let ghost cv = child_views(self.children@);
            let enc = self.children[k].1.encode();
            push_bytes(&mut out, &enc);
            proof {
                assert(cv[k as int].1 == self.children@[k as int].1@);
                assert(cv.take(k + 1) =~= cv.take(k as int).push(cv[k as int]));
                lemma_enc_child_dirs_snoc(cv.take(k as int), cv[k as int]);
                assert(out@ =~= (encode_directory(self.root@) + u64_le(
                    self.children@.len() as u64,
                )) + enc_child_dirs(cv.take(k + 1)));
            }
            k = k + 1;
        }
        proof {
            let cv = child_views(self.children@);
            assert(cv.take(cv.len() as int) =~= cv);
            assert(out@ =~= encode_tree(self@));
        }
        out
    }

    /// The digest identifying this tree: the digest of its canonical
    /// encoding.
    pub fn digest(&self) -> (r: Digest)
        ensures
            r@ == spec_digest_of(encode_tree(self@)),
            r.wf(),
    {
        let bytes = self.encode();
        Digest::of_bytes(bytes.as_slice())
    }
}

impl Tree {
    /// Resolve a digest that the tree is expected to carry; a digest
    /// absent from the flattened child list is a dangling reference.
    pub fn resolve(&self, digest: &Digest) -> (r: Result<&Directory, DanglingReferenceError>)
        ensures
            r matches Ok(d) ==> exists|k: int|
                0 <= k < self@.children.len() && (#[trigger] self@.children[k]) == (digest@, d@),
            r is Err <==> !has_child(self@.children, digest@),
    {
        match self.get(digest) {
            Some(d) => {
                proof {
                    let k = choose|k: int|
                        0 <= k < self@.children.len() && (#[trigger] self@.children[k]) == (
                            digest@,
                            d@,
                        );
                    assert(self@.children[k].0 == digest@);
                }
                Ok(d)
            },
            None => Err(DanglingReferenceError),
        }
    }
}

/// Parse the given number of child directories from the front, rebuilding
/// each entry's key as the digest of its encoding.
pub open spec fn parse_tree_children(b: Seq<u8>, n: nat) -> Option<
    (Seq<(DigestView, DirectoryView)>, Seq<u8>),
>
    decreases n,
{
    if n == 0 {
        Some((Seq::empty(), b))
    } else {
        match crate::codec::parse_directory_prefix(b) {
            Some((d, r)) => match parse_tree_children(r, (n - 1) as nat) {
                Some((cs, r2)) => Some(
                    (seq![(spec_digest_of(encode_directory(d)), d)] + cs, r2),
                ),
                None => None,
            },
            None => None,
        }
    }
}

/// Parse a whole tree encoding: the root directory, then the counted child
/// directories, with nothing left over.
pub open spec fn parse_tree(b: Seq<u8>) -> Option<TreeView> {
    match crate::codec::parse_directory_prefix(b) {
        Some((root, r1)) => match crate::codec::parse_u64(r1) {
            Some((n, r2)) => match parse_tree_children(r2, n as nat) {
                Some((cs, r3)) => if r3.len() == 0 {
                    Some(TreeView { root, children: cs })
                } else {
                    None
                },
                None => None,
            },
            None => None,
        },
        None => None,
    }
}

/// An encoded child list parses back, leaving the rest; the rebuilt keys
/// are the original keys, since each key is the digest of its directory's
/// encoding.
#[verifier::rlimit(100)]
#[verifier::spinoff_prover]
proof fn lemma_parse_tree_children_of_enc(cs: Seq<(DigestView, DirectoryView)>, rest: Seq<u8>)
    requires
        children_keyed(cs),
        children_dirs_wf(cs),
    ensures
        parse_tree_children(enc_child_dirs(cs) + rest, cs.len() as nat) == Some((cs, rest)),
    decreases cs.len(),
{
    if cs.len() == 0 {
        assert(enc_child_dirs(cs) + rest =~= rest);
        assert(cs =~= Seq::<(DigestView, DirectoryView)>::empty());
    } else {
        let t = cs.drop_first();
        let tail_rest = enc_child_dirs(t) + rest;
        assert(enc_child_dirs(cs) == encode_directory(cs[0].1) + enc_child_dirs(t));
        assert((encode_directory(cs[0].1) + enc_child_dirs(t)) + rest =~= encode_directory(
            cs[0].1,
        ) + tail_rest);
        assert(cs[0].1.wf());
        crate::codec::lemma_parse_prefix_of_enc(cs[0].1, tail_rest);
        assert(forall|k: int| 0 <= k < t.len() ==> (#[trigger] t[k]) == cs[k + 1]);
        lemma_parse_tree_children_of_enc(t, rest);
        assert(cs[0] == (spec_digest_of(encode_directory(cs[0].1)), cs[0].1));
        assert(parse_tree_children(enc_child_dirs(cs) + rest, cs.len() as nat) == Some(
            (seq![cs[0]] + t, rest),
        ));
        assert(seq![cs[0]] + t =~= cs);
    }
}

/// The root parses off the front of a tree encoding.
#[verifier::rlimit(100)]
#[verifier::spinoff_prover]
proof fn lemma_parse_tree_head(t: TreeView)
    requires
        t.root.wf(),
    ensures
        crate::codec::parse_directory_prefix(encode_tree(t)) == Some(
            (t.root, u64_le(t.children.len() as u64) + enc_child_dirs(t.children)),
        ),
{
    let n = t.children.len() as u64;
    let t1 = u64_le(n) + enc_child_dirs(t.children);
    assert(encode_tree(t) == encode_directory(t.root) + t1) by {
        assert((encode_directory(t.root) + u64_le(n)) + enc_child_dirs(t.children)
            =~= encode_directory(t.root) + (u64_le(n) + enc_child_dirs(t.children)));
    }
    crate::codec::lemma_parse_prefix_of_enc(t.root, t1);
}

/// With the root and the child list parsed, the whole tree parses.
#[verifier::rlimit(100)]
#[verifier::spinoff_prover]
proof fn lemma_parse_tree_tail(b: Seq<u8>, root: DirectoryView, cs: Seq<(DigestView, DirectoryView)>)
    requires
        cs.len() <= u64::MAX,
        crate::codec::parse_directory_prefix(b) == Some(
            (root, u64_le(cs.len() as u64) + enc_child_dirs(cs)),
        ),
        parse_tree_children(enc_child_dirs(cs), cs.len() as nat) == Some(
            (cs, Seq::<u8>::empty()),
        ),
    ensures
        parse_tree(b) == Some(TreeView { root, children: cs }),
{
    let n = cs.len() as u64;
    assert(crate::codec::parse_u64(u64_le(n) + enc_child_dirs(cs)) == Some(
        (n, enc_child_dirs(cs)),
    )) by {
        crate::codec::lemma_parse_u64_of_enc(n, enc_child_dirs(cs));
    }
    assert(n as nat == cs.len());
}

/// Both tree invariants of the flattened child list: keys are encoding
/// digests, and every listed directory is canonical. Kept opaque so that
/// proofs can bring its quantifiers into scope only where needed.
#[verifier::opaque]
pub open spec fn children_canonical(cs: Seq<(DigestView, DirectoryView)>) -> bool {
    children_keyed(cs) && children_dirs_wf(cs)
}

/// The two child-list invariants make the list canonical.
pub proof fn lemma_children_canonical(cs: Seq<(DigestView, DirectoryView)>)
    requires
        children_keyed(cs),
        children_dirs_wf(cs),
    ensures
        children_canonical(cs),
{
    reveal(children_canonical);
}

/// Tree round trip: the canonical encoding of any tree whose directories
/// are canonical and whose keys are the digests of their encodings parses
/// back to the tree, exactly.
#[verifier::rlimit(100)]
#[verifier::spinoff_prover]
pub proof fn lemma_parse_tree_of_encode(root: DirectoryView, cs: Seq<(DigestView, DirectoryView)>)
    requires
        root.wf(),
        cs.len() <= u64::MAX,
        children_canonical(cs),
    ensures
        parse_tree(encode_tree(TreeView { root, children: cs })) == Some(
            TreeView { root, children: cs },
        ),
{
    let t = TreeView { root, children: cs };
    lemma_parse_tree_children_step(cs);
    lemma_parse_tree_head(t);
    lemma_parse_tree_tail(encode_tree(t), root, cs);
}

/// A canonical child list, encoded with nothing after it, parses back
/// whole.
#[verifier::rlimit(100)]
#[verifier::spinoff_prover]
proof fn lemma_parse_tree_children_step(cs: Seq<(DigestView, DirectoryView)>)
    requires
        children_canonical(cs),
    ensures
        parse_tree_children(enc_child_dirs(cs), cs.len() as nat) == Some(
            (cs, Seq::<u8>::empty()),
        ),
{
    reveal(children_canonical);
    lemma_parse_tree_children_of_enc(cs, Seq::<u8>::empty());
    assert(enc_child_dirs(cs) + Seq::<u8>::empty() =~= enc_child_dirs(cs));
}


} // verus!
