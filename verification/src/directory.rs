//! One level of a file tree: named file entries and named subdirectory
//! entries, each carrying a digest.
//!
//! A [`Directory`] is canonical: both entry lists are strictly sorted by
//! name, names are non-empty and free of path separators, no name repeats
//! within a kind, and no name is both a file and a subdirectory. The
//! validating constructor [`Directory::new`] establishes all of this from
//! entries given in any order, so that semantically identical directories
//! are identical values.

use vstd::prelude::*;
use vstd::seq_lib::lemma_multiset_commutative;
use vstd::multiset::Multiset;
use crate::digest::Digest;
use crate::digest::DigestView;

verus! {

/// The path separator byte that names may not contain.
pub const SEPARATOR: u8 = 47;

/// Lexicographic order on byte strings: `a` is less than or equal to `b`.
pub open spec fn lex_le(a: Seq<u8>, b: Seq<u8>) -> bool
    decreases a.len(),
{
    if a.len() == 0 {
        true
    } else if b.len() == 0 {
        false
    } else if a[0] < b[0] {
        true
    } else if a[0] > b[0] {
        false
    } else {
        lex_le(a.drop_first(), b.drop_first())
    }
}

/// Strict lexicographic order on byte strings.
pub open spec fn lex_lt(a: Seq<u8>, b: Seq<u8>) -> bool {
    lex_le(a, b) && a != b
}

/// Any two byte strings are ordered.
pub proof fn lemma_lex_le_total(a: Seq<u8>, b: Seq<u8>)
    ensures
        lex_le(a, b) || lex_le(b, a),
    decreases a.len(),
{
    if a.len() == 0 || b.len() == 0 {
    } else if a[0] == b[0] {
        lemma_lex_le_total(a.drop_first(), b.drop_first());
    }
}

/// Byte strings below each other are equal.
pub proof fn lemma_lex_le_antisymmetric(a: Seq<u8>, b: Seq<u8>)
    requires
        lex_le(a, b),
        lex_le(b, a),
    ensures
        a == b,
    decreases a.len(),
{
    if a.len() == 0 {
        assert(b.len() == 0);
        assert(a =~= b);
    } else {
        assert(a[0] == b[0]);
        lemma_lex_le_antisymmetric(a.drop_first(), b.drop_first());
        assert(a =~= seq![a[0]] + a.drop_first());
        assert(b =~= seq![b[0]] + b.drop_first());
        assert(a =~= b);
    }
}

/// The lexicographic order is transitive.
pub proof fn lemma_lex_le_transitive(a: Seq<u8>, b: Seq<u8>, c: Seq<u8>)
    requires
        lex_le(a, b),
        lex_le(b, c),
    ensures
        lex_le(a, c),
    decreases a.len(),
{
    if a.len() == 0 || b.len() == 0 || c.len() == 0 {
    } else if a[0] == b[0] && b[0] == c[0] {
        lemma_lex_le_transitive(a.drop_first(), b.drop_first(), c.drop_first());
    }
}

/// The strict lexicographic order is transitive.
pub proof fn lemma_lex_lt_transitive(a: Seq<u8>, b: Seq<u8>, c: Seq<u8>)
    requires
        lex_lt(a, b),
        lex_lt(b, c),
    ensures
        lex_lt(a, c),
{
    lemma_lex_le_transitive(a, b, c);
    if a == c {
        lemma_lex_le_antisymmetric(a, b);
    }
}

/// Equal prefixes do not decide the order: it is settled by the remainders.
proof fn lemma_lex_le_common_prefix(a: Seq<u8>, b: Seq<u8>, i: int)
    requires
        0 <= i <= a.len(),
        i <= b.len(),
        a.take(i) == b.take(i),
    ensures
        lex_le(a, b) == lex_le(a.skip(i), b.skip(i)),
    decreases i,
{
    if i == 0 {
        assert(a.skip(0) =~= a);
        assert(b.skip(0) =~= b);
    } else {
        assert(a.take(i)[0] == a[0]);
        assert(b.take(i)[0] == b[0]);
        assert(a[0] == b[0]);
        if a.len() > 0 && b.len() > 0 && a[0] == b[0] {
            assert(a.drop_first().take(i - 1) =~= a.take(i).drop_first());
            assert(b.drop_first().take(i - 1) =~= b.take(i).drop_first());
            lemma_lex_le_common_prefix(a.drop_first(), b.drop_first(), i - 1);
            assert(a.drop_first().skip(i - 1) =~= a.skip(i));
            assert(b.drop_first().skip(i - 1) =~= b.skip(i));
        }
    }
}

/// Compare two names in lexicographic order.
pub fn name_le(a: &Vec<u8>, b: &Vec<u8>) -> (r: bool)
    ensures
        r == lex_le(a@, b@),
{
    let mut i: usize = 0;
    loop
        invariant
            i <= a@.len(),
            i <= b@.len(),
            a@.take(i as int) == b@.take(i as int),
        decreases a@.len() - i,
    {
        proof {
            lemma_lex_le_common_prefix(a@, b@, i as int);
        }
        if i >= a.len() {
            assert(a@.skip(i as int).len() == 0);
            return true;
        }
        if i >= b.len() {
            assert(b@.skip(i as int).len() == 0);
            assert(a@.skip(i as int).len() > 0);
            return false;
        }
        let x = a[i];
        let y = b[i];
        assert(a@.skip(i as int)[0] == x);
        assert(b@.skip(i as int)[0] == y);
        if x < y {
            return true;
        }
        if x > y {
            return false;
        }
        proof {
            assert(a@.take(i + 1) =~= b@.take(i + 1));
        }
        i = i + 1;
    }
}

/// A name is usable when it is non-empty, holds no path separator, and its
/// length fits the encoding's length field.
pub open spec fn valid_name(n: Seq<u8>) -> bool {
    &&& 0 < n.len() <= u64::MAX
    &&& forall|i: int| 0 <= i < n.len() ==> n[i] != SEPARATOR
}

/// Check a name for validity.
pub fn check_name(n: &Vec<u8>) -> (r: bool)
    ensures
        r == valid_name(n@),
{
    if n.len() == 0 {
        return false;
    }
    let mut i: usize = 0;
    while i < n.len()
        invariant
            i <= n@.len(),
            forall|j: int| 0 <= j < i ==> n@[j] != SEPARATOR,
        decreases n@.len() - i,
    {
        if n[i] == SEPARATOR {
            return false;
        }
        i = i + 1;
    }
    true
}

/// Mathematical value of a file entry.
#[verifier::ext_equal]
pub struct FileNodeView {
    pub name: Seq<u8>,
    pub digest: DigestView,
    pub is_executable: bool,
}

/// Mathematical value of a subdirectory entry.
#[verifier::ext_equal]
pub struct DirectoryNodeView {
    pub name: Seq<u8>,
    pub digest: DigestView,
}

/// Mathematical value of a directory.
#[verifier::ext_equal]
pub struct DirectoryView {
    pub files: Seq<FileNodeView>,
    pub directories: Seq<DirectoryNodeView>,
}

/// A named file: the digest of its content bytes and its executable flag.
#[derive(Debug, PartialEq, Eq)]
pub struct FileNode {
    pub name: Vec<u8>,
    pub digest: Digest,
    pub is_executable: bool,
}

impl View for FileNode {
    type V = FileNodeView;

    open spec fn view(&self) -> FileNodeView {
        FileNodeView { name: self.name@, digest: self.digest@, is_executable: self.is_executable }
    }
}

/// A named subdirectory: the digest of the child directory's canonical
/// encoding.
#[derive(Debug, PartialEq, Eq)]
pub struct DirectoryNode {
    pub name: Vec<u8>,
    pub digest: Digest,
}

impl View for DirectoryNode {
    type V = DirectoryNodeView;

    open spec fn view(&self) -> DirectoryNodeView {
        DirectoryNodeView { name: self.name@, digest: self.digest@ }
    }
}

/// One level of a file tree, in canonical (sorted, validated) form.
#[derive(Debug, PartialEq, Eq)]
pub struct Directory {
    pub files: Vec<FileNode>,
    pub directories: Vec<DirectoryNode>,
}

/// The views of a sequence of file entries.
pub open spec fn files_view(s: Seq<FileNode>) -> Seq<FileNodeView> {
    s.map_values(|f: FileNode| f@)
}

/// The views of a sequence of subdirectory entries.
pub open spec fn dirs_view(s: Seq<DirectoryNode>) -> Seq<DirectoryNodeView> {
    s.map_values(|d: DirectoryNode| d@)
}

impl View for Directory {
    type V = DirectoryView;

    open spec fn view(&self) -> DirectoryView {
        DirectoryView { files: files_view(self.files@), directories: dirs_view(self.directories@) }
    }
}

impl FileNodeView {
    /// Valid name and full-length fingerprint.
    pub open spec fn wf(&self) -> bool {
        valid_name(self.name) && self.digest.fingerprint.len() == 32
    }
}

impl DirectoryNodeView {
    /// Valid name and full-length fingerprint.
    pub open spec fn wf(&self) -> bool {
        valid_name(self.name) && self.digest.fingerprint.len() == 32
    }
}

/// File entries in strictly ascending name order.
pub open spec fn files_strictly_sorted(s: Seq<FileNodeView>) -> bool {
    forall|i: int, j: int| 0 <= i < j < s.len() ==> lex_lt(#[trigger] s[i].name, #[trigger] s[j].name)
}

/// Subdirectory entries in strictly ascending name order.
pub open spec fn dirs_strictly_sorted(s: Seq<DirectoryNodeView>) -> bool {
    forall|i: int, j: int| 0 <= i < j < s.len() ==> lex_lt(#[trigger] s[i].name, #[trigger] s[j].name)
}

/// File entries in ascending (not necessarily strict) name order.
pub open spec fn files_sorted_le(s: Seq<FileNodeView>) -> bool {
    forall|i: int, j: int| 0 <= i < j < s.len() ==> lex_le(#[trigger] s[i].name, #[trigger] s[j].name)
}

/// Subdirectory entries in ascending (not necessarily strict) name order.
pub open spec fn dirs_sorted_le(s: Seq<DirectoryNodeView>) -> bool {
    forall|i: int, j: int| 0 <= i < j < s.len() ==> lex_le(#[trigger] s[i].name, #[trigger] s[j].name)
}

/// No two file entries share a name.
pub open spec fn files_no_dup_names(s: Seq<FileNodeView>) -> bool {
    forall|i: int, j: int| 0 <= i < j < s.len() ==> (#[trigger] s[i].name) != (#[trigger] s[j].name)
}

/// No two subdirectory entries share a name.
pub open spec fn dirs_no_dup_names(s: Seq<DirectoryNodeView>) -> bool {
    forall|i: int, j: int| 0 <= i < j < s.len() ==> (#[trigger] s[i].name) != (#[trigger] s[j].name)
}

/// No name is used both by a file and by a subdirectory.
pub open spec fn kinds_disjoint(fs: Seq<FileNodeView>, ds: Seq<DirectoryNodeView>) -> bool {
    forall|i: int, j: int|
        0 <= i < fs.len() && 0 <= j < ds.len() ==> (#[trigger] fs[i].name) != (#[trigger] ds[j].name)
}

/// Entry lists that a directory may be built from: every entry well-formed,
/// no duplicate name within a kind, no name in both kinds.
pub open spec fn entries_ok(fs: Seq<FileNodeView>, ds: Seq<DirectoryNodeView>) -> bool {
    &&& forall|i: int| 0 <= i < fs.len() ==> (#[trigger] fs[i]).wf()
    &&& forall|i: int| 0 <= i < ds.len() ==> (#[trigger] ds[i]).wf()
    &&& fs.len() <= u64::MAX
    &&& ds.len() <= u64::MAX
    &&& files_no_dup_names(fs)
    &&& dirs_no_dup_names(ds)
    &&& kinds_disjoint(fs, ds)
}

impl DirectoryView {
    /// Canonical form: entries valid and unique as in [`entries_ok`], and
    /// both lists strictly sorted by name.
    pub open spec fn wf(&self) -> bool {
        &&& entries_ok(self.files, self.directories)
        &&& files_strictly_sorted(self.files)
        &&& dirs_strictly_sorted(self.directories)
    }
}

/// Prepending an element adds it to the multiset of the sequence.
proof fn lemma_singleton_concat_multiset<A>(e: A, t: Seq<A>)
    ensures
        (seq![e] + t).to_multiset() == t.to_multiset().insert(e),
{
    broadcast use vstd::seq_lib::group_to_multiset_ensures;

    lemma_multiset_commutative(seq![e], t);
    lemma_multiset_commutative(t, seq![e]);
    assert(t + seq![e] =~= t.push(e));
    assert(seq![e].to_multiset().add(t.to_multiset()) =~= t.to_multiset().add(
        seq![e].to_multiset(),
    ));
    assert((seq![e] + t).to_multiset() =~= t.to_multiset().insert(e));
}

/// Inserting an element anywhere adds it to the multiset of the sequence.
proof fn lemma_to_multiset_insert<A>(s: Seq<A>, j: int, e: A)
    requires
        0 <= j <= s.len(),
    ensures
        s.insert(j, e).to_multiset() == s.to_multiset().insert(e),
{
    broadcast use vstd::seq_lib::group_to_multiset_ensures;

    assert(s.insert(j, e) =~= s.take(j) + (seq![e] + s.skip(j)));
    lemma_multiset_commutative(s.take(j), seq![e] + s.skip(j));
    lemma_singleton_concat_multiset(e, s.skip(j));
    assert(s =~= s.take(j) + s.skip(j));
    lemma_multiset_commutative(s.take(j), s.skip(j));
    assert(s.take(j).to_multiset().add(s.skip(j).to_multiset().insert(e)) =~= s.to_multiset().insert(
        e,
    ));
}

/// Removing the last element removes it from the multiset of the sequence.
proof fn lemma_to_multiset_pop<A>(s: Seq<A>)
    requires
        s.len() > 0,
    ensures
        s.to_multiset() == s.drop_last().to_multiset().insert(s.last()),
{
    broadcast use vstd::seq_lib::group_to_multiset_ensures;

    assert(s =~= s.drop_last().push(s.last()));
}

/// Index at which a file entry of the given name belongs in a name-sorted
/// list.
fn file_insert_position(out: &Vec<FileNode>, name: &Vec<u8>) -> (j: usize)
    ensures
        j <= out@.len(),
        forall|k: int| 0 <= k < j ==> lex_le(#[trigger] files_view(out@)[k].name, name@),
        j < out@.len() ==> lex_le(name@, files_view(out@)[j as int].name),
{
    let mut j: usize = 0;
    loop
        invariant
            j <= out@.len(),
            forall|k: int| 0 <= k < j ==> lex_le(#[trigger] files_view(out@)[k].name, name@),
        decreases out@.len() - j,
    {
        if j == out.len() {
            return j;
        }
        let le = name_le(&out[j].name, name);
        proof {
            assert(files_view(out@)[j as int] == out@[j as int]@);
        }
        if !le {
            proof {
                lemma_lex_le_total(out@[j as int].name@, name@);
            }
            return j;
        }
        j = j + 1;
    }
}

/// Insert one file entry into a name-sorted list, keeping it sorted.
fn insert_file_sorted(out: &mut Vec<FileNode>, f: FileNode)
    requires
        files_sorted_le(files_view(old(out)@)),
    ensures
        files_view(final(out)@).to_multiset() == files_view(old(out)@).to_multiset().insert(f@),
        files_sorted_le(files_view(final(out)@)),
{
    let ghost ov = files_view(out@);
    let j = file_insert_position(out, &f.name);
    let ghost oldv = out@;
    out.insert(j, f);
    proof {
        assert(out@ =~= oldv.insert(j as int, f));
        oldv.insert_ensures(j as int, f);
        let nv = files_view(out@);
        assert(nv =~= ov.insert(j as int, f@)) by {
            ov.insert_ensures(j as int, f@);
            assert(nv.len() == ov.len() + 1);
            assert forall|k: int| 0 <= k < nv.len() implies nv[k] == ov.insert(j as int, f@)[k] by {
                assert(nv[k] == out@[k]@);
            }
        }
        lemma_to_multiset_insert(ov, j as int, f@);
        assert forall|a: int, b: int| 0 <= a < b < nv.len() implies lex_le(
            #[trigger] nv[a].name,
            #[trigger] nv[b].name,
        ) by {
            let ji = j as int;
            if b < ji {
                assert(nv[a] == ov[a] && nv[b] == ov[b]);
            } else if a < ji && b == ji {
                assert(nv[a] == ov[a] && nv[b] == f@);
            } else if a == ji {
                assert(nv[a] == f@ && nv[b] == ov[b - 1]);
                assert(lex_le(f@.name, ov[ji].name));
                if b - 1 > ji {
                    assert(lex_le(ov[ji].name, ov[b - 1].name));
                    lemma_lex_le_transitive(f@.name, ov[ji].name, ov[b - 1].name);
                }
            } else if a < ji {
                assert(nv[a] == ov[a] && nv[b] == ov[b - 1]);
                assert(lex_le(ov[a].name, f@.name));
                if a == b - 1 {
                    assert(false);
                } else {
                    assert(lex_le(ov[a].name, ov[b - 1].name));
                }
            } else {
                assert(nv[a] == ov[a - 1] && nv[b] == ov[b - 1]);
            }
        }
    }
}

/// Index at which a subdirectory entry of the given name belongs in a
/// name-sorted list.
fn dir_insert_position(out: &Vec<DirectoryNode>, name: &Vec<u8>) -> (j: usize)
    ensures
        j <= out@.len(),
        forall|k: int| 0 <= k < j ==> lex_le(#[trigger] dirs_view(out@)[k].name, name@),
        j < out@.len() ==> lex_le(name@, dirs_view(out@)[j as int].name),
{
    let mut j: usize = 0;
    loop
        invariant
            j <= out@.len(),
            forall|k: int| 0 <= k < j ==> lex_le(#[trigger] dirs_view(out@)[k].name, name@),
        decreases out@.len() - j,
    {
        if j == out.len() {
            return j;
        }
        let le = name_le(&out[j].name, name);
        proof {
            assert(dirs_view(out@)[j as int] == out@[j as int]@);
        }
        if !le {
            proof {
                lemma_lex_le_total(out@[j as int].name@, name@);
            }
            return j;
        }
        j = j + 1;
    }
}

/// Insert one subdirectory entry into a name-sorted list, keeping it sorted.
fn insert_dir_sorted(out: &mut Vec<DirectoryNode>, d: DirectoryNode)
    requires
        dirs_sorted_le(dirs_view(old(out)@)),
    ensures
        dirs_view(final(out)@).to_multiset() == dirs_view(old(out)@).to_multiset().insert(d@),
        dirs_sorted_le(dirs_view(final(out)@)),
{
    let ghost ov = dirs_view(out@);
    let j = dir_insert_position(out, &d.name);
    let ghost oldv = out@;
    out.insert(j, d);
    proof {
        assert(out@ =~= oldv.insert(j as int, d));
        oldv.insert_ensures(j as int, d);
        let nv = dirs_view(out@);
        assert(nv =~= ov.insert(j as int, d@)) by {
            ov.insert_ensures(j as int, d@);
            assert(nv.len() == ov.len() + 1);
            assert forall|k: int| 0 <= k < nv.len() implies nv[k] == ov.insert(j as int, d@)[k] by {
                assert(nv[k] == out@[k]@);
            }
        }
        lemma_to_multiset_insert(ov, j as int, d@);
        assert forall|a: int, b: int| 0 <= a < b < nv.len() implies lex_le(
            #[trigger] nv[a].name,
            #[trigger] nv[b].name,
        ) by {
            let ji = j as int;
            if b < ji {
                assert(nv[a] == ov[a] && nv[b] == ov[b]);
            } else if a < ji && b == ji {
                assert(nv[a] == ov[a] && nv[b] == d@);
            } else if a == ji {
                assert(nv[a] == d@ && nv[b] == ov[b - 1]);
                assert(lex_le(d@.name, ov[ji].name));
                if b - 1 > ji {
                    assert(lex_le(ov[ji].name, ov[b - 1].name));
                    lemma_lex_le_transitive(d@.name, ov[ji].name, ov[b - 1].name);
                }
            } else if a < ji {
                assert(nv[a] == ov[a] && nv[b] == ov[b - 1]);
                assert(lex_le(ov[a].name, d@.name));
                if a == b - 1 {
                    assert(false);
                } else {
                    assert(lex_le(ov[a].name, ov[b - 1].name));
                }
            } else {
                assert(nv[a] == ov[a - 1] && nv[b] == ov[b - 1]);
            }
        }
    }
}

/// Sort file entries by name; the entries themselves are unchanged.
fn sort_files(v: Vec<FileNode>) -> (r: Vec<FileNode>)
    ensures
        files_view(r@).to_multiset() == files_view(v@).to_multiset(),
        files_sorted_le(files_view(r@)),
{
    broadcast use vstd::seq_lib::group_to_multiset_ensures;

    let ghost orig = files_view(v@);
    let mut v = v;
    let mut out: Vec<FileNode> = Vec::new();
    proof {
        assert(files_view(out@) =~= Seq::<FileNodeView>::empty());
        assert(files_view(out@).to_multiset() =~= Multiset::<FileNodeView>::empty());
        assert(files_view(out@).to_multiset().add(files_view(v@).to_multiset()) =~= files_view(
            v@,
        ).to_multiset());
    }
    while v.len() > 0
        invariant
            files_view(out@).to_multiset().add(files_view(v@).to_multiset())
                == orig.to_multiset(),
            files_sorted_le(files_view(out@)),
        decreases v@.len(),
    {
        let ghost before = files_view(v@);
        let ghost out_before = files_view(out@);
        let f = v.pop().unwrap();
        proof {
            assert(files_view(v@) =~= before.drop_last());
            assert(f@ == before.last());
            lemma_to_multiset_pop(before);
        }
        insert_file_sorted(&mut out, f);
        proof {
            assert(files_view(out@).to_multiset().add(files_view(v@).to_multiset()) =~= out_before
                .to_multiset().add(before.to_multiset()));
        }
    }
    proof {
        assert(files_view(v@).to_multiset() =~= Multiset::<FileNodeView>::empty());
        assert(files_view(out@).to_multiset() =~= orig.to_multiset());
    }
    out
}

/// Sort subdirectory entries by name; the entries themselves are unchanged.
fn sort_dirs(v: Vec<DirectoryNode>) -> (r: Vec<DirectoryNode>)
    ensures
        dirs_view(r@).to_multiset() == dirs_view(v@).to_multiset(),
        dirs_sorted_le(dirs_view(r@)),
{
    broadcast use vstd::seq_lib::group_to_multiset_ensures;

    let ghost orig = dirs_view(v@);
    let mut v = v;
    let mut out: Vec<DirectoryNode> = Vec::new();
    proof {
        assert(dirs_view(out@) =~= Seq::<DirectoryNodeView>::empty());
        assert(dirs_view(out@).to_multiset() =~= Multiset::<DirectoryNodeView>::empty());
        assert(dirs_view(out@).to_multiset().add(dirs_view(v@).to_multiset()) =~= dirs_view(
            v@,
        ).to_multiset());
    }
    while v.len() > 0
        invariant
            dirs_view(out@).to_multiset().add(dirs_view(v@).to_multiset()) == orig.to_multiset(),
            dirs_sorted_le(dirs_view(out@)),
        decreases v@.len(),
    {
        let ghost before = dirs_view(v@);
        let ghost out_before = dirs_view(out@);
        let d = v.pop().unwrap();
        proof {
            assert(dirs_view(v@) =~= before.drop_last());
            assert(d@ == before.last());
            lemma_to_multiset_pop(before);
        }
        insert_dir_sorted(&mut out, d);
        proof {
            assert(dirs_view(out@).to_multiset().add(dirs_view(v@).to_multiset()) =~= out_before
                .to_multiset().add(before.to_multiset()));
        }
    }
    proof {
        assert(dirs_view(v@).to_multiset() =~= Multiset::<DirectoryNodeView>::empty());
        assert(dirs_view(out@).to_multiset() =~= orig.to_multiset());
    }
    out
}

/// Copy a byte string.
pub fn clone_bytes(v: &Vec<u8>) -> (r: Vec<u8>)
    ensures
        r@ == v@,
{
    let mut out: Vec<u8> = Vec::new();
    let mut i: usize = 0;
    while i < v.len()
        invariant
            i <= v@.len(),
            out@ == v@.take(i as int),
        decreases v@.len() - i,
    {
        out.push(v[i]);
        proof {
            assert(v@.take(i + 1) =~= v@.take(i as int).push(v@[i as int]));
        }
        i = i + 1;
    }
    proof {
        assert(v@.take(v@.len() as int) =~= v@);
    }
    out
}

/// Compare two byte strings for equality.
pub fn bytes_eq(a: &Vec<u8>, b: &Vec<u8>) -> (r: bool)
    ensures
        r == (a@ == b@),
{
    if a.len() != b.len() {
        return false;
    }
    let mut i: usize = 0;
    while i < a.len()
        invariant
            i <= a@.len(),
            a@.len() == b@.len(),
            forall|k: int| 0 <= k < i ==> a@[k] == b@[k],
        decreases a@.len() - i,
    {
        if a[i] != b[i] {
            return false;
        }
        i = i + 1;
    }
    proof {
        assert(a@ =~= b@);
    }
    true
}

/// Every file entry is well-formed.
pub(crate) fn files_entries_wf(files: &Vec<FileNode>) -> (r: bool)
    ensures
        r == (forall|i: int|
            0 <= i < files@.len() ==> (#[trigger] files_view(files@)[i]).wf()),
{
    let mut i: usize = 0;
    while i < files.len()
        invariant
            i <= files@.len(),
            forall|k: int| 0 <= k < i ==> (#[trigger] files_view(files@)[k]).wf(),
        decreases files@.len() - i,
    {
        let name_good = check_name(&files[i].name);
        if !name_good || files[i].digest.fingerprint.bytes.len() != 32 {
            proof {
                assert(!files_view(files@)[i as int].wf());
            }
            return false;
        }
        proof {
            assert(files_view(files@)[i as int].wf());
        }
        i = i + 1;
    }
    true
}

/// Every subdirectory entry is well-formed.
pub(crate) fn dirs_entries_wf(dirs: &Vec<DirectoryNode>) -> (r: bool)
    ensures
        r == (forall|i: int| 0 <= i < dirs@.len() ==> (#[trigger] dirs_view(dirs@)[i]).wf()),
{
    let mut i: usize = 0;
    while i < dirs.len()
        invariant
            i <= dirs@.len(),
            forall|k: int| 0 <= k < i ==> (#[trigger] dirs_view(dirs@)[k]).wf(),
        decreases dirs@.len() - i,
    {
        let name_good = check_name(&dirs[i].name);
        if !name_good || dirs[i].digest.fingerprint.bytes.len() != 32 {
            proof {
                assert(!dirs_view(dirs@)[i as int].wf());
            }
            return false;
        }
        proof {
            assert(dirs_view(dirs@)[i as int].wf());
        }
        i = i + 1;
    }
    true
}

/// Whether two file entries share a name.
fn has_dup_file_name(files: &Vec<FileNode>) -> (r: bool)
    ensures
        r == !files_no_dup_names(files_view(files@)),
{
    let mut i: usize = 0;
    while i < files.len()
        invariant
            i <= files@.len(),
            forall|a: int, b: int|
                0 <= a < b < files@.len() && a < i ==> (#[trigger] files_view(files@)[a].name)
                    != (#[trigger] files_view(files@)[b].name),
        decreases files@.len() - i,
    {
        let mut j: usize = i + 1;
        while j < files.len()
            invariant
                i < j <= files@.len(),
                i < files@.len(),
                forall|b: int|
                    i < b < j ==> files_view(files@)[i as int].name != (#[trigger] files_view(
                        files@,
                    )[b].name),
            decreases files@.len() - j,
        {
            if bytes_eq(&files[i].name, &files[j].name) {
                proof {
                    assert(files_view(files@)[i as int].name == files_view(files@)[j as int].name);
                    assert(!files_no_dup_names(files_view(files@)));
                }
                return true;
            }
            j = j + 1;
        }
        i = i + 1;
    }
    false
}

/// Whether two subdirectory entries share a name.
fn has_dup_dir_name(dirs: &Vec<DirectoryNode>) -> (r: bool)
    ensures
        r == !dirs_no_dup_names(dirs_view(dirs@)),
{
    let mut i: usize = 0;
    while i < dirs.len()
        invariant
            i <= dirs@.len(),
            forall|a: int, b: int|
                0 <= a < b < dirs@.len() && a < i ==> (#[trigger] dirs_view(dirs@)[a].name) != (
                #[trigger] dirs_view(dirs@)[b].name),
        decreases dirs@.len() - i,
    {
        let mut j: usize = i + 1;
        while j < dirs.len()
            invariant
                i < j <= dirs@.len(),
                i < dirs@.len(),
                forall|b: int|
                    i < b < j ==> dirs_view(dirs@)[i as int].name != (#[trigger] dirs_view(
                        dirs@,
                    )[b].name),
            decreases dirs@.len() - j,
        {
            if bytes_eq(&dirs[i].name, &dirs[j].name) {
                proof {
                    assert(dirs_view(dirs@)[i as int].name == dirs_view(dirs@)[j as int].name);
                    assert(!dirs_no_dup_names(dirs_view(dirs@)));
                }
                return true;
            }
            j = j + 1;
        }
        i = i + 1;
    }
    false
}

/// Whether a file and a subdirectory share a name.
pub(crate) fn has_kind_collision(files: &Vec<FileNode>, dirs: &Vec<DirectoryNode>) -> (r: bool)
    ensures
        r == !kinds_disjoint(files_view(files@), dirs_view(dirs@)),
{
    let mut i: usize = 0;
    while i < files.len()
        invariant
            i <= files@.len(),
            forall|a: int, b: int|
                0 <= a < i && 0 <= b < dirs@.len() ==> (#[trigger] files_view(files@)[a].name) != (
                #[trigger] dirs_view(dirs@)[b].name),
        decreases files@.len() - i,
    {
        let mut j: usize = 0;
        while j < dirs.len()
            invariant
                i < files@.len(),
                j <= dirs@.len(),
                forall|b: int|
                    0 <= b < j ==> files_view(files@)[i as int].name != (#[trigger] dirs_view(
                        dirs@,
                    )[b].name),
            decreases dirs@.len() - j,
        {
            if bytes_eq(&files[i].name, &dirs[j].name) {
                proof {
                    assert(files_view(files@)[i as int].name == dirs_view(dirs@)[j as int].name);
                    assert(!kinds_disjoint(files_view(files@), dirs_view(dirs@)));
                }
                return true;
            }
            j = j + 1;
        }
        i = i + 1;
    }
    false
}

/// Well-formedness of every entry carries across a reordering.
proof fn lemma_files_wf_transfer(a: Seq<FileNodeView>, b: Seq<FileNodeView>)
    requires
        a.to_multiset() == b.to_multiset(),
        forall|i: int| 0 <= i < a.len() ==> (#[trigger] a[i]).wf(),
    ensures
        forall|i: int| 0 <= i < b.len() ==> (#[trigger] b[i]).wf(),
{
    broadcast use vstd::seq_lib::group_to_multiset_ensures;

    assert forall|i: int| 0 <= i < b.len() implies (#[trigger] b[i]).wf() by {
        assert(b.contains(b[i]));
        assert(a.to_multiset().count(b[i]) > 0);
        assert(a.contains(b[i]));
        let k = choose|k: int| 0 <= k < a.len() && a[k] == b[i];
        assert(a[k].wf());
    }
}

/// Well-formedness of every entry carries across a reordering.
proof fn lemma_dirs_wf_transfer(a: Seq<DirectoryNodeView>, b: Seq<DirectoryNodeView>)
    requires
        a.to_multiset() == b.to_multiset(),
        forall|i: int| 0 <= i < a.len() ==> (#[trigger] a[i]).wf(),
    ensures
        forall|i: int| 0 <= i < b.len() ==> (#[trigger] b[i]).wf(),
{
    broadcast use vstd::seq_lib::group_to_multiset_ensures;

    assert forall|i: int| 0 <= i < b.len() implies (#[trigger] b[i]).wf() by {
        assert(b.contains(b[i]));
        assert(a.to_multiset().count(b[i]) > 0);
        assert(a.contains(b[i]));
        let k = choose|k: int| 0 <= k < a.len() && a[k] == b[i];
        assert(a[k].wf());
    }
}

/// Distinctness of file names carries across a reordering.
proof fn lemma_files_no_dup_transfer(a: Seq<FileNodeView>, b: Seq<FileNodeView>)
    requires
        a.to_multiset() == b.to_multiset(),
        files_no_dup_names(a),
    ensures
        files_no_dup_names(b),
{
    broadcast use vstd::seq_lib::group_to_multiset_ensures;
    broadcast use vstd::multiset::group_multiset_axioms;

    assert forall|i: int, j: int|
        0 <= i < a.len() && 0 <= j < a.len() && i != j implies a[i] != a[j] by {
        if i < j {
            assert(a[i].name != a[j].name);
        } else {
            assert(a[j].name != a[i].name);
        }
    }
    assert(a.no_duplicates());
    a.lemma_multiset_has_no_duplicates();
    assert forall|i: int, j: int| 0 <= i < j < b.len() implies (#[trigger] b[i].name) != (
    #[trigger] b[j].name) by {
        if b[i].name == b[j].name {
            if b[i] == b[j] {
                assert(b.remove(j).to_multiset() =~= b.to_multiset().remove(b[j]));
                assert(b.remove(j)[i] == b[i]);
                assert(b.remove(j).contains(b[i]));
                assert(b.to_multiset().remove(b[j]).count(b[i]) > 0);
                assert(b.to_multiset().count(b[i]) >= 2);
                assert(a.to_multiset().count(b[i]) >= 2);
                assert(a.contains(b[i]));
                assert(false);
            } else {
                assert(b.contains(b[i]));
                assert(b.contains(b[j]));
                assert(a.to_multiset().count(b[i]) > 0);
                assert(a.to_multiset().count(b[j]) > 0);
                assert(a.contains(b[i]));
                assert(a.contains(b[j]));
                let k1 = choose|k: int| 0 <= k < a.len() && a[k] == b[i];
                let k2 = choose|k: int| 0 <= k < a.len() && a[k] == b[j];
                assert(k1 != k2);
                assert(false);
            }
        }
    }
}

/// Distinctness of subdirectory names carries across a reordering.
proof fn lemma_dirs_no_dup_transfer(a: Seq<DirectoryNodeView>, b: Seq<DirectoryNodeView>)
    requires
        a.to_multiset() == b.to_multiset(),
        dirs_no_dup_names(a),
    ensures
        dirs_no_dup_names(b),
{
    broadcast use vstd::seq_lib::group_to_multiset_ensures;
    broadcast use vstd::multiset::group_multiset_axioms;

    assert forall|i: int, j: int|
        0 <= i < a.len() && 0 <= j < a.len() && i != j implies a[i] != a[j] by {
        if i < j {
            assert(a[i].name != a[j].name);
        } else {
            assert(a[j].name != a[i].name);
        }
    }
    assert(a.no_duplicates());
    a.lemma_multiset_has_no_duplicates();
    assert forall|i: int, j: int| 0 <= i < j < b.len() implies (#[trigger] b[i].name) != (
    #[trigger] b[j].name) by {
        if b[i].name == b[j].name {
            if b[i] == b[j] {
                assert(b.remove(j).to_multiset() =~= b.to_multiset().remove(b[j]));
                assert(b.remove(j)[i] == b[i]);
                assert(b.remove(j).contains(b[i]));
                assert(b.to_multiset().remove(b[j]).count(b[i]) > 0);
                assert(b.to_multiset().count(b[i]) >= 2);
                assert(a.to_multiset().count(b[i]) >= 2);
                assert(a.contains(b[i]));
                assert(false);
            } else {
                assert(b.contains(b[i]));
                assert(b.contains(b[j]));
                assert(a.to_multiset().count(b[i]) > 0);
                assert(a.to_multiset().count(b[j]) > 0);
                assert(a.contains(b[i]));
                assert(a.contains(b[j]));
                let k1 = choose|k: int| 0 <= k < a.len() && a[k] == b[i];
                let k2 = choose|k: int| 0 <= k < a.len() && a[k] == b[j];
                assert(k1 != k2);
                assert(false);
            }
        }
    }
}

/// Disjointness of the two kinds' names carries across reorderings.
proof fn lemma_disjoint_transfer(
    fa: Seq<FileNodeView>,
    da: Seq<DirectoryNodeView>,
    fb: Seq<FileNodeView>,
    db: Seq<DirectoryNodeView>,
)
    requires
        fa.to_multiset() == fb.to_multiset(),
        da.to_multiset() == db.to_multiset(),
        kinds_disjoint(fa, da),
    ensures
        kinds_disjoint(fb, db),
{
    broadcast use vstd::seq_lib::group_to_multiset_ensures;

    assert forall|i: int, j: int| 0 <= i < fb.len() && 0 <= j < db.len() implies (
    #[trigger] fb[i].name) != (#[trigger] db[j].name) by {
        assert(fb.contains(fb[i]));
        assert(fa.to_multiset().count(fb[i]) > 0);
        assert(fa.contains(fb[i]));
        assert(db.contains(db[j]));
        assert(da.to_multiset().count(db[j]) > 0);
        assert(da.contains(db[j]));
        let k1 = choose|k: int| 0 <= k < fa.len() && fa[k] == fb[i];
        let k2 = choose|k: int| 0 <= k < da.len() && da[k] == db[j];
        assert(fa[k1].name != da[k2].name);
    }
}

/// A decoded or constructed directory violates the uniqueness or naming
/// invariants.
#[derive(Clone, Copy, Debug, PartialEq, Eq, Structural)]
pub enum StructuralError {
    /// A name is empty or holds a path separator.
    InvalidName,
    /// Two entries of the same kind share a name.
    DuplicateName,
    /// A file and a subdirectory share a name.
    NameCollision,
    /// Decoded entries are not in canonical sorted order.
    OutOfOrder,
}

impl Directory {
    /// Build a canonical directory from entries given in any order.
    ///
    /// Succeeds exactly when every entry is well-formed, no name repeats
    /// within a kind, and no name is both a file and a subdirectory; the
    /// resulting directory holds exactly the given entries, sorted by name.
    pub fn new(files: Vec<FileNode>, directories: Vec<DirectoryNode>) -> (r: Result<
        Directory,
        StructuralError,
    >)
        ensures
            r is Ok <==> entries_ok(files_view(files@), dirs_view(directories@)),
            r matches Ok(d) ==> {
                &&& d@.wf()
                &&& d@.files.to_multiset() == files_view(files@).to_multiset()
                &&& d@.directories.to_multiset() == dirs_view(directories@).to_multiset()
            },
            r == Err::<Directory, StructuralError>(StructuralError::InvalidName) ==> !(forall|
                i: int,
            |
                0 <= i < files@.len() ==> (#[trigger] files_view(files@)[i]).wf()) || !(forall|
                i: int,
            |
                0 <= i < directories@.len() ==> (#[trigger] dirs_view(directories@)[i]).wf()),
            r == Err::<Directory, StructuralError>(StructuralError::DuplicateName) ==> !files_no_dup_names(
                files_view(files@),
            ) || !dirs_no_dup_names(dirs_view(directories@)),
            r == Err::<Directory, StructuralError>(StructuralError::NameCollision) ==> !kinds_disjoint(
                files_view(files@),
                dirs_view(directories@),
            ),
    {
        let ghost fv = files_view(files@);
        let ghost dv = dirs_view(directories@);
        let files_ok = files_entries_wf(&files);
        let dirs_ok = dirs_entries_wf(&directories);
        if !files_ok || !dirs_ok {
            return Err(StructuralError::InvalidName);
        }
        if has_dup_file_name(&files) || has_dup_dir_name(&directories) {
            return Err(StructuralError::DuplicateName);
        }
        if has_kind_collision(&files, &directories) {
            return Err(StructuralError::NameCollision);
        }
        let nf = files.len();
        let nd = directories.len();
        proof {
            assert(files@.len() == nf && nf <= usize::MAX);
            assert(directories@.len() == nd && nd <= usize::MAX);
        }
        let sorted_files = sort_files(files);
        let sorted_directories = sort_dirs(directories);
        let d = Directory { files: sorted_files, directories: sorted_directories };
        proof {
            broadcast use vstd::seq_lib::group_to_multiset_ensures;

            let sf = files_view(sorted_files@);
            let sd = dirs_view(sorted_directories@);
            assert(sf.len() == sf.to_multiset().len());
            assert(fv.len() == fv.to_multiset().len());
            assert(sd.len() == sd.to_multiset().len());
            assert(dv.len() == dv.to_multiset().len());
            lemma_files_wf_transfer(fv, sf);
            lemma_dirs_wf_transfer(dv, sd);
            lemma_files_no_dup_transfer(fv, sf);
            lemma_dirs_no_dup_transfer(dv, sd);
            lemma_disjoint_transfer(fv, dv, sf, sd);
            assert(d@.files == sf);
            assert(d@.directories == sd);
            assert(files_strictly_sorted(sf));
            assert(dirs_strictly_sorted(sd));
            assert(entries_ok(fv, dv));
        }
        Ok(d)
    }
}

/// In canonical form, the entry lists with the same content are the same
/// list: strictly sorted sequences that hold the same multiset of file
/// entries are equal.
pub proof fn lemma_files_sorted_unique(a: Seq<FileNodeView>, b: Seq<FileNodeView>)
    requires
        files_strictly_sorted(a),
        files_strictly_sorted(b),
        a.to_multiset() == b.to_multiset(),
    ensures
        a == b,
    decreases a.len(),
{
    broadcast use vstd::seq_lib::group_to_multiset_ensures;

    if a.len() == 0 {
        assert(a.to_multiset().len() == a.len());
        assert(b.to_multiset().len() == b.len());
        assert(a =~= b);
    } else {
        assert(a.to_multiset().len() == a.len());
        assert(b.to_multiset().len() == b.len());
        assert(b.len() == a.len());
        lemma_lex_le_total(a[0].name, a[0].name);
        assert(a.contains(a[0]));
        assert(b.to_multiset().count(a[0]) > 0);
        assert(b.contains(a[0]));
        let i = choose|i: int| 0 <= i < b.len() && b[i] == a[0];
        assert(b.contains(b[0]));
        assert(a.to_multiset().count(b[0]) > 0);
        assert(a.contains(b[0]));
        let j = choose|j: int| 0 <= j < a.len() && a[j] == b[0];
        assert(lex_le(b[0].name, a[0].name)) by {
            if i > 0 {
                assert(lex_lt(b[0].name, b[i].name));
            }
        }
        assert(lex_le(a[0].name, b[0].name)) by {
            if j > 0 {
                assert(lex_lt(a[0].name, a[j].name));
            }
        }
        lemma_lex_le_antisymmetric(a[0].name, b[0].name);
        assert(a[0] == b[0]) by {
            if i > 0 {
                assert(lex_lt(b[0].name, b[i].name));
                assert(b[i].name == b[0].name);
                assert(false);
            }
        }
        let at = a.drop_first();
        let bt = b.drop_first();
        assert(a.remove(0) =~= at);
        assert(b.remove(0) =~= bt);
        assert(at.to_multiset() =~= a.to_multiset().remove(a[0]));
        assert(bt.to_multiset() =~= b.to_multiset().remove(b[0]));
        assert(at.to_multiset() == bt.to_multiset());
        assert(files_strictly_sorted(at)) by {
            assert forall|x: int, y: int| 0 <= x < y < at.len() implies lex_lt(
                #[trigger] at[x].name,
                #[trigger] at[y].name,
            ) by {
                assert(at[x] == a[x + 1] && at[y] == a[y + 1]);
            }
        }
        assert(files_strictly_sorted(bt)) by {
            assert forall|x: int, y: int| 0 <= x < y < bt.len() implies lex_lt(
                #[trigger] bt[x].name,
                #[trigger] bt[y].name,
            ) by {
                assert(bt[x] == b[x + 1] && bt[y] == b[y + 1]);
            }
        }
        lemma_files_sorted_unique(at, bt);
        assert(a =~= b) by {
            assert(forall|k: int| 1 <= k < a.len() ==> a[k] == at[k - 1] && b[k] == bt[k - 1]);
        }
    }
}

/// In canonical form, the entry lists with the same content are the same
/// list: strictly sorted sequences that hold the same multiset of
/// subdirectory entries are equal.
pub proof fn lemma_dirs_sorted_unique(a: Seq<DirectoryNodeView>, b: Seq<DirectoryNodeView>)
    requires
        dirs_strictly_sorted(a),
        dirs_strictly_sorted(b),
        a.to_multiset() == b.to_multiset(),
    ensures
        a == b,
    decreases a.len(),
{
    broadcast use vstd::seq_lib::group_to_multiset_ensures;

    if a.len() == 0 {
        assert(a.to_multiset().len() == a.len());
        assert(b.to_multiset().len() == b.len());
        assert(a =~= b);
    } else {
        assert(a.to_multiset().len() == a.len());
        assert(b.to_multiset().len() == b.len());
        assert(b.len() == a.len());
        lemma_lex_le_total(a[0].name, a[0].name);
        assert(a.contains(a[0]));
        assert(b.to_multiset().count(a[0]) > 0);
        assert(b.contains(a[0]));
        let i = choose|i: int| 0 <= i < b.len() && b[i] == a[0];
        assert(b.contains(b[0]));
        assert(a.to_multiset().count(b[0]) > 0);
        assert(a.contains(b[0]));
        let j = choose|j: int| 0 <= j < a.len() && a[j] == b[0];
        assert(lex_le(b[0].name, a[0].name)) by {
            if i > 0 {
                assert(lex_lt(b[0].name, b[i].name));
            }
        }
        assert(lex_le(a[0].name, b[0].name)) by {
            if j > 0 {
                assert(lex_lt(a[0].name, a[j].name));
            }
        }
        lemma_lex_le_antisymmetric(a[0].name, b[0].name);
        assert(a[0] == b[0]) by {
            if i > 0 {
                assert(lex_lt(b[0].name, b[i].name));
                assert(b[i].name == b[0].name);
                assert(false);
            }
        }
        let at = a.drop_first();
        let bt = b.drop_first();
        assert(a.remove(0) =~= at);
        assert(b.remove(0) =~= bt);
        assert(at.to_multiset() =~= a.to_multiset().remove(a[0]));
        assert(bt.to_multiset() =~= b.to_multiset().remove(b[0]));
        assert(at.to_multiset() == bt.to_multiset());
        assert(dirs_strictly_sorted(at)) by {
            assert forall|x: int, y: int| 0 <= x < y < at.len() implies lex_lt(
                #[trigger] at[x].name,
                #[trigger] at[y].name,
            ) by {
                assert(at[x] == a[x + 1] && at[y] == a[y + 1]);
            }
        }
        assert(dirs_strictly_sorted(bt)) by {
            assert forall|x: int, y: int| 0 <= x < y < bt.len() implies lex_lt(
                #[trigger] bt[x].name,
                #[trigger] bt[y].name,
            ) by {
                assert(bt[x] == b[x + 1] && bt[y] == b[y + 1]);
            }
        }
        lemma_dirs_sorted_unique(at, bt);
        assert(a =~= b) by {
            assert(forall|k: int| 1 <= k < a.len() ==> a[k] == at[k - 1] && b[k] == bt[k - 1]);
        }
    }
}

/// Order invariance of construction: two canonical directories built from
/// the same entries, in whatever order each was given, are the same value.
pub proof fn lemma_canonical_unique(d1: DirectoryView, d2: DirectoryView)
    requires
        d1.wf(),
        d2.wf(),
        d1.files.to_multiset() == d2.files.to_multiset(),
        d1.directories.to_multiset() == d2.directories.to_multiset(),
    ensures
        d1 == d2,
{
    lemma_files_sorted_unique(d1.files, d2.files);
    lemma_dirs_sorted_unique(d1.directories, d2.directories);
    assert(d1 =~= d2);
}

impl Clone for FileNode {
    /// The copy holds the same name, digest and flag.
    fn clone(&self) -> (r: Self)
        ensures
            r@ == self@,
    {
        let r = FileNode {
            name: clone_bytes(&self.name),
            digest: self.digest.clone(),
            is_executable: self.is_executable,
        };
        proof {
            assert(r@ =~= self@);
        }
        r
    }
}

impl Clone for DirectoryNode {
    /// The copy holds the same name and digest.
    fn clone(&self) -> (r: Self)
        ensures
            r@ == self@,
    {
        let r = DirectoryNode { name: clone_bytes(&self.name), digest: self.digest.clone() };
        proof {
            assert(r@ =~= self@);
        }
        r
    }
}

impl Clone for Directory {
    /// The copy holds the same entries.
    fn clone(&self) -> (r: Self)
        ensures
            r@ == self@,
    {
        let mut files: Vec<FileNode> = Vec::new();
        let mut i: usize = 0;
        while i < self.files.len()
            invariant
                i <= self.files@.len(),
                files_view(files@) == files_view(self.files@).take(i as int),
            decreases self.files@.len() - i,
        {
            let ghost prev = files_view(files@);
            files.push(self.files[i].clone());
            proof {
                assert(files_view(files@) =~= prev.push(files_view(self.files@)[i as int]));
                assert(files_view(self.files@).take(i + 1) =~= files_view(self.files@).take(
                    i as int,
                ).push(files_view(self.files@)[i as int]));
            }
            i = i + 1;
        }
        let mut directories: Vec<DirectoryNode> = Vec::new();
        let mut j: usize = 0;
        while j < self.directories.len()
            invariant
                j <= self.directories@.len(),
                dirs_view(directories@) == dirs_view(self.directories@).take(j as int),
            decreases self.directories@.len() - j,
        {
            let ghost prev = dirs_view(directories@);
            directories.push(self.directories[j].clone());
            proof {
                assert(dirs_view(directories@) =~= prev.push(
                    dirs_view(self.directories@)[j as int],
                ));
                assert(dirs_view(self.directories@).take(j + 1) =~= dirs_view(
                    self.directories@,
                ).take(j as int).push(dirs_view(self.directories@)[j as int]));
            }
            j = j + 1;
        }
        let r = Directory { files, directories };
        proof {
            assert(files_view(self.files@).take(self.files@.len() as int) =~= files_view(
                self.files@,
            ));
            assert(dirs_view(self.directories@).take(self.directories@.len() as int) =~= dirs_view(
                self.directories@,
            ));
            assert(r@ =~= self@);
        }
        r
    }
}

} // verus!
