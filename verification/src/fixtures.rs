//! Known pieces of content and known directories, with their digests, for
//! exercising content-addressed stores: each is a fixed value whose
//! fingerprint is stable across runs and machines.

use vstd::prelude::*;
use vstd::string::StrSliceExecFns;
use vstd::string::StringSliceAdditionalSpecFns;
use vstd::utf8::encode_utf8;
use crate::codec::encode_directory;
use crate::digest::Digest;
use crate::digest::DigestView;
use crate::digest::Fingerprint;
use crate::digest::hash_of;
use crate::digest::spec_digest_of;
use crate::directory::Directory;
use crate::directory::DirectoryNode;
use crate::directory::DirectoryNodeView;
use crate::directory::DirectoryView;
use crate::directory::FileNode;
use crate::directory::FileNodeView;
use crate::tree::Tree;
use crate::tree::encode_tree;

verus! {

/// Declared so that buffers of the `bytes` crate can cross this library's
/// boundary; the value is opaque here.
#[verifier::external_type_specification]
#[verifier::external_body]
pub struct ExBytes(bytes::Bytes);

/// What a `bytes::Bytes` buffer holds.
pub uninterp spec fn bytes_contents(b: bytes::Bytes) -> Seq<u8>;

/// Relies on `bytes::Bytes::from(Vec<u8>)`: the buffer holds exactly the
/// vector's bytes.
#[verifier::external_body]
fn bytes_from_vec(v: Vec<u8>) -> (r: bytes::Bytes)
    ensures
        bytes_contents(r) == v@,
{
    bytes::Bytes::from(v)
}

/// A small named piece of file content with a known digest.
#[derive(Clone, Debug)]
pub struct TestData {
    string: String,
}

impl View for TestData {
    type V = Seq<char>;

    closed spec fn view(&self) -> Seq<char> {
        self.string@
    }
}

impl TestData {
    /// The empty content.
    pub fn empty() -> (r: TestData)
        ensures
            r@ == ""@,
    {
        TestData::new("")
    }

    /// The content of the file usually named `roland`.
    pub fn roland() -> (r: TestData)
        ensures
            r@ == "European Burmese"@,
    {
        TestData::new("European Burmese")
    }

    /// The content usually fed to cats.
    pub fn catnip() -> (r: TestData)
        ensures
            r@ == "catnip"@,
    {
        TestData::new("catnip")
    }

    /// The content of the file usually named `robin`.
    pub fn robin() -> (r: TestData)
        ensures
            r@ == "Pug"@,
    {
        TestData::new("Pug")
    }

    /// Content of exactly eighty characters.
    pub fn forty_chars() -> (r: TestData)
        ensures
            r@ == "01234567890123456789012345678901234567890123456789012345678901234567890123456789"@,
    {
        TestData::new(
            "01234567890123456789012345678901234567890123456789012345678901234567890123456789",
        )
    }

    /// Content holding the given text.
    pub fn new(s: &str) -> (r: TestData)
        ensures
            r@ == s@,
    {
        TestData { string: s.to_owned() }
    }

    /// The content bytes.
    pub fn bytes(&self) -> (r: bytes::Bytes)
        ensures
            bytes_contents(r) == encode_utf8(self@),
    {
        bytes_from_vec(self.string.as_str().as_bytes_vec())
    }

    /// The fingerprint of the content bytes.
    pub fn fingerprint(&self) -> (r: Fingerprint)
        ensures
            r@ == hash_of(encode_utf8(self@)),
            r.wf(),
    {
        self.digest().fingerprint
    }

    /// The digest of the content bytes.
    pub fn digest(&self) -> (r: Digest)
        ensures
            r@ == spec_digest_of(encode_utf8(self@)),
            r.wf(),
    {
        Digest::of_bytes(self.string.as_str().as_bytes())
    }

    /// The content as text.
    pub fn string(&self) -> (r: String)
        ensures
            r@ == self@,
    {
        self.string.clone()
    }

    /// The content's length in bytes.
    pub fn len(&self) -> (r: usize)
        ensures
            r == encode_utf8(self@).len(),
    {
        self.string.as_str().as_bytes().len()
    }
}

/// The view of a file entry holding the given text as content.
pub open spec fn file_entry(name: Seq<u8>, content: Seq<char>, is_executable: bool) -> FileNodeView {
    FileNodeView { name, digest: spec_digest_of(encode_utf8(content)), is_executable }
}

/// The view of a subdirectory entry for the given directory.
pub open spec fn dir_entry(name: Seq<u8>, d: DirectoryView) -> DirectoryNodeView {
    DirectoryNodeView { name, digest: spec_digest_of(encode_directory(d)) }
}

/// The view of the directory with no entries.
pub open spec fn empty_dir() -> DirectoryView {
    DirectoryView { files: Seq::empty(), directories: Seq::empty() }
}

/// The view of a directory with the given entries.
pub open spec fn dir_of(files: Seq<FileNodeView>, directories: Seq<DirectoryNodeView>) -> DirectoryView {
    DirectoryView { files, directories }
}

/// A file entry from a name, content and flag.
fn file_node(name: &str, data: &TestData, is_executable: bool) -> (r: FileNode)
    ensures
        r@ == file_entry(name.spec_bytes(), data@, is_executable),
{
    let r = FileNode { name: name.as_bytes_vec(), digest: data.digest(), is_executable };
    proof {
        assert(r@ =~= file_entry(name.spec_bytes(), data@, is_executable));
    }
    r
}

/// A subdirectory entry from a name and a directory.
fn dir_node(name: &str, d: &Directory) -> (r: DirectoryNode)
    ensures
        r@ == dir_entry(name.spec_bytes(), d@),
{
    let r = DirectoryNode { name: name.as_bytes_vec(), digest: d.digest() };
    proof {
        assert(r@ =~= dir_entry(name.spec_bytes(), d@));
    }
    r
}

/// A known directory with a known digest.
#[derive(Debug)]
pub struct TestDirectory {
    pub directory: Directory,
}

impl TestDirectory {
    /// The directory with no entries.
    pub fn empty() -> (r: TestDirectory)
        ensures
            r.directory@ == empty_dir(),
    {
        let d = Directory { files: Vec::new(), directories: Vec::new() };
        proof {
            assert(d@ =~= empty_dir());
        }
        TestDirectory { directory: d }
    }

    /// `/falcons/` — one empty subdirectory.
    pub fn containing_falcons_dir() -> (r: TestDirectory)
        ensures
            r.directory@ == dir_of(
                Seq::empty(),
                seq![dir_entry("falcons".spec_bytes(), empty_dir())],
            ),
    {
        let inner = TestDirectory::empty();
        let mut directories: Vec<DirectoryNode> = Vec::new();
        directories.push(dir_node("falcons", &inner.directory));
        let d = Directory { files: Vec::new(), directories };
        proof {
            assert(d@ =~= dir_of(
                Seq::empty(),
                seq![dir_entry("falcons".spec_bytes(), empty_dir())],
            ));
        }
        TestDirectory { directory: d }
    }

    /// `birds/falcons/` and `cats/roland`.
    pub fn nested_dir_and_file() -> (r: TestDirectory)
        ensures
            r.directory@ == dir_of(
                Seq::empty(),
                seq![
                    dir_entry(
                        "birds".spec_bytes(),
                        dir_of(
                            Seq::empty(),
                            seq![dir_entry("falcons".spec_bytes(), empty_dir())],
                        ),
                    ),
                    dir_entry(
                        "cats".spec_bytes(),
                        dir_of(
                            seq![file_entry("roland".spec_bytes(), "European Burmese"@, false)],
                            Seq::empty(),
                        ),
                    ),
                ],
            ),
    {
        let birds = TestDirectory::containing_falcons_dir();
        let cats = TestDirectory::containing_roland();
        let mut directories: Vec<DirectoryNode> = Vec::new();
        directories.push(dir_node("birds", &birds.directory));
        directories.push(dir_node("cats", &cats.directory));
        let d = Directory { files: Vec::new(), directories };
        proof {
            assert(d@.directories =~= seq![
                dir_entry(
                    "birds".spec_bytes(),
                    dir_of(Seq::empty(), seq![dir_entry("falcons".spec_bytes(), empty_dir())]),
                ),
                dir_entry(
                    "cats".spec_bytes(),
                    dir_of(
                        seq![file_entry("roland".spec_bytes(), "European Burmese"@, false)],
                        Seq::empty(),
                    ),
                ),
            ]);
            assert(d@ =~= dir_of(Seq::empty(), d@.directories));
        }
        TestDirectory { directory: d }
    }

    /// `animals/birds/falcons/` and `animals/cats/roland`.
    pub fn double_nested_dir_and_file() -> (r: TestDirectory)
        ensures
            r.directory@ == dir_of(
                Seq::empty(),
                seq![
                    dir_entry(
                        "animals".spec_bytes(),
                        dir_of(
                            Seq::empty(),
                            seq![
                                dir_entry(
                                    "birds".spec_bytes(),
                                    dir_of(
                                        Seq::empty(),
                                        seq![dir_entry("falcons".spec_bytes(), empty_dir())],
                                    ),
                                ),
                                dir_entry(
                                    "cats".spec_bytes(),
                                    dir_of(
                                        seq![
                                            file_entry(
                                                "roland".spec_bytes(),
                                                "European Burmese"@,
                                                false,
                                            ),
                                        ],
                                        Seq::empty(),
                                    ),
                                ),
                            ],
                        ),
                    ),
                ],
            ),
    {
        let animals = TestDirectory::nested_dir_and_file();
        let mut directories: Vec<DirectoryNode> = Vec::new();
        directories.push(dir_node("animals", &animals.directory));
        let d = Directory { files: Vec::new(), directories };
        proof {
            assert(d@ =~= dir_of(
                Seq::empty(),
                seq![dir_entry("animals".spec_bytes(), animals.directory@)],
            ));
        }
        TestDirectory { directory: d }
    }

    /// `/roland` — one non-executable file.
    pub fn containing_roland() -> (r: TestDirectory)
        ensures
            r.directory@ == dir_of(
                seq![file_entry("roland".spec_bytes(), "European Burmese"@, false)],
                Seq::empty(),
            ),
    {
        let data = TestData::roland();
        let mut files: Vec<FileNode> = Vec::new();
        files.push(file_node("roland", &data, false));
        let d = Directory { files, directories: Vec::new() };
        proof {
            assert(d@ =~= dir_of(
                seq![file_entry("roland".spec_bytes(), "European Burmese"@, false)],
                Seq::empty(),
            ));
        }
        TestDirectory { directory: d }
    }

    /// `/robin` — one non-executable file.
    pub fn containing_robin() -> (r: TestDirectory)
        ensures
            r.directory@ == dir_of(
                seq![file_entry("robin".spec_bytes(), "Pug"@, false)],
                Seq::empty(),
            ),
    {
        let data = TestData::robin();
        let mut files: Vec<FileNode> = Vec::new();
        files.push(file_node("robin", &data, false));
        let d = Directory { files, directories: Vec::new() };
        proof {
            assert(d@ =~= dir_of(
                seq![file_entry("robin".spec_bytes(), "Pug"@, false)],
                Seq::empty(),
            ));
        }
        TestDirectory { directory: d }
    }

    /// `/treats` — one non-executable file holding catnip.
    pub fn containing_treats() -> (r: TestDirectory)
        ensures
            r.directory@ == dir_of(
                seq![file_entry("treats".spec_bytes(), "catnip"@, false)],
                Seq::empty(),
            ),
    {
        let data = TestData::catnip();
        let mut files: Vec<FileNode> = Vec::new();
        files.push(file_node("treats", &data, false));
        let d = Directory { files, directories: Vec::new() };
        proof {
            assert(d@ =~= dir_of(
                seq![file_entry("treats".spec_bytes(), "catnip"@, false)],
                Seq::empty(),
            ));
        }
        TestDirectory { directory: d }
    }

    /// `/cats/roland` — one subdirectory.
    pub fn nested() -> (r: TestDirectory)
        ensures
            r.directory@ == dir_of(
                Seq::empty(),
                seq![
                    dir_entry(
                        "cats".spec_bytes(),
                        dir_of(
                            seq![file_entry("roland".spec_bytes(), "European Burmese"@, false)],
                            Seq::empty(),
                        ),
                    ),
                ],
            ),
    {
        let cats = TestDirectory::containing_roland();
        let mut directories: Vec<DirectoryNode> = Vec::new();
        directories.push(dir_node("cats", &cats.directory));
        let d = Directory { files: Vec::new(), directories };
        proof {
            assert(d@ =~= dir_of(
                Seq::empty(),
                seq![
                    dir_entry(
                        "cats".spec_bytes(),
                        dir_of(
                            seq![file_entry("roland".spec_bytes(), "European Burmese"@, false)],
                            Seq::empty(),
                        ),
                    ),
                ],
            ));
        }
        TestDirectory { directory: d }
    }

    /// `/pets/cats/roland` — nesting one level deeper.
    pub fn double_nested() -> (r: TestDirectory)
        ensures
            r.directory@ == dir_of(
                Seq::empty(),
                seq![
                    dir_entry(
                        "pets".spec_bytes(),
                        dir_of(
                            Seq::empty(),
                            seq![
                                dir_entry(
                                    "cats".spec_bytes(),
                                    dir_of(
                                        seq![
                                            file_entry(
                                                "roland".spec_bytes(),
                                                "European Burmese"@,
                                                false,
                                            ),
                                        ],
                                        Seq::empty(),
                                    ),
                                ),
                            ],
                        ),
                    ),
                ],
            ),
    {
        let pets = TestDirectory::nested();
        let mut directories: Vec<DirectoryNode> = Vec::new();
        directories.push(dir_node("pets", &pets.directory));
        let d = Directory { files: Vec::new(), directories };
        proof {
            assert(d@ =~= dir_of(
                Seq::empty(),
                seq![dir_entry("pets".spec_bytes(), pets.directory@)],
            ));
        }
        TestDirectory { directory: d }
    }

    /// `/dnalor` — roland's content under another name.
    pub fn containing_dnalor() -> (r: TestDirectory)
        ensures
            r.directory@ == dir_of(
                seq![file_entry("dnalor".spec_bytes(), "European Burmese"@, false)],
                Seq::empty(),
            ),
    {
        let data = TestData::roland();
        let mut files: Vec<FileNode> = Vec::new();
        files.push(file_node("dnalor", &data, false));
        let d = Directory { files, directories: Vec::new() };
        proof {
            assert(d@ =~= dir_of(
                seq![file_entry("dnalor".spec_bytes(), "European Burmese"@, false)],
                Seq::empty(),
            ));
        }
        TestDirectory { directory: d }
    }

    /// `/roland` — but holding the wrong content.
    pub fn containing_wrong_roland() -> (r: TestDirectory)
        ensures
            r.directory@ == dir_of(
                seq![file_entry("roland".spec_bytes(), "catnip"@, false)],
                Seq::empty(),
            ),
    {
        let data = TestData::catnip();
        let mut files: Vec<FileNode> = Vec::new();
        files.push(file_node("roland", &data, false));
        let d = Directory { files, directories: Vec::new() };
        proof {
            assert(d@ =~= dir_of(
                seq![file_entry("roland".spec_bytes(), "catnip"@, false)],
                Seq::empty(),
            ));
        }
        TestDirectory { directory: d }
    }

    /// `/roland` and `/treats` — two files.
    pub fn containing_roland_and_treats() -> (r: TestDirectory)
        ensures
            r.directory@ == dir_of(
                seq![
                    file_entry("roland".spec_bytes(), "European Burmese"@, false),
                    file_entry("treats".spec_bytes(), "catnip"@, false),
                ],
                Seq::empty(),
            ),
    {
        let roland = TestData::roland();
        let catnip = TestData::catnip();
        let mut files: Vec<FileNode> = Vec::new();
        files.push(file_node("roland", &roland, false));
        files.push(file_node("treats", &catnip, false));
        let d = Directory { files, directories: Vec::new() };
        proof {
            assert(d@.files =~= seq![
                file_entry("roland".spec_bytes(), "European Burmese"@, false),
                file_entry("treats".spec_bytes(), "catnip"@, false),
            ]);
            assert(d@ =~= dir_of(d@.files, Seq::empty()));
        }
        TestDirectory { directory: d }
    }

    /// `/cats/roland` and `/treats` — a subdirectory beside a file.
    pub fn recursive() -> (r: TestDirectory)
        ensures
            r.directory@ == dir_of(
                seq![file_entry("treats".spec_bytes(), "catnip"@, false)],
                seq![
                    dir_entry(
                        "cats".spec_bytes(),
                        dir_of(
                            seq![file_entry("roland".spec_bytes(), "European Burmese"@, false)],
                            Seq::empty(),
                        ),
                    ),
                ],
            ),
    {
        let cats = TestDirectory::containing_roland();
        let catnip = TestData::catnip();
        let mut directories: Vec<DirectoryNode> = Vec::new();
        directories.push(dir_node("cats", &cats.directory));
        let mut files: Vec<FileNode> = Vec::new();
        files.push(file_node("treats", &catnip, false));
        let d = Directory { files, directories };
        proof {
            assert(d@.files =~= seq![file_entry("treats".spec_bytes(), "catnip"@, false)]);
            assert(d@.directories =~= seq![
                dir_entry(
                    "cats".spec_bytes(),
                    dir_of(
                        seq![file_entry("roland".spec_bytes(), "European Burmese"@, false)],
                        Seq::empty(),
                    ),
                ),
            ]);
            assert(d@ =~= dir_of(d@.files, d@.directories));
        }
        TestDirectory { directory: d }
    }

    /// `/feed` (executable) and `/food` — same content, different names and
    /// flags.
    pub fn with_mixed_executable_files() -> (r: TestDirectory)
        ensures
            r.directory@ == dir_of(
                seq![
                    file_entry("feed".spec_bytes(), "catnip"@, true),
                    file_entry("food".spec_bytes(), "catnip"@, false),
                ],
                Seq::empty(),
            ),
    {
        let catnip = TestData::catnip();
        let mut files: Vec<FileNode> = Vec::new();
        files.push(file_node("feed", &catnip, true));
        files.push(file_node("food", &catnip, false));
        let d = Directory { files, directories: Vec::new() };
        proof {
            assert(d@.files =~= seq![
                file_entry("feed".spec_bytes(), "catnip"@, true),
                file_entry("food".spec_bytes(), "catnip"@, false),
            ]);
            assert(d@ =~= dir_of(d@.files, Seq::empty()));
        }
        TestDirectory { directory: d }
    }

    /// The directory itself.
    pub fn directory(&self) -> (r: Directory)
        ensures
            r@ == self.directory@,
    {
        self.directory.clone()
    }

    /// The canonical encoding of the directory.
    pub fn bytes(&self) -> (r: bytes::Bytes)
        ensures
            bytes_contents(r) == encode_directory(self.directory@),
    {
        bytes_from_vec(self.directory.encode())
    }

    /// The fingerprint of the canonical encoding.
    pub fn fingerprint(&self) -> (r: Fingerprint)
        ensures
            r@ == hash_of(encode_directory(self.directory@)),
            r.wf(),
    {
        self.digest().fingerprint
    }

    /// The digest of the canonical encoding.
    pub fn digest(&self) -> (r: Digest)
        ensures
            r@ == spec_digest_of(encode_directory(self.directory@)),
            r.wf(),
    {
        self.directory.digest()
    }
}

/// A known tree with a known digest.
#[derive(Debug)]
pub struct TestTree {
    pub tree: Tree,
}

impl TestTree {
    /// The tree whose root holds only the file `roland`.
    pub fn roland_at_root() -> (r: TestTree)
        ensures
            r.tree@.root == dir_of(
                seq![file_entry("roland".spec_bytes(), "European Burmese"@, false)],
                Seq::empty(),
            ),
            r.tree@.children == Seq::<(DigestView, DirectoryView)>::empty(),
            r.tree@.complete(),
    {
        TestTree::at_root(TestDirectory::containing_roland())
    }

    /// The tree whose root holds only the file `robin`.
    pub fn robin_at_root() -> (r: TestTree)
        ensures
            r.tree@.root == dir_of(
                seq![file_entry("robin".spec_bytes(), "Pug"@, false)],
                Seq::empty(),
            ),
            r.tree@.children == Seq::<(DigestView, DirectoryView)>::empty(),
            r.tree@.complete(),
    {
        TestTree::at_root(TestDirectory::containing_robin())
    }

    /// A tree with the given directory at the root and no collected
    /// descendants. The root may hold no subdirectory entries: with an
    /// empty child list, any subdirectory reference would dangle, and a
    /// tree never carries an unresolvable reference.
    pub fn at_root(dir: TestDirectory) -> (r: TestTree)
        requires
            dir.directory@.directories.len() == 0,
        ensures
            r.tree@.root == dir.directory@,
            r.tree@.children == Seq::<(DigestView, DirectoryView)>::empty(),
            r.tree@.complete(),
    {
        let t = Tree { root: dir.directory, children: Vec::new() };
        proof {
            assert(t@.children =~= Seq::<(DigestView, DirectoryView)>::empty());
        }
        TestTree { tree: t }
    }

    /// The canonical encoding of the tree.
    pub fn bytes(&self) -> (r: bytes::Bytes)
        ensures
            bytes_contents(r) == encode_tree(self.tree@),
    {
        bytes_from_vec(self.tree.encode())
    }

    /// The fingerprint of the canonical encoding.
    pub fn fingerprint(&self) -> (r: Fingerprint)
        ensures
            r@ == hash_of(encode_tree(self.tree@)),
            r.wf(),
    {
        self.digest().fingerprint
    }

    /// The digest of the canonical encoding.
    pub fn digest(&self) -> (r: Digest)
        ensures
            r@ == spec_digest_of(encode_tree(self.tree@)),
            r.wf(),
    {
        self.tree.digest()
    }
}

} // verus!
