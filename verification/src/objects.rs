//! The object model: blobs, trees and commits, their mathematical views,
//! well-formedness, and the error taxonomy of the store.

use vstd::prelude::*;
use crate::hex::all_hex_digits;
use crate::scan::has_byte;

verus! {

/// Everything that can go wrong while resolving, decoding or reading an
/// object.
///
/// `NotFound` and `Ambiguous` arise from identifier-prefix resolution.
/// `MalformedHeader`, `TruncatedBody`, `TruncatedEntry`, `InvalidEncoding`,
/// `MissingSeparator` and `UnsupportedObjectKind` arise while decoding
/// object bytes; a malformed or missing commit header line is reported as
/// `MalformedHeader`, the commit's header block being a list of such lines.
/// `StoreReadError` and `StoreWriteError` stand for failures of the
/// compression envelope or of the surrounding I/O.
#[derive(Clone, Copy, Debug, PartialEq, Eq, Structural)]
pub enum StoreError {
    NotFound,
    Ambiguous,
    MalformedHeader,
    TruncatedBody,
    TruncatedEntry,
    InvalidEncoding,
    MissingSeparator,
    UnsupportedObjectKind,
    StoreReadError,
    StoreWriteError,
}

/// One entry of a tree object: a file or subtree name, its mode, and the
/// identifier of the object it points to, as 40 lowercase hex characters.
#[derive(Debug)]
pub struct TreeNode {
    pub name: Vec<u8>,
    pub hash: Vec<u8>,
    pub mode: u32,
}

/// The mathematical value of a [`TreeNode`].
pub struct TreeNodeView {
    pub name: Seq<u8>,
    pub hash: Seq<u8>,
    pub mode: u32,
}

impl View for TreeNode {
    type V = TreeNodeView;

    open spec fn view(&self) -> TreeNodeView {
        TreeNodeView { name: self.name@, hash: self.hash@, mode: self.mode }
    }
}

impl DeepView for TreeNode {
    type V = TreeNodeView;

    open spec fn deep_view(&self) -> TreeNodeView {
        self.view()
    }
}

/// A tree entry that the codec can serialize and read back: the name holds
/// neither NUL (the entry delimiter) nor '/', and the hash is exactly 40
/// lowercase hex characters.
pub open spec fn wf_node(n: TreeNodeView) -> bool {
    &&& !has_byte(n.name, 0)
    &&& !has_byte(n.name, 47)
    &&& n.hash.len() == 40
    &&& all_hex_digits(n.hash)
}

/// A timestamp's fixed UTC offset, as written in a commit header:
/// a sign and two two-digit fields.
#[derive(Clone, Copy, Debug, PartialEq, Eq, Structural)]
pub struct TzOffset {
    pub negative: bool,
    pub hours: u8,
    pub minutes: u8,
}

/// An offset a commit header can carry: at most 23 hours 59 minutes.
pub open spec fn wf_tz(tz: TzOffset) -> bool {
    tz.hours <= 23 && tz.minutes <= 59
}

/// The metadata of a commit object.  The timestamp is the pair of a Unix
/// second count and the fixed UTC offset it was written with.
#[derive(Debug)]
pub struct CommitContent {
    pub tree_sha: Vec<u8>,
    pub parent_sha: Option<Vec<u8>>,
    pub author_name: Vec<u8>,
    pub author_email: Vec<u8>,
    pub committer: Vec<u8>,
    pub committer_email: Vec<u8>,
    pub message: Vec<u8>,
    pub timestamp_secs: i64,
    pub timestamp_tz: TzOffset,
}

/// The mathematical value of a [`CommitContent`].
pub struct CommitView {
    pub tree_sha: Seq<u8>,
    pub parent_sha: Option<Seq<u8>>,
    pub author_name: Seq<u8>,
    pub author_email: Seq<u8>,
    pub committer: Seq<u8>,
    pub committer_email: Seq<u8>,
    pub message: Seq<u8>,
    pub timestamp_secs: i64,
    pub timestamp_tz: TzOffset,
}

impl View for CommitContent {
    type V = CommitView;

    open spec fn view(&self) -> CommitView {
        CommitView {
            tree_sha: self.tree_sha@,
            parent_sha: match self.parent_sha {
                Some(ref p) => Some(p@),
                None => None,
            },
            author_name: self.author_name@,
            author_email: self.author_email@,
            committer: self.committer@,
            committer_email: self.committer_email@,
            message: self.message@,
            timestamp_secs: self.timestamp_secs,
            timestamp_tz: self.timestamp_tz,
        }
    }
}

/// A stored object: a blob's raw content, a tree's entry list, or a
/// commit's metadata.
#[derive(Debug)]
pub enum ObjectHashTypes {
    Blob(Vec<u8>),
    Tree(Vec<TreeNode>),
    Commit(CommitContent),
}

/// The mathematical value of an [`ObjectHashTypes`].
pub enum ObjectView {
    Blob(Seq<u8>),
    Tree(Seq<TreeNodeView>),
    Commit(CommitView),
}

impl View for ObjectHashTypes {
    type V = ObjectView;

    open spec fn view(&self) -> ObjectView {
        match self {
            ObjectHashTypes::Blob(c) => ObjectView::Blob(c@),
            ObjectHashTypes::Tree(ns) => ObjectView::Tree(ns.deep_view()),
            ObjectHashTypes::Commit(c) => ObjectView::Commit(c@),
        }
    }
}

/// The kind word of a tree entry's target, as the tree listing prints it.
pub open spec fn mode_str_spec(mode: u32) -> Seq<char> {
    if mode == 40000 {
        "tree"@
    } else if mode == 160000 {
        "commit"@
    } else {
        "blob"@
    }
}

impl TreeNode {
    /// The kind word of this entry's target: subtrees are trees, commit
    /// entries are commits, and every file mode points at a blob.
    pub fn mode_str(&self) -> (r: &'static str)
        ensures
            r@ == mode_str_spec(self.mode),
    {
        match self.mode {
            40000 => "tree",
            100644 | 100755 | 120000 => "blob",
            160000 => "commit",
            _ => "blob",
        }
    }
}

/// Default commit author name, until configuration is read from elsewhere.
pub fn get_commit_author_name() -> (r: String)
    ensures
        r@ == "test_author"@,
{
    "test_author".to_owned()
}

/// Default commit author address.
pub fn get_commit_author_email() -> (r: String)
    ensures
        r@ == "test_author@gmail.com"@,
{
    "test_author@gmail.com".to_owned()
}

/// Default committer address.
pub fn get_commit_comitter_email() -> (r: String)
    ensures
        r@ == "test_comitter@gmail.com"@,
{
    "test_comitter@gmail.com".to_owned()
}

/// Default committer name.
pub fn get_commit_comitter_name() -> (r: String)
    ensures
        r@ == "test_comitter"@,
{
    "test_comitter".to_owned()
}

} // verus!
