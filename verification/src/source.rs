//! The source directory of a book as data: which paths are directories and
//! what each document holds.
//!
//! The outline compiler asks two things of the source directory: whether a
//! path is a directory, and what a document says. A `SourceTree` answers
//! both from what was read into it beforehand. Paths are compared as text,
//! slashes at their end left aside.

use crate::path::{bare, strip};
use vstd::prelude::*;

verus! {

/// What stands at a path of the source directory.
#[derive(Debug, PartialEq, Eq)]
pub enum SourceNode {
    Directory,
    Document(String),
}

/// What a `SourceNode` stands for.
pub enum NodeView {
    Directory,
    Document(Seq<char>),
}

impl View for SourceNode {
    type V = NodeView;

    open spec fn view(&self) -> NodeView {
        match self {
            SourceNode::Directory => NodeView::Directory,
            SourceNode::Document(text) => NodeView::Document(text@),
        }
    }
}

/// The paths of a source directory with what stands at each.
#[derive(Debug)]
pub struct SourceTree {
    pub entries: Vec<(String, SourceNode)>,
}

/// What a `SourceTree` stands for: its entries in the order in which they
/// were added.
pub type Listing = Seq<(Seq<char>, NodeView)>;

impl View for SourceTree {
    type V = Listing;

    open spec fn view(&self) -> Listing {
        Seq::new(self.entries@.len(), |i: int| (self.entries@[i].0@, self.entries@[i].1@))
    }
}

/// What stands at the path `key` in `entries`: the entry added last for it.
pub open spec fn lookup(entries: Listing, key: Seq<char>) -> Option<NodeView>
    decreases entries.len(),
{
    if entries.len() == 0 {
        None
    } else if entries.last().0 == key {
        Some(entries.last().1)
    } else {
        lookup(entries.drop_last(), key)
    }
}

/// Whether `path` is a directory of `entries`.
pub open spec fn is_directory(entries: Listing, path: Seq<char>) -> bool {
    lookup(entries, bare(path)) == Some(NodeView::Directory)
}

/// What the document at `path` says, where `entries` hold a document there.
pub open spec fn document(entries: Listing, path: Seq<char>) -> Option<Seq<char>> {
    match lookup(entries, bare(path)) {
        Some(NodeView::Document(text)) => Some(text),
        _ => None,
    }
}

/// The length of the longest path of `entries`.
pub open spec fn span(entries: Listing) -> nat
    decreases entries.len(),
{
    if entries.len() == 0 {
        0
    } else if entries.last().0.len() > span(entries.drop_last()) {
        entries.last().0.len()
    } else {
        span(entries.drop_last())
    }
}

/// A path at which something stands is no longer than the longest path.
pub proof fn lemma_lookup_within_span(entries: Listing, key: Seq<char>)
    requires
        lookup(entries, key) is Some,
    ensures
        key.len() <= span(entries),
    decreases entries.len(),
{
    if entries.last().0 != key {
        lemma_lookup_within_span(entries.drop_last(), key);
    }
}

impl SourceTree {
    /// A source directory of which nothing is known yet.
    pub fn new() -> (tree: SourceTree)
        ensures
            tree@ == Seq::<(Seq<char>, NodeView)>::empty(),
    {
        let tree = SourceTree { entries: Vec::new() };
        assert(tree@ =~= Seq::<(Seq<char>, NodeView)>::empty());
        tree
    }

    /// Records that `path` is a directory.
    pub fn add_directory(&mut self, path: &str)
        ensures
            final(self)@ == old(self)@.push((bare(path@), NodeView::Directory)),
    {
        self.entries.push((strip(path), SourceNode::Directory));
        assert(self@ =~= old(self)@.push((bare(path@), NodeView::Directory)));
    }

    /// Records that `path` is a document that says `text`.
    pub fn add_document(&mut self, path: &str, text: &str)
        ensures
            final(self)@ == old(self)@.push((bare(path@), NodeView::Document(text@))),
    {
        self.entries.push((strip(path), SourceNode::Document(text.to_owned())));
        assert(self@ =~= old(self)@.push((bare(path@), NodeView::Document(text@))));
    }

    /// What stands at `path`, if anything.
    pub fn get(&self, path: &str) -> (r: Option<&SourceNode>)
        ensures
            match r {
                Some(node) => lookup(self@, bare(path@)) == Some(node@),
                None => lookup(self@, bare(path@)) is None,
            },
    {
        let key = strip(path);
        let mut i: usize = self.entries.len();
        assert(self@.take(i as int) =~= self@);
        while i > 0
            invariant
                i <= self.entries@.len(),
                key@ == bare(path@),
                lookup(self@, key@) == lookup(self@.take(i as int), key@),
            decreases i,
        {
            i -= 1;
            assert(self@.take(i + 1).drop_last() =~= self@.take(i as int));
            if self.entries[i].0 == key {
                return Some(&self.entries[i].1);
            }
        }
        None
    }

    /// Whether `path` is a directory.
    pub fn is_dir(&self, path: &str) -> (b: bool)
        ensures
            b == is_directory(self@, path@),
    {
        match self.get(path) {
            Some(SourceNode::Directory) => true,
            _ => false,
        }
    }

    /// Whether `path` is a document.
    pub fn is_file(&self, path: &str) -> (b: bool)
        ensures
            b == document(self@, path@).is_some(),
    {
        match self.get(path) {
            Some(SourceNode::Document(_)) => true,
            _ => false,
        }
    }

    /// What the document at `path` says, if there is a document.
    pub fn read(&self, path: &str) -> (r: Option<&String>)
        ensures
            match r {
                Some(text) => document(self@, path@) == Some(text@),
                None => document(self@, path@) is None,
            },
    {
        match self.get(path) {
            Some(SourceNode::Document(text)) => Some(text),
            _ => None,
        }
    }
}

} // verus!
