//! The result of transforming a single feature: the path it took through the tree
use vstd::prelude::*;
use crate::features::FeaturesGeneric;
use crate::features::u8::StorageU8;
use super::{Node, Vocabulary};

verus! {

/// The nodes a single-feature descent went through, and where it ended
///
/// `path` holds the nodes that the descent went through, from the root to
/// the block where it stopped; `child_offset` is the child index of the leaf
/// of that block that it found, or none when the descent stopped at the
/// requested depth.
#[derive(Clone)]
pub struct NodePath<'a> {
    vocab: &'a Vocabulary,
    path: Vec<&'a Node>,
    child_offset: Option<u32>,
}

impl<'a> NodePath<'a> {
    /// The vocabulary the path runs through
    pub closed spec fn vocab(&self) -> Vocabulary {
        *self.vocab
    }

    /// The nodes of the path, root first
    pub closed spec fn nodes(&self) -> Seq<Node> {
        self.path@.map_values(|n: &Node| *n)
    }

    /// Child index of the leaf found, if the descent reached one
    pub closed spec fn child_offset(&self) -> Option<u32> {
        self.child_offset
    }

    /// A path through `vocab`
    pub fn new(vocab: &'a Vocabulary, path: Vec<&'a Node>, child_offset: Option<u32>) -> (p: Self)
        ensures
            p.vocab() == *vocab,
            p.nodes() == path@.map_values(|n: &Node| *n),
            p.child_offset() == child_offset,
    {
        NodePath { vocab, path, child_offset }
    }

    /// Borrow the path
    pub fn as_ref(&self) -> (r: NodeRef<'_>)
        ensures
            r.vocab() == self.vocab(),
            r.nodes() == self.nodes(),
            r.child_offset() == self.child_offset(),
    {
        NodeRef { vocab: self.vocab, path: self.path.as_slice(), child_offset: self.child_offset }
    }
}

/// A borrowed [`NodePath`], or a part of one
#[derive(Clone, Copy)]
pub struct NodeRef<'a> {
    vocab: &'a Vocabulary,
    path: &'a [&'a Node],
    child_offset: Option<u32>,
}

impl<'a> NodeRef<'a> {
    /// The vocabulary the path runs through
    pub closed spec fn vocab(&self) -> Vocabulary {
        *self.vocab
    }

    /// The nodes of the path, root first
    pub closed spec fn nodes(&self) -> Seq<Node> {
        self.path@.map_values(|n: &Node| *n)
    }

    /// Child index of the leaf found, if the descent reached one
    pub closed spec fn child_offset(&self) -> Option<u32> {
        self.child_offset
    }

    /// The enclosing path: for a leaf, the block that holds it; for a node,
    /// the path without its last node, or none when the node is the root
    pub fn parent(&self) -> (p: Option<Self>)
        requires
            self.child_offset() is Some || self.nodes().len() > 0,
        ensures
            self.child_offset() is Some ==> p is Some && p->Some_0.nodes() == self.nodes(),
            self.child_offset() is None && self.nodes().len() == 1 ==> p is None,
            self.child_offset() is None && self.nodes().len() >= 2 ==>
                p is Some && p->Some_0.nodes() == self.nodes().take(self.nodes().len() - 1),
            p is Some ==> p->Some_0.vocab() == self.vocab() && p->Some_0.child_offset() is None,
    {
        let path: &'a [&'a Node] = match self.child_offset {
            Some(_) => self.path,
            None => {
                if self.path.len() == 1 {
                    return None;
                }
                let sub = vstd::slice::slice_subrange(self.path, 0, self.path.len() - 1);
                assert(sub@.map_values(|n: &Node| *n) =~= self.nodes().take(self.nodes().len() - 1));
                sub
            },
        };
        Some(NodeRef { vocab: self.vocab, path, child_offset: None })
    }

    /// Ids of the words under the last node of the path: the single leaf
    /// word when the descent found one, else every child of that node
    pub fn word_ids(&self) -> (ids: Vec<u32>)
        requires
            self.nodes().len() > 0,
            match self.child_offset() {
                Some(c) => self.nodes().last().base + c <= u32::MAX,
                None => self.nodes().last().base + self.nodes().last().n <= u32::MAX + 1,
            },
        ensures
            ids@ == spec_word_ids(self.nodes().last(), self.child_offset()),
    {
        let node: &Node = self.path[self.path.len() - 1];
        match self.child_offset {
            Some(child_offset) => {
                let mut ids: Vec<u32> = Vec::new();
                ids.push(node.base + child_offset);
                assert(ids@ =~= spec_word_ids(self.nodes().last(), self.child_offset()));
                ids
            },
            None => {
                let mut ids: Vec<u32> = Vec::with_capacity(node.n as usize);
                let mut o: u32 = 0;
                while o < node.n
                    invariant
                        o <= node.n,
                        node.base + node.n <= u32::MAX + 1,
                        ids@ == Seq::new(o as nat, |i: int| (node.base + i) as u32),
                    decreases node.n - o,
                {
                    ids.push(node.base + o);
                    o = o + 1;
                    assert(ids@ =~= Seq::new(o as nat, |i: int| (node.base + i) as u32));
                }
                ids
            },
        }
    }

    /// The features of the words under the last node of the path (see
    /// [`NodeRef::word_ids`]), for a vocabulary of `u8` features
    pub fn words_u8(&self) -> (words: Vec<Vec<u8>>)
        requires
            self.nodes().len() > 0,
            self.vocab().features is Uint8,
            self.vocab().features->Uint8_0.spec_storage() != StorageU8::Array61,
            forall|i: int| 0 <= i < spec_word_ids(self.nodes().last(), self.child_offset()).len() ==>
                #[trigger] spec_word_ids(self.nodes().last(), self.child_offset())[i] < self.vocab().features.spec_len(),
            match self.child_offset() {
                Some(c) => self.nodes().last().base + c <= u32::MAX,
                None => self.nodes().last().base + self.nodes().last().n <= u32::MAX + 1,
            },
        ensures
            words@.len() == spec_word_ids(self.nodes().last(), self.child_offset()).len(),
            forall|i: int| 0 <= i < words@.len() ==> (#[trigger] words@[i])@
                == self.vocab().features->Uint8_0@[spec_word_ids(self.nodes().last(), self.child_offset())[i] as int],
    {
        let ids = self.word_ids();
        let ghost fs = self.vocab().features->Uint8_0;
        let mut words: Vec<Vec<u8>> = Vec::with_capacity(ids.len());
        match &self.vocab.features {
            FeaturesGeneric::Uint8(f) => {
                let mut i: usize = 0;
                while i < ids.len()
                    invariant
                        i <= ids@.len(),
                        *f == fs,
                        fs.spec_storage() != StorageU8::Array61,
                        forall|j: int| 0 <= j < ids@.len() ==> #[trigger] ids@[j] < fs@.len(),
                        words@.len() == i,
                        forall|j: int| 0 <= j < i ==> (#[trigger] words@[j])@ == fs@[ids@[j] as int],
                    decreases ids@.len() - i,
                {
                    let w = f.get(ids[i] as usize);
                    match w {
                        Some(w) => words.push(w),
                        None => {},
                    }
                    i = i + 1;
                }
            },
            FeaturesGeneric::Float32(_) => {},
        }
        words
    }
}

impl<'a> NodeRef<'a> {
    /// The features (by bit pattern) of the words under the last node of the
    /// path (see [`NodeRef::word_ids`]), for a vocabulary of `f32` features
    pub fn words_f32(&self) -> (words: Vec<Vec<u32>>)
        requires
            self.nodes().len() > 0,
            self.vocab().features is Float32,
            forall|i: int| 0 <= i < spec_word_ids(self.nodes().last(), self.child_offset()).len() ==>
                #[trigger] spec_word_ids(self.nodes().last(), self.child_offset())[i] < self.vocab().features.spec_len(),
            match self.child_offset() {
                Some(c) => self.nodes().last().base + c <= u32::MAX,
                None => self.nodes().last().base + self.nodes().last().n <= u32::MAX + 1,
            },
        ensures
            words@.len() == spec_word_ids(self.nodes().last(), self.child_offset()).len(),
            forall|i: int| 0 <= i < words@.len() ==> (#[trigger] words@[i])@
                == self.vocab().features->Float32_0@[spec_word_ids(self.nodes().last(), self.child_offset())[i] as int],
    {
        let ids = self.word_ids();
        let ghost fs = self.vocab().features->Float32_0;
        let mut words: Vec<Vec<u32>> = Vec::with_capacity(ids.len());
        match &self.vocab.features {
            FeaturesGeneric::Float32(f) => {
                let mut i: usize = 0;
                while i < ids.len()
                    invariant
                        i <= ids@.len(),
                        *f == fs,
                        forall|j: int| 0 <= j < ids@.len() ==> #[trigger] ids@[j] < fs@.len(),
                        words@.len() == i,
                        forall|j: int| 0 <= j < i ==> (#[trigger] words@[j])@ == fs@[ids@[j] as int],
                    decreases ids@.len() - i,
                {
                    let w = f.get(ids[i] as usize);
                    match w {
                        Some(w) => words.push(w),
                        None => {},
                    }
                    i = i + 1;
                }
            },
            FeaturesGeneric::Uint8(_) => {},
        }
        words
    }
}

/// Ids of the words under `node`: the single leaf word `base + c`, or all the
/// children of the node
pub open spec fn spec_word_ids(node: Node, child_offset: Option<u32>) -> Seq<u32> {
    match child_offset {
        Some(c) => seq![(node.base + c) as u32],
        None => Seq::new(node.n as nat, |i: int| (node.base + i) as u32),
    }
}

} // verus!
