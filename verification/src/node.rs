//! The node variants of the trie and their memoization flags.
use vstd::prelude::*;

use crate::TrieNode;
use crate::model::GNode;
use crate::model::enc;
use crate::model::enc_slots;
use crate::writer::EncodeBuffer;
use vstd::string::StringExecFns;

verus! {

/// Discriminates the node variants.
#[derive(Debug, PartialEq, Eq, Structural)]
pub enum NodeType {
    HashNode,
    ValueNode,
    ShortNode,
    FullNode,
    NullNode,
}

/// The variant tag of a ghost node.
pub open spec fn kind_of(g: GNode) -> NodeType {
    match g {
        GNode::Nil => NodeType::NullNode,
        GNode::Value(_) => NodeType::ValueNode,
        GNode::Short { .. } => NodeType::ShortNode,
        GNode::Full { .. } => NodeType::FullNode,
        GNode::Hash(_) => NodeType::HashNode,
    }
}

/// A 32-byte digest of a collapsed subtree.
#[derive(Clone, Copy, Debug)]
pub struct HashNode(pub [u8; 32]);

impl HashNode {
    /// The all-zero digest reference.
    pub fn new() -> (r: Self)
        ensures
            r.0@ == Seq::new(32, |i: int| 0u8),
    {
        let r = HashNode([0u8; 32]);
        proof {
            assert(r.0@ =~= Seq::new(32, |i: int| 0u8));
        }
        r
    }

    /// Wraps raw digest bytes.
    pub fn from(v: [u8; 32]) -> (r: Self)
        ensures
            r.0@ == v@,
    {
        HashNode(v)
    }

    /// The all-zero digest reference.
    pub fn default() -> (r: Self)
        ensures
            r.0@ == Seq::new(32, |i: int| 0u8),
    {
        HashNode::new()
    }

    /// A copy of this digest reference.
    pub fn copy(&self) -> (r: Self)
        ensures
            r == *self,
    {
        HashNode(self.0)
    }

    /// A digest reference never carries a memoized digest of its own.
    pub fn cache(&self) -> (r: (Option<HashNode>, bool))
        ensures
            r.0 is None,
            r.1 == true,
    {
        (None, true)
    }

    /// Contributes the raw digest bytes to the canonical encoding.
    pub fn encode(&self, w: &mut EncodeBuffer)
        ensures
            final(w)@ == old(w)@ + enc(GNode::Hash(self.0@)),
    {
        w.write_bytes(self.0.as_slice());
    }

    pub fn kind(&self) -> (r: NodeType)
        ensures
            r == NodeType::HashNode,
    {
        NodeType::HashNode
    }

    /// The diagnostic rendering: the digest in hex, bracketed.
    pub fn fstring(&self, v: String) -> (r: String)
        ensures
            r@ == crate::fstr(GNode::Hash(self.0@), v@),
    {
        let mut s = String::from_str("<");
        let hx = crate::common::hex_encode_text(self.0.as_slice());
        s.append(hx.as_str());
        s.append(">");
        proof {
            assert(s@ =~= crate::fstr(GNode::Hash(self.0@), v@));
        }
        s
    }

    /// A copy of this digest reference.
    pub fn into_hash_node(&self) -> (r: HashNode)
        ensures
            r == *self,
    {
        HashNode(self.0)
    }
}

/// A stored byte value.
pub struct ValueNode(pub Vec<u8>);

/// Conversion of plain byte containers into a stored value.
pub trait ToValueNode {
    fn to_value_node(&self) -> (r: ValueNode)
        ensures
            r.0@ == self.byte_seq(),
    ;

    spec fn byte_seq(&self) -> Seq<u8>;
}

impl ToValueNode for Vec<u8> {
    fn to_value_node(&self) -> (r: ValueNode)
        ensures
            r.0@ == self.byte_seq(),
    {
        ValueNode(copy_bytes(self.as_slice()))
    }

    open spec fn byte_seq(&self) -> Seq<u8> {
        self@
    }
}

impl ToValueNode for &[u8] {
    fn to_value_node(&self) -> (r: ValueNode)
        ensures
            r.0@ == self.byte_seq(),
    {
        ValueNode(copy_bytes(self))
    }

    open spec fn byte_seq(&self) -> Seq<u8> {
        self@
    }
}

/// A fresh copy of the given bytes.
pub fn copy_bytes(src: &[u8]) -> (r: Vec<u8>)
    ensures
        r@ == src@,
{
    let mut dst: Vec<u8> = Vec::new();
    let mut i: usize = 0;
    while i < src.len()
        invariant
            i <= src.len(),
            dst@ == src@.take(i as int),
        decreases src.len() - i,
    {
        dst.push(src[i]);
        proof {
            assert(dst@ =~= src@.take(i + 1));
        }
        i = i + 1;
    }
    proof {
        assert(src@.take(src@.len() as int) =~= src@);
    }
    dst
}

/// Whether two byte vectors hold the same bytes.
pub fn bytes_equal(a: &Vec<u8>, b: &Vec<u8>) -> (r: bool)
    ensures
        r == (a@ == b@),
{
    if a.len() != b.len() {
        proof {
            assert(a@ != b@);
        }
        return false;
    }
    let mut i: usize = 0;
    while i < a.len()
        invariant
            i <= a.len(),
            a@.len() == b@.len(),
            forall|j: int| 0 <= j < i ==> a@[j] == b@[j],
        decreases a.len() - i,
    {
        if a[i] != b[i] {
            proof {
                assert(a@ != b@);
            }
            return false;
        }
        i = i + 1;
    }
    proof {
        assert(a@ =~= b@);
    }
    true
}

impl ValueNode {
    /// Wraps the given bytes as a stored value.
    pub fn new<T: ToValueNode>(v: T) -> (r: Self)
        ensures
            r.0@ == v.byte_seq(),
    {
        v.to_value_node()
    }

    /// The empty value.
    pub fn default() -> (r: Self)
        ensures
            r.0@ == Seq::<u8>::empty(),
    {
        ValueNode(Vec::new())
    }

    /// A fresh copy of this value.
    pub fn copy(&self) -> (r: ValueNode)
        ensures
            r.0@ == self.0@,
    {
        ValueNode(copy_bytes(self.0.as_slice()))
    }

    /// Whether this value holds the same bytes as the given one.
    pub fn equal(&self, v: Self) -> (r: bool)
        ensures
            r == (self.0@ == v.0@),
    {
        bytes_equal(&self.0, &v.0)
    }

    /// A stored value never carries a memoized digest.
    pub fn cache(&self) -> (r: (Option<HashNode>, bool))
        ensures
            r.0 is None,
            r.1 == true,
    {
        (None, true)
    }

    /// Contributes the raw value bytes to the canonical encoding.
    pub fn encode(&self, w: &mut EncodeBuffer)
        ensures
            final(w)@ == old(w)@ + enc(GNode::Value(self.0@)),
    {
        w.write_bytes(self.0.as_slice());
    }

    pub fn kind(&self) -> (r: NodeType)
        ensures
            r == NodeType::ValueNode,
    {
        NodeType::ValueNode
    }

    /// The diagnostic rendering: the value in hex.
    pub fn fstring(&self, v: String) -> (r: String)
        ensures
            r@ == crate::fstr(GNode::Value(self.0@), v@),
    {
        let mut s = crate::common::hex_encode_text(self.0.as_slice());
        s.append(" ");
        proof {
            assert(s@ =~= crate::fstr(GNode::Value(self.0@), v@));
        }
        s
    }

    /// A fresh copy of this value.
    pub fn into_value_node(&self) -> (r: ValueNode)
        ensures
            r.0@ == self.0@,
    {
        ValueNode(copy_bytes(self.0.as_slice()))
    }
}

/// The absent node.
pub struct NilNode;

impl NilNode {
    pub fn new() -> Self {
        NilNode
    }

    /// The absent node carries no memoized digest.
    pub fn cache(&self) -> (r: (Option<HashNode>, bool))
        ensures
            r.0 is None,
            r.1 == false,
    {
        (None, false)
    }

    /// The absent node contributes nothing of its own; its parent writes
    /// the marker byte in its place.
    pub fn encode(&self, w: &mut EncodeBuffer)
        ensures
            final(w)@ == old(w)@,
    {
    }

    pub fn kind(&self) -> (r: NodeType)
        ensures
            r == NodeType::NullNode,
    {
        NodeType::NullNode
    }

    /// The diagnostic rendering of the absent node: nothing.
    pub fn fstring(&self, v: String) -> (r: String)
        ensures
            r@ == Seq::<char>::empty(),
    {
        String::new()
    }
}

/// Memoization state: the cached digest of the subtree, if it is still
/// valid, and an advisory dirty mark.
#[derive(Clone, Copy)]
pub struct NodeFlag {
    pub hash: Option<HashNode>,
    pub dirty: bool,
}

impl NodeFlag {
    /// No digest memoized, not dirty.
    pub fn default() -> (r: Self)
        ensures
            r.hash is None,
            r.dirty == false,
    {
        NodeFlag { hash: None, dirty: false }
    }

    /// The memoized digest reference, if one is held.
    pub fn get_hash_node(&self) -> (r: Option<HashNode>)
        ensures
            r == self.hash,
    {
        match &self.hash {
            Some(v) => Some(v.copy()),
            None => None,
        }
    }
}

/// Path compression: a key fragment and the single child below it.
pub struct ShortNode {
    pub key: Vec<u8>,
    pub val: TrieNode,
    pub flags: NodeFlag,
}

impl ShortNode {
    /// Assembles a Short node from its parts.
    pub fn new(key: Vec<u8>, val: TrieNode, flags: NodeFlag) -> (r: Self)
        ensures
            r.key == key,
            r.val == val,
            r.flags == flags,
    {
        ShortNode { key, val, flags }
    }

    /// The memoized digest of this subtree, if still valid.
    pub fn cache(&self) -> (r: (Option<HashNode>, bool))
        ensures
            r.0 == self.flags.hash,
            r.1 == self.flags.dirty,
    {
        (self.flags.get_hash_node(), self.flags.dirty)
    }

    /// Contributes the key fragment followed by the child's contribution,
    /// or the marker byte for an absent child.
    pub fn encode(&self, w: &mut EncodeBuffer)
        ensures
            final(w)@ == old(w)@ + enc(self.view_short()),
        decreases self.val, 1int,
    {
        w.write_bytes(self.key.as_slice());
        if self.val.kind() != NodeType::NullNode {
            self.val.encode(w);
        } else {
            w.write(0x80);
        }
        proof {
            assert(w@ =~= old(w)@ + enc(self.view_short()));
        }
    }

    /// The ghost image of this node.
    pub open spec fn view_short(&self) -> GNode {
        GNode::Short { key: self.key@, child: Box::new(crate::view_node(self.val)) }
    }

    pub fn kind(&self) -> (r: NodeType)
        ensures
            r == NodeType::ShortNode,
    {
        NodeType::ShortNode
    }

    /// The diagnostic rendering: the fragment in hex over the child's
    /// rendering.
    pub fn fstring(&self, ind: String) -> (r: String)
        ensures
            r@ == crate::fstr(self.view_short(), ind@),
        decreases self.val, 1int,
    {
        let mut child_ind = ind.clone();
        child_ind.append("  ");
        let v_str = self.val.fstring(child_ind);
        let mut s = String::from_str("{");
        let hx = crate::common::hex_encode_text(self.key.as_slice());
        s.append(hx.as_str());
        s.append(": ");
        s.append(v_str.as_str());
        s.append("} ");
        proof {
            assert(s@ =~= crate::fstr(self.view_short(), ind@));
        }
        s
    }
}

/// A 17-way branch node; absent children are held as `Nil`.
pub struct FullNode {
    pub children: Vec<TrieNode>,
    pub flags: NodeFlag,
}

impl FullNode {
    /// A branch with all 17 slots absent and no memoized digest.
    pub fn default() -> (r: Self)
        ensures
            r.children@.len() == 17,
            forall|i: int| 0 <= i < 17 ==> (#[trigger] r.children@[i]) is Nil,
            r.flags.hash is None,
            r.flags.dirty == false,
    {
        FullNode::from(NodeFlag::default())
    }

    /// A branch with all 17 slots absent and the given flags.
    pub fn from(flags: NodeFlag) -> (r: Self)
        ensures
            r.children@.len() == 17,
            forall|i: int| 0 <= i < 17 ==> (#[trigger] r.children@[i]) is Nil,
            r.flags == flags,
    {
        let mut children: Vec<TrieNode> = Vec::new();
        let mut i: usize = 0;
        while i < 17
            invariant
                i <= 17,
                children@.len() == i,
                forall|j: int| 0 <= j < i ==> (#[trigger] children@[j]) is Nil,
            decreases 17 - i,
        {
            children.push(TrieNode::Nil);
            i = i + 1;
        }
        FullNode { children, flags }
    }

    /// The memoized digest of this subtree, if still valid.
    pub fn cache(&self) -> (r: (Option<HashNode>, bool))
        ensures
            r.0 == self.flags.hash,
            r.1 == self.flags.dirty,
    {
        (self.flags.get_hash_node(), self.flags.dirty)
    }

    /// The ghost image of this node.
    pub open spec fn view_full(&self) -> GNode {
        GNode::Full { children: crate::view_nodes(self.children@) }
    }

    /// Contributes every slot's contribution in order, an absent slot
    /// contributing the marker byte.
    pub fn encode(&self, w: &mut EncodeBuffer)
        ensures
            final(w)@ == old(w)@ + enc(self.view_full()),
        decreases self.children, 1int,
    {
        proof {
            crate::lemma_view_nodes_len(self.children@);
        }
        let ghost gchildren = crate::view_nodes(self.children@);
        let mut i: usize = 0;
        while i < self.children.len()
            invariant
                i <= self.children@.len(),
                gchildren == crate::view_nodes(self.children@),
                gchildren.len() == self.children@.len(),
                w@ == old(w)@ + enc_slots(gchildren, i as int),
            decreases self.children@.len() - i,
        {
            proof {
                crate::lemma_view_nodes_index(self.children@, i as int);
            }
            let child = &self.children[i];
            if child.kind() == NodeType::NullNode {
                w.write(0x80);
            } else {
                child.encode(w);
            }
            proof {
                assert(w@ =~= old(w)@ + enc_slots(gchildren, i + 1));
            }
            i = i + 1;
        }
        proof {
            assert(enc(self.view_full()) == enc_slots(gchildren, gchildren.len() as int));
        }
    }

    pub fn kind(&self) -> (r: NodeType)
        ensures
            r == NodeType::FullNode,
    {
        NodeType::FullNode
    }

    /// The diagnostic rendering: every slot under its label, indented.
    pub fn fstring(&self, ind: String) -> (r: String)
        ensures
            r@ == crate::fstr(self.view_full(), ind@),
        decreases self.children, 1int,
    {
        proof {
            crate::lemma_view_nodes_len(self.children@);
        }
        let ghost gch = crate::view_nodes(self.children@);
        let mut resp = String::from_str("[\n");
        resp.append(ind.as_str());
        resp.append("  ");
        let mut i: usize = 0;
        while i < self.children.len()
            invariant
                i <= self.children@.len(),
                gch == crate::view_nodes(self.children@),
                gch.len() == self.children@.len(),
                resp@ == "[\n"@ + ind@ + "  "@ + crate::fstr_slots(gch, i as int, ind@),
            decreases self.children@.len() - i,
        {
            proof {
                crate::lemma_view_nodes_index(self.children@, i as int);
            }
            let lbl = crate::slot_label_text(i);
            resp.append(lbl);
            resp.append(": ");
            let child = &self.children[i];
            if child.kind() == NodeType::NullNode {
                resp.append("<nil> ");
            } else {
                let mut child_ind = ind.clone();
                child_ind.append("  ");
                let cs = child.fstring(child_ind);
                resp.append(cs.as_str());
            }
            proof {
                assert(resp@ =~= "[\n"@ + ind@ + "  "@ + crate::fstr_slots(gch, i + 1, ind@));
            }
            i = i + 1;
        }
        resp.append("\n");
        resp.append(ind.as_str());
        resp.append("] ");
        proof {
            assert(resp@ =~= crate::fstr(self.view_full(), ind@));
        }
        resp
    }
}

} // verus!
