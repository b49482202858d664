//! A persistent Merkle Patricia Trie over byte-string keys: insert, delete
//! and lookup on a path-compressed radix tree, with a canonical encoding
//! and a memoized 32-byte root digest that commits to the key/value set.
use vstd::prelude::*;

pub mod model;

use crate::model::GNode;
use crate::model::lookup;

verus! {

/// A trie node. `Short` and `Full` carry memoization flags beside their
/// structure; `Hash` is an opaque digest reference to a collapsed subtree.
pub enum TrieNode {
    Short(Box<crate::node::ShortNode>),
    Full(Box<crate::node::FullNode>),
    Hash(crate::node::HashNode),
    Value(crate::node::ValueNode),
    Nil,
}

/// The ghost image of a sequence of nodes.
pub open spec fn view_nodes(s: Seq<TrieNode>) -> Seq<GNode>
    decreases s,
{
    if s.len() == 0 {
        Seq::empty()
    } else {
        view_nodes(s.drop_last()).push(view_node(s.last()))
    }
}

/// The ghost image of a node: its structure without the memoization flags.
pub open spec fn view_node(n: TrieNode) -> GNode
    decreases n,
{
    match n {
        TrieNode::Nil => GNode::Nil,
        TrieNode::Value(v) => GNode::Value(v.0@),
        TrieNode::Hash(h) => GNode::Hash(h.0@),
        TrieNode::Short(s) => GNode::Short { key: s.key@, child: Box::new(view_node(s.val)) },
        TrieNode::Full(f) => GNode::Full { children: view_nodes(f.children@) },
    }
}

impl View for TrieNode {
    type V = GNode;

    open spec fn view(&self) -> GNode {
        view_node(*self)
    }
}

pub broadcast proof fn lemma_view_nodes_index(s: Seq<TrieNode>, i: int)
    requires
        0 <= i < s.len(),
    ensures
        #[trigger] view_nodes(s)[i] == view_node(s[i]),
        view_nodes(s).len() == s.len(),
    decreases s,
{
    lemma_view_nodes_len(s);
    if s.len() > 0 {
        lemma_view_nodes_len(s.drop_last());
        if i < s.len() - 1 {
            lemma_view_nodes_index(s.drop_last(), i);
            assert(s.drop_last()[i] == s[i]);
        }
    }
}

pub broadcast proof fn lemma_view_nodes_len(s: Seq<TrieNode>)
    ensures
        (#[trigger] view_nodes(s)).len() == s.len(),
    decreases s,
{
    if s.len() > 0 {
        lemma_view_nodes_len(s.drop_last());
    }
}

/// The view of a sequence of nodes updated at one slot.
pub broadcast proof fn lemma_view_nodes_update(s: Seq<TrieNode>, i: int, x: TrieNode)
    requires
        0 <= i < s.len(),
    ensures
        #[trigger] view_nodes(s.update(i, x)) == view_nodes(s).update(i, view_node(x)),
{
    lemma_view_nodes_len(s);
    lemma_view_nodes_len(s.update(i, x));
    assert forall|j: int| 0 <= j < s.len() implies view_nodes(s.update(i, x))[j] == view_nodes(
        s,
    ).update(i, view_node(x))[j] by {
        lemma_view_nodes_index(s.update(i, x), j);
        lemma_view_nodes_index(s, j);
    }
    assert(view_nodes(s.update(i, x)) =~= view_nodes(s).update(i, view_node(x)));
}

/// The label a slot prints under in the diagnostic tree: its hex digit,
/// or a bracket mark for the terminator slot.
pub open spec fn slot_label(i: int) -> Seq<char> {
    if i == 0 {
        "0"@
    } else if i == 1 {
        "1"@
    } else if i == 2 {
        "2"@
    } else if i == 3 {
        "3"@
    } else if i == 4 {
        "4"@
    } else if i == 5 {
        "5"@
    } else if i == 6 {
        "6"@
    } else if i == 7 {
        "7"@
    } else if i == 8 {
        "8"@
    } else if i == 9 {
        "9"@
    } else if i == 10 {
        "a"@
    } else if i == 11 {
        "b"@
    } else if i == 12 {
        "c"@
    } else if i == 13 {
        "d"@
    } else if i == 14 {
        "e"@
    } else if i == 15 {
        "f"@
    } else {
        "[17]"@
    }
}

/// The diagnostic, indented rendering of a subtree.  It is for debugging
/// and tests only and carries no hashing authority.
pub open spec fn fstr(g: GNode, ind: Seq<char>) -> Seq<char>
    decreases g, 1int, 0int,
{
    match g {
        GNode::Nil => Seq::empty(),
        GNode::Value(v) => crate::common::hex_text(v) + " "@,
        GNode::Hash(h) => "<"@ + crate::common::hex_text(h) + ">"@,
        GNode::Short { key, child } => "{"@ + crate::common::hex_text(key) + ": "@ + fstr(
            *child,
            ind + "  "@,
        ) + "} "@,
        GNode::Full { children } => "[\n"@ + ind + "  "@ + fstr_slots(
            children,
            children.len() as int,
            ind,
        ) + "\n"@ + ind + "] "@,
    }
}

/// The renderings of the first `k` slots of a branch, each under its
/// label, an absent slot shown as nil.
pub open spec fn fstr_slots(s: Seq<GNode>, k: int, ind: Seq<char>) -> Seq<char>
    decreases s, 0int, k,
{
    if k <= 0 || k > s.len() {
        Seq::empty()
    } else {
        fstr_slots(s, k - 1, ind) + slot_label(k - 1) + ": "@ + (if s[k - 1] is Nil {
            "<nil> "@
        } else {
            fstr(s[k - 1], ind + "  "@)
        })
    }
}

/// The printed label of a slot.
fn slot_label_text(i: usize) -> (r: &'static str)
    ensures
        r@ == slot_label(i as int),
{
    if i == 0 {
        "0"
    } else if i == 1 {
        "1"
    } else if i == 2 {
        "2"
    } else if i == 3 {
        "3"
    } else if i == 4 {
        "4"
    } else if i == 5 {
        "5"
    } else if i == 6 {
        "6"
    } else if i == 7 {
        "7"
    } else if i == 8 {
        "8"
    } else if i == 9 {
        "9"
    } else if i == 10 {
        "a"
    } else if i == 11 {
        "b"
    } else if i == 12 {
        "c"
    } else if i == 13 {
        "d"
    } else if i == 14 {
        "e"
    } else if i == 15 {
        "f"
    } else {
        "[17]"
    }
}

/// An operation failed on a structurally unusable node; the message names
/// the cause.
#[derive(Debug, Clone)]
pub struct NodeError(String);

impl NodeError {
    /// Wraps a message.
    pub fn from(v: &str) -> (r: Self)
        ensures
            r.msg() == v@,
    {
        NodeError(v.to_owned())
    }

    /// The message carried by this error.
    pub closed spec fn msg(&self) -> Seq<char> {
        self.0@
    }

    /// The message, for presentation by a caller.
    pub fn message(&self) -> (r: &str)
        ensures
            r@ == self.msg(),
    {
        self.0.as_str()
    }
}

/// Identifies a trie within a larger state: the state root it belongs to,
/// an opaque owner tag, and its own root.  The tags are carried, never
/// read, by this in-memory core.
pub struct ID {
    state_root: crate::common::Hash,
    owner: crate::common::Hash,
    root: crate::common::Hash,
}

impl ID {
    /// The state root this ID names.
    pub closed spec fn spec_state_root(&self) -> Seq<u8> {
        self.state_root@
    }

    /// The opaque owner tag.
    pub closed spec fn spec_owner(&self) -> Seq<u8> {
        self.owner@
    }

    /// The root this ID names.
    pub closed spec fn spec_root(&self) -> Seq<u8> {
        self.root@
    }

    /// Identifies the account-state trie with the given root.
    pub fn state_trie_id(root: crate::common::Hash) -> (r: Self)
        ensures
            r.spec_state_root() == root@,
            r.spec_owner() == Seq::new(32, |i: int| 0u8),
    {
        ID { state_root: root, owner: crate::common::Hash::default(), root: crate::common::Hash::default() }
    }

    /// Identifies a general trie with the given root.
    pub fn trie_id(root: crate::common::Hash) -> (r: Self)
        ensures
            r.spec_state_root() == root@,
            r.spec_owner() == Seq::new(32, |i: int| 0u8),
    {
        ID { state_root: root, owner: crate::common::Hash::default(), root: crate::common::Hash::default() }
    }

    /// Identifies a storage trie under the given owner.
    pub fn storage_trie_id(state_root: crate::common::Hash, owner: crate::common::Hash, root: crate::common::Hash) -> (r: Self)
        ensures
            r.spec_state_root() == state_root@,
            r.spec_owner() == owner@,
            r.spec_root() == root@,
    {
        ID { state_root, owner, root }
    }

    /// The owner tag, handed on to the trie this ID names.
    pub fn owner_tag(&self) -> (r: crate::common::Hash)
        ensures
            r@ == self.spec_owner(),
    {
        crate::common::Hash::from(self.owner.to_bytes())
    }
}

impl TrieNode {
    /// Wraps a Short node.
    pub fn from_short_node(n: crate::node::ShortNode) -> (r: TrieNode)
        ensures
            r@ == n.view_short(),
            r == TrieNode::Short(Box::new(n)),
    {
        TrieNode::Short(Box::new(n))
    }

    /// Wraps a Full node.
    pub fn from_full_node(n: crate::node::FullNode) -> (r: TrieNode)
        ensures
            r@ == n.view_full(),
            r == TrieNode::Full(Box::new(n)),
    {
        TrieNode::Full(Box::new(n))
    }

    /// The variant tag of this node.
    pub fn kind(&self) -> (r: crate::node::NodeType)
        ensures
            r == crate::node::kind_of(self@),
    {
        match self {
            TrieNode::Short(_) => crate::node::NodeType::ShortNode,
            TrieNode::Full(_) => crate::node::NodeType::FullNode,
            TrieNode::Hash(_) => crate::node::NodeType::HashNode,
            TrieNode::Value(_) => crate::node::NodeType::ValueNode,
            TrieNode::Nil => crate::node::NodeType::NullNode,
        }
    }

    /// The memoized digest of this subtree, if one is held and still valid.
    pub fn cache(&self) -> (r: (Option<crate::node::HashNode>, bool))
        ensures
            r.0 == self.cached_hash(),
            r.1 == self.cached_dirty(),
    {
        match self {
            TrieNode::Short(n) => n.cache(),
            TrieNode::Full(n) => n.cache(),
            TrieNode::Hash(n) => n.cache(),
            TrieNode::Value(n) => n.cache(),
            TrieNode::Nil => (None, false),
        }
    }

    /// The memoized digest held by this node's flags, if any.
    pub open spec fn cached_hash(&self) -> Option<crate::node::HashNode> {
        match self {
            TrieNode::Short(n) => n.flags.hash,
            TrieNode::Full(n) => n.flags.hash,
            _ => None,
        }
    }

    /// The advisory dirty mark this node reports: its flags' mark where
    /// it has flags, always stale for terminal value and digest nodes,
    /// never for the absent node.
    pub open spec fn cached_dirty(&self) -> bool {
        match self {
            TrieNode::Short(n) => n.flags.dirty,
            TrieNode::Full(n) => n.flags.dirty,
            TrieNode::Nil => false,
            _ => true,
        }
    }

    /// Contributes this node's canonical bytes to the buffer.
    pub fn encode(&self, w: &mut crate::writer::EncodeBuffer)
        ensures
            final(w)@ == old(w)@ + crate::model::enc(self@),
        decreases *self, 0int,
    {
        match self {
            TrieNode::Short(n) => n.encode(w),
            TrieNode::Full(n) => n.encode(w),
            TrieNode::Hash(n) => n.encode(w),
            TrieNode::Value(n) => n.encode(w),
            TrieNode::Nil => {},
        }
    }

    /// The diagnostic, indented rendering of this subtree; for debugging
    /// and tests only, with no hashing authority.
    pub fn fstring(&self, v: String) -> (r: String)
        ensures
            r@ == fstr(self@, v@),
        decreases *self, 0int,
    {
        match self {
            TrieNode::Short(n) => n.fstring(v),
            TrieNode::Full(n) => n.fstring(v),
            TrieNode::Hash(n) => n.fstring(v),
            TrieNode::Value(n) => n.fstring(v),
            TrieNode::Nil => String::new(),
        }
    }

    /// This node as a stored value; any other variant is a structural
    /// mismatch.
    pub fn to_value_node(&self) -> (r: Result<crate::node::ValueNode, NodeError>)
        ensures
            r is Ok <==> self@ is Value,
            r is Ok ==> GNode::Value(r->Ok_0.0@) == self@,
    {
        match self {
            TrieNode::Value(v) => Ok(v.copy()),
            _ => Err(NodeError::from("invalid node")),
        }
    }

    /// This node as a Short node; any other variant is a structural
    /// mismatch.
    pub fn to_short_node(&self) -> (r: Result<&crate::node::ShortNode, NodeError>)
        ensures
            r is Ok <==> self@ is Short,
            r is Ok ==> r->Ok_0.view_short() == self@,
    {
        match self {
            TrieNode::Short(v) => Ok(v),
            _ => Err(NodeError::from("invalid node")),
        }
    }

    /// This node as a branch node; any other variant is a structural
    /// mismatch.
    pub fn to_full_node(&self) -> (r: Result<&crate::node::FullNode, NodeError>)
        ensures
            r is Ok <==> self@ is Full,
            r is Ok ==> r->Ok_0.view_full() == self@,
    {
        match self {
            TrieNode::Full(v) => Ok(v),
            _ => Err(NodeError::from("invalid node")),
        }
    }

    /// This node as a digest reference; any other variant is a structural
    /// mismatch.
    pub fn to_hash_node(&self) -> (r: Result<crate::node::HashNode, NodeError>)
        ensures
            r is Ok <==> self@ is Hash,
            r is Ok ==> GNode::Hash(r->Ok_0.0@) == self@,
    {
        match self {
            TrieNode::Hash(v) => Ok(v.copy()),
            _ => Err(NodeError::from("invalid node")),
        }
    }
}

/// The ghost image of an optional byte vector.
pub open spec fn opt_bytes(o: Option<Vec<u8>>) -> Option<Seq<u8>> {
    match o {
        Some(v) => Some(v@),
        None => None,
    }
}

/// Whether two byte slices hold the same bytes.
fn slices_equal(a: &[u8], b: &[u8]) -> (r: bool)
    ensures
        r == (a@ == b@),
{
    if a.len() != b.len() {
        proof {
            assert(a@ != b@);
        }
        return false;
    }
    let mut i: usize = 0;
    while i < a.len()
        invariant
            i <= a.len(),
            a@.len() == b@.len(),
            forall|j: int| 0 <= j < i ==> a@[j] == b@[j],
        decreases a.len() - i,
    {
        if a[i] != b[i] {
            proof {
                assert(a@ != b@);
            }
            return false;
        }
        i = i + 1;
    }
    proof {
        assert(a@ =~= b@);
    }
    true
}

/// What a lookup returned: the value found, whether an opaque node was
/// resolved on the way (never, in this in-memory core), and the node to
/// splice back in that case (`Nil` when nothing was resolved).
pub struct GetResult {
    value: Option<Vec<u8>>,
    did_resolve: bool,
    new_node: TrieNode,
}

impl GetResult {
    /// Assembles a lookup result from its parts.
    pub fn from(value: Option<Vec<u8>>, did_resolve: bool, new_node: TrieNode) -> (r: GetResult)
        ensures
            r.spec_value() == opt_bytes(value),
            r.spec_did_resolve() == did_resolve,
    {
        GetResult { value, did_resolve, new_node }
    }

    /// The value found, if any.
    pub closed spec fn spec_value(&self) -> Option<Seq<u8>> {
        opt_bytes(self.value)
    }

    /// Whether an opaque node was resolved.
    pub closed spec fn spec_did_resolve(&self) -> bool {
        self.did_resolve
    }
}

/// Appends the given bytes to a vector.
fn concat_bytes(a: Vec<u8>, b: &[u8]) -> (r: Vec<u8>)
    ensures
        r@ == a@ + b@,
{
    let mut a = a;
    let ghost a0 = a@;
    let mut i: usize = 0;
    while i < b.len()
        invariant
            i <= b.len(),
            a@ == a0 + b@.take(i as int),
        decreases b.len() - i,
    {
        a.push(b[i]);
        i = i + 1;
        proof {
            assert(a@ =~= a0 + b@.take(i as int));
        }
    }
    proof {
        assert(b@.take(b@.len() as int) =~= b@);
    }
    a
}

/// The persistent trie: the current root, the opaque owner tag it was
/// created under, and an advisory count of mutations since the last hash.
pub struct Trie {
    pub root: TrieNode,
    owner: crate::common::Hash,
    unhashed: u64,
}

impl Trie {
    /// The ghost image of the current root.
    pub closed spec fn model(&self) -> GNode {
        self.root@
    }

    /// The digest memoized on the root's flags, if any.
    pub closed spec fn spec_root_cached(&self) -> Option<Seq<u8>> {
        match self.root.cached_hash() {
            Some(h) => Some(h.0@),
            None => None,
        }
    }

    /// The invariant every public operation keeps: the root is a fully
    /// resolved, well-formed tree (never a bare value or an opaque digest
    /// reference), and every memoized digest in it is valid.
    pub closed spec fn wf(&self) -> bool {
        &&& crate::model::wf(self.root@)
        &&& !(self.root@ is Value)
        &&& !(self.root@ is Hash)
        &&& crate::hasher::cache_good(self.root)
    }

    /// The structural invariant, spelled out over the ghost tree: after
    /// every mutation sequence the root is a well-formed, fully resolved
    /// tree — no branch keeps fewer than two children, no Short node's
    /// child is itself Short, and no path ends in an opaque reference.
    pub proof fn lemma_wf_structure(&self)
        requires
            self.wf(),
        ensures
            crate::model::wf(self.model()),
            !(self.model() is Value),
            !(self.model() is Hash),
    {
    }

    /// An empty trie under the given identity.
    pub fn new(id: ID) -> (r: Self)
        ensures
            r.wf(),
            r.model() is Nil,
    {
        Trie { root: TrieNode::Nil, owner: id.owner_tag(), unhashed: 0 }
    }

    /// Flags for a node rebuilt by a mutation: no digest memoized yet.
    fn new_flag(&self) -> (r: crate::node::NodeFlag)
        ensures
            r.hash is None,
            r.dirty == true,
    {
        crate::node::NodeFlag { hash: None, dirty: true }
    }

    /// A Short node over the remainder of a path, or the node itself when
    /// nothing remains.
    fn make_short(&self, key: Vec<u8>, val: TrieNode) -> (r: TrieNode)
        requires
            crate::hasher::cache_good(val),
        ensures
            r@ == (if key@.len() == 0 {
                val@
            } else {
                GNode::Short { key: key@, child: Box::new(val@) }
            }),
            crate::hasher::cache_good(r),
    {
        if key.len() == 0 {
            val
        } else {
            TrieNode::from_short_node(crate::node::ShortNode::new(key, val, self.new_flag()))
        }
    }

    /// Inserts the subtree `value` at the relative nibble path `key` below
    /// `n`, sharing everything off the rewritten path.  Succeeds on every
    /// well-formed input; the result binds the inserted path and nothing
    /// else changes.
    ///
    /// The precondition admits only fully resolved, well-formed subtrees
    /// — the shape every tree reachable through the public operations has
    /// — so the structural-error branches below (a value met with nibbles
    /// remaining, an opaque digest reference met on the path) are
    /// provably unreachable here.  They still return the errors a
    /// resolving deployment surfaces — a caller that assembles a root
    /// holding digest references by hand, through the public `root`
    /// field, gets `unresolved node` back rather than a panic — but that
    /// behaviour lies outside the verified contract.
    fn insert(&self, n: TrieNode, prefix: Vec<u8>, key: Vec<u8>, value: TrieNode) -> (r: Result<
        (bool, TrieNode),
        NodeError,
    >)
        requires
            crate::model::ins_pre(n@, key@, value@),
            crate::hasher::cache_good(n),
            crate::hasher::cache_good(value),
        ensures
            r is Ok,
            r is Ok ==> crate::model::ins_post(n@, key@, value@, r->Ok_0.0, r->Ok_0.1@),
            r is Ok ==> crate::hasher::cache_good(r->Ok_0.1),
        decreases key@.len(),
    {
        broadcast use crate::model::lemma_prefixes_alt;

        let ghost gn = n@;
        let ghost gkey = key@;
        let ghost gval = value@;
        if key.len() == 0 {
            match n {
                TrieNode::Value(vn) => {
                    let vv = match value.to_value_node() {
                        Ok(x) => x,
                        Err(e) => {
                            proof {
                                assert(false);
                            }
                            return Err(e);
                        },
                    };
                    let changed = !vn.equal(vv);
                    proof {
                        assert forall|p: Seq<u8>| #[trigger] lookup(gval, p) == if crate::model::prefixes(gkey, p) {
                            lookup(gval, p.skip(gkey.len() as int))
                        } else {
                            lookup(gn, p)
                        } by {
                            assert(crate::model::prefixes(gkey, p));
                            assert(p.skip(0) =~= p);
                        }
                        assert(lookup(gn, gkey) == Some(gn->Value_0));
                        if !changed {
                            assert(gval =~= gn);
                        }
                    }
                    return Ok((changed, value));
                },
                _ => {
                    proof {
                        assert(gn is Nil);
                        crate::model::lemma_ins_nil(gkey, gval);
                    }
                    return Ok((true, value));
                },
            }
        }
        match n {
            TrieNode::Nil => {
                let r = self.make_short(key, value);
                proof {
                    crate::model::lemma_ins_nil(gkey, gval);
                    assert(crate::hasher::cache_good(r));
                }
                Ok((true, r))
            },
            TrieNode::Value(_) => {
                proof {
                    assert(false);
                }
                Err(NodeError::from("invalid node"))
            },
            TrieNode::Hash(_) => {
                proof {
                    assert(false);
                }
                Err(NodeError::from("unresolved node"))
            },
            TrieNode::Short(sn_box) => {
                let sn = *sn_box;
                let skey = sn.key;
                let child = sn.val;
                let sflags = sn.flags;
                let ghost gk = skey@;
                let ghost gc = child@;
                let m = crate::common::prefix_len(key.as_slice(), skey.as_slice());
                if m == skey.len() {
                    // the whole fragment matches: step into the child
                    proof {
                        assert(crate::model::prefixes(gk, gkey));
                        assert(gval is Value);
                        let suffix = gkey.skip(m as int);
                        assert(crate::model::is_tail(gkey));
                        if gk.last() == 16 {
                            assert(gc is Value);
                            assert(gkey[m - 1] == 16);
                            assert(m == gkey.len()) by {
                                if m < gkey.len() {
                                    assert(gkey[m - 1] < 16);
                                }
                            }
                            assert(suffix.len() == 0);
                        } else {
                            assert(gc is Full);
                            assert(m < gkey.len()) by {
                                if m == gkey.len() {
                                    assert(gk[m - 1] == gkey.last());
                                }
                            }
                            assert(crate::model::is_tail(suffix)) by {
                                assert(suffix.len() == gkey.len() - m);
                                assert(suffix.last() == gkey.last());
                            }
                        }
                        assert(crate::model::ins_pre(gc, suffix, gval));
                    }
                    let next_prefix = concat_bytes(
                        prefix,
                        vstd::slice::slice_subrange(key.as_slice(), 0, m),
                    );
                    let suffix_v = vstd::slice::slice_to_vec(
                        vstd::slice::slice_subrange(key.as_slice(), m, key.len()),
                    );
                    proof {
                        assert(suffix_v@ == gkey.skip(m as int));
                    }
                    let rr = match self.insert(child, next_prefix, suffix_v, value) {
                        Ok(x) => x,
                        Err(e) => {
                            proof {
                                assert(false);
                            }
                            return Err(e);
                        },
                    };
                    let dirty = rr.0;
                    let c2 = rr.1;
                    proof {
                        crate::model::lemma_ins_short_match(gk, gc, gkey, gval, dirty, c2@);
                    }
                    if !dirty {
                        let r = TrieNode::from_short_node(
                            crate::node::ShortNode::new(skey, c2, sflags),
                        );
                        proof {
                            assert(r@ == gn);
                            assert(crate::hasher::cache_good(r));
                        }
                        return Ok((false, r));
                    }
                    let r = TrieNode::from_short_node(
                        crate::node::ShortNode::new(skey, c2, self.new_flag()),
                    );
                    proof {
                        assert(crate::hasher::cache_good(r));
                    }
                    Ok((true, r))
                } else {
                    // the fragment diverges: split into a branch
                    proof {
                        crate::model::lemma_ins_split(gk, gc, gkey, gval, m as int);
                    }
                    let ghost gsplit = crate::model::split_result(gk, gc, gkey, gval, m as int);
                    let mut branch = crate::node::FullNode::from(self.new_flag());
                    let ghost ch0 = branch.children@;
                    let idx1 = skey[m] as usize;
                    let idx2 = key[m] as usize;
                    proof {
                        assert(idx1 < 17) by {
                            assert(gk[m as int] <= 16);
                        }
                        assert(idx2 < 17) by {
                            assert(crate::model::is_tail(gkey));
                            assert(gkey[m as int] <= 16);
                        }
                        assert(idx1 != idx2);
                    }
                    let b1key = vstd::slice::slice_to_vec(
                        vstd::slice::slice_subrange(skey.as_slice(), m + 1, skey.len()),
                    );
                    let b1 = self.make_short(b1key, child);
                    let ghost gb1: TrieNode = b1;
                    proof {
                        assert(b1key@ == gk.skip(m + 1));
                        assert(gb1@ == crate::model::split_arm(gk, gc, m as int));
                    }
                    branch.children.set(idx1, b1);
                    let ghost ch1 = branch.children@;
                    let b2key = vstd::slice::slice_to_vec(
                        vstd::slice::slice_subrange(key.as_slice(), m + 1, key.len()),
                    );
                    let b2 = self.make_short(b2key, value);
                    let ghost gb2: TrieNode = b2;
                    proof {
                        assert(b2key@ == gkey.skip(m + 1));
                        assert(gb2@ == crate::model::split_arm(gkey, gval, m as int));
                    }
                    branch.children.set(idx2, b2);
                    let ghost ch2 = branch.children@;
                    proof {
                        lemma_view_nodes_update(ch0, idx1 as int, gb1);
                        lemma_view_nodes_update(ch1, idx2 as int, gb2);
                        lemma_view_nodes_len(ch0);
                        assert(view_nodes(ch0) =~= Seq::new(17, |i: int| GNode::Nil)) by {
                            assert forall|j: int| 0 <= j < 17 implies view_nodes(ch0)[j]
                                == GNode::Nil by {
                                lemma_view_nodes_index(ch0, j);
                            }
                        }
                        assert(view_nodes(ch2) =~= Seq::new(17, |i: int| GNode::Nil).update(
                            gk[m as int] as int,
                            gb1@,
                        ).update(gkey[m as int] as int, gb2@));
                        assert forall|j: int| 0 <= j < 17 implies crate::hasher::cache_good(
                            #[trigger] ch2[j],
                        ) by {
                            if j != idx1 as int && j != idx2 as int {
                                lemma_view_nodes_index(ch2, j);
                                assert(ch2[j] == ch0[j]);
                            }
                        }
                        crate::hasher::lemma_cache_good_slots_build(ch2, 17);
                    }
                    let branch_node = TrieNode::from_full_node(branch);
                    proof {
                        assert(branch_node@ =~~= crate::model::split_branch(gk, gc, gkey, gval, m as int));
                        assert(crate::hasher::cache_good(branch_node));
                    }
                    if m == 0 {
                        proof {
                            assert(branch_node@ =~~= gsplit);
                        }
                        return Ok((true, branch_node));
                    }
                    let pre = vstd::slice::slice_to_vec(
                        vstd::slice::slice_subrange(key.as_slice(), 0, m),
                    );
                    let r = TrieNode::from_short_node(
                        crate::node::ShortNode::new(pre, branch_node, self.new_flag()),
                    );
                    proof {
                        assert(pre@ == gkey.take(m as int));
                        assert(r@ =~~= gsplit);
                        assert(crate::hasher::cache_good(r));
                    }
                    Ok((true, r))
                }
            },
            TrieNode::Full(f_box) => {
                let mut f = f_box;
                let ghost gch = f.children@;
                let idx = key[0] as usize;
                proof {
                    assert(crate::model::is_tail(gkey));
                    assert(gkey[0] <= 16);
                    lemma_view_nodes_len(gch);
                    lemma_view_nodes_index(gch, idx as int);
                }
                let child = f.children.remove(idx);
                let suffix_v = vstd::slice::slice_to_vec(
                    vstd::slice::slice_subrange(key.as_slice(), 1, key.len()),
                );
                let mut next_prefix = prefix;
                next_prefix.push(key[0]);
                proof {
                    let gchv = view_nodes(gch);
                    let suffix = gkey.skip(1);
                    assert(child@ == gchv[idx as int]);
                    assert(crate::model::wf(child@));
                    crate::hasher::lemma_cache_good_slots_index(gch, 17, idx as int);
                    assert(gval is Value);
                    if gkey[0] == 16 {
                        assert(gkey.len() == 1) by {
                            if gkey.len() > 1 {
                                assert(gkey[0] < 16);
                            }
                        }
                        assert(suffix.len() == 0);
                        assert(child@ is Nil || child@ is Value);
                    } else {
                        assert(suffix.len() > 0) by {
                            assert(gkey.last() == 16);
                        }
                        assert(crate::model::is_tail(suffix)) by {
                            assert(suffix.last() == gkey.last());
                        }
                        assert(!(child@ is Value));
                    }
                    assert(crate::model::ins_pre(child@, suffix, gval));
                }
                let rr = match self.insert(child, next_prefix, suffix_v, value) {
                    Ok(x) => x,
                    Err(e) => {
                        proof {
                            assert(false);
                        }
                        return Err(e);
                    },
                };
                let dirty = rr.0;
                let c2 = rr.1;
                f.children.insert(idx, c2);
                proof {
                    assert(f.children@ =~= gch.update(idx as int, rr.1));
                    lemma_view_nodes_update(gch, idx as int, rr.1);
                    crate::model::lemma_ins_full(view_nodes(gch), gkey, gval, dirty, rr.1@);
                    assert forall|j: int| 0 <= j < 17 implies crate::hasher::cache_good(
                        #[trigger] f.children@[j],
                    ) by {
                        if j != idx as int {
                            crate::hasher::lemma_cache_good_slots_index(gch, 17, j);
                            assert(f.children@[j] == gch[j]);
                        }
                    }
                    crate::hasher::lemma_cache_good_slots_build(f.children@, 17);
                }
                if !dirty {
                    let r = TrieNode::Full(f);
                    proof {
                        assert(r@ == gn);
                        assert(crate::hasher::cache_good(r));
                    }
                    return Ok((false, r));
                }
                f.flags = self.new_flag();
                let r = TrieNode::Full(f);
                proof {
                    assert(crate::hasher::cache_good(r));
                }
                Ok((true, r))
            },
        }
    }

    /// Removes the binding at the relative nibble path `key` below `n`,
    /// merging path-compression nodes and collapsing a branch left with a
    /// single child.  Succeeds on every well-formed input; the result
    /// drops the deleted path and nothing else changes.
    ///
    /// As with insert, the precondition admits only fully resolved,
    /// well-formed subtrees, so the `unresolved node` branch below is
    /// provably unreachable here; it stands, unverified, for callers
    /// outside the verified surface that meet an opaque digest reference
    /// and must resolve it externally before retrying.
    fn delete(&self, n: TrieNode, prefix: Vec<u8>, key: Vec<u8>) -> (r: Result<
        (bool, TrieNode),
        NodeError,
    >)
        requires
            crate::model::del_pre(n@, key@),
            crate::hasher::cache_good(n),
        ensures
            r is Ok,
            r is Ok ==> crate::model::del_post(n@, key@, r->Ok_0.0, r->Ok_0.1@),
            r is Ok ==> crate::hasher::cache_good(r->Ok_0.1),
        decreases key@.len(),
    {
        broadcast use crate::model::lemma_prefixes_alt;

        let ghost gn = n@;
        let ghost gkey = key@;
        match n {
            TrieNode::Nil => Ok((false, TrieNode::Nil)),
            TrieNode::Value(_) => {
                proof {
                    assert(gkey.len() == 0);
                    assert forall|p: Seq<u8>| #[trigger] lookup(GNode::Nil, p) == (if p == gkey {
                        None::<Seq<u8>>
                    } else {
                        lookup(gn, p)
                    }) by {
                        if p != gkey {
                            if p.len() == 0 {
                                assert(p =~= gkey);
                            }
                            assert(lookup(gn, p) is None);
                        }
                    }
                }
                Ok((true, TrieNode::Nil))
            },
            TrieNode::Hash(_) => {
                proof {
                    assert(false);
                }
                Err(NodeError::from("unresolved node"))
            },
            TrieNode::Short(sn_box) => {
                let ghost gk = sn_box.key@;
                let ghost gc = sn_box.val@;
                let m = crate::common::prefix_len(sn_box.key.as_slice(), key.as_slice());
                if m < sn_box.key.len() {
                    // the path diverges inside the fragment: nothing to remove
                    proof {
                        assert(!crate::model::prefixes(gk, gkey));
                        assert(lookup(gn, gkey) is None);
                    }
                    return Ok((false, TrieNode::Short(sn_box)));
                }
                if m == key.len() {
                    // the fragment is the whole remaining path: drop the leaf
                    proof {
                        assert(gkey.len() > 0);
                        assert(gk =~= gkey);
                        assert(gc is Value) by {
                            assert(gk.last() == gkey.last());
                        }
                        assert forall|p: Seq<u8>| #[trigger] lookup(GNode::Nil, p) == (if p == gkey {
                            None::<Seq<u8>>
                        } else {
                            lookup(gn, p)
                        }) by {
                            if p != gkey && crate::model::prefixes(gk, p) {
                                let q = p.skip(gk.len() as int);
                                assert(lookup(gn, p) == lookup(gc, q));
                                if q.len() == 0 {
                                    assert(p =~= gk);
                                }
                                assert(lookup(gc, q) is None);
                            }
                        }
                        assert(gkey.skip(gk.len() as int).len() == 0);
                        assert(lookup(gn, gkey) == lookup(gc, gkey.skip(gk.len() as int)));
                    }
                    return Ok((true, TrieNode::Nil));
                }
                // the whole fragment matches and the path goes on below it
                let sn = *sn_box;
                let skey = sn.key;
                let child = sn.val;
                let sflags = sn.flags;
                proof {
                    assert(crate::model::prefixes(gk, gkey));
                    assert(gc is Full) by {
                        if gk.last() == 16 {
                            assert(gkey[m - 1] == 16);
                            assert(gkey.len() == m) by {
                                if m < gkey.len() {
                                    assert(gkey[m - 1] < 16);
                                }
                            }
                        }
                    }
                    let suffix = gkey.skip(m as int);
                    assert(crate::model::is_tail(suffix)) by {
                        assert(suffix.len() == gkey.len() - m);
                        assert(suffix.last() == gkey.last());
                    }
                    assert(crate::model::del_pre(gc, suffix));
                }
                let next_prefix = concat_bytes(
                    prefix,
                    vstd::slice::slice_subrange(key.as_slice(), 0, m),
                );
                let suffix_v = vstd::slice::slice_to_vec(
                    vstd::slice::slice_subrange(key.as_slice(), m, key.len()),
                );
                let rr = match self.delete(child, next_prefix, suffix_v) {
                    Ok(x) => x,
                    Err(e) => {
                        proof {
                            assert(false);
                        }
                        return Err(e);
                    },
                };
                let dirty = rr.0;
                let c2 = rr.1;
                if !dirty {
                    let r = TrieNode::from_short_node(
                        crate::node::ShortNode::new(skey, c2, sflags),
                    );
                    proof {
                        assert(r@ == gn);
                        assert(lookup(gn, gkey) == lookup(gc, gkey.skip(m as int)));
                        assert(crate::hasher::cache_good(r));
                    }
                    return Ok((false, r));
                }
                proof {
                    crate::model::lemma_del_short(gk, gc, gkey, dirty, c2@);
                }
                match c2 {
                    TrieNode::Short(cb) => {
                        // two path-compression nodes in a row: splice them
                        let inner = *cb;
                        let new_key = concat_bytes(skey, inner.key.as_slice());
                        let r = TrieNode::from_short_node(
                            crate::node::ShortNode::new(new_key, inner.val, self.new_flag()),
                        );
                        proof {
                            assert(r@ == GNode::Short {
                                key: gk + c2@->Short_key,
                                child: c2@->Short_child,
                            });
                            assert(crate::hasher::cache_good(r));
                        }
                        Ok((true, r))
                    },
                    _ => {
                        let r = TrieNode::from_short_node(
                            crate::node::ShortNode::new(skey, c2, self.new_flag()),
                        );
                        proof {
                            assert(!(c2@ is Short));
                            assert(crate::hasher::cache_good(r));
                        }
                        Ok((true, r))
                    },
                }
            },
            TrieNode::Full(f_box) => {
                let mut f = f_box;
                let ghost gch = f.children@;
                let ghost gchv = view_nodes(gch);
                let idx = key[0] as usize;
                proof {
                    assert(crate::model::is_tail(gkey));
                    assert(gkey[0] <= 16);
                    lemma_view_nodes_len(gch);
                    lemma_view_nodes_index(gch, idx as int);
                }
                let child = f.children.remove(idx);
                let suffix_v = vstd::slice::slice_to_vec(
                    vstd::slice::slice_subrange(key.as_slice(), 1, key.len()),
                );
                let mut next_prefix = prefix;
                next_prefix.push(key[0]);
                proof {
                    let suffix = gkey.skip(1);
                    assert(child@ == gchv[idx as int]);
                    assert(crate::model::wf(child@));
                    crate::hasher::lemma_cache_good_slots_index(gch, 17, idx as int);
                    if gkey[0] == 16 {
                        assert(gkey.len() == 1) by {
                            if gkey.len() > 1 {
                                assert(gkey[0] < 16);
                            }
                        }
                        assert(suffix.len() == 0);
                        assert(child@ is Nil || child@ is Value);
                    } else {
                        assert(suffix.len() > 0) by {
                            assert(gkey.last() == 16);
                        }
                        assert(crate::model::is_tail(suffix)) by {
                            assert(suffix.last() == gkey.last());
                        }
                        assert(!(child@ is Value));
                    }
                    assert(crate::model::del_pre(child@, suffix));
                }
                let rr = match self.delete(child, next_prefix, suffix_v) {
                    Ok(x) => x,
                    Err(e) => {
                        proof {
                            assert(false);
                        }
                        return Err(e);
                    },
                };
                let dirty = rr.0;
                let c2 = rr.1;
                let is_nil = c2.kind() == crate::node::NodeType::NullNode;
                f.children.insert(idx, c2);
                proof {
                    assert(f.children@ =~= gch.update(idx as int, rr.1));
                    lemma_view_nodes_update(gch, idx as int, rr.1);
                    assert forall|j: int| 0 <= j < 17 implies crate::hasher::cache_good(
                        #[trigger] f.children@[j],
                    ) by {
                        if j != idx as int {
                            crate::hasher::lemma_cache_good_slots_index(gch, 17, j);
                            assert(f.children@[j] == gch[j]);
                        }
                    }
                    crate::hasher::lemma_cache_good_slots_build(f.children@, 17);
                    assert(lookup(gn, gkey) == lookup(gchv[idx as int], gkey.skip(1)));
                }
                if !dirty {
                    let r = TrieNode::Full(f);
                    proof {
                        assert(view_nodes(f.children@) =~= gchv);
                        assert(r@ == gn);
                        assert(crate::hasher::cache_good(r));
                    }
                    return Ok((false, r));
                }
                let ghost chv = view_nodes(f.children@);
                proof {
                    assert(chv == gchv.update(idx as int, rr.1@));
                    crate::model::lemma_del_full_pointwise(gchv, gkey, rr.1@);
                }
                if !is_nil {
                    // the slot still holds a subtree: stay a branch
                    f.flags = self.new_flag();
                    let r = TrieNode::Full(f);
                    proof {
                        assert(!(rr.1@ is Value)) by {
                            assert(rr.1@ is Short || rr.1@ is Full);
                        }
                        assert(crate::model::wf(r@)) by {
                            assert(crate::model::two_present(chv)) by {
                                let (a, b) = choose|a: int, b: int|
                                    0 <= a < b < 17 && !(gchv[a] is Nil) && !(gchv[b] is Nil);
                                assert(!(chv[a] is Nil));
                                assert(!(chv[b] is Nil));
                            }
                        }
                        assert(crate::hasher::cache_good(r));
                    }
                    return Ok((true, r));
                }
                // the slot became empty: count what is left
                proof {
                    assert(rr.1@ is Nil);
                    assert(chv[idx as int] is Nil);
                }
                let mut pos: usize = 100;
                let ghost mut ga: int = 0;
                let ghost mut gb: int = 0;
                let mut i: usize = 0;
                while i < 17
                    invariant
                        i <= 17,
                        f.children@.len() == 17,
                        chv == view_nodes(f.children@),
                        chv.len() == 17,
                        pos == 100 || pos == 101 || pos < i,
                        pos == 100 ==> forall|j: int| 0 <= j < i ==> (#[trigger] chv[j]) is Nil,
                        pos < 17 ==> !(chv[pos as int] is Nil) && forall|j: int|
                            0 <= j < i && j != pos ==> (#[trigger] chv[j]) is Nil,
                        pos == 101 ==> 0 <= ga < gb < 17 && !(chv[ga] is Nil) && !(chv[gb] is Nil),
                    decreases 17 - i,
                {
                    proof {
                        lemma_view_nodes_index(f.children@, i as int);
                    }
                    if f.children[i].kind() != crate::node::NodeType::NullNode {
                        if pos == 100 {
                            pos = i;
                        } else if pos < 17 {
                            proof {
                                ga = pos as int;
                                gb = i as int;
                            }
                            pos = 101;
                        }
                    }
                    i = i + 1;
                }
                proof {
                    assert(pos != 100) by {
                        if pos == 100 {
                            let (a, b) = choose|a: int, b: int|
                                0 <= a < b < 17 && !(gchv[a] is Nil) && !(gchv[b] is Nil);
                            if a != idx as int {
                                assert(chv[a] == gchv[a]);
                            } else {
                                assert(chv[b] == gchv[b]);
                            }
                        }
                    }
                }
                if pos >= 17 {
                    // at least two children remain: stay a branch
                    f.flags = self.new_flag();
                    let r = TrieNode::Full(f);
                    proof {
                        assert(crate::model::wf(r@)) by {
                            assert(crate::model::two_present(chv));
                        }
                        assert(crate::hasher::cache_good(r));
                    }
                    return Ok((true, r));
                }
                // exactly one child remains: collapse into a Short node
                proof {
                    assert(forall|j: int|
                        0 <= j < 17 && j != pos ==> (#[trigger] chv[j]) is Nil);
                    assert(pos != idx);
                    assert(chv[pos as int] == gchv[pos as int]);
                    assert(crate::model::wf(chv[pos as int]));
                    crate::model::lemma_single_slot(chv, pos as int);
                    crate::hasher::lemma_cache_good_slots_index(f.children@, 17, pos as int);
                }
                let sole = f.children.remove(pos);
                let ghost gsole = sole@;
                proof {
                    lemma_view_nodes_index(gch.update(idx as int, rr.1), pos as int);
                    assert(gsole == chv[pos as int]);
                }
                if pos != 16 && sole.kind() == crate::node::NodeType::ShortNode {
                    // the survivor is itself a Short node: splice the slot
                    // nibble onto its fragment
                    match sole {
                        TrieNode::Short(sb) => {
                            let inner = *sb;
                            let mut pk: Vec<u8> = Vec::new();
                            pk.push(pos as u8);
                            let new_key = concat_bytes(pk, inner.key.as_slice());
                            let r = TrieNode::from_short_node(
                                crate::node::ShortNode::new(new_key, inner.val, self.new_flag()),
                            );
                            proof {
                                crate::model::lemma_short_merge(
                                    seq![pos as u8],
                                    gsole->Short_key,
                                    *gsole->Short_child,
                                );
                                assert(r@ == GNode::Short {
                                    key: seq![pos as u8] + gsole->Short_key,
                                    child: gsole->Short_child,
                                });
                                assert(crate::model::wf(r@)) by {
                                    let kk = seq![pos as u8] + gsole->Short_key;
                                    assert(crate::model::is_segment(gsole->Short_key));
                                    assert(kk.last() == gsole->Short_key.last());
                                    assert forall|j: int| 0 <= j < kk.len() - 1 implies kk[j]
                                        < 16 by {
                                        if j > 0 {
                                            assert(kk[j] == gsole->Short_key[j - 1]);
                                        }
                                    }
                                }
                                assert forall|p: Seq<u8>| #[trigger] lookup(r@, p) == (if p
                                    == gkey {
                                    None::<Seq<u8>>
                                } else {
                                    lookup(gn, p)
                                }) by {
                                    assert(lookup(r@, p) == lookup(
                                        GNode::Short {
                                            key: seq![pos as u8],
                                            child: Box::new(gsole),
                                        },
                                        p,
                                    ));
                                    assert(lookup(
                                        GNode::Short {
                                            key: seq![pos as u8],
                                            child: Box::new(gsole),
                                        },
                                        p,
                                    ) == lookup(GNode::Full { children: chv }, p));
                                }
                                assert(crate::hasher::cache_good(r));
                            }
                            Ok((true, r))
                        },
                        _ => {
                            proof {
                                assert(false);
                            }
                            Err(NodeError::from("invalid node"))
                        },
                    }
                } else {
                    // wrap the survivor under its slot nibble
                    let mut pk: Vec<u8> = Vec::new();
                    pk.push(pos as u8);
                    let r = TrieNode::from_short_node(
                        crate::node::ShortNode::new(pk, sole, self.new_flag()),
                    );
                    proof {
                        assert(r@ == GNode::Short { key: seq![pos as u8], child: Box::new(gsole) });
                        assert(crate::model::wf(r@)) by {
                            if pos == 16 {
                                assert(gsole is Value);
                            } else {
                                assert(!(gsole is Value));
                                assert(!(gsole is Short));
                                assert(!(gsole is Hash));
                                assert(!(gsole is Nil));
                                assert(gsole is Full);
                            }
                        }
                        assert forall|p: Seq<u8>| #[trigger] lookup(r@, p) == (if p == gkey {
                            None::<Seq<u8>>
                        } else {
                            lookup(gn, p)
                        }) by {
                            assert(lookup(r@, p) == lookup(GNode::Full { children: chv }, p));
                        }
                        assert(crate::hasher::cache_good(r));
                    }
                    Ok((true, r))
                }
            },
        }
    }

    /// Pure traversal below `n` along the nibbles of `key` from position
    /// `pos` on: returns the value bound to the remaining path, if any.
    /// Retained as the splice point for systems that resolve opaque nodes
    /// from storage; this in-memory core never resolves.
    ///
    /// The precondition admits only fully resolved, well-formed subtrees,
    /// so the `unresolved node` branch below is provably unreachable
    /// here; it stands, unverified, for callers outside the verified
    /// surface that meet an opaque digest reference mid-traversal.
    fn get(&self, n: &TrieNode, key: &[u8], pos: usize) -> (r: Result<GetResult, NodeError>)
        requires
            crate::model::wf(n@),
            pos <= key@.len(),
            pos < key@.len() ==> crate::model::is_tail(key@.skip(pos as int)),
            n@ is Full ==> pos < key@.len(),
            n@ is Value ==> pos == key@.len(),
        ensures
            r is Ok,
            r is Ok ==> r->Ok_0.spec_value() == lookup(n@, key@.skip(pos as int)),
            r is Ok ==> !r->Ok_0.spec_did_resolve(),
        decreases key@.len() - pos, n,
    {
        broadcast use crate::model::lemma_prefixes_alt;

        let ghost rest = key@.skip(pos as int);
        match n {
            TrieNode::Value(vn) => {
                // a value is only ever reached with the path consumed
                proof {
                    assert(rest.len() == 0);
                }
                Ok(GetResult::from(
                    Some(crate::node::copy_bytes(vn.0.as_slice())),
                    false,
                    TrieNode::Nil,
                ))
            },
            TrieNode::Nil => Ok(GetResult::from(None, false, TrieNode::Nil)),
            TrieNode::Short(sn) => {
                let ghost gk = sn.key@;
                if sn.key.len() > key.len() - pos || !slices_equal(
                    sn.key.as_slice(),
                    vstd::slice::slice_subrange(key, pos, pos + sn.key.len()),
                ) {
                    proof {
                        assert(!crate::model::prefixes(gk, rest)) by {
                            if crate::model::prefixes(gk, rest) {
                                assert(key@.subrange(pos as int, pos + gk.len()) =~= rest.take(
                                    gk.len() as int,
                                ));
                            }
                        }
                        assert(lookup(n@, rest) is None);
                    }
                    return Ok(GetResult::from(None, false, TrieNode::Nil));
                }
                proof {
                    assert(key@.subrange(pos as int, pos + gk.len()) =~= rest.take(gk.len() as int));
                    assert(crate::model::prefixes(gk, rest));
                    assert(rest.skip(gk.len() as int) =~= key@.skip(pos + gk.len()));
                    let rest2 = rest.skip(gk.len() as int);
                    if rest2.len() > 0 {
                        assert(crate::model::is_tail(rest2)) by {
                            assert(rest2.last() == rest.last());
                            assert(forall|i: int|
                                0 <= i < rest2.len() ==> rest2[i] == rest[gk.len() + i]);
                        }
                    }
                    if sn.val@ is Full {
                        assert(gk.last() < 16);
                        assert(rest2.len() > 0) by {
                            if rest2.len() == 0 {
                                assert(rest.last() == gk.last());
                            }
                        }
                    }
                    if sn.val@ is Value {
                        assert(gk.last() == 16);
                        assert(rest2.len() == 0) by {
                            if rest2.len() > 0 {
                                assert(rest[gk.len() - 1] == gk.last());
                                assert(rest[gk.len() - 1] < 16);
                            }
                        }
                    }
                }
                let ret = match self.get(&sn.val, key, pos + sn.key.len()) {
                    Ok(x) => x,
                    Err(e) => {
                        proof {
                            assert(false);
                        }
                        return Err(e);
                    },
                };
                Ok(ret)
            },
            TrieNode::Full(f) => {
                let idx = key[pos] as usize;
                proof {
                    assert(rest[0] == key@[pos as int]);
                    assert(rest[0] <= 16);
                    lemma_view_nodes_len(f.children@);
                    lemma_view_nodes_index(f.children@, idx as int);
                    let child = view_nodes(f.children@)[idx as int];
                    let rest2 = rest.skip(1);
                    assert(rest2 =~= key@.skip(pos + 1));
                    if rest2.len() > 0 {
                        assert(crate::model::is_tail(rest2)) by {
                            assert(rest2.last() == rest.last());
                            assert(forall|i: int| 0 <= i < rest2.len() ==> rest2[i] == rest[1 + i]);
                        }
                    }
                    if child is Full {
                        assert(idx < 16);
                        assert(rest2.len() > 0) by {
                            if rest2.len() == 0 {
                                assert(rest.last() == rest[0]);
                            }
                        }
                    }
                    if child is Value {
                        assert(idx == 16);
                        assert(rest.len() == 1) by {
                            if rest.len() > 1 {
                                assert(rest[0] < 16);
                            }
                        }
                        assert(rest2.len() == 0);
                    }
                    assert(lookup(n@, rest) == lookup(child, rest2));
                }
                let ret = match self.get(&f.children[idx], key, pos + 1) {
                    Ok(x) => x,
                    Err(e) => {
                        proof {
                            assert(false);
                        }
                        return Err(e);
                    },
                };
                Ok(ret)
            },
            TrieNode::Hash(_) => {
                proof {
                    assert(false);
                }
                Err(NodeError::from("unresolved node"))
            },
        }
    }

    /// Looks the raw byte key up below the given (normally: this trie's
    /// current) root.
    pub fn try_get(&self, n: &TrieNode, key: &[u8]) -> (r: Result<Option<Vec<u8>>, NodeError>)
        requires
            crate::model::wf(n@),
            !(n@ is Value),
        ensures
            r is Ok,
            r is Ok ==> opt_bytes(r->Ok_0) == lookup(n@, crate::common::hex_of_key(key@)),
    {
        let path = crate::common::key_to_hex(key);
        proof {
            crate::common::lemma_hex_of_key_is_tail(key@);
            assert(path@.skip(0) =~= path@);
        }
        let ret = match self.get(n, path.as_slice(), 0) {
            Ok(x) => x,
            Err(e) => {
                proof {
                    assert(false);
                }
                return Err(e);
            },
        };
        Ok(ret.value)
    }

    /// Upserts (`Some`) or deletes (`None`) the binding of the raw byte
    /// key.  Succeeds on every input; afterwards the key's nibble path is
    /// bound to exactly the given value (or absent), every other path is
    /// bound as before, and an update that changes nothing leaves the
    /// root untouched.
    pub fn try_update(&mut self, key: Vec<u8>, value: Option<Vec<u8>>) -> (r: Result<
        (),
        NodeError,
    >)
        requires
            old(self).wf(),
        ensures
            r is Ok,
            final(self).wf(),
            (value matches Some(v) ==> {
                &&& forall|p: Seq<u8>|
                    #[trigger] lookup(final(self).model(), p) == (if p == crate::common::hex_of_key(
                        key@,
                    ) {
                        Some(v@)
                    } else {
                        lookup(old(self).model(), p)
                    })
                &&& crate::model::bindings(final(self).model()) == crate::model::bindings(
                    old(self).model(),
                ).insert(crate::common::hex_of_key(key@), v@)
                &&& (lookup(old(self).model(), crate::common::hex_of_key(key@)) == Some(v@)
                    ==> final(self).model() == old(self).model())
            }),
            (value is None ==> {
                &&& forall|p: Seq<u8>|
                    #[trigger] lookup(final(self).model(), p) == (if p == crate::common::hex_of_key(
                        key@,
                    ) {
                        None::<Seq<u8>>
                    } else {
                        lookup(old(self).model(), p)
                    })
                &&& crate::model::bindings(final(self).model()) == crate::model::bindings(
                    old(self).model(),
                ).remove(crate::common::hex_of_key(key@))
                &&& (lookup(old(self).model(), crate::common::hex_of_key(key@)) is None
                    ==> final(self).model() == old(self).model())
            }),
    {
        broadcast use crate::model::lemma_prefixes_alt;

        self.unhashed = self.unhashed.saturating_add(1);
        let path = crate::common::key_to_hex(key.as_slice());
        let ghost gpath = path@;
        let ghost groot = self.root@;
        proof {
            crate::common::lemma_hex_of_key_is_tail(key@);
        }
        let mut root = TrieNode::Nil;
        core::mem::swap(&mut self.root, &mut root);
        match value {
            Some(v) => {
                let vnode = TrieNode::Value(crate::node::ValueNode::new(v));
                let ghost gval = vnode@;
                proof {
                    assert(crate::model::ins_pre(groot, gpath, gval));
                }
                let rr = match self.insert(root, Vec::new(), path, vnode) {
                    Ok(x) => x,
                    Err(e) => {
                        proof {
                            assert(false);
                        }
                        return Err(e);
                    },
                };
                self.root = rr.1;
                proof {
                    let nn = self.root@;
                    assert forall|p: Seq<u8>| #[trigger] lookup(nn, p) == (if p == gpath {
                        Some(gval->Value_0)
                    } else {
                        lookup(groot, p)
                    }) by {
                        assert(lookup(nn, p) == if crate::model::prefixes(gpath, p) {
                            lookup(gval, p.skip(gpath.len() as int))
                        } else {
                            lookup(groot, p)
                        });
                        if p == gpath {
                            assert(crate::model::prefixes(gpath, p)) by {
                                assert(p.take(gpath.len() as int) =~= gpath);
                            }
                            assert(p.skip(gpath.len() as int).len() == 0);
                        } else if crate::model::prefixes(gpath, p) {
                            // a proper extension of a complete tail is not
                            // itself a tail, so nothing was bound there
                            assert(p.len() > gpath.len()) by {
                                if p.len() == gpath.len() {
                                    assert(p =~= gpath);
                                }
                            }
                            assert(lookup(gval, p.skip(gpath.len() as int)) is None);
                            assert(lookup(groot, p) is None) by {
                                if lookup(groot, p) is Some {
                                    crate::model::lemma_lookup_is_tail(groot, p);
                                    assert(p[gpath.len() - 1] == 16);
                                    assert(p[gpath.len() - 1] < 16);
                                }
                            }
                        }
                    }
                    if lookup(groot, gpath) == Some(gval->Value_0) {
                        assert(!rr.0);
                        assert(nn == groot);
                    }
                    assert(crate::model::bindings(nn) =~= crate::model::bindings(groot).insert(
                        gpath,
                        gval->Value_0,
                    ));
                }
                Ok(())
            },
            None => {
                proof {
                    assert(crate::model::del_pre(groot, gpath));
                }
                let rr = match self.delete(root, Vec::new(), path) {
                    Ok(x) => x,
                    Err(e) => {
                        proof {
                            assert(false);
                        }
                        return Err(e);
                    },
                };
                self.root = rr.1;
                proof {
                    if lookup(groot, gpath) is None {
                        assert(!rr.0);
                        assert(self.root@ == groot);
                    }
                    assert(!(self.root@ is Value)) by {
                        if rr.0 {
                            assert(groot is Nil || groot is Short || groot is Full);
                        }
                    }
                    assert(crate::model::bindings(self.root@) =~= crate::model::bindings(
                        groot,
                    ).remove(gpath));
                }
                Ok(())
            },
        }
    }

    /// The 32-byte root digest: a pure function of the current key/value
    /// set.  An empty trie reports the fixed empty-root constant; any
    /// other trie reports the digest of its forced canonical collapse.
    /// Freshly computed subtree digests are memoized back onto the live
    /// root for the next call.
    pub fn hash(&mut self) -> (r: crate::common::Hash)
        requires
            old(self).wf(),
        ensures
            final(self).wf(),
            final(self).model() == old(self).model(),
            r@ == crate::model::digest_of(old(self).model()),
            !(old(self).model() is Nil) ==> final(self).spec_root_cached() == Some(r@),
            old(self).model() is Nil ==> final(self).spec_root_cached() is None,
    {
        let pair = self.hash_root();
        self.root = pair.1;
        pair.0
    }

    /// Digests the root (forced), returning the digest and the retained
    /// copy of the root with memoized digests.
    fn hash_root(&mut self) -> (r: (crate::common::Hash, TrieNode))
        requires
            old(self).wf(),
        ensures
            final(self).wf(),
            r.1@ == old(self).model(),
            crate::hasher::cache_good(r.1),
            r.0@ == crate::model::digest_of(old(self).model()),
            !(old(self).model() is Nil) ==> (r.1.cached_hash() matches Some(h) && h.0@ == r.0@),
            old(self).model() is Nil ==> r.1.cached_hash() is None,
    {
        let ghost groot = self.root@;
        let mut root = TrieNode::Nil;
        core::mem::swap(&mut self.root, &mut root);
        if root.kind() == crate::node::NodeType::NullNode {
            let r = (crate::common::Hash::empty_root_hash(), root);
            proof {
                assert(r.1@ == groot);
            }
            return r;
        }
        let mut h = crate::hasher::Hasher::new(self.unhashed >= 100);
        let pair = h.hash_node(root, true);
        self.unhashed = 0;
        let hashed = pair.0;
        let cached = pair.1;
        proof {
            assert(hashed@ == crate::model::collapse(groot, true));
            assert(hashed@ is Hash) by {
                assert(groot is Short || groot is Full);
            }
        }
        let hn = match hashed.to_hash_node() {
            Ok(x) => x,
            Err(_) => {
                proof {
                    assert(false);
                }
                crate::node::HashNode::default()
            },
        };
        (crate::common::Hash::from(hn.0), cached)
    }
}

} // verus!

pub mod node;
pub mod common;
pub mod writer;
pub mod hasher;
