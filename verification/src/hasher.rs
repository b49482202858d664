//! The hasher: bottom-up canonical encoding and digesting of a trie,
//! collapsing subtrees into opaque digest references once their encoding
//! reaches the 32-byte threshold and memoizing every digest it computes
//! on the retained copy of the live tree.
use vstd::prelude::*;

use crate::TrieNode;
use crate::model::GNode;
use crate::model::collapse;
use crate::model::keccak_of;
use crate::node::HashNode;
use crate::writer::EncodeBuffer;

verus! {

/// Relies on the `crypto` crate's `Sha3::keccak256` with `Digest::input`
/// and `Digest::result`: a 256-bit digest computed from the input bytes
/// alone, written into the 32-byte output buffer.
#[verifier::external_body]
fn keccak256(data: &[u8]) -> (r: [u8; 32])
    ensures
        r@ == keccak_of(data@),
{
    let mut h = crypto::sha3::Sha3::keccak256();
    crypto::digest::Digest::input(&mut h, data);
    let mut out = [0u8; 32];
    crypto::digest::Digest::result(&mut h, &mut out);
    out
}

/// Every memoized digest in the subtree is the digest of the node's
/// collapse: a clean (non-dirty) memo is the digest of the unforced
/// collapse, so it may stand in for the node under any parent; a dirty
/// memo was taken under force while the encoding was still below the
/// threshold, so it is the digest of the forced collapse only and is
/// never served in place of the unforced one.
pub open spec fn cache_good(n: TrieNode) -> bool
    decreases n, 1int, 0int,
{
    match n {
        TrieNode::Nil => true,
        TrieNode::Value(_) => true,
        TrieNode::Hash(_) => true,
        TrieNode::Short(s) => {
            &&& (s.flags.hash matches Some(h) ==> (if s.flags.dirty {
                collapse(crate::view_node(n), true)
            } else {
                collapse(crate::view_node(n), false)
            }) == GNode::Hash(h.0@))
            &&& cache_good(s.val)
        },
        TrieNode::Full(f) => {
            &&& (f.flags.hash matches Some(h) ==> (if f.flags.dirty {
                collapse(crate::view_node(n), true)
            } else {
                collapse(crate::view_node(n), false)
            }) == GNode::Hash(h.0@))
            &&& cache_good_slots(f.children@, f.children@.len() as int)
        },
    }
}

/// Cache validity of the first `k` children.
pub open spec fn cache_good_slots(s: Seq<TrieNode>, k: int) -> bool
    decreases s, 0int, k,
{
    if k <= 0 || k > s.len() {
        true
    } else {
        cache_good_slots(s, k - 1) && cache_good(s[k - 1])
    }
}

pub proof fn lemma_cache_good_slots_index(s: Seq<TrieNode>, k: int, i: int)
    requires
        cache_good_slots(s, k),
        0 <= i < k <= s.len(),
    ensures
        cache_good(s[i]),
    decreases k,
{
    if i < k - 1 {
        lemma_cache_good_slots_index(s, k - 1, i);
    }
}

pub proof fn lemma_cache_good_slots_build(s: Seq<TrieNode>, k: int)
    requires
        forall|i: int| 0 <= i < k ==> cache_good(#[trigger] s[i]),
    ensures
        cache_good_slots(s, k),
    decreases k,
{
    if k > 0 {
        lemma_cache_good_slots_build(s, k - 1);
    }
}

/// The hashing engine: holds the encode buffer the nodes serialize into.
/// The parallel mark is carried for deployments that hash a branch's
/// children concurrently; this core always hashes sequentially.
pub struct Hasher {
    parallel: bool,
    out_hash_size: usize,
    w: EncodeBuffer,
}

impl Hasher {
    /// The bytes accumulated in the encode buffer.
    pub closed spec fn buf(&self) -> Seq<u8> {
        self.w@
    }

    /// A fresh hasher with an empty buffer.
    pub fn new(parallel: bool) -> (r: Hasher)
        ensures
            r.buf() == Seq::<u8>::empty(),
    {
        Hasher { parallel, out_hash_size: 32, w: EncodeBuffer::new() }
    }

    /// Digests raw bytes into a digest reference node.
    pub fn hash_data(&mut self, data: &[u8]) -> (r: HashNode)
        ensures
            r.0@ == keccak_of(data@),
            final(self).buf() == old(self).buf(),
    {
        HashNode::from(keccak256(data))
    }

    /// Drains the encode buffer.
    fn encod_bytes(&mut self) -> (r: Vec<u8>)
        ensures
            r@ == old(self).buf(),
            final(self).buf() == Seq::<u8>::empty(),
    {
        let ret = self.w.encode_bytes();
        self.w.reset();
        ret
    }

    /// Collapses and digests a subtree bottom-up.  Returns the collapsed
    /// node a parent embeds in its own encoding, and a copy of the input
    /// that carries the freshly computed digest in its flags exactly when
    /// a digest reference was returned.
    pub fn hash_node(&mut self, n: TrieNode, force: bool) -> (r: (TrieNode, TrieNode))
        requires
            crate::model::wf(n@),
            cache_good(n),
            old(self).buf() == Seq::<u8>::empty(),
        ensures
            final(self).buf() == Seq::<u8>::empty(),
            r.0@ == collapse(n@, force),
            r.1@ == n@,
            cache_good(r.1),
            (n@ is Short || n@ is Full) ==> (r.1.cached_hash() is Some <==> r.0@ is Hash),
            (n@ is Short || n@ is Full) ==> (r.1.cached_hash() matches Some(h) ==> r.0@
                == GNode::Hash(h.0@)),
        decreases n, 2int,
    {
        let ghost gn = n@;
        let cache_pair = n.cache();
        if let Some(v) = cache_pair.0 {
            if !cache_pair.1 {
                // a valid, non-dirty memoized digest short-circuits the
                // whole subtree; a dirty one (taken under force below the
                // threshold) answers only a forced call and is recomputed
                // instead
                proof {
                    assert(collapse(gn, false) == GNode::Hash(v.0@));
                    crate::model::lemma_collapse_force(gn);
                }
                return (TrieNode::Hash(v), n);
            }
        }
        match n {
            TrieNode::Short(sb) => {
                let sn = *sb;
                let ghost gflags = sn.flags;
                let pair = self.hash_short_node_children(sn);
                let collapsed = pair.0;
                let mut cached = pair.1;
                let ghost gcol = collapsed.view_short();
                let pair2 = self.shortnode_to_hash(collapsed, force);
                let hashed = pair2.0;
                match pair2.1 {
                    Some(h) => {
                        cached.flags = crate::node::NodeFlag { hash: Some(h), dirty: !pair2.2 };
                    },
                    None => {
                        cached.flags.hash = None;
                    },
                }
                let r1 = TrieNode::from_short_node(cached);
                proof {
                    assert(gcol == GNode::Short {
                        key: crate::common::compact_of(gn->Short_key),
                        child: Box::new(collapse(*gn->Short_child, false)),
                    });
                    assert(hashed@ == collapse(gn, force));
                    assert(r1@ == gn);
                    assert(cache_good(r1)) by {
                        if pair2.1 is Some && pair2.2 {
                            assert(crate::model::enc(gcol).len() >= 32);
                            assert(collapse(gn, false) == GNode::Hash(
                                keccak_of(crate::model::enc(gcol)),
                            ));
                        }
                        if pair2.1 is Some && !pair2.2 {
                            assert(collapse(gn, true) == GNode::Hash(
                                keccak_of(crate::model::enc(gcol)),
                            ));
                        }
                    }
                }
                (hashed, r1)
            },
            TrieNode::Full(fb) => {
                let f = *fb;
                let ghost gflags = f.flags;
                let ghost gchv = crate::view_nodes(f.children@);
                proof {
                    crate::lemma_view_nodes_len(f.children@);
                    assert(gchv.len() == 17);
                    assert(f.children@.len() == 17);
                }
                let ghost gf = f;
                let pair = self.hash_full_node_children(f, Ghost(gf));
                let collapsed = pair.0;
                let mut cached = pair.1;
                let ghost gcol = collapsed.view_full();
                let pair2 = self.fullnode_to_hash(collapsed, force);
                let hashed = pair2.0;
                match pair2.1 {
                    Some(h) => {
                        cached.flags = crate::node::NodeFlag { hash: Some(h), dirty: !pair2.2 };
                    },
                    None => {
                        cached.flags.hash = None;
                    },
                }
                let r1 = TrieNode::from_full_node(cached);
                proof {
                    assert(gcol == GNode::Full { children: crate::model::collapse_slots(gchv, 17) });
                    assert(gchv.len() == 17);
                    assert(hashed@ == collapse(gn, force));
                    assert(r1@ == gn);
                    assert(cache_good(r1)) by {
                        if pair2.1 is Some && pair2.2 {
                            assert(crate::model::enc(gcol).len() >= 32);
                            assert(collapse(gn, false) == GNode::Hash(
                                keccak_of(crate::model::enc(gcol)),
                            ));
                        }
                        if pair2.1 is Some && !pair2.2 {
                            assert(collapse(gn, true) == GNode::Hash(
                                keccak_of(crate::model::enc(gcol)),
                            ));
                        }
                    }
                }
                (hashed, r1)
            },
            TrieNode::Value(v) => {
                let c = v.copy();
                (TrieNode::Value(c), TrieNode::Value(v))
            },
            TrieNode::Hash(h) => {
                let c = h.copy();
                (TrieNode::Hash(c), TrieNode::Hash(h))
            },
            TrieNode::Nil => (TrieNode::Nil, TrieNode::Nil),
        }
    }

    /// Compacts a Short node's key and collapses its child, pairing the
    /// encoding copy with the retained copy.
    fn hash_short_node_children(&mut self, n: crate::node::ShortNode) -> (r: (
        crate::node::ShortNode,
        crate::node::ShortNode,
    ))
        requires
            crate::model::wf(n.val@),
            cache_good(n.val),
            old(self).buf() == Seq::<u8>::empty(),
        ensures
            final(self).buf() == Seq::<u8>::empty(),
            r.0.key@ == crate::common::compact_of(n.key@),
            r.0.val@ == collapse(n.val@, false),
            r.1.key@ == n.key@,
            r.1.val@ == n.val@,
            r.1.flags == n.flags,
            cache_good(r.1.val),
        decreases n, 1int,
    {
        let key = n.key;
        let val = n.val;
        let flags = n.flags;
        let ckey = crate::common::hex_to_compact(key.as_slice());
        let pair = self.hash_node(val, false);
        (
            crate::node::ShortNode::new(ckey, pair.0, crate::node::NodeFlag::default()),
            crate::node::ShortNode::new(key, pair.1, flags),
        )
    }

    /// Encodes a collapsed Short node and replaces it by the digest of
    /// its encoding once that crosses the threshold, or always when
    /// forced.  Also hands back the digest to memoize whenever one was
    /// computed, and whether the threshold itself was crossed.
    fn shortnode_to_hash(&mut self, n: crate::node::ShortNode, force: bool) -> (r: (
        TrieNode,
        Option<HashNode>,
        bool,
    ))
        requires
            old(self).buf() == Seq::<u8>::empty(),
        ensures
            final(self).buf() == Seq::<u8>::empty(),
            r.0@ == (if crate::model::enc(n.view_short()).len() < 32 && !force {
                n.view_short()
            } else {
                GNode::Hash(keccak_of(crate::model::enc(n.view_short())))
            }),
            r.1 is Some <==> r.0@ is Hash,
            (r.1 matches Some(h) ==> h.0@ == keccak_of(crate::model::enc(n.view_short()))),
            r.2 == (crate::model::enc(n.view_short()).len() >= 32),
    {
        let ghost g = n.view_short();
        n.encode(&mut self.w);
        let enc_b = self.encod_bytes();
        proof {
            assert(enc_b@ == crate::model::enc(g));
        }
        if enc_b.len() < 32 && !force {
            return (TrieNode::from_short_node(n), None, false);
        }
        let big = enc_b.len() >= 32;
        let hd = self.hash_data(enc_b.as_slice());
        let keep = Some(hd.copy());
        (TrieNode::Hash(hd), keep, big)
    }

    /// Collapses all 17 children of a branch in slot order, pairing the
    /// encoding copy with the retained copy.
    fn hash_full_node_children(&mut self, n: crate::node::FullNode, g0: Ghost<crate::node::FullNode>) -> (r: (
        crate::node::FullNode,
        crate::node::FullNode,
    ))
        requires
            g0@ == n,
            n.children@.len() == 17,
            forall|j: int| 0 <= j < 17 ==> crate::model::wf(crate::view_nodes(n.children@)[j]),
            cache_good_slots(n.children@, 17),
            old(self).buf() == Seq::<u8>::empty(),
        ensures
            final(self).buf() == Seq::<u8>::empty(),
            r.0.children@.len() == 17,
            crate::view_nodes(r.0.children@) == crate::model::collapse_slots(
                crate::view_nodes(n.children@),
                17,
            ),
            r.1.children@.len() == 17,
            crate::view_nodes(r.1.children@) == crate::view_nodes(n.children@),
            r.1.flags == n.flags,
            cache_good_slots(r.1.children@, 17),
        decreases g0@, 1int,
    {
        let ghost gch = n.children@;
        let ghost gchv = crate::view_nodes(gch);
        proof {
            crate::lemma_view_nodes_len(gch);
            assert(gch.len() == 17);
        }
        let mut rest = n.children;
        let flags = n.flags;
        let mut col: Vec<TrieNode> = Vec::new();
        let mut cach: Vec<TrieNode> = Vec::new();
        let mut i: usize = 0;
        while i < 17
            invariant
                i <= 17,
                g0@.children@ == gch,
                gch.len() == 17,
                gchv.len() == 17,
                gchv == crate::view_nodes(gch),
                forall|j: int| 0 <= j < 17 ==> crate::model::wf(#[trigger] gchv[j]),
                cache_good_slots(gch, 17),
                rest@ == gch.skip(i as int),
                col@.len() == i,
                cach@.len() == i,
                crate::view_nodes(col@) == crate::model::collapse_slots(gchv, i as int),
                crate::view_nodes(cach@) == gchv.take(i as int),
                forall|j: int| 0 <= j < i ==> cache_good(#[trigger] cach@[j]),
                self.buf() == Seq::<u8>::empty(),
            decreases 17 - i,
        {
            let child = rest.remove(0);
            proof {
                assert(gch.skip(i as int)[0] == gch[i as int]);
                assert(child == gch[i as int]);
                assert(rest@ =~= gch.skip(i + 1));
                lemma_cache_good_slots_index(gch, 17, i as int);
                crate::lemma_view_nodes_index(gch, i as int);
                assert(crate::model::wf(child@)) by {
                    assert(child@ == gchv[i as int]);
                }
                assert(decreases_to!(g0@ => g0@.children));
                assert(decreases_to!(g0@.children => g0@.children@));
                assert(g0@.children@[i as int] == child);
                assert(decreases_to!(g0@.children@ => g0@.children@[i as int]));
                assert(decreases_to!(g0@ => child));
            }
            let pair = self.hash_node(child, false);
            let ghost col0 = col@;
            let ghost cach0 = cach@;
            col.push(pair.0);
            cach.push(pair.1);
            proof {
                assert(col@.drop_last() =~= col0);
                assert(crate::view_nodes(col@) == crate::view_nodes(col0).push(pair.0@));
                assert(crate::view_nodes(col@) == crate::model::collapse_slots(gchv, i + 1));
                assert(cach@.drop_last() =~= cach0);
                assert(crate::view_nodes(cach@) == crate::view_nodes(cach0).push(pair.1@));
                assert(crate::view_nodes(cach@) =~= gchv.take(i + 1));
            }
            i = i + 1;
        }
        proof {
            assert(gchv.take(17) =~= gchv);
            assert forall|j: int| 0 <= j < 17 implies cache_good(#[trigger] cach@[j]) by {}
            lemma_cache_good_slots_build(cach@, 17);
        }
        (
            crate::node::FullNode { children: col, flags },
            crate::node::FullNode { children: cach, flags },
        )
    }

    /// Encodes a collapsed branch and replaces it by the digest of its
    /// encoding once that crosses the threshold, or always when forced.
    /// Also hands back the digest to memoize whenever one was computed,
    /// and whether the threshold itself was crossed.
    fn fullnode_to_hash(&mut self, n: crate::node::FullNode, force: bool) -> (r: (
        TrieNode,
        Option<HashNode>,
        bool,
    ))
        requires
            old(self).buf() == Seq::<u8>::empty(),
        ensures
            final(self).buf() == Seq::<u8>::empty(),
            r.0@ == (if crate::model::enc(n.view_full()).len() < 32 && !force {
                n.view_full()
            } else {
                GNode::Hash(keccak_of(crate::model::enc(n.view_full())))
            }),
            r.1 is Some <==> r.0@ is Hash,
            (r.1 matches Some(h) ==> h.0@ == keccak_of(crate::model::enc(n.view_full()))),
            r.2 == (crate::model::enc(n.view_full()).len() >= 32),
    {
        let ghost g = n.view_full();
        n.encode(&mut self.w);
        let enc_b = self.encod_bytes();
        proof {
            assert(enc_b@ == crate::model::enc(g));
        }
        if enc_b.len() < 32 && !force {
            return (TrieNode::from_full_node(n), None, false);
        }
        let big = enc_b.len() >= 32;
        let hd = self.hash_data(enc_b.as_slice());
        let keep = Some(hd.copy());
        (TrieNode::Hash(hd), keep, big)
    }
}

} // verus!
