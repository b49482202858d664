//! The mathematical model of the trie: a ghost tree of nodes, the lookup
//! function that gives its meaning as a partial map from nibble paths to
//! byte values, and the structural well-formedness invariant that the
//! mutation engine maintains.
use vstd::prelude::*;

verus! {

/// Ghost image of a trie node: the shape of the tree with all keys and
/// values as mathematical sequences, and without the memoization flags.
#[verifier::ext_equal]
pub enum GNode {
    /// Absent subtree.
    Nil,
    /// A stored byte value.
    Value(Seq<u8>),
    /// Path compression: a key fragment followed by one child.
    Short { key: Seq<u8>, child: Box<GNode> },
    /// A 17-way branch: one slot per nibble plus the terminator slot.
    Full { children: Seq<GNode> },
    /// An opaque digest reference to a collapsed subtree.
    Hash(Seq<u8>),
}

/// Every element is a plain nibble (below 16).
pub open spec fn is_nibbles(s: Seq<u8>) -> bool {
    forall|i: int| 0 <= i < s.len() ==> s[i] < 16
}

/// A complete relative key path: nibbles closed by the terminator 16,
/// which appears nowhere else.
pub open spec fn is_tail(p: Seq<u8>) -> bool {
    &&& p.len() > 0
    &&& p.last() == 16
    &&& forall|i: int| 0 <= i < p.len() - 1 ==> p[i] < 16
}

/// A key fragment held by a Short node: non-empty, nibbles everywhere but
/// possibly a terminator in the last position.
pub open spec fn is_segment(s: Seq<u8>) -> bool {
    &&& s.len() > 0
    &&& s.last() <= 16
    &&& forall|i: int| 0 <= i < s.len() - 1 ==> s[i] < 16
}

/// `a` is a prefix of `b`.
pub open spec fn prefixes(a: Seq<u8>, b: Seq<u8>) -> bool {
    a.len() <= b.len() && b.take(a.len() as int) == a
}

/// The value bound to the relative path `p` in the subtree `n`, if any.
/// This is the meaning of a trie: a partial map from paths to values.
pub open spec fn lookup(n: GNode, p: Seq<u8>) -> Option<Seq<u8>>
    decreases n,
{
    match n {
        GNode::Nil => None,
        GNode::Hash(_) => None,
        GNode::Value(v) => if p.len() == 0 {
            Some(v)
        } else {
            None
        },
        GNode::Short { key, child } => if prefixes(key, p) {
            lookup(*child, p.skip(key.len() as int))
        } else {
            None
        },
        GNode::Full { children } => if children.len() == 17 && p.len() > 0 && p[0] < 17 {
            lookup(children[p[0] as int], p.skip(1))
        } else {
            None
        },
    }
}

/// The key/value set a subtree holds: the partial map from bound nibble
/// paths to their values.
pub open spec fn bindings(g: GNode) -> Map<Seq<u8>, Seq<u8>> {
    Map::new(|p: Seq<u8>| lookup(g, p) is Some, |p: Seq<u8>| lookup(g, p)->Some_0)
}

/// At least two of the given children are present.
pub open spec fn two_present(s: Seq<GNode>) -> bool {
    exists|i: int, j: int| 0 <= i < j < s.len() && !(s[i] is Nil) && !(s[j] is Nil)
}

/// Structural well-formedness of an in-memory (fully resolved) subtree:
/// Short keys are non-empty fragments, a Short child is never Short or Nil,
/// the terminator marks exactly the step down to a Value, a Full node keeps
/// 17 slots and at least two of them filled, and no opaque Hash reference
/// occurs anywhere.
pub open spec fn wf(n: GNode) -> bool
    decreases n,
{
    match n {
        GNode::Nil => true,
        GNode::Value(_) => true,
        GNode::Hash(_) => false,
        GNode::Short { key, child } => {
            &&& is_segment(key)
            &&& (key.last() == 16 <==> *child is Value)
            &&& (*child is Value || *child is Full)
            &&& wf(*child)
        },
        GNode::Full { children } => {
            &&& children.len() == 17
            &&& (forall|i: int| 0 <= i < 16 ==> !((#[trigger] children[i]) is Value))
            &&& (children[16] is Nil || children[16] is Value)
            &&& (forall|i: int| 0 <= i < 17 ==> wf(#[trigger] children[i]))
            &&& two_present(children)
        },
    }
}

/// The canonical byte contribution of a node to its parent's encoding.
/// A `Nil` node contributes nothing on its own; a parent writes the
/// reserved marker byte 0x80 in place of an absent child.
pub open spec fn enc(g: GNode) -> Seq<u8>
    decreases g, 1int, 0int,
{
    match g {
        GNode::Nil => Seq::empty(),
        GNode::Value(v) => v,
        GNode::Hash(h) => h,
        GNode::Short { key, child } => key + (if *child is Nil {
            seq![0x80u8]
        } else {
            enc(*child)
        }),
        GNode::Full { children } => enc_slots(children, children.len() as int),
    }
}

/// The concatenated contributions of the first `k` children of a branch,
/// an absent slot contributing the marker byte.
pub open spec fn enc_slots(s: Seq<GNode>, k: int) -> Seq<u8>
    decreases s, 0int, k,
{
    if k <= 0 || k > s.len() {
        Seq::empty()
    } else {
        enc_slots(s, k - 1) + (if s[k - 1] is Nil {
            seq![0x80u8]
        } else {
            enc(s[k - 1])
        })
    }
}

/// The 32-byte digest of arbitrary bytes, as the deployed hash primitive
/// computes it.  It depends on the input bytes alone.
pub uninterp spec fn keccak_of(data: Seq<u8>) -> Seq<u8>;

/// What the hasher makes of a subtree: terminal nodes stand as they are;
/// a Short node is re-keyed into compact form and a branch has each child
/// collapsed in turn; the result is kept inline while its canonical
/// encoding stays under 32 bytes and is otherwise replaced by the digest
/// of that encoding.  `force` hashes the node even under the threshold.
pub open spec fn collapse(g: GNode, force: bool) -> GNode
    decreases g, 1int, 0int,
{
    match g {
        GNode::Nil => g,
        GNode::Value(_) => g,
        GNode::Hash(_) => g,
        GNode::Short { key, child } => {
            let col = GNode::Short { key: crate::common::compact_of(key), child: Box::new(collapse(*child, false)) };
            let e = enc(col);
            if e.len() < 32 && !force {
                col
            } else {
                GNode::Hash(keccak_of(e))
            }
        },
        GNode::Full { children } => {
            let col = GNode::Full { children: collapse_slots(children, children.len() as int) };
            let e = enc(col);
            if e.len() < 32 && !force {
                col
            } else {
                GNode::Hash(keccak_of(e))
            }
        },
    }
}

/// The first `k` children of a branch, each collapsed without forcing.
pub open spec fn collapse_slots(s: Seq<GNode>, k: int) -> Seq<GNode>
    decreases s, 0int, k,
{
    if k <= 0 || k > s.len() {
        Seq::empty()
    } else {
        collapse_slots(s, k - 1).push(collapse(s[k - 1], false))
    }
}

/// The root digest that `hash` reports: the fixed empty-root constant for
/// an empty trie, and otherwise the digest of the forced collapse of the
/// root.
pub open spec fn digest_of(root: GNode) -> Seq<u8> {
    if root is Nil {
        crate::common::empty_root_bytes()
    } else {
        match collapse(root, true) {
            GNode::Hash(h) => h,
            _ => Seq::empty(),
        }
    }
}

/// A collapse below the threshold never changes again when forced: once
/// the unforced collapse is already a digest reference, the forced one is
/// the same reference.
pub proof fn lemma_collapse_force(g: GNode)
    requires
        collapse(g, false) is Hash || g is Hash,
    ensures
        collapse(g, true) == collapse(g, false),
{
}

/// Prefixhood, element by element.
pub broadcast proof fn lemma_prefixes_alt(a: Seq<u8>, b: Seq<u8>)
    ensures
        #[trigger] prefixes(a, b) <==> (a.len() <= b.len() && forall|i: int|
            0 <= i < a.len() ==> a[i] == b[i]),
{
    if a.len() <= b.len() && (forall|i: int| 0 <= i < a.len() ==> a[i] == b[i]) {
        assert(b.take(a.len() as int) =~= a);
    }
    if prefixes(a, b) {
        assert forall|i: int| 0 <= i < a.len() implies a[i] == b[i] by {
            assert(b.take(a.len() as int)[i] == b[i]);
        }
    }
}

/// Skipping in two steps is skipping once.
pub proof fn lemma_skip_skip(p: Seq<u8>, x: int, y: int)
    requires
        0 <= x,
        0 <= y,
        x + y <= p.len(),
    ensures
        p.skip(x).skip(y) == p.skip(x + y),
{
    assert(p.skip(x).skip(y) =~= p.skip(x + y));
}

/// What may be inserted at a relative path: a stored value at a complete
/// tail (or right here, at the empty path), or a whole branch moved under
/// a pure nibble extension while splitting a Short node.
pub open spec fn ins_val_ok(key: Seq<u8>, v: GNode) -> bool {
    match v {
        GNode::Value(_) => key.len() == 0 || is_tail(key),
        GNode::Full { .. } => wf(v) && is_nibbles(key),
        _ => false,
    }
}

/// The shapes on which the recursive insert is called.
pub open spec fn ins_pre(n: GNode, key: Seq<u8>, v: GNode) -> bool {
    &&& wf(n)
    &&& ins_val_ok(key, v)
    &&& (key.len() == 0 ==> (n is Nil || n is Value))
    &&& (n is Value ==> key.len() == 0)
    &&& (v is Full ==> n is Nil)
}

/// What the recursive insert returns: a well-formed tree that binds every
/// extension of `key` as `v` binds its remainder and leaves every other
/// path as it was; `dirty` reports whether anything changed, and a clean
/// result has the same ghost image as the input.
pub open spec fn ins_post(n: GNode, key: Seq<u8>, v: GNode, dirty: bool, nn: GNode) -> bool {
    &&& wf(nn)
    &&& (forall|p: Seq<u8>| #[trigger] lookup(nn, p) == if prefixes(key, p) {
        lookup(v, p.skip(key.len() as int))
    } else {
        lookup(n, p)
    })
    &&& (key.len() == 0 ==> nn == v)
    &&& (key.len() > 0 ==> (nn is Short || nn is Full))
    &&& (n is Full ==> nn is Full)
    &&& dirty == !(v is Value && lookup(n, key) == Some(v->Value_0))
    &&& (!dirty ==> nn == n)
}

/// What a fresh Short node (or the value itself, at an empty path) binds:
/// insertion into an absent subtree.
pub proof fn lemma_ins_nil(key: Seq<u8>, v: GNode)
    requires
        ins_pre(GNode::Nil, key, v),
    ensures
        ins_post(
            GNode::Nil,
            key,
            v,
            true,
            if key.len() == 0 {
                v
            } else {
                GNode::Short { key, child: Box::new(v) }
            },
        ),
{
    broadcast use lemma_prefixes_alt;

    if key.len() == 0 {
        assert forall|p: Seq<u8>| #[trigger] lookup(v, p) == if prefixes(key, p) {
            lookup(v, p.skip(key.len() as int))
        } else {
            lookup(GNode::Nil, p)
        } by {
            assert(prefixes(key, p));
            assert(p.skip(0) =~= p);
        }
    } else {
        let nn = GNode::Short { key, child: Box::new(v) };
        assert(*nn->Short_child == v);
        match v {
            GNode::Value(_) => {
                assert(is_tail(key));
                assert(is_segment(key));
            },
            GNode::Full { .. } => {
                assert(is_nibbles(key));
                assert(key.last() < 16);
                assert(is_segment(key));
            },
            _ => {},
        }
        assert(v is Value || v is Full);
        assert(wf(v)) by {
            if v is Full {
                assert(ins_val_ok(key, v));
            }
        }
        assert(wf(nn));
        assert forall|p: Seq<u8>| #[trigger] lookup(nn, p) == if prefixes(key, p) {
            lookup(v, p.skip(key.len() as int))
        } else {
            lookup(GNode::Nil, p)
        } by {}
        assert(!prefixes(key, Seq::<u8>::empty()) ==> lookup(GNode::Nil, key) is None);
    }
}

/// Insertion through a Short node whose whole key fragment matches:
/// rebuilding around the rewritten child preserves every other binding.
pub proof fn lemma_ins_short_match(
    k: Seq<u8>,
    c: GNode,
    key: Seq<u8>,
    v: GNode,
    dirty: bool,
    c2: GNode,
)
    requires
        ins_pre(GNode::Short { key: k, child: Box::new(c) }, key, v),
        prefixes(k, key),
        ins_post(c, key.skip(k.len() as int), v, dirty, c2),
    ensures
        ins_post(
            GNode::Short { key: k, child: Box::new(c) },
            key,
            v,
            dirty,
            GNode::Short { key: k, child: Box::new(c2) },
        ),
{
    broadcast use lemma_prefixes_alt;

    let n = GNode::Short { key: k, child: Box::new(c) };
    let nn = GNode::Short { key: k, child: Box::new(c2) };
    let m = k.len() as int;
    let suffix = key.skip(m);

    // well-formedness of the rebuilt node
    assert(wf(n));
    if k.last() == 16 {
        // the fragment ends the tail, so the remainder is empty and the
        // child stays a value
        assert(c is Value);
        assert(key[m - 1] == k[m - 1]);
        assert(key.len() == k.len()) by {
            if key.len() > k.len() {
                assert(key[m - 1] == 16);
                assert(key[m - 1] < 16);
            }
        }
        assert(suffix.len() == 0);
        assert(c2 == v);
        assert(v is Value);
        assert(wf(nn));
    } else {
        assert(c is Full);
        assert(c2 is Full);
        assert(wf(nn));
    }

    // the pointwise binding relation
    assert forall|p: Seq<u8>| #[trigger] lookup(nn, p) == if prefixes(key, p) {
        lookup(v, p.skip(key.len() as int))
    } else {
        lookup(n, p)
    } by {
        if prefixes(k, p) {
            let q = p.skip(m);
            assert(lookup(nn, p) == lookup(c2, q));
            assert(lookup(n, p) == lookup(c, q));
            assert(lookup(c2, q) == if prefixes(suffix, q) {
                lookup(v, q.skip(suffix.len() as int))
            } else {
                lookup(c, q)
            });
            assert(prefixes(suffix, q) <==> prefixes(key, p)) by {
                assert(suffix.len() == key.len() - m);
                assert(q.len() == p.len() - m);
                assert(forall|i: int| 0 <= i < suffix.len() ==> suffix[i] == key[m + i]);
                assert(forall|i: int| 0 <= i < q.len() ==> q[i] == p[m + i]);
                if prefixes(suffix, q) {
                    assert forall|i: int| 0 <= i < key.len() implies key[i] == p[i] by {
                        if i < m {
                            assert(key[i] == k[i]);
                            assert(p[i] == k[i]);
                        } else {
                            assert(key[i] == suffix[i - m]);
                            assert(suffix[i - m] == q[i - m]);
                            assert(q[i - m] == p[i]);
                        }
                    }
                    assert(prefixes(key, p));
                }
                if prefixes(key, p) {
                    assert forall|i: int| 0 <= i < suffix.len() implies suffix[i] == q[i] by {
                        assert(suffix[i] == key[m + i]);
                        assert(key[m + i] == p[m + i]);
                        assert(p[m + i] == q[i]);
                    }
                    assert(prefixes(suffix, q));
                }
            }
            if prefixes(key, p) {
                lemma_skip_skip(p, m, key.len() - m);
                assert(q.skip(suffix.len() as int) == p.skip(key.len() as int));
            }
        } else {
            assert(lookup(nn, p) is None);
            assert(lookup(n, p) is None);
            assert(!prefixes(key, p)) by {
                if prefixes(key, p) {
                    assert forall|i: int| 0 <= i < k.len() implies k[i] == p[i] by {
                        assert(k[i] == key[i]);
                    }
                }
            }
        }
    }

    // the change report
    assert(lookup(n, key) == lookup(c, suffix));
    if !dirty {
        assert(c2 == c);
        assert(nn =~= n);
    }
}

/// The branch child that takes over a Short node's remainder past the
/// divergence point: the fragment past it over the old child, or that
/// child itself when nothing remains.
pub open spec fn split_arm(frag: Seq<u8>, child: GNode, m: int) -> GNode {
    if frag.len() > m + 1 {
        GNode::Short { key: frag.skip(m + 1), child: Box::new(child) }
    } else {
        child
    }
}

/// The two-armed branch a split produces: the old child's remainder and
/// the inserted path's remainder, each under the nibble where they part.
pub open spec fn split_branch(k: Seq<u8>, c: GNode, key: Seq<u8>, v: GNode, m: int) -> GNode {
    let b1 = split_arm(k, c, m);
    let b2 = split_arm(key, v, m);
    let children = Seq::new(17, |i: int| GNode::Nil).update(k[m] as int, b1).update(
        key[m] as int,
        b2,
    );
    GNode::Full { children }
}

/// The tree that replaces a Short node when the inserted path diverges
/// from its fragment after `m` nibbles: a two-armed branch, wrapped in a
/// Short node holding the shared prefix if there is one.
pub open spec fn split_result(k: Seq<u8>, c: GNode, key: Seq<u8>, v: GNode, m: int) -> GNode {
    let branch = split_branch(k, c, key, v, m);
    if m == 0 {
        branch
    } else {
        GNode::Short { key: key.take(m), child: Box::new(branch) }
    }
}

/// Insertion through a Short node whose fragment diverges from the path:
/// the node splits into a branch carrying both remainders, and every
/// binding of the old subtree survives under its arm.
pub proof fn lemma_ins_split(k: Seq<u8>, c: GNode, key: Seq<u8>, v: GNode, m: int)
    requires
        ins_pre(GNode::Short { key: k, child: Box::new(c) }, key, v),
        0 <= m < k.len(),
        m <= key.len(),
        forall|i: int| 0 <= i < m ==> k[i] == key[i],
        m < key.len() ==> k[m] != key[m],
    ensures
        ins_post(GNode::Short { key: k, child: Box::new(c) }, key, v, true, split_result(k, c, key, v, m)),
{
    broadcast use lemma_prefixes_alt;

    let n = GNode::Short { key: k, child: Box::new(c) };
    let val = v->Value_0;

    // the inserted path is a complete tail here, and it diverges strictly
    // inside both fragments
    assert(v is Value && key.len() > 0);
    assert(is_tail(key));
    assert(m < key.len()) by {
        if m == key.len() {
            assert(key.last() == key[m - 1]);
            assert(key[m - 1] == k[m - 1]);
            assert(k[m - 1] < 16);
        }
    }
    assert(k[m] != key[m]);
    assert(k[m] <= 16 && key[m] <= 16);
    assert(k[m] == 16 ==> m == k.len() - 1);
    assert(key[m] == 16 ==> m == key.len() - 1);

    let b1 = split_arm(k, c, m);
    let b2 = split_arm(key, v, m);
    let children = Seq::new(17, |i: int| GNode::Nil).update(k[m] as int, b1).update(
        key[m] as int,
        b2,
    );
    let branch = GNode::Full { children };
    let pre = key.take(m);
    let nn = split_result(k, c, key, v, m);

    assert(children.len() == 17);
    assert(children[k[m] as int] == b1);
    assert(children[key[m] as int] == b2);
    assert(forall|s: int| 0 <= s < 17 && s != k[m] && s != key[m] ==> (#[trigger] children[s]) is Nil);

    // the two arms are well-formed and sit in legal slots
    assert(wf(c));
    assert(wf(v));
    assert(wf(b1)) by {
        if k.len() > m + 1 {
            assert(is_segment(k.skip(m + 1)));
            assert(k.skip(m + 1).last() == k.last());
        }
    }
    assert(wf(b2)) by {
        if key.len() > m + 1 {
            assert(is_segment(key.skip(m + 1)));
            assert(key.skip(m + 1).last() == key.last());
        }
    }
    assert(!(b1 is Nil) && !(b2 is Nil));
    assert(k[m] < 16 ==> !(b1 is Value)) by {
        if k[m] < 16 && k.len() == m + 1 {
            assert(k.last() == k[m]);
            assert(!(c is Value));
        }
    }
    assert(k[m] == 16 ==> b1 is Value) by {
        if k[m] == 16 {
            assert(k.last() == 16);
            assert(c is Value);
        }
    }
    assert(key[m] < 16 ==> !(b2 is Value)) by {
        if key[m] < 16 && key.len() == m + 1 {
            assert(key.last() == key[m]);
        }
    }
    assert(key[m] == 16 ==> b2 is Value) by {
        if key[m] == 16 {
            assert(key.len() == m + 1);
        }
    }
    assert(wf(GNode::Nil));
    assert forall|i: int| 0 <= i < 17 implies wf(#[trigger] children[i]) by {
        if i != k[m] as int && i != key[m] as int {
            assert(children[i] is Nil);
        }
    }
    assert(wf(branch)) by {
        assert(two_present(children)) by {
            let i = if k[m] < key[m] { k[m] as int } else { key[m] as int };
            let j = if k[m] < key[m] { key[m] as int } else { k[m] as int };
            assert(0 <= i < j < 17 && !(children[i] is Nil) && !(children[j] is Nil));
        }
    }
    assert(wf(nn)) by {
        if m > 0 {
            assert(is_segment(pre)) by {
                assert(pre.last() == key[m - 1]);
            }
            assert(pre.last() < 16);
        }
    }

    // the pointwise binding relation
    assert forall|p: Seq<u8>| #[trigger] lookup(nn, p) == if prefixes(key, p) {
        lookup(v, p.skip(key.len() as int))
    } else {
        lookup(n, p)
    } by {
        lemma_split_pointwise(k, c, key, v, m, p);
    }

    // nothing was bound at the inserted path before
    assert(!prefixes(k, key));
    assert(lookup(n, key) is None);
}

/// Insertion through a branch: rewriting the slot the path selects
/// preserves every binding under the other slots.
pub proof fn lemma_ins_full(
    children: Seq<GNode>,
    key: Seq<u8>,
    v: GNode,
    dirty: bool,
    c2: GNode,
)
    requires
        ins_pre(GNode::Full { children }, key, v),
        key.len() > 0,
        key[0] <= 16,
        ins_post(children[key[0] as int], key.skip(1), v, dirty, c2),
    ensures
        ins_post(
            GNode::Full { children },
            key,
            v,
            dirty,
            GNode::Full { children: children.update(key[0] as int, c2) },
        ),
{
    broadcast use lemma_prefixes_alt;

    let n = GNode::Full { children };
    let idx = key[0] as int;
    let child = children[idx];
    let tail = key.skip(1);
    let nch = children.update(idx, c2);
    let nn = GNode::Full { children: nch };

    assert(wf(n));
    assert(is_tail(key));
    assert(v is Value);

    // the rewritten slot still holds a node of a legal shape
    assert(wf(c2));
    assert(!(c2 is Nil));
    if key[0] == 16 {
        assert(key.len() == 1) by {
            if key.len() > 1 {
                assert(key[0] < 16);
            }
        }
        assert(tail.len() == 0);
        assert(c2 == v);
    } else {
        assert(tail.len() > 0) by {
            assert(key.last() == 16);
        }
        assert(c2 is Short || c2 is Full);
    }
    assert(wf(nn)) by {
        assert(two_present(nch)) by {
            let (i, j) = choose|i: int, j: int|
                0 <= i < j < 17 && !(children[i] is Nil) && !(children[j] is Nil);
            assert(!(nch[i] is Nil));
            assert(!(nch[j] is Nil));
        }
    }

    // the pointwise binding relation
    assert forall|p: Seq<u8>| #[trigger] lookup(nn, p) == if prefixes(key, p) {
        lookup(v, p.skip(key.len() as int))
    } else {
        lookup(n, p)
    } by {
        if p.len() == 0 {
            assert(lookup(nn, p) is None);
            assert(lookup(n, p) is None);
            assert(!prefixes(key, p));
        } else if p[0] == key[0] {
            let q = p.skip(1);
            assert(lookup(nn, p) == lookup(c2, q));
            assert(lookup(n, p) == lookup(child, q));
            assert(lookup(c2, q) == if prefixes(tail, q) {
                lookup(v, q.skip(tail.len() as int))
            } else {
                lookup(child, q)
            });
            assert(prefixes(tail, q) <==> prefixes(key, p)) by {
                assert(forall|i: int| 0 <= i < tail.len() ==> tail[i] == key[1 + i]);
                assert(forall|i: int| 0 <= i < q.len() ==> q[i] == p[1 + i]);
                if prefixes(tail, q) {
                    assert forall|i: int| 0 <= i < key.len() implies key[i] == p[i] by {
                        if i > 0 {
                            assert(key[i] == tail[i - 1]);
                            assert(tail[i - 1] == q[i - 1]);
                            assert(q[i - 1] == p[i]);
                        }
                    }
                    assert(prefixes(key, p));
                }
                if prefixes(key, p) {
                    assert forall|i: int| 0 <= i < tail.len() implies tail[i] == q[i] by {
                        assert(tail[i] == key[1 + i]);
                        assert(key[1 + i] == p[1 + i]);
                        assert(p[1 + i] == q[i]);
                    }
                    assert(prefixes(tail, q));
                }
            }
            if prefixes(key, p) {
                lemma_skip_skip(p, 1, key.len() - 1);
                assert(q.skip(tail.len() as int) == p.skip(key.len() as int));
            }
        } else {
            // a different slot: untouched
            if p[0] < 17 {
                assert(nch[p[0] as int] == children[p[0] as int]);
                assert(lookup(nn, p) == lookup(children[p[0] as int], p.skip(1)));
                assert(lookup(n, p) == lookup(children[p[0] as int], p.skip(1)));
            } else {
                assert(lookup(nn, p) is None);
                assert(lookup(n, p) is None);
            }
            assert(!prefixes(key, p));
        }
    }

    // the change report
    assert(lookup(n, key) == lookup(child, tail));

    if !dirty {
        assert(c2 == child);
        assert(nch =~= children);
        assert(nn =~= n);
    }
}

/// The shapes on which the recursive delete is called.
pub open spec fn del_pre(n: GNode, key: Seq<u8>) -> bool {
    &&& wf(n)
    &&& (key.len() == 0 || is_tail(key))
    &&& (key.len() == 0 ==> (n is Nil || n is Value))
    &&& (n is Value ==> key.len() == 0)
    &&& (n is Full ==> key.len() > 0)
}

/// What the recursive delete returns: a well-formed tree in which the
/// deleted path is absent and every other path is bound as before;
/// `dirty` reports whether the path was present, and a clean result is
/// the unchanged input.
pub open spec fn del_post(n: GNode, key: Seq<u8>, dirty: bool, nn: GNode) -> bool {
    &&& wf(nn)
    &&& (forall|p: Seq<u8>| #[trigger] lookup(nn, p) == if p == key {
        None::<Seq<u8>>
    } else {
        lookup(n, p)
    })
    &&& dirty == (lookup(n, key) is Some)
    &&& (!dirty ==> nn == n)
    &&& (n is Full ==> (nn is Full || nn is Short))
    &&& (n is Short ==> (nn is Short || nn is Nil || !dirty))
    &&& ((n is Value || n is Nil) ==> (nn is Nil || !dirty))
}

/// Splicing a Short node's fragment onto a Short child binds exactly the
/// same paths as nesting the two nodes.
pub proof fn lemma_short_merge(a: Seq<u8>, b: Seq<u8>, c: GNode)
    ensures
        forall|p: Seq<u8>| #[trigger] lookup(GNode::Short { key: a + b, child: Box::new(c) }, p)
            == lookup(
            GNode::Short { key: a, child: Box::new(GNode::Short { key: b, child: Box::new(c) }) },
            p,
        ),
{
    broadcast use lemma_prefixes_alt;

    let merged = GNode::Short { key: a + b, child: Box::new(c) };
    let nested = GNode::Short {
        key: a,
        child: Box::new(GNode::Short { key: b, child: Box::new(c) }),
    };
    assert forall|p: Seq<u8>| #[trigger] lookup(merged, p) == lookup(nested, p) by {
        let ab = a + b;
        assert(ab.len() == a.len() + b.len());
        assert(forall|i: int| 0 <= i < a.len() ==> ab[i] == a[i]);
        assert(forall|i: int| 0 <= i < b.len() ==> ab[a.len() + i] == b[i]);
        if prefixes(a, p) {
            let q = p.skip(a.len() as int);
            let inner = GNode::Short { key: b, child: Box::new(c) };
            assert(lookup(nested, p) == lookup(inner, q));
            assert(lookup(inner, q) == if prefixes(b, q) {
                lookup(c, q.skip(b.len() as int))
            } else {
                Option::<Seq<u8>>::None
            });
            assert(forall|i: int| 0 <= i < q.len() ==> q[i] == p[a.len() + i]);
            assert(prefixes(ab, p) <==> prefixes(b, q)) by {
                if prefixes(ab, p) {
                    assert forall|i: int| 0 <= i < b.len() implies b[i] == q[i] by {
                        assert(b[i] == ab[a.len() + i]);
                        assert(ab[a.len() + i] == p[a.len() + i]);
                    }
                }
                if prefixes(b, q) {
                    assert forall|i: int| 0 <= i < ab.len() implies ab[i] == p[i] by {
                        if i >= a.len() {
                            assert(ab[i] == b[i - a.len()]);
                            assert(b[i - a.len()] == q[i - a.len()]);
                            assert(q[i - a.len()] == p[i]);
                        }
                    }
                }
            }
            if prefixes(ab, p) {
                lemma_skip_skip(p, a.len() as int, b.len() as int);
                assert(q.skip(b.len() as int) == p.skip(ab.len() as int));
            }
        } else {
            assert(lookup(nested, p) is None);
            assert(!prefixes(ab, p)) by {
                if prefixes(ab, p) {
                    assert forall|i: int| 0 <= i < a.len() implies a[i] == p[i] by {
                        assert(a[i] == ab[i]);
                    }
                }
            }
            assert(lookup(merged, p) is None);
        }
    }
}

/// A branch with a single present child binds exactly what a Short node
/// over that child's nibble binds.
pub proof fn lemma_single_slot(ch: Seq<GNode>, pos: int)
    requires
        ch.len() == 17,
        0 <= pos < 17,
        forall|j: int| 0 <= j < 17 && j != pos ==> (#[trigger] ch[j]) is Nil,
    ensures
        forall|p: Seq<u8>| #[trigger] lookup(GNode::Full { children: ch }, p) == lookup(
            GNode::Short { key: seq![pos as u8], child: Box::new(ch[pos]) },
            p,
        ),
{
    broadcast use lemma_prefixes_alt;

    let full = GNode::Full { children: ch };
    let short = GNode::Short { key: seq![pos as u8], child: Box::new(ch[pos]) };
    assert forall|p: Seq<u8>| #[trigger] lookup(full, p) == lookup(short, p) by {
        if p.len() == 0 {
            assert(lookup(full, p) is None);
            assert(!prefixes(seq![pos as u8], p));
        } else if p[0] == pos as u8 {
            assert(prefixes(seq![pos as u8], p));
            assert(lookup(short, p) == lookup(ch[pos], p.skip(1)));
            assert(lookup(full, p) == lookup(ch[pos], p.skip(1)));
        } else {
            assert(!prefixes(seq![pos as u8], p));
            assert(lookup(short, p) is None);
            if p[0] < 17 {
                assert(ch[p[0] as int] is Nil);
                assert(lookup(full, p) == lookup(GNode::Nil, p.skip(1)));
            }
            assert(lookup(full, p) is None);
        }
    }
}

/// Deletion through a Short node whose whole fragment matches a strictly
/// longer path: the rewritten child keeps every other binding, whether it
/// is wrapped back under the fragment or merged with a Short result.
pub proof fn lemma_del_short(k: Seq<u8>, c: GNode, key: Seq<u8>, dirty: bool, c2: GNode)
    requires
        del_pre(GNode::Short { key: k, child: Box::new(c) }, key),
        prefixes(k, key),
        key.len() > k.len(),
        c is Full,
        del_post(c, key.skip(k.len() as int), dirty, c2),
        dirty,
    ensures
        del_post(
            GNode::Short { key: k, child: Box::new(c) },
            key,
            true,
            if c2 is Short {
                GNode::Short { key: k + c2->Short_key, child: c2->Short_child }
            } else {
                GNode::Short { key: k, child: Box::new(c2) }
            },
        ),
{
    broadcast use lemma_prefixes_alt;

    let n = GNode::Short { key: k, child: Box::new(c) };
    let m = k.len() as int;
    let suffix = key.skip(m);
    let wrapped = GNode::Short { key: k, child: Box::new(c2) };
    let nn = if c2 is Short {
        GNode::Short { key: k + c2->Short_key, child: c2->Short_child }
    } else {
        GNode::Short { key: k, child: Box::new(c2) }
    };

    // the fragment carries no terminator, since the path goes on below it
    assert(k.last() < 16) by {
        if k.last() == 16 {
            assert(c is Value);
        }
    }
    assert(forall|i: int| 0 <= i < k.len() ==> k[i] < 16);
    assert(c2 is Short || c2 is Full);

    // the wrapped result binds the right paths
    assert forall|p: Seq<u8>| #[trigger] lookup(wrapped, p) == if p == key {
        None::<Seq<u8>>
    } else {
        lookup(n, p)
    } by {
        if prefixes(k, p) {
            let q = p.skip(m);
            assert(lookup(wrapped, p) == lookup(c2, q));
            assert(lookup(n, p) == lookup(c, q));
            assert(lookup(c2, q) == if q == suffix {
                None::<Seq<u8>>
            } else {
                lookup(c, q)
            });
            assert(q == suffix <==> p == key) by {
                if q == suffix {
                    assert(p.len() == key.len());
                    assert(p =~= key) by {
                        assert forall|i: int| 0 <= i < p.len() implies p[i] == key[i] by {
                            if i < m {
                                assert(p[i] == k[i]);
                                assert(key[i] == k[i]);
                            } else {
                                assert(p[i] == q[i - m]);
                                assert(key[i] == suffix[i - m]);
                            }
                        }
                    }
                }
                if p == key {
                    assert(q =~= suffix);
                }
            }
        } else {
            assert(lookup(wrapped, p) is None);
            assert(lookup(n, p) is None);
            assert(p != key) by {
                assert(prefixes(k, key));
                if p == key {
                }
            }
        }
    }

    // merging a Short child keeps the same bindings
    if c2 is Short {
        let k2 = c2->Short_key;
        let cc = *c2->Short_child;
        assert(c2 == GNode::Short { key: k2, child: Box::new(cc) });
        lemma_short_merge(k, k2, cc);
        assert(nn == GNode::Short { key: k + k2, child: Box::new(cc) });
        assert forall|p: Seq<u8>| #[trigger] lookup(nn, p) == lookup(wrapped, p) by {
            assert(lookup(GNode::Short { key: k + k2, child: Box::new(cc) }, p) == lookup(
                GNode::Short { key: k, child: Box::new(GNode::Short { key: k2, child: Box::new(cc) }) },
                p,
            ));
        }
        // and it is well-formed: the joined fragment is still a segment
        assert(wf(nn)) by {
            assert(wf(c2));
            assert(is_segment(k2));
            let kk = k + k2;
            assert(kk.len() > 0);
            assert(kk.last() == k2.last());
            assert forall|i: int| 0 <= i < kk.len() - 1 implies kk[i] < 16 by {
                if i >= k.len() {
                    assert(kk[i] == k2[i - k.len()]);
                }
            }
            assert(is_segment(kk));
            assert(kk.last() == 16 <==> *c2->Short_child is Value);
        }
    } else {
        assert(wf(nn)) by {
            assert(c2 is Full);
        }
    }

    // the deleted path was present
    assert(lookup(n, key) == lookup(c, suffix)) by {
        assert(prefixes(k, key));
    }
}

/// Deletion through a branch, pointwise: rewriting the selected slot
/// removes the path and keeps every other binding, whatever shape the
/// rewritten slot takes.
pub proof fn lemma_del_full_pointwise(children: Seq<GNode>, key: Seq<u8>, c2: GNode)
    requires
        children.len() == 17,
        key.len() > 0,
        key[0] < 17,
        forall|q: Seq<u8>| #[trigger] lookup(c2, q) == if q == key.skip(1) {
            None::<Seq<u8>>
        } else {
            lookup(children[key[0] as int], q)
        },
    ensures
        forall|p: Seq<u8>| #[trigger] lookup(
            GNode::Full { children: children.update(key[0] as int, c2) },
            p,
        ) == if p == key {
            None::<Seq<u8>>
        } else {
            lookup(GNode::Full { children }, p)
        },
{
    let n = GNode::Full { children };
    let idx = key[0] as int;
    let nch = children.update(idx, c2);
    let nn = GNode::Full { children: nch };
    let suffix = key.skip(1);
    assert forall|p: Seq<u8>| #[trigger] lookup(nn, p) == if p == key {
        None::<Seq<u8>>
    } else {
        lookup(n, p)
    } by {
        if p.len() == 0 {
            assert(lookup(nn, p) is None);
            assert(lookup(n, p) is None);
        } else if p[0] == key[0] {
            let q = p.skip(1);
            assert(lookup(nn, p) == lookup(c2, q));
            assert(lookup(n, p) == lookup(children[idx], q));
            assert(q == suffix <==> p == key) by {
                if q == suffix {
                    assert(p.len() == key.len());
                    assert forall|i: int| 0 <= i < p.len() implies p[i] == key[i] by {
                        if i > 0 {
                            assert(p[i] == q[i - 1]);
                            assert(q[i - 1] == suffix[i - 1]);
                            assert(suffix[i - 1] == key[i]);
                        }
                    }
                    assert(p =~= key);
                }
                if p == key {
                    assert(q =~= suffix);
                }
            }
        } else {
            if p[0] < 17 {
                assert(nch[p[0] as int] == children[p[0] as int]);
            }
            assert(lookup(nn, p) == lookup(n, p));
            assert(p != key);
        }
    }
}

/// In a well-formed tree whose root is not a bare value, every bound path
/// is a complete tail: plain nibbles closed by a single terminator.
pub proof fn lemma_lookup_is_tail(n: GNode, p: Seq<u8>)
    requires
        wf(n),
        !(n is Value),
        lookup(n, p) is Some,
    ensures
        is_tail(p),
    decreases n,
{
    broadcast use lemma_prefixes_alt;

    match n {
        GNode::Short { key, child } => {
            assert(prefixes(key, p));
            let q = p.skip(key.len() as int);
            assert(lookup(*child, q) is Some);
            if *child is Value {
                assert(q.len() == 0);
                assert(p.len() == key.len());
                assert(key.last() == 16);
                assert(p =~= key);
            } else {
                assert(*child is Full);
                assert(key.last() < 16);
                lemma_lookup_is_tail(*child, q);
                assert(p.last() == q.last()) by {
                    assert(q[q.len() - 1] == p[p.len() - 1]);
                }
                assert forall|i: int| 0 <= i < p.len() - 1 implies p[i] < 16 by {
                    if i < key.len() {
                        assert(p[i] == key[i]);
                        if i == key.len() - 1 {
                            assert(key.last() < 16);
                        }
                    } else {
                        assert(p[i] == q[i - key.len()]);
                    }
                }
            }
        },
        GNode::Full { children } => {
            assert(p.len() > 0 && p[0] < 17);
            let q = p.skip(1);
            let child = children[p[0] as int];
            assert(lookup(child, q) is Some);
            if p[0] == 16 {
                assert(child is Nil || child is Value);
                assert(child is Value);
                assert(q.len() == 0);
                assert(p.len() == 1);
                assert(p.last() == 16);
            } else {
                assert(!(child is Value));
                assert(!(child is Nil));
                lemma_lookup_is_tail(child, q);
                assert(p.last() == q.last()) by {
                    assert(q[q.len() - 1] == p[p.len() - 1]);
                }
                assert forall|i: int| 0 <= i < p.len() - 1 implies p[i] < 16 by {
                    if i > 0 {
                        assert(p[i] == q[i - 1]);
                    }
                }
            }
        },
        _ => {},
    }
}

/// Some path bound in a non-empty subtree: the fragments and slot
/// nibbles down to the leftmost-chosen value.
pub open spec fn witness_path(g: GNode) -> Seq<u8>
    decreases g,
{
    match g {
        GNode::Short { key, child } => key + witness_path(*child),
        GNode::Full { children } => if children.len() == 17 && (exists|i: int|
            0 <= i < 17 && !(children[i] is Nil)) {
            let i = choose|i: int| 0 <= i < 17 && !(children[i] is Nil);
            seq![i as u8] + witness_path(children[i])
        } else {
            Seq::empty()
        },
        _ => Seq::empty(),
    }
}

/// Every well-formed, present subtree binds at least one path.
pub proof fn lemma_witness(g: GNode)
    requires
        wf(g),
        !(g is Nil),
    ensures
        lookup(g, witness_path(g)) is Some,
    decreases g,
{
    broadcast use lemma_prefixes_alt;

    match g {
        GNode::Value(_) => {
            assert(witness_path(g).len() == 0);
        },
        GNode::Short { key, child } => {
            let w = witness_path(*child);
            let p = key + w;
            assert(prefixes(key, p)) by {
                assert(p.take(key.len() as int) =~= key);
            }
            assert(p.skip(key.len() as int) =~= w);
            lemma_witness(*child);
            assert(lookup(g, p) == lookup(*child, w));
        },
        GNode::Full { children } => {
            assert(exists|i: int| 0 <= i < 17 && !(children[i] is Nil)) by {
                let (a, b) = choose|a: int, b: int|
                    0 <= a < b < 17 && !(children[a] is Nil) && !(children[b] is Nil);
                assert(0 <= a < 17 && !(children[a] is Nil));
            }
            let i = choose|i: int| 0 <= i < 17 && !(children[i] is Nil);
            let w = witness_path(children[i]);
            let p = seq![i as u8] + witness_path(children[i]);
            assert(p[0] == i as u8);
            assert(p.skip(1) =~= w);
            lemma_witness(children[i]);
            assert(lookup(g, p) == lookup(children[i], w));
        },
        _ => {},
    }
}

/// Reading a Short node past its whole fragment reads its child.
pub proof fn lemma_lookup_through_short(key: Seq<u8>, child: GNode, q: Seq<u8>)
    ensures
        lookup(GNode::Short { key, child: Box::new(child) }, key + q) == lookup(child, q),
{
    broadcast use lemma_prefixes_alt;

    let p = key + q;
    assert(prefixes(key, p)) by {
        assert(p.take(key.len() as int) =~= key);
    }
    assert(p.skip(key.len() as int) =~= q);
}

/// Reading a branch past one slot nibble reads that slot.
pub proof fn lemma_lookup_through_full(children: Seq<GNode>, i: int, q: Seq<u8>)
    requires
        children.len() == 17,
        0 <= i < 17,
    ensures
        lookup(GNode::Full { children }, seq![i as u8] + q) == lookup(children[i], q),
{
    let p = seq![i as u8] + q;
    assert(p[0] == i as u8);
    assert(p.skip(1) =~= q);
}

/// A Short node and a branch never bind the same path set: a branch
/// answers under at least two distinct first nibbles, a Short node under
/// exactly one.
proof fn lemma_short_vs_full_differ(k: Seq<u8>, c: GNode, ch: Seq<GNode>)
    requires
        wf(GNode::Short { key: k, child: Box::new(c) }),
        wf(GNode::Full { children: ch }),
    ensures
        exists|p: Seq<u8>| lookup(GNode::Short { key: k, child: Box::new(c) }, p) != lookup(
            GNode::Full { children: ch },
            p,
        ),
{
    broadcast use lemma_prefixes_alt;

    let s = GNode::Short { key: k, child: Box::new(c) };
    let f = GNode::Full { children: ch };
    let (a, b) = choose|a: int, b: int|
        0 <= a < b < 17 && !(ch[a] is Nil) && !(ch[b] is Nil);
    assert(wf(ch[a]));
    assert(wf(ch[b]));
    lemma_witness(ch[a]);
    lemma_witness(ch[b]);
    let pa = seq![a as u8] + witness_path(ch[a]);
    let pb = seq![b as u8] + witness_path(ch[b]);
    lemma_lookup_through_full(ch, a, witness_path(ch[a]));
    lemma_lookup_through_full(ch, b, witness_path(ch[b]));
    assert(lookup(f, pa) is Some);
    assert(lookup(f, pb) is Some);
    assert(pa[0] == a as u8);
    assert(pb[0] == b as u8);
    if lookup(s, pa) == lookup(f, pa) && lookup(s, pb) == lookup(f, pb) {
        assert(prefixes(k, pa));
        assert(prefixes(k, pb));
        assert(pa[0] == k[0]);
        assert(pb[0] == k[0]);
        assert(false);
    }
    if lookup(s, pa) != lookup(f, pa) {
        assert(lookup(s, pa) != lookup(f, pa));
    } else {
        assert(lookup(s, pb) != lookup(f, pb));
    }
}

/// A strictly shorter fragment never covers the same path set: its child
/// either ends the path too early or branches too early for the longer
/// fragment.
proof fn lemma_short_shorter_differ(k1: Seq<u8>, c1: GNode, k2: Seq<u8>, c2: GNode)
    requires
        wf(GNode::Short { key: k1, child: Box::new(c1) }),
        wf(GNode::Short { key: k2, child: Box::new(c2) }),
        k1.len() < k2.len(),
        forall|i: int| 0 <= i < k1.len() ==> k1[i] == k2[i],
    ensures
        exists|p: Seq<u8>| lookup(GNode::Short { key: k1, child: Box::new(c1) }, p) != lookup(
            GNode::Short { key: k2, child: Box::new(c2) },
            p,
        ),
{
    broadcast use lemma_prefixes_alt;

    let g1 = GNode::Short { key: k1, child: Box::new(c1) };
    let g2 = GNode::Short { key: k2, child: Box::new(c2) };
    if c1 is Value {
        // the shorter node ends a path the longer one cannot
        lemma_lookup_through_short(k1, c1, Seq::empty());
        assert(k1 + Seq::<u8>::empty() =~= k1);
        assert(lookup(c1, Seq::empty()) is Some);
        assert(lookup(g1, k1) is Some);
        assert(lookup(g2, k1) is None) by {
            assert(!prefixes(k2, k1));
        }
        assert(lookup(g1, k1) != lookup(g2, k1));
    } else {
        // the shorter node branches at a depth inside the longer fragment
        assert(c1 is Full);
        let ch = c1->Full_children;
        assert(c1 == GNode::Full { children: ch });
        assert(wf(c1));
        assert(two_present(ch));
        let (a, b) = choose|a: int, b: int|
            0 <= a < b < 17 && !(ch[a] is Nil) && !(ch[b] is Nil);
        assert(wf(ch[a]));
        assert(wf(ch[b]));
        lemma_witness(ch[a]);
        lemma_witness(ch[b]);
        let qa = seq![a as u8] + witness_path(ch[a]);
        let qb = seq![b as u8] + witness_path(ch[b]);
        lemma_lookup_through_full(ch, a, witness_path(ch[a]));
        lemma_lookup_through_full(ch, b, witness_path(ch[b]));
        assert(lookup(c1, qa) is Some);
        assert(lookup(c1, qb) is Some);
        lemma_lookup_through_short(k1, c1, qa);
        lemma_lookup_through_short(k1, c1, qb);
        let pa = k1 + qa;
        let pb = k1 + qb;
        assert(lookup(g1, pa) is Some);
        assert(lookup(g1, pb) is Some);
        assert(pa[k1.len() as int] == a as u8);
        assert(pb[k1.len() as int] == b as u8);
        if lookup(g2, pa) is Some && lookup(g2, pb) is Some {
            assert(prefixes(k2, pa));
            assert(prefixes(k2, pb));
            assert(k2[k1.len() as int] == a as u8);
            assert(k2[k1.len() as int] == b as u8);
            assert(false);
        }
        if lookup(g2, pa) is None {
            assert(lookup(g1, pa) != lookup(g2, pa));
        } else {
            assert(lookup(g1, pb) != lookup(g2, pb));
        }
    }
}

/// The canonical-form theorem behind order independence: two well-formed
/// trees that bind exactly the same paths to the same values are
/// structurally identical, whatever sequences of mutations produced them.
pub proof fn lemma_canonical_tree(g1: GNode, g2: GNode)
    requires
        wf(g1),
        wf(g2),
        forall|p: Seq<u8>| #[trigger] lookup(g1, p) == lookup(g2, p),
    ensures
        g1 == g2,
    decreases g1,
{
    broadcast use lemma_prefixes_alt;

    match g1 {
        GNode::Nil => {
            if !(g2 is Nil) {
                lemma_witness(g2);
                assert(lookup(g1, witness_path(g2)) is Some);
            }
        },
        GNode::Value(v1) => {
            assert(lookup(g1, Seq::empty()) == Some(v1));
            assert(lookup(g2, Seq::empty()) == Some(v1));
            match g2 {
                GNode::Value(v2) => {
                    assert(v1 == v2);
                },
                GNode::Short { key, child } => {
                    assert(!prefixes(key, Seq::<u8>::empty()));
                },
                _ => {},
            }
        },
        GNode::Short { key: k1, child: c1 } => {
            match g2 {
                GNode::Nil => {
                    lemma_witness(g1);
                    assert(lookup(g2, witness_path(g1)) is None);
                },
                GNode::Value(_) => {
                    assert(lookup(g2, Seq::empty()) is Some);
                    assert(!prefixes(k1, Seq::<u8>::empty()));
                    assert(lookup(g1, Seq::empty()) is None);
                },
                GNode::Hash(_) => {},
                GNode::Full { children } => {
                    lemma_short_vs_full_differ(k1, *c1, children);
                    let p = choose|p: Seq<u8>| lookup(g1, p) != lookup(g2, p);
                    assert(lookup(g1, p) == lookup(g2, p));
                },
                GNode::Short { key: k2, child: c2 } => {
                    // the two fragments are prefixes of one common bound
                    // path, so they are comparable
                    lemma_witness(g1);
                    let z = witness_path(g1);
                    assert(lookup(g2, z) is Some);
                    assert(prefixes(k1, z)) by {
                        assert(lookup(g1, z) is Some);
                    }
                    assert(prefixes(k2, z));
                    assert forall|i: int| 0 <= i < k1.len() && i < k2.len() implies k1[i]
                        == k2[i] by {
                        assert(k1[i] == z[i]);
                        assert(k2[i] == z[i]);
                    }
                    if k1.len() < k2.len() {
                        lemma_short_shorter_differ(k1, *c1, k2, *c2);
                        let p = choose|p: Seq<u8>| lookup(g1, p) != lookup(g2, p);
                        assert(lookup(g1, p) == lookup(g2, p));
                    } else if k2.len() < k1.len() {
                        assert forall|i: int| 0 <= i < k2.len() implies k2[i] == k1[i] by {}
                        lemma_short_shorter_differ(k2, *c2, k1, *c1);
                        let p = choose|p: Seq<u8>| lookup(g2, p) != lookup(g1, p);
                        assert(lookup(g1, p) == lookup(g2, p));
                    }
                    assert(k1.len() == k2.len());
                    assert(k1 =~= k2);
                    // the children bind the same relative paths
                    assert forall|q: Seq<u8>| #[trigger] lookup(*c1, q) == lookup(*c2, q) by {
                        lemma_lookup_through_short(k1, *c1, q);
                        lemma_lookup_through_short(k2, *c2, q);
                        assert(lookup(g1, k1 + q) == lookup(g2, k2 + q)) by {
                            assert(k1 + q =~= k2 + q);
                        }
                    }
                    lemma_canonical_tree(*c1, *c2);
                    assert(g1 =~= g2);
                },
            }
        },
        GNode::Full { children: ch1 } => {
            match g2 {
                GNode::Nil => {
                    lemma_witness(g1);
                    assert(lookup(g2, witness_path(g1)) is None);
                },
                GNode::Value(_) => {
                    assert(lookup(g2, Seq::empty()) is Some);
                    assert(lookup(g1, Seq::empty()) is None);
                },
                GNode::Hash(_) => {},
                GNode::Short { key: k2, child: c2 } => {
                    lemma_short_vs_full_differ(k2, *c2, ch1);
                    let p = choose|p: Seq<u8>| lookup(g2, p) != lookup(g1, p);
                    assert(lookup(g1, p) == lookup(g2, p));
                },
                GNode::Full { children: ch2 } => {
                    assert forall|i: int| 0 <= i < 17 implies ch1[i] == ch2[i] by {
                        assert forall|q: Seq<u8>| #[trigger] lookup(ch1[i], q) == lookup(
                            ch2[i],
                            q,
                        ) by {
                            lemma_lookup_through_full(ch1, i, q);
                            lemma_lookup_through_full(ch2, i, q);
                        }
                        if ch1[i] is Nil && !(ch2[i] is Nil) {
                            lemma_witness(ch2[i]);
                            assert(lookup(ch1[i], witness_path(ch2[i])) is Some);
                        } else if !(ch1[i] is Nil) && ch2[i] is Nil {
                            lemma_witness(ch1[i]);
                            assert(lookup(ch2[i], witness_path(ch1[i])) is Some);
                        } else if !(ch1[i] is Nil) && !(ch2[i] is Nil) {
                            lemma_canonical_tree(ch1[i], ch2[i]);
                        }
                    }
                    assert(ch1 =~= ch2);
                    assert(g1 =~= g2);
                },
            }
        },
        GNode::Hash(_) => {},
    }
}

/// Order independence of the root digest: tries that hold the same
/// key/value bindings report the same digest, however their histories of
/// inserts and deletes differ.
pub proof fn lemma_digest_order_independent(g1: GNode, g2: GNode)
    requires
        wf(g1),
        wf(g2),
        forall|p: Seq<u8>| #[trigger] lookup(g1, p) == lookup(g2, p),
    ensures
        digest_of(g1) == digest_of(g2),
{
    lemma_canonical_tree(g1, g2);
}

/// The same, stated over the key/value sets themselves: equal bindings
/// force equal digests.
pub proof fn lemma_digest_determined_by_bindings(g1: GNode, g2: GNode)
    requires
        wf(g1),
        wf(g2),
        bindings(g1) == bindings(g2),
    ensures
        digest_of(g1) == digest_of(g2),
{
    assert forall|p: Seq<u8>| #[trigger] lookup(g1, p) == lookup(g2, p) by {
        assert(bindings(g1).dom().contains(p) <==> lookup(g1, p) is Some);
        assert(bindings(g2).dom().contains(p) <==> lookup(g2, p) is Some);
        assert(bindings(g1).dom().contains(p) == bindings(g2).dom().contains(p));
        if lookup(g1, p) is Some {
            assert(bindings(g1)[p] == lookup(g1, p)->Some_0);
            assert(bindings(g2)[p] == lookup(g2, p)->Some_0);
            assert(bindings(g1)[p] == bindings(g2)[p]);
            assert(lookup(g1, p) == Some(lookup(g1, p)->Some_0));
            assert(lookup(g2, p) == Some(lookup(g2, p)->Some_0));
        }
    }
    lemma_digest_order_independent(g1, g2);
}

/// One path of the pointwise binding relation for a split.
proof fn lemma_split_pointwise(k: Seq<u8>, c: GNode, key: Seq<u8>, v: GNode, m: int, p: Seq<u8>)
    requires
        ins_pre(GNode::Short { key: k, child: Box::new(c) }, key, v),
        0 <= m < k.len(),
        0 <= m < key.len(),
        forall|i: int| 0 <= i < m ==> k[i] == key[i],
        k[m] != key[m],
        is_tail(key),
    ensures
        lookup(split_result(k, c, key, v, m), p) == if prefixes(key, p) {
            lookup(v, p.skip(key.len() as int))
        } else {
            lookup(GNode::Short { key: k, child: Box::new(c) }, p)
        },
{
    broadcast use lemma_prefixes_alt;

    let n = GNode::Short { key: k, child: Box::new(c) };
    let val = v->Value_0;
    let b1 = split_arm(k, c, m);
    let b2 = split_arm(key, v, m);
    let children = Seq::new(17, |i: int| GNode::Nil).update(k[m] as int, b1).update(
        key[m] as int,
        b2,
    );
    let branch = GNode::Full { children };
    let pre = key.take(m);
    let nn = split_result(k, c, key, v, m);
    assert(k[m] <= 16 && key[m] <= 16);

    // reading the outer Short (or the branch itself when m == 0)
    assert(lookup(nn, p) == if prefixes(pre, p) {
        lookup(branch, p.skip(m))
    } else {
        Option::<Seq<u8>>::None
    }) by {
        if m == 0 {
            assert(prefixes(pre, p)) by {
                assert(p.take(0) =~= pre);
            }
            assert(p.skip(0) =~= p);
        }
    }

    if !prefixes(pre, p) {
        // diverges before the shared prefix ends: absent on every side
        assert(!prefixes(key, p));
        assert(!prefixes(k, p)) by {
            if prefixes(k, p) {
                assert forall|i: int| 0 <= i < pre.len() implies pre[i] == p[i] by {
                    assert(pre[i] == key[i]);
                    assert(key[i] == k[i]);
                    assert(k[i] == p[i]);
                }
            }
        }
        assert(lookup(n, p) is None);
    } else {
        let q = p.skip(m);
        assert(q.len() == p.len() - m);
        assert(forall|i: int| 0 <= i < q.len() ==> q[i] == p[m + i]);
        if q.len() == 0 {
            // the path ends at the branch point: absent on every side
            assert(lookup(branch, q) is None);
            assert(!prefixes(key, p));
            assert(!prefixes(k, p));
            assert(lookup(n, p) is None);
        } else if q[0] == key[m] {
            // down the arm of the inserted path
            let r = q.skip(1);
            lemma_skip_skip(p, m, 1);
            assert(r =~= p.skip(m + 1));
            assert(lookup(branch, q) == lookup(b2, r));
            assert(!prefixes(k, p)) by {
                assert(p[m] == key[m]);
            }
            assert(lookup(n, p) is None);
            // what the new arm binds: exactly the remainder of the path
            let ks = key.skip(m + 1);
            assert(lookup(b2, r) == if r == ks {
                Some(val)
            } else {
                Option::<Seq<u8>>::None
            }) by {
                if key.len() > m + 1 {
                    assert(b2 == GNode::Short { key: ks, child: Box::new(v) });
                    if prefixes(ks, r) {
                        let x = r.skip(ks.len() as int);
                        assert(lookup(b2, r) == lookup(v, x));
                        assert(lookup(v, x) == if x.len() == 0 {
                            Some(val)
                        } else {
                            Option::<Seq<u8>>::None
                        });
                        if r.len() == ks.len() {
                            assert(r =~= ks);
                            assert(x.len() == 0);
                        } else {
                            assert(r != ks);
                            assert(x.len() > 0);
                        }
                    } else {
                        assert(lookup(b2, r) is None);
                        if r == ks {
                            assert(prefixes(ks, r)) by {
                                assert(r.take(ks.len() as int) =~= ks);
                            }
                        }
                    }
                } else {
                    assert(b2 == v);
                    assert(lookup(v, r) == if r.len() == 0 {
                        Some(val)
                    } else {
                        Option::<Seq<u8>>::None
                    });
                    assert(ks.len() == 0);
                    if r.len() == 0 {
                        assert(r =~= ks);
                    }
                    if r == ks {
                        assert(r.len() == 0);
                    }
                }
            }
            if prefixes(key, p) {
                assert(r =~= ks ==> p.len() == key.len());
                if p.len() == key.len() {
                    assert(r =~= ks) by {
                        assert forall|i: int| 0 <= i < r.len() implies r[i] == ks[i] by {
                            assert(r[i] == p[m + 1 + i]);
                            assert(p[m + 1 + i] == key[m + 1 + i]);
                        }
                    }
                    assert(p.skip(key.len() as int).len() == 0);
                    assert(lookup(v, p.skip(key.len() as int)) == Some(val));
                } else {
                    assert(r != ks);
                    assert(p.skip(key.len() as int).len() > 0);
                    assert(lookup(v, p.skip(key.len() as int)) is None);
                }
            } else {
                // the arm only answers for the full inserted path
                if r == ks {
                    assert forall|i: int| 0 <= i < key.len() implies key[i] == p[i] by {
                        if i < m {
                            assert(key[i] == pre[i]);
                            assert(pre[i] == p[i]);
                        } else if i == m {
                        } else {
                            assert(key[i] == ks[i - m - 1]);
                            assert(ks[i - m - 1] == r[i - m - 1]);
                            assert(r[i - m - 1] == p[i]);
                        }
                    }
                    assert(prefixes(key, p));
                }
                assert(lookup(b2, r) is None);
            }
        } else if q[0] == k[m] {
            // down the arm of the old subtree
            let r = q.skip(1);
            lemma_skip_skip(p, m, 1);
            assert(r =~= p.skip(m + 1));
            assert(lookup(branch, q) == lookup(b1, r));
            assert(!prefixes(key, p)) by {
                assert(p[m] == k[m]);
            }
            let kt = k.skip(m + 1);
            assert(lookup(b1, r) == lookup(n, p)) by {
                assert(prefixes(k, p) <==> (prefixes(kt, r) && p.len() >= m + 1)) by {
                    if prefixes(kt, r) {
                        assert forall|i: int| 0 <= i < k.len() implies k[i] == p[i] by {
                            if i < m {
                                assert(k[i] == key[i]);
                                assert(key[i] == pre[i]);
                                assert(pre[i] == p[i]);
                            } else if i == m {
                            } else {
                                assert(k[i] == kt[i - m - 1]);
                                assert(kt[i - m - 1] == r[i - m - 1]);
                                assert(r[i - m - 1] == p[i]);
                            }
                        }
                    }
                    if prefixes(k, p) {
                        assert forall|i: int| 0 <= i < kt.len() implies kt[i] == r[i] by {
                            assert(kt[i] == k[m + 1 + i]);
                            assert(k[m + 1 + i] == p[m + 1 + i]);
                            assert(p[m + 1 + i] == r[i]);
                        }
                    }
                }
                if k.len() > m + 1 {
                    assert(b1 == GNode::Short { key: kt, child: Box::new(c) });
                    if prefixes(kt, r) {
                        lemma_skip_skip(p, m + 1, k.len() - m - 1);
                        assert(r.skip(kt.len() as int) =~= p.skip(k.len() as int));
                    }
                } else {
                    assert(b1 == c);
                    assert(kt.len() == 0);
                    assert(prefixes(kt, r)) by {
                        assert(r.take(0) =~= kt);
                    }
                    if prefixes(k, p) {
                        assert(r.skip(0) =~= r);
                        assert(r =~= p.skip(k.len() as int));
                    }
                }
            }
        } else {
            // off both arms: absent on every side
            if q[0] < 17 {
                assert(children[q[0] as int] is Nil);
                assert(lookup(branch, q) == lookup(GNode::Nil, q.skip(1)));
                assert(lookup(GNode::Nil, q.skip(1)) is None);
            } else {
                assert(lookup(branch, q) is None);
            }
            assert(!prefixes(key, p)) by {
                assert(p[m] == q[0]);
            }
            assert(!prefixes(k, p)) by {
                assert(p[m] == q[0]);
            }
            assert(lookup(n, p) is None);
        }
    }
}

} // verus!
