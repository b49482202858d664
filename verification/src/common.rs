//! The key codec: 32-byte digests, expansion of a byte key into its nibble
//! path, the compact (hex-prefix) packing used for canonical hashing, and
//! the common-prefix length of two nibble paths.
use vstd::prelude::*;

verus! {

/// A 32-byte digest value.
#[derive(Clone, Copy, Debug)]
pub struct Hash([u8; 32]);

/// The bytes of the fixed, domain-separated digest reported for an empty
/// trie.  It is a constant of this library, not the hash of any input.
pub open spec fn empty_root_bytes() -> Seq<u8> {
    seq![
        0x49u8, 0x20u8, 0x6cu8, 0x6fu8, 0x76u8, 0x65u8, 0x20u8, 0x72u8,
        0x6fu8, 0x73u8, 0x65u8, 0x20u8, 0x65u8, 0x6cu8, 0x64u8, 0x65u8,
        0x72u8, 0x20u8, 0x73u8, 0x69u8, 0x73u8, 0x74u8, 0x65u8, 0x72u8,
        0x00u8, 0x00u8, 0x00u8, 0x00u8, 0x00u8, 0x00u8, 0x00u8, 0x00u8,
    ]
}

impl View for Hash {
    type V = Seq<u8>;

    closed spec fn view(&self) -> Seq<u8> {
        self.0@
    }
}

impl Hash {
    /// The all-zero digest.
    pub fn default() -> (r: Self)
        ensures
            r@ == Seq::new(32, |i: int| 0u8),
    {
        let r = Hash([0u8; 32]);
        proof {
            assert(r.0@ =~= Seq::new(32, |i: int| 0u8));
        }
        r
    }

    /// Wraps raw digest bytes.
    pub fn from(v: [u8; 32]) -> (r: Self)
        ensures
            r@ == v@,
    {
        Hash(v)
    }

    /// The fixed digest of the empty trie.
    pub fn empty_root_hash() -> (r: Self)
        ensures
            r@ == empty_root_bytes(),
    {
        let arr: [u8; 32] = [
            0x49u8, 0x20u8, 0x6cu8, 0x6fu8, 0x76u8, 0x65u8, 0x20u8, 0x72u8,
            0x6fu8, 0x73u8, 0x65u8, 0x20u8, 0x65u8, 0x6cu8, 0x64u8, 0x65u8,
            0x72u8, 0x20u8, 0x73u8, 0x69u8, 0x73u8, 0x74u8, 0x65u8, 0x72u8,
            0x00u8, 0x00u8, 0x00u8, 0x00u8, 0x00u8, 0x00u8, 0x00u8, 0x00u8,
        ];
        let r = Hash(arr);
        proof {
            assert(r.0@ =~= empty_root_bytes());
        }
        r
    }

    /// The digest as a plain byte array.
    pub fn to_bytes(&self) -> (r: [u8; 32])
        ensures
            r@ == self@,
    {
        self.0
    }
}

/// The nibble pairs of a byte key: each byte split into its high and low
/// nibble, in order, without the terminator.
pub open spec fn hex_pairs(k: Seq<u8>) -> Seq<u8>
    decreases k.len(),
{
    if k.len() == 0 {
        Seq::empty()
    } else {
        seq![k[0] / 16, k[0] % 16] + hex_pairs(k.skip(1))
    }
}

/// The full nibble path of a byte key: its nibble pairs closed by the
/// terminator 16.
pub open spec fn hex_of_key(k: Seq<u8>) -> Seq<u8> {
    hex_pairs(k) + seq![16u8]
}

pub proof fn lemma_hex_pairs_append(a: Seq<u8>, b: Seq<u8>)
    ensures
        hex_pairs(a + b) == hex_pairs(a) + hex_pairs(b),
    decreases a.len(),
{
    if a.len() == 0 {
        assert(a + b =~= b);
        assert(hex_pairs(a) + hex_pairs(b) =~= hex_pairs(b));
    } else {
        assert((a + b).skip(1) =~= a.skip(1) + b);
        lemma_hex_pairs_append(a.skip(1), b);
        assert(hex_pairs(a + b) =~= hex_pairs(a) + hex_pairs(b));
    }
}

pub proof fn lemma_hex_pairs_nibbles(k: Seq<u8>)
    ensures
        hex_pairs(k).len() == 2 * k.len(),
        crate::model::is_nibbles(hex_pairs(k)),
    decreases k.len(),
{
    if k.len() > 0 {
        lemma_hex_pairs_nibbles(k.skip(1));
    }
}

/// The nibble path of a key is always a complete tail: nibbles closed by
/// a single trailing terminator.
pub proof fn lemma_hex_of_key_is_tail(k: Seq<u8>)
    ensures
        crate::model::is_tail(hex_of_key(k)),
        hex_of_key(k).len() == 2 * k.len() + 1,
{
    lemma_hex_pairs_nibbles(k);
}

/// Expands a byte key into its nibble path: two nibbles per byte, then the
/// terminator 16.
pub fn key_to_hex(key: &[u8]) -> (r: Vec<u8>)
    ensures
        r@ == hex_of_key(key@),
{
    let mut bt: Vec<u8> = Vec::new();
    let mut i: usize = 0;
    while i < key.len()
        invariant
            i <= key.len(),
            bt@ == hex_pairs(key@.take(i as int)),
        decreases key.len() - i,
    {
        let v = key[i];
        bt.push(v / 16);
        bt.push(v % 16);
        proof {
            reveal_with_fuel(hex_pairs, 3);
            assert(key@.take(i + 1) =~= key@.take(i as int) + seq![key@[i as int]]);
            lemma_hex_pairs_append(key@.take(i as int), seq![key@[i as int]]);
            assert(seq![key@[i as int]].skip(1) =~= Seq::<u8>::empty());
            assert(hex_pairs(seq![key@[i as int]]) =~= seq![key@[i as int] / 16, key@[i as int] % 16]);
            assert(bt@ =~= hex_pairs(key@.take(i + 1)));
        }
        i = i + 1;
    }
    proof {
        assert(key@.take(key@.len() as int) =~= key@);
    }
    bt.push(16);
    proof {
        assert(bt@ =~= hex_of_key(key@));
    }
    bt
}

/// Whether a nibble sequence ends with the terminator.
pub open spec fn spec_has_term(d: Seq<u8>) -> bool {
    d.len() > 0 && d.last() == 16
}

/// Whether the nibble path ends with the terminator (a leaf path).
pub fn has_term(data: &[u8]) -> (r: bool)
    ensures
        r == spec_has_term(data@),
{
    data.len() > 0 && data[data.len() - 1] == 16
}

/// Nibbles packed two per byte, high nibble first; a trailing odd nibble
/// is dropped.
pub open spec fn pack_pairs(d: Seq<u8>) -> Seq<u8>
    decreases d.len(),
{
    if d.len() < 2 {
        Seq::empty()
    } else {
        seq![(d[0] << 4) | d[1]] + pack_pairs(d.skip(2))
    }
}

pub proof fn lemma_pack_pairs_append(a: Seq<u8>, b: Seq<u8>)
    requires
        a.len() % 2 == 0,
    ensures
        pack_pairs(a + b) == pack_pairs(a) + pack_pairs(b),
    decreases a.len(),
{
    if a.len() == 0 {
        assert(a + b =~= b);
        assert(pack_pairs(a) + pack_pairs(b) =~= pack_pairs(b));
    } else {
        assert((a + b).skip(2) =~= a.skip(2) + b);
        lemma_pack_pairs_append(a.skip(2), b);
        assert(pack_pairs(a + b) =~= pack_pairs(a) + pack_pairs(b));
    }
}

/// The compact (hex-prefix) packing of a nibble path, used only while
/// canonically encoding a Short node's key for hashing: the trailing
/// terminator becomes a leaf flag bit, a leading odd nibble folds into the
/// first byte beside an odd-length flag bit, and the remaining nibbles pack
/// two per byte.
pub open spec fn compact_of(hex: Seq<u8>) -> Seq<u8> {
    let d = if spec_has_term(hex) {
        hex.drop_last()
    } else {
        hex
    };
    let flag: u8 = if spec_has_term(hex) {
        0x20
    } else {
        0x00
    };
    if d.len() % 2 == 1 {
        seq![flag | 0x10 | d[0]] + pack_pairs(d.skip(1))
    } else {
        seq![flag] + pack_pairs(d)
    }
}

/// Appends nibbles packed two per byte; the nibble count must be even.
pub fn decode_nibbles(nibbles: &[u8], bytes: &mut Vec<u8>)
    requires
        nibbles@.len() % 2 == 0,
    ensures
        final(bytes)@ == old(bytes)@ + pack_pairs(nibbles@),
{
    let mut ni: usize = 0;
    while ni < nibbles.len()
        invariant
            ni <= nibbles.len(),
            ni % 2 == 0,
            nibbles@.len() % 2 == 0,
            bytes@ == old(bytes)@ + pack_pairs(nibbles@.take(ni as int)),
        decreases nibbles.len() - ni,
    {
        bytes.push((nibbles[ni] << 4) | nibbles[ni + 1]);
        proof {
            reveal_with_fuel(pack_pairs, 3);
            let s = nibbles@;
            assert(s.take(ni + 2) =~= s.take(ni as int) + seq![s[ni as int], s[ni + 1]]);
            lemma_pack_pairs_append(s.take(ni as int), seq![s[ni as int], s[ni + 1]]);
            assert(seq![s[ni as int], s[ni + 1]].skip(2) =~= Seq::<u8>::empty());
            assert(pack_pairs(seq![s[ni as int], s[ni + 1]]) =~= seq![(s[ni as int] << 4) | s[ni + 1]]);
            assert(bytes@ =~= old(bytes)@ + pack_pairs(s.take(ni + 2)));
        }
        ni = ni + 2;
    }
    proof {
        assert(nibbles@.take(nibbles@.len() as int) =~= nibbles@);
    }
}

/// Packs a nibble path into its compact (hex-prefix) byte form.
pub fn hex_to_compact(data: &[u8]) -> (r: Vec<u8>)
    ensures
        r@ == compact_of(data@),
{
    let ghost whole = data@;
    let has_t = has_term(data);
    let dlen = if has_t {
        data.len() - 1
    } else {
        data.len()
    };
    let ghost d = if spec_has_term(whole) { whole.drop_last() } else { whole };
    proof {
        assert(d =~= whole.take(dlen as int));
    }
    let flag: u8 = if has_t {
        0x20
    } else {
        0x00
    };
    let mut buf: Vec<u8> = Vec::new();
    let mut start: usize = 0;
    if dlen % 2 == 1 {
        buf.push(flag | 0x10 | data[0]);
        start = 1;
    } else {
        buf.push(flag);
    }
    let rest = vstd::slice::slice_subrange(data, start, dlen);
    decode_nibbles(rest, &mut buf);
    proof {
        if d.len() % 2 == 1 {
            assert(rest@ =~= d.skip(1));
        } else {
            assert(rest@ =~= d);
        }
        assert(buf@ =~= compact_of(whole));
    }
    buf
}

/// The lowercase hex digit of a value below 16.
pub open spec fn hex_digit(n: u8) -> char {
    if n == 0 {
        '0'
    } else if n == 1 {
        '1'
    } else if n == 2 {
        '2'
    } else if n == 3 {
        '3'
    } else if n == 4 {
        '4'
    } else if n == 5 {
        '5'
    } else if n == 6 {
        '6'
    } else if n == 7 {
        '7'
    } else if n == 8 {
        '8'
    } else if n == 9 {
        '9'
    } else if n == 10 {
        'a'
    } else if n == 11 {
        'b'
    } else if n == 12 {
        'c'
    } else if n == 13 {
        'd'
    } else if n == 14 {
        'e'
    } else {
        'f'
    }
}

/// The lowercase hex text of the given bytes, two digits per byte.
pub open spec fn hex_text(b: Seq<u8>) -> Seq<char>
    decreases b.len(),
{
    if b.len() == 0 {
        Seq::empty()
    } else {
        seq![hex_digit(b[0] / 16), hex_digit(b[0] % 16)] + hex_text(b.skip(1))
    }
}

/// Relies on hex::encode: every input byte becomes its two lowercase hex
/// digits, in order.
#[verifier::external_body]
pub(crate) fn hex_encode_text(b: &[u8]) -> (r: String)
    ensures
        r@ == hex_text(b@),
{
    hex::encode(b)
}

/// The length of the longest common prefix of two nibble paths.
pub fn prefix_len(a: &[u8], b: &[u8]) -> (r: usize)
    ensures
        r <= a@.len(),
        r <= b@.len(),
        forall|i: int| 0 <= i < r ==> a@[i] == b@[i],
        r < a@.len() && r < b@.len() ==> a@[r as int] != b@[r as int],
    decreases a@.len(),
{
    let mut i: usize = 0;
    let mut length = a.len();
    if b.len() < length {
        length = b.len();
    }
    while i < length
        invariant
            i <= length,
            length <= a@.len(),
            length <= b@.len(),
            length == if a@.len() <= b@.len() { a@.len() } else { b@.len() },
            forall|j: int| 0 <= j < i ==> a@[j] == b@[j],
        decreases length - i,
    {
        if a[i] != b[i] {
            return i;
        }
        i = i + 1;
    }
    i
}

} // verus!
