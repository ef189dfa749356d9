//! Hashing of graph nodes, to find identical nodes pushed before.

use vstd::prelude::*;

use std::hash::Hasher;

use fnv::FnvHasher;

use crate::graph::{Miss, Node, NodeId, NodeView, Range};

verus! {

/// FNV-1a over a byte sequence, 64 bits: start from the offset basis and,
/// for each byte, xor it in and multiply by the FNV prime, wrapping.
pub open spec fn spec_fnv1a(bytes: Seq<u8>) -> u64
    decreases bytes.len(),
{
    if bytes.len() == 0 {
        0xcbf29ce484222325u64
    } else {
        (((spec_fnv1a(bytes.drop_last()) ^ (bytes.last() as u64)) as int * 0x100000001b3int) % 0x1_0000_0000_0000_0000int) as u64
    }
}

/// Hashes bytes with `fnv::FnvHasher` (a default hasher, one `write` of
/// the bytes, then `finish`), which computes 64-bit FNV-1a.
#[verifier::external_body]
pub(crate) fn fnv1a_hash(bytes: &[u8]) -> (r: u64)
    ensures
        r == spec_fnv1a(bytes@),
{
    let mut hasher = FnvHasher::default();
    hasher.write(bytes);
    hasher.finish()
}

/// The four bytes of an id, least significant first.
pub open spec fn id_bytes(id: NodeId) -> Seq<u8> {
    let n = id.index();
    seq![(n % 256) as u8, ((n / 256) % 256) as u8, ((n / 65536) % 256) as u8, ((n / 16777216) % 256) as u8]
}

/// An optional id: 0 for none, else 1 and the id's bytes.
pub open spec fn opt_bytes(id: Option<NodeId>) -> Seq<u8> {
    match id {
        Some(i) => seq![1u8] + id_bytes(i),
        None => seq![0u8],
    }
}

/// The first `n` entries of a fork's table, each as an optional id.
pub open spec fn lut_bytes(lut: Seq<Option<NodeId>>, n: nat) -> Seq<u8>
    decreases n,
{
    if n == 0 {
        Seq::empty()
    } else {
        lut_bytes(lut, (n - 1) as nat) + opt_bytes(lut[n - 1])
    }
}

/// The ranges of a rope, each as its two bounds.
pub open spec fn ranges_bytes(p: Seq<Range>) -> Seq<u8>
    decreases p.len(),
{
    if p.len() == 0 {
        Seq::empty()
    } else {
        ranges_bytes(p.drop_last()) + seq![p.last().0, p.last().1]
    }
}

/// The encoding of a node that is hashed: a fork as 0, its table and its
/// miss; a rope as 1, its ranges, its target, where its first byte misses
/// to, and 2 when any miss goes there (3 otherwise); a leaf as nothing.
pub open spec fn node_encoding<L>(node: NodeView<L>) -> Seq<u8> {
    match node {
        NodeView::Fork(f) => seq![0u8] + lut_bytes(f.lut, 256) + opt_bytes(f.miss),
        NodeView::Rope(r) => seq![1u8] + ranges_bytes(r.pattern) + id_bytes(r.target) + opt_bytes(r.miss.spec_first())
            + seq![if r.miss is Any { 2u8 } else { 3u8 }],
        NodeView::Leaf(_) => Seq::empty(),
    }
}

fn push_id(out: &mut Vec<u8>, id: NodeId)
    ensures
        final(out)@ == old(out)@ + id_bytes(id),
{
    let n = id.get();
    out.push((n % 256) as u8);
    out.push(((n / 256) % 256) as u8);
    out.push(((n / 65536) % 256) as u8);
    out.push(((n / 16777216) % 256) as u8);
    proof {
        assert(out@ =~= old(out)@ + id_bytes(id));
    }
}

fn push_opt(out: &mut Vec<u8>, id: Option<NodeId>)
    ensures
        final(out)@ == old(out)@ + opt_bytes(id),
{
    match id {
        Some(i) => {
            out.push(1);
            push_id(out, i);
            proof {
                assert(out@ =~= old(out)@ + opt_bytes(id));
            }
        },
        None => {
            out.push(0);
            proof {
                assert(out@ =~= old(out)@ + opt_bytes(id));
            }
        },
    }
}

/// A byte encoding of a fork or rope (empty for leaves), to be hashed.
pub(crate) fn node_bytes<L>(node: &Node<L>) -> (r: Vec<u8>)
    requires
        node@.sound(),
    ensures
        r@ == node_encoding(node@),
{
    let mut out: Vec<u8> = Vec::new();
    match node {
        Node::Fork(fork) => {
            out.push(0);
            let mut b: u16 = 0;
            while b < 256
                invariant
                    b <= 256,
                    fork@.lut.len() == 256,
                    out@ == seq![0u8] + lut_bytes(fork@.lut, b as nat),
                decreases 256 - b,
            {
                push_opt(&mut out, fork.get(b as u8));
                proof {
                    assert(lut_bytes(fork@.lut, (b + 1) as nat) == lut_bytes(fork@.lut, b as nat) + opt_bytes(fork@.lut[b as int]));
                    assert(out@ =~= seq![0u8] + lut_bytes(fork@.lut, (b + 1) as nat));
                }
                b = b + 1;
            }
            proof {
                fork.lemma_fields();
            }
            push_opt(&mut out, fork.miss);
            proof {
                assert(out@ =~= node_encoding(node@));
            }
        },
        Node::Rope(rope) => {
            out.push(1);
            let ghost pat = rope.pattern.0@;
            let mut i: usize = 0;
            while i < rope.pattern.0.len()
                invariant
                    i <= rope.pattern.0@.len(),
                    pat == rope.pattern.0@,
                    out@ == seq![1u8] + ranges_bytes(pat.take(i as int)),
                decreases rope.pattern.0@.len() - i,
            {
                proof {
                    assert(pat.take(i + 1).drop_last() == pat.take(i as int));
                }
                out.push(rope.pattern.0[i].0);
                out.push(rope.pattern.0[i].1);
                proof {
                    assert(out@ =~= seq![1u8] + ranges_bytes(pat.take(i + 1)));
                }
                i = i + 1;
            }
            proof {
                assert(pat.take(i as int) == pat);
            }
            push_id(&mut out, rope.target);
            push_opt(&mut out, rope.miss.first());
            match rope.miss {
                Miss::Any(_) => out.push(2),
                _ => out.push(3),
            }
            proof {
                assert(out@ =~= node_encoding(node@));
            }
        },
        Node::Leaf(_) => {
            proof {
                assert(out@ =~= node_encoding(node@));
            }
        },
    }
    out
}

} // verus!
