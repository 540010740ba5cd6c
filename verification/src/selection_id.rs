//! The stable identifier of a selection: the ids sorted, hashed, and
//! rendered in hexadecimal.  Two selections with the same ids in any order
//! get the same identifier, which is how the UI discards events from a
//! superseded selection.

use vstd::prelude::*;

use core::hash::Hasher;
use std::collections::hash_map::DefaultHasher;
use vstd::relations::{sorted_by, total_ordering};
use vstd::seq_lib::lemma_sorted_unique;
use vstd::std_specs::hash::DefaultHasherAdditionalSpecFns;
use vstd::utf8::encode_utf8;

use crate::strutil::{bytes_le, format_hex16, hex16_of, str_le};

verus! {

/// Byte-wise lexicographic order as a relation value.
pub open spec fn byte_leq() -> spec_fn(Seq<u8>, Seq<u8>) -> bool {
    |a: Seq<u8>, b: Seq<u8>| bytes_le(a, b)
}

/// The order is reflexive.
proof fn lemma_bytes_le_refl(a: Seq<u8>)
    ensures
        bytes_le(a, a),
    decreases a.len(),
{
    if a.len() > 0 {
        lemma_bytes_le_refl(a.subrange(1, a.len() as int));
    }
}

/// The order is antisymmetric.
proof fn lemma_bytes_le_antisym(a: Seq<u8>, b: Seq<u8>)
    requires
        bytes_le(a, b),
        bytes_le(b, a),
    ensures
        a == b,
    decreases a.len(),
{
    if a.len() == 0 {
        assert(b.len() == 0);
        assert(a =~= b);
    } else {
        assert(b.len() > 0);
        assert(a[0] == b[0]);
        lemma_bytes_le_antisym(a.subrange(1, a.len() as int), b.subrange(1, b.len() as int));
        assert(a =~= b) by {
            assert(a.subrange(1, a.len() as int) == b.subrange(1, b.len() as int));
            assert forall|t: int| 0 <= t < a.len() implies a[t] == b[t] by {
                if t > 0 {
                    assert(a.subrange(1, a.len() as int)[t - 1] == a[t]);
                    assert(b.subrange(1, b.len() as int)[t - 1] == b[t]);
                }
            }
        }
    }
}

/// The order is transitive.
proof fn lemma_bytes_le_trans(a: Seq<u8>, b: Seq<u8>, c: Seq<u8>)
    requires
        bytes_le(a, b),
        bytes_le(b, c),
    ensures
        bytes_le(a, c),
    decreases a.len(),
{
    if a.len() > 0 && c.len() > 0 {
        assert(b.len() > 0);
        if a[0] == b[0] && b[0] == c[0] {
            lemma_bytes_le_trans(
                a.subrange(1, a.len() as int),
                b.subrange(1, b.len() as int),
                c.subrange(1, c.len() as int),
            );
        }
    } else if a.len() > 0 && c.len() == 0 {
        assert(b.len() > 0 ==> false);
    }
}

/// Any two byte strings compare one way or the other.
proof fn lemma_bytes_le_connected(a: Seq<u8>, b: Seq<u8>)
    ensures
        bytes_le(a, b) || bytes_le(b, a),
    decreases a.len(),
{
    if a.len() > 0 && b.len() > 0 && a[0] == b[0] {
        lemma_bytes_le_connected(a.subrange(1, a.len() as int), b.subrange(1, b.len() as int));
    }
}

/// Byte-wise lexicographic order is a total ordering.
pub proof fn lemma_byte_leq_total()
    ensures
        total_ordering(byte_leq()),
{
    let r = byte_leq();
    assert forall|x: Seq<u8>| #[trigger] r(x, x) by {
        lemma_bytes_le_refl(x);
    }
    assert forall|x: Seq<u8>, y: Seq<u8>| #[trigger] r(x, y) && #[trigger] r(y, x) implies x
        == y by {
        lemma_bytes_le_antisym(x, y);
    }
    assert forall|x: Seq<u8>, y: Seq<u8>, z: Seq<u8>| #[trigger] r(x, y) && #[trigger] r(
        y,
        z,
    ) implies r(x, z) by {
        lemma_bytes_le_trans(x, y, z);
    }
    assert forall|x: Seq<u8>, y: Seq<u8>| #[trigger] r(x, y) || #[trigger] r(y, x) by {
        lemma_bytes_le_connected(x, y);
    }
}

/// The canonical byte streams of a selection: each id encoded, the
/// encodings sorted.
pub open spec fn canonical_streams(ids: Seq<Seq<char>>) -> Seq<Seq<u8>> {
    ids.map_values(|v: Seq<char>| encode_utf8(v)).sort_by(byte_leq())
}

/// The first `k` byte streams, each followed by a terminator write, so
/// that where one id ends and the next begins stays unambiguous.
pub open spec fn delimited_upto(streams: Seq<Seq<u8>>, k: int) -> Seq<Seq<u8>>
    decreases k,
{
    if k <= 0 {
        Seq::empty()
    } else {
        delimited_upto(streams, k - 1) + seq![streams[k - 1], seq![0xffu8]]
    }
}

/// The stable identifier of a selection: the hash of its canonical,
/// delimited byte streams, in hexadecimal.  A permutation of the ids
/// gives the same value, and the terminator after each id keeps distinct
/// selections from producing one stream.
pub open spec fn selection_id_spec(ids: Seq<Seq<char>>) -> Seq<char> {
    hex16_of(
        DefaultHasher::spec_finish(
            delimited_upto(canonical_streams(ids), canonical_streams(ids).len() as int),
        ),
    )
}

/// Sorts paths into the canonical byte order: the order `str::cmp`
/// documents, which also drives the deterministic file ordering of the
/// clipboard assembly.
pub fn sort_paths(ids: &Vec<String>) -> (r: Vec<String>)
    ensures
        sorted_by(r@.map_values(|s: String| encode_utf8(s@)), byte_leq()),
        r@.map_values(|s: String| encode_utf8(s@)).to_multiset() == ids@.map_values(
            |s: String| encode_utf8(s@),
        ).to_multiset(),
{
    broadcast use vstd::seq_lib::group_to_multiset_ensures;
    broadcast use vstd::multiset::group_multiset_axioms;

    let ghost bytes_of = |s: String| encode_utf8(s@);
    let mut out: Vec<String> = Vec::new();
    let mut k: usize = 0;
    proof {
        assert(out@.map_values(bytes_of) =~= Seq::<Seq<u8>>::empty());
        assert(ids@.map_values(bytes_of).subrange(0, 0) =~= Seq::<Seq<u8>>::empty());
        assert(out@.map_values(bytes_of).to_multiset() =~= ids@.map_values(bytes_of).subrange(
            0,
            0,
        ).to_multiset());
    }
    while k < ids.len()
        invariant
            k <= ids@.len(),
            bytes_of == (|s: String| encode_utf8(s@)),
            sorted_by(out@.map_values(bytes_of), byte_leq()),
            out@.map_values(bytes_of).to_multiset() == ids@.map_values(bytes_of).subrange(
                0,
                k as int,
            ).to_multiset(),
        decreases ids@.len() - k,
    {
        let x: String = ids[k].clone();
        let mut pos: usize = 0;
        while pos < out.len()
            invariant
                pos <= out@.len(),
                bytes_of == (|s: String| encode_utf8(s@)),
                forall|t: int|
                    0 <= t < pos ==> bytes_le(
                        #[trigger] out@.map_values(bytes_of)[t],
                        encode_utf8(x@),
                    ),
            ensures
                pos <= out@.len(),
                forall|t: int|
                    0 <= t < pos ==> bytes_le(
                        #[trigger] out@.map_values(bytes_of)[t],
                        encode_utf8(x@),
                    ),
                (pos as int) < out@.len() ==> !bytes_le(
                    out@.map_values(bytes_of)[pos as int],
                    encode_utf8(x@),
                ),
            decreases out@.len() - pos,
        {
            if !str_le(out[pos].as_str(), x.as_str()) {
                break ;
            }
            pos = pos + 1;
        }
        let ghost pre = out@;
        out.insert(pos, x);
        proof {
            lemma_byte_leq_total();
            let bpre = pre.map_values(bytes_of);
            let bnow = out@.map_values(bytes_of);
            let xb = encode_utf8(x@);
            assert(out@ =~= pre.subrange(0, pos as int) + seq![x] + pre.subrange(
                pos as int,
                pre.len() as int,
            ));
            assert(bnow =~= bpre.subrange(0, pos as int) + seq![xb] + bpre.subrange(
                pos as int,
                bpre.len() as int,
            ));
            assert(sorted_by(bnow, byte_leq())) by {
                assert forall|a: int, b: int| 0 <= a < b < bnow.len() implies #[trigger] byte_leq()(
                    bnow[a],
                    bnow[b],
                ) by {
                    let pa: int = if a < pos as int {
                        a
                    } else {
                        a - 1
                    };
                    let pb: int = if b < pos as int {
                        b
                    } else {
                        b - 1
                    };
                    let posi: int = pos as int;
                    if a == posi {
                        if b > posi {
                            if posi <= pb && pb < pre.len() && posi < pre.len() {
                                assert(!bytes_le(bpre[posi], xb));
                                lemma_bytes_le_connected(bpre[posi], xb);
                                if pb != posi {
                                    assert(byte_leq()(bpre[posi], bpre[pb]));
                                    lemma_bytes_le_trans(xb, bpre[posi], bpre[pb]);
                                }
                            }
                        }
                    } else if b == posi {
                        assert(bytes_le(bpre[pa], xb));
                    } else {
                        assert(byte_leq()(bpre[pa], bpre[pb]));
                    }
                }
            }
            assert(bnow.to_multiset() =~= ids@.map_values(bytes_of).subrange(
                0,
                k + 1,
            ).to_multiset()) by {
                let part_a = bpre.subrange(0, pos as int);
                let part_b = bpre.subrange(pos as int, bpre.len() as int);
                assert(bpre =~= part_a + part_b);
                vstd::seq_lib::lemma_multiset_commutative(part_a, part_b);
                vstd::seq_lib::lemma_multiset_commutative(part_a.push(xb), part_b);
                assert(bnow =~= part_a.push(xb) + part_b);
                part_a.to_multiset_ensures();
                assert(part_a.push(xb).to_multiset() =~= part_a.to_multiset().insert(xb));
                assert(bnow.to_multiset() =~= bpre.to_multiset().insert(xb));
                let idsb = ids@.map_values(bytes_of);
                assert(idsb.subrange(0, k + 1) =~= idsb.subrange(0, k as int).push(
                    idsb[k as int],
                ));
                assert(idsb[k as int] == xb);
                idsb.subrange(0, k as int).to_multiset_ensures();
                assert(idsb.subrange(0, k + 1).to_multiset() =~= idsb.subrange(
                    0,
                    k as int,
                ).to_multiset().insert(xb));
            }
        }
        k = k + 1;
    }
    proof {
        assert(ids@.map_values(bytes_of).subrange(0, ids@.len() as int) =~= ids@.map_values(
            bytes_of,
        ));
    }
    out
}

/// Computes the stable identifier of a selection: the ids sorted into
/// canonical byte order, hashed, and rendered as hexadecimal.
pub fn selection_id_for(ids: &Vec<String>) -> (r: String)
    ensures
        r@ == selection_id_spec(ids@.map_values(|s: String| s@)),
{
    let sorted = sort_paths(ids);
    let ghost bytes_of = |s: String| encode_utf8(s@);
    let sep: Vec<u8> = vec![0xffu8];
    let mut hasher = DefaultHasher::new();
    let mut k: usize = 0;
    while k < sorted.len()
        invariant
            k <= sorted@.len(),
            bytes_of == (|s: String| encode_utf8(s@)),
            sep@ == seq![0xffu8],
            hasher@ == delimited_upto(sorted@.map_values(bytes_of), k as int),
        decreases sorted@.len() - k,
    {
        hasher.write(sorted[k].as_str().as_bytes());
        hasher.write(sep.as_slice());
        proof {
            assert(hasher@ =~= delimited_upto(sorted@.map_values(bytes_of), k + 1));
        }
        k = k + 1;
    }
    let v = hasher.finish();
    proof {
        lemma_byte_leq_total();
        let views = ids@.map_values(|s: String| s@);
        let idsb = ids@.map_values(bytes_of);
        assert(idsb =~= views.map_values(|v2: Seq<char>| encode_utf8(v2)));
        idsb.lemma_sort_by_ensures(byte_leq());
        let canonical = canonical_streams(views);
        assert(sorted@.map_values(bytes_of).subrange(0, sorted@.len() as int) =~= sorted@.map_values(
            bytes_of,
        ));
        lemma_sorted_unique(sorted@.map_values(bytes_of), canonical, byte_leq());
        assert(sorted@.map_values(bytes_of) == canonical);
        assert(hasher@ == delimited_upto(canonical, canonical.len() as int));
    }
    format_hex16(v)
}

} // verus!
