//! The persistence format: the whole network state as a flat stream of
//! little-endian 64-bit words, one self-describing blob. The layout is, in
//! order: the discriminators (per label: the label's UTF-8 bytes, the table
//! count, each counting table as address/count pairs, the trained-sample
//! count), the window length, the hashtable count, the feature mapping, the
//! last-assigned-rank counter, the rank table patterns in rank order, the
//! bleach threshold and the target size.

use vstd::prelude::*;
use vstd::utf8::{decode_utf8, encode_utf8, valid_utf8};

use crate::discriminator::DiscriminatorView;
use crate::network::WisardView;

verus! {

// ---------------------------------------------------------------------------
// Emitting: the state as a word sequence, and the words as bytes.
// ---------------------------------------------------------------------------
/// A length-prefixed word vector.
pub open spec fn lenvec_words(s: Seq<u64>) -> Seq<u64> {
    seq![s.len() as u64] + s
}

/// A label: the length of its UTF-8 encoding, then one word per byte.
pub open spec fn label_words(l: Seq<char>) -> Seq<u64> {
    seq![encode_utf8(l).len() as u64] + encode_utf8(l).map_values(|b: u8| b as u64)
}

/// A counting table's pairs flattened: address then count, entry by entry.
pub open spec fn flat_pairs(t: Seq<(u64, u64)>) -> Seq<u64> {
    Seq::new(
        2 * t.len(),
        |i: int| if i % 2 == 0 {
            t[i / 2].0
        } else {
            t[i / 2].1
        },
    )
}

/// A counting table: its entry count, then its flattened pairs.
pub open spec fn pairs_words(t: Seq<(u64, u64)>) -> Seq<u64> {
    seq![t.len() as u64] + flat_pairs(t)
}

/// The counting tables of one discriminator, one after the other.
pub open spec fn tables_body_words(ts: Seq<Seq<(u64, u64)>>) -> Seq<u64>
    decreases ts.len(),
{
    if ts.len() == 0 {
        Seq::empty()
    } else {
        pairs_words(ts.first()) + tables_body_words(ts.drop_first())
    }
}

/// One labelled discriminator: label, table count, tables, trained count.
pub open spec fn disc_words(d: (Seq<char>, DiscriminatorView)) -> Seq<u64> {
    label_words(d.0) + seq![d.1.number_of_hashtables as u64] + tables_body_words(d.1.tables)
        + seq![d.1.times_trained]
}

/// All discriminators, one after the other.
pub open spec fn discs_body_words(ds: Seq<(Seq<char>, DiscriminatorView)>) -> Seq<u64>
    decreases ds.len(),
{
    if ds.len() == 0 {
        Seq::empty()
    } else {
        disc_words(ds.first()) + discs_body_words(ds.drop_first())
    }
}

/// The rank table's patterns in rank order, each length-prefixed.
pub open spec fn patterns_body_words(ps: Seq<Seq<u64>>) -> Seq<u64>
    decreases ps.len(),
{
    if ps.len() == 0 {
        Seq::empty()
    } else {
        lenvec_words(ps.first()) + patterns_body_words(ps.drop_first())
    }
}

/// The whole network state as a word sequence.
pub open spec fn network_words(v: WisardView) -> Seq<u64> {
    seq![v.discs.len() as u64] + discs_body_words(v.discs) + seq![v.addr_length as u64]
        + seq![v.number_of_hashtables as u64] + lenvec_words(v.mapping)
        + seq![v.rank_table.len() as u64] + seq![v.rank_table.len() as u64]
        + patterns_body_words(v.rank_table) + seq![v.bleach as u64]
        + seq![v.target_size.0 as u64, v.target_size.1 as u64]
}

/// Byte `k` of a word's little-endian encoding.
pub open spec fn word_byte(x: u64, k: int) -> u8 {
    ((x >> (8 * k as u64)) & 0xff) as u8
}

/// A word sequence as bytes, eight little-endian bytes per word.
pub open spec fn words_bytes(ws: Seq<u64>) -> Seq<u8> {
    Seq::new(8 * ws.len(), |i: int| word_byte(ws[i / 8], i % 8))
}

/// The word starting at byte offset `p` of a little-endian byte stream.
pub open spec fn word_at(b: Seq<u8>, p: int) -> u64 {
    (b[p] as u64) | ((b[p + 1] as u64) << 8) | ((b[p + 2] as u64) << 16) | ((b[p + 3] as u64)
        << 24) | ((b[p + 4] as u64) << 32) | ((b[p + 5] as u64) << 40) | ((b[p + 6] as u64) << 48)
        | ((b[p + 7] as u64) << 56)
}

/// A byte stream as the words it encodes.
pub open spec fn bytes_words(b: Seq<u8>) -> Seq<u64> {
    Seq::new(b.len() / 8, |i: int| word_at(b, 8 * i))
}

/// Encoding words as bytes and reading them back gives the words back.
pub proof fn lemma_words_bytes_roundtrip(ws: Seq<u64>)
    ensures
        bytes_words(words_bytes(ws)) == ws,
{
    let b = words_bytes(ws);
    assert(b.len() == 8 * ws.len());
    assert forall|i: int| 0 <= i < ws.len() implies bytes_words(b)[i] == ws[i] by {
        let x = ws[i];
        assert forall|k: int| 0 <= k < 8 implies b[8 * i + k] == word_byte(x, k) by {
            assert((8 * i + k) / 8 == i && (8 * i + k) % 8 == k);
        }
        let b0 = word_byte(x, 0);
        let b1 = word_byte(x, 1);
        let b2 = word_byte(x, 2);
        let b3 = word_byte(x, 3);
        let b4 = word_byte(x, 4);
        let b5 = word_byte(x, 5);
        let b6 = word_byte(x, 6);
        let b7 = word_byte(x, 7);
        assert(((((x >> (8 * 0u64)) & 0xff) as u8) as u64) | (((((x >> (8 * 1u64)) & 0xff) as u8)
            as u64) << 8) | (((((x >> (8 * 2u64)) & 0xff) as u8) as u64) << 16) | (((((x >> (8
            * 3u64)) & 0xff) as u8) as u64) << 24) | (((((x >> (8 * 4u64)) & 0xff) as u8) as u64)
            << 32) | (((((x >> (8 * 5u64)) & 0xff) as u8) as u64) << 40) | (((((x >> (8 * 6u64))
            & 0xff) as u8) as u64) << 48) | (((((x >> (8 * 7u64)) & 0xff) as u8) as u64) << 56)
            == x) by (bit_vector);
        assert(word_at(b, 8 * i) == x);
    }
    assert(bytes_words(b) =~= ws);
}

// ---------------------------------------------------------------------------
// Parsing: a deterministic reader over the word sequence. Each parser yields
// the value and the position after it, or `None` on a malformed stream.
// ---------------------------------------------------------------------------
/// One word.
pub open spec fn p_word(ws: Seq<u64>, i: int) -> Option<(u64, int)> {
    if 0 <= i < ws.len() {
        Some((ws[i], i + 1))
    } else {
        None
    }
}

/// The next `n` words.
pub open spec fn p_take(ws: Seq<u64>, i: int, n: int) -> Option<(Seq<u64>, int)> {
    if 0 <= i && 0 <= n && i + n <= ws.len() {
        Some((ws.subrange(i, i + n), i + n))
    } else {
        None
    }
}

/// A length-prefixed word vector.
pub open spec fn p_lenvec(ws: Seq<u64>, i: int) -> Option<(Seq<u64>, int)> {
    match p_word(ws, i) {
        Some((n, j)) => p_take(ws, j, n as int),
        None => None,
    }
}

/// A label: its byte length, then its UTF-8 bytes one word each; a word that
/// is no byte, or bytes that are no UTF-8, make the stream malformed.
pub open spec fn p_label(ws: Seq<u64>, i: int) -> Option<(Seq<char>, int)> {
    match p_lenvec(ws, i) {
        Some((lw, j)) => {
            let bs = lw.map_values(|w: u64| w as u8);
            if (forall|k: int| 0 <= k < lw.len() ==> lw[k] <= 255) && valid_utf8(bs) {
                Some((decode_utf8(bs), j))
            } else {
                None
            }
        },
        None => None,
    }
}

/// Address/count pairs from their flattened words.
pub open spec fn unflatten_pairs(fw: Seq<u64>) -> Seq<(u64, u64)> {
    Seq::new(fw.len() / 2, |q: int| (fw[2 * q], fw[2 * q + 1]))
}

/// One counting table: its entry count, then its flattened pairs.
pub open spec fn p_pairs(ws: Seq<u64>, i: int) -> Option<(Seq<(u64, u64)>, int)> {
    match p_word(ws, i) {
        Some((n, j)) => match p_take(ws, j, 2 * (n as int)) {
            Some((fw, k)) => Some((unflatten_pairs(fw), k)),
            None => None,
        },
        None => None,
    }
}

/// `n` counting tables, one after the other.
pub open spec fn p_tables_n(ws: Seq<u64>, i: int, n: int) -> Option<(Seq<Seq<(u64, u64)>>, int)>
    decreases n,
{
    if n <= 0 {
        Some((Seq::<Seq<(u64, u64)>>::empty(), i))
    } else {
        match p_pairs(ws, i) {
            Some((t, j)) => match p_tables_n(ws, j, n - 1) {
                Some((rest, k)) => Some((seq![t] + rest, k)),
                None => None,
            },
            None => None,
        }
    }
}

/// One labelled discriminator; a blob describing a discriminator that is not
/// well formed is malformed.
pub open spec fn p_disc(ws: Seq<u64>, i: int) -> Option<((Seq<char>, DiscriminatorView), int)> {
    match p_label(ws, i) {
        Some((l, j1)) => match p_word(ws, j1) {
            Some((numw, j2)) => if numw <= 0xffff {
                match p_tables_n(ws, j2, numw as int) {
                    Some((ts, j3)) => match p_word(ws, j3) {
                        Some((times, j4)) => {
                            let d = DiscriminatorView {
                                number_of_hashtables: numw as u16,
                                tables: ts,
                                times_trained: times,
                            };
                            if crate::discriminator::disc_wf(d) {
                                Some(((l, d), j4))
                            } else {
                                None
                            }
                        },
                        None => None,
                    },
                    None => None,
                }
            } else {
                None
            },
            None => None,
        },
        None => None,
    }
}

/// `n` labelled discriminators, one after the other.
pub open spec fn p_discs_n(ws: Seq<u64>, i: int, n: int) -> Option<
    (Seq<(Seq<char>, DiscriminatorView)>, int),
>
    decreases n,
{
    if n <= 0 {
        Some((Seq::<(Seq<char>, DiscriminatorView)>::empty(), i))
    } else {
        match p_disc(ws, i) {
            Some((d, j)) => match p_discs_n(ws, j, n - 1) {
                Some((rest, k)) => Some((seq![d] + rest, k)),
                None => None,
            },
            None => None,
        }
    }
}

/// `n` rank-table patterns, one after the other.
pub open spec fn p_patterns_n(ws: Seq<u64>, i: int, n: int) -> Option<(Seq<Seq<u64>>, int)>
    decreases n,
{
    if n <= 0 {
        Some((Seq::<Seq<u64>>::empty(), i))
    } else {
        match p_lenvec(ws, i) {
            Some((p, j)) => match p_patterns_n(ws, j, n - 1) {
                Some((rest, k)) => Some((seq![p] + rest, k)),
                None => None,
            },
            None => None,
        }
    }
}

/// The whole network state; every word of the stream must be consumed and
/// the decoded state must be well formed.
pub open spec fn p_network(ws: Seq<u64>) -> Option<WisardView> {
    match p_word(ws, 0) {
        Some((dcount, i1)) => match p_discs_n(ws, i1, dcount as int) {
            Some((ds, i2)) => match p_word(ws, i2) {
                Some((addrw, i3)) => match p_word(ws, i3) {
                    Some((numw, i4)) => match p_lenvec(ws, i4) {
                        Some((mapping, i5)) => match p_word(ws, i5) {
                            Some((lastr, i6)) => match p_word(ws, i6) {
                                Some((pcount, i7)) => match p_patterns_n(ws, i7, pcount as int) {
                                    Some((ps, i8)) => match p_word(ws, i8) {
                                        Some((bleachw, i9)) => match p_word(ws, i9) {
                                            Some((tw, i10)) => match p_word(ws, i10) {
                                                Some((th, i11)) => if {
                                                    &&& i11 == ws.len()
                                                    &&& 1 <= addrw <= 0xffff
                                                    &&& numw <= 0xffff
                                                    &&& bleachw <= 0xffff
                                                    &&& tw <= 0xffffffff
                                                    &&& th <= 0xffffffff
                                                    &&& lastr == pcount
                                                    &&& forall|q: int|
                                                        0 <= q < ds.len() ==> (
                                                        #[trigger] ds[q]).1.number_of_hashtables
                                                            == numw as u16
                                                } {
                                                    Some(
                                                        WisardView {
                                                            discs: ds,
                                                            addr_length: addrw as u16,
                                                            number_of_hashtables: numw as u16,
                                                            mapping,
                                                            rank_table: ps,
                                                            bleach: bleachw as u16,
                                                            target_size: (tw as u32, th as u32),
                                                        },
                                                    )
                                                } else {
                                                    None
                                                },
                                                None => None,
                                            },
                                            None => None,
                                        },
                                        None => None,
                                    },
                                    None => None,
                                },
                                None => None,
                            },
                            None => None,
                        },
                        None => None,
                    },
                    None => None,
                },
                None => None,
            },
            None => None,
        },
        None => None,
    }
}

// ---------------------------------------------------------------------------
// Round trip: parsing what was emitted gives the state back.
// ---------------------------------------------------------------------------
/// A window of the stream equal to a concatenation splits into windows equal
/// to the parts.
proof fn lemma_split_at(ws: Seq<u64>, i: int, a: Seq<u64>, b: Seq<u64>)
    requires
        0 <= i,
        i + a.len() + b.len() <= ws.len(),
        ws.subrange(i, i + a.len() + b.len()) == a + b,
    ensures
        ws.subrange(i, i + a.len()) == a,
        ws.subrange(i + a.len(), i + a.len() + b.len()) == b,
{
    assert forall|k: int| 0 <= k < a.len() implies ws.subrange(i, i + a.len())[k] == a[k] by {
        assert(ws.subrange(i, i + a.len() + b.len())[k] == (a + b)[k]);
    }
    assert(ws.subrange(i, i + a.len()) =~= a);
    assert forall|k: int| 0 <= k < b.len() implies ws.subrange(
        i + a.len(),
        i + a.len() + b.len(),
    )[k] == b[k] by {
        assert(ws.subrange(i, i + a.len() + b.len())[a.len() + k] == (a + b)[a.len() + k]);
        assert((a + b)[a.len() + k] == b[k]);
        assert(ws.subrange(i, i + a.len() + b.len())[a.len() + k] == ws[i + a.len() + k]);
        assert(ws.subrange(i + a.len(), i + a.len() + b.len())[k] == ws[i + a.len() + k]);
    }
    assert(ws.subrange(i + a.len(), i + a.len() + b.len()) =~= b);
}

proof fn lemma_p_word_at(ws: Seq<u64>, i: int, x: u64)
    requires
        0 <= i,
        i + 1 <= ws.len(),
        ws.subrange(i, i + 1) == seq![x],
    ensures
        p_word(ws, i) == Some((x, i + 1)),
{
    assert(ws[i] == ws.subrange(i, i + 1)[0]);
}

proof fn lemma_p_lenvec_at(ws: Seq<u64>, i: int, v: Seq<u64>)
    requires
        0 <= i,
        v.len() <= u64::MAX,
        i + lenvec_words(v).len() <= ws.len(),
        ws.subrange(i, i + lenvec_words(v).len()) == lenvec_words(v),
    ensures
        p_lenvec(ws, i) == Some((v, i + lenvec_words(v).len())),
{
    lemma_split_at(ws, i, seq![v.len() as u64], v);
    lemma_p_word_at(ws, i, v.len() as u64);
}

proof fn lemma_p_label_at(ws: Seq<u64>, i: int, l: Seq<char>)
    requires
        0 <= i,
        encode_utf8(l).len() <= u64::MAX,
        i + label_words(l).len() <= ws.len(),
        ws.subrange(i, i + label_words(l).len()) == label_words(l),
    ensures
        p_label(ws, i) == Some((l, i + label_words(l).len())),
{
    let lw = encode_utf8(l).map_values(|b: u8| b as u64);
    assert(label_words(l) == lenvec_words(lw));
    lemma_p_lenvec_at(ws, i, lw);
    let bs = lw.map_values(|w: u64| w as u8);
    assert(bs =~= encode_utf8(l));
    vstd::utf8::encode_utf8_valid_utf8(l);
    vstd::utf8::encode_utf8_decode_utf8(l);
}

proof fn lemma_p_pairs_at(ws: Seq<u64>, i: int, t: Seq<(u64, u64)>)
    requires
        0 <= i,
        t.len() <= u64::MAX,
        i + pairs_words(t).len() <= ws.len(),
        ws.subrange(i, i + pairs_words(t).len()) == pairs_words(t),
    ensures
        p_pairs(ws, i) == Some((t, i + pairs_words(t).len())),
{
    lemma_split_at(ws, i, seq![t.len() as u64], flat_pairs(t));
    lemma_p_word_at(ws, i, t.len() as u64);
    assert(unflatten_pairs(flat_pairs(t)) =~= t) by {
        assert forall|q: int| 0 <= q < t.len() implies unflatten_pairs(flat_pairs(t))[q]
            == t[q] by {
            assert((2 * q) % 2 == 0 && (2 * q) / 2 == q);
            assert((2 * q + 1) % 2 == 1 && (2 * q + 1) / 2 == q);
        }
    }
}

proof fn lemma_p_tables_n_at(ws: Seq<u64>, i: int, ts: Seq<Seq<(u64, u64)>>)
    requires
        0 <= i,
        forall|q: int| 0 <= q < ts.len() ==> (#[trigger] ts[q]).len() <= u64::MAX,
        i + tables_body_words(ts).len() <= ws.len(),
        ws.subrange(i, i + tables_body_words(ts).len()) == tables_body_words(ts),
    ensures
        p_tables_n(ws, i, ts.len() as int) == Some((ts, i + tables_body_words(ts).len())),
    decreases ts.len(),
{
    if ts.len() > 0 {
        let a = pairs_words(ts.first());
        let b = tables_body_words(ts.drop_first());
        lemma_split_at(ws, i, a, b);
        lemma_p_pairs_at(ws, i, ts.first());
        assert(forall|q: int|
            0 <= q < ts.drop_first().len() ==> ts.drop_first()[q] == ts[q + 1]);
        lemma_p_tables_n_at(ws, i + a.len(), ts.drop_first());
        assert(seq![ts.first()] + ts.drop_first() =~= ts);
    } else {
        assert(ts =~= Seq::<Seq<(u64, u64)>>::empty());
    }
}

proof fn lemma_p_disc_at(ws: Seq<u64>, i: int, d: (Seq<char>, DiscriminatorView))
    requires
        0 <= i,
        crate::discriminator::disc_wf(d.1),
        encode_utf8(d.0).len() <= u64::MAX,
        forall|q: int| 0 <= q < d.1.tables.len() ==> (#[trigger] d.1.tables[q]).len()
            <= u64::MAX,
        i + disc_words(d).len() <= ws.len(),
        ws.subrange(i, i + disc_words(d).len()) == disc_words(d),
    ensures
        p_disc(ws, i) == Some((d, i + disc_words(d).len())),
{
    let a1 = label_words(d.0);
    let a2 = seq![d.1.number_of_hashtables as u64];
    let a3 = tables_body_words(d.1.tables);
    let a4 = seq![d.1.times_trained];
    assert(disc_words(d) == a1 + a2 + a3 + a4);
    assert(a1 + a2 + a3 + a4 =~= a1 + (a2 + (a3 + a4)));
    lemma_split_at(ws, i, a1, a2 + (a3 + a4));
    lemma_p_label_at(ws, i, d.0);
    let i2 = i + a1.len();
    lemma_split_at(ws, i2, a2, a3 + a4);
    lemma_p_word_at(ws, i2, d.1.number_of_hashtables as u64);
    let i3 = i2 + 1;
    lemma_split_at(ws, i3, a3, a4);
    assert(d.1.tables.len() == d.1.number_of_hashtables as nat);
    lemma_p_tables_n_at(ws, i3, d.1.tables);
    let i4 = i3 + a3.len();
    lemma_p_word_at(ws, i4, d.1.times_trained);
}

proof fn lemma_p_discs_n_at(ws: Seq<u64>, i: int, ds: Seq<(Seq<char>, DiscriminatorView)>)
    requires
        0 <= i,
        forall|q: int| 0 <= q < ds.len() ==> crate::discriminator::disc_wf(
            (#[trigger] ds[q]).1,
        ),
        forall|q: int| 0 <= q < ds.len() ==> #[trigger] encode_utf8(ds[q].0).len() <= u64::MAX,
        forall|q: int, t: int|
            0 <= q < ds.len() && 0 <= t < ds[q].1.tables.len() ==> (
            #[trigger] ds[q].1.tables[t]).len() <= u64::MAX,
        i + discs_body_words(ds).len() <= ws.len(),
        ws.subrange(i, i + discs_body_words(ds).len()) == discs_body_words(ds),
    ensures
        p_discs_n(ws, i, ds.len() as int) == Some((ds, i + discs_body_words(ds).len())),
    decreases ds.len(),
{
    if ds.len() > 0 {
        let a = disc_words(ds.first());
        let b = discs_body_words(ds.drop_first());
        lemma_split_at(ws, i, a, b);
        lemma_p_disc_at(ws, i, ds.first());
        assert(forall|q: int|
            0 <= q < ds.drop_first().len() ==> ds.drop_first()[q] == ds[q + 1]);
        lemma_p_discs_n_at(ws, i + a.len(), ds.drop_first());
        assert(seq![ds.first()] + ds.drop_first() =~= ds);
    } else {
        assert(ds =~= Seq::<(Seq<char>, DiscriminatorView)>::empty());
    }
}

proof fn lemma_p_patterns_n_at(ws: Seq<u64>, i: int, ps: Seq<Seq<u64>>)
    requires
        0 <= i,
        forall|q: int| 0 <= q < ps.len() ==> (#[trigger] ps[q]).len() <= u64::MAX,
        i + patterns_body_words(ps).len() <= ws.len(),
        ws.subrange(i, i + patterns_body_words(ps).len()) == patterns_body_words(ps),
    ensures
        p_patterns_n(ws, i, ps.len() as int) == Some((ps, i + patterns_body_words(ps).len())),
    decreases ps.len(),
{
    if ps.len() > 0 {
        let a = lenvec_words(ps.first());
        let b = patterns_body_words(ps.drop_first());
        lemma_split_at(ws, i, a, b);
        lemma_p_lenvec_at(ws, i, ps.first());
        assert(forall|q: int|
            0 <= q < ps.drop_first().len() ==> ps.drop_first()[q] == ps[q + 1]);
        lemma_p_patterns_n_at(ws, i + a.len(), ps.drop_first());
        assert(seq![ps.first()] + ps.drop_first() =~= ps);
    } else {
        assert(ps =~= Seq::<Seq<u64>>::empty());
    }
}

/// The machine-size side conditions the encoding needs: every count written
/// to the stream fits in one word. A state held in memory satisfies them.
pub open spec fn view_bounded(v: WisardView) -> bool {
    &&& v.discs.len() <= u64::MAX
    &&& forall|q: int|
        0 <= q < v.discs.len() ==> #[trigger] encode_utf8(v.discs[q].0).len() <= u64::MAX
    &&& forall|q: int, t: int|
        0 <= q < v.discs.len() && 0 <= t < v.discs[q].1.tables.len() ==> (
        #[trigger] v.discs[q].1.tables[t]).len() <= u64::MAX
    &&& v.mapping.len() <= u64::MAX
    &&& v.rank_table.len() <= u64::MAX
    &&& forall|q: int| 0 <= q < v.rank_table.len() ==> (#[trigger] v.rank_table[q]).len()
        <= u64::MAX
}

/// Saving a well-formed network state and loading the blob back yields
/// exactly that state: the persistence format loses nothing.
pub proof fn lemma_save_load_roundtrip(v: WisardView)
    requires
        crate::network::net_wf(v),
        view_bounded(v),
    ensures
        spec_load(spec_save(v)) == Some(v),
{
    let ws = network_words(v);
    lemma_words_bytes_roundtrip(ws);
    assert(spec_save(v).len() == 8 * ws.len());
    lemma_p_network_at(ws, v);
}

#[verifier::rlimit(100)]
proof fn lemma_p_network_at(ws: Seq<u64>, v: WisardView)
    requires
        ws == network_words(v),
        crate::network::net_wf(v),
        view_bounded(v),
    ensures
        p_network(ws) == Some(v),
{
    let a1 = seq![v.discs.len() as u64];
    let a2 = discs_body_words(v.discs);
    let a3 = seq![v.addr_length as u64];
    let a4 = seq![v.number_of_hashtables as u64];
    let a5 = lenvec_words(v.mapping);
    let a6 = seq![v.rank_table.len() as u64];
    let a7 = seq![v.rank_table.len() as u64];
    let a8 = patterns_body_words(v.rank_table);
    let a9 = seq![v.bleach as u64];
    let a10 = seq![v.target_size.0 as u64, v.target_size.1 as u64];
    let p1 = a1;
    let p2 = p1 + a2;
    let p3 = p2 + a3;
    let p4 = p3 + a4;
    let p5 = p4 + a5;
    let p6 = p5 + a6;
    let p7 = p6 + a7;
    let p8 = p7 + a8;
    let p9 = p8 + a9;
    assert(ws == p9 + a10);
    assert(ws.subrange(0, ws.len() as int) =~= ws);
    lemma_split_at(ws, 0, p9, a10);
    lemma_split_at(ws, 0, p8, a9);
    lemma_split_at(ws, 0, p7, a8);
    lemma_split_at(ws, 0, p6, a7);
    lemma_split_at(ws, 0, p5, a6);
    lemma_split_at(ws, 0, p4, a5);
    lemma_split_at(ws, 0, p3, a4);
    lemma_split_at(ws, 0, p2, a3);
    lemma_split_at(ws, 0, p1, a2);
    lemma_p_word_at(ws, 0, v.discs.len() as u64);
    let i1 = p1.len() as int;
    lemma_p_discs_n_at(ws, i1, v.discs);
    let i2 = p2.len() as int;
    lemma_p_word_at(ws, i2, v.addr_length as u64);
    let i3 = p3.len() as int;
    lemma_p_word_at(ws, i3, v.number_of_hashtables as u64);
    let i4 = p4.len() as int;
    lemma_p_lenvec_at(ws, i4, v.mapping);
    let i5 = p5.len() as int;
    lemma_p_word_at(ws, i5, v.rank_table.len() as u64);
    let i6 = p6.len() as int;
    lemma_p_word_at(ws, i6, v.rank_table.len() as u64);
    let i7 = p7.len() as int;
    lemma_p_patterns_n_at(ws, i7, v.rank_table);
    let i8 = p8.len() as int;
    lemma_p_word_at(ws, i8, v.bleach as u64);
    let i9 = p9.len() as int;
    assert(ws.subrange(i9, i9 + 2) == a10);
    assert(ws.subrange(i9, i9 + 1) =~= seq![v.target_size.0 as u64]);
    assert(ws.subrange(i9 + 1, i9 + 2) =~= seq![v.target_size.1 as u64]);
    lemma_p_word_at(ws, i9, v.target_size.0 as u64);
    lemma_p_word_at(ws, i9 + 1, v.target_size.1 as u64);
    assert(i9 + 2 == ws.len());
    match p_network(ws) {
        Some(got) => {
            assert(got == v);
        },
        None => {
            assert(false);
        },
    }
}

/// The whole network state as its persisted byte blob.
pub open spec fn spec_save(v: WisardView) -> Seq<u8> {
    words_bytes(network_words(v))
}

/// The network state a byte blob decodes to, if it decodes at all.
pub open spec fn spec_load(b: Seq<u8>) -> Option<WisardView> {
    if b.len() % 8 == 0 {
        p_network(bytes_words(b))
    } else {
        None
    }
}

/// Words to bytes, eight little-endian bytes per word.
pub fn bytes_of_words(ws: &Vec<u64>) -> (r: Vec<u8>)
    ensures
        r@ == words_bytes(ws@),
{
    let mut r: Vec<u8> = Vec::new();
    let mut i: usize = 0;
    while i < ws.len()
        invariant
            i <= ws@.len(),
            r@.len() == 8 * i,
            forall|k: int| 0 <= k < r@.len() ==> r@[k] == words_bytes(ws@)[k],
        decreases ws@.len() - i,
    {
        let x = ws[i];
        let mut k: u64 = 0;
        while k < 8
            invariant
                k <= 8,
                x == ws@[i as int],
                i < ws@.len(),
                r@.len() == 8 * i + k,
                forall|q: int| 0 <= q < r@.len() ==> r@[q] == words_bytes(ws@)[q],
            decreases 8 - k,
        {
            let b: u8 = ((x >> (8 * k)) & 0xff) as u8;
            r.push(b);
            proof {
                assert(r@[r@.len() - 1] == word_byte(ws@[i as int], k as int));
                assert((8 * i + k) / 8 == i as int && (8 * i + k) % 8 == k as int);
            }
            k += 1;
        }
        i += 1;
    }
    proof {
        assert(r@ =~= words_bytes(ws@));
    }
    r
}

/// Appending one more table extends the emitted body by that table's words.
pub proof fn lemma_tables_body_snoc(ts: Seq<Seq<(u64, u64)>>, x: Seq<(u64, u64)>)
    ensures
        tables_body_words(ts.push(x)) == tables_body_words(ts) + pairs_words(x),
    decreases ts.len(),
{
    if ts.len() == 0 {
        assert(ts.push(x).first() == x);
        assert(ts.push(x).drop_first() =~= Seq::empty());
        assert(tables_body_words(Seq::<Seq<(u64, u64)>>::empty()) == Seq::<u64>::empty());
        assert(pairs_words(x) + Seq::<u64>::empty() =~= pairs_words(x));
        assert(tables_body_words(ts.push(x)) =~= pairs_words(x));
        assert(tables_body_words(ts) + pairs_words(x) =~= pairs_words(x));
    } else {
        assert(ts.push(x).first() == ts.first());
        assert(ts.push(x).drop_first() =~= ts.drop_first().push(x));
        lemma_tables_body_snoc(ts.drop_first(), x);
        assert(pairs_words(ts.first()) + (tables_body_words(ts.drop_first()) + pairs_words(x))
            =~= (pairs_words(ts.first()) + tables_body_words(ts.drop_first())) + pairs_words(x));
    }
}

/// Appending one more discriminator extends the emitted body by its words.
pub proof fn lemma_discs_body_snoc(
    ds: Seq<(Seq<char>, DiscriminatorView)>,
    x: (Seq<char>, DiscriminatorView),
)
    ensures
        discs_body_words(ds.push(x)) == discs_body_words(ds) + disc_words(x),
    decreases ds.len(),
{
    if ds.len() == 0 {
        assert(ds.push(x).first() == x);
        assert(ds.push(x).drop_first() =~= Seq::empty());
        assert(discs_body_words(Seq::<(Seq<char>, DiscriminatorView)>::empty()) == Seq::<
            u64,
        >::empty());
        assert(disc_words(x) + Seq::<u64>::empty() =~= disc_words(x));
        assert(discs_body_words(ds.push(x)) =~= disc_words(x));
        assert(discs_body_words(ds) + disc_words(x) =~= disc_words(x));
    } else {
        assert(ds.push(x).first() == ds.first());
        assert(ds.push(x).drop_first() =~= ds.drop_first().push(x));
        lemma_discs_body_snoc(ds.drop_first(), x);
        assert(disc_words(ds.first()) + (discs_body_words(ds.drop_first()) + disc_words(x)) =~= (
        disc_words(ds.first()) + discs_body_words(ds.drop_first())) + disc_words(x));
    }
}

/// Appending one more pattern extends the emitted body by its words.
pub proof fn lemma_patterns_body_snoc(ps: Seq<Seq<u64>>, x: Seq<u64>)
    ensures
        patterns_body_words(ps.push(x)) == patterns_body_words(ps) + lenvec_words(x),
    decreases ps.len(),
{
    if ps.len() == 0 {
        assert(ps.push(x).first() == x);
        assert(ps.push(x).drop_first() =~= Seq::empty());
        assert(patterns_body_words(Seq::<Seq<u64>>::empty()) == Seq::<u64>::empty());
        assert(lenvec_words(x) + Seq::<u64>::empty() =~= lenvec_words(x));
        assert(patterns_body_words(ps.push(x)) =~= lenvec_words(x));
        assert(patterns_body_words(ps) + lenvec_words(x) =~= lenvec_words(x));
    } else {
        assert(ps.push(x).first() == ps.first());
        assert(ps.push(x).drop_first() =~= ps.drop_first().push(x));
        lemma_patterns_body_snoc(ps.drop_first(), x);
        assert(lenvec_words(ps.first()) + (patterns_body_words(ps.drop_first()) + lenvec_words(x))
            =~= (lenvec_words(ps.first()) + patterns_body_words(ps.drop_first())) + lenvec_words(
            x,
        ));
    }
}

/// Appends a length-prefixed word vector.
pub fn push_lenvec(out: &mut Vec<u64>, v: &Vec<u64>)
    ensures
        final(out)@ == old(out)@ + lenvec_words(v@),
{
    let ghost base = out@;
    out.push(v.len() as u64);
    let mut i: usize = 0;
    while i < v.len()
        invariant
            i <= v@.len(),
            out@ == base + seq![v@.len() as u64] + v@.subrange(0, i as int),
        decreases v@.len() - i,
    {
        out.push(v[i]);
        proof {
            assert(base + seq![v@.len() as u64] + v@.subrange(0, i as int) + seq![v@[i as int]]
                =~= base + seq![v@.len() as u64] + v@.subrange(0, i + 1));
        }
        i += 1;
    }
    proof {
        assert(v@.subrange(0, v@.len() as int) =~= v@);
        assert(out@ =~= base + lenvec_words(v@));
    }
}

/// Appends a label as its byte length and its UTF-8 bytes, one word each.
pub fn push_label(out: &mut Vec<u64>, s: &String)
    ensures
        final(out)@ == old(out)@ + label_words(s@),
{
    let ghost base = out@;
    let bs: &[u8] = s.as_str().as_bytes();
    let ghost ebytes = encode_utf8(s@);
    out.push(bs.len() as u64);
    let mut i: usize = 0;
    while i < bs.len()
        invariant
            i <= bs@.len(),
            bs@ == ebytes,
            out@ == base + seq![ebytes.len() as u64] + ebytes.map_values(|b: u8| b as u64)
                .subrange(0, i as int),
        decreases bs@.len() - i,
    {
        let b: u8 = bs[i];
        out.push(b as u64);
        proof {
            let mapped = ebytes.map_values(|b2: u8| b2 as u64);
            assert(mapped[i as int] == ebytes[i as int] as u64);
            assert(base + seq![ebytes.len() as u64] + mapped.subrange(0, i as int) + seq![
                mapped[i as int],
            ] =~= base + seq![ebytes.len() as u64] + mapped.subrange(0, i + 1));
        }
        i += 1;
    }
    proof {
        let mapped = ebytes.map_values(|b2: u8| b2 as u64);
        assert(mapped.subrange(0, mapped.len() as int) =~= mapped);
        assert(out@ =~= base + label_words(s@));
    }
}

/// Appends one counting table as its entry count and flattened pairs.
pub fn push_pairs(out: &mut Vec<u64>, t: &Vec<(u64, u64)>)
    ensures
        final(out)@ == old(out)@ + pairs_words(t@),
{
    let ghost base = out@;
    out.push(t.len() as u64);
    let mut i: usize = 0;
    while i < t.len()
        invariant
            i <= t@.len(),
            out@ == base + seq![t@.len() as u64] + flat_pairs(t@).subrange(0, 2 * i as int),
        decreases t@.len() - i,
    {
        let e = t[i];
        out.push(e.0);
        out.push(e.1);
        proof {
            let fp = flat_pairs(t@);
            assert((2 * (i as int)) % 2 == 0 && (2 * (i as int)) / 2 == i as int);
            assert((2 * (i as int) + 1) % 2 == 1 && (2 * (i as int) + 1) / 2 == i as int);
            assert(fp[2 * (i as int)] == t@[i as int].0);
            assert(fp[2 * (i as int) + 1] == t@[i as int].1);
            assert(base + seq![t@.len() as u64] + fp.subrange(0, 2 * (i as int)) + seq![
                t@[i as int].0,
            ] + seq![t@[i as int].1] =~= base + seq![t@.len() as u64] + fp.subrange(
                0,
                2 * (i as int) + 2,
            ));
        }
        i += 1;
    }
    proof {
        let fp = flat_pairs(t@);
        assert(fp.subrange(0, fp.len() as int) =~= fp);
        assert(out@ =~= base + pairs_words(t@));
    }
}

/// Appends one labelled discriminator.
pub fn push_disc(out: &mut Vec<u64>, label: &String, d: &crate::discriminator::Discriminator)
    ensures
        final(out)@ == old(out)@ + disc_words((label@, d@)),
{
    let ghost base = out@;
    push_label(out, label);
    out.push(d.hashtable_count() as u64);
    let ghost mid = out@;
    let n = d.table_count();
    let mut i: usize = 0;
    proof {
        assert(tables_body_words(d@.tables.subrange(0, 0)) =~= Seq::empty());
        assert(mid + Seq::<u64>::empty() =~= mid);
    }
    while i < n
        invariant
            i <= n,
            n == d@.tables.len(),
            out@ == mid + tables_body_words(d@.tables.subrange(0, i as int)),
        decreases n - i,
    {
        push_pairs(out, d.table_at(i));
        proof {
            lemma_tables_body_snoc(d@.tables.subrange(0, i as int), d@.tables[i as int]);
            assert(d@.tables.subrange(0, i as int).push(d@.tables[i as int]) =~= d@.tables
                .subrange(0, i + 1));
        }
        i += 1;
    }
    out.push(d.trained_count());
    proof {
        assert(d@.tables.subrange(0, d@.tables.len() as int) =~= d@.tables);
        assert(out@ =~= base + disc_words((label@, d@)));
    }
}

/// Relies on std's `String::from_utf8`: `Ok` exactly on valid UTF-8, and the
/// string then holds the decoding of those bytes.
#[verifier::external_body]
fn string_from_bytes(v: Vec<u8>) -> (r: Option<String>)
    ensures
        match r {
            Some(s) => valid_utf8(v@) && s@ == decode_utf8(v@),
            None => !valid_utf8(v@),
        },
{
    match String::from_utf8(v) {
        Ok(s) => Some(s),
        Err(_) => None,
    }
}

/// Reads one word and advances.
pub fn read_word(ws: &Vec<u64>, pos: &mut usize) -> (r: Option<u64>)
    requires
        *old(pos) <= ws@.len(),
    ensures
        *final(pos) <= ws@.len(),
        match r {
            Some(x) => p_word(ws@, *old(pos) as int) == Some((x, *final(pos) as int)),
            None => p_word(ws@, *old(pos) as int) is None,
        },
{
    if *pos < ws.len() {
        let x = ws[*pos];
        *pos = *pos + 1;
        Some(x)
    } else {
        None
    }
}

/// Reads a length-prefixed word vector and advances.
pub fn read_lenvec(ws: &Vec<u64>, pos: &mut usize) -> (r: Option<Vec<u64>>)
    requires
        *old(pos) <= ws@.len(),
    ensures
        *final(pos) <= ws@.len(),
        match r {
            Some(v) => p_lenvec(ws@, *old(pos) as int) == Some((v@, *final(pos) as int)),
            None => p_lenvec(ws@, *old(pos) as int) is None,
        },
{
    let n: u64 = match read_word(ws, pos) {
        Some(n) => n,
        None => {
            return None;
        },
    };
    if n > (ws.len() - *pos) as u64 {
        return None;
    }
    let n_us = n as usize;
    let ghost start = *pos as int;
    let mut v: Vec<u64> = Vec::new();
    let mut k: usize = 0;
    while k < n_us
        invariant
            k <= n_us,
            0 <= start,
            *pos == start + k,
            start + n_us <= ws@.len(),
            ws@.len() <= usize::MAX,
            v@ == ws@.subrange(start, start + k),
        decreases n_us - k,
    {
        v.push(ws[*pos]);
        *pos = *pos + 1;
        proof {
            assert(v@ =~= ws@.subrange(start, start + k + 1));
        }
        k += 1;
    }
    Some(v)
}

/// Reads a label and advances.
pub fn read_label(ws: &Vec<u64>, pos: &mut usize) -> (r: Option<String>)
    requires
        *old(pos) <= ws@.len(),
    ensures
        *final(pos) <= ws@.len(),
        match r {
            Some(s) => p_label(ws@, *old(pos) as int) == Some((s@, *final(pos) as int)),
            None => p_label(ws@, *old(pos) as int) is None,
        },
{
    let ghost p0 = *pos as int;
    let lw: Vec<u64> = match read_lenvec(ws, pos) {
        Some(v) => v,
        None => {
            return None;
        },
    };
    let mut bs: Vec<u8> = Vec::new();
    let mut k: usize = 0;
    while k < lw.len()
        invariant
            k <= lw@.len(),
            bs@.len() == k,
            *pos <= ws@.len(),
            p0 == *old(pos) as int,
            p_lenvec(ws@, p0) == Some((lw@, *pos as int)),
            forall|q: int| 0 <= q < k ==> lw@[q] <= 255,
            forall|q: int| 0 <= q < k ==> bs@[q] == lw@[q] as u8,
        decreases lw@.len() - k,
    {
        let w = lw[k];
        if w > 255 {
            proof {
                assert(!(forall|q: int| 0 <= q < lw@.len() ==> lw@[q] <= 255));
                assert(p_label(ws@, p0) is None);
            }
            return None;
        }
        bs.push(w as u8);
        k += 1;
    }
    proof {
        assert(bs@ =~= lw@.map_values(|w: u64| w as u8));
    }
    match string_from_bytes(bs) {
        Some(s) => Some(s),
        None => {
            proof {
                assert(p_label(ws@, p0) is None);
            }
            None
        },
    }
}

/// Reads one counting table and advances.
pub fn read_pairs(ws: &Vec<u64>, pos: &mut usize) -> (r: Option<Vec<(u64, u64)>>)
    requires
        *old(pos) <= ws@.len(),
    ensures
        *final(pos) <= ws@.len(),
        match r {
            Some(t) => p_pairs(ws@, *old(pos) as int) == Some((t@, *final(pos) as int)),
            None => p_pairs(ws@, *old(pos) as int) is None,
        },
{
    let n: u64 = match read_word(ws, pos) {
        Some(n) => n,
        None => {
            return None;
        },
    };
    if n > ((ws.len() - *pos) / 2) as u64 {
        proof {
            assert(2 * (n as int) > ws@.len() - *pos);
        }
        return None;
    }
    let n_us = n as usize;
    let ghost start = *pos as int;
    let mut t: Vec<(u64, u64)> = Vec::new();
    let mut k: usize = 0;
    proof {
        assert(2 * (n_us as int) <= ws@.len() - start);
    }
    while k < n_us
        invariant
            k <= n_us,
            0 <= start,
            *pos == start + 2 * k,
            start + 2 * (n_us as int) <= ws@.len(),
            ws@.len() <= usize::MAX,
            t@.len() == k,
            forall|q: int|
                0 <= q < k ==> #[trigger] t@[q] == (ws@[start + 2 * q], ws@[start + 2 * q + 1]),
        decreases n_us - k,
    {
        let a = ws[*pos];
        let b = ws[*pos + 1];
        t.push((a, b));
        *pos = *pos + 2;
        k += 1;
    }
    proof {
        let fw = ws@.subrange(start, start + 2 * (n as int));
        assert forall|q: int| 0 <= q < n as int implies t@[q] == unflatten_pairs(fw)[q] by {
            assert((2 * q) % 2 == 0 && (2 * q) / 2 == q);
            assert((2 * q + 1) % 2 == 1 && (2 * q + 1) / 2 == q);
            assert(fw[2 * q] == ws@[start + 2 * q]);
            assert(fw[2 * q + 1] == ws@[start + 2 * q + 1]);
        }
        assert(t@ =~= unflatten_pairs(fw));
    }
    Some(t)
}

/// Reads `n` counting tables and advances.
pub fn read_tables_n(ws: &Vec<u64>, pos: &mut usize, n: u64) -> (r: Option<Vec<Vec<(u64, u64)>>>)
    requires
        *old(pos) <= ws@.len(),
    ensures
        *final(pos) <= ws@.len(),
        match r {
            Some(ts) => p_tables_n(ws@, *old(pos) as int, n as int) == Some(
                (crate::discriminator::tables_view(ts@), *final(pos) as int),
            ),
            None => p_tables_n(ws@, *old(pos) as int, n as int) is None,
        },
{
    let ghost pos0 = *pos as int;
    let mut ts: Vec<Vec<(u64, u64)>> = Vec::new();
    let mut k: u64 = 0;
    proof {
        assert(crate::discriminator::tables_view(ts@) =~= Seq::<Seq<(u64, u64)>>::empty());
    }
    while k < n
        invariant
            k <= n,
            *pos <= ws@.len(),
            pos0 == *old(pos) as int,
            ({
                let tv = crate::discriminator::tables_view(ts@);
                match p_tables_n(ws@, *pos as int, (n - k) as int) {
                    Some((rest, j)) => p_tables_n(ws@, pos0, n as int) == Some((tv + rest, j)),
                    None => p_tables_n(ws@, pos0, n as int) is None,
                }
            }),
        decreases n - k,
    {
        let ghost pos_here = *pos as int;
        let ghost tv_old = crate::discriminator::tables_view(ts@);
        let t: Vec<(u64, u64)> = match read_pairs(ws, pos) {
            Some(t) => t,
            None => {
                proof {
                    assert(p_tables_n(ws@, pos_here, (n - k) as int) is None);
                }
                return None;
            },
        };
        ts.push(t);
        proof {
            assert(ts@.drop_last() =~= ts@.subrange(0, ts@.len() - 1));
            assert(crate::discriminator::tables_view(ts@) =~= tv_old + seq![t@]);
            match p_tables_n(ws@, *pos as int, (n - k - 1) as int) {
                Some((rest2, j2)) => {
                    assert(p_tables_n(ws@, pos_here, (n - k) as int) == Some((
                        seq![t@] + rest2,
                        j2,
                    )));
                    assert((tv_old + seq![t@]) + rest2 =~= tv_old + (seq![t@] + rest2));
                },
                None => {
                    assert(p_tables_n(ws@, pos_here, (n - k) as int) is None);
                },
            }
        }
        k += 1;
    }
    proof {
        let tv = crate::discriminator::tables_view(ts@);
        assert(tv + Seq::<Seq<(u64, u64)>>::empty() =~= tv);
    }
    Some(ts)
}

/// Whatever discriminators a stream parses to are well formed: the parser
/// rejects any other.
pub proof fn lemma_p_discs_n_wf(ws: Seq<u64>, i: int, n: int)
    ensures
        match p_discs_n(ws, i, n) {
            Some((ds, j)) => forall|q: int|
                0 <= q < ds.len() ==> crate::discriminator::disc_wf((#[trigger] ds[q]).1),
            None => true,
        },
    decreases n,
{
    if n > 0 {
        match p_disc(ws, i) {
            Some((d, j)) => {
                lemma_p_discs_n_wf(ws, j, n - 1);
            },
            None => {},
        }
    }
}

/// Reads one labelled discriminator and advances.
pub fn read_disc(ws: &Vec<u64>, pos: &mut usize) -> (r: Option<
    (String, crate::discriminator::Discriminator),
>)
    requires
        *old(pos) <= ws@.len(),
    ensures
        *final(pos) <= ws@.len(),
        match r {
            Some(p) => p_disc(ws@, *old(pos) as int) == Some(((p.0@, p.1@), *final(pos) as int)),
            None => p_disc(ws@, *old(pos) as int) is None,
        },
{
    let label: String = match read_label(ws, pos) {
        Some(l) => l,
        None => {
            return None;
        },
    };
    let numw: u64 = match read_word(ws, pos) {
        Some(x) => x,
        None => {
            return None;
        },
    };
    if numw > 0xffff {
        return None;
    }
    let tables: Vec<Vec<(u64, u64)>> = match read_tables_n(ws, pos, numw) {
        Some(t) => t,
        None => {
            return None;
        },
    };
    let times: u64 = match read_word(ws, pos) {
        Some(x) => x,
        None => {
            return None;
        },
    };
    match crate::discriminator::Discriminator::from_parts(numw as u16, tables, times) {
        Some(d) => Some((label, d)),
        None => None,
    }
}

/// Reads `n` labelled discriminators and advances.
pub fn read_discs_n(ws: &Vec<u64>, pos: &mut usize, n: u64) -> (r: Option<
    Vec<(String, crate::discriminator::Discriminator)>,
>)
    requires
        *old(pos) <= ws@.len(),
    ensures
        *final(pos) <= ws@.len(),
        match r {
            Some(ds) => p_discs_n(ws@, *old(pos) as int, n as int) == Some(
                (crate::network::discs_view(ds@), *final(pos) as int),
            ),
            None => p_discs_n(ws@, *old(pos) as int, n as int) is None,
        },
{
    let ghost pos0 = *pos as int;
    let mut ds: Vec<(String, crate::discriminator::Discriminator)> = Vec::new();
    let mut k: u64 = 0;
    proof {
        assert(crate::network::discs_view(ds@) =~= Seq::<
            (Seq<char>, DiscriminatorView),
        >::empty());
    }
    while k < n
        invariant
            k <= n,
            *pos <= ws@.len(),
            pos0 == *old(pos) as int,
            ({
                let dv = crate::network::discs_view(ds@);
                match p_discs_n(ws@, *pos as int, (n - k) as int) {
                    Some((rest, j)) => p_discs_n(ws@, pos0, n as int) == Some((dv + rest, j)),
                    None => p_discs_n(ws@, pos0, n as int) is None,
                }
            }),
        decreases n - k,
    {
        let ghost pos_here = *pos as int;
        let ghost dv_old = crate::network::discs_view(ds@);
        let p: (String, crate::discriminator::Discriminator) = match read_disc(ws, pos) {
            Some(p) => p,
            None => {
                proof {
                    assert(p_discs_n(ws@, pos_here, (n - k) as int) is None);
                }
                return None;
            },
        };
        let ghost pv = (p.0@, p.1@);
        ds.push(p);
        proof {
            assert(ds@.drop_last() =~= ds@.subrange(0, ds@.len() - 1));
            assert(crate::network::discs_view(ds@) =~= dv_old + seq![pv]);
            match p_discs_n(ws@, *pos as int, (n - k - 1) as int) {
                Some((rest2, j2)) => {
                    assert(p_discs_n(ws@, pos_here, (n - k) as int) == Some((
                        seq![pv] + rest2,
                        j2,
                    )));
                    assert((dv_old + seq![pv]) + rest2 =~= dv_old + (seq![pv] + rest2));
                },
                None => {
                    assert(p_discs_n(ws@, pos_here, (n - k) as int) is None);
                },
            }
        }
        k += 1;
    }
    proof {
        let dv = crate::network::discs_view(ds@);
        assert(dv + Seq::<(Seq<char>, DiscriminatorView)>::empty() =~= dv);
    }
    Some(ds)
}

/// Reads `n` rank-table patterns and advances.
pub fn read_patterns_n(ws: &Vec<u64>, pos: &mut usize, n: u64) -> (r: Option<Vec<Vec<u64>>>)
    requires
        *old(pos) <= ws@.len(),
    ensures
        *final(pos) <= ws@.len(),
        match r {
            Some(ps) => p_patterns_n(ws@, *old(pos) as int, n as int) == Some(
                (crate::rank::table_view(ps@), *final(pos) as int),
            ),
            None => p_patterns_n(ws@, *old(pos) as int, n as int) is None,
        },
{
    let ghost pos0 = *pos as int;
    let mut ps: Vec<Vec<u64>> = Vec::new();
    let mut k: u64 = 0;
    proof {
        assert(crate::rank::table_view(ps@) =~= Seq::<Seq<u64>>::empty());
    }
    while k < n
        invariant
            k <= n,
            *pos <= ws@.len(),
            pos0 == *old(pos) as int,
            ({
                let pv = crate::rank::table_view(ps@);
                match p_patterns_n(ws@, *pos as int, (n - k) as int) {
                    Some((rest, j)) => p_patterns_n(ws@, pos0, n as int) == Some((pv + rest, j)),
                    None => p_patterns_n(ws@, pos0, n as int) is None,
                }
            }),
        decreases n - k,
    {
        let ghost pos_here = *pos as int;
        let ghost pv_old = crate::rank::table_view(ps@);
        let p: Vec<u64> = match read_lenvec(ws, pos) {
            Some(p) => p,
            None => {
                proof {
                    assert(p_patterns_n(ws@, pos_here, (n - k) as int) is None);
                }
                return None;
            },
        };
        ps.push(p);
        proof {
            let pat = ps@.last()@;
            assert(ps@.drop_last() =~= ps@.subrange(0, ps@.len() - 1));
            assert(crate::rank::table_view(ps@) =~= pv_old + seq![pat]);
            match p_patterns_n(ws@, *pos as int, (n - k - 1) as int) {
                Some((rest2, j2)) => {
                    assert(p_patterns_n(ws@, pos_here, (n - k) as int) == Some((
                        seq![pat] + rest2,
                        j2,
                    )));
                    assert((pv_old + seq![pat]) + rest2 =~= pv_old + (seq![pat] + rest2));
                },
                None => {
                    assert(p_patterns_n(ws@, pos_here, (n - k) as int) is None);
                },
            }
        }
        k += 1;
    }
    proof {
        let pv = crate::rank::table_view(ps@);
        assert(pv + Seq::<Seq<u64>>::empty() =~= pv);
    }
    Some(ps)
}

/// Bytes to words; a stream that is not a whole number of words is refused.
pub fn words_of_bytes(b: &[u8]) -> (r: Option<Vec<u64>>)
    ensures
        b@.len() % 8 == 0 ==> (r matches Some(ws) && ws@ == bytes_words(b@)),
        b@.len() % 8 != 0 ==> r is None,
{
    if b.len() % 8 != 0 {
        return None;
    }
    let n = b.len() / 8;
    let mut ws: Vec<u64> = Vec::new();
    let mut i: usize = 0;
    while i < n
        invariant
            i <= n,
            n == b@.len() / 8,
            b@.len() % 8 == 0,
            b@.len() <= usize::MAX,
            ws@.len() == i,
            forall|q: int| 0 <= q < i ==> ws@[q] == bytes_words(b@)[q],
        decreases n - i,
    {
        proof {
            assert(b@.len() == 8 * (b@.len() / 8) + b@.len() % 8);
            assert(8 * (i as int) + 8 <= b@.len());
        }
        let p = 8 * i;
        let w: u64 = (b[p] as u64) | ((b[p + 1] as u64) << 8) | ((b[p + 2] as u64) << 16) | ((b[p
            + 3] as u64) << 24) | ((b[p + 4] as u64) << 32) | ((b[p + 5] as u64) << 40) | ((b[p
            + 6] as u64) << 48) | ((b[p + 7] as u64) << 56);
        ws.push(w);
        proof {
            assert(w == word_at(b@, 8 * i));
        }
        i += 1;
    }
    proof {
        assert(ws@ =~= bytes_words(b@));
    }
    Some(ws)
}

} // verus!
