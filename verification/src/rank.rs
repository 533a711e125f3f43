//! Rank encoding: a window of sample values is represented by the order of
//! its values (its "address pattern"), and each distinct pattern is assigned
//! a dense rank in first-seen order by a shared rank table.

use vstd::multiset::Multiset;
use vstd::prelude::*;
use vstd::relations::{sorted_by, total_ordering};
use vstd::seq_lib::{lemma_multiset_commutative, lemma_sorted_unique};

verus! {

/// The positions `0, 1, ..., n-1` of a window, in order.
pub open spec fn positions_upto(n: nat) -> Seq<u64> {
    Seq::new(n, |i: int| i as u64)
}

/// The order the encoder sorts window positions by: the value at the position
/// first, and the position itself as the tie-break, so that equal values keep
/// their original order.
pub open spec fn window_leq(w: Seq<u64>) -> spec_fn(u64, u64) -> bool {
    |a: u64, b: u64| w[a as int] < w[b as int] || (w[a as int] == w[b as int] && a <= b)
}

pub proof fn lemma_window_leq_total(w: Seq<u64>)
    ensures
        total_ordering(window_leq(w)),
{
    let leq = window_leq(w);
    assert forall|a: u64, b: u64| #[trigger] leq(a, b) && #[trigger] leq(b, a) implies a == b by {}
    assert forall|a: u64, b: u64, c: u64| #[trigger] leq(a, b) && #[trigger] leq(b, c) implies leq(
        a,
        c,
    ) by {}
    assert forall|a: u64, b: u64| true implies #[trigger] leq(a, b) || #[trigger] leq(b, a) by {}
}

/// The address pattern of one window: its positions, ordered by value with
/// equal values keeping position order.
pub open spec fn pattern_of(w: Seq<u64>) -> Seq<u64> {
    positions_upto(w.len()).sort_by(window_leq(w))
}

/// Compares two window positions as `window_leq` does.
fn pos_leq(w: &Vec<u64>, a: u64, b: u64) -> (r: bool)
    requires
        a < w@.len(),
        b < w@.len(),
    ensures
        r == window_leq(w@)(a, b),
{
    let _n = w.len();
    proof {
        assert(w@.len() <= usize::MAX);
    }
    let va = w[a as usize];
    let vb = w[b as usize];
    va < vb || (va == vb && a <= b)
}

/// Sorts the positions of a window by value (ties by position): the window's
/// address pattern.
pub fn window_pattern(w: &Vec<u64>) -> (p: Vec<u64>)
    ensures
        p@ == pattern_of(w@),
{
    let mut p: Vec<u64> = Vec::new();
    let mut i: usize = 0;
    proof {
        assert(positions_upto(0) =~= Seq::<u64>::empty());
    }
    while i < w.len()
        invariant
            i <= w@.len(),
            sorted_by(p@, window_leq(w@)),
            p@.to_multiset() == positions_upto(i as nat).to_multiset(),
            forall|k: int| 0 <= k < p@.len() ==> p@[k] < w@.len(),
        decreases w@.len() - i,
    {
        let x: u64 = i as u64;
        let mut j: usize = 0;
        while j < p.len() && pos_leq(w, p[j], x)
            invariant
                j <= p@.len(),
                i < w@.len(),
                x == i as u64,
                forall|k: int| 0 <= k < p@.len() ==> p@[k] < w@.len(),
                forall|k: int| 0 <= k < j ==> #[trigger] window_leq(w@)(p@[k], x),
            decreases p@.len() - j,
        {
            j += 1;
        }
        proof {
            lemma_window_leq_total(w@);
            let leq = window_leq(w@);
            let q = p@.insert(j as int, x);
            let t = p@.take(j as int);
            let s = p@.skip(j as int);
            assert(q =~= t + seq![x] + s);
            assert(p@ =~= t + s);
            lemma_multiset_commutative(t + seq![x], s);
            lemma_multiset_commutative(t, seq![x]);
            lemma_multiset_commutative(t, s);
            assert(seq![x].to_multiset() =~= Multiset::empty().insert(x)) by {
                assert(seq![x] =~= Seq::empty().push(x));
                Seq::<u64>::empty().to_multiset_ensures();
            }
            assert(q.to_multiset() =~= p@.to_multiset().insert(x));
            // the new element sorts after everything before j and before
            // everything from j on
            if j < p@.len() {
                assert(!leq(p@[j as int], x));
                assert(leq(x, p@[j as int]));
            }
            assert forall|k: int, l: int| 0 <= k < l < q.len() implies #[trigger] leq(
                q[k],
                q[l],
            ) by {
                if l == j {
                    assert(leq(p@[k], x));
                } else if k == j && l > j {
                    assert(leq(x, p@[j as int]));
                    if l > j + 1 {
                        assert(leq(p@[j as int], p@[l - 1]));
                    }
                }
            }
            assert(positions_upto((i + 1) as nat) =~= positions_upto(i as nat).push(x));
            positions_upto(i as nat).to_multiset_ensures();
        }
        p.insert(j, x);
        i += 1;
    }
    proof {
        lemma_window_leq_total(w@);
        positions_upto(w@.len()).lemma_sort_by_ensures(window_leq(w@));
        lemma_sorted_unique(p@, pattern_of(w@), window_leq(w@));
        assert(p@ =~= pattern_of(w@));
    }
    p
}

/// The consecutive windows of length `al` that a mapped sample splits into;
/// the final window may be shorter, and is still a window.
pub open spec fn chunks_of(s: Seq<u64>, al: nat) -> Seq<Seq<u64>>
    decreases s.len(),
    when al >= 1
{
    if s.len() == 0 {
        Seq::empty()
    } else if s.len() <= al {
        seq![s]
    } else {
        seq![s.take(al as int)] + chunks_of(s.skip(al as int), al)
    }
}

/// The rank the table assigns to a pattern: the index of its first
/// occurrence, or `None` if the pattern has not been seen.
pub open spec fn pattern_rank(t: Seq<Seq<u64>>, pat: Seq<u64>) -> Option<int>
    decreases t.len(),
{
    if t.len() == 0 {
        None
    } else if t.first() == pat {
        Some(0int)
    } else {
        match pattern_rank(t.drop_first(), pat) {
            Some(i) => Some(i + 1),
            None => None,
        }
    }
}

/// What `pattern_rank` returns: the first index holding the pattern, or
/// `None` when no index holds it.
pub proof fn lemma_pattern_rank(t: Seq<Seq<u64>>, pat: Seq<u64>)
    ensures
        match pattern_rank(t, pat) {
            Some(i) => 0 <= i < t.len() && t[i] == pat && (forall|j: int|
                0 <= j < i ==> t[j] != pat),
            None => forall|j: int| 0 <= j < t.len() ==> t[j] != pat,
        },
    decreases t.len(),
{
    if t.len() > 0 && t.first() != pat {
        lemma_pattern_rank(t.drop_first(), pat);
        assert(forall|j: int| 0 < j < t.len() ==> t[j] == t.drop_first()[j - 1]);
    }
}

/// Appending new patterns to the table does not move the rank of a pattern
/// already in it.
pub proof fn lemma_pattern_rank_push(t: Seq<Seq<u64>>, pat: Seq<u64>, q: Seq<u64>)
    ensures
        pattern_rank(t, pat) is Some ==> pattern_rank(t.push(q), pat) == pattern_rank(t, pat),
        pattern_rank(t, pat) is None && q == pat ==> pattern_rank(t.push(q), pat) == Some(
            t.len() as int,
        ),
        pattern_rank(t, pat) is None && q != pat ==> pattern_rank(t.push(q), pat) is None,
    decreases t.len(),
{
    if t.len() == 0 {
        assert(t.push(q).drop_first() =~= Seq::empty());
    } else {
        assert(t.push(q).first() == t.first());
        assert(t.push(q).drop_first() =~= t.drop_first().push(q));
        lemma_pattern_rank_push(t.drop_first(), pat, q);
    }
}

/// One encoding step at training time: an unseen pattern is appended and gets
/// the next rank, a seen pattern keeps its rank.
pub open spec fn encode_step(t: Seq<Seq<u64>>, w: Seq<u64>) -> (Seq<Seq<u64>>, u64) {
    match pattern_rank(t, pattern_of(w)) {
        Some(i) => (t, i as u64),
        None => (t.push(pattern_of(w)), t.len() as u64),
    }
}

/// Training-time encoding of a whole sequence of windows: the table after all
/// assignments, and the rank of each window in order.
pub open spec fn encode_all(t: Seq<Seq<u64>>, ws: Seq<Seq<u64>>) -> (Seq<Seq<u64>>, Seq<u64>)
    decreases ws.len(),
{
    if ws.len() == 0 {
        (t, Seq::<u64>::empty())
    } else {
        let st = encode_step(t, ws.first());
        let rest = encode_all(st.0, ws.drop_first());
        (rest.0, seq![st.1] + rest.1)
    }
}

/// Classification-time encoding: the table is read, never grown; an unseen
/// pattern maps to the sentinel rank one past the highest assigned rank.
pub open spec fn encode_frozen(t: Seq<Seq<u64>>, ws: Seq<Seq<u64>>) -> Seq<u64>
    decreases ws.len(),
{
    if ws.len() == 0 {
        Seq::<u64>::empty()
    } else {
        let r = match pattern_rank(t, pattern_of(ws.first())) {
            Some(i) => i as u64,
            None => t.len() as u64,
        };
        seq![r] + encode_frozen(t, ws.drop_first())
    }
}

/// The mathematical contents of an executable rank table.
pub open spec fn table_view(t: Seq<Vec<u64>>) -> Seq<Seq<u64>> {
    t.map_values(|v: Vec<u64>| v@)
}

/// Element-wise equality of two address patterns.
fn vec_u64_eq(a: &Vec<u64>, b: &Vec<u64>) -> (r: bool)
    ensures
        r == (a@ == b@),
{
    if a.len() != b.len() {
        return false;
    }
    let mut i: usize = 0;
    while i < a.len()
        invariant
            i <= a@.len(),
            a@.len() == b@.len(),
            forall|j: int| 0 <= j < i ==> a@[j] == b@[j],
        decreases a@.len() - i,
    {
        if a[i] != b[i] {
            return false;
        }
        i += 1;
    }
    proof {
        assert(a@ =~= b@);
    }
    true
}

/// Finds the rank of a pattern in the table: the index of its first
/// occurrence.
fn table_find(t: &Vec<Vec<u64>>, pat: &Vec<u64>) -> (r: Option<usize>)
    ensures
        match r {
            Some(i) => pattern_rank(table_view(t@), pat@) == Some(i as int),
            None => pattern_rank(table_view(t@), pat@) is None,
        },
{
    let mut i: usize = 0;
    while i < t.len()
        invariant
            i <= t@.len(),
            forall|j: int| 0 <= j < i ==> table_view(t@)[j] != pat@,
        decreases t@.len() - i,
    {
        let hit = vec_u64_eq(&t[i], pat);
        proof {
            assert(table_view(t@)[i as int] == t@[i as int]@);
        }
        if hit {
            proof {
                lemma_pattern_rank(table_view(t@), pat@);
            }
            return Some(i);
        }
        i += 1;
    }
    proof {
        lemma_pattern_rank(table_view(t@), pat@);
    }
    None
}

/// Training-time rank encoding of a mapped sample: each window's pattern is
/// ranked, unseen patterns are assigned the next fresh rank, and the rank
/// table grows accordingly.
pub fn encode_train(table: &mut Vec<Vec<u64>>, samples: &Vec<u64>, al: u16) -> (r: Vec<u64>)
    requires
        al >= 1,
    ensures
        ({
            let e = encode_all(table_view(old(table)@), chunks_of(samples@, al as nat));
            &&& table_view(final(table)@) == e.0
            &&& r@ == e.1
        }),
{
    let ghost t0 = table_view(table@);
    let al_us = al as usize;
    let mut r: Vec<u64> = Vec::new();
    let mut i: usize = 0;
    proof {
        assert(r@ + encode_all(t0, chunks_of(samples@.skip(0), al as nat)).1 =~= encode_all(
            t0,
            chunks_of(samples@.skip(0), al as nat),
        ).1);
        assert(samples@.skip(0) =~= samples@);
    }
    while i < samples.len()
        invariant
            al >= 1,
            al_us == al as usize,
            i <= samples@.len(),
            encode_all(t0, chunks_of(samples@, al as nat)).0 == encode_all(
                table_view(table@),
                chunks_of(samples@.skip(i as int), al as nat),
            ).0,
            encode_all(t0, chunks_of(samples@, al as nat)).1 == r@ + encode_all(
                table_view(table@),
                chunks_of(samples@.skip(i as int), al as nat),
            ).1,
        decreases samples@.len() - i,
    {
        let rem = samples.len() - i;
        let step = if rem < al_us {
            rem
        } else {
            al_us
        };
        let end = i + step;
        let mut wv: Vec<u64> = Vec::new();
        let mut j: usize = i;
        while j < end
            invariant
                i <= j <= end,
                end <= samples@.len(),
                wv@ == samples@.subrange(i as int, j as int),
            decreases end - j,
        {
            wv.push(samples[j]);
            proof {
                assert(wv@ =~= samples@.subrange(i as int, j + 1));
            }
            j += 1;
        }
        let pat = window_pattern(&wv);
        let ghost cur = table_view(table@);
        let ghost suffix = samples@.skip(i as int);
        let ghost w0 = suffix.take(step as int);
        proof {
            assert(w0 =~= wv@);
            if rem <= al_us {
                assert(chunks_of(suffix, al as nat) == seq![suffix]);
                assert(suffix =~= wv@);
                assert(samples@.skip(end as int) =~= Seq::<u64>::empty());
                assert(chunks_of(suffix, al as nat) =~= seq![wv@] + chunks_of(
                    samples@.skip(end as int),
                    al as nat,
                ));
            } else {
                assert(chunks_of(suffix, al as nat) == seq![suffix.take(al as int)] + chunks_of(
                    suffix.skip(al as int),
                    al as nat,
                ));
                assert(suffix.skip(al as int) =~= samples@.skip(end as int));
            }
            assert(chunks_of(suffix, al as nat) == seq![wv@] + chunks_of(
                samples@.skip(end as int),
                al as nat,
            ));
        }
        let ghost rest_chunks = chunks_of(samples@.skip(end as int), al as nat);
        proof {
            let ws = chunks_of(suffix, al as nat);
            assert(ws.first() == wv@);
            assert(ws.drop_first() =~= rest_chunks);
        }
        match table_find(table, &pat) {
            Some(k) => {
                r.push(k as u64);
                proof {
                    assert(encode_step(cur, wv@) == (cur, k as u64));
                }
            },
            None => {
                let rk = table.len() as u64;
                table.push(pat);
                r.push(rk);
                proof {
                    assert(table_view(table@) =~= cur.push(pattern_of(wv@)));
                    assert(encode_step(cur, wv@) == (cur.push(pattern_of(wv@)), rk));
                }
            },
        }
        proof {
            let st = encode_step(cur, wv@);
            let e_suf = encode_all(cur, chunks_of(suffix, al as nat));
            assert(e_suf.0 == encode_all(st.0, rest_chunks).0);
            assert(e_suf.1 == seq![st.1] + encode_all(st.0, rest_chunks).1);
            assert(st.0 == table_view(table@));
            assert(r@ == r@.subrange(0, r@.len() - 1) + seq![st.1]);
            assert(r@ + encode_all(st.0, rest_chunks).1 =~= r@.subrange(0, r@.len() - 1) + (
            seq![st.1] + encode_all(st.0, rest_chunks).1));
        }
        i = end;
    }
    proof {
        assert(samples@.skip(i as int) =~= Seq::<u64>::empty());
        assert(encode_all(table_view(table@), chunks_of(samples@.skip(i as int), al as nat)).1
            =~= Seq::<u64>::empty());
        assert(r@ + Seq::<u64>::empty() =~= r@);
    }
    r
}

/// Classification-time rank encoding of a mapped sample: the table is only
/// read; a window whose pattern is not ranked yields the sentinel rank one
/// past the highest assigned rank.
pub fn encode_read(table: &Vec<Vec<u64>>, samples: &Vec<u64>, al: u16) -> (r: Vec<u64>)
    requires
        al >= 1,
    ensures
        r@ == encode_frozen(table_view(table@), chunks_of(samples@, al as nat)),
{
    let ghost t0 = table_view(table@);
    let al_us = al as usize;
    let mut r: Vec<u64> = Vec::new();
    let mut i: usize = 0;
    proof {
        assert(r@ + encode_frozen(t0, chunks_of(samples@.skip(0), al as nat)) =~= encode_frozen(
            t0,
            chunks_of(samples@.skip(0), al as nat),
        ));
        assert(samples@.skip(0) =~= samples@);
    }
    while i < samples.len()
        invariant
            al >= 1,
            al_us == al as usize,
            i <= samples@.len(),
            t0 == table_view(table@),
            encode_frozen(t0, chunks_of(samples@, al as nat)) == r@ + encode_frozen(
                t0,
                chunks_of(samples@.skip(i as int), al as nat),
            ),
        decreases samples@.len() - i,
    {
        let rem = samples.len() - i;
        let step = if rem < al_us {
            rem
        } else {
            al_us
        };
        let end = i + step;
        let mut wv: Vec<u64> = Vec::new();
        let mut j: usize = i;
        while j < end
            invariant
                i <= j <= end,
                end <= samples@.len(),
                wv@ == samples@.subrange(i as int, j as int),
            decreases end - j,
        {
            wv.push(samples[j]);
            proof {
                assert(wv@ =~= samples@.subrange(i as int, j + 1));
            }
            j += 1;
        }
        let pat = window_pattern(&wv);
        let ghost suffix = samples@.skip(i as int);
        proof {
            assert(suffix.take(step as int) =~= wv@);
            if rem <= al_us {
                assert(chunks_of(suffix, al as nat) == seq![suffix]);
                assert(suffix =~= wv@);
                assert(samples@.skip(end as int) =~= Seq::<u64>::empty());
                assert(chunks_of(suffix, al as nat) =~= seq![wv@] + chunks_of(
                    samples@.skip(end as int),
                    al as nat,
                ));
            } else {
                assert(chunks_of(suffix, al as nat) == seq![suffix.take(al as int)] + chunks_of(
                    suffix.skip(al as int),
                    al as nat,
                ));
                assert(suffix.skip(al as int) =~= samples@.skip(end as int));
            }
            assert(chunks_of(suffix, al as nat) == seq![wv@] + chunks_of(
                samples@.skip(end as int),
                al as nat,
            ));
        }
        let ghost rest_chunks = chunks_of(samples@.skip(end as int), al as nat);
        proof {
            let ws = chunks_of(suffix, al as nat);
            assert(ws.first() == wv@);
            assert(ws.drop_first() =~= rest_chunks);
        }
        let rk: u64 = match table_find(table, &pat) {
            Some(k) => k as u64,
            None => table.len() as u64,
        };
        r.push(rk);
        proof {
            assert(encode_frozen(t0, chunks_of(suffix, al as nat)) == seq![rk] + encode_frozen(
                t0,
                rest_chunks,
            ));
            assert(r@ == r@.subrange(0, r@.len() - 1) + seq![rk]);
            assert(r@ + encode_frozen(t0, rest_chunks) =~= r@.subrange(0, r@.len() - 1) + (
            seq![rk] + encode_frozen(t0, rest_chunks)));
        }
        i = end;
    }
    proof {
        assert(samples@.skip(i as int) =~= Seq::<u64>::empty());
        assert(encode_frozen(t0, chunks_of(samples@.skip(i as int), al as nat)) =~= Seq::<
            u64,
        >::empty());
        assert(r@ + Seq::<u64>::empty() =~= r@);
    }
    r
}

/// Training-time encoding only ever appends to the rank table.
pub proof fn lemma_encode_all_extends(t: Seq<Seq<u64>>, ws: Seq<Seq<u64>>)
    ensures
        t.is_prefix_of(encode_all(t, ws).0),
        t.len() <= encode_all(t, ws).0.len(),
    decreases ws.len(),
{
    if ws.len() > 0 {
        let st = encode_step(t, ws.first());
        lemma_encode_all_extends(st.0, ws.drop_first());
        assert(t.is_prefix_of(st.0));
        let t2 = encode_all(t, ws).0;
        assert(st.0 =~= t2.take(st.0.len() as int));
        assert(t =~= st.0.take(t.len() as int));
        assert(t =~= t2.take(t.len() as int));
    }
}

/// A pattern found in a table keeps its rank in any extension of that table.
pub proof fn lemma_pattern_rank_prefix(t1: Seq<Seq<u64>>, t2: Seq<Seq<u64>>, pat: Seq<u64>)
    requires
        t1.is_prefix_of(t2),
        pattern_rank(t1, pat) is Some,
    ensures
        pattern_rank(t2, pat) == pattern_rank(t1, pat),
    decreases t2.len() - t1.len(),
{
    if t1.len() < t2.len() {
        let mid = t1.push(t2[t1.len() as int]);
        lemma_pattern_rank_push(t1, pat, t2[t1.len() as int]);
        assert(mid.is_prefix_of(t2));
        lemma_pattern_rank_prefix(mid, t2, pat);
    } else {
        assert(t1 =~= t2);
    }
}

/// How long what training-time encoding returns is: one rank per window, and
/// at most one new table entry per window.
pub proof fn lemma_encode_all_len(t: Seq<Seq<u64>>, ws: Seq<Seq<u64>>)
    ensures
        encode_all(t, ws).1.len() == ws.len(),
        encode_all(t, ws).0.len() <= t.len() + ws.len(),
    decreases ws.len(),
{
    if ws.len() > 0 {
        let st = encode_step(t, ws.first());
        lemma_encode_all_len(st.0, ws.drop_first());
    }
}

/// Each window's pattern is in the table training-time encoding produces,
/// under exactly the rank that was emitted for it.
pub proof fn lemma_encode_all_found(t: Seq<Seq<u64>>, ws: Seq<Seq<u64>>)
    requires
        t.len() + ws.len() <= u64::MAX,
    ensures
        encode_all(t, ws).1.len() == ws.len(),
        forall|i: int|
            0 <= i < ws.len() ==> pattern_rank(encode_all(t, ws).0, pattern_of(ws[i])) == Some(
                #[trigger] encode_all(t, ws).1[i] as int,
            ),
        encode_all(t, ws).0.len() <= t.len() + ws.len(),
    decreases ws.len(),
{
    if ws.len() > 0 {
        let st = encode_step(t, ws.first());
        let p0 = pattern_of(ws.first());
        lemma_pattern_rank(t, p0);
        lemma_pattern_rank_push(t, p0, p0);
        assert(pattern_rank(st.0, p0) == Some(st.1 as int));
        lemma_encode_all_len(st.0, ws.drop_first());
        lemma_encode_all_found(st.0, ws.drop_first());
        let t2 = encode_all(t, ws).0;
        lemma_encode_all_extends(st.0, ws.drop_first());
        lemma_pattern_rank_prefix(st.0, t2, p0);
        assert forall|i: int| 0 <= i < ws.len() implies pattern_rank(
            t2,
            pattern_of(ws[i]),
        ) == Some(#[trigger] encode_all(t, ws).1[i] as int) by {
            if i > 0 {
                assert(ws[i] == ws.drop_first()[i - 1]);
                assert(encode_all(t, ws).1[i] == encode_all(st.0, ws.drop_first()).1[i - 1]);
            }
        }
    }
}

/// Encoding the same windows twice changes nothing the second time: the table
/// stays as it is and the same ranks come out again.
pub proof fn lemma_encode_stable(t: Seq<Seq<u64>>, ws: Seq<Seq<u64>>)
    requires
        t.len() + ws.len() <= u64::MAX,
    ensures
        ({
            let once = encode_all(t, ws);
            encode_all(once.0, ws) == once
        }),
{
    let once = encode_all(t, ws);
    lemma_encode_all_found(t, ws);
    lemma_encode_again(once.0, ws, once.1);
}

/// A sequence of windows whose patterns are all already ranked encodes to
/// those ranks without touching the table, at training and at classification
/// time alike.
pub proof fn lemma_encode_again(t: Seq<Seq<u64>>, ws: Seq<Seq<u64>>, rs: Seq<u64>)
    requires
        rs.len() == ws.len(),
        forall|i: int|
            0 <= i < ws.len() ==> pattern_rank(t, pattern_of(ws[i])) == Some(
                #[trigger] rs[i] as int,
            ),
    ensures
        encode_all(t, ws) == (t, rs),
        encode_frozen(t, ws) == rs,
    decreases ws.len(),
{
    if ws.len() == 0 {
        assert(rs =~= Seq::<u64>::empty());
    } else {
        assert(pattern_rank(t, pattern_of(ws[0])) == Some(rs[0] as int));
        lemma_pattern_rank(t, pattern_of(ws[0]));
        assert(encode_step(t, ws.first()) == (t, rs[0]));
        assert forall|i: int| 0 <= i < ws.drop_first().len() implies pattern_rank(
            t,
            pattern_of(ws.drop_first()[i]),
        ) == Some(#[trigger] rs.drop_first()[i] as int) by {
            assert(ws.drop_first()[i] == ws[i + 1]);
            assert(rs.drop_first()[i] == rs[i + 1]);
        }
        lemma_encode_again(t, ws.drop_first(), rs.drop_first());
        assert(seq![rs[0]] + rs.drop_first() =~= rs);
    }
}

/// From an empty rank table the first window always takes rank zero: erasing
/// the table resets rank assignment to the beginning.
pub proof fn lemma_empty_table_first_rank(ws: Seq<Seq<u64>>)
    requires
        ws.len() > 0,
    ensures
        encode_all(Seq::<Seq<u64>>::empty(), ws).1[0] == 0,
{
    let st = encode_step(Seq::<Seq<u64>>::empty(), ws.first());
    assert(st.1 == 0);
}

/// Windows with entirely distinct, entirely unseen patterns grow the table by
/// exactly one entry each, and receive the successive fresh ranks.
pub proof fn lemma_encode_growth(t: Seq<Seq<u64>>, ws: Seq<Seq<u64>>)
    requires
        t.len() + ws.len() <= u64::MAX,
        forall|i: int| 0 <= i < ws.len() ==> pattern_rank(t, #[trigger] pattern_of(ws[i])) is None,
        forall|i: int, j: int|
            0 <= i < j < ws.len() ==> pattern_of(ws[i]) != pattern_of(ws[j]),
    ensures
        encode_all(t, ws).0.len() == t.len() + ws.len(),
        forall|i: int|
            0 <= i < ws.len() ==> #[trigger] encode_all(t, ws).1[i] == t.len() + i,
    decreases ws.len(),
{
    if ws.len() > 0 {
        let p0 = pattern_of(ws.first());
        assert(pattern_rank(t, p0) is None);
        let st = encode_step(t, ws.first());
        assert(st.0 == t.push(p0) && st.1 == t.len() as u64);
        assert forall|i: int| 0 <= i < ws.drop_first().len() implies pattern_rank(
            st.0,
            #[trigger] pattern_of(ws.drop_first()[i]),
        ) is None by {
            assert(ws.drop_first()[i] == ws[i + 1]);
            assert(pattern_of(ws[i + 1]) != p0);
            lemma_pattern_rank_push(t, pattern_of(ws[i + 1]), p0);
        }
        assert forall|i: int, j: int|
            0 <= i < j < ws.drop_first().len() implies pattern_of(
            ws.drop_first()[i],
        ) != pattern_of(ws.drop_first()[j]) by {
            assert(ws.drop_first()[i] == ws[i + 1] && ws.drop_first()[j] == ws[j + 1]);
        }
        lemma_encode_growth(st.0, ws.drop_first());
        lemma_encode_all_len(st.0, ws.drop_first());
        assert forall|i: int| 0 <= i < ws.len() implies #[trigger] encode_all(t, ws).1[i]
            == t.len() + i by {
            if i > 0 {
                assert(encode_all(t, ws).1[i] == encode_all(st.0, ws.drop_first()).1[i - 1]);
                assert(ws.drop_first().len() == ws.len() - 1);
            }
        }
    }
}

} // verus!
