//! A per-class bank of counting tables: one table per hashtable, each mapping
//! a discrete address to the number of times it was observed in training.

use vstd::prelude::*;

use crate::error::WisardError;

verus! {

/// What a discriminator is mathematically: its table bank, the number of
/// tables, and how many samples trained it.
pub ghost struct DiscriminatorView {
    pub number_of_hashtables: u16,
    pub tables: Seq<Seq<(u64, u64)>>,
    pub times_trained: u64,
}

/// The first index of a counting table holding the given address, if any.
pub open spec fn alist_index(t: Seq<(u64, u64)>, k: u64) -> Option<int>
    decreases t.len(),
{
    if t.len() == 0 {
        None
    } else if t.first().0 == k {
        Some(0int)
    } else {
        match alist_index(t.drop_first(), k) {
            Some(i) => Some(i + 1),
            None => None,
        }
    }
}

/// The count a counting table holds for an address, if the address was ever
/// trained.
pub open spec fn alist_get(t: Seq<(u64, u64)>, k: u64) -> Option<u64> {
    match alist_index(t, k) {
        Some(i) => Some(t[i].1),
        None => None,
    }
}

/// One training observation of an address: its count grows by one, and an
/// address never seen before enters with count one.
pub open spec fn bump_key(t: Seq<(u64, u64)>, k: u64) -> Seq<(u64, u64)> {
    match alist_index(t, k) {
        Some(i) => t.update(i, (k, (t[i].1 + 1) as u64)),
        None => t.push((k, 1u64)),
    }
}

/// What `alist_index` returns: the first index keyed by the address, or
/// `None` when no index is.
pub proof fn lemma_alist_index(t: Seq<(u64, u64)>, k: u64)
    ensures
        match alist_index(t, k) {
            Some(i) => 0 <= i < t.len() && t[i].0 == k && (forall|j: int|
                0 <= j < i ==> (#[trigger] t[j]).0 != k),
            None => forall|j: int| 0 <= j < t.len() ==> (#[trigger] t[j]).0 != k,
        },
    decreases t.len(),
{
    if t.len() > 0 && t.first().0 != k {
        lemma_alist_index(t.drop_first(), k);
        assert(forall|j: int| 0 < j < t.len() ==> t[j] == t.drop_first()[j - 1]);
    }
}

/// The mathematical contents of a bank of executable counting tables.
pub open spec fn tables_view(s: Seq<Vec<(u64, u64)>>) -> Seq<Seq<(u64, u64)>> {
    s.map_values(|t: Vec<(u64, u64)>| t@)
}

/// A fresh discriminator: the given number of tables, all empty, nothing
/// trained.
pub open spec fn fresh_view(num: u16) -> DiscriminatorView {
    DiscriminatorView {
        number_of_hashtables: num,
        tables: Seq::new(num as nat, |i: int| Seq::<(u64, u64)>::empty()),
        times_trained: 0,
    }
}

/// The discriminator after one training pass over an address sequence: table
/// `i` observes address `x[i]`, and the trained-sample count grows by one.
pub open spec fn trained_view(v: DiscriminatorView, x: Seq<u64>) -> DiscriminatorView {
    DiscriminatorView {
        number_of_hashtables: v.number_of_hashtables,
        tables: Seq::new(v.tables.len(), |i: int| bump_key(v.tables[i], x[i])),
        times_trained: (v.times_trained + 1) as u64,
    }
}

/// How many of the first `n` tables vote for an address sequence: table `i`
/// votes when it holds address `x[i]` with a count strictly above the bleach
/// threshold; an address it never saw cannot vote.
pub open spec fn votes_upto(
    tables: Seq<Seq<(u64, u64)>>,
    x: Seq<u64>,
    bleach: u16,
    n: int,
) -> int
    decreases n,
{
    if n <= 0 {
        0
    } else {
        votes_upto(tables, x, bleach, n - 1) + (match alist_get(tables[n - 1], x[n - 1]) {
            Some(c) => if c > bleach {
                1int
            } else {
                0int
            },
            None => 0int,
        })
    }
}

/// A discriminator is well formed when it has exactly one table per hashtable
/// and no count exceeds the number of samples trained.
pub open spec fn disc_wf(v: DiscriminatorView) -> bool {
    &&& v.tables.len() == v.number_of_hashtables as nat
    &&& forall|i: int, j: int|
        0 <= i < v.tables.len() && 0 <= j < v.tables[i].len() ==> (#[trigger] v.tables[i][j]).1
            <= v.times_trained
}

/// One class's bank of counting tables with its trained-sample counter.
#[derive(Debug)]
pub struct Discriminator {
    number_of_hashtables: u16,
    h_rams: Vec<Vec<(u64, u64)>>,
    times_trained: u64,
}

impl View for Discriminator {
    type V = DiscriminatorView;

    closed spec fn view(&self) -> DiscriminatorView {
        DiscriminatorView {
            number_of_hashtables: self.number_of_hashtables,
            tables: tables_view(self.h_rams@),
            times_trained: self.times_trained,
        }
    }
}

/// Finds the first entry of a counting table keyed by the given address.
fn alist_find(t: &Vec<(u64, u64)>, k: u64) -> (r: Option<usize>)
    ensures
        match r {
            Some(j) => alist_index(t@, k) == Some(j as int),
            None => alist_index(t@, k) is None,
        },
{
    let mut i: usize = 0;
    while i < t.len()
        invariant
            i <= t@.len(),
            forall|j: int| 0 <= j < i ==> (#[trigger] t@[j]).0 != k,
        decreases t@.len() - i,
    {
        if t[i].0 == k {
            proof {
                lemma_alist_index(t@, k);
            }
            return Some(i);
        }
        i += 1;
    }
    proof {
        lemma_alist_index(t@, k);
    }
    None
}

impl Discriminator {
    pub open spec fn wf(&self) -> bool {
        disc_wf(self@)
    }

    /// An empty discriminator with `num` counting tables.
    pub fn new(num: u16) -> (r: Discriminator)
        ensures
            r@ == fresh_view(num),
            r.wf(),
    {
        let mut h_rams: Vec<Vec<(u64, u64)>> = Vec::new();
        let mut i: usize = 0;
        while i < num as usize
            invariant
                i <= num as usize,
                h_rams@.len() == i,
                forall|j: int| 0 <= j < i ==> #[trigger] h_rams@[j]@ == Seq::<(u64, u64)>::empty(),
            decreases num as usize - i,
        {
            h_rams.push(Vec::new());
            i += 1;
        }
        let r = Discriminator { number_of_hashtables: num, h_rams, times_trained: 0 };
        proof {
            assert(r@.tables =~= fresh_view(num).tables);
        }
        r
    }

    /// The number of counting tables this discriminator was built with.
    pub fn hashtable_count(&self) -> (r: u16)
        ensures
            r == self@.number_of_hashtables,
    {
        self.number_of_hashtables
    }

    /// How many samples trained this discriminator.
    pub fn trained_count(&self) -> (r: u64)
        ensures
            r == self@.times_trained,
    {
        self.times_trained
    }

    /// How many counting tables are present.
    pub fn table_count(&self) -> (r: usize)
        ensures
            r == self@.tables.len(),
    {
        self.h_rams.len()
    }

    /// One counting table, as its address/count entries.
    pub fn table_at(&self, i: usize) -> (r: &Vec<(u64, u64)>)
        requires
            i < self@.tables.len(),
        ensures
            r@ == self@.tables[i as int],
    {
        &self.h_rams[i]
    }

    /// Rebuilds a discriminator from persisted parts, accepting only a well
    /// formed one: the table count must match and no count may exceed the
    /// trained-sample count.
    pub fn from_parts(
        number_of_hashtables: u16,
        h_rams: Vec<Vec<(u64, u64)>>,
        times_trained: u64,
    ) -> (r: Option<Discriminator>)
        ensures
            ({
                let v = DiscriminatorView {
                    number_of_hashtables,
                    tables: tables_view(h_rams@),
                    times_trained,
                };
                match r {
                    Some(d) => disc_wf(v) && d@ == v,
                    None => !disc_wf(v),
                }
            }),
    {
        let ghost v = DiscriminatorView {
            number_of_hashtables,
            tables: tables_view(h_rams@),
            times_trained,
        };
        if h_rams.len() != number_of_hashtables as usize {
            return None;
        }
        let mut i: usize = 0;
        while i < h_rams.len()
            invariant
                i <= h_rams@.len(),
                v.tables == tables_view(h_rams@),
                v.times_trained == times_trained,
                forall|a: int, b: int|
                    0 <= a < i && 0 <= b < v.tables[a].len() ==> (#[trigger] v.tables[a][b]).1
                        <= times_trained,
            decreases h_rams@.len() - i,
        {
            let t = &h_rams[i];
            let mut j: usize = 0;
            while j < t.len()
                invariant
                    j <= t@.len(),
                    i < h_rams@.len(),
                    v.tables == tables_view(h_rams@),
                    t@ == v.tables[i as int],
                    v.times_trained == times_trained,
                    forall|b: int| 0 <= b < j ==> (#[trigger] t@[b]).1 <= times_trained,
                decreases t@.len() - j,
            {
                if t[j].1 > times_trained {
                    proof {
                        assert(v.tables[i as int][j as int].1 > times_trained);
                        assert(!disc_wf(v));
                        assert(!disc_wf(
                            DiscriminatorView {
                                number_of_hashtables,
                                tables: tables_view(h_rams@),
                                times_trained,
                            },
                        ));
                    }
                    return None;
                }
                j += 1;
            }
            i += 1;
        }
        let d = Discriminator { number_of_hashtables, h_rams, times_trained };
        proof {
            assert(d@.tables =~= v.tables);
        }
        Some(d)
    }

    /// Trains on one address sequence: table `i` observes `x[i]` and the
    /// trained-sample counter grows by one. A sequence shorter than the
    /// number of tables is rejected untouched.
    pub fn train(&mut self, x: Vec<u64>) -> (r: Result<(), WisardError>)
        requires
            old(self).wf(),
            old(self)@.times_trained < u64::MAX,
        ensures
            final(self).wf(),
            x@.len() >= old(self)@.number_of_hashtables as nat ==> r is Ok && final(self)@
                == trained_view(old(self)@, x@),
            x@.len() < old(self)@.number_of_hashtables as nat ==> r == Err::<
                (),
                WisardError,
            >(WisardError::WisardOutOfBounds) && final(self)@ == old(self)@,
    {
        let num = self.number_of_hashtables as usize;
        if x.len() < num {
            return Err(WisardError::WisardOutOfBounds);
        }
        let ghost v0 = self@;
        let mut i: usize = 0;
        while i < num
            invariant
                i <= num,
                num == v0.number_of_hashtables as usize,
                x@.len() >= num,
                self@.number_of_hashtables == v0.number_of_hashtables,
                self@.times_trained == v0.times_trained,
                v0.times_trained < u64::MAX,
                disc_wf(v0),
                self@.tables.len() == v0.tables.len(),
                forall|j: int| 0 <= j < i ==> #[trigger] self@.tables[j] == bump_key(
                    v0.tables[j],
                    x@[j],
                ),
                forall|j: int| i <= j < v0.tables.len() ==> #[trigger] self@.tables[j]
                    == v0.tables[j],
            decreases num - i,
        {
            let key = x[i];
            let ghost hr0 = self.h_rams@;
            let ghost tprev = self@.tables;
            let ghost told = self@.tables[i as int];
            let mut tbl = self.h_rams.remove(i);
            match alist_find(&tbl, key) {
                Some(j) => {
                    proof {
                        lemma_alist_index(told, key);
                        assert(told[j as int].1 <= v0.times_trained);
                    }
                    let c = tbl[j].1;
                    tbl.remove(j);
                    tbl.insert(j, (key, c + 1));
                    proof {
                        assert(tbl@ =~= bump_key(told, key));
                    }
                },
                None => {
                    tbl.push((key, 1));
                    proof {
                        assert(tbl@ =~= bump_key(told, key));
                    }
                },
            }
            self.h_rams.insert(i, tbl);
            proof {
                let hr = self.h_rams@;
                hr0.remove(i as int).insert_ensures(i as int, tbl);
                hr0.remove_ensures(i as int);
                assert forall|j: int| 0 <= j < hr.len() implies #[trigger] hr[j]@ == tprev.update(
                    i as int,
                    tbl@,
                )[j] by {}
                assert(self@.tables =~= tprev.update(i as int, bump_key(told, key)));
            }
            i += 1;
        }
        self.times_trained = self.times_trained + 1;
        proof {
            assert(self@.tables =~= trained_view(v0, x@).tables);
            assert forall|a: int, b: int|
                0 <= a < self@.tables.len() && 0 <= b < self@.tables[a].len() implies (
            #[trigger] self@.tables[a][b]).1 <= self@.times_trained by {
                lemma_alist_index(v0.tables[a], x@[a]);
            }
        }
        Ok(())
    }

    /// Counts, without mutating anything, how many tables vote for an address
    /// sequence under the given bleach threshold, and reports the
    /// trained-sample count beside it.
    pub fn classify(&self, x: &Vec<u64>, bleach: u16) -> (r: (u64, u64))
        requires
            self.wf(),
            x@.len() >= self@.number_of_hashtables as nat,
        ensures
            r.0 == votes_upto(self@.tables, x@, bleach, self@.number_of_hashtables as int),
            r.1 == self@.times_trained,
    {
        let num = self.number_of_hashtables as usize;
        let mut votes: u64 = 0;
        let mut i: usize = 0;
        while i < num
            invariant
                i <= num,
                num == self@.number_of_hashtables as usize,
                x@.len() >= num,
                self.wf(),
                votes == votes_upto(self@.tables, x@, bleach, i as int),
                votes <= i,
            decreases num - i,
        {
            let key = x[i];
            match alist_find(&self.h_rams[i], key) {
                Some(j) => {
                    proof {
                        lemma_alist_index(self@.tables[i as int], key);
                    }
                    if self.h_rams[i][j].1 > bleach as u64 {
                        votes += 1;
                    }
                },
                None => {},
            }
            i += 1;
        }
        (votes, self.times_trained)
    }
}

/// Bleach semantics: after a single training pass, every trained address
/// holds count one, so with bleach zero every table votes for the trained
/// addresses, and with bleach one none does.
pub proof fn lemma_bleach_threshold(num: u16, x: Seq<u64>)
    requires
        x.len() >= num as nat,
    ensures
        ({
            let d = trained_view(fresh_view(num), x);
            &&& votes_upto(d.tables, x, 0, num as int) == num as int
            &&& votes_upto(d.tables, x, 1, num as int) == 0
        }),
{
    let d = trained_view(fresh_view(num), x);
    assert forall|i: int| 0 <= i < num as int implies alist_get(d.tables[i], x[i]) == Some(
        1u64,
    ) by {
        assert(d.tables[i] == bump_key(Seq::<(u64, u64)>::empty(), x[i]));
        assert(d.tables[i] =~= seq![(x[i], 1u64)]);
    }
    lemma_votes_all(d.tables, x, 0, num as int);
    lemma_votes_none(d.tables, x, 1, num as int);
}

/// When every queried address up to `n` is held with a count above the
/// threshold, every table votes.
proof fn lemma_votes_all(tables: Seq<Seq<(u64, u64)>>, x: Seq<u64>, bleach: u16, n: int)
    requires
        forall|i: int|
            0 <= i < n ==> match alist_get(#[trigger] tables[i], x[i]) {
                Some(c) => c > bleach,
                None => false,
            },
    ensures
        votes_upto(tables, x, bleach, n) == if n >= 0 {
            n
        } else {
            0
        },
    decreases n,
{
    if n > 0 {
        lemma_votes_all(tables, x, bleach, n - 1);
    }
}

/// When no queried address up to `n` is held with a count above the
/// threshold, no table votes.
proof fn lemma_votes_none(tables: Seq<Seq<(u64, u64)>>, x: Seq<u64>, bleach: u16, n: int)
    requires
        forall|i: int|
            0 <= i < n ==> match alist_get(#[trigger] tables[i], x[i]) {
                Some(c) => c <= bleach,
                None => true,
            },
    ensures
        votes_upto(tables, x, bleach, n) == 0,
    decreases n,
{
    if n > 0 {
        lemma_votes_none(tables, x, bleach, n - 1);
    }
}

} // verus!
