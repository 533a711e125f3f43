//! The multi-class network: it owns one discriminator per label, the feature
//! mapping, the shared rank table and the hyperparameters, and exposes
//! training, classification and lifecycle operations over them.

use vstd::prelude::*;

use crate::discriminator::{
    disc_wf, fresh_view, trained_view, votes_upto, Discriminator, DiscriminatorView,
};
use crate::error::WisardError;
use crate::rank::{
    chunks_of, encode_all, encode_frozen, encode_read, encode_train, positions_upto, table_view,
};

use rand::seq::SliceRandom;

verus! {

/// What a network is mathematically: its labelled discriminators in creation
/// order, its hyperparameters, feature mapping and rank table.
pub ghost struct WisardView {
    pub discs: Seq<(Seq<char>, DiscriminatorView)>,
    pub addr_length: u16,
    pub number_of_hashtables: u16,
    pub mapping: Seq<u64>,
    pub rank_table: Seq<Seq<u64>>,
    pub bleach: u16,
    pub target_size: (u32, u32),
}

/// The sampling window size in input positions.
pub open spec fn spec_cells(number_of_hashtables: u16, addr_length: u16) -> int {
    number_of_hashtables as int * addr_length as int
}

/// How many positions the (possibly resized) input offers.
pub open spec fn spec_pixels(target_size: (u32, u32)) -> int {
    target_size.0 as int * target_size.1 as int
}

/// The target size actually used when the caller leaves it open.
pub open spec fn resolved_target(target_size: Option<(u32, u32)>) -> (u32, u32) {
    match target_size {
        Some(t) => t,
        None => (28u32, 28u32),
    }
}

/// The hyperparameter validation rule: the reason the parameters are
/// rejected, or `None` when they are accepted. The checks run in this order
/// and the first failure wins.
pub open spec fn validation_msg(
    number_of_hashtables: u16,
    addr_length: u16,
    target_size: (u32, u32),
    mapping_len: int,
) -> Option<Seq<char>> {
    if addr_length == 0 {
        Some("address length must be positive"@)
    } else if spec_cells(number_of_hashtables, addr_length) > spec_pixels(target_size) {
        Some("sampling range exceeds image size"@)
    } else if spec_cells(number_of_hashtables, addr_length) > mapping_len {
        Some("mapping too small"@)
    } else if mapping_len > spec_pixels(target_size) {
        Some("mapping larger than image"@)
    } else {
        None
    }
}

/// A network is well formed when its window size is positive and every
/// discriminator is well formed with the network's own table count.
pub open spec fn net_wf(v: WisardView) -> bool {
    &&& v.addr_length >= 1
    &&& forall|i: int|
        0 <= i < v.discs.len() ==> disc_wf((#[trigger] v.discs[i]).1)
            && v.discs[i].1.number_of_hashtables == v.number_of_hashtables
}

/// Every discriminator still has room for one more training pass.
pub open spec fn can_train(v: WisardView) -> bool {
    forall|i: int| 0 <= i < v.discs.len() ==> (#[trigger] v.discs[i]).1.times_trained < u64::MAX
}

/// The mathematical contents of the executable discriminator list.
pub open spec fn discs_view(s: Seq<(String, Discriminator)>) -> Seq<
    (Seq<char>, DiscriminatorView),
> {
    s.map_values(|p: (String, Discriminator)| (p.0@, p.1@))
}

/// The first index owning the given label, if any discriminator does.
pub open spec fn disc_index_of(
    discs: Seq<(Seq<char>, DiscriminatorView)>,
    label: Seq<char>,
) -> Option<int>
    decreases discs.len(),
{
    if discs.len() == 0 {
        None
    } else if discs.first().0 == label {
        Some(0int)
    } else {
        match disc_index_of(discs.drop_first(), label) {
            Some(i) => Some(i + 1),
            None => None,
        }
    }
}

/// What `disc_index_of` returns: the first index labelled so, or `None` when
/// no index is.
pub proof fn lemma_disc_index_of(discs: Seq<(Seq<char>, DiscriminatorView)>, label: Seq<char>)
    ensures
        match disc_index_of(discs, label) {
            Some(i) => 0 <= i < discs.len() && discs[i].0 == label && (forall|j: int|
                0 <= j < i ==> (#[trigger] discs[j]).0 != label),
            None => forall|j: int| 0 <= j < discs.len() ==> (#[trigger] discs[j]).0 != label,
        },
    decreases discs.len(),
{
    if discs.len() > 0 && discs.first().0 != label {
        lemma_disc_index_of(discs.drop_first(), label);
        assert(forall|j: int| 0 < j < discs.len() ==> discs[j] == discs.drop_first()[j - 1]);
    }
}

/// The discriminator list after the lazy creation step of training: a label
/// never seen gets a fresh discriminator appended.
pub open spec fn with_label(v: WisardView, label: Seq<char>) -> Seq<
    (Seq<char>, DiscriminatorView),
> {
    match disc_index_of(v.discs, label) {
        Some(_) => v.discs,
        None => v.discs.push((label, fresh_view(v.number_of_hashtables))),
    }
}

/// Whether every mapping entry addresses a position the sample has.
pub open spec fn mapping_ok(m: Seq<u64>, dlen: nat) -> bool {
    forall|i: int| 0 <= i < m.len() ==> m[i] < dlen
}

/// The sample as the feature mapping permutes it: entry `i` reads the sample
/// at position `m[i]`.
pub open spec fn mapped_seq(m: Seq<u64>, d: Seq<u64>) -> Seq<u64> {
    m.map_values(|ix: u64| d[ix as int])
}

/// The vote count of every discriminator against one address sequence, in
/// creation order.
pub open spec fn all_votes(v: WisardView, addrs: Seq<u64>) -> Seq<u64> {
    Seq::new(
        v.discs.len(),
        |i: int| votes_upto(v.discs[i].1.tables, addrs, v.bleach, v.number_of_hashtables as int)
            as u64,
    )
}

/// The index the election picks: the last index holding the maximum vote
/// count. The vote list is stably sorted ascending and the final entry wins,
/// so of tied labels the one created last is chosen.
pub open spec fn winner_of(vs: Seq<u64>) -> int
    decreases vs.len(),
{
    if vs.len() <= 1 {
        0
    } else {
        let w = winner_of(vs.drop_last());
        if vs.last() >= vs[w] {
            vs.len() - 1
        } else {
            w
        }
    }
}

/// What the election picks: the winner holds the greatest vote count, and
/// every later discriminator holds strictly fewer votes, so of tied labels
/// the one created last is chosen.
pub proof fn lemma_winner_of(vs: Seq<u64>)
    requires
        vs.len() > 0,
    ensures
        0 <= winner_of(vs) < vs.len(),
        forall|i: int| 0 <= i < vs.len() ==> #[trigger] vs[i] <= vs[winner_of(vs)],
        forall|i: int| winner_of(vs) < i < vs.len() ==> #[trigger] vs[i] < vs[winner_of(vs)],
    decreases vs.len(),
{
    if vs.len() > 1 {
        lemma_winner_of(vs.drop_last());
        assert(forall|i: int| 0 <= i < vs.len() - 1 ==> vs[i] == vs.drop_last()[i]);
    }
}

/// The greatest vote count held at any index other than `skip_i`, or zero
/// when there is no other index.
pub open spec fn max_excluding(vs: Seq<u64>, skip_i: int) -> u64
    decreases vs.len(),
{
    if vs.len() == 0 {
        0u64
    } else {
        let m = max_excluding(vs.drop_last(), skip_i);
        if skip_i == vs.len() - 1 {
            m
        } else if vs.last() >= m {
            vs.last()
        } else {
            m
        }
    }
}

/// The runner-up value bounds every vote count outside the winning index.
pub proof fn lemma_max_excluding(vs: Seq<u64>, skip_i: int)
    ensures
        forall|i: int|
            0 <= i < vs.len() && i != skip_i ==> #[trigger] vs[i] <= max_excluding(vs, skip_i),
    decreases vs.len(),
{
    if vs.len() > 0 {
        lemma_max_excluding(vs.drop_last(), skip_i);
        assert(forall|i: int| 0 <= i < vs.len() - 1 ==> vs[i] == vs.drop_last()[i]);
    }
}

/// Appending a discriminator for a label not yet present registers it under
/// the next index; other labels keep their index.
pub proof fn lemma_disc_index_push(
    discs: Seq<(Seq<char>, DiscriminatorView)>,
    label: Seq<char>,
    entry: (Seq<char>, DiscriminatorView),
)
    ensures
        disc_index_of(discs, label) is Some ==> disc_index_of(discs.push(entry), label)
            == disc_index_of(discs, label),
        disc_index_of(discs, label) is None && entry.0 == label ==> disc_index_of(
            discs.push(entry),
            label,
        ) == Some(discs.len() as int),
        disc_index_of(discs, label) is None && entry.0 != label ==> disc_index_of(
            discs.push(entry),
            label,
        ) is None,
    decreases discs.len(),
{
    if discs.len() == 0 {
        assert(discs.push(entry).drop_first() =~= Seq::empty());
    } else {
        assert(discs.push(entry).first() == discs.first());
        assert(discs.push(entry).drop_first() =~= discs.drop_first().push(entry));
        lemma_disc_index_push(discs.drop_first(), label, entry);
    }
}

/// The weightless multi-class classifier.
#[derive(Debug)]
pub struct Wisard {
    discs: Vec<(String, Discriminator)>,
    addr_length: u16,
    number_of_hashtables: u16,
    mapping: Vec<u64>,
    rank_table: Vec<Vec<u64>>,
    bleach: u16,
    target_size: (u32, u32),
}

impl View for Wisard {
    type V = WisardView;

    closed spec fn view(&self) -> WisardView {
        WisardView {
            discs: discs_view(self.discs@),
            addr_length: self.addr_length,
            number_of_hashtables: self.number_of_hashtables,
            mapping: self.mapping@,
            rank_table: table_view(self.rank_table@),
            bleach: self.bleach,
            target_size: self.target_size,
        }
    }
}

/// The product of two 16-bit values fits well inside 64 bits.
proof fn lemma_u16_mul_fits(a: u16, b: u16)
    ensures
        0 <= a as int * b as int <= 0xffff * 0xffff,
{
    assert(a as int * b as int <= 0xffff * 0xffff) by (nonlinear_arith)
        requires
            0 <= a as int <= 0xffff,
            0 <= b as int <= 0xffff,
    ;
    assert(a as int * b as int >= 0) by (nonlinear_arith)
        requires
            0 <= a as int,
            0 <= b as int,
    ;
}

/// The product of two 32-bit values fits inside 64 bits.
proof fn lemma_u32_mul_fits(a: u32, b: u32)
    ensures
        0 <= a as int * b as int <= 0xffffffff * 0xffffffff,
{
    assert(a as int * b as int <= 0xffffffff * 0xffffffff) by (nonlinear_arith)
        requires
            0 <= a as int <= 0xffffffff,
            0 <= b as int <= 0xffffffff,
    ;
    assert(a as int * b as int >= 0) by (nonlinear_arith)
        requires
            0 <= a as int,
            0 <= b as int,
    ;
}

/// Relies on rand's `SliceRandom::shuffle` with `thread_rng`: an in-place
/// Fisher-Yates permutation, so the entries are kept and only reordered.
#[verifier::external_body]
fn shuffle_mapping(v: &mut Vec<u64>)
    ensures
        final(v)@.to_multiset() == old(v)@.to_multiset(),
        final(v)@.len() == old(v)@.len(),
{
    v.shuffle(&mut rand::thread_rng());
}

/// A freshly shuffled feature mapping: a random permutation of the positions
/// `0 .. number_of_hashtables * addr_length`.
fn fresh_mapping(number_of_hashtables: u16, addr_length: u16) -> (r: Vec<u64>)
    ensures
        r@.to_multiset() == positions_upto(
            (number_of_hashtables as nat) * (addr_length as nat),
        ).to_multiset(),
        r@.len() == (number_of_hashtables as nat) * (addr_length as nat),
{
    proof {
        lemma_u16_mul_fits(number_of_hashtables, addr_length);
    }
    let cells: u64 = (number_of_hashtables as u64) * (addr_length as u64);
    let mut v: Vec<u64> = Vec::new();
    let mut c: u64 = 0;
    proof {
        assert(v@ =~= positions_upto(0));
    }
    while c < cells
        invariant
            c <= cells,
            cells == (number_of_hashtables as nat) * (addr_length as nat),
            v@ == positions_upto(c as nat),
        decreases cells - c,
    {
        v.push(c);
        proof {
            assert(v@ =~= positions_upto((c + 1) as nat));
        }
        c += 1;
    }
    shuffle_mapping(&mut v);
    v
}

/// Reads the sample through the feature mapping, position by position; a
/// mapping entry beyond the sample's length rejects the whole sample.
fn map_samples(mapping: &Vec<u64>, data: &Vec<u64>) -> (r: Option<Vec<u64>>)
    ensures
        match r {
            Some(s) => mapping_ok(mapping@, data@.len()) && s@ == mapped_seq(mapping@, data@),
            None => !mapping_ok(mapping@, data@.len()),
        },
{
    let dlen = data.len();
    let mut out: Vec<u64> = Vec::new();
    let mut i: usize = 0;
    while i < mapping.len()
        invariant
            i <= mapping@.len(),
            dlen == data@.len(),
            out@.len() == i,
            forall|j: int| 0 <= j < i ==> mapping@[j] < data@.len(),
            forall|j: int| 0 <= j < i ==> out@[j] == data@[mapping@[j] as int],
        decreases mapping@.len() - i,
    {
        let ix = mapping[i];
        if ix >= dlen as u64 {
            return None;
        }
        out.push(data[ix as usize]);
        i += 1;
    }
    proof {
        assert(out@ =~= mapped_seq(mapping@, data@));
    }
    Some(out)
}

/// The last index holding the greatest entry of a non-empty vote list.
fn argmax_last(votes: &Vec<u64>) -> (r: usize)
    requires
        votes@.len() > 0,
    ensures
        r < votes@.len(),
        r as int == winner_of(votes@),
{
    let mut best: usize = 0;
    let mut k: usize = 1;
    proof {
        assert(votes@.take(1).len() == 1);
    }
    while k < votes.len()
        invariant
            1 <= k <= votes@.len(),
            best < k,
            best as int == winner_of(votes@.take(k as int)),
        decreases votes@.len() - k,
    {
        let ghost prev = votes@.take(k as int);
        if votes[k] >= votes[best] {
            best = k;
        }
        proof {
            let s = votes@.take(k + 1);
            assert(s.drop_last() =~= prev);
            assert(s.last() == votes@[k as int]);
            assert(s[winner_of(prev)] == votes@[winner_of(prev)]);
        }
        k += 1;
    }
    proof {
        assert(votes@.take(votes@.len() as int) =~= votes@);
    }
    best
}

/// The greatest entry of a vote list outside the given index.
fn max_outside(votes: &Vec<u64>, skip_i: usize) -> (r: u64)
    ensures
        r == max_excluding(votes@, skip_i as int),
{
    let mut m: u64 = 0;
    let mut k: usize = 0;
    proof {
        assert(votes@.take(0) =~= Seq::<u64>::empty());
    }
    while k < votes.len()
        invariant
            k <= votes@.len(),
            m == max_excluding(votes@.take(k as int), skip_i as int),
        decreases votes@.len() - k,
    {
        let ghost prev = votes@.take(k as int);
        if k != skip_i {
            let vk = votes[k];
            if vk >= m {
                m = vk;
            }
        }
        proof {
            let s = votes@.take(k + 1);
            assert(s.drop_last() =~= prev);
            assert(s.last() == votes@[k as int]);
        }
        k += 1;
    }
    proof {
        assert(votes@.take(votes@.len() as int) =~= votes@);
    }
    m
}

/// Finds the discriminator owning a label: the first, and in a network built
/// through `train` the only, entry under that label.
fn find_disc(discs: &Vec<(String, Discriminator)>, label: &String) -> (r: Option<usize>)
    ensures
        match r {
            Some(i) => disc_index_of(discs_view(discs@), label@) == Some(i as int),
            None => disc_index_of(discs_view(discs@), label@) is None,
        },
{
    let mut i: usize = 0;
    while i < discs.len()
        invariant
            i <= discs@.len(),
            forall|j: int| 0 <= j < i ==> (#[trigger] discs_view(discs@)[j]).0 != label@,
        decreases discs@.len() - i,
    {
        let hit = discs[i].0 == *label;
        proof {
            assert(discs_view(discs@)[i as int].0 == discs@[i as int].0@);
        }
        if hit {
            proof {
                lemma_disc_index_of(discs_view(discs@), label@);
            }
            return Some(i);
        }
        i += 1;
    }
    proof {
        lemma_disc_index_of(discs_view(discs@), label@);
    }
    None
}

impl Wisard {
    pub open spec fn wf(&self) -> bool {
        net_wf(self@)
    }

    /// An empty network with the documented default hyperparameters:
    /// 35 hashtables, windows of 21, bleach 0, a 28-by-28 target size and a
    /// freshly shuffled feature mapping.
    pub fn new() -> (r: Wisard)
        ensures
            r.wf(),
            r@.number_of_hashtables == 35,
            r@.addr_length == 21,
            r@.bleach == 0,
            r@.target_size == (28u32, 28u32),
            r@.discs == Seq::<(Seq<char>, DiscriminatorView)>::empty(),
            r@.rank_table == Seq::<Seq<u64>>::empty(),
            r@.mapping.to_multiset() == positions_upto(735).to_multiset(),
    {
        let r = Wisard::with_params(35, 21, 0, None, None);
        match r {
            Ok(w) => w,
            Err(_) => vstd::pervasive::unreached(),
        }
    }

    /// Builds an empty network after validating the hyperparameters: the
    /// sampling window must fit in the target size, the mapping must cover
    /// the window, and the mapping must fit in the target size. A rejected
    /// parameter set reports its reason and nothing is built.
    pub fn with_params(
        number_of_hashtables: u16,
        addr_length: u16,
        bleach: u16,
        target_size: Option<(u32, u32)>,
        mapping: Option<Vec<u64>>,
    ) -> (r: Result<Wisard, WisardError>)
        ensures
            ({
                let ts = resolved_target(target_size);
                let mlen = match mapping {
                    Some(m) => m@.len() as int,
                    None => spec_cells(number_of_hashtables, addr_length),
                };
                match validation_msg(number_of_hashtables, addr_length, ts, mlen) {
                    Some(msg) => r matches Err(WisardError::WisardValidationFailed(m)) && m@
                        == msg,
                    None => r matches Ok(w) && {
                        &&& w.wf()
                        &&& w@.number_of_hashtables == number_of_hashtables
                        &&& w@.addr_length == addr_length
                        &&& w@.bleach == bleach
                        &&& w@.target_size == ts
                        &&& w@.discs == Seq::<(Seq<char>, DiscriminatorView)>::empty()
                        &&& w@.rank_table == Seq::<Seq<u64>>::empty()
                        &&& (mapping matches Some(m) ==> w@.mapping == m@)
                        &&& (mapping is None ==> w@.mapping.to_multiset() == positions_upto(
                            spec_cells(number_of_hashtables, addr_length) as nat,
                        ).to_multiset())
                    },
                }
            }),
    {
        let target: (u32, u32) = match target_size {
            Some(t) => t,
            None => (28, 28),
        };
        let mapv: Vec<u64> = match mapping {
            Some(m) => m,
            None => fresh_mapping(number_of_hashtables, addr_length),
        };
        if addr_length == 0 {
            return Err(
                WisardError::WisardValidationFailed("address length must be positive".to_owned()),
            );
        }
        proof {
            lemma_u16_mul_fits(number_of_hashtables, addr_length);
            lemma_u32_mul_fits(target.0, target.1);
        }
        let cells: u64 = (number_of_hashtables as u64) * (addr_length as u64);
        let pixels: u64 = (target.0 as u64) * (target.1 as u64);
        if cells > pixels {
            return Err(
                WisardError::WisardValidationFailed(
                    "sampling range exceeds image size".to_owned(),
                ),
            );
        }
        if cells > mapv.len() as u64 {
            return Err(WisardError::WisardValidationFailed("mapping too small".to_owned()));
        }
        if mapv.len() as u64 > pixels {
            return Err(
                WisardError::WisardValidationFailed("mapping larger than image".to_owned()),
            );
        }
        Ok(
            Wisard {
                discs: Vec::new(),
                addr_length,
                number_of_hashtables,
                mapping: mapv,
                rank_table: Vec::new(),
                bleach,
                target_size: target,
            },
        )
    }

    /// The current hyperparameters and a copy of the feature mapping.
    pub fn get_info(&self) -> (r: (u16, u16, u16, (u32, u32), Vec<u64>))
        ensures
            r.0 == self@.number_of_hashtables,
            r.1 == self@.addr_length,
            r.2 == self@.bleach,
            r.3 == self@.target_size,
            r.4@ == self@.mapping,
    {
        let m = self.mapping.clone();
        proof {
            assert(m@ =~= self.mapping@);
        }
        (self.number_of_hashtables, self.addr_length, self.bleach, self.target_size, m)
    }

    /// The target size inputs are expected to be resized to.
    pub fn target_size(&self) -> (r: (u32, u32))
        ensures
            r == self@.target_size,
    {
        self.target_size
    }

    /// How many distinct address patterns have been assigned a rank.
    pub fn rank_table_len(&self) -> (r: usize)
        ensures
            r == self@.rank_table.len(),
    {
        self.rank_table.len()
    }

    /// How many discriminators exist, one per label trained so far.
    pub fn disc_count(&self) -> (r: usize)
        ensures
            r == self@.discs.len(),
    {
        self.discs.len()
    }

    /// Resets the network to its default, empty state: default
    /// hyperparameters, no discriminators, an empty rank table, and the
    /// feature mapping reshuffled in place.
    pub fn erase(&mut self)
        ensures
            final(self).wf(),
            final(self)@.number_of_hashtables == 35,
            final(self)@.addr_length == 21,
            final(self)@.bleach == 0,
            final(self)@.target_size == (28u32, 28u32),
            final(self)@.discs == Seq::<(Seq<char>, DiscriminatorView)>::empty(),
            final(self)@.rank_table == Seq::<Seq<u64>>::empty(),
            final(self)@.mapping.to_multiset() == old(self)@.mapping.to_multiset(),
    {
        self.number_of_hashtables = 35;
        self.addr_length = 21;
        self.bleach = 0;
        shuffle_mapping(&mut self.mapping);
        self.discs = Vec::new();
        self.target_size = (28, 28);
        self.rank_table = Vec::new();
        proof {
            assert(final(self)@.discs =~= Seq::<(Seq<char>, DiscriminatorView)>::empty());
            assert(final(self)@.rank_table =~= Seq::<Seq<u64>>::empty());
        }
    }

    /// Discards all learned state and installs the given hyperparameters
    /// with a fresh random mapping, without validating them against a target
    /// size.
    pub fn erase_and_change_hyperparameters(
        &mut self,
        number_of_hashtables: u16,
        addr_length: u16,
        bleach: u16,
    )
        requires
            addr_length >= 1,
        ensures
            final(self).wf(),
            final(self)@.number_of_hashtables == number_of_hashtables,
            final(self)@.addr_length == addr_length,
            final(self)@.bleach == bleach,
            final(self)@.target_size == old(self)@.target_size,
            final(self)@.discs == Seq::<(Seq<char>, DiscriminatorView)>::empty(),
            final(self)@.rank_table == Seq::<Seq<u64>>::empty(),
            final(self)@.mapping.to_multiset() == positions_upto(
                spec_cells(number_of_hashtables, addr_length) as nat,
            ).to_multiset(),
    {
        self.discs = Vec::new();
        self.addr_length = addr_length;
        self.number_of_hashtables = number_of_hashtables;
        self.mapping = fresh_mapping(number_of_hashtables, addr_length);
        self.rank_table = Vec::new();
        self.bleach = bleach;
        proof {
            assert(final(self)@.discs =~= Seq::<(Seq<char>, DiscriminatorView)>::empty());
            assert(final(self)@.rank_table =~= Seq::<Seq<u64>>::empty());
        }
    }

    /// Validates the given hyperparameters exactly as `with_params` does and,
    /// only when they pass, atomically discards all discriminators and the
    /// rank table and installs the new parameters and mapping; a rejected set
    /// leaves the network untouched.
    pub fn change_hyperparameters(
        &mut self,
        number_of_hashtables: u16,
        addr_length: u16,
        bleach: u16,
        target_size: Option<(u32, u32)>,
        mapping: Option<Vec<u64>>,
    ) -> (r: Result<(), WisardError>)
        ensures
            final(self).wf() || final(self)@ == old(self)@,
            ({
                let ts = resolved_target(target_size);
                let mlen = match mapping {
                    Some(m) => m@.len() as int,
                    None => spec_cells(number_of_hashtables, addr_length),
                };
                match validation_msg(number_of_hashtables, addr_length, ts, mlen) {
                    Some(msg) => r matches Err(WisardError::WisardValidationFailed(m)) && m@
                        == msg && final(self)@ == old(self)@,
                    None => r is Ok && {
                        &&& final(self).wf()
                        &&& final(self)@.number_of_hashtables == number_of_hashtables
                        &&& final(self)@.addr_length == addr_length
                        &&& final(self)@.bleach == bleach
                        &&& final(self)@.target_size == ts
                        &&& final(self)@.discs == Seq::<(Seq<char>, DiscriminatorView)>::empty()
                        &&& final(self)@.rank_table == Seq::<Seq<u64>>::empty()
                        &&& (mapping matches Some(m) ==> final(self)@.mapping == m@)
                        &&& (mapping is None ==> final(self)@.mapping.to_multiset()
                            == positions_upto(
                            spec_cells(number_of_hashtables, addr_length) as nat,
                        ).to_multiset())
                    },
                }
            }),
    {
        let target: (u32, u32) = match target_size {
            Some(t) => t,
            None => (28, 28),
        };
        let mapv: Vec<u64> = match mapping {
            Some(m) => m,
            None => fresh_mapping(number_of_hashtables, addr_length),
        };
        if addr_length == 0 {
            return Err(
                WisardError::WisardValidationFailed("address length must be positive".to_owned()),
            );
        }
        proof {
            lemma_u16_mul_fits(number_of_hashtables, addr_length);
            lemma_u32_mul_fits(target.0, target.1);
        }
        let cells: u64 = (number_of_hashtables as u64) * (addr_length as u64);
        let pixels: u64 = (target.0 as u64) * (target.1 as u64);
        if cells > pixels {
            return Err(
                WisardError::WisardValidationFailed(
                    "sampling range exceeds image size".to_owned(),
                ),
            );
        }
        if cells > mapv.len() as u64 {
            return Err(WisardError::WisardValidationFailed("mapping too small".to_owned()));
        }
        if mapv.len() as u64 > pixels {
            return Err(
                WisardError::WisardValidationFailed(
                    "mapping larger than image".to_owned(),
                ),
            );
        }
        self.discs = Vec::new();
        self.addr_length = addr_length;
        self.number_of_hashtables = number_of_hashtables;
        self.mapping = mapv;
        self.rank_table = Vec::new();
        self.target_size = target;
        self.bleach = bleach;
        proof {
            assert(final(self)@.discs =~= Seq::<(Seq<char>, DiscriminatorView)>::empty());
            assert(final(self)@.rank_table =~= Seq::<Seq<u64>>::empty());
        }
        Ok(())
    }

    /// Training-time rank encoding of an already mapped sample: unseen window
    /// patterns are assigned fresh ranks and the shared rank table grows
    /// accordingly.
    pub fn ranks_t(&mut self, samples: Vec<u64>) -> (r: Vec<u64>)
        requires
            old(self).wf(),
        ensures
            final(self).wf(),
            ({
                let e = encode_all(
                    old(self)@.rank_table,
                    chunks_of(samples@, old(self)@.addr_length as nat),
                );
                &&& final(self)@.rank_table == e.0
                &&& r@ == e.1
            }),
            final(self)@.discs == old(self)@.discs,
            final(self)@.addr_length == old(self)@.addr_length,
            final(self)@.number_of_hashtables == old(self)@.number_of_hashtables,
            final(self)@.mapping == old(self)@.mapping,
            final(self)@.bleach == old(self)@.bleach,
            final(self)@.target_size == old(self)@.target_size,
    {
        let al = self.addr_length;
        let r = encode_train(&mut self.rank_table, &samples, al);
        proof {
            assert(self@.discs == old(self)@.discs);
            assert(self@.addr_length == old(self)@.addr_length);
            assert(net_wf(self@));
        }
        r
    }

    /// Training-time rank encoding, under the shorter name some callers
    /// still use; it behaves exactly as `ranks_t`.
    pub fn ranks(&mut self, samples: Vec<u64>) -> (r: Vec<u64>)
        requires
            old(self).wf(),
        ensures
            final(self).wf(),
            ({
                let e = encode_all(
                    old(self)@.rank_table,
                    chunks_of(samples@, old(self)@.addr_length as nat),
                );
                &&& final(self)@.rank_table == e.0
                &&& r@ == e.1
            }),
            final(self)@.discs == old(self)@.discs,
            final(self)@.addr_length == old(self)@.addr_length,
            final(self)@.number_of_hashtables == old(self)@.number_of_hashtables,
            final(self)@.mapping == old(self)@.mapping,
            final(self)@.bleach == old(self)@.bleach,
            final(self)@.target_size == old(self)@.target_size,
    {
        self.ranks_t(samples)
    }

    /// Classification-time rank encoding of an already mapped sample: the
    /// rank table is only read, and an unseen pattern yields the sentinel
    /// rank one past the highest assigned rank.
    pub fn ranks_c(&self, samples: Vec<u64>) -> (r: Vec<u64>)
        requires
            self.wf(),
        ensures
            r@ == encode_frozen(self@.rank_table, chunks_of(samples@, self@.addr_length as nat)),
    {
        encode_read(&self.rank_table, &samples, self.addr_length)
    }

    /// Trains one sample under a label: the label's discriminator is created
    /// lazily, the sample is read through the feature mapping, rank-encoded
    /// against the shared table, and the discriminator observes the
    /// addresses. A sample the mapping cannot address, or one yielding fewer
    /// windows than there are hashtables, is rejected; the lazily created
    /// discriminator remains either way, and the rank table grows only when
    /// the mapping fits the sample. Callers keep every trained-sample
    /// counter below the machine maximum; `can_train_more` tests exactly
    /// that.
    pub fn train(&mut self, data: Vec<u64>, label: String) -> (r: Result<(), WisardError>)
        requires
            old(self).wf(),
            can_train(old(self)@),
        ensures
            final(self).wf(),
            final(self)@.addr_length == old(self)@.addr_length,
            final(self)@.number_of_hashtables == old(self)@.number_of_hashtables,
            final(self)@.mapping == old(self)@.mapping,
            final(self)@.bleach == old(self)@.bleach,
            final(self)@.target_size == old(self)@.target_size,
            ({
                let v = old(self)@;
                let discs1 = with_label(v, label@);
                let di = match disc_index_of(discs1, label@) {
                    Some(i) => i,
                    None => 0int,
                };
                if !mapping_ok(v.mapping, data@.len()) {
                    &&& r == Err::<(), WisardError>(WisardError::WisardOutOfBounds)
                    &&& final(self)@.discs == discs1
                    &&& final(self)@.rank_table == v.rank_table
                } else {
                    let s = mapped_seq(v.mapping, data@);
                    let e = encode_all(v.rank_table, chunks_of(s, v.addr_length as nat));
                    &&& final(self)@.rank_table == e.0
                    &&& (e.1.len() >= v.number_of_hashtables as nat ==> {
                        &&& r is Ok
                        &&& final(self)@.discs == discs1.update(
                            di,
                            (label@, trained_view(discs1[di].1, e.1)),
                        )
                    })
                    &&& (e.1.len() < v.number_of_hashtables as nat ==> {
                        &&& r == Err::<(), WisardError>(WisardError::WisardOutOfBounds)
                        &&& final(self)@.discs == discs1
                    })
                }
            }),
    {
        let ghost v0 = self@;
        let num = self.number_of_hashtables;
        let di: usize = match find_disc(&self.discs, &label) {
            Some(i) => i,
            None => {
                let i = self.discs.len();
                let fresh = Discriminator::new(num);
                self.discs.push((label.clone(), fresh));
                proof {
                    assert(discs_view(self.discs@) =~= with_label(v0, label@));
                    lemma_disc_index_push(
                        v0.discs,
                        label@,
                        (label@, fresh_view(num)),
                    );
                }
                i
            },
        };
        let ghost discs1 = with_label(v0, label@);
        proof {
            assert(discs_view(self.discs@) == discs1);
            assert(disc_index_of(discs1, label@) == Some(di as int));
            lemma_disc_index_of(discs1, label@);
        }
        let s: Vec<u64> = match map_samples(&self.mapping, &data) {
            Some(s) => s,
            None => {
                proof {
                    assert(self@.discs == discs1);
                    assert(self@.rank_table == v0.rank_table);
                    assert(!mapping_ok(v0.mapping, data@.len()));
                    assert(net_wf(self@));
                }
                return Err(WisardError::WisardOutOfBounds);
            },
        };
        let al = self.addr_length;
        let addrs = encode_train(&mut self.rank_table, &s, al);
        let ghost ga = addrs@;
        let ghost hr0 = self.discs@;
        let entry = self.discs.remove(di);
        let lab = entry.0;
        let mut d = entry.1;
        proof {
            assert(discs1[di as int] == (lab@, d@));
            assert(d@.times_trained < u64::MAX) by {
                if di < v0.discs.len() {
                    assert(v0.discs[di as int] == discs1[di as int]);
                } else {
                    assert(d@ == fresh_view(num));
                }
            }
            assert(disc_wf(d@) && d@.number_of_hashtables == num) by {
                if di < v0.discs.len() {
                    assert(v0.discs[di as int] == discs1[di as int]);
                } else {
                    assert(d@ == fresh_view(num));
                }
            }
        }
        let res = d.train(addrs);
        self.discs.insert(di, (lab, d));
        proof {
            hr0.remove(di as int).insert_ensures(di as int, (lab, d));
            hr0.remove_ensures(di as int);
            assert forall|j: int| 0 <= j < self.discs@.len() implies #[trigger] discs_view(
                self.discs@,
            )[j] == discs1.update(di as int, (lab@, d@))[j] by {}
            assert(discs_view(self.discs@) =~= discs1.update(di as int, (lab@, d@)));
            if ga.len() < num as nat {
                assert(discs1.update(di as int, (lab@, d@)) =~= discs1);
            }
            let s_spec = mapped_seq(v0.mapping, data@);
            let e = encode_all(v0.rank_table, chunks_of(s_spec, v0.addr_length as nat));
            assert(ga == e.1);
            assert(self@.rank_table == e.0);
            assert(lab@ == label@);
            let dib = match disc_index_of(discs1, label@) {
                Some(i) => i,
                None => 0int,
            };
            assert(dib == di as int);
            if e.1.len() >= v0.number_of_hashtables as nat {
                assert(res is Ok);
                assert(d@ == trained_view(discs1[dib].1, e.1));
                assert(self@.discs == discs1.update(
                    dib,
                    (label@, trained_view(discs1[dib].1, e.1)),
                ));
            } else {
                assert(res == Err::<(), WisardError>(WisardError::WisardOutOfBounds));
                assert(self@.discs == discs1);
            }
        }
        res
    }

    /// Classifies a sample: it is read through the feature mapping and
    /// rank-encoded without growing the rank table, every discriminator
    /// votes, and the label whose discriminator got the most votes is
    /// returned; of labels tied at the maximum, the one trained into the
    /// network last wins. A network with no discriminators, a sample the
    /// mapping cannot address, and a sample yielding fewer windows than
    /// there are hashtables are all rejected, and nothing is mutated.
    pub fn classify(&self, data: Vec<u64>) -> (r: Result<String, WisardError>)
        requires
            self.wf(),
        ensures
            ({
                let v = self@;
                if !mapping_ok(v.mapping, data@.len()) {
                    r == Err::<String, WisardError>(WisardError::WisardOutOfBounds)
                } else {
                    let s = mapped_seq(v.mapping, data@);
                    let addrs = encode_frozen(v.rank_table, chunks_of(s, v.addr_length as nat));
                    if v.discs.len() == 0 || addrs.len() < v.number_of_hashtables as nat {
                        r == Err::<String, WisardError>(WisardError::WisardOutOfBounds)
                    } else {
                        r matches Ok(l) && l@ == v.discs[winner_of(all_votes(v, addrs))].0
                    }
                }
            }),
    {
        let s: Vec<u64> = match map_samples(&self.mapping, &data) {
            Some(s) => s,
            None => {
                return Err(WisardError::WisardOutOfBounds);
            },
        };
        let addrs = encode_read(&self.rank_table, &s, self.addr_length);
        if self.discs.len() == 0 {
            return Err(WisardError::WisardOutOfBounds);
        }
        if addrs.len() < self.number_of_hashtables as usize {
            return Err(WisardError::WisardOutOfBounds);
        }
        let votes = self.tally_votes(&addrs);
        let wi = argmax_last(&votes);
        Ok(self.discs[wi].0.clone())
    }

    /// Classifies a sample and reports, beside the winning label, its vote
    /// count and the best vote count among the other discriminators, from
    /// which callers derive score and confidence figures. Fewer than two
    /// discriminators are rejected, as are the samples `classify` rejects.
    pub fn classify_counts(&self, data: Vec<u64>) -> (r: Result<
        (String, u64, u64),
        WisardError,
    >)
        requires
            self.wf(),
        ensures
            ({
                let v = self@;
                if !mapping_ok(v.mapping, data@.len()) {
                    r == Err::<(String, u64, u64), WisardError>(WisardError::WisardOutOfBounds)
                } else {
                    let s = mapped_seq(v.mapping, data@);
                    let addrs = encode_frozen(v.rank_table, chunks_of(s, v.addr_length as nat));
                    if v.discs.len() < 2 || addrs.len() < v.number_of_hashtables as nat {
                        r == Err::<(String, u64, u64), WisardError>(
                            WisardError::WisardOutOfBounds,
                        )
                    } else {
                        let vs = all_votes(v, addrs);
                        let wi = winner_of(vs);
                        r matches Ok(t) && t.0@ == v.discs[wi].0 && t.1 == vs[wi] && t.2
                            == max_excluding(vs, wi)
                    }
                }
            }),
    {
        let s: Vec<u64> = match map_samples(&self.mapping, &data) {
            Some(s) => s,
            None => {
                return Err(WisardError::WisardOutOfBounds);
            },
        };
        let addrs = encode_read(&self.rank_table, &s, self.addr_length);
        if self.discs.len() < 2 {
            return Err(WisardError::WisardOutOfBounds);
        }
        if addrs.len() < self.number_of_hashtables as usize {
            return Err(WisardError::WisardOutOfBounds);
        }
        let votes = self.tally_votes(&addrs);
        let wi = argmax_last(&votes);
        let top = votes[wi];
        let second = max_outside(&votes, wi);
        Ok((self.discs[wi].0.clone(), top, second))
    }

    /// Whether every discriminator still has room for one more training
    /// pass, as `train` demands of its callers.
    pub fn can_train_more(&self) -> (r: bool)
        ensures
            r == can_train(self@),
    {
        let mut i: usize = 0;
        while i < self.discs.len()
            invariant
                i <= self@.discs.len(),
                forall|j: int|
                    0 <= j < i ==> (#[trigger] discs_view(self.discs@)[j]).1.times_trained
                        < u64::MAX,
            decreases self@.discs.len() - i,
        {
            let t = self.discs[i].1.trained_count();
            proof {
                assert(discs_view(self.discs@)[i as int] == (
                    self.discs@[i as int].0@,
                    self.discs@[i as int].1@,
                ));
            }
            if t == u64::MAX {
                return false;
            }
            i += 1;
        }
        true
    }

    /// Serializes the whole network state into one self-describing binary
    /// blob, exactly as the persistence format lays it out.
    pub fn save(&self) -> (r: Result<Vec<u8>, WisardError>)
        ensures
            r matches Ok(b) && b@ == crate::codec::spec_save(self@),
    {
        let mut ws: Vec<u64> = Vec::new();
        ws.push(self.discs.len() as u64);
        let mut i: usize = 0;
        proof {
            assert(crate::codec::discs_body_words(self@.discs.subrange(0, 0)) =~= Seq::<
                u64,
            >::empty());
            assert(ws@ + Seq::<u64>::empty() =~= ws@);
            assert(ws@ =~= seq![self@.discs.len() as u64]);
        }
        while i < self.discs.len()
            invariant
                i <= self@.discs.len(),
                self@.discs.len() == self.discs@.len(),
                ws@ == seq![self@.discs.len() as u64] + crate::codec::discs_body_words(
                    self@.discs.subrange(0, i as int),
                ),
            decreases self@.discs.len() - i,
        {
            let pair = &self.discs[i];
            proof {
                assert(discs_view(self.discs@)[i as int] == (
                    self.discs@[i as int].0@,
                    self.discs@[i as int].1@,
                ));
            }
            crate::codec::push_disc(&mut ws, &pair.0, &pair.1);
            proof {
                crate::codec::lemma_discs_body_snoc(
                    self@.discs.subrange(0, i as int),
                    self@.discs[i as int],
                );
                assert(self@.discs.subrange(0, i as int).push(self@.discs[i as int])
                    =~= self@.discs.subrange(0, i + 1));
            }
            i += 1;
        }
        proof {
            assert(self@.discs.subrange(0, self@.discs.len() as int) =~= self@.discs);
        }
        ws.push(self.addr_length as u64);
        ws.push(self.number_of_hashtables as u64);
        crate::codec::push_lenvec(&mut ws, &self.mapping);
        let rlen = self.rank_table.len() as u64;
        ws.push(rlen);
        ws.push(rlen);
        let ghost mid = ws@;
        let mut j: usize = 0;
        proof {
            assert(crate::codec::patterns_body_words(self@.rank_table.subrange(0, 0)) =~= Seq::<
                u64,
            >::empty());
            assert(mid + Seq::<u64>::empty() =~= mid);
        }
        while j < self.rank_table.len()
            invariant
                j <= self@.rank_table.len(),
                self@.rank_table.len() == self.rank_table@.len(),
                self@.rank_table == table_view(self.rank_table@),
                ws@ == mid + crate::codec::patterns_body_words(
                    self@.rank_table.subrange(0, j as int),
                ),
            decreases self@.rank_table.len() - j,
        {
            proof {
                assert(table_view(self.rank_table@)[j as int] == self.rank_table@[j as int]@);
            }
            crate::codec::push_lenvec(&mut ws, &self.rank_table[j]);
            proof {
                crate::codec::lemma_patterns_body_snoc(
                    self@.rank_table.subrange(0, j as int),
                    self@.rank_table[j as int],
                );
                assert(self@.rank_table.subrange(0, j as int).push(self@.rank_table[j as int])
                    =~= self@.rank_table.subrange(0, j + 1));
            }
            j += 1;
        }
        proof {
            assert(self@.rank_table.subrange(0, self@.rank_table.len() as int)
                =~= self@.rank_table);
        }
        ws.push(self.bleach as u64);
        ws.push(self.target_size.0 as u64);
        ws.push(self.target_size.1 as u64);
        proof {
            assert(ws@ =~= crate::codec::network_words(self@));
        }
        Ok(crate::codec::bytes_of_words(&ws))
    }

    /// Replaces the whole network state with the one a persisted blob
    /// describes. A blob that does not decode to a well-formed state is
    /// rejected and the network is left untouched.
    pub fn load(&mut self, stream: &[u8]) -> (r: Result<(), WisardError>)
        ensures
            match crate::codec::spec_load(stream@) {
                Some(v) => r is Ok && final(self)@ == v && final(self).wf(),
                None => r == Err::<(), WisardError>(WisardError::WisardSerializationError)
                    && final(self)@ == old(self)@,
            },
    {
        let ws: Vec<u64> = match crate::codec::words_of_bytes(stream) {
            Some(w) => w,
            None => {
                return Err(WisardError::WisardSerializationError);
            },
        };
        let mut pos: usize = 0;
        let dcount: u64 = match crate::codec::read_word(&ws, &mut pos) {
            Some(x) => x,
            None => {
                return Err(WisardError::WisardSerializationError);
            },
        };
        let discs: Vec<(String, Discriminator)> = match crate::codec::read_discs_n(
            &ws,
            &mut pos,
            dcount,
        ) {
            Some(d) => d,
            None => {
                return Err(WisardError::WisardSerializationError);
            },
        };
        let addrw: u64 = match crate::codec::read_word(&ws, &mut pos) {
            Some(x) => x,
            None => {
                return Err(WisardError::WisardSerializationError);
            },
        };
        let numw: u64 = match crate::codec::read_word(&ws, &mut pos) {
            Some(x) => x,
            None => {
                return Err(WisardError::WisardSerializationError);
            },
        };
        let mapping: Vec<u64> = match crate::codec::read_lenvec(&ws, &mut pos) {
            Some(m) => m,
            None => {
                return Err(WisardError::WisardSerializationError);
            },
        };
        let lastr: u64 = match crate::codec::read_word(&ws, &mut pos) {
            Some(x) => x,
            None => {
                return Err(WisardError::WisardSerializationError);
            },
        };
        let pcount: u64 = match crate::codec::read_word(&ws, &mut pos) {
            Some(x) => x,
            None => {
                return Err(WisardError::WisardSerializationError);
            },
        };
        let patterns: Vec<Vec<u64>> = match crate::codec::read_patterns_n(&ws, &mut pos, pcount) {
            Some(p) => p,
            None => {
                return Err(WisardError::WisardSerializationError);
            },
        };
        let bleachw: u64 = match crate::codec::read_word(&ws, &mut pos) {
            Some(x) => x,
            None => {
                return Err(WisardError::WisardSerializationError);
            },
        };
        let tw: u64 = match crate::codec::read_word(&ws, &mut pos) {
            Some(x) => x,
            None => {
                return Err(WisardError::WisardSerializationError);
            },
        };
        let th: u64 = match crate::codec::read_word(&ws, &mut pos) {
            Some(x) => x,
            None => {
                return Err(WisardError::WisardSerializationError);
            },
        };
        if pos != ws.len() || addrw == 0 || addrw > 0xffff || numw > 0xffff || bleachw > 0xffff
            || tw > 0xffffffff || th > 0xffffffff || lastr != pcount {
            return Err(WisardError::WisardSerializationError);
        }
        let mut all_match = true;
        let mut q: usize = 0;
        while q < discs.len()
            invariant
                q <= discs@.len(),
                numw <= 0xffff,
                all_match == (forall|x: int|
                    0 <= x < q ==> (#[trigger] discs_view(discs@)[x]).1.number_of_hashtables
                        == numw as u16),
            decreases discs@.len() - q,
        {
            let hc = discs[q].1.hashtable_count();
            proof {
                assert(discs_view(discs@)[q as int] == (discs@[q as int].0@, discs@[q as int].1@));
            }
            if hc != numw as u16 {
                all_match = false;
            }
            proof {
                if all_match {
                    assert forall|x: int| 0 <= x < q + 1 implies (
                    #[trigger] discs_view(discs@)[x]).1.number_of_hashtables == numw as u16 by {}
                }
            }
            q += 1;
        }
        if !all_match {
            return Err(WisardError::WisardSerializationError);
        }
        self.discs = discs;
        self.addr_length = addrw as u16;
        self.number_of_hashtables = numw as u16;
        self.mapping = mapping;
        self.rank_table = patterns;
        self.bleach = bleachw as u16;
        self.target_size = (tw as u32, th as u32);
        proof {
            assert(stream@.len() % 8 == 0);
            assert(ws@ == crate::codec::bytes_words(stream@));
            let got = crate::codec::p_network(ws@);
            crate::codec::lemma_p_discs_n_wf(ws@, 1, dcount as int);
            assert(got is Some);
            assert(self@ == got.unwrap());
            assert(net_wf(self@));
        }
        Ok(())
    }

    /// Every discriminator's vote count against one address sequence, in
    /// creation order.
    fn tally_votes(&self, addrs: &Vec<u64>) -> (r: Vec<u64>)
        requires
            self.wf(),
            addrs@.len() >= self@.number_of_hashtables as nat,
        ensures
            r@ == all_votes(self@, addrs@),
    {
        let mut votes: Vec<u64> = Vec::new();
        let mut k: usize = 0;
        while k < self.discs.len()
            invariant
                k <= self@.discs.len(),
                self.wf(),
                addrs@.len() >= self@.number_of_hashtables as nat,
                votes@.len() == k,
                forall|j: int| 0 <= j < k ==> votes@[j] == all_votes(self@, addrs@)[j],
            decreases self@.discs.len() - k,
        {
            proof {
                assert(discs_view(self.discs@)[k as int] == (
                    self.discs@[k as int].0@,
                    self.discs@[k as int].1@,
                ));
            }
            let pair = self.discs[k].1.classify(addrs, self.bleach);
            votes.push(pair.0);
            k += 1;
        }
        proof {
            assert(votes@ =~= all_votes(self@, addrs@));
        }
        votes
    }
}

} // verus!
