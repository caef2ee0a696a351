//! The order of a listing: by what a unit is ranked, and where a unit goes
//! among units that are already in order.
use vstd::prelude::*;
use crate::domain::service::{Service, ServiceView};
use crate::text::{is_before, lowercase, lowercase_chars, chars_of, starts_with, text_before};
use crate::text::{lemma_text_before_irreflexive, lemma_text_before_total, lemma_text_before_transitive};

verus! {

/// What a unit is ranked by: whether its definition lies under the user's own
/// configuration directory, and its name in lower case.
pub ghost struct Rank {
    pub user_config: bool,
    pub folded_name: Seq<char>,
}

/// The rank of `unit`, where `user_config_path` is the user's own
/// configuration directory.
pub open spec fn rank_of(unit: ServiceView, user_config_path: Seq<char>) -> Rank {
    Rank {
        user_config: user_config_path.is_prefix_of(unit.state.path),
        folded_name: lowercase(unit.name),
    }
}

/// The ranks of `units`, one for one.
pub open spec fn ranks_of(units: Seq<ServiceView>, user_config_path: Seq<char>) -> Seq<Rank> {
    Seq::new(units.len(), |i: int| rank_of(units[i], user_config_path))
}

/// Whether rank `a` is strictly ahead of rank `b`: a unit of the user's own
/// configuration is ahead of every other unit, and of two units on the same
/// side the one whose lower-case name comes first is ahead.
pub open spec fn rank_before(a: Rank, b: Rank) -> bool {
    ||| a.user_config && !b.user_config
    ||| a.user_config == b.user_config && text_before(a.folded_name, b.folded_name)
}

/// Whether `a` is strictly ahead of `b` in a listing.
pub open spec fn comes_before(a: ServiceView, b: ServiceView, user_config_path: Seq<char>) -> bool {
    rank_before(rank_of(a, user_config_path), rank_of(b, user_config_path))
}

/// Whether no rank in `ranks` stands behind one that it is ahead of.
pub open spec fn in_order(ranks: Seq<Rank>) -> bool {
    forall|i: int, j: int| 0 <= i < j < ranks.len() ==> !rank_before(ranks[j], ranks[i])
}

/// Where `rank` goes among `ranks`: behind the last rank that it is not ahead
/// of, and so behind every rank equal to it.
pub open spec fn slot(ranks: Seq<Rank>, rank: Rank) -> nat
    decreases ranks.len(),
{
    if ranks.len() == 0 || !rank_before(rank, ranks.last()) {
        ranks.len()
    } else {
        slot(ranks.drop_last(), rank)
    }
}

/// No rank is ahead of itself, and of two ranks at most one is ahead of the
/// other.
pub proof fn lemma_rank_before_asymmetric(a: Rank, b: Rank)
    ensures
        !(rank_before(a, b) && rank_before(b, a)),
{
    if rank_before(a, b) && rank_before(b, a) {
        lemma_text_before_transitive(a.folded_name, b.folded_name, a.folded_name);
        lemma_text_before_irreflexive(a.folded_name);
    }
}

/// Being ahead is transitive.
pub proof fn lemma_rank_before_transitive(a: Rank, b: Rank, c: Rank)
    requires
        rank_before(a, b),
        rank_before(b, c),
    ensures
        rank_before(a, c),
{
    if a.user_config == b.user_config && b.user_config == c.user_config {
        lemma_text_before_transitive(a.folded_name, b.folded_name, c.folded_name);
    }
}

/// Of two different ranks one is ahead of the other.
pub proof fn lemma_rank_before_total(a: Rank, b: Rank)
    ensures
        a == b || rank_before(a, b) || rank_before(b, a),
{
    lemma_text_before_total(a.folded_name, b.folded_name);
}

/// Not being ahead is transitive too: the ranks are in a line.
pub proof fn lemma_rank_not_before_transitive(a: Rank, b: Rank, c: Rank)
    requires
        !rank_before(a, b),
        !rank_before(b, c),
    ensures
        !rank_before(a, c),
{
    lemma_rank_before_total(a, b);
    lemma_rank_before_total(b, c);
    if rank_before(a, c) {
        if a == b || b == c {
        } else {
            lemma_rank_before_transitive(c, b, a);
            lemma_rank_before_asymmetric(a, c);
        }
    }
}

/// What [`slot`] finds: every rank from the slot on has `rank` ahead of it,
/// and the rank just in front of the slot has not.
pub proof fn lemma_slot(ranks: Seq<Rank>, rank: Rank)
    ensures
        slot(ranks, rank) <= ranks.len(),
        forall|j: int| slot(ranks, rank) <= j < ranks.len() ==> rank_before(rank, #[trigger] ranks[j]),
        slot(ranks, rank) > 0 ==> !rank_before(rank, ranks[slot(ranks, rank) - 1]),
    decreases ranks.len(),
{
    if ranks.len() > 0 && rank_before(rank, ranks.last()) {
        let front = ranks.drop_last();
        lemma_slot(front, rank);
        assert forall|j: int| slot(ranks, rank) <= j < ranks.len() implies rank_before(
            rank,
            #[trigger] ranks[j],
        ) by {
            if j < front.len() {
                assert(ranks[j] == front[j]);
            }
        }
        if slot(ranks, rank) > 0 {
            assert(ranks[slot(ranks, rank) - 1] == front[slot(front, rank) - 1]);
        }
    }
}

/// In ranks that are in order, the slot of `rank` is the one place with, in
/// front of it, only ranks that `rank` is not ahead of and, from it on, only
/// ranks that `rank` is ahead of.
pub proof fn lemma_slot_is(ranks: Seq<Rank>, rank: Rank, at: int)
    requires
        0 <= at <= ranks.len(),
        forall|i: int| 0 <= i < at ==> !rank_before(rank, #[trigger] ranks[i]),
        forall|j: int| at <= j < ranks.len() ==> rank_before(rank, #[trigger] ranks[j]),
    ensures
        at == slot(ranks, rank),
{
    lemma_slot(ranks, rank);
    let found = slot(ranks, rank) as int;
    if at < found {
        assert(rank_before(rank, ranks[found - 1]));
    } else if found < at {
        assert(!rank_before(rank, ranks[at - 1]));
    }
}

/// Ranks that are in order stay in order when a rank is put into its slot.
pub proof fn lemma_slot_keeps_order(ranks: Seq<Rank>, rank: Rank)
    requires
        in_order(ranks),
    ensures
        in_order(ranks.insert(slot(ranks, rank) as int, rank)),
{
    lemma_slot(ranks, rank);
    let at = slot(ranks, rank) as int;
    let after = ranks.insert(at, rank);
    assert forall|i: int, j: int| 0 <= i < j < after.len() implies !rank_before(
        after[j],
        after[i],
    ) by {
        if j == at {
            // after[i] is in front of the slot
            if i < at - 1 {
                lemma_rank_not_before_transitive(rank, ranks[at - 1], ranks[i]);
            }
        } else if i == at {
            assert(after[j] == ranks[j - 1]);
            lemma_rank_before_asymmetric(rank, ranks[j - 1]);
        } else {
            let from_i = if i < at { i } else { i - 1 };
            let from_j = if j < at { j } else { j - 1 };
            assert(after[i] == ranks[from_i] && after[j] == ranks[from_j]);
        }
    }
}

/// The rank of one unit, computed once and kept beside the unit while the
/// listing is put in order.
pub struct SortKey {
    user_config: bool,
    folded_name: Vec<char>,
}

impl DeepView for SortKey {
    type V = Rank;

    closed spec fn deep_view(&self) -> Rank {
        Rank { user_config: self.user_config, folded_name: self.folded_name@ }
    }
}

impl SortKey {
    /// The rank of a unit with the lower-case name `folded_name`, of the
    /// user's own configuration or not.
    pub fn new(user_config: bool, folded_name: Vec<char>) -> (key: SortKey)
        ensures
            key.deep_view() == (Rank { user_config, folded_name: folded_name@ }),
    {
        SortKey { user_config, folded_name }
    }

    /// The rank of `unit`, where `user_config_path` is the user's own
    /// configuration directory.
    pub fn of(unit: &Service, user_config_path: &[char]) -> (key: SortKey)
        ensures
            key.deep_view() == rank_of(unit@, user_config_path@),
    {
        let path = chars_of(unit.state().path());
        SortKey::new(starts_with(path.as_slice(), user_config_path), lowercase_chars(unit.name()))
    }

    /// Whether this rank is strictly ahead of `other`.
    pub fn before(&self, other: &SortKey) -> (yes: bool)
        ensures
            yes == rank_before(self.deep_view(), other.deep_view()),
    {
        if self.user_config != other.user_config {
            self.user_config
        } else {
            is_before(self.folded_name.as_slice(), other.folded_name.as_slice())
        }
    }
}

/// The slot of `key` among `keys`, found by halving.
pub(crate) fn find_slot(keys: &Vec<SortKey>, key: &SortKey) -> (at: usize)
    requires
        in_order(keys.deep_view()),
    ensures
        at == slot(keys.deep_view(), key.deep_view()),
{
    let ghost ranks = keys.deep_view();
    let ghost rank = key.deep_view();
    let mut low: usize = 0;
    let mut high: usize = keys.len();
    while low < high
        invariant
            low <= high <= keys.len(),
            ranks == keys.deep_view(),
            rank == key.deep_view(),
            in_order(ranks),
            forall|i: int| 0 <= i < low ==> !rank_before(rank, #[trigger] ranks[i]),
            forall|j: int| high <= j < ranks.len() ==> rank_before(rank, #[trigger] ranks[j]),
        decreases high - low,
    {
        let middle: usize = low + (high - low) / 2;
        assert(ranks[middle as int] == keys@[middle as int].deep_view());
        if key.before(&keys[middle]) {
            assert forall|j: int| middle <= j < ranks.len() implies rank_before(
                rank,
                #[trigger] ranks[j],
            ) by {
                if middle < j && !rank_before(rank, ranks[j]) {
                    lemma_rank_not_before_transitive(rank, ranks[j], ranks[middle as int]);
                }
            }
            high = middle;
        } else {
            assert forall|i: int| 0 <= i < middle + 1 implies !rank_before(
                rank,
                #[trigger] ranks[i],
            ) by {
                if i < middle {
                    lemma_rank_not_before_transitive(rank, ranks[middle as int], ranks[i]);
                }
            }
            low = middle + 1;
        }
    }
    proof {
        lemma_slot_is(ranks, rank, low as int);
    }
    low
}

} // verus!
