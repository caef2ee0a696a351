//! What holds of units that were put in order: they are in order, they are the
//! units that came, units of the same rank stand as they came, and no other
//! sequence of units is all of that.
use vstd::prelude::*;
use vstd::seq_lib::{to_multiset_build, to_multiset_contains, to_multiset_insert};
use crate::domain::service::ServiceView;
use crate::usecases::first_seen_lemmas::{lemma_names_push, lemma_place_of_distinct};
use crate::usecases::listing::{arranged, first_place, names};
use crate::usecases::ordering::{comes_before, in_order, rank_before, rank_of, ranks_of, slot, Rank};
use crate::usecases::ordering::{lemma_rank_before_asymmetric, lemma_rank_before_total, lemma_slot};
use crate::usecases::ordering::{lemma_slot_is, lemma_slot_keeps_order};

verus! {

/// The ranks of units with one more unit put in are the ranks of the units
/// with that unit's rank put in at the same place.
proof fn lemma_ranks_of_insert(
    units: Seq<ServiceView>,
    at: int,
    unit: ServiceView,
    user_config_path: Seq<char>,
)
    requires
        0 <= at <= units.len(),
    ensures
        ranks_of(units.insert(at, unit), user_config_path) == ranks_of(
            units,
            user_config_path,
        ).insert(at, rank_of(unit, user_config_path)),
{
    assert(ranks_of(units.insert(at, unit), user_config_path) =~= ranks_of(
        units,
        user_config_path,
    ).insert(at, rank_of(unit, user_config_path)));
}

/// Units that were put in order are in order: no unit stands behind one that
/// it comes before.
pub proof fn lemma_arranged_in_order(units: Seq<ServiceView>, user_config_path: Seq<char>)
    ensures
        in_order(ranks_of(arranged(units, user_config_path), user_config_path)),
        forall|i: int, j: int|
            0 <= i < j < arranged(units, user_config_path).len() ==> !comes_before(
                #[trigger] arranged(units, user_config_path)[j],
                #[trigger] arranged(units, user_config_path)[i],
                user_config_path,
            ),
    decreases units.len(),
{
    let listing = arranged(units, user_config_path);
    if units.len() > 0 {
        let earlier = arranged(units.drop_last(), user_config_path);
        let rank = rank_of(units.last(), user_config_path);
        lemma_arranged_in_order(units.drop_last(), user_config_path);
        lemma_slot(ranks_of(earlier, user_config_path), rank);
        lemma_slot_keeps_order(ranks_of(earlier, user_config_path), rank);
        lemma_ranks_of_insert(
            earlier,
            slot(ranks_of(earlier, user_config_path), rank) as int,
            units.last(),
            user_config_path,
        );
    }
    let ranks = ranks_of(listing, user_config_path);
    assert forall|i: int, j: int| 0 <= i < j < listing.len() implies !comes_before(
        #[trigger] listing[j],
        #[trigger] listing[i],
        user_config_path,
    ) by {
        assert(!rank_before(ranks[j], ranks[i]));
    }
}

/// Putting units in order neither adds a unit nor loses one.
pub proof fn lemma_arranged_permutes(units: Seq<ServiceView>, user_config_path: Seq<char>)
    ensures
        arranged(units, user_config_path).to_multiset() == units.to_multiset(),
        arranged(units, user_config_path).len() == units.len(),
    decreases units.len(),
{
    if units.len() > 0 {
        let earlier = arranged(units.drop_last(), user_config_path);
        let rank = rank_of(units.last(), user_config_path);
        lemma_arranged_permutes(units.drop_last(), user_config_path);
        lemma_slot(ranks_of(earlier, user_config_path), rank);
        to_multiset_insert(
            earlier,
            slot(ranks_of(earlier, user_config_path), rank) as int,
            units.last(),
        );
        to_multiset_build(units.drop_last(), units.last());
        assert(units.drop_last().push(units.last()) =~= units);
    }
}

/// Units that were put in order hold the units that came, and no other.
pub proof fn lemma_arranged_holds(units: Seq<ServiceView>, user_config_path: Seq<char>)
    ensures
        forall|unit: ServiceView|
            #![trigger arranged(units, user_config_path).contains(unit)]
            #![trigger units.contains(unit)]
            arranged(units, user_config_path).contains(unit) <==> units.contains(unit),
{
    lemma_arranged_permutes(units, user_config_path);
    assert forall|unit: ServiceView|
        #![trigger arranged(units, user_config_path).contains(unit)]
        #![trigger units.contains(unit)]
        arranged(units, user_config_path).contains(unit) <==> units.contains(unit) by {
        to_multiset_contains(arranged(units, user_config_path), unit);
        to_multiset_contains(units, unit);
    }
}

/// Putting units in order keeps their names apart.
pub proof fn lemma_arranged_names(units: Seq<ServiceView>, user_config_path: Seq<char>)
    requires
        names(units).no_duplicates(),
    ensures
        names(arranged(units, user_config_path)).no_duplicates(),
        forall|name: Seq<char>|
            #![trigger names(units).contains(name)]
            names(arranged(units, user_config_path)).contains(name) <==> names(units).contains(name),
    decreases units.len(),
{
    let listing = arranged(units, user_config_path);
    if units.len() > 0 {
        let front = units.drop_last();
        let last = units.last();
        let earlier = arranged(front, user_config_path);
        let at = slot(ranks_of(earlier, user_config_path), rank_of(last, user_config_path)) as int;
        assert forall|i: int, j: int| 0 <= i < j < names(front).len() implies names(front)[i]
            != names(front)[j] by {
            assert(names(front)[i] == names(units)[i] && names(front)[j] == names(units)[j]);
        }
        lemma_arranged_names(front, user_config_path);
        lemma_slot(ranks_of(earlier, user_config_path), rank_of(last, user_config_path));
        lemma_arranged_permutes(front, user_config_path);
        assert(front.push(last) =~= units);
        lemma_names_push(front, last);
        assert(names(listing) =~= names(earlier).insert(at, last.name));
        if names(front).contains(last.name) {
            let i = choose|i: int| 0 <= i < names(front).len() && names(front)[i] == last.name;
            assert(names(units)[i] == names(units)[units.len() - 1]);
        }
        assert(names(front).contains(last.name) == names(earlier).contains(last.name));
        assert forall|i: int, j: int| 0 <= i < j < names(listing).len() implies names(listing)[i]
            != names(listing)[j] by {
            let from_i = if i < at { i } else { i - 1 };
            let from_j = if j < at { j } else { j - 1 };
            if i == at {
                assert(names(listing)[j] == names(earlier)[from_j]);
            } else if j == at {
                assert(names(listing)[i] == names(earlier)[from_i]);
            } else {
                assert(names(listing)[i] == names(earlier)[from_i]);
                assert(names(listing)[j] == names(earlier)[from_j]);
            }
        }
        assert forall|name: Seq<char>|
            #![trigger names(units).contains(name)]
            names(listing).contains(name) <==> names(units).contains(name) by {
            if names(listing).contains(name) {
                let i = choose|i: int| 0 <= i < names(listing).len() && names(listing)[i] == name;
                if i != at {
                    let from_i = if i < at { i } else { i - 1 };
                    assert(names(earlier)[from_i] == name);
                    assert(names(front).contains(name));
                }
            }
            if names(units).contains(name) {
                if name == last.name {
                    assert(names(listing)[at] == name);
                } else {
                    assert(names(front).contains(name));
                    assert(names(earlier).contains(name));
                    let i = choose|i: int| 0 <= i < names(earlier).len() && names(earlier)[i] == name;
                    let to_i = if i < at { i } else { i + 1 };
                    assert(names(listing)[to_i] == name);
                }
            }
        }
    }
}

/// What holds of the units of the rank `rank`, and of no other unit.
pub open spec fn of_rank(rank: Rank, user_config_path: Seq<char>) -> spec_fn(ServiceView) -> bool {
    |unit: ServiceView| rank_of(unit, user_config_path) == rank
}

/// Putting units in order is stable: the units of any one rank stand in the
/// order in which they came.
pub proof fn lemma_arranged_stable(units: Seq<ServiceView>, user_config_path: Seq<char>, rank: Rank)
    ensures
        arranged(units, user_config_path).filter(of_rank(rank, user_config_path)) == units.filter(
            of_rank(rank, user_config_path),
        ),
    decreases units.len(),
{
    let of_rank = of_rank(rank, user_config_path);
    if units.len() > 0 {
        let front = units.drop_last();
        let last = units.last();
        let earlier = arranged(front, user_config_path);
        let ranks = ranks_of(earlier, user_config_path);
        let at = slot(ranks, rank_of(last, user_config_path)) as int;
        lemma_arranged_stable(front, user_config_path, rank);
        lemma_slot(ranks, rank_of(last, user_config_path));
        let ahead = earlier.subrange(0, at);
        let behind = earlier.subrange(at, earlier.len() as int);
        assert(earlier =~= ahead + behind);
        assert(earlier.insert(at, last) =~= ahead.push(last) + behind);
        Seq::filter_distributes_over_add(ahead, behind, of_rank);
        Seq::filter_distributes_over_add(ahead.push(last), behind, of_rank);
        ahead.lemma_filter_push(last, of_rank);
        assert(front.push(last) =~= units);
        front.lemma_filter_push(last, of_rank);
        if of_rank(last) {
            assert forall|i: int| 0 <= i < behind.len() implies !of_rank(#[trigger] behind[i]) by {
                assert(behind[i] == earlier[at + i]);
                assert(ranks[at + i] == rank_of(earlier[at + i], user_config_path));
                lemma_rank_before_asymmetric(rank, ranks[at + i]);
            }
            behind.lemma_all_neg_filter_empty(of_rank);
            assert(behind.filter(of_rank) =~= Seq::<ServiceView>::empty());
            assert(ahead.filter(of_rank) + Seq::<ServiceView>::empty() =~= ahead.filter(of_rank));
            assert(ahead.filter(of_rank).push(last) + Seq::<ServiceView>::empty()
                =~= ahead.filter(of_rank).push(last));
        }
    }
}

/// Of two units of the same rank, putting units in order leaves the one in
/// front that came first.
pub proof fn lemma_arranged_ties(units: Seq<ServiceView>, user_config_path: Seq<char>)
    requires
        names(units).no_duplicates(),
    ensures
        forall|i: int, j: int|
            0 <= i < j < arranged(units, user_config_path).len() && rank_of(
                #[trigger] arranged(units, user_config_path)[i],
                user_config_path,
            ) == rank_of(#[trigger] arranged(units, user_config_path)[j], user_config_path)
                ==> first_place(units, arranged(units, user_config_path)[i].name) < first_place(
                units,
                arranged(units, user_config_path)[j].name,
            ),
    decreases units.len(),
{
    let listing = arranged(units, user_config_path);
    if units.len() > 0 {
        let front = units.drop_last();
        let last = units.last();
        let earlier = arranged(front, user_config_path);
        let ranks = ranks_of(earlier, user_config_path);
        let at = slot(ranks, rank_of(last, user_config_path)) as int;
        assert forall|i: int, j: int| 0 <= i < j < names(front).len() implies names(front)[i]
            != names(front)[j] by {
            assert(names(front)[i] == names(units)[i] && names(front)[j] == names(units)[j]);
        }
        lemma_arranged_ties(front, user_config_path);
        lemma_slot(ranks, rank_of(last, user_config_path));
        lemma_arranged_holds(front, user_config_path);
        lemma_arranged_permutes(front, user_config_path);
        lemma_place_of_distinct(units, units.len() - 1);
        assert forall|k: int| 0 <= k < earlier.len() implies first_place(
            units,
            (#[trigger] earlier[k]).name,
        ) == first_place(front, earlier[k].name) && first_place(front, earlier[k].name)
            < front.len() by {
            assert(earlier.contains(earlier[k]));
            assert(front.contains(earlier[k]));
            let place = choose|place: int| 0 <= place < front.len() && front[place] == earlier[k];
            assert(units[place] == front[place]);
            lemma_place_of_distinct(front, place);
            lemma_place_of_distinct(units, place);
        }
        assert forall|i: int, j: int|
            0 <= i < j < listing.len() && rank_of(#[trigger] listing[i], user_config_path)
                == rank_of(#[trigger] listing[j], user_config_path) implies first_place(
            units,
            listing[i].name,
        ) < first_place(units, listing[j].name) by {
            let from_i = if i < at { i } else { i - 1 };
            let from_j = if j < at { j } else { j - 1 };
            if i == at {
                assert(listing[j] == earlier[from_j]);
                assert(ranks[from_j] == rank_of(earlier[from_j], user_config_path));
                lemma_rank_before_asymmetric(ranks[from_j], ranks[from_j]);
            } else if j == at {
                assert(listing[i] == earlier[from_i]);
            } else {
                assert(listing[i] == earlier[from_i] && listing[j] == earlier[from_j]);
            }
        }
    }
}

/// Units that are in order stay as they are when they are put in order.
pub proof fn lemma_arranged_of_ordered(units: Seq<ServiceView>, user_config_path: Seq<char>)
    requires
        in_order(ranks_of(units, user_config_path)),
    ensures
        arranged(units, user_config_path) == units,
    decreases units.len(),
{
    if units.len() > 0 {
        let front = units.drop_last();
        let ranks = ranks_of(front, user_config_path);
        let rank = rank_of(units.last(), user_config_path);
        assert forall|i: int, j: int| 0 <= i < j < ranks.len() implies !rank_before(
            ranks[j],
            ranks[i],
        ) by {
            let longer = ranks_of(units, user_config_path);
            assert(ranks[i] == longer[i] && ranks[j] == longer[j]);
        }
        lemma_arranged_of_ordered(front, user_config_path);
        if ranks.len() > 0 {
            assert(ranks.last() == ranks_of(units, user_config_path)[units.len() - 2]);
            assert(rank == ranks_of(units, user_config_path)[units.len() - 1]);
        }
        assert(slot(ranks, rank) == front.len());
        assert(front.insert(front.len() as int, units.last()) =~= units);
    }
}

/// The last of the units that `wanted` holds of: where it stands, that no such
/// unit stands behind it, and that without it the others are left as they
/// were.
proof fn lemma_last_wanted(units: Seq<ServiceView>, wanted: spec_fn(ServiceView) -> bool) -> (place:
    int)
    requires
        units.filter(wanted).len() > 0,
    ensures
        0 <= place < units.len(),
        wanted(units[place]),
        forall|behind: int| place < behind < units.len() ==> !wanted(#[trigger] units[behind]),
        units.filter(wanted).last() == units[place],
        units.remove(place).filter(wanted) == units.filter(wanted).drop_last(),
    decreases units.len(),
{
    reveal(Seq::filter);
    let front = units.drop_last();
    let last = units.last();
    assert(front.push(last) =~= units);
    if wanted(last) {
        assert(units.remove(units.len() - 1) =~= front);
        assert(front.filter(wanted).push(last).drop_last() =~= front.filter(wanted));
        units.len() - 1
    } else {
        let place = lemma_last_wanted(front, wanted);
        assert(units.remove(place) =~= front.remove(place).push(last));
        front.remove(place).lemma_filter_push(last, wanted);
        assert forall|behind: int| place < behind < units.len() implies !wanted(
            #[trigger] units[behind],
        ) by {
            if behind < front.len() {
                assert(units[behind] == front[behind]);
            }
        }
        place
    }
}

/// Taking out a unit that `wanted` does not hold of leaves the units that it
/// holds of as they were.
proof fn lemma_remove_unwanted(
    units: Seq<ServiceView>,
    place: int,
    wanted: spec_fn(ServiceView) -> bool,
)
    requires
        0 <= place < units.len(),
        !wanted(units[place]),
    ensures
        units.remove(place).filter(wanted) == units.filter(wanted),
{
    let ahead = units.subrange(0, place);
    let behind = units.subrange(place + 1, units.len() as int);
    assert(units =~= ahead.push(units[place]) + behind);
    assert(units.remove(place) =~= ahead + behind);
    Seq::filter_distributes_over_add(ahead, behind, wanted);
    Seq::filter_distributes_over_add(ahead.push(units[place]), behind, wanted);
    ahead.lemma_filter_push(units[place], wanted);
}

/// There is one stable order only: a sequence that is in order and holds, of
/// every rank, the units of `units` of that rank in the order in which they
/// came, is `units` put in order by [`arranged`].
pub proof fn lemma_stable_order_is_arranged(
    units: Seq<ServiceView>,
    listing: Seq<ServiceView>,
    user_config_path: Seq<char>,
)
    requires
        in_order(ranks_of(listing, user_config_path)),
        forall|rank: Rank|
            #[trigger] listing.filter(of_rank(rank, user_config_path)) == units.filter(
                of_rank(rank, user_config_path),
            ),
    ensures
        listing == arranged(units, user_config_path),
    decreases units.len(),
{
    if units.len() == 0 {
        if listing.len() > 0 {
            let wanted = of_rank(rank_of(listing[0], user_config_path), user_config_path);
            listing.lemma_filter_contains(wanted, 0);
            assert(listing.filter(wanted) == units.filter(wanted));
            assert(units.filter(wanted).len() == 0) by {
                reveal(Seq::filter);
            }
        }
        assert(listing =~= units);
    } else {
        let front = units.drop_last();
        let last = units.last();
        let rank = rank_of(last, user_config_path);
        let wanted = of_rank(rank, user_config_path);
        let ranks = ranks_of(listing, user_config_path);
        assert(front.push(last) =~= units);
        front.lemma_filter_push(last, wanted);
        assert(listing.filter(wanted) == units.filter(wanted));
        let place = lemma_last_wanted(listing, wanted);
        assert(listing[place] == last);
        let others = listing.remove(place);
        let other_ranks = ranks_of(others, user_config_path);
        assert(front.filter(wanted).push(last).drop_last() =~= front.filter(wanted));
        assert forall|other: Rank| #[trigger]
            others.filter(of_rank(other, user_config_path)) == front.filter(
                of_rank(other, user_config_path),
            ) by {
            let of_other = of_rank(other, user_config_path);
            assert(listing.filter(of_other) == units.filter(of_other));
            if other != rank {
                lemma_remove_unwanted(listing, place, of_other);
                front.lemma_filter_push(last, of_other);
            }
        }
        assert forall|i: int, j: int| 0 <= i < j < other_ranks.len() implies !rank_before(
            other_ranks[j],
            other_ranks[i],
        ) by {
            let from_i = if i < place { i } else { i + 1 };
            let from_j = if j < place { j } else { j + 1 };
            assert(other_ranks[i] == ranks[from_i] && other_ranks[j] == ranks[from_j]);
        }
        lemma_stable_order_is_arranged(front, others, user_config_path);
        assert forall|i: int| 0 <= i < place implies !rank_before(rank, #[trigger] other_ranks[i]) by {
            assert(other_ranks[i] == ranks[i] && ranks[place] == rank);
        }
        assert forall|j: int| place <= j < other_ranks.len() implies rank_before(
            rank,
            #[trigger] other_ranks[j],
        ) by {
            assert(other_ranks[j] == ranks[j + 1] && ranks[place] == rank);
            assert(!wanted(listing[j + 1]));
            lemma_rank_before_total(rank, ranks[j + 1]);
        }
        lemma_slot_is(other_ranks, rank, place);
        assert(others.insert(place, last) =~= listing);
    }
}

} // verus!
