//! What holds of every listing: which units it shows, which of two units of
//! one name it shows, in what order, and that all of this leaves no choice.
use vstd::prelude::*;
use crate::domain::service::ServiceView;
use crate::text::text_before;
use crate::usecases::first_seen_lemmas::is_first_of_its_name;
use crate::usecases::first_seen_lemmas::{lemma_first_named, lemma_first_named_in_front, lemma_kept};
use crate::usecases::first_seen_lemmas::{lemma_first_seen_of_distinct, lemma_kept_order};
use crate::usecases::first_seen_lemmas::{lemma_place_of_distinct, lemma_retained_all};
use crate::usecases::listing::{arranged, canonical_listing, first_named, first_place, first_seen};
use crate::usecases::listing::{is_first_named, is_listing_of, is_service_name, listed_before, names};
use crate::usecases::listing::retained;
use crate::usecases::order_lemmas::{lemma_arranged_holds, lemma_arranged_in_order, lemma_arranged_names};
use crate::usecases::order_lemmas::{lemma_arranged_of_ordered, lemma_arranged_stable};
use crate::usecases::order_lemmas::{lemma_arranged_ties, of_rank};
use crate::usecases::ordering::{comes_before, rank_before, rank_of, Rank};
use crate::usecases::ordering::{lemma_rank_before_asymmetric, lemma_rank_before_total};

verus! {

/// The names of a listing: no name occurs twice, and the names that occur are
/// the names of the units of the two enumerations, without those that the
/// filter leaves out.
pub proof fn lemma_listing_names(
    runtime: Seq<ServiceView>,
    files: Seq<ServiceView>,
    filter: bool,
    user_config_path: Seq<char>,
)
    ensures
        names(canonical_listing(runtime, files, filter, user_config_path)).no_duplicates(),
        forall|name: Seq<char>|
            #![trigger names(runtime + files).contains(name)]
            names(canonical_listing(runtime, files, filter, user_config_path)).contains(name) <==> {
                &&& names(runtime + files).contains(name)
                &&& filter ==> is_service_name(name)
            },
{
    let kept = first_seen(retained(runtime + files, filter));
    let listing = canonical_listing(runtime, files, filter, user_config_path);
    lemma_kept(runtime + files, filter);
    lemma_arranged_names(kept, user_config_path);
    assert forall|name: Seq<char>|
        #![trigger names(runtime + files).contains(name)]
        names(listing).contains(name) <==> {
            &&& names(runtime + files).contains(name)
            &&& filter ==> is_service_name(name)
        } by {
        assert(names(listing).contains(name) <==> names(kept).contains(name));
        if names(kept).contains(name) {
            let k = choose|k: int| 0 <= k < names(kept).len() && names(kept)[k] == name;
            let unit = kept[k];
            assert(is_first_of_its_name(runtime + files, unit));
            let place = choose|place: int|
                is_first_named(runtime + files, place, unit.name) && (runtime + files)[place]
                    == unit;
            assert(names(runtime + files)[place] == name);
        }
    }
}

/// First seen wins: every unit of a listing is the first unit of its name
/// among the units of `runtime` followed by those of `files`. So where a unit
/// of `runtime` has the name, the listing shows the first such unit of
/// `runtime`, whatever `files` holds under that name.
pub proof fn lemma_first_seen_wins(
    runtime: Seq<ServiceView>,
    files: Seq<ServiceView>,
    filter: bool,
    user_config_path: Seq<char>,
)
    ensures
        forall|k: int|
            0 <= k < canonical_listing(runtime, files, filter, user_config_path).len() ==> {
                let unit = #[trigger] canonical_listing(runtime, files, filter, user_config_path)[k];
                &&& unit == first_named(runtime + files, unit.name)
                &&& names(runtime).contains(unit.name) ==> unit == first_named(runtime, unit.name)
                    && runtime.contains(unit)
            },
{
    let kept = first_seen(retained(runtime + files, filter));
    let listing = canonical_listing(runtime, files, filter, user_config_path);
    lemma_kept(runtime + files, filter);
    lemma_arranged_holds(kept, user_config_path);
    assert forall|k: int| 0 <= k < listing.len() implies {
        let unit = #[trigger] listing[k];
        &&& unit == first_named(runtime + files, unit.name)
        &&& names(runtime).contains(unit.name) ==> unit == first_named(runtime, unit.name)
            && runtime.contains(unit)
    } by {
        let unit = listing[k];
        assert(arranged(kept, user_config_path)[k] == unit);
        assert(arranged(kept, user_config_path).contains(unit));
        assert(kept.contains(unit));
        let at = choose|at: int| 0 <= at < kept.len() && kept[at] == unit;
        assert(is_first_of_its_name(runtime + files, kept[at]));
        let place = choose|place: int|
            is_first_named(runtime + files, place, unit.name) && (runtime + files)[place] == unit;
        lemma_first_named(runtime + files, place, unit.name);
        if names(runtime).contains(unit.name) {
            lemma_first_named_in_front(runtime, files, unit.name);
        }
    }
}

/// The order of a listing: no unit stands behind one that it comes before. So
/// the units of the user's own configuration stand in front of all others,
/// and on either side no unit stands behind one whose lower-case name comes
/// after its own.
pub proof fn lemma_listing_in_order(
    runtime: Seq<ServiceView>,
    files: Seq<ServiceView>,
    filter: bool,
    user_config_path: Seq<char>,
)
    ensures
        forall|i: int, j: int|
            0 <= i < j < canonical_listing(runtime, files, filter, user_config_path).len() ==> {
                let ahead = rank_of(
                    #[trigger] canonical_listing(runtime, files, filter, user_config_path)[i],
                    user_config_path,
                );
                let behind = rank_of(
                    #[trigger] canonical_listing(runtime, files, filter, user_config_path)[j],
                    user_config_path,
                );
                &&& !rank_before(behind, ahead)
                &&& behind.user_config ==> ahead.user_config
                &&& behind.user_config == ahead.user_config ==> !text_before(
                    behind.folded_name,
                    ahead.folded_name,
                )
            },
{
    let kept = first_seen(retained(runtime + files, filter));
    lemma_arranged_in_order(kept, user_config_path);
}

/// Units of the same rank stand in a listing in the order in which they were
/// first seen.
pub proof fn lemma_listing_stable(
    runtime: Seq<ServiceView>,
    files: Seq<ServiceView>,
    filter: bool,
    user_config_path: Seq<char>,
    rank: Rank,
)
    ensures
        canonical_listing(runtime, files, filter, user_config_path).filter(
            of_rank(rank, user_config_path),
        ) == first_seen(retained(runtime + files, filter)).filter(of_rank(rank, user_config_path)),
{
    lemma_arranged_stable(first_seen(retained(runtime + files, filter)), user_config_path, rank);
}

/// What [`canonical_listing`] gives is a listing in the sense of
/// [`is_listing_of`].
pub proof fn lemma_canonical_is_listing(
    runtime: Seq<ServiceView>,
    files: Seq<ServiceView>,
    filter: bool,
    user_config_path: Seq<char>,
)
    ensures
        is_listing_of(
            canonical_listing(runtime, files, filter, user_config_path),
            runtime,
            files,
            filter,
            user_config_path,
        ),
{
    let all = runtime + files;
    let kept = first_seen(retained(all, filter));
    let listing = canonical_listing(runtime, files, filter, user_config_path);
    lemma_kept(all, filter);
    lemma_kept_order(all, filter);
    lemma_arranged_holds(kept, user_config_path);
    lemma_listing_names(runtime, files, filter, user_config_path);
    lemma_first_seen_wins(runtime, files, filter, user_config_path);
    lemma_arranged_in_order(kept, user_config_path);
    lemma_arranged_ties(kept, user_config_path);
    assert forall|k: int| 0 <= k < listing.len() implies {
        let unit = #[trigger] listing[k];
        &&& names(all).contains(unit.name)
        &&& unit == first_named(all, unit.name)
        &&& filter ==> is_service_name(unit.name)
    } by {
        assert(names(listing)[k] == listing[k].name);
        assert(names(listing).contains(listing[k].name));
        assert(names(all).contains(listing[k].name));
    }
    assert forall|i: int, j: int| 0 <= i < j < listing.len() implies listed_before(
        #[trigger] listing[i],
        #[trigger] listing[j],
        all,
        user_config_path,
    ) by {
        let ahead = rank_of(listing[i], user_config_path);
        let behind = rank_of(listing[j], user_config_path);
        lemma_rank_before_total(ahead, behind);
        assert(!comes_before(listing[j], listing[i], user_config_path));
        if ahead == behind {
            assert(arranged(kept, user_config_path).contains(listing[i]));
            assert(arranged(kept, user_config_path).contains(listing[j]));
            let kept_i = choose|place: int| 0 <= place < kept.len() && kept[place] == listing[i];
            let kept_j = choose|place: int| 0 <= place < kept.len() && kept[place] == listing[j];
            lemma_place_of_distinct(kept, kept_i);
            lemma_place_of_distinct(kept, kept_j);
            assert(kept_i < kept_j);
            assert(first_place(all, kept[kept_i].name) < first_place(all, kept[kept_j].name));
        }
    }
}

/// No unit stands in front of itself, and of two units at most one stands in
/// front of the other.
proof fn lemma_listed_before_asymmetric(
    a: ServiceView,
    b: ServiceView,
    units: Seq<ServiceView>,
    user_config_path: Seq<char>,
)
    ensures
        !(listed_before(a, b, units, user_config_path) && listed_before(
            b,
            a,
            units,
            user_config_path,
        )),
{
    lemma_rank_before_asymmetric(rank_of(a, user_config_path), rank_of(b, user_config_path));
    lemma_rank_before_asymmetric(rank_of(a, user_config_path), rank_of(a, user_config_path));
}

/// A listing in the sense of [`is_listing_of`] holds every unit that another
/// such listing holds.
proof fn lemma_listing_holds(
    listing: Seq<ServiceView>,
    unit: ServiceView,
    runtime: Seq<ServiceView>,
    files: Seq<ServiceView>,
    filter: bool,
    user_config_path: Seq<char>,
) -> (place: int)
    requires
        is_listing_of(listing, runtime, files, filter, user_config_path),
        names(runtime + files).contains(unit.name),
        unit == first_named(runtime + files, unit.name),
        filter ==> is_service_name(unit.name),
    ensures
        0 <= place < listing.len(),
        listing[place] == unit,
{
    assert(names(listing).contains(unit.name));
    let place = choose|place: int| 0 <= place < names(listing).len() && names(listing)[place]
        == unit.name;
    assert(listing[place].name == unit.name);
    place
}

/// Two listings in the sense of [`is_listing_of`] agree up to any place that
/// both of them have.
proof fn lemma_listings_agree(
    first: Seq<ServiceView>,
    second: Seq<ServiceView>,
    runtime: Seq<ServiceView>,
    files: Seq<ServiceView>,
    filter: bool,
    user_config_path: Seq<char>,
    place: int,
)
    requires
        is_listing_of(first, runtime, files, filter, user_config_path),
        is_listing_of(second, runtime, files, filter, user_config_path),
        0 <= place < first.len(),
    ensures
        place < second.len(),
        first[place] == second[place],
    decreases place,
{
    let all = runtime + files;
    if place > 0 {
        lemma_listings_agree(first, second, runtime, files, filter, user_config_path, place - 1);
    }
    // where the unit of `first` at this place stands in `second`
    let there = lemma_listing_holds(second, first[place], runtime, files, filter, user_config_path);
    if there < place {
        lemma_listings_agree(first, second, runtime, files, filter, user_config_path, there);
        lemma_listed_before_asymmetric(first[place], first[place], all, user_config_path);
        assert(listed_before(first[there], first[place], all, user_config_path));
    } else if there > place {
        // then the unit of `second` at this place stands in `first`, behind this place
        let here = lemma_listing_holds(
            first,
            second[place],
            runtime,
            files,
            filter,
            user_config_path,
        );
        if here < place {
            lemma_listings_agree(first, second, runtime, files, filter, user_config_path, here);
            lemma_listed_before_asymmetric(second[place], second[place], all, user_config_path);
            assert(listed_before(second[here], second[place], all, user_config_path));
        } else if here > place {
            lemma_listed_before_asymmetric(first[place], second[place], all, user_config_path);
            assert(listed_before(first[place], first[here], all, user_config_path));
            assert(listed_before(second[place], second[there], all, user_config_path));
        }
    }
}

/// There is one listing only: two sequences of units that are both listings
/// of the same units, with the same filter and the same path of the user's
/// configuration, are the same.
pub proof fn lemma_listing_is_unique(
    first: Seq<ServiceView>,
    second: Seq<ServiceView>,
    runtime: Seq<ServiceView>,
    files: Seq<ServiceView>,
    filter: bool,
    user_config_path: Seq<char>,
)
    requires
        is_listing_of(first, runtime, files, filter, user_config_path),
        is_listing_of(second, runtime, files, filter, user_config_path),
    ensures
        first == second,
{
    assert forall|place: int| 0 <= place < first.len() implies #[trigger] first[place]
        == second[place] by {
        lemma_listings_agree(first, second, runtime, files, filter, user_config_path, place);
    }
    if first.len() > 0 {
        lemma_listings_agree(
            first,
            second,
            runtime,
            files,
            filter,
            user_config_path,
            first.len() - 1,
        );
    }
    if second.len() > 0 {
        lemma_listings_agree(
            second,
            first,
            runtime,
            files,
            filter,
            user_config_path,
            second.len() - 1,
        );
    }
    assert(first =~= second);
}

/// A listing is decided by what it is made of: the same enumerations, the
/// same filter and the same path give the same listing.
pub proof fn lemma_listing_determined(
    first: Seq<ServiceView>,
    second: Seq<ServiceView>,
    runtime: Seq<ServiceView>,
    files: Seq<ServiceView>,
    filter: bool,
    user_config_path: Seq<char>,
)
    requires
        first == canonical_listing(runtime, files, filter, user_config_path),
        second == canonical_listing(runtime, files, filter, user_config_path),
    ensures
        first == second,
{
}

/// Making a listing of a listing changes nothing: with a listing in the place
/// of the loaded units, and no unit files, the listing is that listing again.
pub proof fn lemma_listing_of_listing(
    runtime: Seq<ServiceView>,
    files: Seq<ServiceView>,
    filter: bool,
    user_config_path: Seq<char>,
)
    ensures
        canonical_listing(
            canonical_listing(runtime, files, filter, user_config_path),
            Seq::<ServiceView>::empty(),
            filter,
            user_config_path,
        ) == canonical_listing(runtime, files, filter, user_config_path),
{
    let kept = first_seen(retained(runtime + files, filter));
    let listing = canonical_listing(runtime, files, filter, user_config_path);
    assert(listing + Seq::<ServiceView>::empty() =~= listing);
    lemma_kept(runtime + files, filter);
    lemma_arranged_holds(kept, user_config_path);
    assert forall|k: int| 0 <= k < listing.len() && filter implies is_service_name(
        (#[trigger] listing[k]).name,
    ) by {
        assert(arranged(kept, user_config_path).contains(listing[k]));
        assert(kept.contains(listing[k]));
    }
    lemma_retained_all(listing, filter);
    lemma_listing_names(runtime, files, filter, user_config_path);
    lemma_first_seen_of_distinct(listing);
    lemma_arranged_in_order(kept, user_config_path);
    lemma_arranged_of_ordered(listing, user_config_path);
}

/// Two enumerations without a unit give a listing without a unit.
pub proof fn lemma_empty_listing(filter: bool, user_config_path: Seq<char>)
    ensures
        canonical_listing(
            Seq::<ServiceView>::empty(),
            Seq::<ServiceView>::empty(),
            filter,
            user_config_path,
        ) == Seq::<ServiceView>::empty(),
{
    reveal(Seq::filter);
    let none = Seq::<ServiceView>::empty();
    assert(none + none =~= none);
    assert(retained(none, filter) =~= none);
}

} // verus!
