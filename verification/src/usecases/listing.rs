//! One listing out of two enumerations: units that are not wanted are left out,
//! of units with the same name the first one stays, and what is left is put in
//! order.
use vstd::prelude::*;
use vstd::hash_set::StringHashSet;
use crate::domain::service::{Service, ServiceView};
use crate::text::{chars_of, ends_with};
use crate::usecases::listing_lemmas::lemma_canonical_is_listing;
use crate::usecases::ordering::{comes_before, find_slot, in_order, rank_of, ranks_of, slot, SortKey};
use crate::usecases::first_seen_lemmas::lemma_names_push;
use crate::usecases::ordering::{lemma_slot, lemma_slot_keeps_order};

verus! {

/// The ending by which a unit's name shows that the unit is a service.
pub open spec fn unit_suffix() -> Seq<char> {
    ".service"@
}

/// Whether `name` is the name of a service.
pub open spec fn is_service_name(name: Seq<char>) -> bool {
    unit_suffix().is_suffix_of(name)
}

/// The units of `units` that a listing with the given `filter` may show, in
/// their order: all of them without the filter, the services alone with it.
pub open spec fn retained(units: Seq<ServiceView>, filter: bool) -> Seq<ServiceView> {
    if filter {
        units.filter(|unit: ServiceView| is_service_name(unit.name))
    } else {
        units
    }
}

/// The names of `units`, one for one.
pub open spec fn names(units: Seq<ServiceView>) -> Seq<Seq<char>> {
    Seq::new(units.len(), |i: int| units[i].name)
}

/// The units of `units` that no earlier unit shares its name with, in their
/// order.
pub open spec fn first_seen(units: Seq<ServiceView>) -> Seq<ServiceView>
    decreases units.len(),
{
    if units.len() == 0 {
        units
    } else if names(units.drop_last()).contains(units.last().name) {
        first_seen(units.drop_last())
    } else {
        first_seen(units.drop_last()).push(units.last())
    }
}

/// The units of `units` in the order of a listing. Unit after unit is put into
/// its slot among those that came before it, so that of two units of the same
/// rank the earlier one stays in front.
pub open spec fn arranged(units: Seq<ServiceView>, user_config_path: Seq<char>) -> Seq<
    ServiceView,
>
    decreases units.len(),
{
    if units.len() == 0 {
        units
    } else {
        let earlier = arranged(units.drop_last(), user_config_path);
        earlier.insert(
            slot(ranks_of(earlier, user_config_path), rank_of(units.last(), user_config_path)) as int,
            units.last(),
        )
    }
}

/// What follows the home directory in the path of the user's own configuration
/// directory.
pub open spec fn user_config_suffix() -> Seq<char> {
    "/.config/systemd/user"@
}

/// The path of the user's own configuration directory, for the home directory
/// `home`. Without a home directory it is the path under the root.
pub open spec fn user_config_path(home: Option<Seq<char>>) -> Seq<char> {
    match home {
        Some(directory) => directory + user_config_suffix(),
        None => user_config_suffix(),
    }
}

/// The listing made of the units that the supervisor has loaded, `runtime`,
/// and of those that exist as unit files, `files`: the units of `runtime`
/// followed by those of `files`, without those that the filter leaves out, of
/// each name the first unit only, in the order of a listing.
pub open spec fn canonical_listing(
    runtime: Seq<ServiceView>,
    files: Seq<ServiceView>,
    filter: bool,
    user_config_path: Seq<char>,
) -> Seq<ServiceView> {
    arranged(first_seen(retained(runtime + files, filter)), user_config_path)
}

/// Whether the unit at `place` in `units` has the name `name`, and no unit in
/// front of it has.
pub open spec fn is_first_named(units: Seq<ServiceView>, place: int, name: Seq<char>) -> bool {
    &&& 0 <= place < units.len()
    &&& units[place].name == name
    &&& forall|earlier: int| 0 <= earlier < place ==> (#[trigger] units[earlier]).name != name
}

/// The place of the first unit of `units` with the name `name`.
pub open spec fn first_place(units: Seq<ServiceView>, name: Seq<char>) -> int {
    choose|place: int| is_first_named(units, place, name)
}

/// The first unit of `units` with the name `name`.
pub open spec fn first_named(units: Seq<ServiceView>, name: Seq<char>) -> ServiceView {
    units[first_place(units, name)]
}

/// Whether `a` stands in front of `b` in a listing of `units`: it comes before
/// `b`, or it is of the same rank and its name is met first among `units`.
pub open spec fn listed_before(
    a: ServiceView,
    b: ServiceView,
    units: Seq<ServiceView>,
    user_config_path: Seq<char>,
) -> bool {
    ||| comes_before(a, b, user_config_path)
    ||| rank_of(a, user_config_path) == rank_of(b, user_config_path) && first_place(units, a.name)
        < first_place(units, b.name)
}

/// Whether `listing` is a listing of the units `runtime` and `files`, said
/// without a word of how a listing is made:
///
/// - every unit of it is, among the units of `runtime` followed by those of
///   `files`, the first unit of its name, and with `filter` it is a service;
/// - every name among those units has a unit in it, with `filter` every name
///   of a service;
/// - every unit of it stands in front of those behind it.
pub open spec fn is_listing_of(
    listing: Seq<ServiceView>,
    runtime: Seq<ServiceView>,
    files: Seq<ServiceView>,
    filter: bool,
    user_config_path: Seq<char>,
) -> bool {
    &&& forall|k: int|
        0 <= k < listing.len() ==> {
            let unit = #[trigger] listing[k];
            &&& names(runtime + files).contains(unit.name)
            &&& unit == first_named(runtime + files, unit.name)
            &&& filter ==> is_service_name(unit.name)
        }
    &&& forall|name: Seq<char>|
        #![trigger names(runtime + files).contains(name)]
        names(runtime + files).contains(name) && (filter ==> is_service_name(name)) ==> names(
            listing,
        ).contains(name)
    &&& forall|i: int, j: int|
        0 <= i < j < listing.len() ==> listed_before(
            #[trigger] listing[i],
            #[trigger] listing[j],
            runtime + files,
            user_config_path,
        )
}

/// The value of an optional text.
pub open spec fn text_view(text: Option<&str>) -> Option<Seq<char>> {
    match text {
        Some(text) => Some(text@),
        None => None,
    }
}

/// The path of the user's own configuration directory, for the home directory
/// `home`; without one, the path under the root.
pub fn user_config_dir(home: Option<&str>) -> (path: String)
    ensures
        path@ == user_config_path(text_view(home)),
{
    let mut path = match home {
        Some(directory) => directory.to_owned(),
        None => String::new(),
    };
    path.append("/.config/systemd/user");
    path
}

/// Leaves out of `units` what a listing with the given `filter` does not show
/// and, of units with the same name, all but the first.
pub fn keep_first_seen(units: Vec<Service>, filter: bool) -> (kept: Vec<Service>)
    ensures
        kept.deep_view() == first_seen(retained(units.deep_view(), filter)),
{
    let ghost all = units.deep_view();
    let suffix = chars_of(".service");
    let mut seen = StringHashSet::new();
    let mut kept: Vec<Service> = Vec::new();
    proof {
        reveal(Seq::filter);
        assert(all.take(0) =~= Seq::<ServiceView>::empty());
        assert(kept.deep_view() =~= Seq::<ServiceView>::empty());
    }
    for unit in it: units
        invariant
            all == units.deep_view(),
            suffix@ == unit_suffix(),
            kept.deep_view() == first_seen(retained(all.take(it.index() as int), filter)),
            forall|name: Seq<char>|
                #![trigger seen@.contains(name)]
                #![trigger names(retained(all.take(it.index() as int), filter)).contains(name)]
                seen@.contains(name) <==> names(
                    retained(all.take(it.index() as int), filter),
                ).contains(name),
    {
        let ghost so_far = retained(all.take(it.index() as int), filter);
        let ghost kept_so_far = kept.deep_view();
        let wanted = !filter || ends_with(chars_of(unit.name()).as_slice(), suffix.as_slice());
        proof {
            assert(unit@ == all[it.index() as int]);
            assert(all.take(it.index() + 1) =~= all.take(it.index() as int).push(unit@));
            all.take(it.index() as int).lemma_filter_push(
                unit@,
                |unit: ServiceView| is_service_name(unit.name),
            );
            assert(retained(all.take(it.index() + 1), filter) == if wanted {
                so_far.push(unit@)
            } else {
                so_far
            });
        }
        if wanted {
            let fresh = seen.insert(unit.name().to_owned());
            proof {
                lemma_names_push(so_far, unit@);
                assert(so_far.push(unit@).drop_last() =~= so_far);
            }
            if fresh {
                kept.push(unit);
                assert(kept.deep_view() =~= kept_so_far.push(unit@));
            }
        }
    }
    proof {
        assert(all.take(all.len() as int) =~= all);
    }
    kept
}

/// Puts `units` in the order of a listing, where `user_config_path` is the
/// user's own configuration directory.
pub fn arrange(units: Vec<Service>, user_config_path: &[char]) -> (listing: Vec<Service>)
    ensures
        listing.deep_view() == arranged(units.deep_view(), user_config_path@),
{
    let ghost all = units.deep_view();
    let ghost path = user_config_path@;
    let mut listing: Vec<Service> = Vec::new();
    let mut keys: Vec<SortKey> = Vec::new();
    proof {
        assert(all.take(0) =~= Seq::<ServiceView>::empty());
        assert(listing.deep_view() =~= Seq::<ServiceView>::empty());
        assert(keys.deep_view() =~= ranks_of(listing.deep_view(), path));
    }
    for unit in it: units
        invariant
            all == units.deep_view(),
            path == user_config_path@,
            listing.deep_view() == arranged(all.take(it.index() as int), path),
            keys.deep_view() == ranks_of(listing.deep_view(), path),
            in_order(keys.deep_view()),
    {
        let ghost listed = listing.deep_view();
        let ghost ranks = keys.deep_view();
        let key = SortKey::of(&unit, user_config_path);
        let at = find_slot(&keys, &key);
        proof {
            assert(unit@ == all[it.index() as int]);
            assert(all.take(it.index() + 1).drop_last() =~= all.take(it.index() as int));
            lemma_slot(ranks, key.deep_view());
            lemma_slot_keeps_order(ranks, key.deep_view());
            assert(ranks.len() == keys.len() && ranks.len() == listing.len());
        }
        listing.insert(at, unit);
        keys.insert(at, key);
        proof {
            assert(listing.deep_view() =~= listed.insert(at as int, unit@));
            assert(keys.deep_view() =~= ranks.insert(at as int, key.deep_view()));
            assert(keys.deep_view() =~= ranks_of(listing.deep_view(), path));
        }
    }
    proof {
        assert(all.take(all.len() as int) =~= all);
    }
    listing
}

/// The listing made of the units that the supervisor has loaded, `runtime`,
/// and of those that exist as unit files, `files`, where `home` is the user's
/// home directory, if there is one.
pub fn build_listing(
    runtime: Vec<Service>,
    files: Vec<Service>,
    filter: bool,
    home: Option<&str>,
) -> (listing: Vec<Service>)
    ensures
        listing.deep_view() == canonical_listing(
            runtime.deep_view(),
            files.deep_view(),
            filter,
            user_config_path(text_view(home)),
        ),
        is_listing_of(
            listing.deep_view(),
            runtime.deep_view(),
            files.deep_view(),
            filter,
            user_config_path(text_view(home)),
        ),
{
    proof {
        lemma_canonical_is_listing(
            runtime.deep_view(),
            files.deep_view(),
            filter,
            user_config_path(text_view(home)),
        );
    }
    let mut all = runtime;
    let mut rest = files;
    all.append(&mut rest);
    assert(all.deep_view() =~= runtime.deep_view() + files.deep_view());
    let kept = keep_first_seen(all, filter);
    let path = user_config_dir(home);
    let path_chars = chars_of(path.as_str());
    arrange(kept, path_chars.as_slice())
}

} // verus!
