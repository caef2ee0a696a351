//! What holds of the units that are kept for a listing: which they are, and
//! that they stand as they came.
use vstd::prelude::*;
use crate::domain::service::ServiceView;
use crate::usecases::listing::{first_named, first_place, first_seen, is_first_named};
use crate::usecases::listing::{is_service_name, names, retained};

verus! {

/// The names of units with one more unit at the end are the names of the units
/// with that unit's name at the end.
pub proof fn lemma_names_push(units: Seq<ServiceView>, unit: ServiceView)
    ensures
        names(units.push(unit)) == names(units).push(unit.name),
        names(units.push(unit)).contains(unit.name),
        forall|name: Seq<char>|
            #![trigger names(units.push(unit)).contains(name)]
            #![trigger names(units).contains(name)]
            names(units.push(unit)).contains(name) <==> (names(units).contains(name) || name
                == unit.name),
{
    let longer = names(units).push(unit.name);
    assert(names(units.push(unit)) =~= longer);
    assert(longer[units.len() as int] == unit.name);
    assert forall|name: Seq<char>|
        #![trigger longer.contains(name)]
        #![trigger names(units).contains(name)]
        longer.contains(name) <==> (names(units).contains(name) || name == unit.name) by {
        if names(units).contains(name) {
            let i = choose|i: int| 0 <= i < names(units).len() && names(units)[i] == name;
            assert(longer[i] == name);
        }
    }
}

/// Whether `unit` is, among `units`, the first unit of its name.
pub open spec fn is_first_of_its_name(units: Seq<ServiceView>, unit: ServiceView) -> bool {
    exists|place: int| is_first_named(units, place, unit.name) && units[place] == unit
}

/// A name has at most one first place, so that place is the one that
/// [`first_place`] gives, and the unit there the one that [`first_named`]
/// gives.
pub proof fn lemma_first_named(units: Seq<ServiceView>, place: int, name: Seq<char>)
    requires
        is_first_named(units, place, name),
    ensures
        first_place(units, name) == place,
        first_named(units, name) == units[place],
{
    let chosen = first_place(units, name);
    if chosen < place {
        assert(units[chosen].name == name);
    } else if place < chosen {
        assert(units[place].name == name);
    }
}

/// A name that occurs among `units` has a first place there.
pub proof fn lemma_name_has_first_place(units: Seq<ServiceView>, name: Seq<char>) -> (place: int)
    requires
        names(units).contains(name),
    ensures
        is_first_named(units, place, name),
    decreases units.len(),
{
    let found = choose|i: int| 0 <= i < names(units).len() && names(units)[i] == name;
    let front = units.drop_last();
    if found < front.len() {
        assert(names(front)[found] == name);
        let place = lemma_name_has_first_place(front, name);
        assert forall|earlier: int| 0 <= earlier < place implies
            (#[trigger] units[earlier]).name != name by {
            assert(units[earlier] == front[earlier]);
        }
        place
    } else if names(front).contains(name) {
        let place = lemma_name_has_first_place(front, name);
        assert forall|earlier: int| 0 <= earlier < place implies
            (#[trigger] units[earlier]).name != name by {
            assert(units[earlier] == front[earlier]);
        }
        place
    } else {
        assert forall|earlier: int| 0 <= earlier < found implies
            (#[trigger] units[earlier]).name != name by {
            assert(names(front)[earlier] == units[earlier].name);
        }
        found
    }
}

/// Among units that begin with `front`, the first unit of a name that occurs
/// in `front` is the first of that name in `front`.
pub proof fn lemma_first_named_in_front(
    front: Seq<ServiceView>,
    rest: Seq<ServiceView>,
    name: Seq<char>,
)
    requires
        names(front).contains(name),
    ensures
        first_named(front + rest, name) == first_named(front, name),
        front.contains(first_named(front, name)),
        first_named(front, name).name == name,
{
    let place = lemma_name_has_first_place(front, name);
    assert forall|earlier: int| 0 <= earlier < place implies (#[trigger] (front
        + rest)[earlier]).name != name by {
        assert((front + rest)[earlier] == front[earlier]);
    }
    assert((front + rest)[place] == front[place]);
    lemma_first_named(front, place, name);
    lemma_first_named(front + rest, place, name);
}

/// Among units of which no two share a name, every unit stands at the first
/// place of its name.
pub proof fn lemma_place_of_distinct(units: Seq<ServiceView>, place: int)
    requires
        names(units).no_duplicates(),
        0 <= place < units.len(),
    ensures
        first_place(units, units[place].name) == place,
{
    assert forall|earlier: int| 0 <= earlier < place implies
        (#[trigger] units[earlier]).name != units[place].name by {
        assert(names(units)[earlier] != names(units)[place]);
    }
    lemma_first_named(units, place, units[place].name);
}

/// The names that a listing with the given `filter` may show are the names of
/// the units, without those that the filter leaves out.
pub proof fn lemma_retained_names(units: Seq<ServiceView>, filter: bool, name: Seq<char>)
    ensures
        names(retained(units, filter)).contains(name) <==> names(units).contains(name) && (filter
            ==> is_service_name(name)),
{
    let shown = retained(units, filter);
    let wanted = |unit: ServiceView| is_service_name(unit.name);
    if names(shown).contains(name) {
        let i = choose|i: int| 0 <= i < names(shown).len() && names(shown)[i] == name;
        assert(shown.contains(shown[i]));
        if filter {
            units.lemma_filter_pred(wanted, i);
            units.lemma_filter_contains_rev(wanted, shown[i]);
        }
        let j = choose|j: int| 0 <= j < units.len() && units[j] == shown[i];
        assert(names(units)[j] == name);
    }
    if names(units).contains(name) && (filter ==> is_service_name(name)) {
        let j = choose|j: int| 0 <= j < names(units).len() && names(units)[j] == name;
        if filter {
            units.lemma_filter_contains(wanted, j);
        } else {
            assert(shown.contains(units[j]));
        }
        let i = choose|i: int| 0 <= i < shown.len() && shown[i] == units[j];
        assert(names(shown)[i] == name);
    }
}

/// A filter leaves units alone that it has nothing to leave out of.
pub proof fn lemma_retained_all(units: Seq<ServiceView>, filter: bool)
    requires
        forall|k: int| 0 <= k < units.len() && filter ==> is_service_name((#[trigger] units[k]).name),
    ensures
        retained(units, filter) == units,
    decreases units.len(),
{
    if filter {
        reveal(Seq::filter);
        if units.len() > 0 {
            let front = units.drop_last();
            assert forall|k: int| 0 <= k < front.len() implies is_service_name(
                (#[trigger] front[k]).name,
            ) by {
                assert(front[k] == units[k]);
            }
            lemma_retained_all(front, filter);
            assert(front.push(units.last()) =~= units);
        }
    }
}

/// Units of which no two share a name are all kept.
pub proof fn lemma_first_seen_of_distinct(units: Seq<ServiceView>)
    requires
        names(units).no_duplicates(),
    ensures
        first_seen(units) == units,
    decreases units.len(),
{
    if units.len() > 0 {
        let front = units.drop_last();
        assert forall|i: int, j: int| 0 <= i < j < names(front).len() implies names(front)[i]
            != names(front)[j] by {
            assert(names(front)[i] == names(units)[i] && names(front)[j] == names(units)[j]);
        }
        lemma_first_seen_of_distinct(front);
        if names(front).contains(units.last().name) {
            let i = choose|i: int| 0 <= i < names(front).len() && names(front)[i] == units.last().name;
            assert(names(units)[i] == names(units)[units.len() - 1]);
        }
        assert(front.push(units.last()) =~= units);
    }
}

/// What is kept of `units` for a listing with the given `filter`: no two units
/// of the same name; only units that the filter lets through, each the first
/// of its name among `units`; and a unit of every name that the filter lets
/// through.
pub proof fn lemma_kept(units: Seq<ServiceView>, filter: bool)
    ensures
        names(first_seen(retained(units, filter))).no_duplicates(),
        forall|k: int|
            0 <= k < first_seen(retained(units, filter)).len() ==> {
                let unit = #[trigger] first_seen(retained(units, filter))[k];
                &&& is_first_of_its_name(units, unit)
                &&& filter ==> is_service_name(unit.name)
            },
        forall|name: Seq<char>|
            #![trigger names(units).contains(name)]
            names(units).contains(name) && (filter ==> is_service_name(name)) ==> names(
                first_seen(retained(units, filter)),
            ).contains(name),
    decreases units.len(),
{
    let kept = first_seen(retained(units, filter));
    let wanted = |unit: ServiceView| is_service_name(unit.name);
    if units.len() == 0 {
        reveal(Seq::filter);
        assert(retained(units, filter) =~= units);
    } else {
        let front = units.drop_last();
        let last = units.last();
        let shown = retained(front, filter);
        let kept_before = first_seen(shown);
        lemma_kept(front, filter);
        assert(front.push(last) =~= units);
        front.lemma_filter_push(last, wanted);
        lemma_retained_names(front, filter, last.name);
        lemma_names_push(front, last);
        assert forall|k: int| 0 <= k < kept_before.len() implies is_first_of_its_name(
            units,
            #[trigger] kept_before[k],
        ) by {
            let unit = kept_before[k];
            let place = choose|place: int|
                is_first_named(front, place, unit.name) && front[place] == unit;
            assert forall|earlier: int| 0 <= earlier < place implies
                (#[trigger] units[earlier]).name != unit.name by {
                assert(units[earlier] == front[earlier]);
            }
            assert(is_first_named(units, place, unit.name) && units[place] == unit);
        }
        if !filter || is_service_name(last.name) {
            assert(shown.push(last).drop_last() =~= shown);
            if names(shown).contains(last.name) {
                assert(kept == kept_before);
            } else {
                assert(kept == kept_before.push(last));
                lemma_names_push(kept_before, last);
                assert forall|earlier: int| 0 <= earlier < front.len() implies
                    (#[trigger] units[earlier]).name != last.name by {
                    assert(names(front)[earlier] == units[earlier].name);
                }
                assert(is_first_named(units, units.len() - 1, last.name));
                assert(is_first_of_its_name(units, last));
                assert forall|k: int| 0 <= k < kept_before.len() implies
                    (#[trigger] names(kept_before)[k]) != last.name by {
                    let unit = kept_before[k];
                    assert(is_first_of_its_name(front, unit));
                    let place = choose|place: int|
                        is_first_named(front, place, unit.name) && front[place] == unit;
                    assert(names(front)[place] == unit.name);
                }
                assert forall|k: int| 0 <= k < kept.len() implies {
                    let unit = #[trigger] kept[k];
                    &&& is_first_of_its_name(units, unit)
                    &&& filter ==> is_service_name(unit.name)
                } by {
                    if k < kept_before.len() {
                        assert(kept[k] == kept_before[k]);
                    }
                }
            }
        } else {
            assert(kept == kept_before);
        }
        assert forall|name: Seq<char>|
            #![trigger names(units).contains(name)]
            names(units).contains(name) && (filter ==> is_service_name(name)) implies names(
            kept,
        ).contains(name) by {
            lemma_names_push(kept_before, last);
            assert(kept == kept_before || kept == kept_before.push(last));
            if names(front).contains(name) {
                assert(names(kept_before).contains(name));
                assert(names(kept_before.push(last)).contains(name));
            } else {
                assert(name == last.name);
                assert(!names(front).contains(last.name));
                assert(!names(shown).contains(last.name));
                assert(kept == kept_before.push(last));
                assert(names(kept_before.push(last)).contains(last.name));
            }
        }
    }
}

/// What is kept of `units` is kept in the order of `units`: of two units that
/// are kept, the one in front is the one whose name is met first.
pub proof fn lemma_kept_order(units: Seq<ServiceView>, filter: bool)
    ensures
        forall|i: int, j: int|
            0 <= i < j < first_seen(retained(units, filter)).len() ==> first_place(
                units,
                (#[trigger] first_seen(retained(units, filter))[i]).name,
            ) < first_place(units, (#[trigger] first_seen(retained(units, filter))[j]).name),
    decreases units.len(),
{
    let kept = first_seen(retained(units, filter));
    let wanted = |unit: ServiceView| is_service_name(unit.name);
    if units.len() == 0 {
        reveal(Seq::filter);
        assert(retained(units, filter) =~= units);
    } else {
        let front = units.drop_last();
        let last = units.last();
        let kept_before = first_seen(retained(front, filter));
        lemma_kept_order(front, filter);
        lemma_kept(front, filter);
        lemma_kept(units, filter);
        assert(front.push(last) =~= units);
        front.lemma_filter_push(last, wanted);
        assert(retained(front, filter).push(last).drop_last() =~= retained(front, filter));
        assert(kept == kept_before || kept == kept_before.push(last));
        assert forall|k: int| 0 <= k < kept_before.len() implies first_place(
            units,
            (#[trigger] kept_before[k]).name,
        ) == first_place(front, kept_before[k].name) && first_place(front, kept_before[k].name)
            < front.len() by {
            let unit = kept_before[k];
            assert(is_first_of_its_name(front, unit));
            let place = choose|place: int|
                is_first_named(front, place, unit.name) && front[place] == unit;
            assert forall|earlier: int| 0 <= earlier < place implies
                (#[trigger] units[earlier]).name != unit.name by {
                assert(units[earlier] == front[earlier]);
            }
            assert(units[place] == front[place]);
            lemma_first_named(front, place, unit.name);
            lemma_first_named(units, place, unit.name);
        }
        assert forall|i: int, j: int| 0 <= i < j < kept.len() implies first_place(
            units,
            (#[trigger] kept[i]).name,
        ) < first_place(units, (#[trigger] kept[j]).name) by {
            assert(kept[i] == kept_before[i]);
            if j < kept_before.len() {
                assert(kept[j] == kept_before[j]);
            } else {
                assert(kept[j] == last);
                assert(is_first_of_its_name(units, kept[j]));
                let place = choose|place: int|
                    is_first_named(units, place, last.name) && units[place] == last;
                lemma_first_named(units, place, last.name);
                if place < front.len() {
                    // then the name was met before, and `last` would not have been kept
                    assert(names(front)[place] == last.name);
                    lemma_retained_names(front, filter, last.name);
                }
            }
        }
    }
}

} // verus!
