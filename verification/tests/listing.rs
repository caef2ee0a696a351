use service_orchestration::domain::service::Service;
use service_orchestration::domain::service_state::ServiceState;
use service_orchestration::usecases::listing::{arrange, build_listing, keep_first_seen, user_config_dir};

fn unit(name: &str, active: &str, path: &str) -> Service {
    Service::new(
        name.to_string(),
        ServiceState::new(
            "loaded".to_string(),
            active.to_string(),
            "running".to_string(),
            "enabled".to_string(),
            path.to_string(),
        ),
    )
}

fn names(listing: &Vec<Service>) -> Vec<String> {
    listing.iter().map(|service| service.name().to_string()).collect()
}

fn described(listing: &Vec<Service>) -> Vec<(String, String, String, String, String, String)> {
    listing
        .iter()
        .map(|service| {
            (
                service.name().to_string(),
                service.state().load().to_string(),
                service.state().active().to_string(),
                service.state().sub().to_string(),
                service.state().file().to_string(),
                service.state().path().to_string(),
            )
        })
        .collect()
}

fn chars(text: &str) -> Vec<char> {
    text.chars().collect()
}

#[test]
fn same_inputs_give_the_same_listing() {
    let runtime = vec![
        unit("b.service", "active", "/etc/systemd/system/b.service"),
        unit("a.service", "active", "/home/u/.config/systemd/user/a.service"),
        unit("c.timer", "inactive", ""),
    ];
    let files = vec![
        unit("a.service", "inactive", "/usr/lib/systemd/system/a.service"),
        unit("d.service", "inactive", "/usr/lib/systemd/system/d.service"),
        unit("b.service", "failed", "/home/u/.config/systemd/user/b.service"),
    ];
    let first = build_listing(runtime.clone(), files.clone(), false, Some("/home/u"));
    let second = build_listing(runtime, files, false, Some("/home/u"));
    assert_eq!(described(&first), described(&second));
    assert_eq!(names(&first), vec!["a.service", "b.service", "c.timer", "d.service"]);
}

#[test]
fn listing_a_listing_again_changes_nothing() {
    let runtime = vec![
        unit("zeta.service", "active", "/etc/systemd/system/zeta.service"),
        unit("Alpha.service", "active", "/home/u/.config/systemd/user/Alpha.service"),
        unit("alpha.service", "active", "/home/u/.config/systemd/user/alpha.service"),
    ];
    let files = vec![unit("zeta.service", "inactive", "")];
    let once = build_listing(runtime, files, true, Some("/home/u"));
    let twice = build_listing(once.clone(), Vec::new(), true, Some("/home/u"));
    assert_eq!(described(&once), described(&twice));
}

#[test]
fn the_loaded_unit_wins_over_the_file() {
    let runtime = vec![unit("x.service", "active", "/etc/systemd/system/x.service")];
    let files = vec![unit("x.service", "inactive", "/usr/lib/systemd/system/x.service")];
    let listing = build_listing(runtime, files, false, Some("/home/u"));
    assert_eq!(listing.len(), 1);
    assert_eq!(listing[0].name(), "x.service");
    assert_eq!(listing[0].state().active(), "active");
    assert_eq!(listing[0].state().path(), "/etc/systemd/system/x.service");
}

#[test]
fn of_two_units_of_one_enumeration_the_first_stays() {
    let runtime = vec![
        unit("x.service", "failed", "/a"),
        unit("y.service", "active", "/b"),
        unit("x.service", "active", "/c"),
    ];
    let listing = build_listing(runtime, Vec::new(), false, None);
    assert_eq!(names(&listing), vec!["x.service", "y.service"]);
    assert_eq!(listing[0].state().active(), "failed");
    assert_eq!(listing[0].state().path(), "/a");
}

#[test]
fn names_differing_in_case_are_different_units() {
    let runtime = vec![unit("X.service", "active", ""), unit("x.service", "inactive", "")];
    let listing = build_listing(runtime, Vec::new(), false, None);
    assert_eq!(names(&listing), vec!["X.service", "x.service"]);
}

#[test]
fn the_filter_keeps_services_only() {
    let runtime = vec![unit("a.service", "active", ""), unit("b.timer", "active", "")];
    let files = vec![unit("c.service", "inactive", "")];
    let listing = build_listing(runtime, files, true, Some("/home/u"));
    assert_eq!(names(&listing), vec!["a.service", "c.service"]);
}

#[test]
fn without_the_filter_every_unit_is_listed() {
    let runtime = vec![unit("a.service", "active", ""), unit("b.timer", "active", "")];
    let files = vec![unit("c.service", "inactive", "")];
    let listing = build_listing(runtime, files, false, Some("/home/u"));
    assert_eq!(names(&listing), vec!["a.service", "b.timer", "c.service"]);
}

#[test]
fn the_filter_goes_by_the_end_of_the_name() {
    let runtime = vec![
        unit(".service", "active", ""),
        unit("service", "active", ""),
        unit("a.service.d", "active", ""),
        unit("a.SERVICE", "active", ""),
        unit("a.service", "active", ""),
        unit("", "active", ""),
    ];
    let listing = build_listing(runtime, Vec::new(), true, None);
    assert_eq!(names(&listing), vec![".service", "a.service"]);
}

#[test]
fn units_of_the_users_configuration_come_first() {
    let runtime = vec![
        unit("a.service", "active", "/etc/systemd/system/a.service"),
        unit("x.service", "active", "/home/u/.config/systemd/user/x.service"),
    ];
    let listing = build_listing(runtime, Vec::new(), false, Some("/home/u"));
    assert_eq!(names(&listing), vec!["x.service", "a.service"]);
}

#[test]
fn the_users_configuration_is_told_by_the_start_of_the_path() {
    let runtime = vec![
        unit("a.service", "active", "/etc/home/u/.config/systemd/user/a.service"),
        unit("b.service", "active", "/home/u/.config/systemd/user"),
        unit("c.service", "active", "/home/u/.config/systemd/use"),
        unit("d.service", "active", "/home/u/.config/systemd/users/d.service"),
    ];
    let listing = build_listing(runtime, Vec::new(), false, Some("/home/u"));
    assert_eq!(names(&listing), vec!["b.service", "d.service", "a.service", "c.service"]);
}

#[test]
fn names_are_ordered_without_regard_to_case() {
    let runtime = vec![
        unit("Bravo.service", "active", "/etc/systemd/system/Bravo.service"),
        unit("alpha.service", "active", "/etc/systemd/system/alpha.service"),
    ];
    let listing = build_listing(runtime, Vec::new(), false, Some("/home/u"));
    assert_eq!(names(&listing), vec!["alpha.service", "Bravo.service"]);
}

#[test]
fn names_beyond_ascii_are_folded_too() {
    let runtime = vec![
        unit("\u{e9}b.service", "active", ""),
        unit("\u{c9}a.service", "active", ""),
        unit("z.service", "active", ""),
    ];
    let listing = build_listing(runtime, Vec::new(), false, None);
    assert_eq!(names(&listing), vec!["z.service", "\u{c9}a.service", "\u{e9}b.service"]);
}

#[test]
fn units_of_the_same_rank_keep_their_order() {
    let runtime = vec![
        unit("B.service", "active", ""),
        unit("a.service", "active", ""),
        unit("b.service", "active", ""),
        unit("A.service", "active", ""),
    ];
    let listing = build_listing(runtime, Vec::new(), false, None);
    assert_eq!(names(&listing), vec!["a.service", "A.service", "B.service", "b.service"]);
}

#[test]
fn a_shorter_name_comes_before_a_longer_one_that_begins_with_it() {
    let runtime = vec![
        unit("ab", "active", ""),
        unit("a", "active", ""),
        unit("", "active", ""),
        unit("abc", "active", ""),
    ];
    let listing = build_listing(runtime, Vec::new(), false, None);
    assert_eq!(names(&listing), vec!["", "a", "ab", "abc"]);
}

#[test]
fn without_a_home_directory_the_path_is_under_the_root() {
    assert_eq!(user_config_dir(None), "/.config/systemd/user");
    let runtime = vec![
        unit("a.service", "active", "/etc/systemd/system/a.service"),
        unit("x.service", "active", "/.config/systemd/user/x.service"),
    ];
    let listing = build_listing(runtime, Vec::new(), false, None);
    assert_eq!(names(&listing), vec!["x.service", "a.service"]);
}

#[test]
fn the_path_follows_the_home_directory() {
    assert_eq!(user_config_dir(Some("/home/u")), "/home/u/.config/systemd/user");
    assert_eq!(user_config_dir(Some("")), "/.config/systemd/user");
    assert_eq!(user_config_dir(Some("/home/u/")), "/home/u//.config/systemd/user");
}

#[test]
fn two_empty_enumerations_give_an_empty_listing() {
    assert!(build_listing(Vec::new(), Vec::new(), false, Some("/home/u")).is_empty());
    assert!(build_listing(Vec::new(), Vec::new(), true, None).is_empty());
}

#[test]
fn keep_first_seen_leaves_the_order_alone() {
    let units = vec![
        unit("z.service", "1", ""),
        unit("a.timer", "2", ""),
        unit("z.service", "3", ""),
        unit("a.service", "4", ""),
        unit("a.timer", "5", ""),
    ];
    let kept = keep_first_seen(units.clone(), false);
    assert_eq!(names(&kept), vec!["z.service", "a.timer", "a.service"]);
    assert_eq!(kept[0].state().active(), "1");
    assert_eq!(kept[1].state().active(), "2");
    let kept = keep_first_seen(units, true);
    assert_eq!(names(&kept), vec!["z.service", "a.service"]);
}

#[test]
fn arrange_orders_by_side_then_by_name() {
    let units = vec![
        unit("d", "", "/other/d"),
        unit("C", "", "/mine/C"),
        unit("b", "", "/other/b"),
        unit("a", "", "/mine/a"),
    ];
    let listing = arrange(units, &chars("/mine"));
    assert_eq!(names(&listing), vec!["a", "C", "b", "d"]);
}

#[test]
fn arrange_with_an_empty_path_takes_every_unit_for_the_users() {
    let units = vec![unit("b", "", "/x"), unit("a", "", "")];
    let listing = arrange(units, &chars(""));
    assert_eq!(names(&listing), vec!["a", "b"]);
}

#[test]
fn a_long_listing_comes_out_in_order() {
    let mut runtime = Vec::new();
    let mut files = Vec::new();
    for i in 0..200u32 {
        let n = (i * 7919) % 200;
        let path = if n % 3 == 0 { "/home/u/.config/systemd/user/unit" } else { "/etc/unit" };
        runtime.push(unit(&format!("unit{:03}.service", n), "runtime", path));
        files.push(unit(&format!("unit{:03}.service", (n + 100) % 250), "file", path));
    }
    let listing = build_listing(runtime, files, true, Some("/home/u"));
    assert_eq!(listing.len(), 250);
    let mut expected: Vec<(bool, String)> = listing
        .iter()
        .map(|service| {
            (
                !service.state().path().starts_with("/home/u/.config/systemd/user"),
                service.name().to_string(),
            )
        })
        .collect();
    let got = expected.clone();
    expected.sort();
    assert_eq!(got, expected);
    for service in &listing {
        let number: u32 = service.name()[4..7].parse().unwrap();
        assert_eq!(service.state().active(), if number < 200 { "runtime" } else { "file" });
    }
}
