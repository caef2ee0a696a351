use service_orchestration::domain::connection_type::ConnectionType;
use service_orchestration::domain::service::Service;
use service_orchestration::domain::service_repository::ServiceRepository;
use service_orchestration::domain::service_state::ServiceState;
use service_orchestration::usecases::services_manager::{after_reload, ServicesManager};
use std::cell::RefCell;
use std::rc::Rc;

fn unit(name: &str, active: &str, path: &str) -> Service {
    Service::new(
        name.to_string(),
        ServiceState::new(
            "loaded".to_string(),
            active.to_string(),
            "running".to_string(),
            "enabled".to_string(),
            path.to_string(),
        ),
    )
}

fn names(listing: &Vec<Service>) -> Vec<String> {
    listing.iter().map(|service| service.name().to_string()).collect()
}

/// A backend that records what it is asked, and answers as it was told to.
struct Scripted {
    calls: Rc<RefCell<Vec<String>>>,
    failing: Vec<&'static str>,
    runtime: Vec<Service>,
    files: Vec<Service>,
    connection: ConnectionType,
}

impl Scripted {
    fn new(failing: &[&'static str]) -> (Scripted, Rc<RefCell<Vec<String>>>) {
        let calls = Rc::new(RefCell::new(Vec::new()));
        let backend = Scripted {
            calls: calls.clone(),
            failing: failing.to_vec(),
            runtime: Vec::new(),
            files: Vec::new(),
            connection: ConnectionType::Local,
        };
        (backend, calls)
    }

    fn asked(&self, operation: &'static str, argument: &str) -> Result<(), String> {
        self.calls.borrow_mut().push(format!("{} {}", operation, argument));
        if self.failing.contains(&operation) {
            Err(format!("{} failed", operation))
        } else {
            Ok(())
        }
    }
}

impl ServiceRepository for Scripted {
    type Error = String;

    fn start_service(&self, name: &str) -> Result<Service, String> {
        self.asked("start", name)?;
        Ok(unit(name, "started", ""))
    }

    fn stop_service(&self, name: &str) -> Result<Service, String> {
        self.asked("stop", name)?;
        Ok(unit(name, "stopped", ""))
    }

    fn restart_service(&self, name: &str) -> Result<Service, String> {
        self.asked("restart", name)?;
        Ok(unit(name, "restarted", ""))
    }

    fn enable_service(&self, name: &str) -> Result<Service, String> {
        self.asked("enable", name)?;
        Ok(unit(name, "enabled", ""))
    }

    fn disable_service(&self, name: &str) -> Result<Service, String> {
        self.asked("disable", name)?;
        Ok(unit(name, "disabled", ""))
    }

    fn mask_service(&self, name: &str) -> Result<Service, String> {
        self.asked("mask", name)?;
        Ok(unit(name, "masked", ""))
    }

    fn unmask_service(&self, name: &str) -> Result<Service, String> {
        self.asked("unmask", name)?;
        Ok(unit(name, "unmasked", ""))
    }

    fn list_services(&self, filter: bool) -> Result<Vec<Service>, String> {
        self.asked("list", &filter.to_string())?;
        Ok(self.runtime.clone())
    }

    fn list_service_files(&self, filter: bool) -> Result<Vec<Service>, String> {
        self.asked("files", &filter.to_string())?;
        Ok(self.files.clone())
    }

    fn get_service_log(&self, name: &str) -> Result<String, String> {
        self.asked("log", name)?;
        Ok(format!("log of {}", name))
    }

    fn systemctl_cat(&self, name: &str) -> Result<String, String> {
        self.asked("cat", name)?;
        Ok(format!("definition of {}", name))
    }

    fn reload_daemon(&self) -> Result<(), String> {
        self.asked("reload", "")
    }

    fn change_connection(&mut self, connection_type: ConnectionType) -> Result<(), String> {
        self.asked("connect", &format!("{:?}", connection_type))?;
        self.connection = connection_type;
        Ok(())
    }
}

fn calls_of(calls: &Rc<RefCell<Vec<String>>>) -> Vec<String> {
    calls.borrow().clone()
}

#[test]
fn a_failed_reload_fails_the_enabling() {
    let (backend, calls) = Scripted::new(&["reload"]);
    let manager = ServicesManager::new(backend);
    let outcome = manager.enable_service(&unit("a.service", "", ""));
    assert_eq!(outcome.err(), Some("reload failed".to_string()));
    assert_eq!(calls_of(&calls), vec!["enable a.service", "reload "]);
}

#[test]
fn enabling_reloads_once_and_returns_the_enabled_unit() {
    let (backend, calls) = Scripted::new(&[]);
    let manager = ServicesManager::new(backend);
    let enabled = manager.enable_service(&unit("a.service", "", "")).unwrap();
    assert_eq!(enabled.name(), "a.service");
    assert_eq!(enabled.state().active(), "enabled");
    assert_eq!(calls_of(&calls), vec!["enable a.service", "reload "]);
}

#[test]
fn a_failed_enabling_is_not_followed_by_a_reload() {
    let (backend, calls) = Scripted::new(&["enable", "reload"]);
    let manager = ServicesManager::new(backend);
    let outcome = manager.enable_service(&unit("a.service", "", ""));
    assert_eq!(outcome.err(), Some("enable failed".to_string()));
    assert_eq!(calls_of(&calls), vec!["enable a.service"]);
}

#[test]
fn a_failed_reload_fails_the_disabling() {
    let (backend, calls) = Scripted::new(&["reload"]);
    let manager = ServicesManager::new(backend);
    let outcome = manager.disable_service(&unit("b.service", "", ""));
    assert_eq!(outcome.err(), Some("reload failed".to_string()));
    assert_eq!(calls_of(&calls), vec!["disable b.service", "reload "]);
}

#[test]
fn disabling_reloads_once_and_returns_the_disabled_unit() {
    let (backend, calls) = Scripted::new(&[]);
    let manager = ServicesManager::new(backend);
    let disabled = manager.disable_service(&unit("b.service", "", "")).unwrap();
    assert_eq!(disabled.name(), "b.service");
    assert_eq!(disabled.state().active(), "disabled");
    assert_eq!(calls_of(&calls), vec!["disable b.service", "reload "]);
}

#[test]
fn a_failed_disabling_is_not_followed_by_a_reload() {
    let (backend, calls) = Scripted::new(&["disable"]);
    let manager = ServicesManager::new(backend);
    let outcome = manager.disable_service(&unit("b.service", "", ""));
    assert_eq!(outcome.err(), Some("disable failed".to_string()));
    assert_eq!(calls_of(&calls), vec!["disable b.service"]);
}

#[test]
fn after_reload_gives_the_unit_or_the_error_of_the_reload() {
    let kept: Result<Service, String> = after_reload(unit("a.service", "enabled", "/p"), Ok(()));
    let kept = kept.unwrap();
    assert_eq!(kept.name(), "a.service");
    assert_eq!(kept.state().active(), "enabled");
    assert_eq!(kept.state().path(), "/p");
    let lost = after_reload(unit("a.service", "enabled", "/p"), Err(7u8));
    assert_eq!(lost.err(), Some(7u8));
}

#[test]
fn lifecycle_requests_go_to_the_backend_under_the_units_name() {
    let (backend, calls) = Scripted::new(&[]);
    let manager = ServicesManager::new(backend);
    let target = unit("nginx.service", "", "");
    assert_eq!(manager.start_service(&target).unwrap().state().active(), "started");
    assert_eq!(manager.stop_service(&target).unwrap().state().active(), "stopped");
    assert_eq!(manager.restart_service(&target).unwrap().state().active(), "restarted");
    assert_eq!(manager.mask_service(&target).unwrap().state().active(), "masked");
    assert_eq!(manager.unmask_service(&target).unwrap().state().active(), "unmasked");
    assert_eq!(
        calls_of(&calls),
        vec![
            "start nginx.service",
            "stop nginx.service",
            "restart nginx.service",
            "mask nginx.service",
            "unmask nginx.service",
        ]
    );
}

#[test]
fn lifecycle_errors_come_back_as_they_are() {
    let (backend, calls) = Scripted::new(&["start", "stop", "restart", "mask", "unmask"]);
    let manager = ServicesManager::new(backend);
    let target = unit("nginx.service", "", "");
    assert_eq!(manager.start_service(&target).err(), Some("start failed".to_string()));
    assert_eq!(manager.stop_service(&target).err(), Some("stop failed".to_string()));
    assert_eq!(manager.restart_service(&target).err(), Some("restart failed".to_string()));
    assert_eq!(manager.mask_service(&target).err(), Some("mask failed".to_string()));
    assert_eq!(manager.unmask_service(&target).err(), Some("unmask failed".to_string()));
    assert_eq!(calls_of(&calls).len(), 5);
}

#[test]
fn log_and_definition_are_handed_on() {
    let (backend, _calls) = Scripted::new(&[]);
    let manager = ServicesManager::new(backend);
    let target = unit("nginx.service", "", "");
    assert_eq!(manager.get_log(&target), Ok("log of nginx.service".to_string()));
    assert_eq!(manager.systemctl_cat(&target), Ok("definition of nginx.service".to_string()));
    let (backend, _calls) = Scripted::new(&["log", "cat"]);
    let manager = ServicesManager::new(backend);
    assert_eq!(manager.get_log(&target), Err("log failed".to_string()));
    assert_eq!(manager.systemctl_cat(&target), Err("cat failed".to_string()));
}

#[test]
fn the_connection_is_changed_on_the_backend_that_the_manager_holds() {
    let (mut backend, calls) = Scripted::new(&[]);
    backend.runtime = vec![unit("a.service", "", "")];
    let mut manager = ServicesManager::new(backend);
    assert_eq!(manager.change_repository_connection(ConnectionType::Remote), Ok(()));
    assert_eq!(names(&manager.list_services(false, None).unwrap()), vec!["a.service"]);
    assert_eq!(calls_of(&calls), vec!["connect Remote", "list false", "files false"]);
}

#[test]
fn a_failed_change_of_connection_comes_back_as_it_is() {
    let (backend, calls) = Scripted::new(&["connect"]);
    let mut manager = ServicesManager::new(backend);
    assert_eq!(
        manager.change_repository_connection(ConnectionType::Remote),
        Err("connect failed".to_string())
    );
    assert_eq!(calls_of(&calls), vec!["connect Remote"]);
    assert!(manager.start_service(&unit("a.service", "", "")).is_ok());
}

#[test]
fn a_listing_merges_the_two_enumerations() {
    let (mut backend, calls) = Scripted::new(&[]);
    backend.runtime = vec![
        unit("b.service", "active", "/etc/systemd/system/b.service"),
        unit("x.service", "active", "/home/u/.config/systemd/user/x.service"),
        unit("t.timer", "active", ""),
    ];
    backend.files = vec![
        unit("b.service", "inactive", "/usr/lib/systemd/system/b.service"),
        unit("A.service", "inactive", "/usr/lib/systemd/system/A.service"),
    ];
    let manager = ServicesManager::new(backend);
    let listing = manager.list_services(true, Some("/home/u")).unwrap();
    assert_eq!(names(&listing), vec!["x.service", "A.service", "b.service"]);
    assert_eq!(listing[2].state().active(), "active");
    assert_eq!(calls_of(&calls), vec!["list true", "files true"]);
    let listing = manager.list_services(false, Some("/home/u")).unwrap();
    assert_eq!(names(&listing), vec!["x.service", "A.service", "b.service", "t.timer"]);
}

#[test]
fn a_listing_of_nothing_is_empty() {
    let (backend, _calls) = Scripted::new(&[]);
    let manager = ServicesManager::new(backend);
    assert_eq!(manager.list_services(false, Some("/home/u")).map(|l| l.len()), Ok(0));
    assert_eq!(manager.list_services(true, None).map(|l| l.len()), Ok(0));
}

#[test]
fn a_listing_without_a_home_directory_succeeds() {
    let (mut backend, _calls) = Scripted::new(&[]);
    backend.runtime = vec![
        unit("a.service", "active", "/etc/systemd/system/a.service"),
        unit("x.service", "active", "/.config/systemd/user/x.service"),
    ];
    let manager = ServicesManager::new(backend);
    let listing = manager.list_services(false, None).unwrap();
    assert_eq!(names(&listing), vec!["x.service", "a.service"]);
}

#[test]
fn a_failed_enumeration_fails_the_listing() {
    let (mut backend, calls) = Scripted::new(&["list"]);
    backend.files = vec![unit("a.service", "", "")];
    let manager = ServicesManager::new(backend);
    assert_eq!(manager.list_services(false, None).err(), Some("list failed".to_string()));
    assert_eq!(calls_of(&calls), vec!["list false"]);
}

#[test]
fn a_failed_enumeration_of_files_fails_the_listing() {
    let (mut backend, calls) = Scripted::new(&["files"]);
    backend.runtime = vec![unit("a.service", "", "")];
    let manager = ServicesManager::new(backend);
    assert_eq!(manager.list_services(true, None).err(), Some("files failed".to_string()));
    assert_eq!(calls_of(&calls), vec!["list true", "files true"]);
}
