use vstd::prelude::*;
use crate::domain::connection_type::ConnectionType;
use crate::domain::service::Service;
use crate::domain::service_repository::ServiceRepository;
use crate::usecases::listing::{build_listing, canonical_listing, text_view, user_config_path};

verus! {

/// The owner of one backend, through which every request goes. Its value is
/// the backend that it holds.
pub struct ServicesManager<R: ServiceRepository> {
    repository: R,
}

impl<R: ServiceRepository> View for ServicesManager<R> {
    type V = R;

    closed spec fn view(&self) -> R {
        self.repository
    }
}

/// What a change that succeeded with `changed` comes to once the supervisor has
/// been asked to reload: the changed unit if the reload succeeded, and the
/// reload's error if it did not, although the change has taken effect.
pub fn after_reload<E>(changed: Service, reload: Result<(), E>) -> (outcome: Result<Service, E>)
    ensures
        outcome == match reload {
            Ok(_) => Ok::<Service, E>(changed),
            Err(error) => Err(error),
        },
{
    match reload {
        Ok(_) => Ok(changed),
        Err(error) => Err(error),
    }
}

impl<R: ServiceRepository> ServicesManager<R> {
    /// A manager that holds `repository`.
    pub fn new(repository: R) -> (manager: Self)
        ensures
            manager@ == repository,
    {
        ServicesManager { repository }
    }

    /// Has the backend start the unit named as `service` is, and hands on its
    /// answer as it came.
    pub fn start_service(&self, service: &Service) -> (outcome: Result<Service, R::Error>)
        ensures
            self@.start_service_outcome(service@.name, outcome),
    {
        self.repository.start_service(service.name())
    }

    /// Has the backend stop the unit named as `service` is, and hands on its
    /// answer as it came.
    pub fn stop_service(&self, service: &Service) -> (outcome: Result<Service, R::Error>)
        ensures
            self@.stop_service_outcome(service@.name, outcome),
    {
        self.repository.stop_service(service.name())
    }

    /// Has the backend restart the unit named as `service` is, and hands on its
    /// answer as it came.
    pub fn restart_service(&self, service: &Service) -> (outcome: Result<Service, R::Error>)
        ensures
            self@.restart_service_outcome(service@.name, outcome),
    {
        self.repository.restart_service(service.name())
    }

    /// Whether `outcome` is what enabling the unit `name` and then reloading
    /// the supervisor may come to on the backend `repository`.
    ///
    /// Success is the enabled unit, and needs both steps to succeed. A failure
    /// is either the error of the enabling, or the error of the reload after an
    /// enabling that succeeded.
    pub open spec fn enable_then_reload(
        repository: R,
        name: Seq<char>,
        outcome: Result<Service, R::Error>,
    ) -> bool {
        match outcome {
            Ok(changed) => {
                &&& repository.enable_service_outcome(name, Ok(changed))
                &&& repository.reload_daemon_outcome(Ok(()))
            },
            Err(error) => {
                ||| repository.enable_service_outcome(name, Err(error))
                ||| exists|changed: Service|
                    {
                        &&& #[trigger] repository.enable_service_outcome(name, Ok(changed))
                        &&& repository.reload_daemon_outcome(Err(error))
                    }
            },
        }
    }

    /// Has the backend enable the unit named as `service` is and, if that
    /// succeeded, has it reload the supervisor. The reload comes after the
    /// change and only then; its failure is the failure of the whole request.
    pub fn enable_service(&self, service: &Service) -> (outcome: Result<Service, R::Error>)
        ensures
            Self::enable_then_reload(self@, service@.name, outcome),
    {
        match self.repository.enable_service(service.name()) {
            Ok(changed) => {
                let reload = self.repository.reload_daemon();
                assert(reload matches Ok(done) ==> done == ());
                after_reload(changed, reload)
            },
            Err(error) => Err(error),
        }
    }

    /// Whether `outcome` is what disabling the unit `name` and then reloading
    /// the supervisor may come to on the backend `repository`.
    ///
    /// Success is the disabled unit, and needs both steps to succeed. A failure
    /// is either the error of the disabling, or the error of the reload after a
    /// disabling that succeeded.
    pub open spec fn disable_then_reload(
        repository: R,
        name: Seq<char>,
        outcome: Result<Service, R::Error>,
    ) -> bool {
        match outcome {
            Ok(changed) => {
                &&& repository.disable_service_outcome(name, Ok(changed))
                &&& repository.reload_daemon_outcome(Ok(()))
            },
            Err(error) => {
                ||| repository.disable_service_outcome(name, Err(error))
                ||| exists|changed: Service|
                    {
                        &&& #[trigger] repository.disable_service_outcome(name, Ok(changed))
                        &&& repository.reload_daemon_outcome(Err(error))
                    }
            },
        }
    }

    /// Has the backend disable the unit named as `service` is and, if that
    /// succeeded, has it reload the supervisor. The reload comes after the
    /// change and only then; its failure is the failure of the whole request.
    pub fn disable_service(&self, service: &Service) -> (outcome: Result<Service, R::Error>)
        ensures
            Self::disable_then_reload(self@, service@.name, outcome),
    {
        match self.repository.disable_service(service.name()) {
            Ok(changed) => {
                let reload = self.repository.reload_daemon();
                assert(reload matches Ok(done) ==> done == ());
                after_reload(changed, reload)
            },
            Err(error) => Err(error),
        }
    }

    /// Has the backend mask the unit named as `service` is, and hands on its
    /// answer as it came.
    pub fn mask_service(&self, service: &Service) -> (outcome: Result<Service, R::Error>)
        ensures
            self@.mask_service_outcome(service@.name, outcome),
    {
        self.repository.mask_service(service.name())
    }

    /// Has the backend unmask the unit named as `service` is, and hands on its
    /// answer as it came.
    pub fn unmask_service(&self, service: &Service) -> (outcome: Result<Service, R::Error>)
        ensures
            self@.unmask_service_outcome(service@.name, outcome),
    {
        self.repository.unmask_service(service.name())
    }

    /// Whether `outcome` is what a listing may come to on the backend
    /// `repository`, where `home` is the user's home directory, if there is
    /// one.
    ///
    /// Success needs both enumerations to succeed, and is the canonical listing
    /// of what they gave. A failure is either the error of the enumeration of
    /// loaded units, or the error of the enumeration of unit files after the
    /// first enumeration succeeded. Nothing in between is ever returned.
    pub open spec fn listing_outcome(
        repository: R,
        filter: bool,
        home: Option<Seq<char>>,
        outcome: Result<Vec<Service>, R::Error>,
    ) -> bool {
        match outcome {
            Ok(listing) => exists|runtime: Vec<Service>, files: Vec<Service>|
                {
                    &&& #[trigger] repository.list_services_outcome(filter, Ok(runtime))
                    &&& #[trigger] repository.list_service_files_outcome(filter, Ok(files))
                    &&& listing.deep_view() == canonical_listing(
                        runtime.deep_view(),
                        files.deep_view(),
                        filter,
                        user_config_path(home),
                    )
                },
            Err(error) => {
                ||| repository.list_services_outcome(filter, Err(error))
                ||| exists|runtime: Vec<Service>|
                    {
                        &&& #[trigger] repository.list_services_outcome(filter, Ok(runtime))
                        &&& repository.list_service_files_outcome(filter, Err(error))
                    }
            },
        }
    }

    /// Asks the backend for the units that the supervisor has loaded and for
    /// those that exist as unit files, and makes one listing of the two:
    /// without duplicates, the loaded unit winning over the file of the same
    /// name, and in a fixed order. With `filter` both enumerations are asked
    /// for with the filter, and only services are listed. `home` is the user's
    /// home directory, if there is one; it decides which units count as the
    /// user's own and stand first.
    pub fn list_services(&self, filter: bool, home: Option<&str>) -> (outcome: Result<
        Vec<Service>,
        R::Error,
    >)
        ensures
            Self::listing_outcome(self@, filter, text_view(home), outcome),
    {
        let runtime = match self.repository.list_services(filter) {
            Ok(units) => units,
            Err(error) => {
                return Err(error);
            },
        };
        let files = match self.repository.list_service_files(filter) {
            Ok(units) => units,
            Err(error) => {
                return Err(error);
            },
        };
        Ok(build_listing(runtime, files, filter, home))
    }

    /// Hands on the backend's log of the unit named as `service` is.
    pub fn get_log(&self, service: &Service) -> (outcome: Result<String, R::Error>)
        ensures
            self@.get_service_log_outcome(service@.name, outcome),
    {
        self.repository.get_service_log(service.name())
    }

    /// Has the backend replace its channel by one of the given kind. The manager
    /// keeps the same backend, in the state that the backend left itself in,
    /// also after a failure.
    pub fn change_repository_connection(&mut self, connection_type: ConnectionType) -> (outcome:
        Result<(), R::Error>)
        ensures
            old(self)@.change_connection_outcome(connection_type, outcome, final(self)@),
    {
        self.repository.change_connection(connection_type)
    }

    /// Hands on the backend's text of the definition of the unit named as
    /// `service` is.
    pub fn systemctl_cat(&self, service: &Service) -> (outcome: Result<String, R::Error>)
        ensures
            self@.systemctl_cat_outcome(service@.name, outcome),
    {
        self.repository.systemctl_cat(service.name())
    }
}

} // verus!
