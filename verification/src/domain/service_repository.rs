use vstd::prelude::*;
use crate::domain::connection_type::ConnectionType;
use crate::domain::service::Service;

verus! {

/// A backend that carries requests to the supervisor.
///
/// What a backend answers is decided outside this library, by the supervisor
/// and the channel to it. Each operation therefore has a relation beside it,
/// named after the operation with `_outcome` appended: whether an answer is
/// one that the backend may give to a request. An operation promises that its
/// answer is such a one and nothing more, and the contracts of
/// [`ServicesManager`](crate::usecases::services_manager::ServicesManager) say
/// in these terms which answers the manager hands on.
///
/// Unless a backend says otherwise, each relation holds of every answer. A
/// backend that is not verified cannot say otherwise, so nothing is assumed of
/// it. A verified backend may narrow a relation, and must then prove that its
/// operation keeps to it.
///
/// A lifecycle operation returns once the supervisor has acknowledged the
/// transition, with the unit as it then is. Enabling and disabling do not
/// reload the supervisor: that is left to the caller.
pub trait ServiceRepository: Sized {
    /// What a failed request yields.
    type Error;

    /// Whether `outcome` is an answer that this backend may give to
    /// [`start_service`](Self::start_service) for `name`.
    open spec fn start_service_outcome(
        &self,
        name: Seq<char>,
        outcome: Result<Service, Self::Error>,
    ) -> bool {
        true
    }

    /// Starts the unit `name` and returns it as it is afterwards.
    fn start_service(&self, name: &str) -> (outcome: Result<Service, Self::Error>)
        ensures
            self.start_service_outcome(name@, outcome),
    ;

    /// Whether `outcome` is an answer that this backend may give to
    /// [`stop_service`](Self::stop_service) for `name`.
    open spec fn stop_service_outcome(
        &self,
        name: Seq<char>,
        outcome: Result<Service, Self::Error>,
    ) -> bool {
        true
    }

    /// Stops the unit `name` and returns it as it is afterwards.
    fn stop_service(&self, name: &str) -> (outcome: Result<Service, Self::Error>)
        ensures
            self.stop_service_outcome(name@, outcome),
    ;

    /// Whether `outcome` is an answer that this backend may give to
    /// [`restart_service`](Self::restart_service) for `name`.
    open spec fn restart_service_outcome(
        &self,
        name: Seq<char>,
        outcome: Result<Service, Self::Error>,
    ) -> bool {
        true
    }

    /// Restarts the unit `name` and returns it as it is afterwards.
    fn restart_service(&self, name: &str) -> (outcome: Result<Service, Self::Error>)
        ensures
            self.restart_service_outcome(name@, outcome),
    ;

    /// Whether `outcome` is an answer that this backend may give to
    /// [`enable_service`](Self::enable_service) for `name`.
    open spec fn enable_service_outcome(
        &self,
        name: Seq<char>,
        outcome: Result<Service, Self::Error>,
    ) -> bool {
        true
    }

    /// Enables the unit `name` and returns it as it is afterwards.
    fn enable_service(&self, name: &str) -> (outcome: Result<Service, Self::Error>)
        ensures
            self.enable_service_outcome(name@, outcome),
    ;

    /// Whether `outcome` is an answer that this backend may give to
    /// [`disable_service`](Self::disable_service) for `name`.
    open spec fn disable_service_outcome(
        &self,
        name: Seq<char>,
        outcome: Result<Service, Self::Error>,
    ) -> bool {
        true
    }

    /// Disables the unit `name` and returns it as it is afterwards.
    fn disable_service(&self, name: &str) -> (outcome: Result<Service, Self::Error>)
        ensures
            self.disable_service_outcome(name@, outcome),
    ;

    /// Whether `outcome` is an answer that this backend may give to
    /// [`mask_service`](Self::mask_service) for `name`.
    open spec fn mask_service_outcome(
        &self,
        name: Seq<char>,
        outcome: Result<Service, Self::Error>,
    ) -> bool {
        true
    }

    /// Masks the unit `name` and returns it as it is afterwards.
    fn mask_service(&self, name: &str) -> (outcome: Result<Service, Self::Error>)
        ensures
            self.mask_service_outcome(name@, outcome),
    ;

    /// Whether `outcome` is an answer that this backend may give to
    /// [`unmask_service`](Self::unmask_service) for `name`.
    open spec fn unmask_service_outcome(
        &self,
        name: Seq<char>,
        outcome: Result<Service, Self::Error>,
    ) -> bool {
        true
    }

    /// Unmasks the unit `name` and returns it as it is afterwards.
    fn unmask_service(&self, name: &str) -> (outcome: Result<Service, Self::Error>)
        ensures
            self.unmask_service_outcome(name@, outcome),
    ;

    /// Whether `outcome` is an answer that this backend may give to
    /// [`list_services`](Self::list_services) for `filter`.
    open spec fn list_services_outcome(
        &self,
        filter: bool,
        outcome: Result<Vec<Service>, Self::Error>,
    ) -> bool {
        true
    }

    /// Enumerates the units that the supervisor has loaded, in no particular
    /// order. With `filter` the backend narrows the enumeration as it sees fit.
    fn list_services(&self, filter: bool) -> (outcome: Result<Vec<Service>, Self::Error>)
        ensures
            self.list_services_outcome(filter, outcome),
    ;

    /// Whether `outcome` is an answer that this backend may give to
    /// [`list_service_files`](Self::list_service_files) for `filter`.
    open spec fn list_service_files_outcome(
        &self,
        filter: bool,
        outcome: Result<Vec<Service>, Self::Error>,
    ) -> bool {
        true
    }

    /// Enumerates the units that exist as unit files, in no particular order.
    /// With `filter` the backend narrows the enumeration as it sees fit.
    fn list_service_files(&self, filter: bool) -> (outcome: Result<Vec<Service>, Self::Error>)
        ensures
            self.list_service_files_outcome(filter, outcome),
    ;

    /// Whether `outcome` is an answer that this backend may give to
    /// [`get_service_log`](Self::get_service_log) for `name`.
    open spec fn get_service_log_outcome(
        &self,
        name: Seq<char>,
        outcome: Result<String, Self::Error>,
    ) -> bool {
        true
    }

    /// The log of the unit `name`, formatted as the backend chooses.
    fn get_service_log(&self, name: &str) -> (outcome: Result<String, Self::Error>)
        ensures
            self.get_service_log_outcome(name@, outcome),
    ;

    /// Whether `outcome` is an answer that this backend may give to
    /// [`systemctl_cat`](Self::systemctl_cat) for `name`.
    open spec fn systemctl_cat_outcome(
        &self,
        name: Seq<char>,
        outcome: Result<String, Self::Error>,
    ) -> bool {
        true
    }

    /// The text of the definition of the unit `name`.
    fn systemctl_cat(&self, name: &str) -> (outcome: Result<String, Self::Error>)
        ensures
            self.systemctl_cat_outcome(name@, outcome),
    ;

    /// Whether `outcome` is an answer that this backend may give to
    /// [`reload_daemon`](Self::reload_daemon).
    open spec fn reload_daemon_outcome(&self, outcome: Result<(), Self::Error>) -> bool {
        true
    }

    /// Has the supervisor read its unit files again.
    fn reload_daemon(&self) -> (outcome: Result<(), Self::Error>)
        ensures
            self.reload_daemon_outcome(outcome),
    ;

    /// Whether a backend in this state, asked to
    /// [`change_connection`](Self::change_connection) to `connection_type`, may
    /// answer `outcome` and be left as `after`.
    open spec fn change_connection_outcome(
        &self,
        connection_type: ConnectionType,
        outcome: Result<(), Self::Error>,
        after: Self,
    ) -> bool {
        true
    }

    /// Replaces the channel that this backend uses by one of the given kind.
    /// After a failure the backend is in whatever state it chose to be left in.
    fn change_connection(&mut self, connection_type: ConnectionType) -> (outcome: Result<
        (),
        Self::Error,
    >)
        ensures
            old(self).change_connection_outcome(connection_type, outcome, *final(self)),
    ;
}

} // verus!
