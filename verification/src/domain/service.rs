use vstd::prelude::*;
use crate::domain::service_state::{ServiceState, ServiceStateView};

verus! {

/// One unit: its name and the state that the supervisor reported for it.
///
/// Within a listing a unit is identified by its name alone, compared exactly.
#[derive(Debug)]
pub struct Service {
    name: String,
    state: ServiceState,
}

/// The mathematical value of a [`Service`].
pub ghost struct ServiceView {
    pub name: Seq<char>,
    pub state: ServiceStateView,
}

impl View for Service {
    type V = ServiceView;

    closed spec fn view(&self) -> ServiceView {
        ServiceView { name: self.name@, state: self.state@ }
    }
}

impl DeepView for Service {
    type V = ServiceView;

    open spec fn deep_view(&self) -> ServiceView {
        self@
    }
}

impl Service {
    pub fn new(name: String, state: ServiceState) -> (service: Self)
        ensures
            service@ == (ServiceView { name: name@, state: state@ }),
    {
        Service { name, state }
    }

    /// The unit's name, such as "nginx.service".
    pub fn name(&self) -> (text: &str)
        ensures
            text@ == self@.name,
    {
        self.name.as_str()
    }

    pub fn state(&self) -> (state: &ServiceState)
        ensures
            state@ == self@.state,
    {
        &self.state
    }
}

impl Clone for Service {
    fn clone(&self) -> (copy: Self)
        ensures
            copy@ == self@,
    {
        Service { name: self.name.clone(), state: self.state.clone() }
    }
}

impl Default for Service {
    fn default() -> (service: Self)
        ensures
            service@.name == Seq::<char>::empty(),
            service@.state == ServiceState::default_view(),
    {
        Service { name: String::new(), state: ServiceState::default() }
    }
}

} // verus!
