use vstd::prelude::*;

verus! {

/// What the supervisor reports of one unit: five texts that are carried through
/// as they came. Only `path` is ever read, to decide a unit's place in a listing.
#[derive(Debug)]
pub struct ServiceState {
    load: String,
    active: String,
    sub: String,
    file: String,
    path: String,
}

/// The mathematical value of a [`ServiceState`].
pub ghost struct ServiceStateView {
    pub load: Seq<char>,
    pub active: Seq<char>,
    pub sub: Seq<char>,
    pub file: Seq<char>,
    pub path: Seq<char>,
}

impl View for ServiceState {
    type V = ServiceStateView;

    closed spec fn view(&self) -> ServiceStateView {
        ServiceStateView {
            load: self.load@,
            active: self.active@,
            sub: self.sub@,
            file: self.file@,
            path: self.path@,
        }
    }
}

impl DeepView for ServiceState {
    type V = ServiceStateView;

    open spec fn deep_view(&self) -> ServiceStateView {
        self@
    }
}

impl ServiceState {
    /// The value of a state whose five texts are all empty.
    pub open spec fn default_view() -> ServiceStateView {
        ServiceStateView {
            load: Seq::empty(),
            active: Seq::empty(),
            sub: Seq::empty(),
            file: Seq::empty(),
            path: Seq::empty(),
        }
    }

    pub fn new(load: String, active: String, sub: String, file: String, path: String) -> (state:
        Self)
        ensures
            state@ == (ServiceStateView {
                load: load@,
                active: active@,
                sub: sub@,
                file: file@,
                path: path@,
            }),
    {
        ServiceState { load, active, sub, file, path }
    }

    /// The load state, such as "loaded" or "not-found".
    pub fn load(&self) -> (text: &str)
        ensures
            text@ == self@.load,
    {
        self.load.as_str()
    }

    /// The activation state, such as "active", "inactive" or "failed".
    pub fn active(&self) -> (text: &str)
        ensures
            text@ == self@.active,
    {
        self.active.as_str()
    }

    /// The supervisor's finer-grained sub-state.
    pub fn sub(&self) -> (text: &str)
        ensures
            text@ == self@.sub,
    {
        self.sub.as_str()
    }

    /// The unit file's state as reported.
    pub fn file(&self) -> (text: &str)
        ensures
            text@ == self@.file,
    {
        self.file.as_str()
    }

    /// Where the unit's definition lies on disk; empty when no file backs it.
    pub fn path(&self) -> (text: &str)
        ensures
            text@ == self@.path,
    {
        self.path.as_str()
    }
}

impl Clone for ServiceState {
    fn clone(&self) -> (copy: Self)
        ensures
            copy@ == self@,
    {
        ServiceState {
            load: self.load.clone(),
            active: self.active.clone(),
            sub: self.sub.clone(),
            file: self.file.clone(),
            path: self.path.clone(),
        }
    }
}

impl Default for ServiceState {
    fn default() -> (state: Self)
        ensures
            state@ == Self::default_view(),
    {
        ServiceState {
            load: String::new(),
            active: String::new(),
            sub: String::new(),
            file: String::new(),
            path: String::new(),
        }
    }
}

} // verus!
