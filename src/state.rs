use vstd::prelude::*;

verus! {

/// Lifecycle state of a tenant.
#[derive(Clone, Copy, Debug, PartialEq, Eq, Structural)]
pub enum TenantState {
    /// Initial state: loaded, no operation that mutates timelines is allowed.
    Paused,
    /// Serving; background loops run when `background_jobs_running` is set.
    Active { background_jobs_running: bool },
    /// Terminal: no further transition is accepted.
    Broken,
}

/// Lifecycle state of a timeline.
#[derive(Clone, Copy, Debug, PartialEq, Eq, Structural)]
pub enum TimelineState {
    Active,
    Suspended,
    Paused,
    Broken,
}

/// The state a tenant in `current` is in after a request to enter `requested`:
/// a broken tenant stays broken, any other takes the requested state.
pub open spec fn next_tenant_state(current: TenantState, requested: TenantState) -> TenantState {
    if current is Broken {
        current
    } else {
        requested
    }
}

/// The state that a non-broken timeline takes when its tenant enters `tenant_state`.
pub open spec fn timeline_state_for(tenant_state: TenantState) -> TimelineState {
    if tenant_state is Active {
        TimelineState::Active
    } else {
        TimelineState::Suspended
    }
}

impl TenantState {
    /// Whether the tenant accepts operations that mutate timelines.
    pub fn is_active(&self) -> (r: bool)
        ensures
            r == (*self is Active),
    {
        match self {
            TenantState::Active { .. } => true,
            _ => false,
        }
    }

    /// Whether background loops (GC, compaction) should run.
    pub fn should_run_tasks(&self) -> (r: bool)
        ensures
            r == (*self == TenantState::Active { background_jobs_running: true }),
    {
        match self {
            TenantState::Active { background_jobs_running } => *background_jobs_running,
            _ => false,
        }
    }
}

impl TimelineState {
    pub fn is_broken(&self) -> (r: bool)
        ensures
            r == (*self is Broken),
    {
        match self {
            TimelineState::Broken => true,
            _ => false,
        }
    }
}

} // verus!
