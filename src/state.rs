use vstd::prelude::*;

verus! {

/// Life cycle of a single-point view: the point is loading, has just
/// loaded, or the view is interactive.
#[derive(Clone, Copy, Debug, PartialEq, Eq, Structural)]
pub enum AppState {
    Initializing,
    FirstLoad,
    Interactive,
}

/// What happens to a view: its asynchronous load completes, or the
/// interface polls it on a frame.
#[derive(Clone, Copy, Debug, PartialEq, Eq, Structural)]
pub enum ViewEvent {
    Loaded,
    Tick,
}

/// The state after `event`, and whether the derived structures (index,
/// chunks) are to be built now.
pub open spec fn step_spec(s: AppState, event: ViewEvent) -> (AppState, bool) {
    match event {
        ViewEvent::Loaded => match s {
            AppState::Initializing => (AppState::FirstLoad, false),
            _ => (s, false),
        },
        ViewEvent::Tick => match s {
            AppState::FirstLoad => (AppState::Interactive, true),
            _ => (s, false),
        },
    }
}

impl AppState {
    /// Applies `event`: a completed load moves an initializing view to
    /// `FirstLoad`; the first poll after that makes it interactive and asks
    /// for the derived structures to be built.
    pub fn step(self, event: ViewEvent) -> (r: (AppState, bool))
        ensures
            r == step_spec(self, event),
    {
        match event {
            ViewEvent::Loaded => match self {
                AppState::Initializing => (AppState::FirstLoad, false),
                _ => (self, false),
            },
            ViewEvent::Tick => match self {
                AppState::FirstLoad => (AppState::Interactive, true),
                _ => (self, false),
            },
        }
    }
}

/// The state after a run of events, and how many builds the run asked for.
pub open spec fn run(s: AppState, events: Seq<ViewEvent>) -> (AppState, nat)
    decreases events.len(),
{
    if events.len() == 0 {
        (s, 0)
    } else {
        let (mid, builds) = run(s, events.drop_last());
        let (next, build) = step_spec(mid, events.last());
        (next, if build { builds + 1 } else { builds })
    }
}

/// From `Initializing`, whatever the events, the build is asked for at most
/// once, and exactly when the view has become interactive.
pub proof fn lemma_first_load_once(events: Seq<ViewEvent>)
    ensures
        run(AppState::Initializing, events).1 <= 1,
        run(AppState::Initializing, events).1 == 1 <==> run(AppState::Initializing, events).0 == AppState::Interactive,
    decreases events.len(),
{
    if events.len() > 0 {
        lemma_first_load_once(events.drop_last());
    }
}

} // verus!
