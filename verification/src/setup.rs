//! The startup handshake: which of the two startup tasks have reported
//! completion, and when the splash screen gives way to the main window.

use vstd::prelude::*;

verus! {

/// Which startup task a completion report refers to.
pub enum SetupTask {
    Frontend,
    Backend,
}

/// Which startup tasks have reported completion.
pub struct SetupState {
    pub frontend_task: bool,
    pub backend_task: bool,
}

impl SetupState {
    /// The initial state: nothing has completed yet.
    pub fn new() -> (r: Self)
        ensures
            !r.frontend_task,
            !r.backend_task,
    {
        SetupState { frontend_task: false, backend_task: false }
    }
}

/// Records a finished startup task and decides whether the splash screen
/// gives way to the main window. The decision consults the frontend flag
/// alone; the backend flag is recorded but never read back here.
pub fn set_complete(state: &mut SetupState, task: SetupTask) -> (show_main: bool)
    ensures
        final(state).frontend_task == (old(state).frontend_task || task is Frontend),
        final(state).backend_task == (old(state).backend_task || task is Backend),
        show_main == final(state).frontend_task,
{
    match task {
        SetupTask::Frontend => state.frontend_task = true,
        SetupTask::Backend => state.backend_task = true,
    }
    state.frontend_task
}

} // verus!
