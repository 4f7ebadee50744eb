use vstd::prelude::*;
use crate::types::config::{update_applied, Config, ConfigUpdate};
use crate::types::Storage;

verus! {

#[derive(Debug)]
pub enum ControllerError {
    CallerIsNotAController,
}

/// Apply a settings change on a controller's behalf; anyone else is
/// turned away with nothing changed. The returned handles are the
/// timers the host must cancel, in stage order.
pub fn update_config(
    storage: &mut Storage,
    is_controller: bool,
    config: &ConfigUpdate,
    signer_timer: u64,
    writer_timer: u64,
    checker_timer: u64,
) -> (r: Result<(Option<u64>, Option<u64>, Option<u64>), ControllerError>)
    ensures
        !is_controller ==> (r matches Err(e) && e is CallerIsNotAController && *final(storage)
            == *old(storage)),
        is_controller ==> (r matches Ok(cancelled) && update_applied(
            *config,
            *old(storage),
            *final(storage),
            cancelled,
            signer_timer,
            writer_timer,
            checker_timer,
        )),
{
    if !is_controller {
        return Err(ControllerError::CallerIsNotAController);
    }
    Ok(config.apply(storage, signer_timer, writer_timer, checker_timer))
}

/// Read the settings on a controller's behalf.
pub fn get_config(storage: &Storage, is_controller: bool) -> (r: Result<Config, ControllerError>)
    ensures
        !is_controller ==> (r matches Err(e) && e is CallerIsNotAController),
        is_controller ==> (r matches Ok(c) && c.key@ == storage.key@ && c.signer_interval_secs
            == storage.signer_job.interval() && c.writer_interval_secs
            == storage.writer_job.interval() && c.checker_interval_secs
            == storage.checker_job.interval()),
{
    if !is_controller {
        return Err(ControllerError::CallerIsNotAController);
    }
    Ok(Config::get(storage))
}

} // verus!
