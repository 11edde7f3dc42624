//! The guards that stop an instance that runs away.
use vstd::prelude::*;
use crate::state::ProcessState;
use crate::text::{decimal, push_decimal};

verus! {

/// The message for a limit `max` that was exceeded.
fn exceeded(prefix: &str, max: usize) -> (m: String)
    ensures
        m@ == prefix@ + decimal(max as nat),
{
    let mut m = String::from_str(prefix);
    push_decimal(&mut m, max);
    m
}

/// Fails once more steps were taken than `max_steps` allows.
pub fn check_step_limit(state: &ProcessState) -> (r: Result<(), String>)
    ensures
        r is Err <==> state.step > state.limits.max_steps,
        r matches Err(m) ==> m@ == "超出最大步数 "@ + decimal(state.limits.max_steps as nat),
{
    if state.step > state.limits.max_steps {
        Err(exceeded("超出最大步数 ", state.limits.max_steps))
    } else {
        Ok(())
    }
}

/// Fails once the instance looped back more often than `max_loop` allows.
pub fn check_loop_limit(state: &ProcessState) -> (r: Result<(), String>)
    ensures
        r is Err <==> state.loop_count > state.limits.max_loop,
        r matches Err(m) ==> m@ == "超出最大环回次数 "@ + decimal(state.limits.max_loop as nat),
{
    if state.loop_count > state.limits.max_loop {
        Err(exceeded("超出最大环回次数 ", state.limits.max_loop))
    } else {
        Ok(())
    }
}

/// Fails once a node failed more often in a row than `max_retry` allows.
pub fn check_retry_limit(state: &ProcessState) -> (r: Result<(), String>)
    ensures
        r is Err <==> state.retry_count > state.limits.max_retry,
        r matches Err(m) ==> m@ == "超出最大重试次数 "@ + decimal(state.limits.max_retry as nat),
{
    if state.retry_count > state.limits.max_retry {
        Err(exceeded("超出最大重试次数 ", state.limits.max_retry))
    } else {
        Ok(())
    }
}

} // verus!
