use vstd::prelude::*;

verus! {

/// Whether a websocket channel is still settling or stable.
#[derive(PartialEq, Eq, Hash, Debug, Clone, Copy, Structural)]
pub enum WsChannelMode {
    Stabilize,
    Stable,
}

/// The mode of a channel after one of its ticks, all times in nanoseconds: it has to settle
/// again once the last pong is older than a ping interval and the time a pong may take
/// together, and is stable otherwise.
pub fn mode_after_tick(since_last_pong: u128, valid_pong_duration: u128, ping_interval: u128) -> (r: WsChannelMode)
    requires
        valid_pong_duration + ping_interval <= u128::MAX,
    ensures
        r == if since_last_pong > valid_pong_duration + ping_interval {
            WsChannelMode::Stabilize
        } else {
            WsChannelMode::Stable
        },
{
    if since_last_pong > valid_pong_duration + ping_interval {
        WsChannelMode::Stabilize
    } else {
        WsChannelMode::Stable
    }
}

} // verus!
