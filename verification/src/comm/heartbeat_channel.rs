use vstd::prelude::*;
use vstd::string::StringExecFns;

use core::time::Duration;

verus! {

/// The whole number of milliseconds in a duration.
pub uninterp spec fn duration_millis(d: Duration) -> u128;

/// `Duration::as_millis`: the total number of whole milliseconds the duration contains.
#[verifier::external_body]
fn as_millis(d: &Duration) -> (r: u128)
    ensures
        r == duration_millis(*d),
{
    d.as_millis()
}

/// `Duration::from_millis`: a duration of `ms` milliseconds, which holds exactly `ms` whole
/// milliseconds.
#[verifier::external_body]
fn from_millis(ms: u64) -> (r: Duration)
    ensures
        duration_millis(r) == ms,
{
    Duration::from_millis(ms)
}

/// How a channel that keeps checking that the mouse is alive sends its alive-messages and
/// waits for the answers.
pub struct HeartbeatWifiChannelConfig {
    pub send_interval: Duration,
    pub valid_response_interval: Duration,
    pub msg_to: String,
    pub expected_response: String,
    pub delim: u8,
    pub buffer_size: usize,
}

impl HeartbeatWifiChannelConfig {
    /// A configuration from its parts; `None` if answers would be awaited longer than the time
    /// between two alive-messages (in whole milliseconds), which would leave several messages
    /// waiting for an answer at once.
    pub fn new(
        send_interval: Duration,
        valid_response_interval: Duration,
        msg_to: String,
        expected_response: String,
        delim: u8,
        buffer_size: usize,
    ) -> (r: Option<Self>)
        ensures
            r is None <==> duration_millis(send_interval) < duration_millis(valid_response_interval),
            r matches Some(c) ==> {
                &&& c.send_interval == send_interval
                &&& c.valid_response_interval == valid_response_interval
                &&& c.msg_to@ == msg_to@
                &&& c.expected_response@ == expected_response@
                &&& c.delim == delim
                &&& c.buffer_size == buffer_size
            },
    {
        if as_millis(&send_interval) < as_millis(&valid_response_interval) {
            return None;
        }
        Some(Self { send_interval, valid_response_interval, msg_to, expected_response, delim, buffer_size })
    }
}

impl Default for HeartbeatWifiChannelConfig {
    /// An alive-message every second, answered within a fifth of a second, messages ended by
    /// `$` (byte 36).
    fn default() -> (r: Self)
        ensures
            duration_millis(r.send_interval) == 1000,
            duration_millis(r.valid_response_interval) == 200,
            r.msg_to@ == "ALIVE"@,
            r.expected_response@ == "CONFIRM-ALIVE"@,
            r.delim == 36,
            r.buffer_size == 64,
    {
        Self {
            send_interval: from_millis(1000),
            valid_response_interval: from_millis(200),
            msg_to: <String as StringExecFns>::from_str("ALIVE"),
            expected_response: <String as StringExecFns>::from_str("CONFIRM-ALIVE"),
            delim: 36,
            buffer_size: 64,
        }
    }
}

} // verus!
