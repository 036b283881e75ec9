use vstd::prelude::*;
use crate::channels::{average_volume, mean_of};
use crate::command::{msg_of, parse_msg, Msg};
use crate::volume::{clamp_i64, is_pct_of, pct_to_vol, raw_of_pct, vol_to_pct, DomainError};

verus! {

/// What one message does to the control.
#[derive(Debug, Clone, Copy, PartialEq, Eq)]
pub struct Adjustment {
    /// The control's percentage before the message, in hundredths.
    pub current: i64,
    /// The percentage after the message, in hundredths: the one to show.
    pub target: i64,
    /// The raw volume to write to every channel, where the message asks
    /// for a change.
    pub write: Option<i64>,
}

/// The percentage, in hundredths, that message `m` asks for when the control
/// stands at `current`.
pub open spec fn target_of(m: Msg, current: int) -> int {
    match m {
        Msg::Inc(n) => current + 100 * n,
        Msg::Dec(n) => current - 100 * n,
        Msg::Nop => current,
    }
}

/// Decides what one message does, given the raw volume of each channel of
/// the control and the device's upper bound: the control stands at the
/// percentage of its channels' mean; `+n` and `-n` move that by `n` points
/// and give the raw volume to write; anything else leaves it.
pub fn plan_adjustment(msg: &str, volumes: &Vec<i64>, max_val: i64) -> (r: Result<
    Adjustment,
    DomainError,
>)
    ensures
        volumes@.len() == 0 ==> r == Err::<Adjustment, DomainError>(DomainError::NoChannels),
        volumes@.len() > 0 && max_val <= 0 ==> r == Err::<Adjustment, DomainError>(
            DomainError::EmptyRange,
        ),
        volumes@.len() > 0 && max_val > 0 ==> r is Ok,
        r matches Ok(a) ==> {
            &&& is_pct_of(a.current as int, mean_of(volumes@), max_val as int)
            &&& a.target == target_of(msg_of(msg@), a.current as int)
            &&& a.write == (if msg_of(msg@) == Msg::Nop {
                None::<i64>
            } else {
                Some(clamp_i64(raw_of_pct(a.target as int, max_val as int)) as i64)
            })
        },
{
    let avg = match average_volume(volumes) {
        Ok(v) => v,
        Err(e) => return Err(e),
    };
    let current = match vol_to_pct(avg, max_val) {
        Ok(p) => p,
        Err(e) => return Err(e),
    };
    let m = parse_msg(msg);
    match m {
        Msg::Inc(n) => {
            let target = current + 100 * (n as i64);
            Ok(Adjustment { current, target, write: Some(pct_to_vol(target, max_val)) })
        },
        Msg::Dec(n) => {
            let target = current - 100 * (n as i64);
            Ok(Adjustment { current, target, write: Some(pct_to_vol(target, max_val)) })
        },
        Msg::Nop => Ok(Adjustment { current, target: current, write: None }),
    }
}

} // verus!
