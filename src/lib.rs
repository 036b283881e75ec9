//! Volume mapping, command parsing and per-connection decisions for a
//! small daemon that mirrors a mixer control's volume into notifications.
//!
//! Percentages are held as whole numbers of hundredths of a percent
//! (`7937` is 79.37%), the precision to which they are rounded.

mod channels;
mod command;
mod label;
mod session;
mod volume;

pub use channels::{average_volume, mean_of, sum_of};
pub use command::{amount_of, msg_of, parse_msg, parse_u32, u32_of, Msg};
pub use label::{label_of, pct_label};
pub use session::{plan_adjustment, target_of, Adjustment};
pub use volume::{
    clamp_i64, cube, is_pct_of, is_rounded_cbrt, lemma_pct_of_max, lemma_pct_of_zero,
    lemma_pct_unique, lemma_round_trip, pct_to_vol, raw_of_pct, trunc_div, vol_to_pct,
    DomainError, CUBE_SCALE,
};
