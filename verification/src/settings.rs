//! What the programs read from their environment. Each function takes the values of the variables;
//! `None` stands for one that is not set.

use vstd::prelude::*;

use crate::text::{owned, parse_unsigned, same, unsigned_value};

verus! {

/// The number that a variable sets, up to `max`; the default where it sets none.
pub open spec fn configured(setting: Option<&str>, max: u64, default: u64) -> u64 {
    match setting {
        Some(text) => match unsigned_value(text@, max as nat) {
            Some(n) => n as u64,
            None => default,
        },
        None => default,
    }
}

/// The number that a variable sets, up to `max`; the default where it sets none.
pub fn number_or(setting: Option<&str>, max: u64, default: u64) -> (n: u64)
    ensures
        n == configured(setting, max, default),
        default <= max ==> n <= max,
{
    match setting {
        Some(text) => match parse_unsigned(text, max) {
            Some(n) => n,
            None => default,
        },
        None => default,
    }
}

/// The text that a variable sets, or the default.
pub fn text_or(setting: Option<&str>, default: &str) -> (text: String)
    ensures
        text@ == match setting {
            Some(given) => given@,
            None => default@,
        },
{
    match setting {
        Some(given) => owned(given),
        None => owned(default),
    }
}

/// Where the metrics are served; `None` where they are switched off.
pub fn metrics_address(setting: Option<&str>) -> (address: Option<String>)
    ensures
        match address {
            Some(text) => text@ != "off"@ && text@ == match setting {
                Some(given) => given@,
                None => "127.0.0.1:9090"@,
            },
            None => setting matches Some(given) && given@ == "off"@,
        },
{
    match setting {
        Some(given) => if same(given, "off") {
            None
        } else {
            Some(owned(given))
        },
        None => {
            proof {
                reveal_strlit("off");
                reveal_strlit("127.0.0.1:9090");
                assert("127.0.0.1:9090"@.len() != "off"@.len());
            }
            Some(owned("127.0.0.1:9090"))
        },
    }
}

/// The nanoseconds between two sweeps: a third of the timeout, and a second at least.
pub open spec fn sweep_nanos(timeout_secs: int) -> int {
    if timeout_secs * 1_000_000_000 / 3 < 1_000_000_000 {
        1_000_000_000
    } else {
        timeout_secs * 1_000_000_000 / 3
    }
}

/// How often the coordinator looks for dead nodes, in nanoseconds: a third of the liveness timeout,
/// but not more often than once a second.
pub fn reap_interval(timeout_secs: u64) -> (nanos: u128)
    ensures
        nanos == sweep_nanos(timeout_secs as int),
{
    let third: u128 = timeout_secs as u128 * 1_000_000_000 / 3;
    if third < 1_000_000_000 {
        1_000_000_000
    } else {
        third
    }
}

/// A setting is the number that it spells, as long as that is not too large; without one, and
/// with a text that is no number, the default stands.
pub proof fn law_a_setting_is_what_it_spells(setting: &str, max: u64, default: u64, n: u64)
    ensures
        setting@ == crate::text::decimal_of(n as nat) && n <= max ==> configured(
            Some(setting),
            max,
            default,
        ) == n,
        setting@ == crate::text::decimal_of(n as nat) && n > max ==> configured(
            Some(setting),
            max,
            default,
        ) == default,
        (exists|i: int| 0 <= i < setting@.len() && !('0' <= #[trigger] setting@[i] <= '9')
            && setting@[i] != '+') ==> configured(Some(setting), max, default) == default,
        configured(None, max, default) == default,
{
    crate::text::law_decimals_read_back(n as nat, max as nat);
    if exists|i: int|
        0 <= i < setting@.len() && !('0' <= #[trigger] setting@[i] <= '9') && setting@[i] != '+' {
        let i = choose|i: int|
            0 <= i < setting@.len() && !('0' <= #[trigger] setting@[i] <= '9') && setting@[i]
                != '+';
        crate::text::law_only_digits_are_a_number(setting@, max as nat, i);
    }
}

/// Sweeps come three to a timeout, and never more than one a second.
pub proof fn law_sweeps_come_three_to_a_timeout(timeout_secs: int)
    requires
        timeout_secs >= 0,
    ensures
        sweep_nanos(timeout_secs) >= 1_000_000_000,
        timeout_secs >= 3 ==> 3 * sweep_nanos(timeout_secs) <= timeout_secs * 1_000_000_000 < 3 * (
        sweep_nanos(timeout_secs) + 1),
        timeout_secs < 3 ==> sweep_nanos(timeout_secs) == 1_000_000_000,
{
}

} // verus!
