use crate::network::Timestamp;
use crate::utils::{decimal_value, parse_time, time_fields, time_value, valid_time};
use vstd::prelude::*;

verus! {

/// The time that a change of vehicles takes in the example scenario: three
/// minutes.
pub fn get_example_transfer_time() -> (t: Timestamp)
    ensures
        t == 180,
{
    3 * 60
}

/// The time at which the passenger of the example scenario sets out: half
/// past eight in the morning.
pub fn get_example_start_time() -> (t: Timestamp)
    ensures
        t == 30600,
{
    proof {
        reveal_strlit("08:30:00");
        let text = "08:30:00"@;
        let (h, m, s) = time_fields(text);
        assert(h =~= seq!['0', '8']);
        assert(m =~= seq!['3', '0']);
        assert(s =~= seq!['0', '0']);
        reveal_with_fuel(decimal_value, 3);
        assert(decimal_value(h) == 8);
        assert(decimal_value(m) == 30);
        assert(decimal_value(s) == 0);
        assert(valid_time(text));
        assert(time_value(text) == 30600);
    }
    match parse_time("08:30:00") {
        Ok(t) => t,
        Err(_) => vstd::pervasive::unreached(),
    }
}

} // verus!
