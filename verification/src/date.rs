use vstd::prelude::*;
use std::time::{Duration, SystemTime, UNIX_EPOCH};
use crate::constants::{GLOBAL_DATE_NAME, NUMBER_ZERO};
use crate::frame::writes_only;
use crate::global::{binds_method, global_ref, get_global_object_by_name, install_function};
use crate::numbits::{number_from_u128, f64_sign, f64_int_value, round_f64};
use crate::value::{Builtin, Context, JsValue};

verus! {

#[verifier::external_type_specification]
#[verifier::external_body]
pub struct ExSystemTime(SystemTime);

/// `SystemTime::now`: the current time of the system clock. Nothing is stated of it.
#[verifier::external_body]
fn system_now() -> SystemTime {
    SystemTime::now()
}

/// `SystemTime::duration_since` from `UNIX_EPOCH`: the time from the epoch to `t`, `None`
/// when `t` is earlier. Nothing is stated of the duration.
#[verifier::external_body]
fn elapsed_since_epoch(t: &SystemTime) -> Option<Duration> {
    t.duration_since(UNIX_EPOCH).ok()
}

/// `Duration::as_millis`: the whole milliseconds of `d`. Nothing is stated of the number.
#[verifier::external_body]
fn whole_millis(d: &Duration) -> u128 {
    d.as_millis()
}

/// The value `Date.now` returns at `millis` milliseconds after the epoch: that number,
/// rounded to the nearest double.
pub fn date_now_value(millis: u128) -> (r: JsValue)
    ensures
        r matches JsValue::Number(b) && !f64_sign(b) && f64_int_value(b) == Some(round_f64(millis as nat) as int),
{
    JsValue::Number(number_from_u128(millis))
}

/// `Date.now`: the milliseconds from the Unix epoch to now by the system clock (0 when the
/// clock is before the epoch), as a number. Whatever the clock reads, the result is a
/// non-negative whole number.
pub fn date_now() -> (r: JsValue)
    ensures
        r matches JsValue::Number(b) && !f64_sign(b) && f64_int_value(b) is Some,
{
    let now = system_now();
    let millis: u128 = match elapsed_since_epoch(&now) {
        Some(d) => whole_millis(&d),
        None => 0,
    };
    date_now_value(millis)
}

} // verus!

verus! {

/// Installs `Date.now` (a native function of length 0) on the global `Date` object.
pub fn bind_global_date(ctx: &mut Context)
    requires
        old(ctx).wf(),
        global_ref(old(ctx).objects@, old(ctx).global as int, GLOBAL_DATE_NAME@) is Some,
    ensures
        final(ctx).wf(),
        final(ctx).global == old(ctx).global,
        final(ctx).scope == old(ctx).scope,
        writes_only(old(ctx).objects@, final(ctx).objects@, set!["now"@], Set::empty()),
        binds_method(
            final(ctx).objects@,
            global_ref(old(ctx).objects@, old(ctx).global as int, GLOBAL_DATE_NAME@).unwrap() as int,
            "now"@,
            NUMBER_ZERO,
            Builtin::DateNow,
        ),
{
    let date = match get_global_object_by_name(ctx, GLOBAL_DATE_NAME) {
        Some(id) => id,
        None => 0,
    };
    install_function(ctx, date, "now", NUMBER_ZERO, Builtin::DateNow, false);
}

} // verus!
