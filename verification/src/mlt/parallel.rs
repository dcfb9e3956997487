//! How many threads decoding and playback are asked to use.
//!
//! Both numbers are functions of the core count and of an override, so they
//! can be settled without media or a device.
use vstd::prelude::*;

use crate::text::a_number_reads_back;
use crate::text::a_signed_number_reads_back;
use crate::text::decimal;
use crate::text::integer_value;
use crate::text::is_space;
use crate::text::parse_i32;
use crate::text::signed;
use crate::text::trimmed;
use crate::text::trimming_takes_only_white_space;

verus! {

/// The producer's own ceiling on decode threads.
pub const MAX_DECODE_THREADS: usize = 4;

/// The number of decode threads to ask for on a machine with `cores`.
pub open spec fn threads_for(cores: int) -> int {
    if cores < 1 {
        1
    } else if cores > 4 {
        4
    } else {
        cores
    }
}

/// The number of decode threads to ask for on a machine with `cores`: one
/// each, within what the producer accepts.
pub fn decode_threads_for(cores: usize) -> (n: i32)
    ensures
        n == threads_for(cores as int),
{
    if cores < 1 {
        1
    } else if cores > MAX_DECODE_THREADS {
        MAX_DECODE_THREADS as i32
    } else {
        cores as i32
    }
}

/// The number of processing threads of a preview, dropping frames that cannot
/// be made in time: one, whatever the machine.
pub fn preview_real_time_for(cores: usize) -> (n: i32)
    ensures
        n == 1,
{
    1
}

/// A setting that replaces a choice: a number, white space at its ends aside.
/// A setting that is missing or does not read as a number is ignored.
pub open spec fn override_value(setting: Option<Seq<char>>) -> Option<int> {
    match setting {
        None => None,
        Some(s) => match integer_value(trimmed(s)) {
            Some(n) => if i32::MIN <= n <= i32::MAX {
                Some(n)
            } else {
                None
            },
            None => None,
        },
    }
}

/// The number in a setting, if it is there and is one.
pub fn override_of(setting: Option<&str>) -> (n: Option<i32>)
    ensures
        match n {
            Some(n) => setting is Some && override_value(Some(setting->Some_0@)) == Some(n as int),
            None => setting is Some ==> override_value(Some(setting->Some_0@)) is None,
        },
{
    match setting {
        Some(s) => parse_i32(s),
        None => None,
    }
}

/// What a setting replaces `chosen` by.
pub open spec fn chosen_or(setting: Option<&str>, chosen: int) -> int {
    match setting {
        Some(s) => match override_value(Some(s@)) {
            Some(n) => n,
            None => chosen,
        },
        None => chosen,
    }
}

/// [`decode_threads_for`] a machine, unless a setting replaces it.
pub fn decode_threads(setting: Option<&str>, cores: usize) -> (n: i32)
    ensures
        n == chosen_or(setting, threads_for(cores as int)),
{
    match override_of(setting) {
        Some(n) => n,
        None => decode_threads_for(cores),
    }
}

/// [`preview_real_time_for`] a machine, unless a setting replaces it.
pub fn preview_real_time(setting: Option<&str>, cores: usize) -> (n: i32)
    ensures
        n == chosen_or(setting, 1),
{
    match override_of(setting) {
        Some(n) => n,
        None => preview_real_time_for(cores),
    }
}

/// Decoding asks for one thread for each core, for no more than four, and for
/// one at least.
pub proof fn threads_follow_the_cores(cores: int)
    ensures
        1 <= threads_for(cores) <= 4,
        1 <= cores <= 4 ==> threads_for(cores) == cores,
        cores > 4 ==> threads_for(cores) == 4,
{
}

/// A setting that is a number replaces the choice by that number, whatever it
/// is; one that is missing leaves it.
pub proof fn a_setting_replaces_the_choice(n: int, chosen: int)
    requires
        i32::MIN <= n <= i32::MAX,
    ensures
        override_value(Some(signed(n))) == Some(n),
        override_value(None) is None,
        chosen_or(None, chosen) == chosen,
{
    let s = signed(n);
    a_signed_number_reads_back(n);
    let m = if n < 0 {
        (-n) as nat
    } else {
        n as nat
    };
    a_number_reads_back(m);
    lemma_digits(m);
    let (a, b) = trimming_takes_only_white_space(s);
    assert(!is_space(s[0]));
    assert(!is_space(s[s.len() - 1]));
    assert(a == 0 && b == s.len());
    assert(s.subrange(0, s.len() as int) =~= s);
}

proof fn lemma_digits(n: nat)
    ensures
        decimal(n).len() > 0,
        48 <= decimal(n)[0] as int <= 57,
        48 <= decimal(n)[decimal(n).len() - 1] as int <= 57,
{
    a_number_reads_back(n);
}

} // verus!
