//! The Scaler's messages.
use vstd::prelude::*;
use crate::strs::{decimal, push_decimal};
use crate::style::strings_view;
use crate::text::Warnings;

verus! {

/// `st`, `nd`, `rd` or `th`, as English writes after `n`.
pub open spec fn ordinal_suffix(n: nat) -> Seq<char> {
    if 10 <= n % 100 <= 20 {
        "th"@
    } else if n % 10 == 1 {
        "st"@
    } else if n % 10 == 2 {
        "nd"@
    } else if n % 10 == 3 {
        "rd"@
    } else {
        "th"@
    }
}

pub open spec fn ordinal_spec(n: nat) -> Seq<char> {
    decimal(n) + ordinal_suffix(n)
}

/// `1st`, `2nd`, `11th`, `23rd`, ...
pub fn ordinal(n: usize) -> (r: String)
    ensures
        r@ == ordinal_spec(n as nat),
{
    let mut out = String::new();
    push_decimal(n as u128, &mut out);
    let suffix = if 10 <= n % 100 && n % 100 <= 20 {
        "th"
    } else if n % 10 == 1 {
        "st"
    } else if n % 10 == 2 {
        "nd"
    } else if n % 10 == 3 {
        "rd"
    } else {
        "th"
    };
    out.append(suffix);
    out
}

/// The "no plot area" message for the `idx`-th (0-based) selected plot.
pub open spec fn non_plot_message(idx: nat, gid: Seq<char>) -> Seq<char> {
    "A box-like plot area could not be automatically detected on the "@ + ordinal_spec(idx + 1)
        + " selected plot (group ID "@ + gid
        + ").\n\nDraw a box with a stroke to define the plot area or mark objects as plot area-determining in the Advanced tab.\nScaling will still be performed, but the results may not be ideal."@
}

pub fn warn_non_plot(warn: &mut Warnings, idx: usize, gid: &str)
    requires
        idx < usize::MAX,
    ensures
        strings_view(final(warn).0@) == (if strings_view(old(warn).0@).contains(non_plot_message(idx as nat, gid@)) {
            strings_view(old(warn).0@)
        } else {
            strings_view(old(warn).0@).push(non_plot_message(idx as nat, gid@))
        }),
{
    let mut m = String::from_str("A box-like plot area could not be automatically detected on the ");
    let o = ordinal(idx + 1);
    m.append(o.as_str());
    m.append(" selected plot (group ID ");
    m.append(gid);
    m.append(").\n\nDraw a box with a stroke to define the plot area or mark objects as plot area-determining in the Advanced tab.\nScaling will still be performed, but the results may not be ideal.");
    warn.push(m.as_str());
}

} // verus!
