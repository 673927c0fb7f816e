//! The scene depth the stylised water reads: whether the world camera carries a depth prepass.

use vstd::prelude::*;

use crate::style::WaterStyle;

verus! {

/// Whether a switch is set to the one value that turns the prepass off.
pub open spec fn switched_off(switch: Option<Seq<char>>) -> bool {
    switch == Some(seq!['0'])
}

/// A switch's text.
pub open spec fn text_of(switch: Option<&str>) -> Option<Seq<char>> {
    match switch {
        Some(s) => Some(s@),
        None => None,
    }
}

/// Whether the prepass is armed: it is, unless the switch says `0`. Anything else reads as on.
pub fn depth_enabled(switch: Option<&str>) -> (r: bool)
    ensures
        r == !switched_off(text_of(switch)),
{
    match switch {
        Some(s) => {
            let off: bool = s.unicode_len() == 1 && s.get_char(0) == '0';
            assert(off ==> s@ =~= seq!['0']);
            !off
        },
        None => true,
    }
}

/// What is to be done with a camera's prepass.
#[derive(Clone, Copy, Debug, PartialEq, Eq, Structural)]
pub enum PrepassChange {
    Keep,
    Attach,
    Detach,
}

/// Whether the world camera should carry a prepass.
pub open spec fn prepass_wanted(style: WaterStyle, enabled: bool) -> bool {
    style == WaterStyle::Stylised && enabled
}

/// Whether a camera carries a prepass once a change has been made.
pub open spec fn carries_after(has: bool, change: PrepassChange) -> bool {
    match change {
        PrepassChange::Keep => has,
        PrepassChange::Attach => true,
        PrepassChange::Detach => false,
    }
}

/// What is to be done with a camera that carries a prepass, or does not: attach one while the
/// stylised look is on, take it away when it is not, and otherwise nothing at all.
pub fn maintain_depth_prepass(style: WaterStyle, enabled: bool, has: bool) -> (r: PrepassChange)
    ensures
        r == PrepassChange::Keep <==> has == prepass_wanted(style, enabled),
        carries_after(has, r) == prepass_wanted(style, enabled),
{
    let want: bool = style == WaterStyle::Stylised && enabled;
    if want == has {
        PrepassChange::Keep
    } else if want {
        PrepassChange::Attach
    } else {
        PrepassChange::Detach
    }
}

/// Only a lone nought switches the prepass off, and only the stylised look wants one.
pub proof fn law_only_a_nought_switches_off(
    switch: Option<Seq<char>>,
    style: WaterStyle,
    enabled: bool,
)
    ensures
        switched_off(switch) <==> switch is Some && switch->Some_0.len() == 1 && switch->Some_0[0] == '0',
        prepass_wanted(style, enabled) <==> style is Stylised && enabled,
{
    if let Some(s) = switch {
        if s.len() == 1 && s[0] == '0' {
            assert(s =~= seq!['0']);
        }
    }
}

} // verus!
