//! The shell-specific activation and deactivation command for a chosen
//! profile, as text. Which shell is running — and printing the command —
//! is the caller's concern; this module only formats.

use vstd::prelude::*;
use crate::text::{contains_seq, str_contains};

verus! {

/// Whether the shell name points at nushell.
pub open spec fn shell_is_nu(shell: Seq<char>) -> bool {
    contains_seq(shell, "nu"@) || contains_seq(shell, "nushell"@)
}

/// Whether the shell name points at fish.
pub open spec fn shell_is_fish(shell: Seq<char>) -> bool {
    contains_seq(shell, "fish"@)
}

/// The command that makes `name` the active profile in the given shell.
pub open spec fn activate_command(shell: Seq<char>, name: Seq<char>) -> Seq<char> {
    if shell_is_nu(shell) {
        "$env.AWS_PROFILE = \""@ + name + "\""@
    } else if shell_is_fish(shell) {
        "set -gx AWS_PROFILE \""@ + name + "\""@
    } else {
        "export AWS_PROFILE=\""@ + name + "\""@
    }
}

/// The command that clears the active profile in the given shell.
pub open spec fn deactivate_command(shell: Seq<char>) -> Seq<char> {
    if shell_is_nu(shell) {
        "hide-env AWS_PROFILE"@
    } else if shell_is_fish(shell) {
        "set -e AWS_PROFILE"@
    } else {
        "unset AWS_PROFILE"@
    }
}

/// Formats the command that activates `profile_name` — or deactivates the
/// profile when there is none — for the shell whose name is `shell`.
pub fn shell_command(shell: &str, profile_name: Option<&str>) -> (r: String)
    ensures
        match profile_name {
            Some(name) => r@ == activate_command(shell@, name@),
            None => r@ == deactivate_command(shell@),
        },
{
    let nu = str_contains(shell, "nu") || str_contains(shell, "nushell");
    let fish = str_contains(shell, "fish");
    match profile_name {
        Option::Some(name) => {
            let mut cmd = if nu {
                String::from_str("$env.AWS_PROFILE = \"")
            } else if fish {
                String::from_str("set -gx AWS_PROFILE \"")
            } else {
                String::from_str("export AWS_PROFILE=\"")
            };
            cmd.append(name);
            cmd.append("\"");
            proof {
                assert(cmd@ =~= activate_command(shell@, name@));
            }
            cmd
        },
        Option::None => {
            if nu {
                String::from_str("hide-env AWS_PROFILE")
            } else if fish {
                String::from_str("set -e AWS_PROFILE")
            } else {
                String::from_str("unset AWS_PROFILE")
            }
        },
    }
}

} // verus!
