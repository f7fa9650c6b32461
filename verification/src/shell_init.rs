//! Aliases for shells.
use vstd::prelude::*;

use crate::text::{append_str, from_chars, to_chars};

verus! {

/// A shell.
#[derive(Clone, Copy, Debug, Eq, PartialEq, Structural)]
pub enum Shell {
    Dash,
    Bash,
    Zsh,
    Fish,
}

/// The shell to make aliases for.
#[derive(Clone, Copy, Debug)]
pub struct ShellInitArgs {
    pub shell: Shell,
}

/// The syntax of completions.
#[derive(Clone, Copy, Debug, Eq, PartialEq, Structural)]
pub enum CompletionSyntax {
    Bash,
    Zsh,
    Fish,
}

/// The aliases of a shell: assignments with `=`, but for fish with a space. The
/// alias for alerts is there where there is an alerts channel.
pub open spec fn alias_text(shell: Shell, has_alerts_channel: bool) -> Seq<char> {
    match shell {
        Shell::Fish => {
            let base =
                "\n# tg aliases\nalias tgo 'tg open'\nalias tgs 'tg send'\nalias tgl 'tg list'\nalias tgt 'tg todos open'"@;
            if has_alerts_channel {
                base + "\nalias tga 'tg send-alert'"@
            } else {
                base
            }
        },
        _ => {
            let base =
                "\n# tg aliases\nalias tgo='tg open'\nalias tgs='tg send'\nalias tgl='tg list'\nalias tgt='tg todos open'"@;
            if has_alerts_channel {
                base + "\nalias tga='tg send-alert'"@
            } else {
                base
            }
        },
    }
}

impl Shell {
    /// The aliases of the shell.
    pub fn aliases(&self, has_alerts_channel: bool) -> (r: String)
        ensures
            r@ == alias_text(*self, has_alerts_channel),
    {
        let mut v: Vec<char> = Vec::new();
        match self {
            Shell::Fish => {
                v =
                to_chars(
                    "\n# tg aliases\nalias tgo 'tg open'\nalias tgs 'tg send'\nalias tgl 'tg list'\nalias tgt 'tg todos open'",
                );
                if has_alerts_channel {
                    append_str(&mut v, "\nalias tga 'tg send-alert'");
                }
            },
            _ => {
                v =
                to_chars(
                    "\n# tg aliases\nalias tgo='tg open'\nalias tgs='tg send'\nalias tgl='tg list'\nalias tgt='tg todos open'",
                );
                if has_alerts_channel {
                    append_str(&mut v, "\nalias tga='tg send-alert'");
                }
            },
        }
        from_chars(v.as_slice())
    }

    /// The syntax of the completions for the shell: dash takes those for bash.
    pub fn completion_syntax(&self) -> (r: CompletionSyntax)
        ensures
            r == (match *self {
                Shell::Zsh => CompletionSyntax::Zsh,
                Shell::Fish => CompletionSyntax::Fish,
                _ => CompletionSyntax::Bash,
            }),
    {
        match self {
            Shell::Zsh => CompletionSyntax::Zsh,
            Shell::Fish => CompletionSyntax::Fish,
            _ => CompletionSyntax::Bash,
        }
    }
}

} // verus!
