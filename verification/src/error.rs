//! Errors surfaced to the host application, and the sentence each one is
//! shown as.
use vstd::prelude::*;

use crate::text::{contains, occurs_at, push_text};

verus! {

/// The result type used throughout this crate.
pub type Result<T> = std::result::Result<T, Error>;

/// Anything that can go wrong moving bytes or driving the player.
#[derive(Debug)]
#[non_exhaustive]
pub enum Error {
    /// No mpv executable could be found.
    MpvNotFound,
    /// The player process would not start.
    PlayerLaunch {
        /// What the operating system reported.
        message: String,
    },
    /// The control channel failed.
    PlayerIpc {
        /// What went wrong on the channel.
        message: String,
    },
    /// mpv rejected a command.
    PlayerCommand {
        /// The error mpv reported.
        message: String,
    },
    /// The source is not something the player can be handed.
    UnplayableSource {
        /// Why not, in terms a person can act on.
        reason: String,
    },
}

/// The sentence for a missing mpv: it says what to do next.
pub open spec fn not_found_text() -> Seq<char> {
    "mpv was not found. Install it (winget install shinchiro.mpv on Windows, or your package manager elsewhere), or set the mpv path explicitly"@
}

/// The words put before the detail of each error that carries one.
pub open spec fn error_lead(e: Error) -> Seq<char> {
    match e {
        Error::MpvNotFound => Seq::<char>::empty(),
        Error::PlayerLaunch { .. } => "could not start mpv: "@,
        Error::PlayerIpc { .. } => "lost contact with mpv: "@,
        Error::PlayerCommand { .. } => "mpv rejected the command: "@,
        Error::UnplayableSource { .. } => "this source cannot be played directly: "@,
    }
}

/// The detail an error carries (empty for a missing mpv).
pub open spec fn error_detail(e: Error) -> Seq<char> {
    match e {
        Error::MpvNotFound => Seq::<char>::empty(),
        Error::PlayerLaunch { message } => message@,
        Error::PlayerIpc { message } => message@,
        Error::PlayerCommand { message } => message@,
        Error::UnplayableSource { reason } => reason@,
    }
}

/// How an error reads to a person.
pub open spec fn error_text(e: Error) -> Seq<char> {
    match e {
        Error::MpvNotFound => not_found_text(),
        _ => error_lead(e) + error_detail(e),
    }
}

impl Error {
    /// The error as a sentence for a person.
    pub fn to_string(&self) -> (res: String)
        ensures
            res@ == error_text(*self),
    {
        match self {
            Error::MpvNotFound => String::from_str(
                "mpv was not found. Install it (winget install shinchiro.mpv on Windows, or your package manager elsewhere), or set the mpv path explicitly",
            ),
            Error::PlayerLaunch { message } => {
                let mut s = String::from_str("could not start mpv: ");
                push_text(&mut s, message.as_str());
                s
            },
            Error::PlayerIpc { message } => {
                let mut s = String::from_str("lost contact with mpv: ");
                push_text(&mut s, message.as_str());
                s
            },
            Error::PlayerCommand { message } => {
                let mut s = String::from_str("mpv rejected the command: ");
                push_text(&mut s, message.as_str());
                s
            },
            Error::UnplayableSource { reason } => {
                let mut s = String::from_str("this source cannot be played directly: ");
                push_text(&mut s, reason.as_str());
                s
            },
        }
    }
}

/// Every error that carries a detail shows it: the detail is the end of the
/// sentence, so it is always found in it.
pub proof fn lemma_error_text_carries_detail(e: Error)
    ensures
        contains(error_text(e), error_detail(e)),
        error_text(e).skip(error_text(e).len() - error_detail(e).len()) == error_detail(e),
{
    let t = error_text(e);
    let d = error_detail(e);
    match e {
        Error::MpvNotFound => {
            assert(occurs_at(t, d, 0)) by {
                assert(t.subrange(0, 0) =~= d);
            }
            crate::text::lemma_occurs_contains(t, d, 0);
            assert(t.skip(t.len() - 0) =~= d);
        },
        _ => {
            let lead = error_lead(e);
            assert(t.subrange(lead.len() as int, (lead.len() + d.len()) as int) =~= d);
            crate::text::lemma_occurs_contains(t, d, lead.len() as int);
            assert(t.skip(t.len() - d.len()) =~= d);
        },
    }
}

} // verus!
