//! Command dispatch and the validation rules of poll management: which
//! interaction name maps to which handler, what a poll name may look like,
//! and what a well-formed set of poll options is.

use vstd::prelude::*;
use vstd::string::StrSliceExecFns;
use vstd::string::StringExecFns;

verus! {

/// The commands the interaction layer can dispatch to.
#[derive(Clone, Copy, PartialEq, Eq, Structural, Debug)]
pub enum CommandKind {
    Poll,
}

/// Maps an interaction's command name to its handler. Only the poll
/// command is registered.
pub fn get_handler(command_name: &str) -> (r: Option<CommandKind>)
    ensures
        match r {
            Some(k) => command_name@ == "poll"@ && k == CommandKind::Poll,
            None => command_name@ != "poll"@,
        },
{
    let owned: String = command_name.to_owned();
    let poll: String = String::from_str("poll");
    if owned.eq(&poll) {
        Some(CommandKind::Poll)
    } else {
        None
    }
}

/// The sub-commands of the poll command.
#[derive(Clone, Copy, PartialEq, Eq, Structural, Debug)]
pub enum PollSubcommand {
    Create,
    Close,
    Tally,
}

/// Maps a sub-option name of the poll command to the sub-command it stands
/// for; anything else is ignored.
pub fn poll_subcommand(name: &str) -> (r: Option<PollSubcommand>)
    ensures
        match r {
            Some(PollSubcommand::Create) => name@ == "create"@,
            Some(PollSubcommand::Close) => name@ == "close"@,
            Some(PollSubcommand::Tally) => name@ == "tally"@,
            None => name@ != "create"@ && name@ != "close"@ && name@ != "tally"@,
        },
{
    let owned: String = name.to_owned();
    if owned.eq(&String::from_str("create")) {
        Some(PollSubcommand::Create)
    } else if owned.eq(&String::from_str("close")) {
        Some(PollSubcommand::Close)
    } else if owned.eq(&String::from_str("tally")) {
        Some(PollSubcommand::Tally)
    } else {
        None
    }
}

/// A character a poll name may contain: a lower-case letter, a digit, or a
/// dash.
pub open spec fn allowed_name_char(c: char) -> bool {
    ('a' <= c && c <= 'z') || ('0' <= c && c <= '9') || c == '-'
}

/// A valid poll name: non-empty, lower-case letters, digits and dashes
/// only.
pub open spec fn spec_poll_name_valid(s: Seq<char>) -> bool {
    s.len() >= 1 && forall|i: int| 0 <= i < s.len() ==> allowed_name_char(s[i])
}

/// Checks a poll name against the naming rule.
pub fn poll_name_valid(name: &str) -> (r: bool)
    ensures
        r == spec_poll_name_valid(name@),
{
    let len = name.unicode_len();
    if len == 0 {
        return false;
    }
    let mut i: usize = 0;
    while i < len
        invariant
            len == name@.len(),
            0 <= i <= len,
            forall|k: int| 0 <= k < i ==> allowed_name_char(name@[k]),
        decreases len - i,
    {
        let c = name.get_char(i);
        if !(('a' <= c && c <= 'z') || ('0' <= c && c <= '9') || c == '-') {
            return false;
        }
        i = i + 1;
    }
    true
}

/// The allowed number of ranked choices for a poll.
pub fn ranks_valid(ranks: i64) -> (r: bool)
    ensures
        r == (2 <= ranks <= 20),
{
    2 <= ranks && ranks <= 20
}

/// What can be wrong with a submitted list of poll options.
#[derive(Clone, Copy, PartialEq, Eq, Structural, Debug)]
pub enum PollOptionsError {
    /// The option at this position is empty.
    Empty(usize),
    /// Fewer than two options were given.
    TooFew,
}

/// Checks the option list of a new poll: every option must be non-empty,
/// and at least two must be given. The first empty option is reported.
pub fn check_poll_options(opts: &Vec<String>) -> (r: Result<(), PollOptionsError>)
    ensures
        match r {
            Ok(_) => opts@.len() >= 2 && forall|i: int| 0 <= i < opts@.len() ==> opts@[i]@.len()
                > 0,
            Err(PollOptionsError::Empty(i)) => i < opts@.len() && opts@[i as int]@.len() == 0
                && forall|k: int| 0 <= k < i ==> opts@[k]@.len() > 0,
            Err(PollOptionsError::TooFew) => opts@.len() < 2 && forall|i: int|
                0 <= i < opts@.len() ==> opts@[i]@.len() > 0,
        },
{
    let m = opts.len();
    let mut i: usize = 0;
    while i < m
        invariant
            m == opts@.len(),
            0 <= i <= m,
            forall|k: int| 0 <= k < i ==> opts@[k]@.len() > 0,
        decreases m - i,
    {
        if opts[i].as_str().is_empty() {
            return Err(PollOptionsError::Empty(i));
        }
        i = i + 1;
    }
    if m < 2 {
        return Err(PollOptionsError::TooFew);
    }
    Ok(())
}

/// Whether a command should be (re-)registered in a guild: the guild must
/// be on the command's whitelist (no whitelist admits every guild), and a
/// command that already exists is only replaced when it asks to be.
pub fn should_register(
    whitelisted: &Option<Vec<u64>>,
    guild_id: u64,
    already_registered: bool,
    re_register: bool,
) -> (r: bool)
    ensures
        r == ({
            let listed = match *whitelisted {
                Option::None => true,
                Option::Some(servers) => servers@.contains(guild_id),
            };
            listed && (!already_registered || re_register)
        }),
{
    let listed = match whitelisted {
        None => true,
        Some(servers) => {
            let m = servers.len();
            let mut i: usize = 0;
            let mut found = false;
            while i < m
                invariant
                    m == servers@.len(),
                    0 <= i <= m,
                    found == exists|k: int| 0 <= k < i && servers@[k] == guild_id,
                decreases m - i,
            {
                if servers[i] == guild_id {
                    found = true;
                }
                i = i + 1;
            }
            found
        }
    };
    listed && (!already_registered || re_register)
}

} // verus!
