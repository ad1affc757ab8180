//! Identity configuration, logging-event keys, and the small pure helpers
//! the rest of the application shares: decimal rendering and the ticket
//! template path.

use vstd::prelude::*;

verus! {

/// Election weight used when no cluster configuration is available.
pub const DEFAULT_PRIORITY: i32 = 1;

/// Identity of this process, loaded once at startup.
pub struct ClusterConfig {
    pub cluster: ClusterInfo,
}

/// The identity proper: a globally unique name and an election weight.
pub struct ClusterInfo {
    pub instance_id: String,
    pub priority: i32,
}

/// Kinds of events the application logs to per-guild channels.
#[derive(Debug, Clone, Copy)]
pub enum LogEventType {
    BootQuit,
    MemberJoinLeave,
    TicketActivity,
    Moderation,
    Default,
    Announcements,
    MessageDeletion,
}

/// Config key under which the log channel for one event type is stored.
pub open spec fn log_channel_key_spec(event_type: LogEventType) -> Seq<char> {
    match event_type {
        LogEventType::BootQuit => "boot_quit_channel"@,
        LogEventType::MemberJoinLeave => "member_log_channel"@,
        LogEventType::TicketActivity => "ticket_log_channel"@,
        LogEventType::Moderation => "mod_log_channel"@,
        LogEventType::Default => "logging_channel"@,
        LogEventType::Announcements => "announcement_channel"@,
        LogEventType::MessageDeletion => "message_log_channel"@,
    }
}

/// Config key for the log channel of one event type; lookups fall back to
/// the key for [`LogEventType::Default`] when the specific key is unset.
pub fn log_channel_key(event_type: LogEventType) -> (key: &'static str)
    ensures
        key@ == log_channel_key_spec(event_type),
{
    match event_type {
        LogEventType::BootQuit => "boot_quit_channel",
        LogEventType::MemberJoinLeave => "member_log_channel",
        LogEventType::TicketActivity => "ticket_log_channel",
        LogEventType::Moderation => "mod_log_channel",
        LogEventType::Default => "logging_channel",
        LogEventType::Announcements => "announcement_channel",
        LogEventType::MessageDeletion => "message_log_channel",
    }
}

/// Decimal digit character for `d`.
pub open spec fn dec_digit(d: int) -> char
    recommends
        0 <= d < 10,
{
    if d == 0 {
        '0'
    } else if d == 1 {
        '1'
    } else if d == 2 {
        '2'
    } else if d == 3 {
        '3'
    } else if d == 4 {
        '4'
    } else if d == 5 {
        '5'
    } else if d == 6 {
        '6'
    } else if d == 7 {
        '7'
    } else if d == 8 {
        '8'
    } else {
        '9'
    }
}

/// Decimal representation of `n`, most significant digit first, with no
/// leading zeros (a single `'0'` for zero).
pub open spec fn dec_rep(n: nat) -> Seq<char>
    decreases n,
{
    if n < 10 {
        seq![dec_digit(n as int)]
    } else {
        dec_rep(n / 10).push(dec_digit((n % 10) as int))
    }
}

/// One-character string for the decimal digit `d`.
fn digit_str(d: u64) -> (s: &'static str)
    requires
        d < 10,
    ensures
        s@ == seq![dec_digit(d as int)],
{
    let s: &'static str = if d == 0 {
        "0"
    } else if d == 1 {
        "1"
    } else if d == 2 {
        "2"
    } else if d == 3 {
        "3"
    } else if d == 4 {
        "4"
    } else if d == 5 {
        "5"
    } else if d == 6 {
        "6"
    } else if d == 7 {
        "7"
    } else if d == 8 {
        "8"
    } else {
        "9"
    };
    proof {
        reveal_strlit("0");
        reveal_strlit("1");
        reveal_strlit("2");
        reveal_strlit("3");
        reveal_strlit("4");
        reveal_strlit("5");
        reveal_strlit("6");
        reveal_strlit("7");
        reveal_strlit("8");
        reveal_strlit("9");
        assert(s@ =~= seq![dec_digit(d as int)]);
    }
    s
}

/// Decimal rendering of `n`.
pub fn u64_to_decimal(n: u64) -> (s: String)
    ensures
        s@ == dec_rep(n as nat),
    decreases n,
{
    if n < 10 {
        String::from_str(digit_str(n))
    } else {
        let mut s = u64_to_decimal(n / 10);
        s.append(digit_str(n % 10));
        proof {
            assert(s@ =~= dec_rep(n as nat));
        }
        s
    }
}

/// Path of the ticket template file kept for one guild.
pub open spec fn ticket_template_path(guild_id: nat) -> Seq<char> {
    "./ticket_templates/"@ + dec_rep(guild_id) + ".txt"@
}

/// Where the ticket template for `guild_id` is persisted.
pub fn get_ticket_template_path(guild_id: u64) -> (path: String)
    ensures
        path@ == ticket_template_path(guild_id as nat),
{
    let mut path = String::from_str("./ticket_templates/");
    let digits = u64_to_decimal(guild_id);
    path.append(digits.as_str());
    path.append(".txt");
    proof {
        assert(path@ =~= ticket_template_path(guild_id as nat));
    }
    path
}

/// Identity used when no cluster configuration could be loaded: a name
/// derived from a caller-supplied random value.
pub fn fallback_instance_id(entropy: u64) -> (id: String)
    ensures
        id@ == "instance-"@ + dec_rep(entropy as nat),
{
    let mut id = String::from_str("instance-");
    let digits = u64_to_decimal(entropy);
    id.append(digits.as_str());
    id
}

} // verus!
