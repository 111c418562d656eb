//! The per-connection SOCKS5 command decision: which reply a received
//! command is owed. Only CONNECT is honoured; ASSOCIATE and BIND are
//! rejected, and a CONNECT succeeds exactly when the upstream connection
//! opened.

use vstd::prelude::*;

verus! {

/// The kind of SOCKS5 command a client sent.
#[derive(Clone, Copy, Debug, PartialEq, Eq, Structural)]
pub enum CommandKind {
    Associate,
    Bind,
    Connect,
}

/// The kind of SOCKS5 reply the proxy sends back.
#[derive(Clone, Copy, Debug, PartialEq, Eq, Structural)]
pub enum ReplyKind {
    Succeeded,
    HostUnreachable,
    CommandNotSupported,
}

/// The reply a command is owed, given whether the upstream connection opened.
pub open spec fn reply_spec(cmd: CommandKind, connect_ok: bool) -> ReplyKind {
    match cmd {
        CommandKind::Associate => ReplyKind::CommandNotSupported,
        CommandKind::Bind => ReplyKind::CommandNotSupported,
        CommandKind::Connect => if connect_ok {
            ReplyKind::Succeeded
        } else {
            ReplyKind::HostUnreachable
        },
    }
}

/// Decide the SOCKS5 reply for a received command: ASSOCIATE and BIND get
/// `CommandNotSupported`; CONNECT gets `Succeeded` exactly when the upstream
/// connection opened and `HostUnreachable` otherwise.
pub fn reply_for(cmd: CommandKind, connect_ok: bool) -> (r: ReplyKind)
    ensures
        r == reply_spec(cmd, connect_ok),
{
    match cmd {
        CommandKind::Associate => ReplyKind::CommandNotSupported,
        CommandKind::Bind => ReplyKind::CommandNotSupported,
        CommandKind::Connect => {
            if connect_ok {
                ReplyKind::Succeeded
            } else {
                ReplyKind::HostUnreachable
            }
        },
    }
}

} // verus!
