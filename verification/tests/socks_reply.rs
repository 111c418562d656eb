use dpi_desync::socks::reply_for;
use dpi_desync::socks::CommandKind;
use dpi_desync::socks::ReplyKind;

#[test]
fn bind_gets_command_not_supported() {
    assert_eq!(reply_for(CommandKind::Bind, false), ReplyKind::CommandNotSupported);
    assert_eq!(reply_for(CommandKind::Bind, true), ReplyKind::CommandNotSupported);
}

#[test]
fn associate_gets_command_not_supported() {
    assert_eq!(reply_for(CommandKind::Associate, false), ReplyKind::CommandNotSupported);
    assert_eq!(reply_for(CommandKind::Associate, true), ReplyKind::CommandNotSupported);
}

#[test]
fn connect_reply_follows_upstream_outcome() {
    assert_eq!(reply_for(CommandKind::Connect, true), ReplyKind::Succeeded);
    assert_eq!(reply_for(CommandKind::Connect, false), ReplyKind::HostUnreachable);
}
