use no_utils::{
    command_scope, event_action, presence_for, route_command, split_lines, ActivityKind, BotCommand, CommandScope,
    EventAction, PresenceStatus,
};

#[test]
fn routes_known_commands() {
    assert_eq!(route_command(b"help"), Some(BotCommand::Help));
    assert_eq!(route_command(b"fortune"), Some(BotCommand::Fortune));
    assert_eq!(route_command(b"license"), None);
    assert_eq!(route_command(b"Help"), None);
    assert_eq!(route_command(b"helpx"), None);
    assert_eq!(route_command(b""), None);
}

#[test]
fn command_registration_scope() {
    assert_eq!(command_scope(true, None), None);
    assert_eq!(command_scope(true, Some(42)), Some(CommandScope::Guild(42)));
    assert_eq!(command_scope(false, Some(7)), Some(CommandScope::Guild(7)));
    assert_eq!(command_scope(false, None), Some(CommandScope::Global));
}

#[test]
fn gateway_errors() {
    assert_eq!(event_action(true, false), EventAction::Dispatch);
    assert_eq!(event_action(true, true), EventAction::Dispatch);
    assert_eq!(event_action(false, true), EventAction::Stop);
    assert_eq!(event_action(false, false), EventAction::Skip);
}

#[test]
fn presence_by_build() {
    assert_eq!(presence_for(true), (ActivityKind::Listening, "Pontificating about truths", PresenceStatus::Idle));
    assert_eq!(presence_for(false), (ActivityKind::Playing, "Spreading truths", PresenceStatus::Online));
}

#[test]
fn shell_output_lines() {
    assert_eq!(split_lines(b"test\n"), vec![b"test".to_vec(), Vec::new()]);
    assert_eq!(split_lines(b"a\nbc\n\nd"), vec![b"a".to_vec(), b"bc".to_vec(), Vec::new(), b"d".to_vec()]);
    assert_eq!(split_lines(b""), vec![Vec::<u8>::new()]);
    let text = b"You will have a long life.\n\t-- fortune\n";
    assert_eq!(split_lines(text).join(&b'\n'), text.to_vec());
}
