use vstd::prelude::*;

use crate::order::compare_bytes;

verus! {

/// A slash command that the bot answers.
#[derive(Clone, Copy, Debug, PartialEq, Eq, Structural)]
pub enum BotCommand {
    Help,
    Fortune,
}

/// The name `help`.
pub open spec fn help_name() -> Seq<u8> {
    seq![104u8, 101u8, 108u8, 112u8]
}

/// The name `fortune`.
pub open spec fn fortune_name() -> Seq<u8> {
    seq![102u8, 111u8, 114u8, 116u8, 117u8, 110u8, 101u8]
}

/// The command that a command name asks for; `None` for a name the bot does not know.
pub fn route_command(name: &[u8]) -> (r: Option<BotCommand>)
    ensures
        r == Some(BotCommand::Help) <==> name@ == help_name(),
        r == Some(BotCommand::Fortune) <==> name@ == fortune_name(),
        r is None <==> (name@ != help_name() && name@ != fortune_name()),
{
    let help: Vec<u8> = vec![104u8, 101u8, 108u8, 112u8];
    let fortune: Vec<u8> = vec![102u8, 111u8, 114u8, 116u8, 117u8, 110u8, 101u8];
    assert(help@ =~= help_name());
    assert(fortune@ =~= fortune_name());
    assert(help_name() != fortune_name()) by {
        assert(help_name().len() != fortune_name().len());
    }
    if compare_bytes(name, help.as_slice()) == 0 {
        Some(BotCommand::Help)
    } else if compare_bytes(name, fortune.as_slice()) == 0 {
        Some(BotCommand::Fortune)
    } else {
        None
    }
}

/// Where a command is registered.
#[derive(Clone, Copy, Debug, PartialEq, Eq, Structural)]
pub enum CommandScope {
    /// In one server only.
    Guild(u64),
    /// In every server.
    Global,
}

/// Where to register a command: in the given server if there is one, else
/// everywhere, except that a debug build registers nothing without a server.
pub fn command_scope(debug_build: bool, guild_id: Option<u64>) -> (r: Option<CommandScope>)
    ensures
        (debug_build && guild_id is None) <==> r is None,
        guild_id is Some ==> r == Some(CommandScope::Guild(guild_id.unwrap())),
        (!debug_build && guild_id is None) ==> r == Some(CommandScope::Global),
{
    match guild_id {
        Some(id) => Some(CommandScope::Guild(id)),
        None => if debug_build {
            None
        } else {
            Some(CommandScope::Global)
        },
    }
}

/// What the event loop does with what the gateway handed it.
#[derive(Clone, Copy, Debug, PartialEq, Eq, Structural)]
pub enum EventAction {
    /// Update the cache and handle the event.
    Dispatch,
    /// Report the error and wait for the next event.
    Skip,
    /// Report the error and stop the loop.
    Stop,
}

/// An event is handled; an error stops the loop when it is fatal, and is only
/// reported otherwise.
pub fn event_action(received: bool, fatal_error: bool) -> (r: EventAction)
    ensures
        received ==> r == EventAction::Dispatch,
        !received && fatal_error ==> r == EventAction::Stop,
        !received && !fatal_error ==> r == EventAction::Skip,
{
    if received {
        EventAction::Dispatch
    } else if fatal_error {
        EventAction::Stop
    } else {
        EventAction::Skip
    }
}

/// The kind of activity shown in the bot's presence.
#[derive(Clone, Copy, Debug, PartialEq, Eq, Structural)]
pub enum ActivityKind {
    Listening,
    Playing,
}

/// The status shown in the bot's presence.
#[derive(Clone, Copy, Debug, PartialEq, Eq, Structural)]
pub enum PresenceStatus {
    Idle,
    Online,
}

/// The presence the bot shows: idle and listening in a debug build, online and
/// playing otherwise, each with its own text.
pub fn presence_for(debug_build: bool) -> (r: (ActivityKind, &'static str, PresenceStatus))
    ensures
        debug_build ==> r.0 == ActivityKind::Listening && r.1@ == "Pontificating about truths"@ && r.2
            == PresenceStatus::Idle,
        !debug_build ==> r.0 == ActivityKind::Playing && r.1@ == "Spreading truths"@ && r.2
            == PresenceStatus::Online,
{
    if debug_build {
        (ActivityKind::Listening, "Pontificating about truths", PresenceStatus::Idle)
    } else {
        (ActivityKind::Playing, "Spreading truths", PresenceStatus::Online)
    }
}

/// Lines joined with single line breaks between them.
pub open spec fn join_lines(lines: Seq<Seq<u8>>) -> Seq<u8>
    decreases lines.len(),
{
    if lines.len() == 0 {
        Seq::empty()
    } else if lines.len() == 1 {
        lines[0]
    } else {
        join_lines(lines.drop_last()) + seq![10u8] + lines.last()
    }
}

/// Whether `s` holds no line break.
pub open spec fn no_line_break(s: Seq<u8>) -> bool {
    forall|i: int| 0 <= i < s.len() ==> s[i] != 10u8
}

/// The pieces of `bytes` between line breaks: one more piece than there are line
/// breaks, the last one empty where `bytes` ends with a line break.
pub fn split_lines(bytes: &[u8]) -> (r: Vec<Vec<u8>>)
    ensures
        r@.len() >= 1,
        join_lines(r@.map_values(|l: Vec<u8>| l@)) == bytes@,
        forall|i: int| 0 <= i < r@.len() ==> no_line_break(#[trigger] r@[i]@),
{
    let mut done: Vec<Vec<u8>> = Vec::new();
    let mut current: Vec<u8> = Vec::new();
    let mut i: usize = 0;
    while i < bytes.len()
        invariant
            i <= bytes@.len(),
            join_lines(done@.map_values(|l: Vec<u8>| l@).push(current@)) == bytes@.take(i as int),
            no_line_break(current@),
            forall|j: int| 0 <= j < done@.len() ==> no_line_break(#[trigger] done@[j]@),
        decreases bytes@.len() - i,
    {
        let ghost before = done@.map_values(|l: Vec<u8>| l@).push(current@);
        let b = bytes[i];
        if b == 10u8 {
            let finished = current;
            current = Vec::new();
            done.push(finished);
            proof {
                let after = done@.map_values(|l: Vec<u8>| l@).push(current@);
                assert(after.drop_last() =~= before);
                assert(current@ =~= Seq::<u8>::empty());
                assert(join_lines(after) =~= join_lines(before) + seq![10u8]);
            }
        } else {
            current.push(b);
            proof {
                let after = done@.map_values(|l: Vec<u8>| l@).push(current@);
                if before.len() > 1 {
                    assert(after.drop_last() =~= before.drop_last());
                }
                assert(join_lines(after) =~= join_lines(before).push(b));
            }
        }
        i = i + 1;
        assert(bytes@.take(i as int) =~= bytes@.take(i - 1).push(b));
    }
    let ghost pieces = done@.map_values(|l: Vec<u8>| l@).push(current@);
    done.push(current);
    proof {
        assert(bytes@.take(i as int) =~= bytes@);
        assert(done@.map_values(|l: Vec<u8>| l@) =~= pieces);
    }
    done
}

} // verus!
