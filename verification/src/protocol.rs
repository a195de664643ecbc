use vstd::prelude::*;

use crate::hud::SlotIndexType;
use crate::server_types::{MessageType, MOB_BATCH_SIZE};

verus! {

/// What the server does with a message one of its clients sent.
#[derive(PartialEq, Eq, Structural, Clone, Copy, Debug)]
pub enum ServerAction {
    /// Nothing beyond relaying the message.
    Nothing,
    /// Stop sending mob updates.
    SilenceMobUpdates,
    /// Send the stored world edits (header, then the file's bytes).
    SendWorld,
    /// Send the stored chest contents (header, then the file's bytes).
    SendChests,
    /// Send the current world seed.
    SendSeed,
    /// Put an item into a chest slot or an inventory slot, answering what was there.
    UpdateSlot,
    /// Note where the player is, send the time of day and the mob updates.
    TrackPlayer,
    /// Set one block.
    SetBlock,
    /// Set two blocks at once.
    SetTwoBlocks,
    /// Move every player to a new world of the other planet type.
    TakeOff,
    /// Send the planet type and the client's id, then resume mob updates.
    SendPlanetAndId,
    /// Drop the client.
    Disconnect,
}

/// The server's action for each kind of message.
pub open spec fn server_action_of(kind: MessageType) -> ServerAction {
    match kind {
        MessageType::ShutUpMobMsgs => ServerAction::SilenceMobUpdates,
        MessageType::RequestUdm => ServerAction::SendWorld,
        MessageType::ReqChestReg => ServerAction::SendChests,
        MessageType::RequestSeed => ServerAction::SendSeed,
        MessageType::ChestInvUpdate => ServerAction::UpdateSlot,
        MessageType::PlayerUpdate => ServerAction::TrackPlayer,
        MessageType::BlockSet => ServerAction::SetBlock,
        MessageType::MultiBlockSet => ServerAction::SetTwoBlocks,
        MessageType::RequestTakeoff => ServerAction::TakeOff,
        MessageType::Disconnect => ServerAction::Disconnect,
        MessageType::RequestPt => ServerAction::SendPlanetAndId,
        _ => ServerAction::Nothing,
    }
}

/// Chooses what the server does with a message of kind `kind`.
pub fn server_action(kind: MessageType) -> (a: ServerAction)
    ensures
        a == server_action_of(kind),
{
    match kind {
        MessageType::ShutUpMobMsgs => ServerAction::SilenceMobUpdates,
        MessageType::RequestUdm => ServerAction::SendWorld,
        MessageType::ReqChestReg => ServerAction::SendChests,
        MessageType::RequestSeed => ServerAction::SendSeed,
        MessageType::ChestInvUpdate => ServerAction::UpdateSlot,
        MessageType::PlayerUpdate => ServerAction::TrackPlayer,
        MessageType::BlockSet => ServerAction::SetBlock,
        MessageType::MultiBlockSet => ServerAction::SetTwoBlocks,
        MessageType::RequestTakeoff => ServerAction::TakeOff,
        MessageType::Disconnect => ServerAction::Disconnect,
        MessageType::RequestPt => ServerAction::SendPlanetAndId,
        _ => ServerAction::Nothing,
    }
}

/// The headers the server writes back to the sender while carrying out `action`,
/// in order. Mob update batches that follow the time of day are not listed here.
pub open spec fn server_replies_of(action: ServerAction) -> Seq<MessageType> {
    match action {
        ServerAction::SendWorld => seq![MessageType::Udm],
        ServerAction::SendChests => seq![MessageType::ChestReg],
        ServerAction::SendSeed => seq![MessageType::Seed],
        ServerAction::TrackPlayer => seq![MessageType::TimeUpdate],
        ServerAction::SendPlanetAndId => seq![MessageType::Pt, MessageType::YourId],
        _ => Seq::empty(),
    }
}

/// Lists the headers the server writes back to the sender for `action`.
pub fn server_replies(action: ServerAction) -> (v: Vec<MessageType>)
    ensures
        v@ == server_replies_of(action),
{
    match action {
        ServerAction::SendWorld => vec![MessageType::Udm],
        ServerAction::SendChests => vec![MessageType::ChestReg],
        ServerAction::SendSeed => vec![MessageType::Seed],
        ServerAction::TrackPlayer => vec![MessageType::TimeUpdate],
        ServerAction::SendPlanetAndId => vec![MessageType::Pt, MessageType::YourId],
        _ => Vec::new(),
    }
}

/// Whether mob updates are silenced after the server handled a message of kind
/// `kind`, given whether they were before.
pub open spec fn mobs_silenced_after(kind: MessageType, silenced: bool) -> bool {
    match kind {
        MessageType::ShutUpMobMsgs => true,
        MessageType::RequestPt => false,
        _ => silenced,
    }
}

/// Tells whether mob updates are silenced after a message of kind `kind`.
pub fn mobs_silenced(kind: MessageType, silenced: bool) -> (s: bool)
    ensures
        s == mobs_silenced_after(kind, silenced),
{
    match kind {
        MessageType::ShutUpMobMsgs => true,
        MessageType::RequestPt => false,
        _ => silenced,
    }
}

/// How a handled message is passed on to one connected client.
#[derive(PartialEq, Eq, Structural, Clone, Copy, Debug)]
pub enum RelayAction {
    /// Send the whole message.
    Forward,
    /// Send back as many bytes as the sender sent.
    Echo,
    /// Send nothing.
    Skip,
}

/// Every other client gets the message; the sender gets its own bytes back unless
/// the message was a player update.
pub open spec fn relay_action_of(to_sender: bool, kind: MessageType) -> RelayAction {
    if !to_sender {
        RelayAction::Forward
    } else if kind != MessageType::PlayerUpdate {
        RelayAction::Echo
    } else {
        RelayAction::Skip
    }
}

/// Chooses how a handled message of kind `kind` goes to one client.
pub fn relay_action(to_sender: bool, kind: MessageType) -> (r: RelayAction)
    ensures
        r == relay_action_of(to_sender, kind),
{
    if !to_sender {
        RelayAction::Forward
    } else if kind != MessageType::PlayerUpdate {
        RelayAction::Echo
    } else {
        RelayAction::Skip
    }
}

/// One player update's effect on a client's position-save counter: past ten the
/// position is saved and the counter starts again, else the counter goes up.
pub open spec fn save_step(counter: int) -> (bool, int) {
    if counter > 10 {
        (true, 0)
    } else {
        (false, counter + 1)
    }
}

/// Advances a client's position-save counter for one player update and tells
/// whether the position is to be saved now.
pub fn position_save_step(counter: i32) -> (r: (bool, i32))
    ensures
        r.0 == save_step(counter as int).0,
        r.1 as int == save_step(counter as int).1,
{
    if counter > 10 {
        (true, 0)
    } else {
        (false, counter + 1)
    }
}

/// The counter after `n` player updates of a client that started at zero.
pub open spec fn counter_after(n: nat) -> int
    decreases n,
{
    if n == 0 {
        0
    } else {
        save_step(counter_after((n - 1) as nat)).1
    }
}

proof fn lemma_counter_after(n: nat)
    ensures
        counter_after(n) == n % 12,
    decreases n,
{
    if n > 0 {
        lemma_counter_after((n - 1) as nat);
    }
}

/// A client's position is saved on every twelfth player update it sends: the
/// update numbered `n` (from zero) saves exactly when `n % 12 == 11`.
pub proof fn law_position_saved_every_twelfth(n: nat)
    ensures
        save_step(counter_after(n)).0 <==> n % 12 == 11,
        0 <= counter_after(n) <= 11,
{
    lemma_counter_after(n);
}

/// The planet type a take-off leads to: the other of the two.
pub fn next_planet_type(pt: u8) -> (r: u8)
    ensures
        r == (pt + 1) % 2,
{
    if pt % 2 == 0 {
        1
    } else {
        0
    }
}

/// Which slot a chest-inventory update names: kind 0 is a chest slot, kind 1 a
/// slot of the sender's own inventory, any other kind none.
pub open spec fn slot_target_of(kind: u32, slot: u32) -> SlotIndexType {
    if kind == 0 {
        SlotIndexType::ChestSlot(slot as i32)
    } else if kind == 1 {
        SlotIndexType::InvSlot(slot as i32)
    } else {
        SlotIndexType::Empty
    }
}

/// Reads the slot an update message names from its kind and slot number.
pub fn slot_target(kind: u32, slot: u32) -> (t: SlotIndexType)
    ensures
        t == slot_target_of(kind, slot),
{
    if kind == 0 {
        SlotIndexType::ChestSlot(slot as i32)
    } else if kind == 1 {
        SlotIndexType::InvSlot(slot as i32)
    } else {
        SlotIndexType::Empty
    }
}

/// The `i`th batch of `n` mob updates: the positions from `start` up to `end`.
pub open spec fn batch_range(n: int, i: int) -> (int, int) {
    let start = i * MOB_BATCH_SIZE;
    let end = if start + MOB_BATCH_SIZE <= n {
        start + MOB_BATCH_SIZE
    } else {
        n
    };
    (start, end)
}

/// How many batches `n` mob updates take.
pub open spec fn batch_count(n: int) -> int {
    (n + MOB_BATCH_SIZE - 1) / (MOB_BATCH_SIZE as int)
}

/// Splits `n` mob updates into consecutive batches of at most `MOB_BATCH_SIZE`.
pub fn mob_batch_ranges(n: usize) -> (v: Vec<(usize, usize)>)
    ensures
        v.len() == batch_count(n as int),
        forall|i: int|
            0 <= i < v.len() ==> (#[trigger] v[i]).0 as int == batch_range(n as int, i).0
                && v[i].1 as int == batch_range(n as int, i).1,
{
    let mut v: Vec<(usize, usize)> = Vec::new();
    let mut start: usize = 0;
    while start < n
        invariant
            start <= n,
            start == (if v.len() * MOB_BATCH_SIZE <= n {
                v.len() * MOB_BATCH_SIZE
            } else {
                n as int
            }),
            v.len() > 0 ==> (v.len() - 1) * MOB_BATCH_SIZE < n,
            forall|i: int|
                0 <= i < v.len() ==> (#[trigger] v[i]).0 as int == batch_range(n as int, i).0
                    && v[i].1 as int == batch_range(n as int, i).1,
        decreases n - start,
    {
        let end: usize = if n - start >= MOB_BATCH_SIZE {
            start + MOB_BATCH_SIZE
        } else {
            n
        };
        v.push((start, end));
        start = end;
    }
    v
}

/// How many updates of a batch the client takes: a batch that claims more than
/// `MOB_BATCH_SIZE` is ignored.
pub open spec fn accepted_count_of(count: u8) -> Option<usize> {
    if count as int > MOB_BATCH_SIZE {
        None
    } else {
        Some(count as usize)
    }
}

/// Tells how many mob updates of a received batch to unpack, or `None` to ignore it.
pub fn accepted_batch_count(count: u8) -> (r: Option<usize>)
    ensures
        r == accepted_count_of(count),
{
    if count as usize > MOB_BATCH_SIZE {
        None
    } else {
        Some(count as usize)
    }
}

/// Every batch the server builds from `n` mob updates is one the client unpacks
/// whole: it is not empty and holds at most `MOB_BATCH_SIZE` updates.
pub proof fn law_server_batches_accepted(n: int, i: int)
    requires
        0 <= n,
        0 <= i < batch_count(n),
    ensures
        batch_range(n, i).0 < batch_range(n, i).1,
        batch_range(n, i).1 - batch_range(n, i).0 <= MOB_BATCH_SIZE,
        accepted_count_of((batch_range(n, i).1 - batch_range(n, i).0) as u8) == Some(
            (batch_range(n, i).1 - batch_range(n, i).0) as usize,
        ),
{
    assert(i * 16 < n) by (nonlinear_arith)
        requires
            0 <= n,
            0 <= i,
            i < (n + 15) / 16,
    ;
}

/// What the client does with a message from the server.
#[derive(PartialEq, Eq, Structural, Clone, Copy, Debug)]
pub enum ClientAction {
    /// Nothing.
    Ignore,
    /// Forget the player who left.
    ForgetPlayer,
    /// Read the chest contents that follow the header.
    ReceiveChests,
    /// Move another player's model (or hand the message to the game when that
    /// player is not known yet).
    MovePlayer,
    /// Hand the message to the game's high-priority queue.
    ApplyNow,
    /// Read the world edits that follow the header.
    ReceiveWorld,
    /// Store the seed, hand the message to the game and ask for the planet type.
    StoreSeed,
    /// Hand the message to the game's queue.
    PassToGame,
    /// Store the planet type, load the world and ask for the chests.
    StorePlanet,
    /// Learn the id the server gave this client.
    LearnId,
    /// Unpack a batch of mob updates into the game's queue.
    UnpackMobBatch,
}

/// The client's action for each kind of message; a `WhatsThatMob` is not handled.
pub open spec fn client_action_of(kind: MessageType) -> ClientAction {
    match kind {
        MessageType::Disconnect => ClientAction::ForgetPlayer,
        MessageType::ChestReg => ClientAction::ReceiveChests,
        MessageType::PlayerUpdate => ClientAction::MovePlayer,
        MessageType::BlockSet => ClientAction::ApplyNow,
        MessageType::MultiBlockSet => ClientAction::ApplyNow,
        MessageType::ChestInvUpdate => ClientAction::ApplyNow,
        MessageType::Udm => ClientAction::ReceiveWorld,
        MessageType::Seed => ClientAction::StoreSeed,
        MessageType::RequestTakeoff => ClientAction::PassToGame,
        MessageType::MobUpdate => ClientAction::PassToGame,
        MessageType::TimeUpdate => ClientAction::PassToGame,
        MessageType::Pt => ClientAction::StorePlanet,
        MessageType::YourId => ClientAction::LearnId,
        MessageType::MobUpdateBatch => ClientAction::UnpackMobBatch,
        _ => ClientAction::Ignore,
    }
}

/// Chooses what the client does with a message of kind `kind` from the server.
pub fn client_action(kind: MessageType) -> (a: ClientAction)
    requires
        kind != MessageType::WhatsThatMob,
    ensures
        a == client_action_of(kind),
{
    match kind {
        MessageType::Disconnect => ClientAction::ForgetPlayer,
        MessageType::ChestReg => ClientAction::ReceiveChests,
        MessageType::PlayerUpdate => ClientAction::MovePlayer,
        MessageType::BlockSet => ClientAction::ApplyNow,
        MessageType::MultiBlockSet => ClientAction::ApplyNow,
        MessageType::ChestInvUpdate => ClientAction::ApplyNow,
        MessageType::Udm => ClientAction::ReceiveWorld,
        MessageType::Seed => ClientAction::StoreSeed,
        MessageType::RequestTakeoff => ClientAction::PassToGame,
        MessageType::MobUpdate => ClientAction::PassToGame,
        MessageType::TimeUpdate => ClientAction::PassToGame,
        MessageType::Pt => ClientAction::StorePlanet,
        MessageType::YourId => ClientAction::LearnId,
        MessageType::MobUpdateBatch => ClientAction::UnpackMobBatch,
        _ => ClientAction::Ignore,
    }
}

/// What a joining client asks next after the server's reply `reply`, where
/// `complete` tells whether the bytes that follow the reply all arrived: the world
/// edits lead to the seed, the seed to the planet type, the planet type to the
/// chests; a transfer that broke off is asked for again.
pub open spec fn join_followup_of(reply: MessageType, complete: bool) -> Option<MessageType> {
    match reply {
        MessageType::Udm => if complete {
            Some(MessageType::RequestSeed)
        } else {
            Some(MessageType::RequestUdm)
        },
        MessageType::Seed => Some(MessageType::RequestPt),
        MessageType::Pt => Some(MessageType::ReqChestReg),
        MessageType::ChestReg => if complete {
            None
        } else {
            Some(MessageType::ReqChestReg)
        },
        _ => None,
    }
}

/// Tells what a joining client asks next after the reply `reply`.
pub fn join_followup(reply: MessageType, complete: bool) -> (r: Option<MessageType>)
    ensures
        r == join_followup_of(reply, complete),
{
    match reply {
        MessageType::Udm => if complete {
            Some(MessageType::RequestSeed)
        } else {
            Some(MessageType::RequestUdm)
        },
        MessageType::Seed => Some(MessageType::RequestPt),
        MessageType::Pt => Some(MessageType::ReqChestReg),
        MessageType::ChestReg => if complete {
            None
        } else {
            Some(MessageType::ReqChestReg)
        },
        _ => None,
    }
}

/// The join is over once the chest contents arrived whole (or there were none):
/// the client has its world and starts sending.
pub open spec fn join_done_by(reply: MessageType, complete: bool) -> bool {
    reply == MessageType::ChestReg && complete
}

/// Tells whether the reply `reply` ends the join.
pub fn join_done(reply: MessageType, complete: bool) -> (d: bool)
    ensures
        d == join_done_by(reply, complete),
{
    match reply {
        MessageType::ChestReg => complete,
        _ => false,
    }
}

/// The first header the server answers a request with, if any.
pub open spec fn first_reply(request: MessageType) -> Option<MessageType> {
    let replies = server_replies_of(server_action_of(request));
    if replies.len() > 0 {
        Some(replies[0])
    } else {
        None
    }
}

/// The request a joining client sends after `n` round trips in which every
/// transfer arrived whole, starting from its request for the world edits.
pub open spec fn handshake_request(n: nat) -> Option<MessageType>
    decreases n,
{
    if n == 0 {
        Some(MessageType::RequestUdm)
    } else {
        match handshake_request((n - 1) as nat) {
            Some(q) => match first_reply(q) {
                Some(r) => join_followup_of(r, true),
                None => None,
            },
            None => None,
        }
    }
}

/// The join handshake ends: after the world edits, the seed and the planet type,
/// the fourth round trip, for the chests, completes the join and the client asks
/// nothing more.
pub proof fn law_join_handshake_completes()
    ensures
        forall|n: nat| n < 4 ==> (#[trigger] handshake_request(n)) is Some,
        first_reply(handshake_request(3).unwrap()) is Some,
        join_done_by(first_reply(handshake_request(3).unwrap()).unwrap(), true),
        handshake_request(4) is None,
{
    reveal_with_fuel(handshake_request, 5);
    assert forall|n: nat| n < 4 implies (#[trigger] handshake_request(n)) is Some by {
        reveal_with_fuel(handshake_request, 5);
    }
}

/// Where a transfer that broke off changes what the client asks next, the client
/// asks again for the very reply that was lost.
pub proof fn law_lost_transfer_asked_again(reply: MessageType)
    requires
        join_followup_of(reply, false) != join_followup_of(reply, true),
    ensures
        join_followup_of(reply, false) is Some,
        first_reply(join_followup_of(reply, false).unwrap()) == Some(reply),
{
}


/// Every message the server handles as a block change (one block, two blocks,
/// or a chest or inventory slot) and relays to the other clients is applied by
/// those clients at once: none is ignored.
pub proof fn law_relayed_block_changes_applied(kind: MessageType)
    ensures
        server_action_of(kind) == ServerAction::SetBlock || server_action_of(kind)
            == ServerAction::SetTwoBlocks || server_action_of(kind) == ServerAction::UpdateSlot
            ==> client_action_of(kind) == ClientAction::ApplyNow && relay_action_of(false, kind)
            == RelayAction::Forward,
{
}

} // verus!
