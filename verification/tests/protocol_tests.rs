use voxelland::hud::SlotIndexType;
use voxelland::inventory::{ChestInventory, Inventory};
use voxelland::protocol::{
    accepted_batch_count, client_action, join_done, join_followup, mob_batch_ranges,
    mobs_silenced, next_planet_type, position_save_step, relay_action, server_action,
    server_replies, slot_target, ClientAction, RelayAction, ServerAction,
};
use voxelland::server_types::MessageType;

#[test]
fn server_actions_per_message_kind() {
    assert_eq!(server_action(MessageType::RequestUdm), ServerAction::SendWorld);
    assert_eq!(server_action(MessageType::ReqChestReg), ServerAction::SendChests);
    assert_eq!(server_action(MessageType::RequestSeed), ServerAction::SendSeed);
    assert_eq!(server_action(MessageType::ChestInvUpdate), ServerAction::UpdateSlot);
    assert_eq!(server_action(MessageType::PlayerUpdate), ServerAction::TrackPlayer);
    assert_eq!(server_action(MessageType::BlockSet), ServerAction::SetBlock);
    assert_eq!(server_action(MessageType::MultiBlockSet), ServerAction::SetTwoBlocks);
    assert_eq!(server_action(MessageType::RequestTakeoff), ServerAction::TakeOff);
    assert_eq!(server_action(MessageType::Disconnect), ServerAction::Disconnect);
    assert_eq!(server_action(MessageType::RequestPt), ServerAction::SendPlanetAndId);
    assert_eq!(server_action(MessageType::ShutUpMobMsgs), ServerAction::SilenceMobUpdates);
    assert_eq!(server_action(MessageType::TellYouMyID), ServerAction::Nothing);
    assert_eq!(server_action(MessageType::Empty), ServerAction::Nothing);
}

#[test]
fn server_replies_in_order() {
    assert_eq!(server_replies(ServerAction::SendWorld), vec![MessageType::Udm]);
    assert_eq!(server_replies(ServerAction::SendChests), vec![MessageType::ChestReg]);
    assert_eq!(server_replies(ServerAction::SendSeed), vec![MessageType::Seed]);
    assert_eq!(server_replies(ServerAction::TrackPlayer), vec![MessageType::TimeUpdate]);
    assert_eq!(
        server_replies(ServerAction::SendPlanetAndId),
        vec![MessageType::Pt, MessageType::YourId]
    );
    assert!(server_replies(ServerAction::SetBlock).is_empty());
}

#[test]
fn mob_silence_follows_requests() {
    assert!(mobs_silenced(MessageType::ShutUpMobMsgs, false));
    assert!(!mobs_silenced(MessageType::RequestPt, true));
    assert!(mobs_silenced(MessageType::BlockSet, true));
    assert!(!mobs_silenced(MessageType::BlockSet, false));
}

#[test]
fn relay_to_others_and_echo_to_sender() {
    assert_eq!(relay_action(false, MessageType::PlayerUpdate), RelayAction::Forward);
    assert_eq!(relay_action(false, MessageType::BlockSet), RelayAction::Forward);
    assert_eq!(relay_action(true, MessageType::BlockSet), RelayAction::Echo);
    assert_eq!(relay_action(true, MessageType::PlayerUpdate), RelayAction::Skip);
}

#[test]
fn position_saved_on_twelfth_update() {
    let mut counter = 0;
    let mut saved_at = Vec::new();
    for n in 0..36 {
        let (save, next) = position_save_step(counter);
        if save {
            saved_at.push(n);
        }
        counter = next;
    }
    assert_eq!(saved_at, vec![11, 23, 35]);
    assert_eq!(position_save_step(10), (false, 11));
    assert_eq!(position_save_step(11), (true, 0));
}

#[test]
fn takeoff_switches_planet_type() {
    assert_eq!(next_planet_type(0), 1);
    assert_eq!(next_planet_type(1), 0);
    assert_eq!(next_planet_type(255), 0);
}

#[test]
fn slot_targets_from_wire() {
    assert_eq!(slot_target(0, 5), SlotIndexType::ChestSlot(5));
    assert_eq!(slot_target(1, 3), SlotIndexType::InvSlot(3));
    assert_eq!(slot_target(2, 3), SlotIndexType::Empty);
}

#[test]
fn mob_batches_of_sixteen() {
    assert!(mob_batch_ranges(0).is_empty());
    assert_eq!(mob_batch_ranges(16), vec![(0, 16)]);
    assert_eq!(mob_batch_ranges(17), vec![(0, 16), (16, 17)]);
    assert_eq!(mob_batch_ranges(40), vec![(0, 16), (16, 32), (32, 40)]);
    for n in 0..100usize {
        for (start, end) in mob_batch_ranges(n) {
            assert_eq!(accepted_batch_count((end - start) as u8), Some(end - start));
        }
    }
}

#[test]
fn oversized_mob_batch_ignored() {
    assert_eq!(accepted_batch_count(16), Some(16));
    assert_eq!(accepted_batch_count(17), None);
    assert_eq!(accepted_batch_count(0), Some(0));
}

#[test]
fn client_actions_per_message_kind() {
    assert_eq!(client_action(MessageType::Disconnect), ClientAction::ForgetPlayer);
    assert_eq!(client_action(MessageType::ChestReg), ClientAction::ReceiveChests);
    assert_eq!(client_action(MessageType::PlayerUpdate), ClientAction::MovePlayer);
    assert_eq!(client_action(MessageType::BlockSet), ClientAction::ApplyNow);
    assert_eq!(client_action(MessageType::ChestInvUpdate), ClientAction::ApplyNow);
    assert_eq!(client_action(MessageType::Udm), ClientAction::ReceiveWorld);
    assert_eq!(client_action(MessageType::Seed), ClientAction::StoreSeed);
    assert_eq!(client_action(MessageType::TimeUpdate), ClientAction::PassToGame);
    assert_eq!(client_action(MessageType::Pt), ClientAction::StorePlanet);
    assert_eq!(client_action(MessageType::YourId), ClientAction::LearnId);
    assert_eq!(client_action(MessageType::MobUpdateBatch), ClientAction::UnpackMobBatch);
    assert_eq!(client_action(MessageType::NewMob), ClientAction::Ignore);
}

#[test]
fn join_handshake_sequence() {
    let mut request = Some(MessageType::RequestUdm);
    let mut sent = Vec::new();
    let mut done = false;
    while let Some(q) = request {
        sent.push(q);
        let reply = server_replies(server_action(q))[0];
        done = join_done(reply, true);
        request = join_followup(reply, true);
    }
    assert_eq!(
        sent,
        vec![
            MessageType::RequestUdm,
            MessageType::RequestSeed,
            MessageType::RequestPt,
            MessageType::ReqChestReg
        ]
    );
    assert!(done);
}

#[test]
fn broken_transfers_asked_again() {
    assert_eq!(join_followup(MessageType::Udm, false), Some(MessageType::RequestUdm));
    assert_eq!(join_followup(MessageType::ChestReg, false), Some(MessageType::ReqChestReg));
    assert!(!join_done(MessageType::ChestReg, false));
    assert_eq!(join_followup(MessageType::TimeUpdate, true), None);
}

#[test]
fn replace_slot_returns_previous() {
    let mut chest = ChestInventory { dirty: false, inv: [(0, 0); 32] };
    chest.inv[4] = (7, 3);
    let was = chest.replace_slot(4, (9, 1));
    assert_eq!(was, (7, 3));
    assert_eq!(chest.inv[4], (9, 1));
    let back = chest.replace_slot(4, was);
    assert_eq!(back, (9, 1));
    assert_eq!(chest.inv[4], (7, 3));

    let mut inv = Inventory { dirty: true, inv: [(1, 2); 8] };
    let was = inv.replace_slot(7, (0, 0));
    assert_eq!(was, (1, 2));
    assert_eq!(inv.inv[7], (0, 0));
    assert!(inv.dirty);
}
