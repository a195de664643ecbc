use vstd::prelude::*;

use crate::vec::IVec3;

verus! {

/// The most mob updates one batch message carries.
pub const MOB_BATCH_SIZE: usize = 16;

/// The kinds of message client and server exchange. `Empty` is the message that
/// means nothing (sent in place of one that could not be read). The last five
/// carry a client's greeting and goodbye and the chest traffic.
#[derive(PartialEq, Eq, Structural, Clone, Copy, Debug)]
pub enum MessageType {
    Empty,
    RequestUdm,
    RequestSeed,
    RequestPt,
    Pt,
    Udm,
    Seed,
    PlayerUpdate,
    BlockSet,
    RequestTakeoff,
    YourId,
    MobUpdate,
    NewMob,
    WhatsThatMob,
    ShutUpMobMsgs,
    MobUpdateBatch,
    TimeUpdate,
    RequestMyID,
    MultiBlockSet,
    TellYouMyID,
    Disconnect,
    ReqChestReg,
    ChestReg,
    ChestInvUpdate,
}

/// The name a message kind is shown by in logs.
pub open spec fn message_type_name(t: MessageType) -> Seq<char> {
    match t {
        MessageType::Empty => "None"@,
        MessageType::RequestUdm => "RequestUdm"@,
        MessageType::RequestSeed => "RequestSeed"@,
        MessageType::RequestPt => "RequestPt"@,
        MessageType::Pt => "Pt"@,
        MessageType::Udm => "Udm"@,
        MessageType::Seed => "Seed"@,
        MessageType::PlayerUpdate => "PlayerUpdate"@,
        MessageType::BlockSet => "BlockSet"@,
        MessageType::RequestTakeoff => "RequestTakeoff"@,
        MessageType::YourId => "YourId"@,
        MessageType::MobUpdate => "MobUpdate"@,
        MessageType::NewMob => "NewMob"@,
        MessageType::WhatsThatMob => "WhatsThatMob"@,
        MessageType::ShutUpMobMsgs => "ShutUpMobMsgs"@,
        MessageType::MobUpdateBatch => "MobUpdateBatch"@,
        MessageType::TimeUpdate => "TimeUpdate"@,
        MessageType::RequestMyID => "Requestmyid"@,
        MessageType::MultiBlockSet => "MultiBlockSet"@,
        MessageType::TellYouMyID => "TellYouMyID"@,
        MessageType::Disconnect => "Disconnect"@,
        MessageType::ReqChestReg => "ReqChestReg"@,
        MessageType::ChestReg => "ChestReg"@,
        MessageType::ChestInvUpdate => "ChestInvUpdate"@,
    }
}

impl MessageType {
    /// The name this message kind is shown by in logs.
    pub fn name(&self) -> (s: &'static str)
        ensures
            s@ == message_type_name(*self),
    {
        match self {
            MessageType::Empty => "None",
            MessageType::RequestUdm => "RequestUdm",
            MessageType::RequestSeed => "RequestSeed",
            MessageType::RequestPt => "RequestPt",
            MessageType::Pt => "Pt",
            MessageType::Udm => "Udm",
            MessageType::Seed => "Seed",
            MessageType::PlayerUpdate => "PlayerUpdate",
            MessageType::BlockSet => "BlockSet",
            MessageType::RequestTakeoff => "RequestTakeoff",
            MessageType::YourId => "YourId",
            MessageType::MobUpdate => "MobUpdate",
            MessageType::NewMob => "NewMob",
            MessageType::WhatsThatMob => "WhatsThatMob",
            MessageType::ShutUpMobMsgs => "ShutUpMobMsgs",
            MessageType::MobUpdateBatch => "MobUpdateBatch",
            MessageType::TimeUpdate => "TimeUpdate",
            MessageType::RequestMyID => "Requestmyid",
            MessageType::MultiBlockSet => "MultiBlockSet",
            MessageType::TellYouMyID => "TellYouMyID",
            MessageType::Disconnect => "Disconnect",
            MessageType::ReqChestReg => "ReqChestReg",
            MessageType::ChestReg => "ChestReg",
            MessageType::ChestInvUpdate => "ChestInvUpdate",
        }
    }
}

/// One stored block of a world: where it is and its value.
pub struct Entry {
    pub key: IVec3,
    pub value: u32,
}

} // verus!
