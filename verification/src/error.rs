//! The errors of the client logic, each with the message the user sees.

use vstd::prelude::*;
use vstd::string::*;

verus! {

/// Why a request to the League client could not be answered.
pub enum LcuError {
    /// A request failed on its way (connection, status, decoding); the
    /// message says how.
    Request(String),
    /// No detection method found the client's port and token; the message
    /// lists what each method reported.
    Detection(String),
    /// Credentials are only looked for on Windows.
    UnsupportedPlatform,
    /// The current summoner has no PUUID.
    MissingPuuid,
    /// The match history holds no game.
    NoRecentGame,
    /// The game details hold no participant list.
    MissingParticipants,
    /// The game details hold no participant identity list.
    MissingIdentities,
    /// The current summoner is not among the game's identities.
    PlayerNotInGame,
    /// The current summoner's team cannot be determined.
    TeamNotFound,
}

/// The message of an error.
pub open spec fn error_message(e: LcuError) -> Seq<char> {
    match e {
        LcuError::Request(m) => m@,
        LcuError::Detection(m) => m@,
        LcuError::UnsupportedPlatform => "仅支持 Windows 系统"@,
        LcuError::MissingPuuid => "无法获取 PUUID"@,
        LcuError::NoRecentGame => "没有找到最近的对局记录"@,
        LcuError::MissingParticipants => "对局详情中没有参与者数据"@,
        LcuError::MissingIdentities => "对局详情中没有玩家身份数据"@,
        LcuError::PlayerNotInGame => "无法在对局中找到当前玩家"@,
        LcuError::TeamNotFound => "无法确定当前玩家的队伍"@,
    }
}

impl LcuError {
    /// The message of this error, as the user sees it.
    pub fn message(&self) -> (r: String)
        ensures
            r@ == error_message(*self),
    {
        match self {
            LcuError::Request(m) => m.clone(),
            LcuError::Detection(m) => m.clone(),
            LcuError::UnsupportedPlatform => String::from_str("仅支持 Windows 系统"),
            LcuError::MissingPuuid => String::from_str("无法获取 PUUID"),
            LcuError::NoRecentGame => String::from_str("没有找到最近的对局记录"),
            LcuError::MissingParticipants => String::from_str("对局详情中没有参与者数据"),
            LcuError::MissingIdentities => String::from_str("对局详情中没有玩家身份数据"),
            LcuError::PlayerNotInGame => String::from_str("无法在对局中找到当前玩家"),
            LcuError::TeamNotFound => String::from_str("无法确定当前玩家的队伍"),
        }
    }
}

} // verus!
