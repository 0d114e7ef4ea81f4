//! cardcrusher: a rules referee for a trading-card duel.

pub mod arena;
pub mod card;
pub mod constants;
pub mod ids;
pub mod modifiers;
pub mod position;
pub mod reason;
pub mod zone;

pub mod field;
pub mod chain;
pub mod event;
pub mod group;
pub mod processor;
pub mod effect;
pub mod duel;
pub mod script;

pub use constants::{
    CMD_ACTIVATE, CMD_ATTACK, CMD_NEXT_PHASE, CMD_PASS, CMD_RESPONSE, CMD_SET_SPELL_TRAP, CMD_SUMMON,
    MSG_NEW_TURN, MSG_PHASE_BATTLE, MSG_PHASE_DRAW, MSG_PHASE_END, MSG_PHASE_MAIN1, MSG_PHASE_MAIN2,
    MSG_PHASE_STANDBY, MSG_SELECT_ATTACK_TARGET, MSG_SELECT_BATTLECMD, MSG_SELECT_CARD, MSG_SELECT_CHAIN,
    MSG_SELECT_IDLECMD, MSG_SELECT_YESNO, MSG_STARTUP, PLAYER_0, PLAYER_1,
};
