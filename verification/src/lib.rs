//! Verified rules of an online role-playing game server: inventory bags,
//! enchanting odds, estate storage, fences, furniture checkout, beds, chat
//! commands, consent requests, friend lists, goal movement request
//! ordering, dungeon bookkeeping, area-of-interest subscriptions and the
//! combat audit.
pub mod abilities;
pub mod clock;
pub mod enchant;
pub mod estate;
pub mod fence;
pub mod text;
pub mod audit_files;
pub mod bag;
pub mod bag_drop;
pub mod bed;
mod chance;
pub mod chat;
pub mod combat;
pub mod combat_audit;
pub mod consent;
pub mod debuff;
pub mod dungeon;
pub mod friends;
pub mod furniture;
pub mod gear;
pub mod instrument;
pub mod interest;
pub mod keyed;
pub mod movement;
pub mod player_snapshot;
pub mod purse;
