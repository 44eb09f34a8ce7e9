//! Match configuration checks: player and map limits, map symmetry, sides, the objective and
//! the positive tick settings.
use vstd::prelude::*;
use crate::types::Tick;
use crate::scoring::{sides, sides_valid, Multiplayer};
use crate::scoreboard::{rules_valid, validate_rules};
use crate::timed::Objective;
use crate::text::{is_blank, is_blank_exec};

verus! {

/// The integer and text settings of a match configuration.
#[derive(Debug, Clone, PartialEq, Eq)]
pub struct ConfigView {
    pub map_size: u16,
    pub player_count: u8,
    pub symmetric: bool,
    pub multiplayer: Multiplayer,
    pub objective: Objective,
    pub window_ticks: Option<Tick>,
    pub max_tick: Tick,
    pub stall_ticks: Tick,
    pub ticks_per_second: u32,
    pub simulation_threads: u16,
    pub checkpoint_interval: Tick,
    pub snapshot_interval: Tick,
    pub replay_directory: String,
}

/// Scoreboard rules must be valid; a lock increment must be positive.
pub open spec fn objective_valid(o: Objective) -> bool {
    match o {
        Objective::Scoreboard { rules } => rules_valid(rules),
        Objective::Hybrid { rules, lock_ticks_per_round } => rules_valid(rules) && lock_ticks_per_round > 0,
        Objective::Timed { lock_ticks_per_round } => lock_ticks_per_round > 0,
    }
}

/// A configuration the match can run with: 2 to 4 players on a square map of 8 to 512 tiles,
/// symmetric maps only for 2 or 4 players on an even size, valid sides and objective, positive
/// window and tick settings, and a replay directory.
pub open spec fn config_valid(c: ConfigView) -> bool {
    &&& 2 <= c.player_count <= 4
    &&& 8 <= c.map_size <= 512
    &&& !(c.symmetric && (c.player_count == 3 || c.map_size % 2 != 0))
    &&& sides_valid(c.player_count, c.multiplayer)
    &&& objective_valid(c.objective)
    &&& (c.window_ticks matches Some(w) ==> w > 0)
    &&& c.max_tick > 0
    &&& c.stall_ticks > 0
    &&& c.ticks_per_second > 0
    &&& c.checkpoint_interval > 0
    &&& c.snapshot_interval > 0
    &&& c.simulation_threads > 0
    &&& !is_blank(c.replay_directory@)
}

pub fn validate_config(c: &ConfigView) -> (r: Result<(), String>)
    ensures
        r is Ok <==> config_valid(*c),
{
    if !(2 <= c.player_count && c.player_count <= 4) || !(8 <= c.map_size && c.map_size <= 512) {
        return Err("current configuration supports 2-4 players and square maps of 8-512 tiles".to_string());
    }
    if c.symmetric && (c.player_count == 3 || c.map_size % 2 != 0) {
        return Err("symmetric maps require 2 or 4 players and an even map size".to_string());
    }
    match sides(c.player_count, &c.multiplayer) {
        Ok(_) => {},
        Err(e) => {
            return Err(e);
        },
    }
    match &c.objective {
        Objective::Scoreboard { rules } => {
            validate_rules(rules)?;
        },
        Objective::Hybrid { rules, lock_ticks_per_round } => {
            validate_rules(rules)?;
            if *lock_ticks_per_round == 0 {
                return Err("cooldown must be positive".to_string());
            }
        },
        Objective::Timed { lock_ticks_per_round } => {
            if *lock_ticks_per_round == 0 {
                return Err("cooldown must be positive".to_string());
            }
        },
    }
    if let Some(w) = c.window_ticks {
        if w == 0 {
            return Err("cooldown must be positive".to_string());
        }
    }
    if c.max_tick == 0 || c.stall_ticks == 0 || c.ticks_per_second == 0 || c.checkpoint_interval == 0
        || c.snapshot_interval == 0 || c.simulation_threads == 0 {
        return Err("cooldown must be positive".to_string());
    }
    if is_blank_exec(c.replay_directory.as_str()) {
        return Err("replay directory is empty".to_string());
    }
    Ok(())
}

} // verus!
