//! The settings of the simulation: the capacity of the pool and the counters.

use crate::database::Database;
use vstd::prelude::*;

verus! {

/// The settings.
///
/// `memory_size` is the capacity of the pool, absent until it is set.
/// `partition_consecutive_number` is the sequence number that the next new
/// partition gets. `compactions` and `condensations` count the passes that
/// moved a partition and the merges.
#[derive(Clone, Copy, Debug, PartialEq, Eq, Structural)]
pub struct Settings {
    pub memory_size: Option<i32>,
    pub partition_consecutive_number: i32,
    pub compactions: i32,
    pub condensations: i32,
}

/// The names of the settings.
#[derive(Clone, Copy, Debug, PartialEq, Eq, Structural)]
pub enum SettingName {
    MemorySize,
    PartitionConsecutiveNumber,
    Compactions,
    Condensations,
}

/// The settings after a reset: no capacity, the first sequence number, and
/// nothing counted.
pub open spec fn initial_settings() -> Settings {
    Settings {
        memory_size: None,
        partition_consecutive_number: 1,
        compactions: 0,
        condensations: 0,
    }
}

/// Puts every setting back to its initial value.
pub fn reset_configuration(db: &mut Database)
    ensures
        *final(db) == (Database { configuration: initial_settings(), ..*old(db) }),
        old(db).wf() && old(db).layout().len() == 0 ==> final(db).wf(),
{
    proof {
        reveal(crate::database::layout::table_valid);
    }
    db.configuration = Settings {
        memory_size: None,
        partition_consecutive_number: 1,
        compactions: 0,
        condensations: 0,
    };
}

/// Counts one more compaction.
pub fn increment_compactions(db: &mut Database)
    requires
        old(db).configuration.compactions < i32::MAX,
    ensures
        *final(db) == (Database {
            configuration: Settings {
                compactions: (old(db).configuration.compactions + 1) as i32,
                ..old(db).configuration
            },
            ..*old(db)
        }),
{
    db.configuration.compactions = db.configuration.compactions + 1;
}

/// Counts one more condensation.
pub fn increment_condensations(db: &mut Database)
    requires
        old(db).configuration.condensations < i32::MAX,
    ensures
        *final(db) == (Database {
            configuration: Settings {
                condensations: (old(db).configuration.condensations + 1) as i32,
                ..old(db).configuration
            },
            ..*old(db)
        }),
{
    db.configuration.condensations = db.configuration.condensations + 1;
}

/// Moves on to the next sequence number.
pub fn increment_partition_consecutive_number(db: &mut Database)
    requires
        old(db).configuration.partition_consecutive_number < i32::MAX,
    ensures
        *final(db) == (Database {
            configuration: Settings {
                partition_consecutive_number: (old(db).configuration.partition_consecutive_number
                    + 1) as i32,
                ..old(db).configuration
            },
            ..*old(db)
        }),
        old(db).wf() ==> final(db).wf(),
{
    proof {
        reveal(crate::database::layout::table_valid);
    }
    db.configuration.partition_consecutive_number = db.configuration.partition_consecutive_number
        + 1;
}

/// The number of compactions so far.
pub fn get_compactions(db: &Database) -> (compactions: i32)
    ensures
        compactions == db.configuration.compactions,
{
    db.configuration.compactions
}

/// The number of condensations so far.
pub fn get_condensations(db: &Database) -> (condensations: i32)
    ensures
        condensations == db.configuration.condensations,
{
    db.configuration.condensations
}

/// The sequence number that the next new partition gets.
pub fn get_partition_consecutive_number(db: &Database) -> (number: i32)
    ensures
        number == db.configuration.partition_consecutive_number,
{
    db.configuration.partition_consecutive_number
}

/// Sets the capacity of the pool.
pub fn set_memory_size(db: &mut Database, size: i32)
    ensures
        *final(db) == (Database {
            configuration: Settings { memory_size: Some(size), ..old(db).configuration },
            ..*old(db)
        }),
{
    db.configuration.memory_size = Some(size);
}

/// The capacity of the pool.
pub fn get_memory_size(db: &Database) -> (size: i32)
    requires
        db.configuration.memory_size is Some,
    ensures
        Some(size) == db.configuration.memory_size,
{
    match db.configuration.memory_size {
        Some(size) => size,
        None => 0,
    }
}

/// The value of the setting `value`, if it is set.
pub fn get_configuration_value(db: &Database, value: SettingName) -> (setting: Option<i32>)
    ensures
        setting == match value {
            SettingName::MemorySize => db.configuration.memory_size,
            SettingName::PartitionConsecutiveNumber => Some(
                db.configuration.partition_consecutive_number,
            ),
            SettingName::Compactions => Some(db.configuration.compactions),
            SettingName::Condensations => Some(db.configuration.condensations),
        },
{
    match value {
        SettingName::MemorySize => db.configuration.memory_size,
        SettingName::PartitionConsecutiveNumber => Some(
            db.configuration.partition_consecutive_number,
        ),
        SettingName::Compactions => Some(db.configuration.compactions),
        SettingName::Condensations => Some(db.configuration.condensations),
    }
}

} // verus!
