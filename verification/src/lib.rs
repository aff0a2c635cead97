//! Game-logic core of a role-play universe engine: text formats for loot
//! tables, recipes and effects, loot rolls, schedules of timed activities and
//! the configuration of a server's Discord identifiers.
pub mod text;
pub mod document;
pub mod loot_tables;
pub mod loot_table_parser;
pub mod loot;
pub mod looting;
pub mod roll_laws;
pub mod tally;
pub mod modifiers;
pub mod inventory;
pub mod item;
pub mod recipe;
pub mod recipe_parser;
pub mod effect_parser;
pub mod schedule;
pub mod carousel;
pub mod travel;
pub mod universe;
pub mod server;
pub mod transfer;
pub mod sheet;
pub mod consume;
pub mod reply;
