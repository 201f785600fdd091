//! Crafting profitability for a recipe-driven economy.
//!
//! A recipe turns ingredients and one elemental crystal into an item. This
//! library reads recipes and items from rows of the game's tables
//! ([`ingest`]), prices a craft from the ingredients' prices and the
//! crystal's share ([`pricing`]), keeps the recipes and the crystal prices
//! that a frontend works on ([`catalogue`]), and turns both into bytes and
//! back ([`codec`], over the wire forms of [`wire`]). Amounts are exact
//! decimals ([`amount`], [`decimal`]); [`label`] makes identifiers readable
//! and [`text`] holds the character-level helpers.

pub mod amount;
pub mod catalogue;
pub mod codec;
pub mod decimal;
pub mod ingest;
pub mod label;
pub mod model;
pub mod pricing;
pub mod text;
pub mod wire;
