//! Recipe trees for monsters that are made by fusing other monsters.
//!
//! `data` holds the records of the catalogue and reads the tables of names.
//! `recipe` holds the nodes of a recipe tree and the builder; `policy` and
//! `expansion` state the rules that the builder follows, and what holds of
//! every tree that it builds. `branch` walks the branches of a tree, and
//! `monster_list` counts what a tree asks for.

pub mod branch;
pub mod data;
pub mod expansion;
pub mod monster_list;
pub mod policy;
pub mod recipe;
