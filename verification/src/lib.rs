pub mod text;
pub mod num;
pub mod time;
pub mod log;
pub mod tags;
pub mod sort;
pub mod lines;
pub mod bagg;
pub mod bagg_cmd;
pub mod holler;
pub mod holler_cmd;
pub mod dates;
pub mod calchemy;
pub mod calchemy_cmd;
pub mod logview;
pub mod clocking;
pub mod flexi;
