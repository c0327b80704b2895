//! Laser Lockdown: the decisions of a lockbox with a keycard reader, an SD card and an
//! administration panel.
pub mod buzzer;
pub mod calendar;
pub mod cookie;
pub mod door;
pub mod hashing;
pub mod net;
pub mod ntp;
pub mod rfid;
pub mod roster;
pub mod sd;
pub mod sd_utils;
pub mod signals;
pub mod storage;
pub mod text;
pub mod userdb;
pub mod web;
