//! Relays AIS sentences: frames received bytes into lines, prefixes them with an
//! NMEA tag block, tracks a gpsd position feed and drives the upload loop.

pub mod ais_reformatter;
pub mod position;
pub mod gpsd_protocol;
pub mod tcp_stream;
pub mod upload_control;
