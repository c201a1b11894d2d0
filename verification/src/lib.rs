//! The logic of a music downloader: links, file names, tags, retries and
//! the bookkeeping of a batch, all of it over plain values.

pub mod account;
pub mod batch;
pub mod bytes;
pub mod cli;
pub mod config;
pub mod download;
pub mod library;
pub mod net;
pub mod source;
pub mod tags;
pub mod text;
pub mod track;
pub mod updater;
