//! Downloader for public mega.nz links: parsing links, talking to the API,
//! decrypting folders and files, planning downloads, and the text of the user
//! interfaces. Sockets, files and the terminal are the application's.

pub mod api;
pub mod base64;
pub mod cipher;
pub mod cli;
pub mod crypto;
pub mod download;
pub mod folder;
pub mod hashcash;
pub mod http;
pub mod json;
pub mod link;
pub mod mac;
pub mod order;
pub mod path;
pub mod picker;
pub mod plan;
pub mod size;
pub mod term;
pub mod text;
pub mod tree;
pub mod tui;
pub mod view;

pub use crate::plan::{
    default_dest_name, dest_path_for, resolve, Entry, FileInfo, Pending, Resolved,
};
