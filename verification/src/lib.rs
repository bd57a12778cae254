//! The logic of a small start page server: where an icon may be fetched from, which
//! icon of a page is the best one, what is kept on disk and what is answered.

pub mod text;
pub mod sha1;
pub mod ip;
pub mod notation;
pub mod ranges;
pub mod egress;
pub mod origin;
pub mod cookie;
pub mod media;
pub mod links;
pub mod reply;
pub mod icon;
pub mod assets;
pub mod store;
pub mod startup;
