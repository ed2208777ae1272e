//! The core of an EPUB reader: pagination, positions, search, hyphenation,
//! the library and the decisions of the reading window.
//!
//! Lengths are whole numbers of thousandths of a CSS pixel throughout.
use vstd::prelude::*;

pub mod bands;
pub mod book;
pub mod catalogue;
pub mod cfi;
pub mod chapter;
pub mod chapter_laws;
pub mod check;
pub mod db;
pub mod document_laws;
pub mod dom;
pub mod events;
pub mod frame;
pub mod grid;
pub mod hud;
pub mod hyphen;
pub mod hyphen_laws;
pub mod library;
pub mod marks;
pub mod markup;
pub mod menu;
pub mod net;
pub mod order;
pub mod paginate;
pub mod paint;
pub mod places;
pub mod places_laws;
pub mod reader;
pub mod reader_laws;
pub mod readout;
pub mod screen;
pub mod search;
pub mod screen_laws;
pub mod search_laws;
pub mod settings;
pub mod sheet_laws;
pub mod shelf_laws;
pub mod shot;
pub mod style;
pub mod tags;
pub mod text;
pub mod text_laws;
pub mod toc;
pub mod view_laws;
pub mod window;

verus! {

} // verus!
