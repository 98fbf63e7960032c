//! Turns a fetched news page into a clean article: it locates the article body by
//! publisher rules, a generic extractor or density scoring, cuts out boilerplate,
//! repairs lazy images and relative links, and fills in title, authors and date.

use vstd::prelude::*;

pub mod convert;
pub mod dom;
pub mod extract;
pub mod feed;
pub mod filter;
pub mod html;
pub mod images;
pub mod links;
pub mod options;
pub mod pattern;
pub mod resolve;
pub mod score;
pub mod srcset;
pub mod text;
pub mod util;
pub mod web;
