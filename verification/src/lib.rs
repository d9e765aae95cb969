//! A static site generator with a tiny HTTP server, and a load tester for it:
//! the text processing, page rendering, request routing and statistics logic.
pub mod text;
pub mod html;
pub mod post;
pub mod order;
pub mod site;
pub mod markdown;
pub mod server;
pub mod loadtest;
