//! Rendering pipeline for chat messages: turns a raw chat event (author
//! name, optional color hint, UTF-8 text, and inline emote references
//! given as byte ranges) into one terminal-ready output line.
//!
//! The pipeline has four parts. [`color`] maps an optional hex color
//! hint to a terminal color with a fixed fallback policy. [`emote`]
//! encodes an emote image as an inline terminal-image escape payload,
//! subject to a size cap. [`rewrite`] replaces the emote byte ranges of
//! the message text by their payloads, applying the splices in
//! descending order of start offset so that pending offsets stay valid.
//! [`render`] paints the author name, trims and appends the body,
//! optionally reflows the line by greedy word wrap, and decodes the
//! result with lossy UTF-8 recovery. [`pipeline`] ties them together
//! for one message, suppressing messages from known bot authors.
//!
//! Network access - fetching the image bytes of an emote - stays with
//! the caller; the library works on plain values.

pub mod color;
pub mod emote;
pub mod pipeline;
pub mod render;
pub mod rewrite;
