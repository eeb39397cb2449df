//! The whole per-message pipeline: admission, rewriting, rendering.
//!
//! One message is processed end to end: a denylisted author suppresses
//! the message before anything else; otherwise the emote ranges are
//! spliced out, the line is composed and painted, and a body that is
//! empty after trimming suppresses the line.

use vstd::prelude::*;
use crate::color::hint_model;
use crate::render::admit_author;
use crate::render::author_denied;
use crate::render::lossy_of;
use crate::render::render_line;
use crate::render::rendered_line_spec;
use crate::render::trim_spec;
use crate::render::wrap_model;
use crate::rewrite::flatten_placements;
use crate::rewrite::placements_wf;
use crate::rewrite::rewrite;
use crate::rewrite::rewrite_spec;
use crate::rewrite::EmotePlacement;

verus! {

/// Processes one chat message: suppressed entirely when the author's
/// login stands on the bot denylist; otherwise every emote range of the
/// text is replaced by its payload and the line is rendered with the
/// nick painted in the resolved color. Returns the printable line, or
/// `None` when the message is suppressed (denied author, or a body that
/// is empty after trimming).
pub fn process_message(
    login: &Vec<u8>,
    nick: &Vec<u8>,
    hint: &Option<Vec<u8>>,
    text: &Vec<u8>,
    refs: &Vec<EmotePlacement>,
    wrap_width: Option<usize>,
) -> (out: Option<String>)
    requires
        placements_wf(refs@, text@.len() as int),
    ensures
        author_denied(login@) ==> out is None,
        !author_denied(login@) ==> (out is Some) == (trim_spec(
            rewrite_spec(text@, flatten_placements(refs@)),
        ).len() > 0),
        !author_denied(login@) ==> (out matches Some(line) ==> line@ == lossy_of(
            rendered_line_spec(
                nick@,
                hint_model(*hint),
                rewrite_spec(text@, flatten_placements(refs@)),
                wrap_model(wrap_width),
            ),
        )),
{
    if !admit_author(login) {
        return None;
    }
    let rewritten = rewrite(text, refs);
    render_line(nick, hint, &rewritten, wrap_width)
}

} // verus!
