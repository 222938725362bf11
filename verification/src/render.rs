//! Markdown rendering for comment content.

use vstd::prelude::*;

verus! {

/// What the markdown renderer produces for a given text, with the fixed
/// option set this crate uses.  Opaque: only the renderer defines it.
pub uninterp spec fn rendered_md(s: Seq<char>) -> Seq<char>;

/// Relies on comrak::markdown_to_html: the rendered HTML depends on the
/// markdown text and this fixed option set alone (smart punctuation, hard
/// breaks, GitHub pre-lang, header id prefix, autolink, footnotes,
/// tables, task lists, strikethrough, superscript, description lists).
#[verifier::external_body]
pub fn render_md(raw: &str) -> (r: String)
    ensures
        r@ == rendered_md(raw@),
{
    let mut o = comrak::Options::default();
    o.parse.smart = true;
    o.render.hardbreaks = true;
    o.render.github_pre_lang = true;
    o.extension.header_id_prefix = Some("writ-".to_string());
    o.extension.autolink = true;
    o.extension.footnotes = true;
    o.extension.table = true;
    o.extension.tasklist = true;
    o.extension.strikethrough = true;
    o.extension.superscript = true;
    o.extension.description_lists = true;
    comrak::markdown_to_html(raw, &o)
}

} // verus!
