//! What the page shows about a memo and the device: the memo's Markdown as
//! HTML, and whether the browser is a mobile one.

use vstd::prelude::*;
use crate::text::{contains, contains_text, lowercase, to_lowercase};

verus! {

/// The Markdown extensions a memo is rendered with: tables (`1 << 1`) and
/// strikethrough (`1 << 3`) in pulldown-cmark's option bits.
pub const MARKDOWN_OPTIONS: u32 = 0b1010;

/// The HTML that pulldown-cmark's `html::push_html` writes for a Markdown
/// text parsed with the given option bits.
pub uninterp spec fn markdown_html(text: Seq<char>, option_bits: u32) -> Seq<char>;

/// Calls `pulldown_cmark::Parser::new_ext` with the options of the given
/// bits and `pulldown_cmark::html::push_html` into an empty string; the
/// HTML is named by [`markdown_html`] and not spelled out.
#[verifier::external_body]
fn render_markdown(text: &str, option_bits: u32) -> (r: String)
    ensures
        r@ == markdown_html(text@, option_bits),
{
    let mut html = String::new();
    pulldown_cmark::html::push_html(
        &mut html,
        pulldown_cmark::Parser::new_ext(text, pulldown_cmark::Options::from_bits_truncate(option_bits)),
    );
    html
}

/// The HTML of a memo's Markdown content, with tables and strikethrough.
pub fn memo_html(content: &str) -> (r: String)
    ensures
        r@ == markdown_html(content@, MARKDOWN_OPTIONS),
{
    render_markdown(content, MARKDOWN_OPTIONS)
}

/// A lower-cased user agent that names a phone or tablet: it contains
/// `mobi`, `android`, `iphone` or `ipad`.
pub open spec fn mentions_mobile(lower_agent: Seq<char>) -> bool {
    ||| contains_text(lower_agent, "mobi"@)
    ||| contains_text(lower_agent, "android"@)
    ||| contains_text(lower_agent, "iphone"@)
    ||| contains_text(lower_agent, "ipad"@)
}

/// A user agent that names a phone or tablet once lower-cased.
pub open spec fn is_mobile_agent(user_agent: Seq<char>) -> bool {
    mentions_mobile(lowercase(user_agent))
}

/// Whether an already lower-cased user agent names a phone or tablet.
pub fn mentions_mobile_device(lower_agent: &str) -> (r: bool)
    ensures
        r == mentions_mobile(lower_agent@),
{
    contains(lower_agent, "mobi") || contains(lower_agent, "android") || contains(
        lower_agent,
        "iphone",
    ) || contains(lower_agent, "ipad")
}

/// Whether the lower-cased user agent names a phone or tablet: it contains
/// `mobi`, `android`, `iphone` or `ipad`.
pub fn is_mobile_user_agent(user_agent: &str) -> (r: bool)
    ensures
        r == is_mobile_agent(user_agent@),
{
    let ua = to_lowercase(user_agent);
    mentions_mobile_device(ua.as_str())
}

} // verus!
