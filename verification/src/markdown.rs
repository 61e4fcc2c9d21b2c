//! The markdown tokenizer and renderer, as far as notes use them: the
//! sequence of events of a body, and the HTML of a body.

use pulldown_cmark::{Event, Options, Parser};
use vstd::prelude::*;

verus! {

/// An event of a markdown document, reduced to what a note reads of it.
#[derive(Debug, Clone, PartialEq, Eq)]
pub enum MarkdownEvent {
    /// A run of text, with the text.
    Text(String),
    /// Any other event: the start or end of an element, inline code, a line
    /// break and so on.
    Other,
}

/// An event with its text as a sequence of characters.
pub ghost enum MarkdownEventView {
    Text(Seq<char>),
    Other,
}

impl View for MarkdownEvent {
    type V = MarkdownEventView;

    open spec fn view(&self) -> MarkdownEventView {
        match self {
            MarkdownEvent::Text(text) => MarkdownEventView::Text(text@),
            MarkdownEvent::Other => MarkdownEventView::Other,
        }
    }
}

impl DeepView for MarkdownEvent {
    type V = MarkdownEventView;

    open spec fn deep_view(&self) -> MarkdownEventView {
        self@
    }
}

/// The events that the tokenizer produces for a body without any extension
/// enabled, in document order.
pub uninterp spec fn markdown_events(body: Seq<char>) -> Seq<MarkdownEventView>;

/// The HTML that the renderer produces for a body with every extension
/// enabled.
pub uninterp spec fn markdown_html(body: Seq<char>) -> Seq<char>;

/// Runs `pulldown_cmark::Parser::new` on the body and collects the events it
/// yields, each reduced to a `MarkdownEvent`. The tokenizer reads nothing but
/// the text it is given, so the events are a function of the body.
#[verifier::external_body]
pub(crate) fn tokenize(body: &str) -> (events: Vec<MarkdownEvent>)
    ensures
        events.deep_view() == markdown_events(body@),
{
    let mut events = Vec::new();
    for event in Parser::new(body) {
        events.push(
            match event {
                Event::Text(text) => MarkdownEvent::Text(text.into_string()),
                _ => MarkdownEvent::Other,
            },
        );
    }
    events
}

/// Runs `pulldown_cmark::html::push_html` into an empty string on the events
/// of `pulldown_cmark::Parser::new_ext` with `Options::all()`. Neither reads
/// anything but the text it is given, so the HTML is a function of the body.
#[verifier::external_body]
pub(crate) fn render(body: &str) -> (html: String)
    ensures
        html@ == markdown_html(body@),
{
    let mut html = String::new();
    pulldown_cmark::html::push_html(&mut html, Parser::new_ext(body, Options::all()));
    html
}

} // verus!
