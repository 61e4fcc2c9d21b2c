//! Notes: inline tag scanning and the assembly of a note from its parts.

use vstd::prelude::*;
use crate::literal::{document_of, inserted, lemma_header_round_trip, writable};
use crate::markdown::{markdown_events, markdown_html, render, tokenize};
use crate::markdown::{MarkdownEvent, MarkdownEventView};
use crate::metadata::{frontmatter, parse_frontmatter, tags_of};
use crate::metadata::{Metadata, MetadataError, MetadataValueView};
use crate::text::{chars_of, lacks, string_of, trim, unicode_alphanumeric};
use crate::wikilink::{fed_link, lemma_rest_is_pending, lemma_scan_split, scan_links, scan_rest};
use crate::wikilink::{Wikilink, WikilinkParser, WikilinkView};

verus! {

/// The characters a tag is made of: alphanumeric characters of any script and
/// the punctuation `_`, `-` and `/`. The marker `#` is never part of a tag.
pub open spec fn is_tag_char(c: char) -> bool {
    c != '#' && (unicode_alphanumeric(c) || c == '_' || c == '-' || c == '/')
}

/// Length of the longest prefix of `s` made of tag characters.
pub open spec fn tag_run(s: Seq<char>) -> nat
    decreases s.len(),
{
    if s.len() > 0 && is_tag_char(s[0]) {
        1 + tag_run(s.skip(1))
    } else {
        0
    }
}

/// The inline tags of a text run, in order: each `#` that is directly
/// followed by tag characters starts a tag, which is the longest run of tag
/// characters after the marker. A `#` followed by anything else starts
/// nothing.
pub open spec fn tags_in(s: Seq<char>) -> Seq<Seq<char>>
    decreases s.len(),
{
    if s.len() == 0 {
        Seq::empty()
    } else if s[0] == '#' && tag_run(s.skip(1)) > 0 {
        let n = tag_run(s.skip(1)) as int;
        proof {
            lemma_tag_run_bound(s.skip(1));
        }
        seq![s.subrange(1, 1 + n)] + tags_in(s.skip(1 + n))
    } else {
        tags_in(s.skip(1))
    }
}

/// The tag run is no longer than the text.
pub proof fn lemma_tag_run_bound(s: Seq<char>)
    ensures
        tag_run(s) <= s.len(),
    decreases s.len(),
{
    if s.len() > 0 && is_tag_char(s[0]) {
        lemma_tag_run_bound(s.skip(1));
    }
}

/// A prefix of tag characters that ends at a character that is none, or at
/// the end, is the tag run.
pub proof fn lemma_tag_run_is(s: Seq<char>, n: int)
    requires
        0 <= n <= s.len(),
        forall|k: int| 0 <= k < n ==> is_tag_char(s[k]),
        n == s.len() || !is_tag_char(s[n]),
    ensures
        tag_run(s) == n,
    decreases n,
{
    if n > 0 {
        let t = s.skip(1);
        lemma_tag_run_is(t, n - 1);
    }
}

/// Every tag is a non-empty run of tag characters.
pub proof fn lemma_tags_are_runs(s: Seq<char>, i: int)
    requires
        0 <= i < tags_in(s).len(),
    ensures
        tags_in(s)[i].len() > 0,
        forall|k: int| 0 <= k < tags_in(s)[i].len() ==> is_tag_char(#[trigger] tags_in(s)[i][k]),
    decreases s.len(),
{
    if s.len() == 0 {
    } else if s[0] == '#' && tag_run(s.skip(1)) > 0 {
        let n = tag_run(s.skip(1)) as int;
        lemma_tag_run_bound(s.skip(1));
        if i == 0 {
            let tag = s.subrange(1, 1 + n);
            assert forall|k: int| 0 <= k < tag.len() implies is_tag_char(#[trigger] tag[k]) by {
                lemma_tag_run_holds(s.skip(1), k);
            }
        } else {
            lemma_tags_are_runs(s.skip(1 + n), i - 1);
        }
    } else {
        lemma_tags_are_runs(s.skip(1), i);
    }
}

/// Every character inside the tag run is a tag character.
proof fn lemma_tag_run_holds(s: Seq<char>, k: int)
    requires
        0 <= k < tag_run(s),
    ensures
        k < s.len(),
        is_tag_char(s[k]),
    decreases s.len(),
{
    if k > 0 {
        lemma_tag_run_holds(s.skip(1), k - 1);
    }
}

/// Whether `c` may stand in a tag.
pub fn is_tag_character(c: char) -> (b: bool)
    ensures
        b == is_tag_char(c),
{
    c != '#' && (c.is_alphanumeric() || c == '_' || c == '-' || c == '/')
}

/// Scans one text run for inline tags.
///
/// Scanning is local to the run: a marker at the very end of one run does not
/// reach into the next.
pub fn collect_tags(text: &str) -> (tags: Vec<String>)
    ensures
        tags.deep_view() == tags_in(text@),
{
    let v = chars_of(text);
    let n = v.len();
    let mut tags: Vec<String> = Vec::new();
    let mut i: usize = 0;
    proof {
        assert(v@.skip(0) == v@);
    }
    while i < n
        invariant
            i <= n,
            n == v.len(),
            tags.deep_view() + tags_in(v@.skip(i as int)) == tags_in(v@),
        decreases n - i,
    {
        let ghost rest = v@.skip(i as int);
        if v[i] == '#' {
            let mut j: usize = i + 1;
            while j < n && is_tag_character(v[j])
                invariant
                    i < j <= n,
                    n == v.len(),
                    forall|k: int| i < k < j ==> is_tag_char(v@[k]),
                decreases n - j,
            {
                j += 1;
            }
            proof {
                lemma_tag_run_is(rest.skip(1), j - i - 1);
            }
            if j > i + 1 {
                let tag = string_of(&v, i + 1, j);
                tags.push(tag);
                proof {
                    assert(rest.subrange(1, j - i) == v@.subrange(i + 1, j as int));
                    assert(rest.skip(j - i) == v@.skip(j as int));
                }
                i = j;
            } else {
                proof {
                    assert(rest.skip(1) == v@.skip(i + 1));
                }
                i += 1;
            }
        } else {
            proof {
                assert(rest.skip(1) == v@.skip(i + 1));
            }
            i += 1;
        }
    }
    tags
}

/// `std::io::Error` of the standard library, which a note error carries
/// through as it came; nothing is said of what it holds.
#[verifier::external_type_specification]
#[verifier::external_body]
pub struct ExIoError(std::io::Error);

/// Why a note could not be built.
#[derive(Debug)]
pub enum NoteError {
    /// The file could not be read.
    IOError(std::io::Error),
    /// The header of the document could not be read.
    MetadataValueError(MetadataError),
    /// The path names no file from which a title could be taken.
    NoFileName,
}

impl NoteError {
    /// A short description of the error.
    pub fn message(&self) -> (text: &'static str)
        ensures
            text@ == match self {
                NoteError::IOError(_) => "io error"@,
                NoteError::MetadataValueError(_) => "frontmatter value error"@,
                NoteError::NoFileName => "no file name"@,
            },
    {
        match self {
            NoteError::IOError(_) => "io error",
            NoteError::MetadataValueError(_) => "frontmatter value error",
            NoteError::NoFileName => "no file name",
        }
    }
}

/// A note: a document split into its title, body, tags, links and metadata.
#[derive(Debug, PartialEq)]
pub struct Note {
    pub title: String,
    pub content: String,
    pub tags: Vec<String>,
    pub links: Vec<Wikilink>,
    pub metadata: Metadata,
}

/// What a note holds, with strings as sequences of characters.
pub ghost struct NoteView {
    pub title: Seq<char>,
    pub content: Seq<char>,
    pub tags: Seq<Seq<char>>,
    pub links: Seq<WikilinkView>,
    pub metadata: Map<Seq<char>, MetadataValueView>,
}

impl View for Note {
    type V = NoteView;

    open spec fn view(&self) -> NoteView {
        NoteView {
            title: self.title@,
            content: self.content@,
            tags: self.tags.deep_view(),
            links: self.links.deep_view(),
            metadata: self.metadata@,
        }
    }
}

/// The text of an event: that of a text run, and none for any other event.
pub open spec fn event_text(event: MarkdownEventView) -> Seq<char> {
    match event {
        MarkdownEventView::Text(text) => text,
        MarkdownEventView::Other => Seq::empty(),
    }
}

/// The text runs of the events, joined in order.
pub open spec fn joined_text(events: Seq<MarkdownEventView>) -> Seq<char>
    decreases events.len(),
{
    if events.len() == 0 {
        Seq::empty()
    } else {
        joined_text(events.drop_last()) + event_text(events.last())
    }
}

/// The inline tags of the events: those of each text run by itself, in the
/// order of the runs.
pub open spec fn inline_tags(events: Seq<MarkdownEventView>) -> Seq<Seq<char>>
    decreases events.len(),
{
    if events.len() == 0 {
        Seq::empty()
    } else {
        inline_tags(events.drop_last()) + tags_in(event_text(events.last()))
    }
}

/// The text that the link scanner holds pending behind the events: every
/// text run is fed to it in order, and any other event leaves it as it is.
pub open spec fn pending_after(events: Seq<MarkdownEventView>) -> Seq<char>
    decreases events.len(),
{
    if events.len() == 0 {
        Seq::empty()
    } else {
        match events.last() {
            MarkdownEventView::Text(text) => scan_rest(pending_after(events.drop_last()) + text),
            MarkdownEventView::Other => pending_after(events.drop_last()),
        }
    }
}

/// The links of the events: for each text run in order, the link that
/// feeding the run to the scanner reports, if any. A run reports at most one
/// link, the first that it completes; a link may begin in one run and be
/// completed by a later one.
pub open spec fn fed_links(events: Seq<MarkdownEventView>) -> Seq<WikilinkView>
    decreases events.len(),
{
    if events.len() == 0 {
        Seq::empty()
    } else {
        let before = fed_links(events.drop_last());
        match events.last() {
            MarkdownEventView::Text(text) => match fed_link(
                pending_after(events.drop_last()),
                text,
            ) {
                Some(link) => before.push(link),
                None => before,
            },
            MarkdownEventView::Other => before,
        }
    }
}

/// The note of a title, a body, the metadata of its header and the events of
/// the body. The tags are those that the header declares followed by the
/// inline tags; the links are those that the text runs report, one after
/// the other, to one scanner.
pub open spec fn note_of(
    title: Seq<char>,
    body: Seq<char>,
    metadata: Map<Seq<char>, MetadataValueView>,
    events: Seq<MarkdownEventView>,
) -> NoteView {
    NoteView {
        title,
        content: body,
        tags: tags_of(metadata) + inline_tags(events),
        links: fed_links(events),
        metadata,
    }
}

/// What parsing a document under a title gives: the note of its header and
/// body with the events that the tokenizer produces for the body, or the
/// error of its header.
pub open spec fn parsed(title: Seq<char>, document: Seq<char>) -> Result<NoteView, MetadataError> {
    match frontmatter(document) {
        Ok((metadata, body)) => Ok(note_of(title, body, metadata, markdown_events(body))),
        Err(e) => Err(e),
    }
}

/// Whether `result` is what `parsed` says of a document.
pub open spec fn is_parsed(
    result: Result<Note, NoteError>,
    title: Seq<char>,
    document: Seq<char>,
) -> bool {
    match parsed(title, document) {
        Ok(view) => result matches Ok(note) && note@ == view,
        Err(e) => result matches Err(NoteError::MetadataValueError(x)) && x == e,
    }
}

impl Note {
    /// Builds a note from its parts and the events of its body.
    ///
    /// Every text run is scanned for inline tags by itself, and fed once to
    /// one wikilink scanner that runs over all of them: a run adds the link
    /// that the scanner reports for it, if any.
    pub fn assemble(title: &str, body: &str, metadata: Metadata, events: &Vec<MarkdownEvent>) -> (note:
        Note)
        ensures
            note@ == note_of(title@, body@, metadata@, events.deep_view()),
    {
        let ghost all = events.deep_view();
        let mut tags = metadata.tags();
        let mut links: Vec<Wikilink> = Vec::new();
        let mut scanner = WikilinkParser::new();
        let n = events.len();
        let mut i: usize = 0;
        while i < n
            invariant
                i <= n,
                n == events.len(),
                all == events.deep_view(),
                tags.deep_view() == tags_of(metadata@) + inline_tags(all.take(i as int)),
                links.deep_view() == fed_links(all.take(i as int)),
                scanner@ == pending_after(all.take(i as int)),
            decreases n - i,
        {
            let ghost seen = all.take(i as int);
            let ghost tags_before = tags.deep_view();
            let ghost links_before = links.deep_view();
            proof {
                assert(all.take(i + 1).drop_last() == seen);
                assert(all.take(i + 1).last() == events[i as int]@);
            }
            match &events[i] {
                MarkdownEvent::Text(text) => {
                    match scanner.feed(text.as_str()) {
                        Some(link) => {
                            links.push(link);
                            proof {
                                assert(links.deep_view() =~= links_before.push(link@));
                            }
                        },
                        None => {},
                    }
                    let mut new_tags = collect_tags(text.as_str());
                    let ghost new_view = new_tags.deep_view();
                    tags.append(&mut new_tags);
                    proof {
                        assert(tags.deep_view() =~= tags_before + new_view);
                    }
                },
                MarkdownEvent::Other => {},
            }
            i += 1;
        }
        proof {
            assert(all.take(n as int) == all);
        }
        Note { title: title.to_owned(), content: body.to_owned(), tags, links, metadata }
    }

    /// Parses a document into the note of the given title.
    ///
    /// Fails where the document has a header that cannot be read.
    pub fn parse(title: &str, content: &str) -> (r: Result<Note, NoteError>)
        ensures
            is_parsed(r, title@, content@),
    {
        match parse_frontmatter(content) {
            Err(e) => Err(NoteError::MetadataValueError(e)),
            Ok((metadata, body)) => {
                let events = tokenize(body);
                Ok(Note::assemble(title, body, metadata, &events))
            },
        }
    }

    /// Builds the note of a file from what loading it gave: the stem of the
    /// file's name, which becomes the title, and the outcome of reading it.
    ///
    /// A path without a file name fails first, then a failed read, then a
    /// header that cannot be read.
    pub fn from_file(file_stem: Option<&str>, contents: Result<String, std::io::Error>) -> (r:
        Result<Note, NoteError>)
        ensures
            match (file_stem, contents) {
                (None, _) => r matches Err(NoteError::NoFileName),
                (Some(_), Err(e)) => r matches Err(NoteError::IOError(x)) && x == e,
                (Some(title), Ok(document)) => is_parsed(r, title@, document@),
            },
    {
        match file_stem {
            None => Err(NoteError::NoFileName),
            Some(title) => match contents {
                Err(e) => Err(NoteError::IOError(e)),
                Ok(document) => Note::parse(title, document.as_str()),
            },
        }
    }

    /// Renders the body of the note as HTML, with every extension of the
    /// renderer enabled.
    pub fn render_html(&self) -> (html: String)
        ensures
            html@ == markdown_html(self.content@),
    {
        render(self.content.as_str())
    }
}

/// What the scanner holds pending behind the events is what scanning their
/// joined text leaves pending: how the text is cut into runs does not matter
/// to what is still open.
pub proof fn lemma_pending_of_joined_text(events: Seq<MarkdownEventView>)
    ensures
        pending_after(events) == scan_rest(joined_text(events)),
    decreases events.len(),
{
    if events.len() > 0 {
        let front = events.drop_last();
        lemma_pending_of_joined_text(front);
        lemma_scan_split(joined_text(front), event_text(events.last()));
        match events.last() {
            MarkdownEventView::Text(text) => {},
            MarkdownEventView::Other => {
                lemma_rest_is_pending(joined_text(front));
                assert(pending_after(front) + Seq::<char>::empty() == pending_after(front));
            },
        }
    }
}

/// Where no text run completes more than one link, the links of the events
/// are the links of their joined text, in the order in which they are
/// completed.
pub proof fn lemma_links_of_joined_text(events: Seq<MarkdownEventView>)
    requires
        forall|i: int|
            0 <= i < events.len() ==> scan_links(
                pending_after(events.take(i)) + event_text(#[trigger] events[i]),
            ).len() <= 1,
    ensures
        fed_links(events) == scan_links(joined_text(events)),
    decreases events.len(),
{
    if events.len() > 0 {
        let front = events.drop_last();
        let last = events.last();
        assert(events.take(events.len() - 1) == front);
        assert forall|i: int| 0 <= i < front.len() implies scan_links(
            pending_after(front.take(i)) + event_text(#[trigger] front[i]),
        ).len() <= 1 by {
            assert(front.take(i) == events.take(i));
            assert(front[i] == events[i]);
        }
        lemma_links_of_joined_text(front);
        lemma_pending_of_joined_text(front);
        lemma_scan_split(joined_text(front), event_text(last));
        let found = scan_links(pending_after(front) + event_text(last));
        assert(found.len() <= 1);
        match last {
            MarkdownEventView::Text(text) => {
                if found.len() == 1 {
                    assert(found == seq![found[0]]);
                    assert(fed_links(front).push(found[0]) == fed_links(front) + found);
                } else {
                    assert(fed_links(front) + found == fed_links(front));
                }
            },
            MarkdownEventView::Other => {
                lemma_rest_is_pending(joined_text(front));
                assert(pending_after(front) + Seq::<char>::empty() == pending_after(front));
                assert(fed_links(front) + found == fed_links(front));
            },
        }
    }
}

/// A text without a marker holds no tag.
pub proof fn lemma_no_marker_no_tag(s: Seq<char>)
    requires
        lacks(s, '#'),
    ensures
        tags_in(s) == Seq::<Seq<char>>::empty(),
    decreases s.len(),
{
    if s.len() > 0 {
        let t = s.skip(1);
        assert forall|i: int| 0 <= i < t.len() implies t[i] != '#' by {
            assert(t[i] == s[i + 1]);
        }
        lemma_no_marker_no_tag(t);
    }
}

/// Where no text run holds a marker, the tags of a note are those that its
/// header declares, in the order of the list: all of them where the key
/// `tags` holds a list, and none where it is absent or holds another value.
pub proof fn lemma_tags_without_markers(
    title: Seq<char>,
    body: Seq<char>,
    metadata: Map<Seq<char>, MetadataValueView>,
    events: Seq<MarkdownEventView>,
)
    requires
        forall|i: int| 0 <= i < events.len() ==> lacks(event_text(#[trigger] events[i]), '#'),
    ensures
        inline_tags(events) == Seq::<Seq<char>>::empty(),
        note_of(title, body, metadata, events).tags == tags_of(metadata),
    decreases events.len(),
{
    if events.len() > 0 {
        let front = events.drop_last();
        assert forall|i: int| 0 <= i < front.len() implies lacks(
            event_text(#[trigger] front[i]),
            '#',
        ) by {
            assert(front[i] == events[i]);
        }
        lemma_tags_without_markers(title, body, metadata, front);
        assert(lacks(event_text(events[events.len() - 1]), '#'));
        lemma_no_marker_no_tag(event_text(events.last()));
    }
    assert(tags_of(metadata) + Seq::<Seq<char>>::empty() == tags_of(metadata));
}

/// A document that declares writable entries in its header parses into a
/// note whose metadata are the entries, inserted in order, and whose body
/// is what follows the header, without surrounding whitespace.
pub proof fn lemma_parsed_with_header(
    title: Seq<char>,
    entries: Seq<(Seq<char>, MetadataValueView)>,
    body: Seq<char>,
)
    requires
        writable(entries),
    ensures
        parsed(title, document_of(entries, body)) == Ok::<NoteView, MetadataError>(
            note_of(
                title,
                trim(body),
                inserted(entries, Map::empty()),
                markdown_events(trim(body)),
            ),
        ),
{
    lemma_header_round_trip(entries, body);
}

/// Rendering is idempotent: two renderings of one note are the same text,
/// character for character.
pub proof fn lemma_render_idempotent(note: Note, first: String, second: String)
    requires
        first@ == markdown_html(note.content@),
        second@ == markdown_html(note.content@),
    ensures
        first@ == second@,
{
}

/// A document without a header block parses into a note without metadata
/// whose body is the whole document.
pub proof fn lemma_parsed_without_header(title: Seq<char>, document: Seq<char>)
    requires
        !crate::metadata::has_header(document),
    ensures
        parsed(title, document) == Ok::<NoteView, MetadataError>(
            note_of(title, document, Map::empty(), markdown_events(document)),
        ),
{
}

} // verus!
