//! Wikilinks: the constructs `[[target]]` and `[[target|label]]`, and a
//! scanner that recognises them in text that arrives in pieces.

use vstd::prelude::*;
use vstd::std_specs::cmp::PartialEqSpecImpl;
use crate::text::{chars_of, find_char, string_of, until};

verus! {

/// A reference from one note to another.
#[derive(Debug, Clone)]
pub struct Wikilink {
    pub target: String,
    pub label: Option<String>,
}

/// What a wikilink holds, as sequences of characters.
pub ghost struct WikilinkView {
    pub target: Seq<char>,
    pub label: Option<Seq<char>>,
}

impl View for Wikilink {
    type V = WikilinkView;

    open spec fn view(&self) -> WikilinkView {
        WikilinkView {
            target: self.target@,
            label: match self.label {
                Some(l) => Some(l@),
                None => None,
            },
        }
    }
}

impl DeepView for Wikilink {
    type V = WikilinkView;

    open spec fn deep_view(&self) -> WikilinkView {
        self@
    }
}

impl PartialEq for Wikilink {
    /// Two wikilinks are equal where target and label match exactly.
    fn eq(&self, other: &Wikilink) -> (r: bool) {
        self.target == other.target && match (&self.label, &other.label) {
            (Some(a), Some(b)) => *a == *b,
            (None, None) => true,
            _ => false,
        }
    }
}

impl PartialEqSpecImpl for Wikilink {
    open spec fn obeys_eq_spec() -> bool {
        true
    }

    open spec fn eq_spec(&self, other: &Wikilink) -> bool {
        self@ == other@
    }
}

impl Wikilink {
    /// A wikilink to `target`, shown as `label` where one is given.
    pub fn new(target: &str, label: Option<&str>) -> (link: Wikilink)
        ensures
            link@.target == target@,
            link@.label == match label {
                Some(l) => Some(l@),
                None => None,
            },
    {
        let label = match label {
            Some(l) => Some(l.to_owned()),
            None => None,
        };
        Wikilink { target: target.to_owned(), label }
    }
}

/// Whether the closing marker `]]` stands at position `i` of `s`.
pub open spec fn closes_at(s: Seq<char>, i: int) -> bool {
    0 <= i && i + 1 < s.len() && s[i] == ']' && s[i + 1] == ']'
}

/// Position of the first closing marker `]]` in `s`.
pub open spec fn find_close(s: Seq<char>) -> Option<int>
    decreases s.len(),
{
    if s.len() < 2 {
        None
    } else if s[0] == ']' && s[1] == ']' {
        Some(0)
    } else {
        match find_close(s.skip(1)) {
            Some(i) => Some(i + 1),
            None => None,
        }
    }
}

/// Whether `s` begins with the opening marker `[[`.
pub open spec fn starts_link(s: Seq<char>) -> bool {
    s.len() >= 2 && s[0] == '[' && s[1] == '['
}

/// The wikilink written between the markers: the text up to the first `|` is
/// the target and what follows it the label; without a `|` the whole text is
/// the target and there is no label.
pub open spec fn link_of(body: Seq<char>) -> WikilinkView {
    let i = until(body, '|') as int;
    if i < body.len() {
        WikilinkView { target: body.take(i), label: Some(body.skip(i + 1)) }
    } else {
        WikilinkView { target: body, label: None }
    }
}

/// The wikilinks that are complete in `s`, in order. A link opens at the
/// first `[[` and closes at the first `]]` after it; scanning resumes behind
/// the closing marker. A link that does not close is not reported.
pub open spec fn scan_links(s: Seq<char>) -> Seq<WikilinkView>
    decreases s.len(),
{
    if s.len() == 0 {
        Seq::empty()
    } else if starts_link(s) {
        match find_close(s.skip(2)) {
            Some(j) => {
                proof {
                    lemma_find_close(s.skip(2));
                }
                seq![link_of(s.subrange(2, 2 + j))] + scan_links(s.skip(j + 4))
            },
            None => Seq::empty(),
        }
    } else {
        scan_links(s.skip(1))
    }
}

/// What of `s` is still pending once its complete wikilinks are taken out:
/// nothing, a single `[` at the very end, or an open link from its `[[` on.
pub open spec fn scan_rest(s: Seq<char>) -> Seq<char>
    decreases s.len(),
{
    if s.len() == 0 {
        s
    } else if starts_link(s) {
        match find_close(s.skip(2)) {
            Some(j) => {
                proof {
                    lemma_find_close(s.skip(2));
                }
                scan_rest(s.skip(j + 4))
            },
            None => s,
        }
    } else if s.len() == 1 && s[0] == '[' {
        s
    } else {
        scan_rest(s.skip(1))
    }
}

/// The link that one piece of text reports to a scanner that holds
/// `pending`: the first that the piece completes, if it completes any.
pub open spec fn fed_link(pending: Seq<char>, text: Seq<char>) -> Option<WikilinkView> {
    let found = scan_links(pending + text);
    if found.len() > 0 {
        Some(found[0])
    } else {
        None
    }
}

/// `find_close` gives the least position of a closing marker, and `None`
/// exactly where there is no such position.
pub proof fn lemma_find_close(s: Seq<char>)
    ensures
        match find_close(s) {
            Some(j) => closes_at(s, j) && forall|k: int| 0 <= k < j ==> !closes_at(s, k),
            None => forall|k: int| !closes_at(s, k),
        },
    decreases s.len(),
{
    if s.len() < 2 {
    } else if s[0] == ']' && s[1] == ']' {
    } else {
        let t = s.skip(1);
        lemma_find_close(t);
        assert(forall|k: int| closes_at(s, k) ==> closes_at(t, k - 1));
    }
}

/// The least position of a closing marker is what `find_close` gives.
pub proof fn lemma_find_close_is(s: Seq<char>, j: int)
    requires
        closes_at(s, j),
        forall|k: int| 0 <= k < j ==> !closes_at(s, k),
    ensures
        find_close(s) == Some(j),
{
    lemma_find_close(s);
}

/// A text without a closing marker holds no complete link: a link that is
/// opened and never closed is not reported.
pub proof fn lemma_unclosed_gives_no_link(s: Seq<char>)
    requires
        forall|k: int| !closes_at(s, k),
    ensures
        scan_links(s) == Seq::<WikilinkView>::empty(),
    decreases s.len(),
{
    if s.len() == 0 {
    } else if starts_link(s) {
        let inner = s.skip(2);
        lemma_find_close(inner);
        match find_close(inner) {
            Some(j) => {
                assert(closes_at(s, j + 2));
            },
            None => {},
        }
    } else {
        let t = s.skip(1);
        assert forall|k: int| !closes_at(t, k) by {
            if closes_at(t, k) {
                assert(closes_at(s, k + 1));
            }
        }
        lemma_unclosed_gives_no_link(t);
    }
}

/// What scanning leaves pending holds no complete link and stays pending
/// when it is scanned again.
pub proof fn lemma_rest_is_pending(s: Seq<char>)
    ensures
        scan_links(scan_rest(s)) == Seq::<WikilinkView>::empty(),
        scan_rest(scan_rest(s)) == scan_rest(s),
    decreases s.len(),
{
    if s.len() == 0 {
    } else if starts_link(s) {
        lemma_find_close(s.skip(2));
        match find_close(s.skip(2)) {
            Some(j) => {
                lemma_rest_is_pending(s.skip(j + 4));
            },
            None => {},
        }
    } else if s.len() == 1 && s[0] == '[' {
        assert(scan_links(s.skip(1)) == Seq::<WikilinkView>::empty());
    } else {
        lemma_rest_is_pending(s.skip(1));
    }
}

/// Fragmentation invariance: scanning a text in two pieces, the second
/// together with what the first left pending, reports the same links and
/// leaves the same text pending as scanning the whole at once.
pub proof fn lemma_scan_split(a: Seq<char>, b: Seq<char>)
    ensures
        scan_links(a + b) == scan_links(a) + scan_links(scan_rest(a) + b),
        scan_rest(a + b) == scan_rest(scan_rest(a) + b),
    decreases a.len(),
{
    let ab = a + b;
    if a.len() == 0 {
    } else if starts_link(a) {
        let inner = a.skip(2);
        lemma_find_close(inner);
        match find_close(inner) {
            Some(j) => {
                let wide = ab.skip(2);
                assert forall|k: int| 0 <= k < j implies !closes_at(wide, k) by {
                    assert(!closes_at(inner, k));
                }
                lemma_find_close_is(wide, j);
                let next = a.skip(j + 4);
                assert(ab.subrange(2, 2 + j) == a.subrange(2, 2 + j));
                assert(ab.skip(j + 4) == next + b);
                lemma_scan_split(next, b);
            },
            None => {},
        }
    } else if a.len() == 1 && a[0] == '[' {
        assert(scan_links(a.skip(1)) == Seq::<WikilinkView>::empty());
    } else {
        assert(ab.skip(1) == a.skip(1) + b);
        lemma_scan_split(a.skip(1), b);
    }
}

/// Fragmentation invariance for a scanner that holds `pending`: feeding a
/// text in two pieces reports the same links, and leaves the same text
/// pending, as feeding it whole.
pub proof fn lemma_feed_fragments(pending: Seq<char>, a: Seq<char>, b: Seq<char>)
    ensures
        scan_links(pending + (a + b)) == scan_links(pending + a) + scan_links(
            scan_rest(pending + a) + b,
        ),
        scan_rest(pending + (a + b)) == scan_rest(scan_rest(pending + a) + b),
{
    assert(pending + (a + b) == (pending + a) + b);
    lemma_scan_split(pending + a, b);
}

/// Where the scanner stands between two characters.
#[derive(Debug, Clone, Copy)]
enum Phase {
    /// Outside any construct.
    Idle,
    /// Directly behind a single `[`.
    Opening,
    /// Behind `[[`, collecting the text of the link.
    Inside,
}

/// The text that a scanner in the given state still holds back.
spec fn pending_of(phase: Phase, body: Seq<char>) -> Seq<char> {
    match phase {
        Phase::Idle => Seq::empty(),
        Phase::Opening => seq!['['],
        Phase::Inside => seq!['[', '['] + body,
    }
}

/// What the scanner's state has to satisfy: text is collected only inside a
/// link, and the collected text holds no closing marker.
spec fn state_ok(phase: Phase, body: Seq<char>) -> bool {
    match phase {
        Phase::Inside => find_close(body) is None,
        _ => body.len() == 0,
    }
}

/// Pending text holds no complete link and is all still pending.
proof fn lemma_pending_fixed(phase: Phase, body: Seq<char>)
    requires
        state_ok(phase, body),
    ensures
        scan_links(pending_of(phase, body)) == Seq::<WikilinkView>::empty(),
        scan_rest(pending_of(phase, body)) == pending_of(phase, body),
{
    let p = pending_of(phase, body);
    match phase {
        Phase::Idle => {},
        Phase::Opening => {
            assert(scan_links(p.skip(1)) == Seq::<WikilinkView>::empty());
        },
        Phase::Inside => {
            assert(p.skip(2) == body);
        },
    }
}

/// The state after one more character, and the link that the character
/// completed, if any.
proof fn lemma_step(phase: Phase, body: Seq<char>, c: char)
    requires
        state_ok(phase, body),
    ensures
        ({
            let s = pending_of(phase, body).push(c);
            match phase {
                Phase::Idle => scan_links(s).len() == 0 && scan_rest(s) == pending_of(
                    if c == '[' {
                        Phase::Opening
                    } else {
                        Phase::Idle
                    },
                    body,
                ),
                Phase::Opening => scan_links(s).len() == 0 && scan_rest(s) == pending_of(
                    if c == '[' {
                        Phase::Inside
                    } else {
                        Phase::Idle
                    },
                    body,
                ),
                Phase::Inside => if c == ']' && body.len() > 0 && body.last() == ']' {
                    scan_links(s) == seq![link_of(body.drop_last())] && scan_rest(s)
                        == Seq::<char>::empty()
                } else {
                    scan_links(s).len() == 0 && scan_rest(s) == pending_of(
                        Phase::Inside,
                        body.push(c),
                    ) && state_ok(Phase::Inside, body.push(c))
                },
            }
        }),
{
    let s = pending_of(phase, body).push(c);
    match phase {
        Phase::Idle => {
            assert(scan_links(s.skip(1)).len() == 0);
            assert(scan_rest(s.skip(1)) == s.skip(1));
        },
        Phase::Opening => {
            if c != '[' {
                let t = s.skip(1);
                assert(scan_links(t) == scan_links(t.skip(1)));
                assert(scan_rest(t) == scan_rest(t.skip(1)));
            }
        },
        Phase::Inside => {
            let wide = body.push(c);
            assert(s.skip(2) == wide);
            lemma_find_close(body);
            if c == ']' && body.len() > 0 && body.last() == ']' {
                let j = body.len() - 1;
                assert forall|k: int| 0 <= k < j implies !closes_at(wide, k) by {
                    assert(!closes_at(body, k));
                }
                lemma_find_close_is(wide, j);
                assert(s.subrange(2, 2 + j) == body.drop_last());
                let tail = s.skip(j + 4);
                assert(scan_links(tail) == Seq::<WikilinkView>::empty());
                assert(scan_rest(tail) == tail);
            } else {
                lemma_find_close(wide);
                assert forall|k: int| !closes_at(wide, k) by {
                    if closes_at(wide, k) {
                        if k + 1 < body.len() {
                            assert(closes_at(body, k));
                        }
                    }
                }
            }
        },
    }
}

/// A recogniser of wikilinks that is fed a text piece by piece and keeps,
/// between two pieces, what may still become a link.
#[derive(Debug)]
pub struct WikilinkParser {
    phase: Phase,
    body: Vec<char>,
}

impl View for WikilinkParser {
    type V = Seq<char>;

    /// The text that the scanner holds back: read so far, not yet part of a
    /// reported link, and still able to become part of one.
    closed spec fn view(&self) -> Seq<char> {
        pending_of(self.phase, self.body@)
    }
}

impl WikilinkParser {
    #[verifier::type_invariant]
    spec fn well_formed(&self) -> bool {
        state_ok(self.phase, self.body@)
    }

    /// A scanner that has read nothing.
    pub fn new() -> (parser: WikilinkParser)
        ensures
            parser@ == Seq::<char>::empty(),
    {
        WikilinkParser { phase: Phase::Idle, body: Vec::new() }
    }

    /// Builds the link whose text is the first `n` collected characters.
    fn link_from(body: &Vec<char>, n: usize) -> (link: Wikilink)
        requires
            n <= body.len(),
        ensures
            link@ == link_of(body@.take(n as int)),
    {
        let bar = find_char(body, 0, n, '|');
        if bar < n {
            let target = string_of(body, 0, bar);
            let label = string_of(body, bar + 1, n);
            proof {
                assert(body@.take(n as int).take(bar as int) == body@.subrange(0, bar as int));
                assert(body@.take(n as int).skip(bar + 1) == body@.subrange(bar + 1, n as int));
            }
            Wikilink { target, label: Some(label) }
        } else {
            let target = string_of(body, 0, n);
            Wikilink { target, label: None }
        }
    }

    /// Reads the next piece of text and returns every link that it
    /// completes, in order. What the piece leaves open stays pending for the
    /// next call.
    pub fn feed_all(&mut self, text: &str) -> (links: Vec<Wikilink>)
        ensures
            links.deep_view() == scan_links(old(self)@ + text@),
            final(self)@ == scan_rest(old(self)@ + text@),
    {
        proof {
            use_type_invariant(&*self);
        }
        let v = chars_of(text);
        let n = v.len();
        let ghost start = self@;
        let mut phase = self.phase;
        let mut body: Vec<char> = Vec::new();
        core::mem::swap(&mut self.body, &mut body);
        let mut links: Vec<Wikilink> = Vec::new();
        let mut i: usize = 0;
        proof {
            lemma_pending_fixed(phase, body@);
        }
        while i < n
            invariant
                i <= n,
                n == v.len(),
                state_ok(phase, body@),
                links.deep_view() == scan_links(start + v@.take(i as int)),
                pending_of(phase, body@) == scan_rest(start + v@.take(i as int)),
            decreases n - i,
        {
            let c = v[i];
            let ghost seen = start + v@.take(i as int);
            proof {
                assert(start + v@.take(i + 1) == seen + seq![c]);
                lemma_scan_split(seen, seq![c]);
                assert(pending_of(phase, body@) + seq![c] == pending_of(phase, body@).push(c));
                lemma_step(phase, body@, c);
            }
            match phase {
                Phase::Idle => {
                    if c == '[' {
                        phase = Phase::Opening;
                    }
                },
                Phase::Opening => {
                    if c == '[' {
                        phase = Phase::Inside;
                    } else {
                        phase = Phase::Idle;
                    }
                },
                Phase::Inside => {
                    let len = body.len();
                    if c == ']' && len > 0 && body[len - 1] == ']' {
                        let link = Self::link_from(&body, len - 1);
                        links.push(link);
                        body.clear();
                        phase = Phase::Idle;
                    } else {
                        body.push(c);
                    }
                },
            }
            i += 1;
        }
        proof {
            assert(v@.take(n as int) == v@);
        }
        *self = WikilinkParser { phase, body };
        links
    }

    /// Reads the next piece of text and returns the link that it completes,
    /// if any. What the piece leaves open stays pending for the next call.
    ///
    /// Where one piece completes several links, the first is returned and
    /// the others are passed over; `feed_all` returns them all.
    pub fn feed(&mut self, text: &str) -> (link: Option<Wikilink>)
        ensures
            final(self)@ == scan_rest(old(self)@ + text@),
            match fed_link(old(self)@, text@) {
                Some(l) => link matches Some(x) && x@ == l,
                None => link is None,
            },
    {
        let mut links = self.feed_all(text);
        if links.len() > 0 {
            Some(links.swap_remove(0))
        } else {
            None
        }
    }
}

} // verus!
