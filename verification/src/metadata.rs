//! Metadata of a note: typed values under string keys, and the header block
//! at the start of a document that declares them.

use vstd::prelude::*;
use vstd::set_lib::lemma_subset_equality;
use vstd::std_specs::cmp::PartialEqSpecImpl;
use crate::text::{
    chars_of, find_char, lemma_leading_spaces_bound, lemma_trailing_spaces_bound,
    lemma_until_bound, leading_spaces, skip_spaces_back, string_of, trailing_spaces, trim,
    trim_end, trim_range, trim_start, until,
};

verus! {

/// A value that a header declares.
#[derive(Debug, Clone)]
pub enum MetadataValue {
    String(String),
    Boolean(bool),
    Number(i64),
    List(Vec<String>),
}

/// What a metadata value holds, with strings as sequences of characters.
pub ghost enum MetadataValueView {
    String(Seq<char>),
    Boolean(bool),
    Number(int),
    List(Seq<Seq<char>>),
}

impl View for MetadataValue {
    type V = MetadataValueView;

    open spec fn view(&self) -> MetadataValueView {
        match self {
            MetadataValue::String(s) => MetadataValueView::String(s@),
            MetadataValue::Boolean(b) => MetadataValueView::Boolean(*b),
            MetadataValue::Number(n) => MetadataValueView::Number(*n as int),
            MetadataValue::List(items) => MetadataValueView::List(items.deep_view()),
        }
    }
}

/// Whether two vectors hold the same strings in the same order.
fn same_strings(a: &Vec<String>, b: &Vec<String>) -> (r: bool)
    ensures
        r == (a.deep_view() == b.deep_view()),
{
    if a.len() != b.len() {
        proof {
            assert(a.deep_view().len() != b.deep_view().len());
        }
        return false;
    }
    let n = a.len();
    let mut i: usize = 0;
    while i < n
        invariant
            i <= n,
            n == a.len(),
            n == b.len(),
            forall|k: int| 0 <= k < i ==> a[k]@ == b[k]@,
        decreases n - i,
    {
        if a[i] != b[i] {
            proof {
                assert(a.deep_view()[i as int] != b.deep_view()[i as int]);
            }
            return false;
        }
        i += 1;
    }
    proof {
        assert(a.deep_view() =~= b.deep_view());
    }
    true
}

impl PartialEq for MetadataValue {
    /// Two values are equal where they are of the same kind and hold the
    /// same.
    fn eq(&self, other: &MetadataValue) -> (r: bool) {
        match (self, other) {
            (MetadataValue::String(a), MetadataValue::String(b)) => *a == *b,
            (MetadataValue::Boolean(a), MetadataValue::Boolean(b)) => *a == *b,
            (MetadataValue::Number(a), MetadataValue::Number(b)) => *a == *b,
            (MetadataValue::List(a), MetadataValue::List(b)) => same_strings(a, b),
            _ => false,
        }
    }
}

impl PartialEqSpecImpl for MetadataValue {
    open spec fn obeys_eq_spec() -> bool {
        true
    }

    open spec fn eq_spec(&self, other: &MetadataValue) -> bool {
        self@ == other@
    }
}

/// Why a header could not be read.
#[derive(Debug, Clone, Copy, PartialEq, Eq)]
pub enum MetadataError {
    /// A line of the header is no `key: value` entry.
    MalformedEntry,
    /// The value of an entry has none of the supported forms.
    UnsupportedValue,
}

impl MetadataError {
    /// A short description of the error.
    pub fn message(&self) -> (text: &'static str)
        ensures
            text@ == match self {
                MetadataError::MalformedEntry => "malformed frontmatter entry"@,
                MetadataError::UnsupportedValue => "unsupported frontmatter value"@,
            },
    {
        match self {
            MetadataError::MalformedEntry => "malformed frontmatter entry",
            MetadataError::UnsupportedValue => "unsupported frontmatter value",
        }
    }
}

/// The characters that open and close a quoted scalar.
pub open spec fn is_quote(c: char) -> bool {
    c == '"' || c == '\''
}

/// The string that a scalar literal stands for. A quoted scalar stands for
/// the text between its quotes, which may not hold the quote itself; a plain
/// scalar stands for itself, and may not be empty nor begin like a list or a
/// mapping.
pub open spec fn scalar_of(s: Seq<char>) -> Option<Seq<char>> {
    if s.len() == 0 {
        None
    } else if is_quote(s[0]) {
        let inner = s.subrange(1, s.len() - 1);
        if s.len() >= 2 && s.last() == s[0] && until(inner, s[0]) == inner.len() {
            Some(inner)
        } else {
            None
        }
    } else if s[0] == '[' || s[0] == '{' {
        None
    } else {
        Some(s)
    }
}

/// The items of a list, written as scalars between commas.
pub open spec fn items_of(s: Seq<char>) -> Option<Seq<Seq<char>>>
    decreases s.len(),
{
    let n = until(s, ',') as int;
    match scalar_of(trim(s.take(n))) {
        None => None,
        Some(item) => if n >= s.len() {
            Some(seq![item])
        } else {
            match items_of(s.skip(n + 1)) {
                None => None,
                Some(rest) => Some(seq![item] + rest),
            }
        },
    }
}

/// The strings of a flow-style list `[a, b, c]`; `[]` is the empty list.
pub open spec fn list_of(s: Seq<char>) -> Option<Seq<Seq<char>>> {
    if s.len() >= 2 && s[0] == '[' && s.last() == ']' {
        let inner = s.subrange(1, s.len() - 1);
        if trim(inner).len() == 0 {
            Some(Seq::empty())
        } else {
            items_of(inner)
        }
    } else {
        None
    }
}

/// Whether `c` is a decimal digit.
pub open spec fn is_digit(c: char) -> bool {
    '0' <= c <= '9'
}

/// Whether `s` is a non-empty run of decimal digits.
pub open spec fn all_digits(s: Seq<char>) -> bool {
    s.len() > 0 && forall|i: int| 0 <= i < s.len() ==> is_digit(#[trigger] s[i])
}

/// The number that a run of decimal digits denotes.
pub open spec fn digits_value(s: Seq<char>) -> nat
    decreases s.len(),
{
    if s.len() == 0 {
        0
    } else {
        digits_value(s.drop_last()) * 10 + (s.last() as nat - '0' as nat) as nat
    }
}

/// The integer that a literal denotes: decimal digits, with `-` in front
/// for a negative number.
pub open spec fn integer_of(s: Seq<char>) -> Option<int> {
    if s.len() > 0 && s[0] == '-' {
        if all_digits(s.skip(1)) {
            Some(-(digits_value(s.skip(1)) as int))
        } else {
            None
        }
    } else if all_digits(s) {
        Some(digits_value(s) as int)
    } else {
        None
    }
}

/// The value that a literal stands for: `true` and `false` are booleans, an
/// integer literal that fits 64 bits is a number, a literal that begins with
/// `[` is a list of strings, and any other scalar is a string.
pub open spec fn value_of(s: Seq<char>) -> Option<MetadataValueView> {
    if s == seq!['t', 'r', 'u', 'e'] {
        Some(MetadataValueView::Boolean(true))
    } else if s == seq!['f', 'a', 'l', 's', 'e'] {
        Some(MetadataValueView::Boolean(false))
    } else if s.len() > 0 && s[0] == '[' {
        match list_of(s) {
            Some(items) => Some(MetadataValueView::List(items)),
            None => None,
        }
    } else {
        match integer_of(s) {
            Some(n) if i64::MIN <= n <= i64::MAX => Some(MetadataValueView::Number(n)),
            _ => match scalar_of(s) {
                Some(t) => Some(MetadataValueView::String(t)),
                None => None,
            },
        }
    }
}

/// The key and the value of a header line `key: value`. The key is what
/// stands before the first colon, without surrounding whitespace, and may
/// not be empty.
pub open spec fn entry_of(line: Seq<char>) -> Result<
    (Seq<char>, MetadataValueView),
    MetadataError,
> {
    let colon = until(line, ':') as int;
    let key = trim(line.take(colon));
    if colon >= line.len() || key.len() == 0 {
        Err(MetadataError::MalformedEntry)
    } else {
        match value_of(trim(line.skip(colon + 1))) {
            Some(value) => Ok((key, value)),
            None => Err(MetadataError::UnsupportedValue),
        }
    }
}

/// A prefix of digits denotes no more than the whole run.
proof fn lemma_digits_prefix(s: Seq<char>, k: int)
    requires
        0 <= k <= s.len(),
    ensures
        digits_value(s.take(k)) <= digits_value(s),
    decreases s.len() - k,
{
    if k == s.len() {
        assert(s.take(k) == s);
    } else {
        lemma_digits_prefix(s.drop_last(), k);
        assert(s.drop_last().take(k) == s.take(k));
    }
}

/// Reads a scalar literal.
fn parse_scalar(v: &Vec<char>, lo: usize, hi: usize) -> (r: Option<String>)
    requires
        lo <= hi <= v.len(),
    ensures
        match scalar_of(v@.subrange(lo as int, hi as int)) {
            Some(t) => r matches Some(s) && s@ == t,
            None => r is None,
        },
{
    if lo == hi {
        return None;
    }
    let c = v[lo];
    let ghost s = v@.subrange(lo as int, hi as int);
    if c == '"' || c == '\'' {
        if hi - lo >= 2 && v[hi - 1] == c {
            let close = find_char(v, lo + 1, hi - 1, c);
            proof {
                assert(s.subrange(1, s.len() - 1) == v@.subrange(lo + 1, hi - 1));
            }
            if close == hi - 1 {
                Some(string_of(v, lo + 1, hi - 1))
            } else {
                None
            }
        } else {
            None
        }
    } else if c == '[' || c == '{' {
        None
    } else {
        Some(string_of(v, lo, hi))
    }
}

/// The items read so far followed by those still to be read.
spec fn items_after(done: Seq<Seq<char>>, rest: Option<Seq<Seq<char>>>) -> Option<
    Seq<Seq<char>>,
> {
    match rest {
        Some(more) => Some(done + more),
        None => None,
    }
}

/// Reads the items of a list.
fn parse_items(v: &Vec<char>, lo: usize, hi: usize) -> (r: Option<Vec<String>>)
    requires
        lo <= hi <= v.len(),
    ensures
        match items_of(v@.subrange(lo as int, hi as int)) {
            Some(t) => r matches Some(items) && items.deep_view() == t,
            None => r is None,
        },
{
    let mut items: Vec<String> = Vec::new();
    let mut pos: usize = lo;
    let ghost whole = items_of(v@.subrange(lo as int, hi as int));
    loop
        invariant
            lo <= pos <= hi <= v.len(),
            whole == items_of(v@.subrange(lo as int, hi as int)),
            whole == items_after(items.deep_view(), items_of(v@.subrange(pos as int, hi as int))),
        decreases hi - pos,
    {
        let ghost s = v@.subrange(pos as int, hi as int);
        let comma = find_char(v, pos, hi, ',');
        let (a, b) = trim_range(v, pos, comma);
        proof {
            assert(s.take(comma - pos) == v@.subrange(pos as int, comma as int));
        }
        match parse_scalar(v, a, b) {
            None => {
                return None;
            },
            Some(item) => {
                items.push(item);
            },
        }
        if comma >= hi {
            return Some(items);
        }
        proof {
            assert(s.skip(comma - pos + 1) == v@.subrange(comma + 1, hi as int));
        }
        pos = comma + 1;
    }
}

/// Reads a flow-style list.
fn parse_list(v: &Vec<char>, lo: usize, hi: usize) -> (r: Option<Vec<String>>)
    requires
        lo < hi <= v.len(),
        v[lo as int] == '[',
    ensures
        match list_of(v@.subrange(lo as int, hi as int)) {
            Some(t) => r matches Some(items) && items.deep_view() == t,
            None => r is None,
        },
{
    let ghost s = v@.subrange(lo as int, hi as int);
    if hi - lo >= 2 && v[hi - 1] == ']' {
        proof {
            assert(s.subrange(1, s.len() - 1) == v@.subrange(lo + 1, hi - 1));
        }
        let (a, b) = trim_range(v, lo + 1, hi - 1);
        if a == b {
            Some(Vec::new())
        } else {
            parse_items(v, lo + 1, hi - 1)
        }
    } else {
        None
    }
}

/// Reads a run of decimal digits that denotes at most 2^63.
fn parse_digits(v: &Vec<char>, lo: usize, hi: usize) -> (r: Option<u64>)
    requires
        lo <= hi <= v.len(),
    ensures
        ({
            let digits = v@.subrange(lo as int, hi as int);
            if all_digits(digits) && digits_value(digits) <= 0x8000_0000_0000_0000 {
                r == Some(digits_value(digits) as u64)
            } else {
                r is None
            }
        }),
{
    if lo == hi {
        return None;
    }
    let ghost digits = v@.subrange(lo as int, hi as int);
    let limit: u128 = 0x8000_0000_0000_0000;
    let mut acc: u128 = 0;
    let mut i: usize = lo;
    while i < hi
        invariant
            lo <= i <= hi <= v.len(),
            digits == v@.subrange(lo as int, hi as int),
            limit == 0x8000_0000_0000_0000,
            acc <= limit,
            acc == digits_value(digits.take(i - lo)),
            forall|k: int| 0 <= k < i - lo ==> is_digit(#[trigger] digits[k]),
        decreases hi - i,
    {
        let c = v[i];
        if !('0' <= c && c <= '9') {
            proof {
                assert(!is_digit(digits[i - lo]));
            }
            return None;
        }
        let d: u128 = (c as u32 - '0' as u32) as u128;
        proof {
            let next = digits.take(i - lo + 1);
            assert(next.drop_last() == digits.take(i - lo));
        }
        acc = acc * 10 + d;
        i += 1;
        if acc > limit {
            proof {
                lemma_digits_prefix(digits, i - lo);
            }
            return None;
        }
    }
    proof {
        assert(digits.take(hi - lo) == digits);
    }
    Some(acc as u64)
}

/// Reads an integer literal that fits 64 bits.
fn parse_integer(v: &Vec<char>, lo: usize, hi: usize) -> (r: Option<i64>)
    requires
        lo <= hi <= v.len(),
    ensures
        match integer_of(v@.subrange(lo as int, hi as int)) {
            Some(n) if i64::MIN <= n <= i64::MAX => r == Some(n as i64),
            _ => r is None,
        },
{
    let ghost s = v@.subrange(lo as int, hi as int);
    let limit: u64 = 0x8000_0000_0000_0000;
    if lo < hi && v[lo] == '-' {
        proof {
            assert(s.skip(1) == v@.subrange(lo + 1, hi as int));
        }
        match parse_digits(v, lo + 1, hi) {
            Some(n) => if n == limit {
                Some(i64::MIN)
            } else {
                Some(-(n as i64))
            },
            None => None,
        }
    } else {
        match parse_digits(v, lo, hi) {
            Some(n) => if n < limit {
                Some(n as i64)
            } else {
                None
            },
            None => None,
        }
    }
}

/// Reads the value of an entry.
fn parse_value(v: &Vec<char>, lo: usize, hi: usize) -> (r: Option<MetadataValue>)
    requires
        lo <= hi <= v.len(),
    ensures
        match value_of(v@.subrange(lo as int, hi as int)) {
            Some(t) => r matches Some(value) && value@ == t,
            None => r is None,
        },
{
    let ghost s = v@.subrange(lo as int, hi as int);
    let n = hi - lo;
    if n == 4 && v[lo] == 't' && v[lo + 1] == 'r' && v[lo + 2] == 'u' && v[lo + 3] == 'e' {
        proof {
            assert(s == seq!['t', 'r', 'u', 'e']);
        }
        return Some(MetadataValue::Boolean(true));
    }
    if n == 5 && v[lo] == 'f' && v[lo + 1] == 'a' && v[lo + 2] == 'l' && v[lo + 3] == 's' && v[lo
        + 4] == 'e' {
        proof {
            assert(s == seq!['f', 'a', 'l', 's', 'e']);
        }
        return Some(MetadataValue::Boolean(false));
    }
    if n > 0 && v[lo] == '[' {
        return match parse_list(v, lo, hi) {
            Some(items) => Some(MetadataValue::List(items)),
            None => None,
        };
    }
    match parse_integer(v, lo, hi) {
        Some(number) => Some(MetadataValue::Number(number)),
        None => match parse_scalar(v, lo, hi) {
            Some(text) => Some(MetadataValue::String(text)),
            None => None,
        },
    }
}

/// Reads one `key: value` line of a header.
fn parse_entry(v: &Vec<char>, lo: usize, hi: usize) -> (r: Result<
    (String, MetadataValue),
    MetadataError,
>)
    requires
        lo <= hi <= v.len(),
    ensures
        match entry_of(v@.subrange(lo as int, hi as int)) {
            Ok((key, value)) => r matches Ok((k, x)) && k@ == key && x@ == value,
            Err(e) => r == Err::<(String, MetadataValue), MetadataError>(e),
        },
{
    let ghost line = v@.subrange(lo as int, hi as int);
    let colon = find_char(v, lo, hi, ':');
    if colon >= hi {
        return Err(MetadataError::MalformedEntry);
    }
    let (a, b) = trim_range(v, lo, colon);
    proof {
        assert(line.take(colon - lo) == v@.subrange(lo as int, colon as int));
        assert(line.skip(colon - lo + 1) == v@.subrange(colon + 1, hi as int));
    }
    if a == b {
        return Err(MetadataError::MalformedEntry);
    }
    let (c, d) = trim_range(v, colon + 1, hi);
    match parse_value(v, c, d) {
        Some(value) => Ok((string_of(v, a, b), value)),
        None => Err(MetadataError::UnsupportedValue),
    }
}

/// One key of a header with its value.
#[derive(Debug)]
struct MetadataEntry {
    key: String,
    value: MetadataValue,
}

/// The map that a sequence of entries stands for; a later entry replaces an
/// earlier one with the same key.
spec fn entries_map(es: Seq<MetadataEntry>) -> Map<Seq<char>, MetadataValueView>
    decreases es.len(),
{
    if es.len() == 0 {
        Map::empty()
    } else {
        entries_map(es.drop_last()).insert(es.last().key@, es.last().value@)
    }
}

/// No key occurs twice.
spec fn distinct_keys(es: Seq<MetadataEntry>) -> bool {
    forall|i: int, j: int| 0 <= i < j < es.len() ==> es[i].key@ != es[j].key@
}

/// With distinct keys, the map holds exactly the entries.
proof fn lemma_entries_map(es: Seq<MetadataEntry>)
    requires
        distinct_keys(es),
    ensures
        forall|i: int|
            0 <= i < es.len() ==> entries_map(es).contains_key(#[trigger] es[i].key@)
                && entries_map(es)[es[i].key@] == es[i].value@,
        forall|k: Seq<char>| #[trigger]
            entries_map(es).contains_key(k) ==> exists|i: int|
                0 <= i < es.len() && es[i].key@ == k,
        entries_map(es).dom().finite(),
        entries_map(es).len() == es.len(),
    decreases es.len(),
{
    if es.len() > 0 {
        let front = es.drop_last();
        let last = es.last();
        assert(distinct_keys(front)) by {
            assert forall|i: int, j: int| 0 <= i < j < front.len() implies front[i].key@
                != front[j].key@ by {
                assert(front[i] == es[i] && front[j] == es[j]);
            }
        }
        lemma_entries_map(front);
        assert forall|i: int| 0 <= i < es.len() implies entries_map(es).contains_key(
            #[trigger] es[i].key@,
        ) && entries_map(es)[es[i].key@] == es[i].value@ by {
            if i < es.len() - 1 {
                assert(front[i] == es[i]);
                assert(front[i].key@ != last.key@);
            }
        }
        assert forall|k: Seq<char>| #[trigger] entries_map(es).contains_key(k) implies exists|
            i: int,
        |
            0 <= i < es.len() && es[i].key@ == k by {
            if k == last.key@ {
                assert(es[es.len() - 1].key@ == k);
            } else {
                assert(entries_map(front).contains_key(k));
                let i = choose|i: int| 0 <= i < front.len() && front[i].key@ == k;
                assert(es[i] == front[i]);
            }
        }
        assert(!entries_map(front).contains_key(last.key@)) by {
            if entries_map(front).contains_key(last.key@) {
                let i = choose|i: int| 0 <= i < front.len() && front[i].key@ == last.key@;
                assert(es[i] == front[i]);
            }
        }
    }
}

/// Replacing the value of a key that is present changes the map at that key
/// only.
proof fn lemma_entries_map_update(es: Seq<MetadataEntry>, i: int, e: MetadataEntry)
    requires
        distinct_keys(es),
        0 <= i < es.len(),
        es[i].key@ == e.key@,
    ensures
        distinct_keys(es.update(i, e)),
        entries_map(es.update(i, e)) == entries_map(es).insert(e.key@, e.value@),
    decreases es.len(),
{
    let us = es.update(i, e);
    assert(distinct_keys(us)) by {
        assert forall|a: int, b: int| 0 <= a < b < us.len() implies us[a].key@ != us[b].key@ by {
            assert(us[a].key@ == es[a].key@);
            assert(us[b].key@ == es[b].key@);
        }
    }
    let front = es.drop_last();
    if i == es.len() - 1 {
        assert(us.drop_last() == front);
        assert(entries_map(front).insert(es.last().key@, es.last().value@).insert(
            e.key@,
            e.value@,
        ) == entries_map(front).insert(e.key@, e.value@));
    } else {
        assert(distinct_keys(front)) by {
            assert forall|a: int, b: int| 0 <= a < b < front.len() implies front[a].key@
                != front[b].key@ by {
                assert(front[a] == es[a] && front[b] == es[b]);
            }
        }
        assert(front[i] == es[i]);
        lemma_entries_map_update(front, i, e);
        assert(us.drop_last() == front.update(i, e));
        assert(us.last() == es.last());
        assert(es.last().key@ != e.key@);
        assert(entries_map(front).insert(e.key@, e.value@).insert(
            es.last().key@,
            es.last().value@,
        ) == entries_map(front).insert(es.last().key@, es.last().value@).insert(
            e.key@,
            e.value@,
        ));
    }
}

/// The metadata of a note: a map from keys to values, in which the order of
/// insertion does not matter. It is kept as a list of entries in which no
/// key occurs twice; a header has few of them.
#[derive(Debug)]
pub struct Metadata {
    entries: Vec<MetadataEntry>,
}

impl View for Metadata {
    type V = Map<Seq<char>, MetadataValueView>;

    closed spec fn view(&self) -> Map<Seq<char>, MetadataValueView> {
        entries_map(self.entries@)
    }
}

impl Metadata {
    #[verifier::type_invariant]
    spec fn well_formed(&self) -> bool {
        distinct_keys(self.entries@)
    }

    /// Metadata without any entry.
    pub fn new() -> (metadata: Metadata)
        ensures
            metadata@ == Map::<Seq<char>, MetadataValueView>::empty(),
    {
        Metadata { entries: Vec::new() }
    }

    /// Number of keys.
    pub fn len(&self) -> (n: usize)
        ensures
            self@.dom().finite(),
            n == self@.len(),
    {
        proof {
            use_type_invariant(self);
            lemma_entries_map(self.entries@);
        }
        self.entries.len()
    }

    /// The keys, each once, in no particular order.
    pub fn keys(&self) -> (keys: Vec<String>)
        ensures
            keys.deep_view().no_duplicates(),
            forall|key: Seq<char>| keys.deep_view().contains(key) <==> self@.contains_key(key),
    {
        proof {
            use_type_invariant(self);
            lemma_entries_map(self.entries@);
        }
        let n = self.entries.len();
        let mut keys: Vec<String> = Vec::new();
        let mut i: usize = 0;
        while i < n
            invariant
                i <= n,
                n == self.entries.len(),
                keys.len() == i,
                forall|k: int| 0 <= k < i ==> keys[k]@ == self.entries[k].key@,
            decreases n - i,
        {
            keys.push(self.entries[i].key.clone());
            i += 1;
        }
        proof {
            let views = keys.deep_view();
            assert forall|a: int, b: int| 0 <= a < views.len() && 0 <= b < views.len() && a
                != b implies views[a] != views[b] by {
                assert(views[a] == self.entries[a].key@);
                assert(views[b] == self.entries[b].key@);
            }
            assert forall|key: Seq<char>| views.contains(key) <==> self@.contains_key(key) by {
                if views.contains(key) {
                    let k = choose|k: int| 0 <= k < views.len() && views[k] == key;
                    assert(self.entries[k].key@ == key);
                }
                if self@.contains_key(key) {
                    let k = choose|k: int| 0 <= k < self.entries.len() && self.entries[k].key@
                        == key;
                    assert(views[k] == key);
                }
            }
        }
        keys
    }

    /// Position of `key` among the entries, or their number where it is
    /// absent.
    fn position(&self, key: &String) -> (i: usize)
        ensures
            i <= self.entries.len(),
            i < self.entries.len() ==> self.entries[i as int].key@ == key@,
            forall|k: int| 0 <= k < i ==> self.entries[k].key@ != key@,
    {
        let n = self.entries.len();
        let mut i: usize = 0;
        while i < n && self.entries[i].key != *key
            invariant
                i <= n,
                n == self.entries.len(),
                forall|k: int| 0 <= k < i ==> self.entries[k].key@ != key@,
            decreases n - i,
        {
            i += 1;
        }
        i
    }

    /// Sets the value of `key`, replacing the one it had.
    pub fn insert(&mut self, key: String, value: MetadataValue)
        ensures
            final(self)@ == old(self)@.insert(key@, value@),
    {
        proof {
            use_type_invariant(&*self);
        }
        let i = self.position(&key);
        let mut entries: Vec<MetadataEntry> = Vec::new();
        core::mem::swap(&mut self.entries, &mut entries);
        let entry = MetadataEntry { key, value };
        if i < entries.len() {
            proof {
                lemma_entries_map_update(entries@, i as int, entry);
            }
            entries.set(i, entry);
        } else {
            proof {
                let es = entries@;
                let grown = es.push(entry);
                assert(grown.drop_last() == es);
            }
            entries.push(entry);
        }
        *self = Metadata { entries };
    }

    /// The value of `key`, if the metadata has one.
    pub fn get(&self, key: &str) -> (value: Option<&MetadataValue>)
        ensures
            match value {
                Some(v) => self@.contains_key(key@) && self@[key@] == v@,
                None => !self@.contains_key(key@),
            },
    {
        proof {
            use_type_invariant(self);
            lemma_entries_map(self.entries@);
        }
        let wanted = key.to_owned();
        let i = self.position(&wanted);
        if i < self.entries.len() {
            Some(&self.entries[i].value)
        } else {
            None
        }
    }
}

impl PartialEq for Metadata {
    /// Two sets of metadata are equal where they hold the same values under
    /// the same keys, in whatever order these were inserted.
    #[verifier::loop_isolation(false)]
    fn eq(&self, other: &Metadata) -> (r: bool) {
        proof {
            use_type_invariant(self);
            use_type_invariant(other);
            lemma_entries_map(self.entries@);
            lemma_entries_map(other.entries@);
        }
        let n = self.entries.len();
        if n != other.entries.len() {
            return false;
        }
        let mut i: usize = 0;
        while i < n
            invariant
                i <= n,
                forall|k: int|
                    0 <= k < i ==> other@.contains_key(#[trigger] self.entries[k].key@)
                        && other@[self.entries[k].key@] == self.entries[k].value@,
            decreases n - i,
        {
            let entry = &self.entries[i];
            let j = other.position(&entry.key);
            proof {
                assert(self@.contains_key(self.entries[i as int].key@));
            }
            if j >= n {
                proof {
                    if other@.contains_key(entry.key@) {
                        let k = choose|k: int|
                            0 <= k < other.entries.len() && other.entries[k].key@ == entry.key@;
                        assert(other.entries[k].key@ != entry.key@);
                    }
                }
                return false;
            }
            proof {
                assert(other@[other.entries[j as int].key@] == other.entries[j as int].value@);
            }
            if other.entries[j].value != entry.value {
                return false;
            }
            i += 1;
        }
        proof {
            assert forall|key: Seq<char>| self@.contains_key(key) implies other@.contains_key(
                key,
            ) && other@[key] == self@[key] by {
                let k = choose|k: int| 0 <= k < self.entries.len() && self.entries[k].key@ == key;
                assert(other@.contains_key(self.entries[k].key@));
            }
            assert(self@.dom().subset_of(other@.dom()));
            lemma_subset_equality(self@.dom(), other@.dom());
            assert(self@ =~= other@);
        }
        true
    }
}

impl PartialEqSpecImpl for Metadata {
    open spec fn obeys_eq_spec() -> bool {
        true
    }

    open spec fn eq_spec(&self, other: &Metadata) -> bool {
        self@ == other@
    }
}

/// The tags that the metadata declares: the strings of the list under the
/// key `tags`, and none where the key is absent or holds no list.
pub open spec fn tags_of(entries: Map<Seq<char>, MetadataValueView>) -> Seq<Seq<char>> {
    if entries.contains_key("tags"@) {
        match entries["tags"@] {
            MetadataValueView::List(items) => items,
            _ => Seq::empty(),
        }
    } else {
        Seq::empty()
    }
}

/// Copies a vector of strings.
fn copy_strings(items: &Vec<String>) -> (copy: Vec<String>)
    ensures
        copy.deep_view() == items.deep_view(),
{
    let mut copy: Vec<String> = Vec::new();
    let mut i: usize = 0;
    while i < items.len()
        invariant
            i <= items.len(),
            copy.len() == i,
            forall|k: int| 0 <= k < i ==> copy[k]@ == items[k]@,
        decreases items.len() - i,
    {
        copy.push(items[i].clone());
        i += 1;
    }
    copy
}

impl Metadata {
    /// The tags declared under the key `tags`, in the order of the list.
    pub fn tags(&self) -> (tags: Vec<String>)
        ensures
            tags.deep_view() == tags_of(self@),
    {
        match self.get("tags") {
            Some(MetadataValue::List(items)) => copy_strings(items),
            _ => Vec::new(),
        }
    }
}

/// The first line of `s`, without its line break.
pub open spec fn first_line(s: Seq<char>) -> Seq<char> {
    s.take(until(s, '\n') as int)
}

/// What follows the first line of `s` and its line break.
pub open spec fn after_line(s: Seq<char>) -> Seq<char> {
    if until(s, '\n') < s.len() {
        s.skip(until(s, '\n') as int + 1)
    } else {
        Seq::empty()
    }
}

/// Whether a line delimits the header: three dashes, with nothing but
/// whitespace behind them.
pub open spec fn is_delimiter(line: Seq<char>) -> bool {
    trim_end(line) == seq!['-', '-', '-']
}

/// Whether a header line declares nothing: a blank line or a comment.
pub open spec fn is_ignored(line: Seq<char>) -> bool {
    trim(line).len() == 0 || trim(line)[0] == '#'
}

/// Where the first delimiter line of `t` begins.
pub open spec fn close_of(t: Seq<char>) -> Option<int>
    decreases t.len(),
{
    if is_delimiter(first_line(t)) {
        Some(0)
    } else if until(t, '\n') >= t.len() {
        None
    } else {
        match close_of(after_line(t)) {
            Some(k) => Some(until(t, '\n') + 1 + k),
            None => None,
        }
    }
}

/// The entries that the lines of a header add to `acc`, line by line. The
/// first line that cannot be read decides the error.
pub open spec fn entries_of(region: Seq<char>, acc: Map<Seq<char>, MetadataValueView>) -> Result<
    Map<Seq<char>, MetadataValueView>,
    MetadataError,
>
    decreases region.len(),
{
    if region.len() == 0 {
        Ok(acc)
    } else if is_ignored(first_line(region)) {
        entries_of(after_line(region), acc)
    } else {
        match entry_of(first_line(region)) {
            Ok((key, value)) => entries_of(after_line(region), acc.insert(key, value)),
            Err(e) => Err(e),
        }
    }
}

/// Whether a document begins with a header block: its first line is a
/// delimiter, and a later line closes the block.
pub open spec fn has_header(doc: Seq<char>) -> bool {
    is_delimiter(first_line(doc)) && until(doc, '\n') < doc.len() && close_of(
        after_line(doc),
    ) is Some
}

/// The metadata and the body of a document. Without a header block the
/// metadata is empty and the body is the document. With one, the metadata is
/// read from the lines between the delimiters, and the body is what follows
/// the closing delimiter line, without surrounding whitespace.
pub open spec fn frontmatter(doc: Seq<char>) -> Result<
    (Map<Seq<char>, MetadataValueView>, Seq<char>),
    MetadataError,
> {
    if has_header(doc) {
        let t = after_line(doc);
        let k = close_of(t)->0;
        match entries_of(t.take(k), Map::empty()) {
            Ok(entries) => Ok((entries, trim(after_line(t.skip(k))))),
            Err(e) => Err(e),
        }
    } else {
        Ok((Map::empty(), doc))
    }
}

/// A text whose first line is a delimiter, and which closes at `k` behind
/// that line, has a header block; its metadata are what the lines up to `k`
/// declare, and its body is what follows the closing line.
pub proof fn lemma_frontmatter_of_parts(
    doc: Seq<char>,
    t: Seq<char>,
    k: int,
    entries: Map<Seq<char>, MetadataValueView>,
    body: Seq<char>,
)
    requires
        is_delimiter(first_line(doc)),
        until(doc, '\n') < doc.len(),
        after_line(doc) == t,
        close_of(t) == Some(k),
        entries_of(t.take(k), Map::empty()) matches Ok(found) && found == entries,
        after_line(t.skip(k)) == body,
    ensures
        has_header(doc),
        frontmatter(doc) == Ok::<(Map<Seq<char>, MetadataValueView>, Seq<char>), MetadataError>(
            (entries, trim(body)),
        ),
{
}

/// Whether the line at `lo..hi` is a delimiter.
fn is_delimiter_at(v: &Vec<char>, lo: usize, hi: usize) -> (b: bool)
    requires
        lo <= hi <= v.len(),
    ensures
        b == is_delimiter(v@.subrange(lo as int, hi as int)),
{
    let end = skip_spaces_back(v, lo, hi);
    let ghost line = v@.subrange(lo as int, hi as int);
    proof {
        assert(trim_end(line) == v@.subrange(lo as int, end as int));
        let dashes = seq!['-', '-', '-'];
        if end - lo == 3 && v[lo as int] == '-' && v[lo + 1] == '-' && v[lo + 2] == '-' {
            assert(v@.subrange(lo as int, end as int) == dashes);
        }
    }
    end - lo == 3 && v[lo] == '-' && v[lo + 1] == '-' && v[lo + 2] == '-'
}

/// A position in the text behind `start`, as a position in the whole.
spec fn shifted(k: Option<int>, by: int) -> Option<int> {
    match k {
        Some(i) => Some(i + by),
        None => None,
    }
}

/// Finds the line that closes a header whose lines begin at `start`.
fn find_closing(v: &Vec<char>, start: usize) -> (r: Option<usize>)
    requires
        start <= v.len(),
    ensures
        match close_of(v@.skip(start as int)) {
            Some(k) => r matches Some(c) && c == start + k && start <= c <= v.len(),
            None => r is None,
        },
{
    let n = v.len();
    let mut pos: usize = start;
    loop
        invariant
            start <= pos <= n,
            n == v.len(),
            close_of(v@.subrange(start as int, n as int)) == shifted(
                close_of(v@.subrange(pos as int, n as int)),
                pos - start,
            ),
        decreases n - pos,
    {
        let ghost t = v@.subrange(pos as int, n as int);
        let end = find_char(v, pos, n, '\n');
        proof {
            assert(first_line(t) == v@.subrange(pos as int, end as int));
        }
        if is_delimiter_at(v, pos, end) {
            return Some(pos);
        }
        if end >= n {
            return None;
        }
        proof {
            assert(after_line(t) == v@.subrange(end + 1, n as int));
        }
        pos = end + 1;
    }
}

/// Reads the entries of the header lines at `lo..hi`.
fn parse_entries(v: &Vec<char>, lo: usize, hi: usize) -> (r: Result<Metadata, MetadataError>)
    requires
        lo <= hi <= v.len(),
    ensures
        match entries_of(v@.subrange(lo as int, hi as int), Map::empty()) {
            Ok(entries) => r matches Ok(metadata) && metadata@ == entries,
            Err(e) => r matches Err(x) && x == e,
        },
{
    let mut metadata = Metadata::new();
    let mut pos: usize = lo;
    while pos < hi
        invariant
            lo <= pos <= hi <= v.len(),
            entries_of(v@.subrange(lo as int, hi as int), Map::empty()) == entries_of(
                v@.subrange(pos as int, hi as int),
                metadata@,
            ),
        decreases hi - pos,
    {
        let ghost region = v@.subrange(pos as int, hi as int);
        let end = find_char(v, pos, hi, '\n');
        let (a, b) = trim_range(v, pos, end);
        proof {
            assert(first_line(region) == v@.subrange(pos as int, end as int));
        }
        if !(a == b || v[a] == '#') {
            match parse_entry(v, pos, end) {
                Ok((key, value)) => {
                    metadata.insert(key, value);
                },
                Err(e) => {
                    return Err(e);
                },
            }
        }
        if end < hi {
            proof {
                assert(after_line(region) == v@.subrange(end + 1, hi as int));
            }
            pos = end + 1;
        } else {
            proof {
                assert(after_line(region) == v@.subrange(hi as int, hi as int));
            }
            pos = hi;
        }
    }
    Ok(metadata)
}

/// Splits a document into its metadata and its body.
///
/// A document without a header block is handed back unchanged, with empty
/// metadata. A header that cannot be read is an error: no part of it is
/// returned.
pub fn parse_frontmatter<'a>(content: &'a str) -> (r: Result<(Metadata, &'a str), MetadataError>)
    ensures
        match frontmatter(content@) {
            Ok((entries, body)) => r matches Ok((metadata, rest)) && metadata@ == entries
                && rest@ == body,
            Err(e) => r matches Err(x) && x == e,
        },
        !has_header(content@) ==> (r matches Ok((metadata, rest)) && metadata@
            == Map::<Seq<char>, MetadataValueView>::empty() && rest@ == content@),
{
    let v = chars_of(content);
    let n = v.len();
    let open_end = find_char(&v, 0, n, '\n');
    proof {
        assert(v@.subrange(0, n as int) == v@);
    }
    if open_end >= n || !is_delimiter_at(&v, 0, open_end) {
        return Ok((Metadata::new(), content));
    }
    let start = open_end + 1;
    match find_closing(&v, start) {
        None => Ok((Metadata::new(), content)),
        Some(close) => {
            let ghost t = v@.skip(start as int);
            proof {
                assert(t.take(close - start) == v@.subrange(start as int, close as int));
                assert(t.skip(close - start) == v@.subrange(close as int, n as int));
            }
            match parse_entries(&v, start, close) {
                Err(e) => Err(e),
                Ok(metadata) => {
                    let close_end = find_char(&v, close, n, '\n');
                    let body_start = if close_end < n {
                        close_end + 1
                    } else {
                        n
                    };
                    proof {
                        assert(after_line(v@.subrange(close as int, n as int)) == v@.subrange(
                            body_start as int,
                            n as int,
                        ));
                    }
                    let (a, b) = trim_range(&v, body_start, n);
                    proof {
                        lemma_frontmatter_of_parts(
                            v@,
                            t,
                            close - start,
                            metadata@,
                            v@.subrange(body_start as int, n as int),
                        );
                    }
                    Ok((metadata, content.substring_char(a, b)))
                },
            }
        },
    }
}

/// The length of the header block of a document that has one: everything up
/// to the closing delimiter line and its line break.
pub open spec fn header_len(doc: Seq<char>) -> int
    recommends
        has_header(doc),
{
    let t = after_line(doc);
    doc.len() - after_line(t.skip(close_of(t)->0)).len()
}

/// What follows the first line is the end of the text.
proof fn lemma_after_line_suffix(s: Seq<char>)
    ensures
        after_line(s).len() <= s.len(),
        after_line(s) == s.skip(s.len() - after_line(s).len()),
        until(s, '\n') < s.len() ==> after_line(s).len() < s.len(),
{
    lemma_until_bound(s, '\n');
}

/// The closing delimiter line begins inside the text.
proof fn lemma_close_of_bound(t: Seq<char>)
    ensures
        close_of(t) matches Some(k) ==> 0 <= k <= t.len(),
    decreases t.len(),
{
    lemma_until_bound(t, '\n');
    if !is_delimiter(first_line(t)) && until(t, '\n') < t.len() {
        lemma_close_of_bound(after_line(t));
    }
}

/// The body never holds the header: it is a part of the document that
/// begins behind the header block.
pub proof fn lemma_body_follows_header(doc: Seq<char>)
    requires
        has_header(doc),
        frontmatter(doc) is Ok,
    ensures
        0 < header_len(doc) <= doc.len(),
        exists|a: int, b: int|
            header_len(doc) <= a <= b <= doc.len() && frontmatter(doc)->Ok_0.1 == #[trigger]
            doc.subrange(a, b),
{
    let t = after_line(doc);
    let k = close_of(t)->0;
    lemma_after_line_suffix(doc);
    lemma_close_of_bound(t);
    let u = t.skip(k);
    lemma_after_line_suffix(u);
    let w = after_line(u);
    let start = doc.len() - w.len();
    lemma_leading_spaces_bound(w);
    let lead = leading_spaces(w) as int;
    let tight = trim_start(w);
    lemma_trailing_spaces_bound(tight);
    let trail = trailing_spaces(tight) as int;
    let a = start + lead;
    let b = doc.len() - trail;
    assert(trim(w) == doc.subrange(a, b));
}

} // verus!
