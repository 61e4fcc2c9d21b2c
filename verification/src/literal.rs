//! How metadata is written: the canonical literal of a value, the line of
//! an entry and the header block of a document, with the laws that reading
//! gives back what was written.

use vstd::prelude::*;
use crate::metadata::{
    after_line, all_digits, close_of, digits_value, entries_of, entry_of, first_line, frontmatter,
    has_header, is_delimiter, is_digit, is_ignored, items_of, lemma_frontmatter_of_parts,
    scalar_of, value_of, MetadataError, MetadataValueView,
};
use crate::text::{
    is_space, lacks, lemma_leading_spaces_is, lemma_trailing_spaces_is, lemma_until_is, trim,
    trim_end, trim_start, until,
};

verus! {

/// The character of a decimal digit.
pub open spec fn digit_char(d: nat) -> char
    recommends
        d < 10,
{
    if d == 0 {
        '0'
    } else if d == 1 {
        '1'
    } else if d == 2 {
        '2'
    } else if d == 3 {
        '3'
    } else if d == 4 {
        '4'
    } else if d == 5 {
        '5'
    } else if d == 6 {
        '6'
    } else if d == 7 {
        '7'
    } else if d == 8 {
        '8'
    } else {
        '9'
    }
}

/// The decimal digits of a number, without leading zeros.
pub open spec fn digits_of(n: nat) -> Seq<char>
    decreases n,
{
    if n < 10 {
        seq![digit_char(n)]
    } else {
        digits_of(n / 10).push(digit_char(n % 10))
    }
}

/// A string between double quotes.
pub open spec fn quoted(s: Seq<char>) -> Seq<char> {
    seq!['"'] + s + seq!['"']
}

/// The items of a list, each quoted, with commas between them.
pub open spec fn joined(items: Seq<Seq<char>>) -> Seq<char>
    decreases items.len(),
{
    if items.len() == 0 {
        Seq::empty()
    } else if items.len() == 1 {
        quoted(items[0])
    } else {
        quoted(items[0]) + seq![','] + joined(items.skip(1))
    }
}

/// The canonical literal of a value: `true` or `false` for a boolean, the
/// decimal digits of a number, a string between double quotes, and a list as
/// its quoted items between brackets.
pub open spec fn literal_of(value: MetadataValueView) -> Seq<char> {
    match value {
        MetadataValueView::Boolean(b) => if b {
            seq!['t', 'r', 'u', 'e']
        } else {
            seq!['f', 'a', 'l', 's', 'e']
        },
        MetadataValueView::Number(n) => if n < 0 {
            seq!['-'] + digits_of((-n) as nat)
        } else {
            digits_of(n as nat)
        },
        MetadataValueView::String(s) => quoted(s),
        MetadataValueView::List(items) => seq!['['] + joined(items) + seq![']'],
    }
}

/// The values that a literal can denote: a number has to fit 64 bits, a
/// string may not hold a double quote, and the items of a list may hold
/// neither a double quote nor a comma.
pub open spec fn expressible(value: MetadataValueView) -> bool {
    match value {
        MetadataValueView::Boolean(_) => true,
        MetadataValueView::Number(n) => i64::MIN <= n <= i64::MAX,
        MetadataValueView::String(s) => lacks(s, '"'),
        MetadataValueView::List(items) => forall|i: int|
            0 <= i < items.len() ==> lacks(#[trigger] items[i], '"') && lacks(items[i], ','),
    }
}

/// The digits of a number are digits, and denote the number.
proof fn lemma_digits_of(n: nat)
    ensures
        all_digits(digits_of(n)),
        digits_value(digits_of(n)) == n,
    decreases n,
{
    let s = digits_of(n);
    if n < 10 {
        assert(digits_value(s.drop_last()) == 0);
    } else {
        lemma_digits_of(n / 10);
        let front = digits_of(n / 10);
        assert(s.drop_last() == front);
    }
}

/// Text that neither begins nor ends with whitespace is its own trimming.
proof fn lemma_trim_tight(s: Seq<char>)
    requires
        s.len() > 0,
        !is_space(s[0]),
        !is_space(s.last()),
    ensures
        trim(s) == s,
{
    lemma_leading_spaces_is(s, 0);
    lemma_trailing_spaces_is(s, 0);
}

/// A quoted string without a double quote inside reads as the string.
proof fn lemma_quoted(s: Seq<char>)
    requires
        lacks(s, '"'),
    ensures
        scalar_of(quoted(s)) == Some(s),
        trim(quoted(s)) == quoted(s),
        quoted(s).len() == s.len() + 2,
        quoted(s)[0] == '"',
{
    let q = quoted(s);
    assert(q.subrange(1, q.len() - 1) == s);
    lemma_until_is(s, '"', s.len() as int);
    lemma_trim_tight(q);
}

/// The joined items of a list read as the list.
proof fn lemma_joined(items: Seq<Seq<char>>)
    requires
        items.len() > 0,
        forall|i: int|
            0 <= i < items.len() ==> lacks(#[trigger] items[i], '"') && lacks(items[i], ','),
    ensures
        items_of(joined(items)) == Some(items),
        joined(items).len() >= 2,
        joined(items)[0] == '"',
        joined(items).last() == '"',
    decreases items.len(),
{
    let first = items[0];
    let q = quoted(first);
    let all = joined(items);
    lemma_quoted(first);
    if items.len() == 1 {
        lemma_until_is(all, ',', all.len() as int);
        assert(all.take(all.len() as int) == all);
    } else {
        let rest = items.skip(1);
        lemma_joined(rest);
        let n = q.len() as int;
        lemma_until_is(all, ',', n);
        assert(all.take(n) == q);
        assert(all.skip(n + 1) == joined(rest));
    }
}

/// Round trip: the canonical literal of a value reads as that value.
pub proof fn lemma_literal_round_trip(value: MetadataValueView)
    requires
        expressible(value),
    ensures
        value_of(literal_of(value)) == Some(value),
{
    let lit = literal_of(value);
    match value {
        MetadataValueView::Boolean(b) => {},
        MetadataValueView::Number(n) => {
            if n < 0 {
                let digits = digits_of((-n) as nat);
                lemma_digits_of((-n) as nat);
                assert(lit.skip(1) == digits);
            } else {
                lemma_digits_of(n as nat);
            }
        },
        MetadataValueView::String(s) => {
            lemma_quoted(s);
        },
        MetadataValueView::List(items) => {
            let inner = joined(items);
            assert(lit.subrange(1, lit.len() - 1) == inner);
            if items.len() == 0 {
                assert(items == Seq::<Seq<char>>::empty());
            } else {
                lemma_joined(items);
                lemma_trim_tight(inner);
            }
        },
    }
}

/// The values whose literal stands on one line: no string of theirs holds a
/// line break.
pub open spec fn one_line(value: MetadataValueView) -> bool {
    match value {
        MetadataValueView::String(s) => lacks(s, '\n'),
        MetadataValueView::List(items) => forall|i: int|
            0 <= i < items.len() ==> lacks(#[trigger] items[i], '\n'),
        _ => true,
    }
}

/// The keys that a header line can hold as they are: not empty, without
/// whitespace at either end, without a colon or a line break, and not
/// beginning like a comment.
pub open spec fn plain_key(key: Seq<char>) -> bool {
    key.len() > 0 && !is_space(key[0]) && !is_space(key.last()) && key[0] != '#' && lacks(
        key,
        ':',
    ) && lacks(key, '\n')
}

/// The header line that declares `value` under `key`.
pub open spec fn entry_line(key: Seq<char>, value: MetadataValueView) -> Seq<char> {
    key + seq![':', ' '] + literal_of(value)
}

/// Whether every entry can be written on a header line.
pub open spec fn writable(entries: Seq<(Seq<char>, MetadataValueView)>) -> bool {
    forall|i: int|
        0 <= i < entries.len() ==> plain_key((#[trigger] entries[i]).0) && expressible(
            entries[i].1,
        ) && one_line(entries[i].1)
}

/// The lines of a header that declares the entries in order, each with its
/// line break.
pub open spec fn header_lines(entries: Seq<(Seq<char>, MetadataValueView)>) -> Seq<char>
    decreases entries.len(),
{
    if entries.len() == 0 {
        Seq::empty()
    } else {
        entry_line(entries[0].0, entries[0].1) + seq!['\n'] + header_lines(entries.skip(1))
    }
}

/// The delimiter line of a header block, with its line break.
pub open spec fn delimiter_line() -> Seq<char> {
    seq!['-', '-', '-', '\n']
}

/// The document that declares the entries in a header block and goes on
/// with `body`.
pub open spec fn document_of(
    entries: Seq<(Seq<char>, MetadataValueView)>,
    body: Seq<char>,
) -> Seq<char> {
    delimiter_line() + header_lines(entries) + delimiter_line() + body
}

/// The map that results from inserting the entries into `acc` in order.
pub open spec fn inserted(
    entries: Seq<(Seq<char>, MetadataValueView)>,
    acc: Map<Seq<char>, MetadataValueView>,
) -> Map<Seq<char>, MetadataValueView>
    decreases entries.len(),
{
    if entries.len() == 0 {
        acc
    } else {
        inserted(entries.skip(1), acc.insert(entries[0].0, entries[0].1))
    }
}

/// Joined items hold a character only where an item holds it, but for the
/// quotes and commas between them.
proof fn lemma_joined_lacks(items: Seq<Seq<char>>, c: char)
    requires
        c != '"',
        c != ',',
        forall|i: int| 0 <= i < items.len() ==> lacks(#[trigger] items[i], c),
    ensures
        lacks(joined(items), c),
    decreases items.len(),
{
    if items.len() == 0 {
    } else if items.len() == 1 {
        assert(lacks(items[0], c));
    } else {
        let rest = items.skip(1);
        assert(lacks(items[0], c));
        assert forall|i: int| 0 <= i < rest.len() implies lacks(#[trigger] rest[i], c) by {
            assert(rest[i] == items[i + 1]);
        }
        lemma_joined_lacks(rest, c);
    }
}

/// A canonical literal is not empty, neither begins nor ends with
/// whitespace, and stands on one line where its value does.
proof fn lemma_literal_shape(value: MetadataValueView)
    requires
        expressible(value),
        one_line(value),
    ensures
        literal_of(value).len() > 0,
        !is_space(literal_of(value)[0]),
        !is_space(literal_of(value).last()),
        lacks(literal_of(value), '\n'),
{
    let lit = literal_of(value);
    match value {
        MetadataValueView::Boolean(b) => {},
        MetadataValueView::Number(n) => {
            if n < 0 {
                let digits = digits_of((-n) as nat);
                lemma_digits_of((-n) as nat);
                assert(lit.last() == digits.last());
                assert forall|i: int| 0 <= i < lit.len() implies lit[i] != '\n' by {
                    if i > 0 {
                        assert(lit[i] == digits[i - 1]);
                        assert(is_digit(digits[i - 1]));
                    }
                }
                assert(is_digit(digits[digits.len() - 1]));
            } else {
                lemma_digits_of(n as nat);
                assert(is_digit(lit[0]));
                assert(is_digit(lit[lit.len() - 1]));
                assert forall|i: int| 0 <= i < lit.len() implies lit[i] != '\n' by {
                    assert(is_digit(lit[i]));
                }
            }
        },
        MetadataValueView::String(s) => {
            assert forall|i: int| 0 <= i < lit.len() implies lit[i] != '\n' by {
                if 0 < i < lit.len() - 1 {
                    assert(lit[i] == s[i - 1]);
                }
            }
        },
        MetadataValueView::List(items) => {
            let inner = joined(items);
            lemma_joined_lacks(items, '\n');
            assert forall|i: int| 0 <= i < lit.len() implies lit[i] != '\n' by {
                if 0 < i < lit.len() - 1 {
                    assert(lit[i] == inner[i - 1]);
                }
            }
        },
    }
}

/// The line of an entry neither begins nor ends with whitespace, does not
/// begin like a comment, is longer than a delimiter and stands on one line.
proof fn lemma_entry_line_shape(key: Seq<char>, value: MetadataValueView)
    requires
        plain_key(key),
        expressible(value),
        one_line(value),
    ensures
        entry_line(key, value).len() > 3,
        entry_line(key, value)[0] == key[0],
        trim(entry_line(key, value)) == entry_line(key, value),
        trim_end(entry_line(key, value)) == entry_line(key, value),
        lacks(entry_line(key, value), '\n'),
{
    let lit = literal_of(value);
    let line = entry_line(key, value);
    let k = key.len() as int;
    lemma_literal_shape(value);
    assert(line.len() == k + 2 + lit.len());
    assert(line[0] == key[0]);
    assert(line.last() == lit.last());
    lemma_trim_tight(line);
    lemma_trailing_spaces_is(line, 0);
    assert forall|i: int| 0 <= i < line.len() implies line[i] != '\n' by {
        if i < k {
            assert(line[i] == key[i]);
        } else if i >= k + 2 {
            assert(line[i] == lit[i - k - 2]);
        }
    }
}

/// The line of an entry splits at its colon into the key and, behind a
/// space, the literal.
proof fn lemma_entry_line_parts(key: Seq<char>, value: MetadataValueView)
    requires
        plain_key(key),
        expressible(value),
        one_line(value),
    ensures
        until(entry_line(key, value), ':') == key.len(),
        key.len() < entry_line(key, value).len(),
        trim(entry_line(key, value).take(key.len() as int)) == key,
        trim(entry_line(key, value).skip(key.len() as int + 1)) == literal_of(value),
{
    let lit = literal_of(value);
    let line = entry_line(key, value);
    let k = key.len() as int;
    lemma_literal_shape(value);
    assert(line.len() == k + 2 + lit.len());
    assert(line[k] == ':');
    assert forall|i: int| 0 <= i < k implies line[i] != ':' by {
        assert(line[i] == key[i]);
    }
    lemma_until_is(line, ':', k);
    assert(line.take(k) == key);
    lemma_trim_tight(key);
    let tail = line.skip(k + 1);
    assert(tail == seq![' '] + lit);
    lemma_leading_spaces_is(tail, 1);
    assert(trim_start(tail) == lit);
    lemma_trim_tight(lit);
}

/// Round trip of an entry: the line that declares a value under a key reads
/// as that key and that value, and is neither skipped nor taken for a
/// delimiter.
pub proof fn lemma_entry_round_trip(key: Seq<char>, value: MetadataValueView)
    requires
        plain_key(key),
        expressible(value),
        one_line(value),
    ensures
        entry_of(entry_line(key, value)) == Ok::<(Seq<char>, MetadataValueView), MetadataError>(
            (key, value),
        ),
        !is_ignored(entry_line(key, value)),
        !is_delimiter(entry_line(key, value)),
        lacks(entry_line(key, value), '\n'),
{
    lemma_entry_line_shape(key, value);
    lemma_entry_line_parts(key, value);
    lemma_literal_round_trip(value);
}

/// A text that begins with a line and its line break splits there.
proof fn lemma_split_line(line: Seq<char>, rest: Seq<char>)
    requires
        lacks(line, '\n'),
    ensures
        first_line(line + seq!['\n'] + rest) == line,
        after_line(line + seq!['\n'] + rest) == rest,
        until(line + seq!['\n'] + rest, '\n') == line.len(),
{
    let t = line + seq!['\n'] + rest;
    assert(t[line.len() as int] == '\n');
    assert forall|i: int| 0 <= i < line.len() implies t[i] != '\n' by {
        assert(t[i] == line[i]);
    }
    lemma_until_is(t, '\n', line.len() as int);
    assert(t.take(line.len() as int) == line);
    assert(t.skip(line.len() as int + 1) == rest);
}

/// The delimiter line is a delimiter and nothing else on its line.
proof fn lemma_delimiter_line(rest: Seq<char>)
    ensures
        first_line(delimiter_line() + rest) == seq!['-', '-', '-'],
        after_line(delimiter_line() + rest) == rest,
        until(delimiter_line() + rest, '\n') == 3,
        is_delimiter(seq!['-', '-', '-']),
{
    let dashes = seq!['-', '-', '-'];
    assert(lacks(dashes, '\n'));
    assert(delimiter_line() + rest == dashes + seq!['\n'] + rest);
    lemma_split_line(dashes, rest);
    lemma_trailing_spaces_is(dashes, 0);
    assert(trim_end(dashes) == dashes);
}

/// The lines of writable entries, followed by a delimiter line, close where
/// the lines end, and read as the entries inserted in order.
proof fn lemma_header_lines(
    entries: Seq<(Seq<char>, MetadataValueView)>,
    acc: Map<Seq<char>, MetadataValueView>,
    rest: Seq<char>,
)
    requires
        writable(entries),
    ensures
        close_of(header_lines(entries) + delimiter_line() + rest) == Some(
            header_lines(entries).len() as int,
        ),
        entries_of(header_lines(entries), acc) == Ok::<
            Map<Seq<char>, MetadataValueView>,
            MetadataError,
        >(inserted(entries, acc)),
    decreases entries.len(),
{
    let lines = header_lines(entries);
    let t = lines + delimiter_line() + rest;
    if entries.len() == 0 {
        assert(t == delimiter_line() + rest);
        lemma_delimiter_line(rest);
    } else {
        let key = entries[0].0;
        let value = entries[0].1;
        let line = entry_line(key, value);
        let later = entries.skip(1);
        assert(writable(later)) by {
            assert forall|i: int| 0 <= i < later.len() implies plain_key(
                (#[trigger] later[i]).0,
            ) && expressible(later[i].1) && one_line(later[i].1) by {
                assert(later[i] == entries[i + 1]);
            }
        }
        lemma_entry_round_trip(key, value);
        let next = header_lines(later);
        assert(lines == line + seq!['\n'] + next);
        assert(t == line + seq!['\n'] + (next + delimiter_line() + rest));
        lemma_split_line(line, next + delimiter_line() + rest);
        lemma_split_line(line, next);
        lemma_header_lines(later, acc.insert(key, value), rest);
    }
}

/// How a written document falls into its delimiter lines, its header lines
/// and its body.
proof fn lemma_document_parts(lines: Seq<char>, body: Seq<char>)
    ensures
        delimiter_line() + lines + delimiter_line() + body == delimiter_line() + (lines
            + delimiter_line() + body),
        (lines + delimiter_line() + body).take(lines.len() as int) == lines,
        (lines + delimiter_line() + body).skip(lines.len() as int) == delimiter_line() + body,
{
}

/// A document written as a delimiter line, header lines, a delimiter line
/// and a body reads as what the lines declare and as the body, where the
/// header lines close at their end.
proof fn lemma_written_document(
    lines: Seq<char>,
    body: Seq<char>,
    entries: Map<Seq<char>, MetadataValueView>,
)
    requires
        close_of(lines + delimiter_line() + body) == Some(lines.len() as int),
        entries_of(lines, Map::empty()) matches Ok(found) && found == entries,
    ensures
        has_header(delimiter_line() + lines + delimiter_line() + body),
        frontmatter(delimiter_line() + lines + delimiter_line() + body) == Ok::<
            (Map<Seq<char>, MetadataValueView>, Seq<char>),
            MetadataError,
        >((entries, trim(body))),
{
    let t = lines + delimiter_line() + body;
    let doc = delimiter_line() + t;
    lemma_document_parts(lines, body);
    lemma_delimiter_line(t);
    lemma_delimiter_line(body);
    lemma_frontmatter_of_parts(doc, t, lines.len() as int, entries, body);
}

/// Round trip of a header block: a document that declares writable entries
/// in its header reads as the entries, inserted in order, and as its body
/// without surrounding whitespace.
pub proof fn lemma_header_round_trip(
    entries: Seq<(Seq<char>, MetadataValueView)>,
    body: Seq<char>,
)
    requires
        writable(entries),
    ensures
        has_header(document_of(entries, body)),
        frontmatter(document_of(entries, body)) == Ok::<
            (Map<Seq<char>, MetadataValueView>, Seq<char>),
            MetadataError,
        >((inserted(entries, Map::empty()), trim(body))),
{
    lemma_header_lines(entries, Map::empty(), body);
    lemma_written_document(header_lines(entries), body, inserted(entries, Map::empty()));
}

/// No key is declared twice.
pub open spec fn distinct(entries: Seq<(Seq<char>, MetadataValueView)>) -> bool {
    forall|i: int, j: int|
        0 <= i < j < entries.len() ==> (#[trigger] entries[i]).0 != (#[trigger] entries[j]).0
}

/// Whether `key` is declared by one of the entries.
pub open spec fn declares(entries: Seq<(Seq<char>, MetadataValueView)>, key: Seq<char>) -> bool {
    exists|i: int| 0 <= i < entries.len() && (#[trigger] entries[i]).0 == key
}

/// Entries with distinct keys, inserted in order, give a map that holds each
/// entry, and beside them what it held before and nothing else.
pub proof fn lemma_inserted(
    entries: Seq<(Seq<char>, MetadataValueView)>,
    acc: Map<Seq<char>, MetadataValueView>,
)
    requires
        distinct(entries),
    ensures
        forall|i: int|
            0 <= i < entries.len() ==> inserted(entries, acc).contains_key(
                (#[trigger] entries[i]).0,
            ) && inserted(entries, acc)[entries[i].0] == entries[i].1,
        forall|key: Seq<char>|
            !declares(entries, key) ==> (#[trigger] inserted(entries, acc).contains_key(key)
                <==> acc.contains_key(key)) && (acc.contains_key(key) ==> inserted(
                entries,
                acc,
            )[key] == acc[key]),
    decreases entries.len(),
{
    if entries.len() > 0 {
        let first = entries[0];
        let later = entries.skip(1);
        let next = acc.insert(first.0, first.1);
        assert(distinct(later)) by {
            assert forall|i: int, j: int| 0 <= i < j < later.len() implies (#[trigger] later[i]).0
                != (#[trigger] later[j]).0 by {
                assert(later[i] == entries[i + 1]);
                assert(later[j] == entries[j + 1]);
            }
        }
        lemma_inserted(later, next);
        assert(!declares(later, first.0)) by {
            if declares(later, first.0) {
                let i = choose|i: int| 0 <= i < later.len() && (#[trigger] later[i]).0 == first.0;
                assert(later[i] == entries[i + 1]);
            }
        }
        assert forall|i: int| 0 <= i < entries.len() implies inserted(entries, acc).contains_key(
            (#[trigger] entries[i]).0,
        ) && inserted(entries, acc)[entries[i].0] == entries[i].1 by {
            if i > 0 {
                assert(later[i - 1] == entries[i]);
            } else {
                assert(inserted(later, next).contains_key(first.0) <==> next.contains_key(
                    first.0,
                ));
            }
        }
        assert forall|key: Seq<char>| !declares(entries, key) implies (#[trigger] inserted(
            entries,
            acc,
        ).contains_key(key) <==> acc.contains_key(key)) && (acc.contains_key(key) ==> inserted(
            entries,
            acc,
        )[key] == acc[key]) by {
            assert(entries[0].0 != key);
            assert(!declares(later, key)) by {
                if declares(later, key) {
                    let i = choose|i: int| 0 <= i < later.len() && (#[trigger] later[i]).0 == key;
                    assert(later[i] == entries[i + 1]);
                }
            }
            assert(inserted(later, next).contains_key(key) <==> next.contains_key(key));
        }
    }
}

} // verus!
