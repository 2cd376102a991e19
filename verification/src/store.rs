//! The stored form of the progress cache: a text of one line per entry.
//!
//! A line holds four fields, separated by tabs and ended by a line feed: a
//! letter for the outcome (`S` success, `F` permanent failure, `R` retries
//! exhausted), the retries spent, the identifier, and the receipt or the
//! message. Inside the last two a backslash, a tab and a line feed are
//! written as `\\`, `\t` and `\n`. A later line for an identifier replaces an
//! earlier one.

use crate::cache::{CacheView, ProgressCache};
use crate::error::RunError;
use crate::outcome::{
    detail_of, ActionOutcome, ActionOutcomeView, CacheEntry, CacheEntryView, FailureKind,
};
use crate::text::{
    append_chars, decimal, escape, join, lemma_escape_has_no_separator, lemma_number_decimal,
    lemma_split_join, lemma_split_terminated, lemma_unescape_escape, number, read_decimal,
    read_escaped, rows, split, split_chars, terminated, to_chars, unescape, write_decimal,
    write_escaped,
};
use vstd::prelude::*;

verus! {

/// One line of the stored form: an identifier and its entry.
pub type Record = (Seq<char>, CacheEntryView);

/// The letter that stands for an outcome.
pub open spec fn kind_letter(outcome: ActionOutcomeView) -> char {
    match outcome {
        ActionOutcomeView::Success(_) => 'S',
        ActionOutcomeView::Failure(FailureKind::Permanent, _) => 'F',
        ActionOutcomeView::Failure(FailureKind::RetriesExhausted, _) => 'R',
    }
}

/// The outcome that a field of one letter and a detail stand for.
pub open spec fn outcome_of(kind: Seq<char>, detail: Seq<char>) -> Option<ActionOutcomeView> {
    if kind.len() != 1 {
        None
    } else if kind[0] == 'S' {
        Some(ActionOutcomeView::Success(detail))
    } else if kind[0] == 'F' {
        Some(ActionOutcomeView::Failure(FailureKind::Permanent, detail))
    } else if kind[0] == 'R' {
        Some(ActionOutcomeView::Failure(FailureKind::RetriesExhausted, detail))
    } else {
        None
    }
}

/// The four fields of the line of a record.
pub open spec fn line_fields(record: Record) -> Seq<Seq<char>> {
    seq![
        seq![kind_letter(record.1.outcome)],
        decimal(record.1.retry_count as u8),
        escape(record.0),
        escape(detail_of(record.1.outcome)),
    ]
}

/// The line of a record, without its end.
pub open spec fn render_line(record: Record) -> Seq<char> {
    join(line_fields(record), '\t')
}

/// The lines of a series of records.
pub open spec fn render_lines(records: Seq<Record>) -> Seq<Seq<char>> {
    Seq::new(records.len(), |i: int| render_line(records[i]))
}

/// The stored form of a series of records.
pub open spec fn render(records: Seq<Record>) -> Seq<char> {
    terminated(render_lines(records), '\n')
}

/// The record that a line stands for, if it stands for one: it has four
/// fields, a known letter, a number, and two well-escaped texts.
pub open spec fn parse_line(line: Seq<char>) -> Option<Record> {
    let fields = split(line, '\t');
    if fields.len() != 4 {
        None
    } else {
        match (number(fields[1]), unescape(fields[2]), unescape(fields[3])) {
            (Some(retry_count), Some(identifier), Some(detail)) => match outcome_of(
                fields[0],
                detail,
            ) {
                Some(outcome) => Some(
                    (identifier, CacheEntryView { outcome, retry_count: retry_count as nat }),
                ),
                None => None,
            },
            _ => None,
        }
    }
}

/// The records that the first `n` of `lines` stand for.
pub open spec fn parsed(lines: Seq<Seq<char>>, n: int) -> Seq<Record> {
    Seq::new(n as nat, |i: int| parse_line(lines[i])->Some_0)
}

/// The records that a stored form stands for, if it is one: every line is
/// ended, and every line stands for a record.
pub open spec fn parse(text: Seq<char>) -> Option<Seq<Record>> {
    let lines = split(text, '\n');
    if lines.len() >= 1 && lines.last().len() == 0 && (forall|i: int|
        0 <= i < lines.len() - 1 ==> parse_line(#[trigger] lines[i]) is Some) {
        Some(parsed(lines, lines.len() - 1))
    } else {
        None
    }
}

/// The cache that a series of records makes: a later record replaces an
/// earlier one of the same identifier.
pub open spec fn replay(records: Seq<Record>) -> CacheView
    decreases records.len(),
{
    if records.len() == 0 {
        Map::empty()
    } else {
        replay(records.drop_last()).insert(records.last().0, records.last().1)
    }
}

/// The identifiers of a series of records, each once, in the order of
/// their first record.
pub open spec fn first_ids(records: Seq<Record>) -> Seq<Seq<char>>
    decreases records.len(),
{
    if records.len() == 0 {
        Seq::empty()
    } else {
        let rest = first_ids(records.drop_last());
        if rest.contains(records.last().0) {
            rest
        } else {
            rest.push(records.last().0)
        }
    }
}

/// The records of a cache of the given identifiers and entries.
pub open spec fn records_of(identifiers: Seq<Seq<char>>, entries: Seq<CacheEntryView>) -> Seq<
    Record,
> {
    Seq::new(identifiers.len(), |i: int| (identifiers[i], entries[i]))
}

/// A character that is no separator and stands in no field stands nowhere
/// in the joined fields.
pub proof fn lemma_join_free(fields: Seq<Seq<char>>, sep: char, c: char)
    requires
        c != sep,
        forall|i: int| 0 <= i < fields.len() ==> !(#[trigger] fields[i]).contains(c),
    ensures
        !join(fields, sep).contains(c),
    decreases fields.len(),
{
    if fields.len() == 1 {
    } else if fields.len() > 1 {
        let front = fields.drop_last();
        assert forall|i: int| 0 <= i < front.len() implies !(#[trigger] front[i]).contains(c) by {
            assert(front[i] == fields[i]);
        }
        lemma_join_free(front, sep, c);
        let a = join(front, sep);
        let whole = join(fields, sep);
        assert forall|i: int| 0 <= i < whole.len() implies whole[i] != c by {
            if i < a.len() {
                assert(a.contains(a[i]));
            } else if i > a.len() {
                assert(fields.last().contains(fields.last()[i - a.len() - 1]));
            }
        }
    }
}

/// A line reads back as the record that it was written for.
pub proof fn lemma_parse_render_line(record: Record)
    requires
        record.1.retry_count <= 255,
    ensures
        parse_line(render_line(record)) == Some(record),
        !render_line(record).contains('\n'),
{
    let fields = line_fields(record);
    lemma_number_decimal(record.1.retry_count as u8);
    lemma_escape_has_no_separator(record.0);
    lemma_escape_has_no_separator(detail_of(record.1.outcome));
    lemma_unescape_escape(record.0);
    lemma_unescape_escape(detail_of(record.1.outcome));
    assert forall|i: int| 0 <= i < fields.len() implies !(#[trigger] fields[i]).contains('\t')
        && !fields[i].contains('\n') by {
        if i == 0 {
            assert forall|j: int| 0 <= j < fields[0].len() implies fields[0][j] != '\t'
                && fields[0][j] != '\n' by {}
        }
    }
    lemma_split_join(fields, '\t');
    lemma_join_free(fields, '\t', '\n');
}

/// Round trip. A stored form reads back as the records that it was written
/// for.
pub proof fn lemma_parse_render(records: Seq<Record>)
    requires
        forall|i: int| 0 <= i < records.len() ==> (#[trigger] records[i]).1.retry_count <= 255,
    ensures
        parse(render(records)) == Some(records),
{
    let lines = render_lines(records);
    assert forall|i: int| 0 <= i < lines.len() implies !(#[trigger] lines[i]).contains('\n') by {
        lemma_parse_render_line(records[i]);
    }
    lemma_split_terminated(lines, '\n');
    let read = split(render(records), '\n');
    assert(read == lines.push(Seq::empty()));
    assert forall|i: int| 0 <= i < read.len() - 1 implies parse_line(#[trigger] read[i]) is Some by {
        lemma_parse_render_line(records[i]);
    }
    assert forall|i: int| 0 <= i < records.len() implies parsed(read, read.len() - 1)[i]
        == records[i] by {
        lemma_parse_render_line(records[i]);
    }
    assert(parsed(read, read.len() - 1) =~= records);
}

/// The records of a cache make that cache again: replayed, they give every
/// identifier its entry, in the same order.
pub proof fn lemma_replay_records(identifiers: Seq<Seq<char>>, entries: Seq<CacheEntryView>)
    requires
        identifiers.no_duplicates(),
        identifiers.len() == entries.len(),
    ensures
        first_ids(records_of(identifiers, entries)) == identifiers,
        replay(records_of(identifiers, entries)).dom() == identifiers.to_set(),
        forall|i: int|
            0 <= i < identifiers.len() ==> replay(records_of(identifiers, entries))[
                #[trigger] identifiers[i]] == entries[i],
    decreases identifiers.len(),
{
    let records = records_of(identifiers, entries);
    if identifiers.len() == 0 {
        assert(replay(records).dom() =~= identifiers.to_set());
        assert(first_ids(records) =~= identifiers);
    } else {
        let ids = identifiers.drop_last();
        let ens = entries.drop_last();
        lemma_replay_records(ids, ens);
        assert(records.drop_last() =~= records_of(ids, ens));
        let last = identifiers.last();
        assert(records.last() == (last, entries.last()));
        assert(!ids.contains(last)) by {
            if ids.contains(last) {
                let j = ids.index_of(last);
                assert(identifiers[j] == last);
            }
        }
        assert(first_ids(records) =~= identifiers);
        assert(replay(records).dom() =~= identifiers.to_set()) by {
            assert forall|k: Seq<char>|
                replay(records).dom().contains(k) <==> identifiers.to_set().contains(k) by {
                if ids.contains(k) {
                    let j = ids.index_of(k);
                    assert(identifiers[j] == k);
                }
                if identifiers.contains(k) {
                    let j = identifiers.index_of(k);
                    assert(identifiers[j] == k);
                    if j < ids.len() {
                        assert(ids[j] == k);
                    }
                }
                if k == last {
                    assert(identifiers[identifiers.len() - 1] == k);
                }
            }
        }
        assert forall|i: int| 0 <= i < identifiers.len() implies replay(records)[
            #[trigger] identifiers[i]] == entries[i] by {
            if i < ids.len() {
                assert(ids[i] == identifiers[i]);
                assert(identifiers[i] != last);
            }
        }
    }
}

/// The first `n + 1` records replay as the first `n`, and then the next.
proof fn lemma_replay_next(lines: Seq<Seq<char>>, n: int)
    requires
        0 <= n,
    ensures
        replay(parsed(lines, n + 1)) == replay(parsed(lines, n)).insert(
            parse_line(lines[n])->Some_0.0,
            parse_line(lines[n])->Some_0.1,
        ),
        first_ids(parsed(lines, n + 1)) == if first_ids(parsed(lines, n)).contains(
            parse_line(lines[n])->Some_0.0,
        ) {
            first_ids(parsed(lines, n))
        } else {
            first_ids(parsed(lines, n)).push(parse_line(lines[n])->Some_0.0)
        },
{
    assert(parsed(lines, n + 1).drop_last() =~= parsed(lines, n));
}

impl ProgressCache {
    /// The records of the cache, in the order of its identifiers.
    pub open spec fn records(&self) -> Seq<Record> {
        records_of(self.identifiers(), self.entries())
    }
}

/// Appends the line of one entry to a stored form. Read back, the longer
/// text is the cache with that entry recorded last: see
/// [`lemma_appended_line`].
pub fn append_line(out: &mut String, identifier: &String, entry: &CacheEntry)
    ensures
        final(out)@ == old(out)@ + render_line((identifier@, entry@)) + seq!['\n'],
{
    let ghost fields = line_fields((identifier@, entry@));
    let mut line = String::new();
    let letter: Vec<char> = match &entry.outcome {
        ActionOutcome::Success(_) => vec!['S'],
        ActionOutcome::Failure(FailureKind::Permanent, _) => vec!['F'],
        ActionOutcome::Failure(FailureKind::RetriesExhausted, _) => vec!['R'],
    };
    let tab: Vec<char> = vec!['\t'];
    let end: Vec<char> = vec!['\n'];
    append_chars(&mut line, &letter);
    append_chars(&mut line, &tab);
    write_decimal(&mut line, entry.retry_count);
    append_chars(&mut line, &tab);
    write_escaped(&mut line, identifier.as_str());
    append_chars(&mut line, &tab);
    write_escaped(&mut line, entry.outcome.detail().as_str());
    proof {
        reveal_with_fuel(join, 5);
        assert(letter@ =~= fields[0]);
        assert(fields.drop_last().drop_last().drop_last() =~= seq![fields[0]]);
        assert(fields.drop_last().drop_last() =~= seq![fields[0], fields[1]]);
        assert(fields.drop_last() =~= seq![fields[0], fields[1], fields[2]]);
        assert(join(seq![fields[0]], '\t') == fields[0]);
        assert(join(seq![fields[0], fields[1]], '\t') =~= fields[0] + seq!['\t'] + fields[1]);
        assert(join(seq![fields[0], fields[1], fields[2]], '\t') =~= fields[0] + seq!['\t']
            + fields[1] + seq!['\t'] + fields[2]);
        assert(join(fields, '\t') =~= fields[0] + seq!['\t'] + fields[1] + seq!['\t'] + fields[2]
            + seq!['\t'] + fields[3]);
        assert(line@ =~= render_line((identifier@, entry@)));
    }
    let chars = to_chars(line.as_str());
    append_chars(out, &chars);
    append_chars(out, &end);
    assert(out@ =~= old(out)@ + render_line((identifier@, entry@)) + seq!['\n']);
}

fn read_line(line: &Vec<char>) -> (record: Option<(String, CacheEntry)>)
    ensures
        match record {
            Some((identifier, entry)) => parse_line(line@) == Some((identifier@, entry@)),
            None => parse_line(line@) is None,
        },
{
    let fields = split_chars(line, '\t');
    if fields.len() != 4 {
        return None;
    }
    assert(rows(fields@)[0] == fields@[0]@);
    assert(rows(fields@)[1] == fields@[1]@);
    assert(rows(fields@)[2] == fields@[2]@);
    assert(rows(fields@)[3] == fields@[3]@);
    let retry_count = match read_decimal(&fields[1]) {
        Some(n) => n,
        None => {
            return None;
        },
    };
    let identifier = match read_escaped(&fields[2]) {
        Some(s) => s,
        None => {
            return None;
        },
    };
    let detail = match read_escaped(&fields[3]) {
        Some(s) => s,
        None => {
            return None;
        },
    };
    if fields[0].len() != 1 {
        return None;
    }
    let letter = fields[0][0];
    let outcome = if letter == 'S' {
        ActionOutcome::Success(detail)
    } else if letter == 'F' {
        ActionOutcome::Failure(FailureKind::Permanent, detail)
    } else if letter == 'R' {
        ActionOutcome::Failure(FailureKind::RetriesExhausted, detail)
    } else {
        return None;
    };
    Some((identifier, CacheEntry { outcome, retry_count }))
}

impl ProgressCache {
    /// The stored form of the cache: a line for each identifier, in order.
    pub fn to_text(&self) -> (text: String)
        requires
            self.wf(),
        ensures
            text@ == render(self.records()),
    {
        let mut text = String::new();
        let n = self.len();
        let mut i: usize = 0;
        let ghost lines = render_lines(self.records());
        assert(text@ =~= terminated(lines.take(0), '\n'));
        while i < n
            invariant
                self.wf(),
                i <= n,
                n == self.identifiers().len(),
                lines == render_lines(self.records()),
                text@ == terminated(lines.take(i as int), '\n'),
            decreases n - i,
        {
            proof {
                self.lemma_contents();
                assert(lines.take(i + 1).drop_last() =~= lines.take(i as int));
                assert(lines.take(i + 1).last() == lines[i as int]);
            }
            append_line(&mut text, self.identifier_at(i), self.entry_at(i));
            i = i + 1;
        }
        assert(lines.take(n as int) =~= lines);
        text
    }

    /// Reads a cache back from its stored form. Fails with `CacheCorrupt`
    /// exactly if `text` is no stored form: a line is not ended, or does not
    /// stand for a record.
    pub fn from_text(text: &str) -> (read: Result<ProgressCache, RunError>)
        ensures
            match read {
                Ok(cache) => {
                    &&& parse(text@) is Some
                    &&& cache.wf()
                    &&& cache@ == replay(parse(text@)->Some_0)
                    &&& cache.identifiers() == first_ids(parse(text@)->Some_0)
                },
                Err(e) => e == RunError::CacheCorrupt && parse(text@) is None,
            },
    {
        let chars = to_chars(text);
        let lines = split_chars(&chars, '\n');
        let n = lines.len();
        let ghost texts = rows(lines@);
        assert(texts.last() == lines@[n - 1]@);
        if lines[n - 1].len() != 0 {
            return Err(RunError::CacheCorrupt);
        }
        let mut cache = ProgressCache::new();
        let mut i: usize = 0;
        assert(replay(parsed(texts, 0)) =~= cache@);
        assert(first_ids(parsed(texts, 0)) =~= cache.identifiers());
        while i < n - 1
            invariant
                n == lines.len(),
                n >= 1,
                i <= n - 1,
                texts == rows(lines@),
                texts == split(text@, '\n'),
                cache.wf(),
                forall|j: int| 0 <= j < i ==> parse_line(#[trigger] texts[j]) is Some,
                cache@ == replay(parsed(texts, i as int)),
                cache.identifiers() == first_ids(parsed(texts, i as int)),
            decreases n - 1 - i,
        {
            assert(texts[i as int] == lines@[i as int]@);
            proof {
                lemma_replay_next(texts, i as int);
                cache.lemma_contents();
            }
            match read_line(&lines[i]) {
                Some((identifier, entry)) => {
                    cache.record(identifier, entry);
                },
                None => {
                    return Err(RunError::CacheCorrupt);
                },
            }
            i = i + 1;
        }
        Ok(cache)
    }
}

/// Incremental storing. A stored form with the line of one more record
/// behind it is the stored form of the longer series, and reads back as the
/// cache of the shorter one with that record put in.
pub proof fn lemma_appended_line(records: Seq<Record>, record: Record)
    requires
        forall|i: int| 0 <= i < records.len() ==> (#[trigger] records[i]).1.retry_count <= 255,
        record.1.retry_count <= 255,
    ensures
        render(records.push(record)) == render(records) + render_line(record) + seq!['\n'],
        parse(render(records) + render_line(record) + seq!['\n']) == Some(records.push(record)),
        replay(records.push(record)) == replay(records).insert(record.0, record.1),
{
    let longer = records.push(record);
    assert(render_lines(longer).drop_last() =~= render_lines(records));
    assert(longer.drop_last() =~= records);
    lemma_parse_render(longer);
}

/// A cache that was stored reads back as itself: the same entries for the
/// same identifiers, in the same order.
pub proof fn lemma_stored_cache_reads_back(cache: ProgressCache)
    requires
        cache.wf(),
    ensures
        parse(render(cache.records())) == Some(cache.records()),
        replay(cache.records()) == cache@,
        first_ids(cache.records()) == cache.identifiers(),
{
    cache.lemma_contents();
    cache.lemma_entries_bounded();
    lemma_parse_render(cache.records());
    lemma_replay_records(cache.identifiers(), cache.entries());
    assert(replay(cache.records()) =~= cache@);
}

} // verus!
