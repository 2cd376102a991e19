//! Which identifiers of a list a run has to work on, and which it leaves
//! out, given what the progress cache records.

use crate::cache::{is_success, CacheView};
use crate::keyed::texts;
use crate::text::{from_chars, rows, split, split_chars, to_chars};
use vstd::prelude::*;

verus! {

/// The identifiers of `ids` for which `cache` records a success (`done`) or
/// does not (`!done`), each once, in the order of their first occurrence.
pub open spec fn select_ids(ids: Seq<Seq<char>>, cache: CacheView, done: bool) -> Seq<Seq<char>>
    decreases ids.len(),
{
    if ids.len() == 0 {
        Seq::empty()
    } else {
        let rest = select_ids(ids.drop_last(), cache, done);
        let id = ids.last();
        if is_success(cache, id) == done && !rest.contains(id) {
            rest.push(id)
        } else {
            rest
        }
    }
}

/// The identifiers that a run has to work on: those without a recorded
/// success.
pub open spec fn pending_ids(ids: Seq<Seq<char>>, cache: CacheView) -> Seq<Seq<char>> {
    select_ids(ids, cache, false)
}

/// The identifiers that a run leaves out: those with a recorded success.
pub open spec fn skipped_ids(ids: Seq<Seq<char>>, cache: CacheView) -> Seq<Seq<char>> {
    select_ids(ids, cache, true)
}

/// A selection holds an identifier exactly if the list holds it and the cache
/// agrees; it holds none twice.
pub proof fn lemma_select_ids(ids: Seq<Seq<char>>, cache: CacheView, done: bool)
    ensures
        select_ids(ids, cache, done).no_duplicates(),
        select_ids(ids, cache, done).len() <= ids.len(),
        forall|id: Seq<char>| #[trigger]
            select_ids(ids, cache, done).contains(id) <==> ids.contains(id) && is_success(cache, id)
                == done,
    decreases ids.len(),
{
    let s = select_ids(ids, cache, done);
    if ids.len() > 0 {
        let front = ids.drop_last();
        let rest = select_ids(front, cache, done);
        let last = ids.last();
        lemma_select_ids(front, cache, done);
        assert forall|id: Seq<char>| #[trigger]
            s.contains(id) <==> ids.contains(id) && is_success(cache, id) == done by {
            if s.contains(id) {
                let i = s.index_of(id);
                assert(s[i] == id);
                if i < rest.len() {
                    assert(rest[i] == id);
                    assert(rest.contains(id));
                    let j = front.index_of(id);
                    assert(front[j] == id);
                    assert(ids[j] == id);
                } else {
                    assert(id == last);
                    assert(ids[ids.len() - 1] == id);
                }
            }
            if ids.contains(id) && is_success(cache, id) == done {
                let j = ids.index_of(id);
                assert(ids[j] == id);
                if j < front.len() {
                    assert(front[j] == id);
                    assert(front.contains(id));
                    assert(rest.contains(id));
                    let i = rest.index_of(id);
                    assert(rest[i] == id);
                    assert(s[i] == id);
                } else {
                    if rest.contains(id) {
                        let i = rest.index_of(id);
                        assert(rest[i] == id);
                        assert(s[i] == id);
                    } else {
                        assert(s[rest.len() as int] == id);
                    }
                }
            }
        }
    }
}

/// Every identifier of a list is either pending or skipped, never both: the
/// two selections share no identifier, and together they count the distinct
/// identifiers of the list.
pub proof fn lemma_partition(ids: Seq<Seq<char>>, cache: CacheView)
    ensures
        pending_ids(ids, cache).len() + skipped_ids(ids, cache).len() == ids.to_set().len(),
        forall|id: Seq<char>|
            !(#[trigger] pending_ids(ids, cache).contains(id) && skipped_ids(ids, cache).contains(
                id,
            )),
    decreases ids.len(),
{
    broadcast use vstd::set::group_set_axioms;

    lemma_select_ids(ids, cache, false);
    lemma_select_ids(ids, cache, true);
    if ids.len() == 0 {
        assert(ids.to_set() =~= Set::<Seq<char>>::empty());
    } else {
        let front = ids.drop_last();
        let last = ids.last();
        lemma_partition(front, cache);
        lemma_select_ids(front, cache, false);
        lemma_select_ids(front, cache, true);
        vstd::seq_lib::seq_to_set_is_finite(front);
        assert(ids.to_set() =~= front.to_set().insert(last)) by {
            assert forall|id: Seq<char>| ids.to_set().contains(id) <==> front.to_set().insert(
                last,
            ).contains(id) by {
                if ids.contains(id) {
                    let j = ids.index_of(id);
                    assert(ids[j] == id);
                    if j < front.len() {
                        assert(front[j] == id);
                    }
                }
                if front.contains(id) {
                    let j = front.index_of(id);
                    assert(front[j] == id);
                    assert(ids[j] == id);
                }
                if id == last {
                    assert(ids[ids.len() - 1] == id);
                }
            }
        }
        if front.contains(last) {
            assert(front.to_set().contains(last));
            assert(front.to_set().insert(last) =~= front.to_set());
        } else {
            assert(!front.to_set().contains(last));
        }
    }
}

/// The first `n + 1` identifiers select what the first `n` select, and the
/// next identifier if it belongs and is new.
pub proof fn lemma_select_next(ids: Seq<Seq<char>>, cache: CacheView, done: bool, n: int)
    requires
        0 <= n < ids.len(),
    ensures
        ({
            let before = select_ids(ids.take(n), cache, done);
            let id = ids[n];
            select_ids(ids.take(n + 1), cache, done) == if is_success(cache, id) == done
                && !before.contains(id) {
                before.push(id)
            } else {
                before
            }
        }),
{
    assert(ids.take(n + 1).drop_last() =~= ids.take(n));
    assert(ids.take(n + 1).last() == ids[n]);
}

/// The lines that name an identifier: those that are not empty.
pub open spec fn listed(lines: Seq<Seq<char>>) -> Seq<Seq<char>>
    decreases lines.len(),
{
    if lines.len() == 0 {
        Seq::empty()
    } else {
        let rest = listed(lines.drop_last());
        if lines.last().len() == 0 {
            rest
        } else {
            rest.push(lines.last())
        }
    }
}

/// Reads a list of identifiers from a text that holds one identifier on
/// each line. Empty lines name nothing; a last line need not be ended.
pub fn identifiers_from_text(text: &str) -> (identifiers: Vec<String>)
    ensures
        texts(identifiers@) == listed(split(text@, '\n')),
{
    let chars = to_chars(text);
    let lines = split_chars(&chars, '\n');
    let mut identifiers: Vec<String> = Vec::new();
    let mut i: usize = 0;
    assert(texts(identifiers@) =~= listed(rows(lines@).take(0)));
    while i < lines.len()
        invariant
            i <= lines.len(),
            texts(identifiers@) == listed(rows(lines@).take(i as int)),
        decreases lines.len() - i,
    {
        let ghost before = texts(identifiers@);
        proof {
            assert(rows(lines@).take(i + 1).drop_last() =~= rows(lines@).take(i as int));
            assert(rows(lines@).take(i + 1).last() == lines@[i as int]@);
        }
        if lines[i].len() != 0 {
            identifiers.push(from_chars(&lines[i]));
            assert(texts(identifiers@) =~= before.push(lines@[i as int]@));
        }
        i = i + 1;
    }
    assert(rows(lines@).take(lines.len() as int) =~= rows(lines@));
    identifiers
}

} // verus!
