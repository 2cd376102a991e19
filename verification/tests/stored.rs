use batch_runner::cache::ProgressCache;
use batch_runner::error::RunError;
use batch_runner::outcome::{ActionOutcome, CacheEntry, FailureKind};
use batch_runner::worklist::identifiers_from_text;
use batch_runner::text::{
    from_chars, read_decimal, read_escaped, split_chars, to_chars, write_decimal, write_escaped,
};

fn chars(s: &str) -> Vec<char> {
    s.chars().collect()
}

fn sample() -> ProgressCache {
    let mut cache = ProgressCache::new();
    cache.record(
        "A".to_string(),
        CacheEntry { outcome: ActionOutcome::Success("sig-a".to_string()), retry_count: 0 },
    );
    cache.record(
        "B\tb".to_string(),
        CacheEntry {
            outcome: ActionOutcome::Failure(
                FailureKind::RetriesExhausted,
                "timed out\nafter 3 \\ tries".to_string(),
            ),
            retry_count: 3,
        },
    );
    cache.record(
        "".to_string(),
        CacheEntry {
            outcome: ActionOutcome::Failure(FailureKind::Permanent, "".to_string()),
            retry_count: 255,
        },
    );
    cache
}

fn same(a: &ProgressCache, b: &ProgressCache) {
    assert_eq!(a.len(), b.len());
    for i in 0..a.len() {
        assert_eq!(a.identifier_at(i), b.identifier_at(i));
        assert_eq!(a.entry_at(i), b.entry_at(i));
    }
}

#[test]
fn stored_form_is_one_line_per_entry() {
    assert_eq!(
        sample().to_text(),
        "S\t0\tA\tsig-a\nR\t3\tB\\tb\ttimed out\\nafter 3 \\\\ tries\nF\t255\t\t\n"
    );
    assert_eq!(ProgressCache::new().to_text(), "");
}

#[test]
fn stored_cache_reads_back() {
    let cache = sample();
    let read = ProgressCache::from_text(&cache.to_text()).unwrap();
    same(&cache, &read);
    let empty = ProgressCache::from_text("").unwrap();
    assert_eq!(empty.len(), 0);
}

#[test]
fn a_later_line_replaces_an_earlier_one() {
    let read = ProgressCache::from_text("F\t1\tA\tno\nS\t0\tB\tb\nS\t12\tA\tyes\n").unwrap();
    assert_eq!(read.len(), 2);
    assert_eq!(read.identifier_at(0), "A");
    assert_eq!(read.identifier_at(1), "B");
    assert_eq!(
        read.get(&"A".to_string()),
        Some(&CacheEntry { outcome: ActionOutcome::Success("yes".to_string()), retry_count: 12 })
    );
}

#[test]
fn corrupt_text_is_refused() {
    for text in [
        "S\t0\tA\tsig",            // line not ended
        "S\t0\tA\tsig\nS\t0\tB",   // last line cut short
        "S\t0\tA\n",               // three fields
        "S\t0\tA\tsig\textra\n",   // five fields
        "\n",                      // empty line
        "S\t0\tA\tsig\n\n",        // empty line at the end
        "Q\t0\tA\tsig\n",          // unknown letter
        "SS\t0\tA\tsig\n",         // two letters
        "\t0\tA\tsig\n",           // no letter
        "S\t\tA\tsig\n",           // no number
        "S\t256\tA\tsig\n",        // number too large
        "S\t0001\tA\tsig\n",       // too many digits
        "S\t-1\tA\tsig\n",         // no digit
        "S\t1a\tA\tsig\n",         // no digit
        "S\t0\tA\\\tsig\n",        // backslash before the end of a field
        "S\t0\tA\tsi\\g\n",        // unknown escape
        "S\t0\tA\tsig\\\n",        // backslash at the end
        "hello",
    ] {
        assert_eq!(ProgressCache::from_text(text).err(), Some(RunError::CacheCorrupt), "{:?}", text);
    }
}

#[test]
fn numbers_may_have_leading_zeros() {
    let read = ProgressCache::from_text("S\t007\tA\tsig\n").unwrap();
    assert_eq!(read.get(&"A".to_string()).unwrap().retry_count, 7);
    assert_eq!(read.to_text(), "S\t7\tA\tsig\n");
}

#[test]
fn strings_and_characters_convert_both_ways() {
    assert_eq!(to_chars("héllo"), vec!['h', 'é', 'l', 'l', 'o']);
    assert_eq!(to_chars(""), Vec::<char>::new());
    assert_eq!(from_chars(&vec!['a', 'ß', '\n']), "aß\n");
}

#[test]
fn fields_are_split_at_every_separator() {
    let got = split_chars(&chars("a,,bc,"), ',');
    assert_eq!(got, vec![chars("a"), chars(""), chars("bc"), chars("")]);
    assert_eq!(split_chars(&chars(""), ','), vec![chars("")]);
    assert_eq!(split_chars(&chars("abc"), ','), vec![chars("abc")]);
}

#[test]
fn escaping_and_reading_back() {
    let mut out = "x=".to_string();
    write_escaped(&mut out, "a\tb\\c\nd");
    assert_eq!(out, "x=a\\tb\\\\c\\nd");
    assert_eq!(read_escaped(&chars("a\\tb\\\\c\\nd")), Some("a\tb\\c\nd".to_string()));
    assert_eq!(read_escaped(&chars("")), Some(String::new()));
    assert_eq!(read_escaped(&chars("a\\")), None);
    assert_eq!(read_escaped(&chars("a\\x")), None);
}

#[test]
fn decimal_numbers_below_256() {
    for n in 0..=255u8 {
        let mut out = String::new();
        write_decimal(&mut out, n);
        assert_eq!(out, n.to_string());
        assert_eq!(read_decimal(&chars(&out)), Some(n));
    }
    assert_eq!(read_decimal(&chars("")), None);
    assert_eq!(read_decimal(&chars("256")), None);
    assert_eq!(read_decimal(&chars("999")), None);
    assert_eq!(read_decimal(&chars("1234")), None);
    assert_eq!(read_decimal(&chars("1 ")), None);
    assert_eq!(read_decimal(&chars("012")), Some(12));
}

#[test]
fn identifier_list_is_one_per_line() {
    assert_eq!(identifiers_from_text("A\nB\n\nC"), vec!["A", "B", "C"]);
    assert_eq!(identifiers_from_text("A\nB\n"), vec!["A", "B"]);
    assert_eq!(identifiers_from_text(""), Vec::<String>::new());
    assert_eq!(identifiers_from_text("\n\n"), Vec::<String>::new());
    assert_eq!(identifiers_from_text(" A \tx\n"), vec![" A \tx"]);
}

#[test]
fn a_line_appended_to_a_stored_form_records_one_more_entry() {
    let mut text = sample().to_text();
    let entry = CacheEntry { outcome: ActionOutcome::Success("late".to_string()), retry_count: 2 };
    batch_runner::store::append_line(&mut text, &"B\tb".to_string(), &entry);
    assert!(text.ends_with("S\t2\tB\\tb\tlate\n"));
    let mut expected = sample();
    expected.record("B\tb".to_string(), entry);
    same(&expected, &ProgressCache::from_text(&text).unwrap());
}
