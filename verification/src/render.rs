//! The text of records and answers, as it is shown on a line.

use vstd::prelude::*;
use vstd::string::*;
use crate::parser::decimal;
use crate::query::{QueryError, QueryResult};
use crate::todo_list::{records_in, tag_texts, word_texts, Index, Record, Tag, TodoItem, Word};

verus! {

/// The digit for a number below ten.
pub open spec fn digit_char(d: nat) -> char {
    if d == 0 {
        '0'
    } else if d == 1 {
        '1'
    } else if d == 2 {
        '2'
    } else if d == 3 {
        '3'
    } else if d == 4 {
        '4'
    } else if d == 5 {
        '5'
    } else if d == 6 {
        '6'
    } else if d == 7 {
        '7'
    } else if d == 8 {
        '8'
    } else {
        '9'
    }
}

/// A number in decimal digits, without leading zeros.
pub open spec fn digits_of(n: nat) -> Seq<char>
    decreases n,
{
    if n < 10 {
        seq![digit_char(n)]
    } else {
        digits_of(n / 10).push(digit_char(n % 10))
    }
}

/// The strings, each after `prefix`, with one space between them.
pub open spec fn joined(texts: Seq<Seq<char>>, prefix: Seq<char>) -> Seq<char>
    decreases texts.len(),
{
    if texts.len() == 0 {
        Seq::empty()
    } else if texts.len() == 1 {
        prefix + texts[0]
    } else {
        joined(texts.drop_last(), prefix) + seq![' '] + prefix + texts.last()
    }
}

/// The line for a record: its index, its words between quotes, its tags.
pub open spec fn record_text(record: Record) -> Seq<char> {
    digits_of(record.index as nat) + seq![' ', '"'] + joined(record.words, Seq::empty()) + seq!['"', ' ']
        + joined(record.tags, seq!['#'])
}

/// The lines for the records that a search found, each after a line break.
pub open spec fn found_lines(records: Seq<Record>) -> Seq<char>
    decreases records.len(),
{
    if records.len() == 0 {
        Seq::empty()
    } else {
        found_lines(records.drop_last()) + seq!['\n'] + record_text(records.last())
    }
}

/// The digits of a number write that number.
pub proof fn lemma_digits_decimal(n: nat)
    ensures
        decimal(digits_of(n)) == n,
    decreases n,
{
    let digits = digits_of(n);
    if n < 10 {
        assert(digits.drop_last() =~= Seq::<char>::empty());
        assert(digits.last() == digit_char(n));
        assert(decimal(digits.drop_last()) == 0);
    } else {
        lemma_digits_decimal(n / 10);
        assert(digits.drop_last() =~= digits_of(n / 10));
        assert(digits.last() == digit_char(n % 10));
    }
}

/// The digit for a number below ten, as a string.
fn digit_text(d: u64) -> (text: &'static str)
    requires
        d < 10,
    ensures
        text@ == seq![digit_char(d as nat)],
{
    proof {
        reveal_strlit("0");
        reveal_strlit("1");
        reveal_strlit("2");
        reveal_strlit("3");
        reveal_strlit("4");
        reveal_strlit("5");
        reveal_strlit("6");
        reveal_strlit("7");
        reveal_strlit("8");
        reveal_strlit("9");
    }
    let text = if d == 0 {
        "0"
    } else if d == 1 {
        "1"
    } else if d == 2 {
        "2"
    } else if d == 3 {
        "3"
    } else if d == 4 {
        "4"
    } else if d == 5 {
        "5"
    } else if d == 6 {
        "6"
    } else if d == 7 {
        "7"
    } else if d == 8 {
        "8"
    } else {
        "9"
    };
    assert(text@ =~= seq![digit_char(d as nat)]);
    text
}

/// Appends a space to `out`.
fn append_space(out: &mut String)
    ensures
        final(out)@ == old(out)@.push(' '),
{
    proof {
        reveal_strlit(" ");
    }
    out.append(" ");
    assert(out@ =~= old(out)@.push(' '));
}

/// Appends a `#` to `out`.
fn append_hash(out: &mut String)
    ensures
        final(out)@ == old(out)@.push('#'),
{
    proof {
        reveal_strlit("#");
    }
    out.append("#");
    assert(out@ =~= old(out)@.push('#'));
}

/// Appends a quote to `out`.
fn append_quote(out: &mut String)
    ensures
        final(out)@ == old(out)@.push('"'),
{
    proof {
        reveal_strlit("\"");
    }
    out.append("\"");
    assert(out@ =~= old(out)@.push('"'));
}

/// Appends a line break to `out`.
fn append_line_break(out: &mut String)
    ensures
        final(out)@ == old(out)@.push('\n'),
{
    proof {
        reveal_strlit("\n");
    }
    out.append("\n");
    assert(out@ =~= old(out)@.push('\n'));
}

/// Appends the decimal digits of `n` to `out`.
fn append_number(out: &mut String, n: u64)
    ensures
        final(out)@ == old(out)@ + digits_of(n as nat),
    decreases n,
{
    if n >= 10 {
        append_number(out, n / 10);
    }
    out.append(digit_text(n % 10));
    assert(out@ =~= old(out)@ + digits_of(n as nat));
}

/// Appends the words to `out`, with one space between them.
fn append_words(out: &mut String, words: &Vec<Word>)
    ensures
        final(out)@ == old(out)@ + joined(word_texts(words@), Seq::empty()),
{
    let ghost texts = word_texts(words@);
    let ghost none = Seq::<char>::empty();
    let mut k: usize = 0;
    proof {
        assert(texts.take(0) =~= Seq::<Seq<char>>::empty());
        assert(out@ =~= old(out)@ + joined(texts.take(0), none));
    }
    while k < words.len()
        invariant
            0 <= k <= words.len(),
            texts == word_texts(words@),
            none == Seq::<char>::empty(),
            out@ == old(out)@ + joined(texts.take(k as int), none),
        decreases words.len() - k,
    {
        if k > 0 {
            append_space(out);
        }
        out.append(words[k].value());
        proof {
            let more = texts.take(k + 1);
            assert(more.drop_last() =~= texts.take(k as int));
            assert(more.last() == words@[k as int]@);
            if k > 0 {
                assert(out@ =~= old(out)@ + (joined(texts.take(k as int), none) + seq![' '] + none
                    + more.last()));
            } else {
                assert(more[0] == more.last());
                assert(joined(texts.take(0), none) =~= none);
                assert(out@ =~= old(out)@ + (none + more[0]));
            }
        }
        k += 1;
    }
    proof {
        assert(texts.take(words@.len() as int) =~= texts);
    }
}

/// Appends the tags to `out`, each after a `#`, with one space between them.
fn append_tags(out: &mut String, tags: &Vec<Tag>)
    ensures
        final(out)@ == old(out)@ + joined(tag_texts(tags@), seq!['#']),
{
    let ghost texts = tag_texts(tags@);
    let ghost hash = seq!['#'];
    let mut k: usize = 0;
    proof {
        assert(texts.take(0) =~= Seq::<Seq<char>>::empty());
        assert(out@ =~= old(out)@ + joined(texts.take(0), hash));
    }
    while k < tags.len()
        invariant
            0 <= k <= tags.len(),
            texts == tag_texts(tags@),
            hash == seq!['#'],
            out@ == old(out)@ + joined(texts.take(k as int), hash),
        decreases tags.len() - k,
    {
        if k > 0 {
            append_space(out);
        }
        append_hash(out);
        out.append(tags[k].value());
        proof {
            let more = texts.take(k + 1);
            assert(more.drop_last() =~= texts.take(k as int));
            assert(more.last() == tags@[k as int]@);
            if k > 0 {
                assert(out@ =~= old(out)@ + (joined(texts.take(k as int), hash) + seq![' '] + hash
                    + more.last()));
            } else {
                assert(more[0] == more.last());
                assert(joined(texts.take(0), hash) =~= Seq::<char>::empty());
                assert(out@ =~= old(out)@ + (hash + more[0]));
            }
        }
        k += 1;
    }
    proof {
        assert(texts.take(tags@.len() as int) =~= texts);
    }
}

/// Appends the line for `item` to `out`.
fn append_item(out: &mut String, item: &TodoItem)
    ensures
        final(out)@ == old(out)@ + record_text(item@),
{
    append_number(out, item.index.value());
    append_space(out);
    append_quote(out);
    append_words(out, &item.description);
    append_quote(out);
    append_space(out);
    append_tags(out, &item.tags);
    proof {
        assert(out@ =~= old(out)@ + record_text(item@));
    }
}

impl Index {
    /// The index in decimal digits.
    pub fn to_text(&self) -> (text: String)
        ensures
            text@ == digits_of(self.value() as nat),
    {
        let mut text = String::new();
        append_number(&mut text, self.value());
        assert(text@ =~= digits_of(self.value() as nat));
        text
    }
}

impl Word {
    /// The word.
    pub fn to_text(&self) -> (text: String)
        ensures
            text@ == self@,
    {
        self.value().to_owned()
    }
}

impl Tag {
    /// The tag after a `#`.
    pub fn to_text(&self) -> (text: String)
        ensures
            text@ == seq!['#'] + self@,
    {
        let mut text = String::new();
        append_hash(&mut text);
        text.append(self.value());
        assert(text@ =~= seq!['#'] + self@);
        text
    }
}

impl TodoItem {
    /// The line for the record: its index, its words between quotes, its
    /// tags.
    pub fn to_text(&self) -> (text: String)
        ensures
            text@ == record_text(self@),
    {
        let mut text = String::new();
        append_item(&mut text, self);
        assert(text@ =~= record_text(self@));
        text
    }
}

/// What is shown for an answer.
pub open spec fn result_text(result: QueryResult) -> Seq<char> {
    match result {
        QueryResult::Added(item) => digits_of(item@.index as nat),
        QueryResult::Done => "done"@,
        QueryResult::Found(items) => digits_of(items@.len()) + " item(s) found"@ + found_lines(
            records_in(items@),
        ),
    }
}

impl QueryResult {
    /// What is shown for the answer: the index of the record that was added,
    /// `done`, or the number of records found and a line for each.
    pub fn to_text(&self) -> (text: String)
        ensures
            text@ == result_text(*self),
    {
        match self {
            QueryResult::Added(item) => item.index.to_text(),
            QueryResult::Done => "done".to_owned(),
            QueryResult::Found(items) => {
                let mut text = String::new();
                append_number(&mut text, items.len() as u64);
                text.append(" item(s) found");
                let ghost head = text@;
                let ghost records = records_in(items@);
                let mut k: usize = 0;
                proof {
                    assert(records.take(0) =~= Seq::<Record>::empty());
                    assert(text@ =~= head + found_lines(records.take(0)));
                }
                while k < items.len()
                    invariant
                        0 <= k <= items.len(),
                        records == records_in(items@),
                        text@ == head + found_lines(records.take(k as int)),
                    decreases items.len() - k,
                {
                    append_line_break(&mut text);
                    append_item(&mut text, &items[k]);
                    proof {
                        let more = records.take(k + 1);
                        assert(more.drop_last() =~= records.take(k as int));
                        assert(more.last() == items@[k as int]@);
                        assert(text@ =~= head + found_lines(more));
                    }
                    k += 1;
                }
                proof {
                    assert(records.take(items@.len() as int) =~= records);
                    assert(head =~= digits_of(items@.len()) + " item(s) found"@);
                }
                text
            },
        }
    }
}

impl QueryError {
    /// What is shown for the error.
    pub fn to_text(&self) -> (text: String)
        ensures
            text@ == "An error occurred while processing the query: "@ + self.0@ + "."@,
    {
        let mut text = "An error occurred while processing the query: ".to_owned();
        text.append(self.0.as_str());
        text.append(".");
        text
    }
}

} // verus!
