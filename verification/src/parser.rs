//! Reading one command from a line of text.
//!
//! A line is one of
//!
//! - `add "<word> <word> ..." #<tag> #<tag> ...`, where the tags may be
//!   missing,
//! - `done <index>`,
//! - `search <term> <term> ...`, where a term is `<word>` or `#<word>`.
//!
//! A word is made of lower-case letters and dashes and has at least one
//! character. After the command comes one blank, a space or a tab; the items
//! of a list are separated by one space each. What follows the command on
//! the line is not read, and is handed back.

use vstd::prelude::*;
use vstd::string::*;
use crate::query::{Query, SearchParams};
use crate::subsequence::chars_of;
use crate::todo_list::{tag_texts, word_texts, Index, SearchWordOrTag, Tag, Word};

verus! {

/// Why a line was not read as a command.
#[derive(Debug, Clone, Copy, PartialEq, Eq, Structural)]
pub enum ParseError {
    /// The line is none of the three commands.
    Malformed,
    /// The index of a `done` command is greater than any index can be.
    IndexTooLarge,
}

/// A lower-case letter or a dash.
pub open spec fn is_word_char(c: char) -> bool {
    ('a' <= c && c <= 'z') || c == '-'
}

/// A space or a tab.
pub open spec fn is_blank(c: char) -> bool {
    c == ' ' || c == '\t'
}

/// A decimal digit.
pub open spec fn is_digit(c: char) -> bool {
    '0' <= c && c <= '9'
}

/// How many word characters stand in `s` from place `i` on.
pub open spec fn word_run(s: Seq<char>, i: int) -> int
    decreases s.len() - i,
{
    if 0 <= i < s.len() && is_word_char(s[i]) {
        1 + word_run(s, i + 1)
    } else {
        0
    }
}

/// How many digits stand in `s` from place `i` on.
pub open spec fn digit_run(s: Seq<char>, i: int) -> int
    decreases s.len() - i,
{
    if 0 <= i < s.len() && is_digit(s[i]) {
        1 + digit_run(s, i + 1)
    } else {
        0
    }
}

/// The number that a string of digits writes.
pub open spec fn decimal(digits: Seq<char>) -> nat
    decreases digits.len(),
{
    if digits.len() == 0 {
        0
    } else {
        decimal(digits.drop_last()) * 10 + (digits.last() as u32 - '0' as u32) as nat
    }
}

/// `lit` stands in `s` at place `i`.
pub open spec fn stands_at(s: Seq<char>, i: int, lit: Seq<char>) -> bool {
    0 <= i && i + lit.len() <= s.len() && s.subrange(i, i + lit.len()) == lit
}

/// Which items a list takes.
#[derive(Debug, Clone, Copy, PartialEq, Eq, Structural)]
pub enum Items {
    /// Words only.
    Words,
    /// Tags only: each a `#` and a word.
    Tags,
    /// Words and tags.
    Terms,
}

/// Where the item that starts at place `i` ends, if one of the kind starts
/// there.
pub open spec fn item_end(s: Seq<char>, i: int, items: Items) -> Option<int> {
    if 0 <= i < s.len() && s[i] == '#' {
        if items != Items::Words && word_run(s, i + 1) > 0 {
            Some(i + 1 + word_run(s, i + 1))
        } else {
            None
        }
    } else if items != Items::Tags && word_run(s, i) > 0 {
        Some(i + word_run(s, i))
    } else {
        None
    }
}

/// The item that starts at place `i` and ends at `end`: whether it is a tag,
/// and its word.
pub open spec fn item_at(s: Seq<char>, i: int, end: int) -> (bool, Seq<char>) {
    if s[i] == '#' {
        (true, s.subrange(i + 1, end))
    } else {
        (false, s.subrange(i, end))
    }
}

/// Whether the list goes on after an item that ends at place `j`: with one
/// space and one more item.
pub open spec fn list_goes_on(s: Seq<char>, j: int, items: Items) -> bool {
    0 <= j < s.len() && s[j] == ' ' && item_end(s, j + 1, items).is_some()
}

/// Where the list that starts with the item at place `i` ends.
pub open spec fn list_end(s: Seq<char>, i: int, items: Items) -> int
    decreases s.len() - i,
{
    match item_end(s, i, items) {
        None => i,
        Some(j) => if i < j && list_goes_on(s, j, items) {
            list_end(s, j + 1, items)
        } else {
            j
        },
    }
}

/// The items of the list that starts with the item at place `i`.
pub open spec fn list_items(s: Seq<char>, i: int, items: Items) -> Seq<(bool, Seq<char>)>
    decreases s.len() - i,
{
    match item_end(s, i, items) {
        None => Seq::empty(),
        Some(j) => if i < j && list_goes_on(s, j, items) {
            seq![item_at(s, i, j)] + list_items(s, j + 1, items)
        } else {
            seq![item_at(s, i, j)]
        },
    }
}

/// The words of a list of items.
pub open spec fn item_texts(list: Seq<(bool, Seq<char>)>) -> Seq<Seq<char>> {
    Seq::new(list.len(), |k: int| list[k].1)
}

/// What a command says.
pub enum Command {
    Add(Seq<Seq<char>>, Seq<Seq<char>>),
    Done(nat),
    Search(Seq<(bool, Seq<char>)>),
}

/// The line as an `add` command, with the place where the command ends.
pub open spec fn read_add(s: Seq<char>) -> Option<(Command, int)> {
    if stands_at(s, 0, seq!['a', 'd', 'd']) && 4 < s.len() && is_blank(s[3]) && s[4] == '"' && item_end(
        s,
        5,
        Items::Words,
    ).is_some() {
        let close = list_end(s, 5, Items::Words);
        if close < s.len() && s[close] == '"' {
            let words = item_texts(list_items(s, 5, Items::Words));
            if close + 1 < s.len() && is_blank(s[close + 1]) && item_end(s, close + 2, Items::Tags).is_some() {
                Some(
                    (
                        Command::Add(words, item_texts(list_items(s, close + 2, Items::Tags))),
                        list_end(s, close + 2, Items::Tags),
                    ),
                )
            } else {
                Some((Command::Add(words, Seq::empty()), close + 1))
            }
        } else {
            None
        }
    } else {
        None
    }
}

/// The line as a `done` command, with the place where the command ends.
pub open spec fn read_done(s: Seq<char>) -> Option<(Command, int)> {
    if stands_at(s, 0, seq!['d', 'o', 'n', 'e']) && 4 < s.len() && is_blank(s[4]) && digit_run(s, 5) > 0 {
        Some((Command::Done(decimal(s.subrange(5, 5 + digit_run(s, 5)))), 5 + digit_run(s, 5)))
    } else {
        None
    }
}

/// The line as a `search` command, with the place where the command ends.
pub open spec fn read_search(s: Seq<char>) -> Option<(Command, int)> {
    if stands_at(s, 0, seq!['s', 'e', 'a', 'r', 'c', 'h']) && 6 < s.len() && is_blank(s[6]) && item_end(
        s,
        7,
        Items::Terms,
    ).is_some() {
        Some((Command::Search(list_items(s, 7, Items::Terms)), list_end(s, 7, Items::Terms)))
    } else {
        None
    }
}

/// The line as a command, with the place where the command ends.
pub open spec fn read(s: Seq<char>) -> Option<(Command, int)> {
    if read_add(s).is_some() {
        read_add(s)
    } else if read_done(s).is_some() {
        read_done(s)
    } else {
        read_search(s)
    }
}

/// A term of a search as an item: whether it is a tag, and its word.
pub open spec fn term_item(term: SearchWordOrTag) -> (bool, Seq<char>) {
    match term {
        SearchWordOrTag::RawWord(w) => (false, w@),
        SearchWordOrTag::RawTag(t) => (true, t@),
    }
}

/// What a query says.
pub open spec fn command_of(q: Query) -> Command {
    match q {
        Query::Add(words, tags) => Command::Add(word_texts(words@), tag_texts(tags@)),
        Query::Done(idx) => Command::Done(idx.value() as nat),
        Query::Search(sp) => Command::Search(Seq::new(sp.params@.len(), |k: int| term_item(sp.params@[k]))),
    }
}

/// The word characters end where `word_run` says, and not before.
pub proof fn lemma_word_run(s: Seq<char>, i: int, j: int)
    requires
        0 <= i <= j <= s.len(),
        forall|k: int| i <= k < j ==> is_word_char(#[trigger] s[k]),
        j == s.len() || !is_word_char(s[j]),
    ensures
        word_run(s, i) == j - i,
    decreases j - i,
{
    if i < j {
        lemma_word_run(s, i + 1, j);
    }
}

/// The digits end where `digit_run` says, and not before.
pub proof fn lemma_digit_run(s: Seq<char>, i: int, j: int)
    requires
        0 <= i <= j <= s.len(),
        forall|k: int| i <= k < j ==> is_digit(#[trigger] s[k]),
        j == s.len() || !is_digit(s[j]),
    ensures
        digit_run(s, i) == j - i,
    decreases j - i,
{
    if i < j {
        lemma_digit_run(s, i + 1, j);
    }
}

fn is_word_character(c: char) -> (b: bool)
    ensures
        b == is_word_char(c),
{
    (c >= 'a' && c <= 'z') || c == '-'
}

/// The place where the word characters from place `i` on end.
fn skip_word(chars: &Vec<char>, i: usize) -> (j: usize)
    requires
        i <= chars.len(),
    ensures
        j == i + word_run(chars@, i as int),
        i <= j <= chars.len(),
{
    let mut j: usize = i;
    while j < chars.len() && is_word_character(chars[j])
        invariant
            i <= j <= chars.len(),
            forall|k: int| i <= k < j ==> is_word_char(#[trigger] chars@[k]),
        decreases chars.len() - j,
    {
        j += 1;
    }
    proof {
        lemma_word_run(chars@, i as int, j as int);
    }
    j
}

/// The place where the item that starts at place `i` ends, if one of the
/// kind starts there.
fn skip_item(chars: &Vec<char>, i: usize, items: Items) -> (end: Option<usize>)
    requires
        i <= chars.len(),
    ensures
        match end {
            Some(j) => item_end(chars@, i as int, items) == Some(j as int) && i < j <= chars.len(),
            None => item_end(chars@, i as int, items).is_none(),
        },
{
    if i < chars.len() && chars[i] == '#' {
        if items == Items::Words {
            return None;
        }
        let j = skip_word(chars, i + 1);
        if j > i + 1 {
            Some(j)
        } else {
            None
        }
    } else {
        if items == Items::Tags {
            return None;
        }
        let j = skip_word(chars, i);
        if j > i {
            Some(j)
        } else {
            None
        }
    }
}

/// What the slices of a list of items say.
pub open spec fn slices_view(list: Seq<(bool, &str)>) -> Seq<(bool, Seq<char>)> {
    Seq::new(list.len(), |k: int| (list[k].0, list[k].1@))
}

/// The items of the list whose first item stands from place `start` to
/// place `first_end`, as slices of `input`, and the place where the list
/// ends.
fn read_list<'a>(
    input: &'a str,
    chars: &Vec<char>,
    start: usize,
    first_end: usize,
    items: Items,
) -> (list: (
    Vec<(bool, &'a str)>,
    usize,
))
    requires
        chars@ == input@,
        item_end(chars@, start as int, items) == Some(first_end as int),
        start < first_end <= chars.len(),
    ensures
        slices_view(list.0@) == list_items(chars@, start as int, items),
        list.1 == list_end(chars@, start as int, items),
        start < list.1 <= chars.len(),
        list.0@.len() > 0,
{
    let ghost s = chars@;
    let mut found: Vec<(bool, &str)> = Vec::new();
    let mut cur: usize = start;
    let mut end: usize = first_end;
    let mut more: bool = true;
    proof {
        assert(slices_view(found@) =~= Seq::<(bool, Seq<char>)>::empty());
        assert(Seq::<(bool, Seq<char>)>::empty() + list_items(s, cur as int, items) =~= list_items(
            s,
            cur as int,
            items,
        ));
    }
    while more
        invariant
            s == chars@,
            chars@ == input@,
            start <= cur,
            more ==> cur < end <= chars.len(),
            more ==> item_end(s, cur as int, items) == Some(end as int),
            more ==> list_items(s, start as int, items) == slices_view(found@) + list_items(
                s,
                cur as int,
                items,
            ),
            more ==> list_end(s, start as int, items) == list_end(s, cur as int, items),
            !more ==> list_items(s, start as int, items) == slices_view(found@),
            !more ==> list_end(s, start as int, items) == end,
            !more ==> start < end <= chars.len(),
            !more ==> found@.len() > 0,
        decreases chars.len() - cur + (if more { 1int } else { 0int }),
    {
        let ghost before = slices_view(found@);
        let tagged = chars[cur] == '#';
        let text = if tagged {
            input.substring_char(cur + 1, end)
        } else {
            input.substring_char(cur, end)
        };
        found.push((tagged, text));
        proof {
            assert(slices_view(found@) =~= before.push(item_at(s, cur as int, end as int)));
        }
        let next = if end < chars.len() && chars[end] == ' ' {
            skip_item(chars, end + 1, items)
        } else {
            None
        };
        match next {
            Some(next_end) => {
                proof {
                    assert(list_goes_on(s, end as int, items));
                    assert(before + (seq![item_at(s, cur as int, end as int)] + list_items(
                        s,
                        end + 1,
                        items,
                    )) =~= before.push(item_at(s, cur as int, end as int)) + list_items(s, end + 1, items));
                }
                cur = end + 1;
                end = next_end;
            },
            None => {
                proof {
                    assert(!list_goes_on(s, end as int, items));
                    assert(before + seq![item_at(s, cur as int, end as int)] =~= before.push(
                        item_at(s, cur as int, end as int),
                    ));
                }
                more = false;
            },
        }
    }
    (found, end)
}

/// Appending a digit to a string of digits does not make its number less.
pub proof fn lemma_decimal_grows(digits: Seq<char>, k: int)
    requires
        0 <= k <= digits.len(),
    ensures
        decimal(digits.take(k)) <= decimal(digits),
    decreases digits.len(),
{
    if k == digits.len() {
        assert(digits.take(k) =~= digits);
    } else {
        assert(digits.drop_last().take(k) =~= digits.take(k));
        lemma_decimal_grows(digits.drop_last(), k);
    }
}

/// The number that the digits from place `from` to place `to` write, unless
/// it is greater than `u64::MAX`.
fn read_number(chars: &Vec<char>, from: usize, to: usize) -> (number: Option<u64>)
    requires
        from <= to <= chars.len(),
        forall|k: int| from <= k < to ==> is_digit(#[trigger] chars@[k]),
    ensures
        match number {
            Some(v) => v == decimal(chars@.subrange(from as int, to as int)),
            None => decimal(chars@.subrange(from as int, to as int)) > u64::MAX,
        },
{
    let ghost digits = chars@.subrange(from as int, to as int);
    let mut acc: u64 = 0;
    let mut k: usize = from;
    proof {
        assert(digits.take(0) =~= Seq::<char>::empty());
    }
    while k < to
        invariant
            from <= k <= to <= chars.len(),
            digits == chars@.subrange(from as int, to as int),
            forall|j: int| from <= j < to ==> is_digit(#[trigger] chars@[j]),
            acc == decimal(digits.take(k - from)),
        decreases to - k,
    {
        let c = chars[k];
        assert(is_digit(chars@[k as int]));
        let d: u64 = (c as u32 - '0' as u32) as u64;
        proof {
            let more = digits.take(k - from + 1);
            assert(more.drop_last() =~= digits.take(k - from));
            assert(more.last() == c);
            assert(decimal(more) == acc * 10 + d);
            lemma_decimal_grows(digits, k - from + 1);
        }
        if acc > (u64::MAX - d) / 10 {
            return None;
        }
        acc = acc * 10 + d;
        k += 1;
    }
    proof {
        assert(digits.take(to - from) =~= digits);
    }
    Some(acc)
}

/// The place where the digits from place `i` on end.
fn skip_digits(chars: &Vec<char>, i: usize) -> (j: usize)
    requires
        i <= chars.len(),
    ensures
        j == i + digit_run(chars@, i as int),
        i <= j <= chars.len(),
        forall|k: int| i <= k < j ==> is_digit(#[trigger] chars@[k]),
{
    let mut j: usize = i;
    while j < chars.len() && chars[j] >= '0' && chars[j] <= '9'
        invariant
            i <= j <= chars.len(),
            forall|k: int| i <= k < j ==> is_digit(#[trigger] chars@[k]),
        decreases chars.len() - j,
    {
        j += 1;
    }
    proof {
        lemma_digit_run(chars@, i as int, j as int);
    }
    j
}

/// Words for the items of a list.
fn to_words(list: &Vec<(bool, &str)>) -> (words: Vec<Word>)
    ensures
        word_texts(words@) == item_texts(slices_view(list@)),
{
    let mut words: Vec<Word> = Vec::new();
    let mut k: usize = 0;
    while k < list.len()
        invariant
            0 <= k <= list.len(),
            words@.len() == k,
            forall|j: int| 0 <= j < k ==> (#[trigger] words@[j])@ == list@[j].1@,
        decreases list.len() - k,
    {
        words.push(Word::new(list[k].1));
        k += 1;
    }
    assert(word_texts(words@) =~= item_texts(slices_view(list@)));
    words
}

/// Tags for the items of a list.
fn to_tags(list: &Vec<(bool, &str)>) -> (tags: Vec<Tag>)
    ensures
        tag_texts(tags@) == item_texts(slices_view(list@)),
{
    let mut tags: Vec<Tag> = Vec::new();
    let mut k: usize = 0;
    while k < list.len()
        invariant
            0 <= k <= list.len(),
            tags@.len() == k,
            forall|j: int| 0 <= j < k ==> (#[trigger] tags@[j])@ == list@[j].1@,
        decreases list.len() - k,
    {
        tags.push(Tag::new(list[k].1));
        k += 1;
    }
    assert(tag_texts(tags@) =~= item_texts(slices_view(list@)));
    tags
}

/// Search terms for the items of a list.
fn to_terms(list: &Vec<(bool, &str)>) -> (terms: Vec<SearchWordOrTag>)
    ensures
        Seq::new(terms@.len(), |k: int| term_item(terms@[k])) == slices_view(list@),
{
    let mut terms: Vec<SearchWordOrTag> = Vec::new();
    let mut k: usize = 0;
    while k < list.len()
        invariant
            0 <= k <= list.len(),
            terms@.len() == k,
            forall|j: int| 0 <= j < k ==> term_item(#[trigger] terms@[j]) == (list@[j].0, list@[j].1@),
        decreases list.len() - k,
    {
        let (tagged, text) = list[k];
        if tagged {
            terms.push(SearchWordOrTag::RawTag(text.to_owned()));
        } else {
            terms.push(SearchWordOrTag::RawWord(text.to_owned()));
        }
        k += 1;
    }
    assert(Seq::new(terms@.len(), |k: int| term_item(terms@[k])) =~= slices_view(list@));
    terms
}

fn is_blank_character(c: char) -> (b: bool)
    ensures
        b == is_blank(c),
{
    c == ' ' || c == '\t'
}

/// Reads the line as an `add` command.
fn add<'a>(input: &'a str, chars: &Vec<char>) -> (r: Option<(&'a str, Query)>)
    requires
        chars@ == input@,
    ensures
        match read_add(input@) {
            None => r.is_none(),
            Some((command, end)) => r matches Some((rest, q)) && rest@ == input@.skip(end) && command_of(q)
                == command,
        },
{
    let n = chars.len();
    if !(n > 4 && chars[0] == 'a' && chars[1] == 'd' && chars[2] == 'd' && is_blank_character(chars[3])
        && chars[4] == '"') {
        proof {
            if stands_at(chars@, 0, seq!['a', 'd', 'd']) {
                let part = chars@.subrange(0, 3);
                assert(part[0] == 'a' && part[1] == 'd' && part[2] == 'd');
            }
        }
        return None;
    }
    assert(chars@.subrange(0, 3) =~= seq!['a', 'd', 'd']);
    let first_end = match skip_item(chars, 5, Items::Words) {
        Some(j) => j,
        None => {
            return None;
        },
    };
    let (word_list, close) = read_list(input, chars, 5, first_end, Items::Words);
    if !(close < n && chars[close] == '"') {
        return None;
    }
    let words = to_words(&word_list);
    let tag_start = if close + 1 < n && is_blank_character(chars[close + 1]) {
        skip_item(chars, close + 2, Items::Tags)
    } else {
        None
    };
    match tag_start {
        Some(tag_end) => {
            let (tag_list, end) = read_list(input, chars, close + 2, tag_end, Items::Tags);
            let tags = to_tags(&tag_list);
            let rest = input.substring_char(end, n);
            Some((rest, Query::Add(words, tags)))
        },
        None => {
            let rest = input.substring_char(close + 1, n);
            let tags: Vec<Tag> = Vec::new();
            assert(tag_texts(tags@) =~= Seq::<Seq<char>>::empty());
            Some((rest, Query::Add(words, tags)))
        },
    }
}

/// Reads the line as a `done` command.
fn done<'a>(input: &'a str, chars: &Vec<char>) -> (r: Option<Result<(&'a str, Query), ParseError>>)
    requires
        chars@ == input@,
    ensures
        match read_done(input@) {
            None => r.is_none(),
            Some((command, end)) => r matches Some(answer) && (match command {
                Command::Done(v) => if v > u64::MAX {
                    answer == Err::<(&str, Query), ParseError>(ParseError::IndexTooLarge)
                } else {
                    answer matches Ok((rest, q)) && rest@ == input@.skip(end) && command_of(q) == command
                },
                _ => false,
            }),
        },
{
    let n = chars.len();
    if !(n > 4 && chars[0] == 'd' && chars[1] == 'o' && chars[2] == 'n' && chars[3] == 'e'
        && is_blank_character(chars[4])) {
        proof {
            if stands_at(chars@, 0, seq!['d', 'o', 'n', 'e']) {
                let part = chars@.subrange(0, 4);
                assert(part[0] == 'd' && part[1] == 'o' && part[2] == 'n' && part[3] == 'e');
            }
        }
        return None;
    }
    assert(chars@.subrange(0, 4) =~= seq!['d', 'o', 'n', 'e']);
    let end = skip_digits(chars, 5);
    if end == 5 {
        return None;
    }
    match read_number(chars, 5, end) {
        Some(v) => {
            let rest = input.substring_char(end, n);
            Some(Ok((rest, Query::Done(Index::new(v)))))
        },
        None => Some(Err(ParseError::IndexTooLarge)),
    }
}

/// Reads the line as a `search` command.
fn search<'a>(input: &'a str, chars: &Vec<char>) -> (r: Option<(&'a str, Query)>)
    requires
        chars@ == input@,
    ensures
        match read_search(input@) {
            None => r.is_none(),
            Some((command, end)) => r matches Some((rest, q)) && rest@ == input@.skip(end) && command_of(q)
                == command,
        },
{
    let n = chars.len();
    if !(n > 6 && chars[0] == 's' && chars[1] == 'e' && chars[2] == 'a' && chars[3] == 'r' && chars[4]
        == 'c' && chars[5] == 'h' && is_blank_character(chars[6])) {
        proof {
            if stands_at(chars@, 0, seq!['s', 'e', 'a', 'r', 'c', 'h']) {
                let part = chars@.subrange(0, 6);
                assert(part[0] == 's' && part[1] == 'e' && part[2] == 'a' && part[3] == 'r' && part[4]
                    == 'c' && part[5] == 'h');
            }
        }
        return None;
    }
    assert(chars@.subrange(0, 6) =~= seq!['s', 'e', 'a', 'r', 'c', 'h']);
    let first_end = match skip_item(chars, 7, Items::Terms) {
        Some(j) => j,
        None => {
            return None;
        },
    };
    let (list, end) = read_list(input, chars, 7, first_end, Items::Terms);
    let params = to_terms(&list);
    let rest = input.substring_char(end, n);
    Some((rest, Query::Search(SearchParams { params })))
}

/// Reads one command from the start of `input`, and hands it back with what
/// follows it on the line. A line that is none of the three commands is
/// `Malformed`; a `done` command whose number no index can hold is
/// `IndexTooLarge`.
pub fn query(input: &str) -> (r: Result<(&str, Query), ParseError>)
    ensures
        match read(input@) {
            None => r == Err::<(&str, Query), ParseError>(ParseError::Malformed),
            Some((command, end)) => match command {
                Command::Done(v) if v > u64::MAX => r == Err::<(&str, Query), ParseError>(
                    ParseError::IndexTooLarge,
                ),
                _ => r matches Ok((rest, q)) && rest@ == input@.skip(end) && command_of(q) == command,
            },
        },
{
    let chars = chars_of(input);
    if let Some(found) = self::add(input, &chars) {
        return Ok(found);
    }
    if let Some(answer) = done(input, &chars) {
        return answer;
    }
    match search(input, &chars) {
        Some(found) => Ok(found),
        None => Err(ParseError::Malformed),
    }
}

} // verus!
