//! Commands whose execution time is graphed, and how often they run.

use vstd::prelude::*;
use vstd::string::*;

verus! {

/// Milliseconds between two pings, unless told otherwise.
pub const PING_INTERVAL: u64 = 200;

/// Milliseconds between two runs of a command, unless told otherwise.
pub const COMMAND_INTERVAL: u64 = 500;

/// ASCII whitespace: a space, a tab, a line feed, a form feed or a carriage return.
pub open spec fn is_space(c: char) -> bool {
    c == ' ' || c == '\t' || c == '\n' || c == '\x0C' || c == '\r'
}

/// The words of a line that are followed by whitespace, and what comes after the last whitespace.
pub open spec fn scanned(line: Seq<char>) -> (Seq<Seq<char>>, Seq<char>)
    decreases line.len(),
{
    if line.len() == 0 {
        (Seq::empty(), Seq::empty())
    } else {
        let (done, current) = scanned(line.drop_last());
        if !is_space(line.last()) {
            (done, current.push(line.last()))
        } else if current.len() == 0 {
            (done, current)
        } else {
            (done.push(current), Seq::empty())
        }
    }
}

/// The words of a line: what stands between whitespace.
pub open spec fn words(line: Seq<char>) -> Seq<Seq<char>> {
    let (done, current) = scanned(line);
    if current.len() == 0 {
        done
    } else {
        done.push(current)
    }
}

/// The characters of all words, one after the other.
pub open spec fn letters(words: Seq<Seq<char>>) -> Seq<char>
    decreases words.len(),
{
    if words.len() == 0 {
        Seq::empty()
    } else {
        letters(words.drop_last()) + words.last()
    }
}

fn is_whitespace(c: char) -> (space: bool)
    ensures
        space == is_space(c),
{
    c == ' ' || c == '\t' || c == '\n' || c == '\x0C' || c == '\r'
}

/// The words of a line.
pub fn split_words(line: &str) -> (result: Vec<String>)
    ensures
        result@.map_values(|word: String| word@) == words(line@),
{
    let mut result: Vec<String> = Vec::new();
    let length: usize = line.unicode_len();
    let mut start: usize = 0;
    let mut i: usize = 0;
    assert(result@.map_values(|word: String| word@) =~= Seq::empty());
    assert(line@.subrange(0, 0) =~= Seq::empty());
    while i < length
        invariant
            length == line@.len(),
            start <= i <= length,
            scanned(line@.take(i as int)) == (
                result@.map_values(|word: String| word@),
                line@.subrange(start as int, i as int),
            ),
        decreases length - i,
    {
        let c: char = line.get_char(i);
        let ghost before = result@.map_values(|word: String| word@);
        assert(line@.take(i + 1).drop_last() =~= line@.take(i as int));
        if is_whitespace(c) {
            if start < i {
                let word: String = line.substring_char(start, i).to_owned();
                result.push(word);
                assert(result@.map_values(|word: String| word@) =~= before.push(
                    line@.subrange(start as int, i as int),
                ));
            }
            start = i + 1;
            assert(line@.subrange(start as int, i + 1) =~= Seq::empty());
        } else {
            assert(line@.subrange(start as int, i + 1) =~= line@.subrange(
                start as int,
                i as int,
            ).push(c));
        }
        i = i + 1;
    }
    assert(line@.take(i as int) =~= line@);
    if start < length {
        let ghost before = result@.map_values(|word: String| word@);
        let word: String = line.substring_char(start, length).to_owned();
        result.push(word);
        assert(result@.map_values(|word: String| word@) =~= before.push(
            line@.subrange(start as int, length as int),
        ));
    }
    result
}

/// The program that a command line names and the arguments that it gives it, or nothing if there is
/// no word on the line.
pub fn split_command(line: &str) -> (command: Option<(String, Vec<String>)>)
    ensures
        command is None <==> words(line@).len() == 0,
        command matches Some((program, arguments)) ==> {
            &&& program@ == words(line@)[0]
            &&& arguments@.map_values(|word: String| word@) == words(line@).drop_first()
        },
{
    let mut all: Vec<String> = split_words(line);
    let ghost found = all@;
    assert(found.map_values(|word: String| word@) == words(line@));
    if all.len() == 0 {
        return None;
    }
    let arguments: Vec<String> = all.split_off(1);
    let program: String = all[0].clone();
    assert(words(line@)[0] == found[0]@);
    assert(arguments@.map_values(|word: String| word@) =~= words(line@).drop_first());
    Some((program, arguments))
}

/// Milliseconds between two pings or two runs of a command: as told, or the usual time.
pub fn watch_interval_millis(given: Option<u64>, command: bool) -> (millis: u64)
    ensures
        millis == (match given {
            Some(m) => m,
            None => if command {
                COMMAND_INTERVAL
            } else {
                PING_INTERVAL
            },
        }),
{
    match given {
        Some(m) => m,
        None => if command {
            COMMAND_INTERVAL
        } else {
            PING_INTERVAL
        },
    }
}

proof fn lemma_letters_push(words: Seq<Seq<char>>, word: Seq<char>)
    ensures
        letters(words.push(word)) == letters(words) + word,
{
    assert(words.push(word).drop_last() =~= words);
}

proof fn lemma_scanned(line: Seq<char>)
    ensures
        ({
            let (done, current) = scanned(line);
            &&& forall|i: int| 0 <= i < done.len() ==> (#[trigger] done[i]).len() > 0
            &&& forall|i: int, j: int|
                0 <= i < done.len() && 0 <= j < done[i].len() ==> !is_space(#[trigger] done[i][j])
            &&& forall|j: int| 0 <= j < current.len() ==> !is_space(#[trigger] current[j])
            &&& letters(done) + current == line.filter(|c: char| !is_space(c))
        }),
    decreases line.len(),
{
    reveal(Seq::filter);
    if line.len() > 0 {
        lemma_scanned(line.drop_last());
        let (done, current) = scanned(line.drop_last());
        let kept = line.drop_last().filter(|c: char| !is_space(c));
        if !is_space(line.last()) {
            assert(letters(done) + current.push(line.last()) =~= kept.push(line.last()));
        } else if current.len() > 0 {
            lemma_letters_push(done, current);
            assert(letters(done.push(current)) + Seq::<char>::empty() =~= kept);
        }
    } else {
        assert(letters(Seq::empty()) + Seq::<char>::empty() =~= line.filter(
            |c: char| !is_space(c),
        ));
    }
}

/// Words are never empty and hold no whitespace, and together they hold, in order, everything on the
/// line that is not whitespace.
pub proof fn law_words_hold_the_line(line: Seq<char>)
    ensures
        forall|i: int| 0 <= i < words(line).len() ==> (#[trigger] words(line)[i]).len() > 0,
        forall|i: int, j: int|
            0 <= i < words(line).len() && 0 <= j < words(line)[i].len() ==> !is_space(
                #[trigger] words(line)[i][j],
            ),
        letters(words(line)) == line.filter(|c: char| !is_space(c)),
{
    lemma_scanned(line);
    let (done, current) = scanned(line);
    if current.len() > 0 {
        lemma_letters_push(done, current);
    } else {
        assert(letters(done) + current =~= letters(done));
    }
}

/// What has been scanned before whitespace stays as it is, whatever follows.
proof fn lemma_scanned_after_space(a: Seq<char>, c: char, b: Seq<char>)
    requires
        is_space(c),
    ensures
        scanned(a + seq![c] + b).0 == words(a) + scanned(b).0,
        scanned(a + seq![c] + b).1 == scanned(b).1,
    decreases b.len(),
{
    let line = a + seq![c] + b;
    if b.len() == 0 {
        assert(line.drop_last() =~= a);
        assert(line.last() == c);
        assert(words(a) + Seq::<Seq<char>>::empty() =~= words(a));
        assert(scanned(b).1 =~= scanned(line).1);
    } else {
        assert(line.drop_last() =~= a + seq![c] + b.drop_last());
        assert(line.last() == b.last());
        lemma_scanned_after_space(a, c, b.drop_last());
        let (done, current) = scanned(b.drop_last());
        assert((words(a) + done).push(current) =~= words(a) + done.push(current));
    }
}

/// Whitespace parts a line: its words are those of what stands before it and those of what stands
/// after it.
pub proof fn law_whitespace_parts_words(a: Seq<char>, c: char, b: Seq<char>)
    requires
        is_space(c),
    ensures
        words(a + seq![c] + b) == words(a) + words(b),
{
    lemma_scanned_after_space(a, c, b);
    let (done, current) = scanned(b);
    assert((words(a) + done).push(current) =~= words(a) + done.push(current));
}

/// What holds no whitespace and is not empty is one word.
pub proof fn law_one_word(word: Seq<char>)
    requires
        word.len() > 0,
        forall|i: int| 0 <= i < word.len() ==> !is_space(#[trigger] word[i]),
    ensures
        words(word) == seq![word],
{
    lemma_scanned_word(word);
    assert(Seq::<Seq<char>>::empty().push(word) =~= seq![word]);
}

proof fn lemma_scanned_word(word: Seq<char>)
    requires
        forall|i: int| 0 <= i < word.len() ==> !is_space(#[trigger] word[i]),
    ensures
        scanned(word).0 == Seq::<Seq<char>>::empty(),
        scanned(word).1 == word,
    decreases word.len(),
{
    if word.len() > 0 {
        let rest = word.drop_last();
        assert(forall|i: int| 0 <= i < rest.len() ==> rest[i] == word[i]);
        lemma_scanned_word(rest);
        assert(rest.push(word.last()) =~= word);
    }
}

}
