//! Word-aware wrapping of text to the display width, and pagination.
use vstd::prelude::*;
use crate::strings::{
    char_is_whitespace, chars_of, chunks, is_white_space, lemma_chunks, string_from_chars, string_texts,
};

verus! {

/// Whether `line` fits the display according to the width test `fits`:
/// some call of the test on a string with this text answered `true`.
pub open spec fn fits_spec<F: Fn(&str) -> bool>(fits: F, line: Seq<char>) -> bool {
    exists|s: &str| s@ == line && #[trigger] call_ensures(fits, (s,), true)
}

/// `fits` can be called on every string and answers alike for equal text.
pub open spec fn is_width_test<F: Fn(&str) -> bool>(fits: F) -> bool {
    &&& forall|s: &str| #[trigger] call_requires(fits, (s,))
    &&& forall|s1: &str, s2: &str, r1: bool, r2: bool|
        s1@ == s2@ && #[trigger] call_ensures(fits, (s1,), r1) && #[trigger] call_ensures(
            fits,
            (s2,),
            r2,
        ) ==> r1 == r2
}

fn test_fit<F: Fn(&str) -> bool>(fits: &F, line: &[char]) -> (r: bool)
    requires
        is_width_test(*fits),
    ensures
        r == fits_spec(*fits, line@),
{
    let s = string_from_chars(line);
    let text: &str = s.as_str();
    let r = fits(text);
    proof {
        if !r && fits_spec(*fits, line@) {
            let w = choose|w: &str| w@ == line@ && #[trigger] call_ensures(*fits, (w,), true);
            assert(call_ensures(*fits, (text,), r));
        }
    }
    r
}


/// The text of each line.
pub open spec fn texts(lines: Seq<Vec<char>>) -> Seq<Seq<char>> {
    lines.map_values(|l: Vec<char>| l@)
}

/// Lines finished so far and the line being filled.
pub type WrapState = (Seq<Seq<char>>, Seq<char>);

/// One char of an oversized word: it joins the line being filled when the
/// result fits; otherwise that line is finished and the char starts a new
/// one, or stands on a line of its own when even it alone does not fit.
pub open spec fn split_step<F: Fn(&str) -> bool>(fits: F, state: WrapState, c: char) -> WrapState {
    let (chunks, current) = state;
    let candidate = current.push(c);
    if fits_spec(fits, candidate) {
        (chunks, candidate)
    } else {
        let chunks = if current.len() > 0 {
            chunks.push(current)
        } else {
            chunks
        };
        if fits_spec(fits, seq![c]) {
            (chunks, seq![c])
        } else {
            (chunks.push(seq![c]), Seq::empty())
        }
    }
}

/// The state after the chars of `word`, one by one.
pub open spec fn split_state<F: Fn(&str) -> bool>(fits: F, word: Seq<char>) -> WrapState
    decreases word.len(),
{
    if word.len() == 0 {
        (Seq::empty(), Seq::empty())
    } else {
        split_step(fits, split_state(fits, word.drop_last()), word.last())
    }
}

/// Finishes the line being filled, if it holds anything.
pub open spec fn finish(state: WrapState) -> Seq<Seq<char>> {
    if state.1.len() > 0 {
        state.0.push(state.1)
    } else {
        state.0
    }
}

/// An oversized word cut into the longest pieces that fit, from the left.
pub open spec fn spec_split_word<F: Fn(&str) -> bool>(fits: F, word: Seq<char>) -> Seq<Seq<char>> {
    finish(split_state(fits, word))
}

fn copy_chars(v: &Vec<char>) -> (r: Vec<char>)
    ensures
        r@ == v@,
{
    vstd::slice::slice_to_vec(v.as_slice())
}

/// Splits an oversized word into the longest chunks that fit the display
/// width. A glyph wider than the display is kept on its own line rather than
/// discarded.
fn split_word_to_fit<F: Fn(&str) -> bool>(word: &[char], fits: &F) -> (chunks: Vec<Vec<char>>)
    requires
        is_width_test(*fits),
    ensures
        texts(chunks@) == spec_split_word(*fits, word@),
{
    let mut chunks: Vec<Vec<char>> = Vec::new();
    let mut current: Vec<char> = Vec::new();
    let mut i: usize = 0;
    while i < word.len()
        invariant
            is_width_test(*fits),
            i <= word@.len(),
            (texts(chunks@), current@) == split_state(*fits, word@.take(i as int)),
        decreases word@.len() - i,
    {
        let character = word[i];
        proof {
            assert(word@.take(i as int + 1).drop_last() =~= word@.take(i as int));
        }
        let mut candidate = copy_chars(&current);
        candidate.push(character);
        if test_fit(fits, candidate.as_slice()) {
            current = candidate;
        } else {
            if current.len() > 0 {
                let ghost before = chunks@;
                let ghost finished = current@;
                chunks.push(current);
                assert(texts(chunks@) =~= texts(before).push(finished));
            }
            let mut single: Vec<char> = Vec::new();
            single.push(character);
            assert(single@ =~= seq![character]);
            if !test_fit(fits, single.as_slice()) {
                let ghost before = chunks@;
                chunks.push(single);
                assert(texts(chunks@) =~= texts(before).push(seq![character]));
                current = Vec::new();
            } else {
                current = single;
            }
        }
        i += 1;
    }
    assert(word@.take(word@.len() as int) =~= word@);
    if current.len() > 0 {
        let ghost before = chunks@;
        let ghost last = current@;
        chunks.push(current);
        assert(texts(chunks@) =~= texts(before).push(last));
    }
    chunks
}


/// The pieces of `s` between newline chars, as `str::split('\n')` yields
/// them: one more piece than there are newlines.
pub open spec fn split_newlines(s: Seq<char>) -> Seq<Seq<char>>
    decreases s.len(),
{
    if s.len() == 0 {
        seq![Seq::empty()]
    } else {
        let prev = split_newlines(s.drop_last());
        if s.last() == '\n' {
            prev.push(Seq::empty())
        } else {
            prev.update(prev.len() - 1, prev.last().push(s.last()))
        }
    }
}

proof fn lemma_split_newlines_nonempty(s: Seq<char>)
    ensures
        split_newlines(s).len() >= 1,
    decreases s.len(),
{
    if s.len() > 0 {
        lemma_split_newlines_nonempty(s.drop_last());
    }
}

pub(crate) fn split_paragraphs(text: &[char]) -> (paragraphs: Vec<Vec<char>>)
    ensures
        texts(paragraphs@) == split_newlines(text@),
{
    let mut done: Vec<Vec<char>> = Vec::new();
    let mut current: Vec<char> = Vec::new();
    let mut i: usize = 0;
    while i < text.len()
        invariant
            i <= text@.len(),
            texts(done@).push(current@) == split_newlines(text@.take(i as int)),
        decreases text@.len() - i,
    {
        let c = text[i];
        proof {
            assert(text@.take(i as int + 1).drop_last() =~= text@.take(i as int));
            lemma_split_newlines_nonempty(text@.take(i as int));
        }
        if c == '\n' {
            let ghost before = done@;
            let ghost finished = current@;
            done.push(current);
            current = Vec::new();
            assert(texts(done@) =~= texts(before).push(finished));
            assert(texts(done@).push(current@) =~= texts(before).push(finished).push(Seq::empty()));
        } else {
            let ghost prev = current@;
            current.push(c);
            assert(texts(done@).push(current@) =~= texts(done@).push(prev).update(
                texts(done@).len() as int,
                prev.push(c),
            ));
        }
        i += 1;
    }
    assert(text@.take(text@.len() as int) =~= text@);
    let ghost before = done@;
    let ghost finished = current@;
    done.push(current);
    assert(texts(done@) =~= texts(before).push(finished));
    done
}

/// One char of a paragraph: whitespace ends the word being read, any other
/// char extends it.
pub open spec fn word_step(state: WrapState, c: char) -> WrapState {
    if is_white_space(c) {
        (finish(state), Seq::empty())
    } else {
        (state.0, state.1.push(c))
    }
}

/// The words read and the word being read after the chars of `s`.
pub open spec fn word_state(s: Seq<char>) -> WrapState
    decreases s.len(),
{
    if s.len() == 0 {
        (Seq::empty(), Seq::empty())
    } else {
        word_step(word_state(s.drop_last()), s.last())
    }
}

/// The maximal runs of non-whitespace chars of `s`, as
/// `str::split_whitespace` yields them.
pub open spec fn split_words(s: Seq<char>) -> Seq<Seq<char>> {
    finish(word_state(s))
}

fn finish_word(words: &mut Vec<Vec<char>>, word: Vec<char>)
    ensures
        texts(final(words)@) == finish((texts(old(words)@), word@)),
{
    if word.len() > 0 {
        let ghost before = words@;
        let ghost w = word@;
        words.push(word);
        assert(texts(words@) =~= texts(before).push(w));
    }
}

fn split_words_exec(paragraph: &[char]) -> (words: Vec<Vec<char>>)
    ensures
        texts(words@) == split_words(paragraph@),
{
    let mut words: Vec<Vec<char>> = Vec::new();
    let mut current: Vec<char> = Vec::new();
    let mut i: usize = 0;
    while i < paragraph.len()
        invariant
            i <= paragraph@.len(),
            (texts(words@), current@) == word_state(paragraph@.take(i as int)),
        decreases paragraph@.len() - i,
    {
        let c = paragraph[i];
        proof {
            assert(paragraph@.take(i as int + 1).drop_last() =~= paragraph@.take(i as int));
        }
        if char_is_whitespace(c) {
            finish_word(&mut words, current);
            current = Vec::new();
        } else {
            current.push(c);
        }
        i += 1;
    }
    assert(paragraph@.take(paragraph@.len() as int) =~= paragraph@);
    finish_word(&mut words, current);
    words
}

/// One word of a paragraph: it joins the line being filled, separated by a
/// space, when the result fits; otherwise that line is finished and the word
/// starts the next one, cut into pieces when it does not fit alone.
pub open spec fn wrap_step<F: Fn(&str) -> bool>(fits: F, state: WrapState, word: Seq<char>) -> WrapState {
    let (lines, current) = state;
    if current.len() == 0 {
        if fits_spec(fits, word) {
            (lines, word)
        } else {
            (lines + spec_split_word(fits, word), current)
        }
    } else {
        let joined = current + seq![' '] + word;
        if fits_spec(fits, joined) {
            (lines, joined)
        } else if fits_spec(fits, word) {
            (lines.push(current), word)
        } else {
            (lines.push(current) + spec_split_word(fits, word), Seq::empty())
        }
    }
}

/// The state after the words, one by one.
pub open spec fn wrap_words<F: Fn(&str) -> bool>(fits: F, words: Seq<Seq<char>>) -> WrapState
    decreases words.len(),
{
    if words.len() == 0 {
        (Seq::empty(), Seq::empty())
    } else {
        wrap_step(fits, wrap_words(fits, words.drop_last()), words.last())
    }
}

/// The lines of one paragraph: a blank paragraph keeps an empty line.
pub open spec fn paragraph_lines<F: Fn(&str) -> bool>(fits: F, paragraph: Seq<char>) -> Seq<Seq<char>> {
    let words = split_words(paragraph);
    if words.len() == 0 {
        seq![Seq::empty()]
    } else {
        finish(wrap_words(fits, words))
    }
}

/// The lines of the paragraphs, in order.
pub open spec fn lines_of<F: Fn(&str) -> bool>(fits: F, paragraphs: Seq<Seq<char>>) -> Seq<Seq<char>>
    decreases paragraphs.len(),
{
    if paragraphs.len() == 0 {
        Seq::empty()
    } else {
        lines_of(fits, paragraphs.drop_last()) + paragraph_lines(fits, paragraphs.last())
    }
}

/// The lines that wrapping `text` gives: none for empty text, otherwise the
/// lines of each newline-separated paragraph.
pub open spec fn spec_wrap_text<F: Fn(&str) -> bool>(fits: F, text: Seq<char>) -> Seq<Seq<char>> {
    if text.len() == 0 {
        Seq::empty()
    } else {
        lines_of(fits, split_newlines(text))
    }
}

fn push_line(lines: &mut Vec<Vec<char>>, line: Vec<char>)
    ensures
        texts(final(lines)@) == texts(old(lines)@).push(line@),
{
    let ghost before = lines@;
    let ghost l = line@;
    lines.push(line);
    assert(texts(lines@) =~= texts(before).push(l));
}

fn append_lines(lines: &mut Vec<Vec<char>>, more: Vec<Vec<char>>)
    ensures
        texts(final(lines)@) == texts(old(lines)@) + texts(more@),
{
    let mut more = more;
    let ghost before = lines@;
    let ghost added = texts(more@);
    lines.append(&mut more);
    assert(texts(lines@) =~= texts(before) + added);
}

fn join_with_space(current: &Vec<char>, word: &Vec<char>) -> (r: Vec<char>)
    ensures
        r@ == current@ + seq![' '] + word@,
{
    let mut r = copy_chars(current);
    r.push(' ');
    let mut i: usize = 0;
    let ghost start = r@;
    while i < word.len()
        invariant
            i <= word@.len(),
            start == current@ + seq![' '],
            r@ == start + word@.take(i as int),
        decreases word@.len() - i,
    {
        r.push(word[i]);
        assert(word@.take(i as int + 1) =~= word@.take(i as int).push(word@[i as int]));
        i += 1;
    }
    assert(word@.take(word@.len() as int) =~= word@);
    r
}

fn wrap_paragraph<F: Fn(&str) -> bool>(paragraph: &[char], fits: &F, result: &mut Vec<Vec<char>>)
    requires
        is_width_test(*fits),
    ensures
        texts(final(result)@) == texts(old(result)@) + paragraph_lines(*fits, paragraph@),
{
    let words = split_words_exec(paragraph);
    if words.len() == 0 {
        push_line(result, Vec::new());
        return;
    }
    let ghost start = texts(result@);
    let mut lines: Vec<Vec<char>> = Vec::new();
    let mut current_line: Vec<char> = Vec::new();
    let mut i: usize = 0;
    while i < words.len()
        invariant
            is_width_test(*fits),
            i <= words@.len(),
            texts(words@) == split_words(paragraph@),
            (texts(lines@), current_line@) == wrap_words(*fits, texts(words@).take(i as int)),
        decreases words@.len() - i,
    {
        let word = &words[i];
        proof {
            assert(texts(words@).take(i as int + 1).drop_last() =~= texts(words@).take(i as int));
        }
        if current_line.len() == 0 {
            if test_fit(fits, word.as_slice()) {
                current_line = copy_chars(word);
            } else {
                append_lines(&mut lines, split_word_to_fit(word.as_slice(), fits));
            }
        } else {
            let test_line = join_with_space(&current_line, word);
            if test_fit(fits, test_line.as_slice()) {
                current_line = test_line;
            } else {
                push_line(&mut lines, current_line);
                if test_fit(fits, word.as_slice()) {
                    current_line = copy_chars(word);
                } else {
                    append_lines(&mut lines, split_word_to_fit(word.as_slice(), fits));
                    current_line = Vec::new();
                }
            }
        }
        i += 1;
    }
    assert(texts(words@).take(words@.len() as int) =~= texts(words@));
    if current_line.len() > 0 {
        push_line(&mut lines, current_line);
    }
    append_lines(result, lines);
}

fn wrap_chars<F: Fn(&str) -> bool>(text: &[char], fits: &F) -> (lines: Vec<Vec<char>>)
    requires
        is_width_test(*fits),
    ensures
        texts(lines@) == spec_wrap_text(*fits, text@),
{
    let mut result: Vec<Vec<char>> = Vec::new();
    if text.len() == 0 {
        return result;
    }
    let paragraphs = split_paragraphs(text);
    let mut i: usize = 0;
    while i < paragraphs.len()
        invariant
            is_width_test(*fits),
            i <= paragraphs@.len(),
            texts(paragraphs@) == split_newlines(text@),
            texts(result@) == lines_of(*fits, texts(paragraphs@).take(i as int)),
        decreases paragraphs@.len() - i,
    {
        proof {
            assert(texts(paragraphs@).take(i as int + 1).drop_last() =~= texts(paragraphs@).take(
                i as int,
            ));
        }
        wrap_paragraph(paragraphs[i].as_slice(), fits, &mut result);
        i += 1;
    }
    assert(texts(paragraphs@).take(paragraphs@.len() as int) =~= texts(paragraphs@));
    result
}

fn to_strings(lines: &Vec<Vec<char>>) -> (r: Vec<String>)
    ensures
        string_texts(r@) == texts(lines@),
{
    let mut r: Vec<String> = Vec::new();
    let mut i: usize = 0;
    while i < lines.len()
        invariant
            i <= lines@.len(),
            string_texts(r@) == texts(lines@).take(i as int),
        decreases lines@.len() - i,
    {
        let ghost before = r@;
        r.push(string_from_chars(lines[i].as_slice()));
        assert(string_texts(r@) =~= string_texts(before).push(lines@[i as int]@));
        assert(texts(lines@).take(i as int + 1) =~= texts(lines@).take(i as int).push(
            lines@[i as int]@,
        ));
        i += 1;
    }
    assert(texts(lines@).take(lines@.len() as int) =~= texts(lines@));
    r
}

/// Wraps text into lines that fit the display width according to `fits`,
/// respecting word boundaries and existing newlines.
pub fn wrap_text<F: Fn(&str) -> bool>(text: &str, fits: F) -> (lines: Vec<String>)
    requires
        is_width_test(fits),
    ensures
        string_texts(lines@) == spec_wrap_text(fits, text@),
{
    let chars = chars_of(text);
    let lines = wrap_chars(chars.as_slice(), &fits);
    to_strings(&lines)
}


/// Lines joined into one text, a newline between each two.
pub open spec fn join_lines(lines: Seq<Seq<char>>) -> Seq<char>
    decreases lines.len(),
{
    if lines.len() == 0 {
        Seq::empty()
    } else if lines.len() == 1 {
        lines[0]
    } else {
        join_lines(lines.drop_last()) + seq!['\n'] + lines.last()
    }
}

/// Pages of at most `max_lines` consecutive lines each, every page the
/// newline-joined text of its lines.
pub open spec fn spec_pages(lines: Seq<Seq<char>>, max_lines: nat) -> Seq<Seq<char>> {
    chunks(lines, max_lines).map_values(|page: Seq<Seq<char>>| join_lines(page))
}

fn append_chars(acc: &mut Vec<char>, s: &[char])
    ensures
        final(acc)@ == old(acc)@ + s@,
{
    let mut i: usize = 0;
    while i < s.len()
        invariant
            i <= s@.len(),
            acc@ == old(acc)@ + s@.take(i as int),
        decreases s@.len() - i,
    {
        acc.push(s[i]);
        assert(s@.take(i as int + 1) =~= s@.take(i as int).push(s@[i as int]));
        i += 1;
    }
    assert(s@.take(s@.len() as int) =~= s@);
}

fn join_range(lines: &Vec<Vec<char>>, start: usize, end: usize) -> (page: Vec<char>)
    requires
        start < end <= lines@.len(),
    ensures
        page@ == join_lines(texts(lines@).subrange(start as int, end as int)),
{
    let mut page: Vec<char> = Vec::new();
    append_chars(&mut page, lines[start].as_slice());
    assert(texts(lines@).subrange(start as int, start + 1) =~= seq![lines@[start as int]@]);
    let mut k: usize = start + 1;
    while k < end
        invariant
            start < k <= end <= lines@.len(),
            page@ == join_lines(texts(lines@).subrange(start as int, k as int)),
        decreases end - k,
    {
        page.push('\n');
        append_chars(&mut page, lines[k].as_slice());
        assert(texts(lines@).subrange(start as int, k + 1).drop_last() =~= texts(lines@).subrange(
            start as int,
            k as int,
        ));
        k += 1;
    }
    page
}

/// Splits text into pages that fit the display: the lines that wrapping
/// gives, `max_lines` to a page, newline-joined. No pages when a page holds
/// no line or the text gives no line.
pub fn paginate<F: Fn(&str) -> bool>(text: &str, max_lines: usize, fits: F) -> (pages: Vec<String>)
    requires
        is_width_test(fits),
    ensures
        string_texts(pages@) == spec_pages(spec_wrap_text(fits, text@), max_lines as nat),
{
    let mut pages: Vec<String> = Vec::new();
    if max_lines == 0 {
        assert(spec_pages(spec_wrap_text(fits, text@), 0) =~= Seq::empty());
        return pages;
    }
    let chars = chars_of(text);
    let lines = wrap_chars(chars.as_slice(), &fits);
    let ghost all = texts(lines@);
    let ghost groups = chunks(all, max_lines as nat);
    let len = lines.len();
    let mut pos: usize = 0;
    let ghost done: int = 0;
    assert(all.skip(0) =~= all);
    while pos < len
        invariant
            len == lines@.len(),
            all == texts(lines@),
            groups == chunks(all, max_lines as nat),
            max_lines > 0,
            pos <= len,
            0 <= done <= groups.len(),
            chunks(all.skip(pos as int), max_lines as nat) == groups.skip(done),
            string_texts(pages@) == groups.take(done).map_values(
                |page: Seq<Seq<char>>| join_lines(page),
            ),
        decreases len - pos,
    {
        let rest = len - pos;
        let end = if rest <= max_lines {
            len
        } else {
            pos + max_lines
        };
        let page = join_range(&lines, pos, end);
        let ghost tail = all.skip(pos as int);
        proof {
            assert(groups.skip(done).len() > 0);
            if rest <= max_lines {
                assert(all.subrange(pos as int, end as int) =~= tail);
                assert(all.skip(end as int) =~= Seq::<Seq<char>>::empty());
            } else {
                assert(all.subrange(pos as int, end as int) =~= tail.take(max_lines as int));
                assert(tail.skip(max_lines as int) =~= all.skip(end as int));
            }
            assert(groups.skip(done)[0] == all.subrange(pos as int, end as int));
            assert(groups.skip(done).skip(1) =~= groups.skip(done + 1));
            assert(groups.take(done + 1) =~= groups.take(done).push(groups[done]));
        }
        let ghost before = pages@;
        pages.push(string_from_chars(page.as_slice()));
        proof {
            assert(string_texts(pages@) =~= string_texts(before).push(page@));
            assert(groups.take(done + 1).map_values(|page: Seq<Seq<char>>| join_lines(page))
                =~= groups.take(done).map_values(|page: Seq<Seq<char>>| join_lines(page)).push(
                join_lines(groups[done]),
            ));
            done = done + 1;
        }
        pos = end;
    }
    proof {
        assert(chunks(all.skip(pos as int), max_lines as nat) =~= Seq::<Seq<Seq<char>>>::empty());
        assert(groups.take(done) =~= groups);
    }
    pages
}


/// The lines one after the other, with nothing between them.
pub open spec fn concat_lines(lines: Seq<Seq<char>>) -> Seq<char>
    decreases lines.len(),
{
    if lines.len() == 0 {
        Seq::empty()
    } else {
        concat_lines(lines.drop_last()) + lines.last()
    }
}

/// Whether a char separates words or lines: whitespace, a space or a newline.
pub open spec fn is_separator(c: char) -> bool {
    is_white_space(c) || c == ' ' || c == '\n'
}

/// The chars of `s` that are not separators, in order.
pub open spec fn ink(s: Seq<char>) -> Seq<char>
    decreases s.len(),
{
    if s.len() == 0 {
        Seq::empty()
    } else if is_separator(s.last()) {
        ink(s.drop_last())
    } else {
        ink(s.drop_last()).push(s.last())
    }
}

proof fn lemma_concat_append(a: Seq<Seq<char>>, b: Seq<Seq<char>>)
    ensures
        concat_lines(a + b) == concat_lines(a) + concat_lines(b),
    decreases b.len(),
{
    if b.len() == 0 {
        assert(a + b =~= a);
        assert(concat_lines(a) + concat_lines(b) =~= concat_lines(a));
    } else {
        assert((a + b).drop_last() =~= a + b.drop_last());
        lemma_concat_append(a, b.drop_last());
        assert(concat_lines(a + b) =~= concat_lines(a) + concat_lines(b));
    }
}

proof fn lemma_concat_push(a: Seq<Seq<char>>, l: Seq<char>)
    ensures
        concat_lines(a.push(l)) == concat_lines(a) + l,
{
    assert(a.push(l).drop_last() =~= a);
}

proof fn lemma_ink_append(a: Seq<char>, b: Seq<char>)
    ensures
        ink(a + b) == ink(a) + ink(b),
    decreases b.len(),
{
    if b.len() == 0 {
        assert(a + b =~= a);
        assert(ink(a) + ink(b) =~= ink(a));
    } else {
        assert((a + b).drop_last() =~= a + b.drop_last());
        lemma_ink_append(a, b.drop_last());
        assert(ink(a + b) =~= ink(a) + ink(b));
    }
}

proof fn lemma_ink_push(a: Seq<char>, c: char)
    ensures
        ink(a.push(c)) == if is_separator(c) {
            ink(a)
        } else {
            ink(a).push(c)
        },
{
    assert(a.push(c).drop_last() =~= a);
}

/// An oversized word is cut into non-empty pieces that together spell the
/// word; each piece fits, or is a single char too wide to fit on its own.
pub proof fn lemma_split_word_keeps_chars<F: Fn(&str) -> bool>(fits: F, word: Seq<char>)
    ensures
        concat_lines(spec_split_word(fits, word)) == word,
        forall|i: int|
            0 <= i < spec_split_word(fits, word).len() ==> {
                let piece = #[trigger] spec_split_word(fits, word)[i];
                piece.len() > 0 && (fits_spec(fits, piece) || piece.len() == 1)
            },
{
    lemma_split_state(fits, word);
    let (pieces, current) = split_state(fits, word);
    if current.len() > 0 {
        lemma_concat_push(pieces, current);
    }
}

proof fn lemma_split_state<F: Fn(&str) -> bool>(fits: F, word: Seq<char>)
    ensures
        concat_lines(split_state(fits, word).0) + split_state(fits, word).1 == word,
        split_state(fits, word).1.len() == 0 || fits_spec(fits, split_state(fits, word).1),
        forall|i: int|
            0 <= i < split_state(fits, word).0.len() ==> {
                let piece = #[trigger] split_state(fits, word).0[i];
                piece.len() > 0 && (fits_spec(fits, piece) || piece.len() == 1)
            },
    decreases word.len(),
{
    if word.len() > 0 {
        let prefix = word.drop_last();
        let c = word.last();
        lemma_split_state(fits, prefix);
        let (pieces, current) = split_state(fits, prefix);
        assert(prefix.push(c) =~= word);
        let candidate = current.push(c);
        if fits_spec(fits, candidate) {
            assert(concat_lines(pieces) + candidate =~= word);
        } else {
            let pieces2 = if current.len() > 0 {
                pieces.push(current)
            } else {
                pieces
            };
            if current.len() > 0 {
                lemma_concat_push(pieces, current);
            }
            assert(concat_lines(pieces2) == concat_lines(pieces) + current) by {
                if current.len() == 0 {
                    assert(concat_lines(pieces) + current =~= concat_lines(pieces));
                }
            }
            if fits_spec(fits, seq![c]) {
                assert(concat_lines(pieces2) + seq![c] =~= word);
            } else {
                lemma_concat_push(pieces2, seq![c]);
                assert(concat_lines(pieces2.push(seq![c])) + Seq::<char>::empty() =~= word);
            }
        }
    }
}


/// Every line fits, or is a single char too wide to fit on its own, or is
/// the empty line of a blank paragraph.
pub open spec fn lines_fit<F: Fn(&str) -> bool>(fits: F, lines: Seq<Seq<char>>) -> bool {
    forall|i: int|
        0 <= i < lines.len() ==> {
            let line = #[trigger] lines[i];
            line.len() == 0 || fits_spec(fits, line) || line.len() == 1
        }
}

proof fn lemma_wrap_words<F: Fn(&str) -> bool>(fits: F, words: Seq<Seq<char>>)
    ensures
        ink(concat_lines(wrap_words(fits, words).0)) + ink(wrap_words(fits, words).1) == ink(
            concat_lines(words),
        ),
        wrap_words(fits, words).1.len() == 0 || fits_spec(fits, wrap_words(fits, words).1),
        forall|i: int|
            0 <= i < wrap_words(fits, words).0.len() ==> {
                let line = #[trigger] wrap_words(fits, words).0[i];
                line.len() > 0 && (fits_spec(fits, line) || line.len() == 1)
            },
    decreases words.len(),
{
    if words.len() > 0 {
        let prev = words.drop_last();
        let w = words.last();
        lemma_wrap_words(fits, prev);
        let (lines, current) = wrap_words(fits, prev);
        lemma_concat_push(prev, w);
        assert(prev.push(w) =~= words);
        lemma_ink_append(concat_lines(prev), w);
        lemma_split_word_keeps_chars(fits, w);
        let pieces = spec_split_word(fits, w);
        if current.len() == 0 {
            assert(ink(current) =~= Seq::<char>::empty());
            if fits_spec(fits, w) {
                assert(ink(concat_lines(lines)) + ink(w) =~= ink(concat_lines(words)));
            } else {
                lemma_concat_append(lines, pieces);
                lemma_ink_append(concat_lines(lines), w);
                assert(ink(concat_lines(lines + pieces)) + ink(current) =~= ink(
                    concat_lines(words),
                ));
                assert forall|i: int| 0 <= i < (lines + pieces).len() implies {
                    let line = #[trigger] (lines + pieces)[i];
                    line.len() > 0 && (fits_spec(fits, line) || line.len() == 1)
                } by {
                    if i >= lines.len() {
                        assert((lines + pieces)[i] == pieces[i - lines.len()]);
                    }
                }
            }
        } else {
            let joined = current + seq![' '] + w;
            lemma_ink_append(current + seq![' '], w);
            lemma_ink_append(current, seq![' ']);
            lemma_ink_push(Seq::<char>::empty(), ' ');
            assert(Seq::<char>::empty().push(' ') =~= seq![' ']);
            assert(ink(joined) =~= ink(current) + ink(w));
            lemma_concat_push(lines, current);
            lemma_ink_append(concat_lines(lines), current);
            if fits_spec(fits, joined) {
            } else if fits_spec(fits, w) {
                assert(ink(concat_lines(lines.push(current))) + ink(w) =~= ink(concat_lines(words)));
            } else {
                lemma_concat_append(lines.push(current), pieces);
                lemma_ink_append(concat_lines(lines.push(current)), w);
                assert(ink(concat_lines(lines.push(current) + pieces)) + ink(Seq::<char>::empty())
                    =~= ink(concat_lines(words)));
                assert forall|i: int| 0 <= i < (lines.push(current) + pieces).len() implies {
                    let line = #[trigger] (lines.push(current) + pieces)[i];
                    line.len() > 0 && (fits_spec(fits, line) || line.len() == 1)
                } by {
                    if i >= lines.len() + 1 {
                        assert((lines.push(current) + pieces)[i] == pieces[i - lines.len() - 1]);
                    } else if i < lines.len() {
                        assert((lines.push(current) + pieces)[i] == lines[i]);
                    }
                }
            }
        }
    }
}

proof fn lemma_words_keep_ink(p: Seq<char>)
    ensures
        ink(concat_lines(word_state(p).0)) + ink(word_state(p).1) == ink(p),
    decreases p.len(),
{
    if p.len() > 0 {
        let prefix = p.drop_last();
        let c = p.last();
        lemma_words_keep_ink(prefix);
        let (words, current) = word_state(prefix);
        assert(prefix.push(c) =~= p);
        lemma_ink_push(prefix, c);
        if is_white_space(c) {
            if current.len() > 0 {
                lemma_concat_push(words, current);
                lemma_ink_append(concat_lines(words), current);
            }
            assert(ink(Seq::<char>::empty()) =~= Seq::<char>::empty());
            assert(ink(concat_lines(finish((words, current)))) + ink(Seq::<char>::empty()) =~= ink(
                p,
            ));
        } else {
            lemma_ink_push(current, c);
            assert(ink(concat_lines(words)) + ink(current.push(c)) =~= ink(p));
        }
    }
}

proof fn lemma_paragraph_lines<F: Fn(&str) -> bool>(fits: F, p: Seq<char>)
    ensures
        ink(concat_lines(paragraph_lines(fits, p))) == ink(p),
        lines_fit(fits, paragraph_lines(fits, p)),
{
    lemma_words_keep_ink(p);
    let (words, current) = word_state(p);
    let all_words = split_words(p);
    assert(ink(concat_lines(all_words)) == ink(p)) by {
        if current.len() > 0 {
            lemma_concat_push(words, current);
            lemma_ink_append(concat_lines(words), current);
        } else {
            assert(ink(current) =~= Seq::<char>::empty());
            assert(ink(concat_lines(words)) + ink(current) =~= ink(concat_lines(words)));
        }
    }
    if all_words.len() == 0 {
        let lines = seq![Seq::<char>::empty()];
        assert(lines =~= Seq::<Seq<char>>::empty().push(Seq::<char>::empty()));
        lemma_concat_push(Seq::<Seq<char>>::empty(), Seq::<char>::empty());
        assert(concat_lines(lines) =~= Seq::<char>::empty());
        assert(concat_lines(all_words) =~= Seq::<char>::empty());
        assert(ink(Seq::<char>::empty()) =~= Seq::<char>::empty());
    } else {
        lemma_wrap_words(fits, all_words);
        let (lines, last) = wrap_words(fits, all_words);
        if last.len() > 0 {
            lemma_concat_push(lines, last);
            lemma_ink_append(concat_lines(lines), last);
        } else {
            assert(ink(last) =~= Seq::<char>::empty());
            assert(ink(concat_lines(lines)) + ink(last) =~= ink(concat_lines(lines)));
        }
    }
}

/// The chars that are not separators of each paragraph, one paragraph
/// after the other.
pub open spec fn ink_all(paragraphs: Seq<Seq<char>>) -> Seq<char>
    decreases paragraphs.len(),
{
    if paragraphs.len() == 0 {
        Seq::empty()
    } else {
        ink_all(paragraphs.drop_last()) + ink(paragraphs.last())
    }
}

proof fn lemma_lines_of<F: Fn(&str) -> bool>(fits: F, paragraphs: Seq<Seq<char>>)
    ensures
        ink(concat_lines(lines_of(fits, paragraphs))) == ink_all(paragraphs),
        lines_fit(fits, lines_of(fits, paragraphs)),
    decreases paragraphs.len(),
{
    if paragraphs.len() > 0 {
        let prev = paragraphs.drop_last();
        let last = paragraphs.last();
        lemma_lines_of(fits, prev);
        lemma_paragraph_lines(fits, last);
        let a = lines_of(fits, prev);
        let b = paragraph_lines(fits, last);
        lemma_concat_append(a, b);
        lemma_ink_append(concat_lines(a), concat_lines(b));
        assert forall|i: int| 0 <= i < (a + b).len() implies {
            let line = #[trigger] (a + b)[i];
            line.len() == 0 || fits_spec(fits, line) || line.len() == 1
        } by {
            if i >= a.len() {
                assert((a + b)[i] == b[i - a.len()]);
            } else {
                assert((a + b)[i] == a[i]);
            }
        }
    }
}

proof fn lemma_newlines_keep_ink(s: Seq<char>)
    ensures
        ink_all(split_newlines(s)) == ink(s),
    decreases s.len(),
{
    if s.len() == 0 {
        let ps = split_newlines(s);
        assert(ps.drop_last() =~= Seq::<Seq<char>>::empty());
        assert(ink(Seq::<char>::empty()) =~= Seq::<char>::empty());
        assert(ink_all(Seq::<Seq<char>>::empty()) =~= Seq::<char>::empty());
        assert(ps.last() =~= Seq::<char>::empty());
        assert(ink_all(ps) =~= Seq::<char>::empty());
    } else {
        let prefix = s.drop_last();
        let c = s.last();
        lemma_newlines_keep_ink(prefix);
        lemma_split_newlines_nonempty(prefix);
        let prev = split_newlines(prefix);
        assert(prefix.push(c) =~= s);
        lemma_ink_push(prefix, c);
        if c == '\n' {
            let ps = prev.push(Seq::empty());
            assert(ps.drop_last() =~= prev);
            assert(ink(Seq::<char>::empty()) =~= Seq::<char>::empty());
            assert(ink_all(ps) =~= ink_all(prev));
        } else {
            let ps = prev.update(prev.len() - 1, prev.last().push(c));
            assert(ps.drop_last() =~= prev.drop_last());
            lemma_ink_push(prev.last(), c);
            assert(ink_all(ps) =~= ink_all(prev.drop_last()) + ink(prev.last().push(c)));
            assert(ink_all(ps) =~= ink(s));
        }
    }
}

/// Wrapping keeps the text: the lines, one after the other, hold every char
/// of the text that is not whitespace, a space or a newline, in order, and
/// nothing else of that kind. Every line fits, or is a single char too wide
/// to fit on its own, or is the empty line of a blank paragraph.
pub proof fn lemma_wrap_keeps_text<F: Fn(&str) -> bool>(fits: F, text: Seq<char>)
    ensures
        ink(concat_lines(spec_wrap_text(fits, text))) == ink(text),
        lines_fit(fits, spec_wrap_text(fits, text)),
{
    if text.len() == 0 {
        assert(ink(Seq::<char>::empty()) =~= Seq::<char>::empty());
        assert(concat_lines(Seq::<Seq<char>>::empty()) =~= Seq::<char>::empty());
    } else {
        lemma_lines_of(fits, split_newlines(text));
        lemma_newlines_keep_ink(text);
    }
}


proof fn lemma_join_append(a: Seq<Seq<char>>, b: Seq<Seq<char>>)
    requires
        a.len() > 0,
        b.len() > 0,
    ensures
        join_lines(a + b) == join_lines(a) + seq!['\n'] + join_lines(b),
    decreases b.len(),
{
    if b.len() == 1 {
        assert((a + b).drop_last() =~= a);
        assert(b[0] == b.last());
    } else {
        assert((a + b).drop_last() =~= a + b.drop_last());
        lemma_join_append(a, b.drop_last());
        assert(join_lines(a + b) =~= join_lines(a) + seq!['\n'] + join_lines(b));
    }
}

proof fn lemma_join_chunks(lines: Seq<Seq<char>>, n: nat)
    requires
        n > 0,
    ensures
        join_lines(spec_pages(lines, n)) == join_lines(lines),
    decreases lines.len(),
{
    if lines.len() == 0 {
    } else if lines.len() <= n {
        let pages = spec_pages(lines, n);
        assert(pages =~= seq![join_lines(lines)]);
    } else {
        let first = lines.take(n as int);
        let rest = lines.skip(n as int);
        lemma_join_chunks(rest, n);
        lemma_chunks(rest, n);
        let pages = spec_pages(lines, n);
        let rest_pages = spec_pages(rest, n);
        assert(pages =~= seq![join_lines(first)] + rest_pages);
        assert(rest_pages.len() > 0);
        lemma_join_append(seq![join_lines(first)], rest_pages);
        assert(join_lines(seq![join_lines(first)]) == join_lines(first));
        assert(first + rest =~= lines);
        lemma_join_append(first, rest);
    }
}

/// Paging keeps the lines: the pages, joined by newlines, are the lines
/// joined by newlines; every page holds `max_lines` lines except the last,
/// which holds between one and `max_lines`; there are no pages exactly when
/// there are no lines.
pub proof fn lemma_pages_keep_lines(lines: Seq<Seq<char>>, max_lines: nat)
    requires
        max_lines > 0,
    ensures
        join_lines(spec_pages(lines, max_lines)) == join_lines(lines),
        chunks(lines, max_lines).flatten() == lines,
        spec_pages(lines, max_lines).len() == chunks(lines, max_lines).len(),
        forall|i: int|
            0 <= i < chunks(lines, max_lines).len() - 1 ==> (#[trigger] chunks(
                lines,
                max_lines,
            )[i]).len() == max_lines,
        chunks(lines, max_lines).len() > 0 ==> 1 <= chunks(lines, max_lines).last().len()
            <= max_lines,
        spec_pages(lines, max_lines).len() == 0 <==> lines.len() == 0,
{
    lemma_join_chunks(lines, max_lines);
    lemma_chunks(lines, max_lines);
}


/// Words joined into one line, a single space between each two.
pub open spec fn join_words(words: Seq<Seq<char>>) -> Seq<char>
    decreases words.len(),
{
    if words.len() == 0 {
        Seq::empty()
    } else if words.len() == 1 {
        words[0]
    } else {
        join_words(words.drop_last()) + seq![' '] + words.last()
    }
}

/// Groups of words in one after the other.
pub open spec fn concat_groups(groups: Seq<Seq<Seq<char>>>) -> Seq<Seq<char>>
    decreases groups.len(),
{
    if groups.len() == 0 {
        Seq::empty()
    } else {
        concat_groups(groups.drop_last()) + groups.last()
    }
}

/// When every word fits, the words already placed on finished lines and
/// the words of the line being filled.
pub open spec fn word_groups<F: Fn(&str) -> bool>(fits: F, words: Seq<Seq<char>>) -> (
    Seq<Seq<Seq<char>>>,
    Seq<Seq<char>>,
)
    decreases words.len(),
{
    if words.len() == 0 {
        (Seq::empty(), Seq::empty())
    } else {
        let (done, current) = word_groups(fits, words.drop_last());
        let w = words.last();
        if current.len() == 0 {
            (done, seq![w])
        } else if fits_spec(fits, join_words(current) + seq![' '] + w) {
            (done, current.push(w))
        } else {
            (done.push(current), seq![w])
        }
    }
}

proof fn lemma_join_words_push(ws: Seq<Seq<char>>, w: Seq<char>)
    requires
        ws.len() > 0,
    ensures
        join_words(ws.push(w)) == join_words(ws) + seq![' '] + w,
{
    assert(ws.push(w).drop_last() =~= ws);
}

proof fn lemma_join_words_nonempty(ws: Seq<Seq<char>>)
    requires
        ws.len() > 0,
        forall|i: int| 0 <= i < ws.len() ==> (#[trigger] ws[i]).len() > 0,
    ensures
        join_words(ws).len() > 0,
    decreases ws.len(),
{
    if ws.len() > 1 {
        assert(ws.last() == ws[ws.len() - 1]);
    }
}

proof fn lemma_word_groups<F: Fn(&str) -> bool>(fits: F, words: Seq<Seq<char>>)
    requires
        forall|i: int|
            0 <= i < words.len() ==> (#[trigger] words[i]).len() > 0 && fits_spec(fits, words[i]),
    ensures
        ({
            let (done, current) = word_groups(fits, words);
            &&& concat_groups(done) + current == words
            &&& forall|i: int| 0 <= i < done.len() ==> (#[trigger] done[i]).len() > 0
            &&& wrap_words(fits, words) == (done.map_values(|g: Seq<Seq<char>>| join_words(g)), join_words(current))
        }),
    decreases words.len(),
{
    if words.len() > 0 {
        let prev = words.drop_last();
        let w = words.last();
        assert forall|i: int| 0 <= i < prev.len() implies (#[trigger] prev[i]).len() > 0
            && fits_spec(fits, prev[i]) by {
            assert(prev[i] == words[i]);
        }
        lemma_word_groups(fits, prev);
        let (done, current) = word_groups(fits, prev);
        let f = |g: Seq<Seq<char>>| join_words(g);
        assert(prev.push(w) =~= words);
        assert(w == words[words.len() - 1]);
        assert(w.len() > 0 && fits_spec(fits, w));
        if current.len() == 0 {
            assert(join_words(current) =~= Seq::<char>::empty());
            assert(concat_groups(done) + seq![w] =~= words);
            assert(join_words(seq![w]) == w);
        } else {
            assert forall|i: int| 0 <= i < current.len() implies (#[trigger] current[i]).len() > 0 by {
                assert(current[i] == prev[concat_groups(done).len() + i]);
            }
            lemma_join_words_nonempty(current);
            let joined = join_words(current) + seq![' '] + w;
            if fits_spec(fits, joined) {
                lemma_join_words_push(current, w);
                assert(concat_groups(done) + current.push(w) =~= words);
            } else {
                assert(done.push(current).drop_last() =~= done);
                assert(concat_groups(done.push(current)) =~= concat_groups(done) + current);
                assert(concat_groups(done.push(current)) + seq![w] =~= words);
                assert(done.push(current).map_values(f) =~= done.map_values(f).push(
                    join_words(current),
                ));
                assert(join_words(seq![w]) == w);
                assert forall|i: int| 0 <= i < done.push(current).len() implies (#[trigger] done.push(
                    current,
                )[i]).len() > 0 by {
                    if i < done.len() {
                        assert(done.push(current)[i] == done[i]);
                    }
                }
            }
        }
    }
}

proof fn lemma_words_nonempty(p: Seq<char>)
    ensures
        forall|i: int|
            0 <= i < word_state(p).0.len() ==> (#[trigger] word_state(p).0[i]).len() > 0,
        forall|i: int| 0 <= i < split_words(p).len() ==> (#[trigger] split_words(p)[i]).len() > 0,
    decreases p.len(),
{
    if p.len() > 0 {
        let prefix = p.drop_last();
        lemma_words_nonempty(prefix);
        let (w0, c0) = word_state(prefix);
        let c = p.last();
        if is_white_space(c) {
            assert forall|i: int| 0 <= i < word_state(p).0.len() implies (#[trigger] word_state(
                p,
            ).0[i]).len() > 0 by {
                assert(word_state(p).0 == finish((w0, c0)));
                if i < w0.len() {
                    assert(finish((w0, c0))[i] == w0[i]);
                }
            }
        } else {
            assert(word_state(p).0 == w0);
        }
    }
    let (words, current) = word_state(p);
    assert forall|i: int| 0 <= i < split_words(p).len() implies (#[trigger] split_words(p)[i]).len()
        > 0 by {
        if i < words.len() {
            assert(split_words(p)[i] == words[i]);
        }
    }
}

/// Words are only cut when they cannot fit: when every word of a paragraph
/// fits on a line by itself, its lines are its words in order, grouped into
/// non-empty runs joined by single spaces.
pub proof fn lemma_words_stay_whole<F: Fn(&str) -> bool>(fits: F, paragraph: Seq<char>)
    requires
        forall|i: int|
            0 <= i < split_words(paragraph).len() ==> fits_spec(
                fits,
                #[trigger] split_words(paragraph)[i],
            ),
    ensures
        split_words(paragraph).len() > 0 ==> exists|groups: Seq<Seq<Seq<char>>>|
            {
                &&& concat_groups(groups) == split_words(paragraph)
                &&& forall|i: int| 0 <= i < groups.len() ==> (#[trigger] groups[i]).len() > 0
                &&& paragraph_lines(fits, paragraph) == groups.map_values(
                    |g: Seq<Seq<char>>| join_words(g),
                )
            },
{
    let words = split_words(paragraph);
    if words.len() > 0 {
        lemma_words_nonempty(paragraph);
        lemma_word_groups(fits, words);
        let (done, current) = word_groups(fits, words);
        let f = |g: Seq<Seq<char>>| join_words(g);
        if current.len() > 0 {
            let groups = done.push(current);
            assert forall|i: int| 0 <= i < current.len() implies (#[trigger] current[i]).len() > 0 by {
                assert(current[i] == words[concat_groups(done).len() + i]);
            }
            lemma_join_words_nonempty(current);
            assert(groups.drop_last() =~= done);
            assert(concat_groups(groups) =~= words);
            assert(groups.map_values(f) =~= done.map_values(f).push(join_words(current)));
            assert forall|i: int| 0 <= i < groups.len() implies (#[trigger] groups[i]).len() > 0 by {
                if i < done.len() {
                    assert(groups[i] == done[i]);
                }
            }
            assert(paragraph_lines(fits, paragraph) == groups.map_values(f));
        } else {
            assert(join_words(current) =~= Seq::<char>::empty());
            assert(concat_groups(done) =~= words);
            assert(paragraph_lines(fits, paragraph) == done.map_values(f));
        }
    }
}


/// No char of `s` is a newline.
pub open spec fn no_newline(s: Seq<char>) -> bool {
    forall|j: int| 0 <= j < s.len() ==> #[trigger] s[j] != '\n'
}

proof fn lemma_split_state_no_newline<F: Fn(&str) -> bool>(fits: F, word: Seq<char>)
    requires
        no_newline(word),
    ensures
        no_newline(split_state(fits, word).1),
        forall|i: int|
            0 <= i < split_state(fits, word).0.len() ==> no_newline(
                #[trigger] split_state(fits, word).0[i],
            ),
    decreases word.len(),
{
    if word.len() > 0 {
        let prefix = word.drop_last();
        let c = word.last();
        assert(no_newline(prefix)) by {
            assert forall|j: int| 0 <= j < prefix.len() implies #[trigger] prefix[j] != '\n' by {
                assert(prefix[j] == word[j]);
            }
        }
        assert(c == word[word.len() - 1]);
        lemma_split_state_no_newline(fits, prefix);
        let (pieces, current) = split_state(fits, prefix);
        assert(no_newline(current.push(c))) by {
            assert forall|j: int| 0 <= j < current.push(c).len() implies #[trigger] current.push(
                c,
            )[j] != '\n' by {
                if j < current.len() {
                    assert(current.push(c)[j] == current[j]);
                }
            }
        }
        assert(no_newline(seq![c]));
        let pieces2 = if current.len() > 0 {
            pieces.push(current)
        } else {
            pieces
        };
        assert forall|i: int| 0 <= i < pieces2.len() implies no_newline(#[trigger] pieces2[i]) by {
            if i < pieces.len() {
                assert(pieces2[i] == pieces[i]);
            }
        }
        assert forall|i: int| 0 <= i < pieces2.push(seq![c]).len() implies no_newline(
            #[trigger] pieces2.push(seq![c])[i],
        ) by {
            if i < pieces2.len() {
                assert(pieces2.push(seq![c])[i] == pieces2[i]);
            }
        }
    }
}

proof fn lemma_split_word_no_newline<F: Fn(&str) -> bool>(fits: F, word: Seq<char>)
    requires
        no_newline(word),
    ensures
        forall|i: int|
            0 <= i < spec_split_word(fits, word).len() ==> no_newline(
                #[trigger] spec_split_word(fits, word)[i],
            ),
{
    lemma_split_state_no_newline(fits, word);
    let (pieces, current) = split_state(fits, word);
    assert forall|i: int| 0 <= i < spec_split_word(fits, word).len() implies no_newline(
        #[trigger] spec_split_word(fits, word)[i],
    ) by {
        if i < pieces.len() {
            assert(spec_split_word(fits, word)[i] == pieces[i]);
        }
    }
}

proof fn lemma_words_no_newline(p: Seq<char>)
    ensures
        no_newline(word_state(p).1),
        forall|i: int| 0 <= i < word_state(p).0.len() ==> no_newline(#[trigger] word_state(p).0[i]),
        forall|i: int| 0 <= i < split_words(p).len() ==> no_newline(#[trigger] split_words(p)[i]),
    decreases p.len(),
{
    if p.len() > 0 {
        let prefix = p.drop_last();
        let c = p.last();
        lemma_words_no_newline(prefix);
        let (w0, c0) = word_state(prefix);
        if is_white_space(c) {
            assert forall|i: int| 0 <= i < finish((w0, c0)).len() implies no_newline(
                #[trigger] finish((w0, c0))[i],
            ) by {
                if i < w0.len() {
                    assert(finish((w0, c0))[i] == w0[i]);
                }
            }
            assert(no_newline(Seq::<char>::empty()));
        } else {
            assert(c != '\n');
            assert forall|j: int| 0 <= j < c0.push(c).len() implies #[trigger] c0.push(c)[j]
                != '\n' by {
                if j < c0.len() {
                    assert(c0.push(c)[j] == c0[j]);
                }
            }
        }
    }
    let (words, current) = word_state(p);
    assert forall|i: int| 0 <= i < split_words(p).len() implies no_newline(
        #[trigger] split_words(p)[i],
    ) by {
        if i < words.len() {
            assert(split_words(p)[i] == words[i]);
        }
    }
}

proof fn lemma_wrap_words_shape<F: Fn(&str) -> bool>(fits: F, words: Seq<Seq<char>>)
    requires
        forall|i: int|
            0 <= i < words.len() ==> no_newline(#[trigger] words[i]) && words[i].len() > 0,
    ensures
        no_newline(wrap_words(fits, words).1),
        forall|i: int|
            0 <= i < wrap_words(fits, words).0.len() ==> no_newline(
                #[trigger] wrap_words(fits, words).0[i],
            ),
        words.len() > 0 ==> wrap_words(fits, words).0.len() > 0 || wrap_words(fits, words).1.len()
            > 0,
    decreases words.len(),
{
    if words.len() > 0 {
        let prev = words.drop_last();
        let w = words.last();
        assert(w == words[words.len() - 1]);
        assert forall|i: int| 0 <= i < prev.len() implies no_newline(#[trigger] prev[i])
            && prev[i].len() > 0 by {
            assert(prev[i] == words[i]);
        }
        lemma_wrap_words_shape(fits, prev);
        lemma_split_word_no_newline(fits, w);
        lemma_split_word_keeps_chars(fits, w);
        let (lines, current) = wrap_words(fits, prev);
        let pieces = spec_split_word(fits, w);
        assert(pieces.len() > 0) by {
            if pieces.len() == 0 {
                assert(concat_lines(pieces) =~= Seq::<char>::empty());
            }
        }
        let joined = current + seq![' '] + w;
        assert(no_newline(joined)) by {
            assert forall|j: int| 0 <= j < joined.len() implies #[trigger] joined[j] != '\n' by {
                if j < current.len() {
                    assert(joined[j] == current[j]);
                } else if j > current.len() {
                    assert(joined[j] == w[j - current.len() - 1]);
                }
            }
        }
        assert forall|i: int| 0 <= i < (lines + pieces).len() implies no_newline(
            #[trigger] (lines + pieces)[i],
        ) by {
            if i < lines.len() {
                assert((lines + pieces)[i] == lines[i]);
            } else {
                assert((lines + pieces)[i] == pieces[i - lines.len()]);
            }
        }
        assert forall|i: int| 0 <= i < lines.push(current).len() implies no_newline(
            #[trigger] lines.push(current)[i],
        ) by {
            if i < lines.len() {
                assert(lines.push(current)[i] == lines[i]);
            }
        }
        assert forall|i: int| 0 <= i < (lines.push(current) + pieces).len() implies no_newline(
            #[trigger] (lines.push(current) + pieces)[i],
        ) by {
            if i < lines.len() + 1 {
                assert((lines.push(current) + pieces)[i] == lines.push(current)[i]);
            } else {
                assert((lines.push(current) + pieces)[i] == pieces[i - lines.len() - 1]);
            }
        }
        assert(no_newline(Seq::<char>::empty()));
    }
}

/// Each paragraph gives at least one line, and no line holds a newline.
pub proof fn lemma_paragraph_lines_shape<F: Fn(&str) -> bool>(fits: F, paragraph: Seq<char>)
    ensures
        paragraph_lines(fits, paragraph).len() >= 1,
        forall|i: int|
            0 <= i < paragraph_lines(fits, paragraph).len() ==> no_newline(
                #[trigger] paragraph_lines(fits, paragraph)[i],
            ),
{
    let words = split_words(paragraph);
    lemma_words_no_newline(paragraph);
    lemma_words_nonempty(paragraph);
    if words.len() == 0 {
        assert(no_newline(Seq::<char>::empty()));
        assert(paragraph_lines(fits, paragraph)[0] == Seq::<char>::empty());
    } else {
        lemma_wrap_words_shape(fits, words);
        let (lines, current) = wrap_words(fits, words);
        assert forall|i: int| 0 <= i < finish((lines, current)).len() implies no_newline(
            #[trigger] finish((lines, current))[i],
        ) by {
            if i < lines.len() {
                assert(finish((lines, current))[i] == lines[i]);
            }
        }
    }
}

/// Wrapping never puts a newline inside a line, and every newline-separated
/// paragraph of non-empty text gives at least one line (a blank one for a
/// blank paragraph), so there are at least as many lines as paragraphs.
pub proof fn lemma_wrap_lines_shape<F: Fn(&str) -> bool>(fits: F, text: Seq<char>)
    ensures
        forall|i: int|
            0 <= i < spec_wrap_text(fits, text).len() ==> no_newline(
                #[trigger] spec_wrap_text(fits, text)[i],
            ),
        text.len() > 0 ==> spec_wrap_text(fits, text).len() >= split_newlines(text).len(),
{
    if text.len() > 0 {
        lemma_lines_of_shape(fits, split_newlines(text));
    }
}

proof fn lemma_lines_of_shape<F: Fn(&str) -> bool>(fits: F, paragraphs: Seq<Seq<char>>)
    ensures
        lines_of(fits, paragraphs).len() >= paragraphs.len(),
        forall|i: int|
            0 <= i < lines_of(fits, paragraphs).len() ==> no_newline(
                #[trigger] lines_of(fits, paragraphs)[i],
            ),
    decreases paragraphs.len(),
{
    if paragraphs.len() > 0 {
        let prev = paragraphs.drop_last();
        lemma_lines_of_shape(fits, prev);
        lemma_paragraph_lines_shape(fits, paragraphs.last());
        let a = lines_of(fits, prev);
        let b = paragraph_lines(fits, paragraphs.last());
        assert forall|i: int| 0 <= i < (a + b).len() implies no_newline(#[trigger] (a + b)[i]) by {
            if i < a.len() {
                assert((a + b)[i] == a[i]);
            } else {
                assert((a + b)[i] == b[i - a.len()]);
            }
        }
    }
}


/// Where a run of lines of a paragraph comes from: one line of whole words
/// joined by single spaces, or the pieces of one word too wide to fit alone.
pub enum Segment {
    Run(Seq<Seq<char>>),
    Cut(Seq<char>),
}

/// The lines a segment gives.
pub open spec fn segment_lines<F: Fn(&str) -> bool>(fits: F, seg: Segment) -> Seq<Seq<char>> {
    match seg {
        Segment::Run(words) => seq![join_words(words)],
        Segment::Cut(word) => spec_split_word(fits, word),
    }
}

/// The lines of the segments, in order.
pub open spec fn render_segments<F: Fn(&str) -> bool>(fits: F, segs: Seq<Segment>) -> Seq<Seq<char>>
    decreases segs.len(),
{
    if segs.len() == 0 {
        Seq::empty()
    } else {
        render_segments(fits, segs.drop_last()) + segment_lines(fits, segs.last())
    }
}

/// The words the segments stand for, in order.
pub open spec fn segment_words(segs: Seq<Segment>) -> Seq<Seq<char>>
    decreases segs.len(),
{
    if segs.len() == 0 {
        Seq::empty()
    } else {
        segment_words(segs.drop_last()) + match segs.last() {
            Segment::Run(words) => words,
            Segment::Cut(word) => seq![word],
        }
    }
}

/// A run holds at least one word; a cut word does not fit on a line alone.
pub open spec fn segment_ok<F: Fn(&str) -> bool>(fits: F, seg: Segment) -> bool {
    match seg {
        Segment::Run(words) => words.len() > 0,
        Segment::Cut(word) => !fits_spec(fits, word),
    }
}

/// The first word a segment stands for.
pub open spec fn first_word(seg: Segment) -> Seq<char> {
    match seg {
        Segment::Run(words) => words[0],
        Segment::Cut(word) => word,
    }
}

/// Lines are filled greedily: a line of whole words is finished only when
/// the next word, added after a space, would not fit on it.
pub open spec fn greedy<F: Fn(&str) -> bool>(fits: F, segs: Seq<Segment>) -> bool {
    forall|i: int|
        0 <= i < segs.len() - 1 ==> (#[trigger] segs[i] matches Segment::Run(words) ==> !fits_spec(
            fits,
            join_words(words) + seq![' '] + first_word(segs[i + 1]),
        ))
}

proof fn lemma_greedy_push<F: Fn(&str) -> bool>(fits: F, segs: Seq<Segment>, seg: Segment)
    requires
        greedy(fits, segs),
        segs.len() > 0 && segs.last() is Run ==> !fits_spec(
            fits,
            join_words(segs.last()->Run_0) + seq![' '] + first_word(seg),
        ),
    ensures
        greedy(fits, segs.push(seg)),
{
    let t = segs.push(seg);
    assert forall|i: int| 0 <= i < t.len() - 1 implies (#[trigger] t[i] matches Segment::Run(
        words,
    ) ==> !fits_spec(fits, join_words(words) + seq![' '] + first_word(t[i + 1]))) by {
        assert(t[i] == segs[i]);
        if i < segs.len() - 1 {
            assert(t[i + 1] == segs[i + 1]);
        } else {
            assert(t[i + 1] == seg);
        }
    }
}

/// The segments finished so far and the words of the line being filled.
pub open spec fn segments_of<F: Fn(&str) -> bool>(fits: F, words: Seq<Seq<char>>) -> (
    Seq<Segment>,
    Seq<Seq<char>>,
)
    decreases words.len(),
{
    if words.len() == 0 {
        (Seq::empty(), Seq::empty())
    } else {
        let (done, run) = segments_of(fits, words.drop_last());
        let w = words.last();
        if run.len() == 0 {
            if fits_spec(fits, w) {
                (done, seq![w])
            } else {
                (done.push(Segment::Cut(w)), Seq::empty())
            }
        } else if fits_spec(fits, join_words(run) + seq![' '] + w) {
            (done, run.push(w))
        } else if fits_spec(fits, w) {
            (done.push(Segment::Run(run)), seq![w])
        } else {
            (done.push(Segment::Run(run)).push(Segment::Cut(w)), Seq::empty())
        }
    }
}

proof fn lemma_render_push<F: Fn(&str) -> bool>(fits: F, segs: Seq<Segment>, seg: Segment)
    ensures
        render_segments(fits, segs.push(seg)) == render_segments(fits, segs) + segment_lines(
            fits,
            seg,
        ),
        segment_words(segs.push(seg)) == segment_words(segs) + match seg {
            Segment::Run(words) => words,
            Segment::Cut(word) => seq![word],
        },
{
    assert(segs.push(seg).drop_last() =~= segs);
}

proof fn lemma_segments_of<F: Fn(&str) -> bool>(fits: F, words: Seq<Seq<char>>)
    requires
        forall|i: int| 0 <= i < words.len() ==> (#[trigger] words[i]).len() > 0,
    ensures
        ({
            let (done, run) = segments_of(fits, words);
            &&& segment_words(done) + run == words
            &&& forall|i: int| 0 <= i < done.len() ==> segment_ok(fits, #[trigger] done[i])
            &&& forall|i: int| 0 <= i < run.len() ==> (#[trigger] run[i]).len() > 0
            &&& wrap_words(fits, words) == (render_segments(fits, done), join_words(run))
            &&& greedy(fits, done)
            &&& run.len() > 0 && done.len() > 0 && done.last() is Run ==> !fits_spec(
                fits,
                join_words(done.last()->Run_0) + seq![' '] + run[0],
            )
            &&& run.len() == 0 ==> done.len() == 0 || done.last() is Cut
        }),
    decreases words.len(),
{
    if words.len() > 0 {
        let prev = words.drop_last();
        let w = words.last();
        assert(w == words[words.len() - 1]);
        assert forall|i: int| 0 <= i < prev.len() implies (#[trigger] prev[i]).len() > 0 by {
            assert(prev[i] == words[i]);
        }
        lemma_segments_of(fits, prev);
        let (done, run) = segments_of(fits, prev);
        assert(prev.push(w) =~= words);
        if run.len() > 0 {
            lemma_join_words_nonempty(run);
        } else {
            assert(join_words(run) =~= Seq::<char>::empty());
        }
        assert(join_words(seq![w]) == w);
        let cut = Segment::Cut(w);
        let r = Segment::Run(run);
        if run.len() == 0 {
            lemma_greedy_push(fits, done, cut);
        } else {
            assert(first_word(r) == run[0]);
            lemma_greedy_push(fits, done, r);
            assert(done.push(r).last() == r);
            if !fits_spec(fits, join_words(run) + seq![' '] + w) {
                lemma_greedy_push(fits, done.push(r), cut);
            }
            assert(run.push(w)[0] == run[0]);
        }
        lemma_render_push(fits, done, cut);
        lemma_render_push(fits, done, r);
        lemma_render_push(fits, done.push(r), cut);
        if !fits_spec(fits, w) {
            assert forall|i: int| 0 <= i < done.push(cut).len() implies segment_ok(
                fits,
                #[trigger] done.push(cut)[i],
            ) by {
                if i < done.len() {
                    assert(done.push(cut)[i] == done[i]);
                }
            }
        }
        if run.len() > 0 {
            assert forall|i: int| 0 <= i < done.push(r).len() implies segment_ok(
                fits,
                #[trigger] done.push(r)[i],
            ) by {
                if i < done.len() {
                    assert(done.push(r)[i] == done[i]);
                }
            }
            if !fits_spec(fits, w) {
                assert forall|i: int| 0 <= i < done.push(r).push(cut).len() implies segment_ok(
                    fits,
                    #[trigger] done.push(r).push(cut)[i],
                ) by {
                    if i < done.push(r).len() {
                        assert(done.push(r).push(cut)[i] == done.push(r)[i]);
                    }
                }
            }
        }
        assert forall|i: int| 0 <= i < run.push(w).len() implies (#[trigger] run.push(w)[i]).len()
            > 0 by {
            if i < run.len() {
                assert(run.push(w)[i] == run[i]);
            }
        }
        if run.len() == 0 {
            if fits_spec(fits, w) {
                assert(segment_words(done) + seq![w] =~= words);
            } else {
                assert(segment_words(done.push(cut)) + Seq::<Seq<char>>::empty() =~= words);
                assert(join_words(Seq::<Seq<char>>::empty()) =~= Seq::<char>::empty());
            }
        } else {
            lemma_join_words_push(run, w);
            if fits_spec(fits, join_words(run) + seq![' '] + w) {
                assert(segment_words(done) + run.push(w) =~= words);
            } else if fits_spec(fits, w) {
                assert(segment_words(done.push(r)) + seq![w] =~= words);
                assert(render_segments(fits, done.push(r)) =~= render_segments(fits, done).push(
                    join_words(run),
                ));
            } else {
                assert(segment_words(done.push(r).push(cut)) + Seq::<Seq<char>>::empty() =~= words);
                assert(render_segments(fits, done.push(r)) =~= render_segments(fits, done).push(
                    join_words(run),
                ));
                assert(join_words(Seq::<Seq<char>>::empty()) =~= Seq::<char>::empty());
            }
        }
    }
}

/// A word is broken only when it cannot fit: the lines of any paragraph
/// are, in order, the lines of segments that together stand for its words
/// in order, where each segment is either one line of whole words joined by
/// single spaces or the pieces of one word that does not fit on a line
/// alone. Lines of whole words are filled greedily: such a line is finished
/// only when the next word, after a space, would not fit on it. A paragraph
/// without words gives one empty line.
pub proof fn lemma_words_break_only_when_too_wide<F: Fn(&str) -> bool>(fits: F, paragraph: Seq<char>)
    ensures
        split_words(paragraph).len() == 0 ==> paragraph_lines(fits, paragraph) == seq![
            Seq::<char>::empty(),
        ],
        split_words(paragraph).len() > 0 ==> exists|segs: Seq<Segment>|
            {
                &&& segment_words(segs) == split_words(paragraph)
                &&& forall|i: int| 0 <= i < segs.len() ==> segment_ok(fits, #[trigger] segs[i])
                &&& greedy(fits, segs)
                &&& paragraph_lines(fits, paragraph) == render_segments(fits, segs)
            },
{
    let words = split_words(paragraph);
    if words.len() > 0 {
        lemma_words_nonempty(paragraph);
        lemma_segments_of(fits, words);
        let (done, run) = segments_of(fits, words);
        if run.len() > 0 {
            let r = Segment::Run(run);
            let segs = done.push(r);
            assert(first_word(r) == run[0]);
            lemma_greedy_push(fits, done, r);
            lemma_render_push(fits, done, r);
            lemma_join_words_nonempty(run);
            assert(segment_words(segs) =~= words);
            assert forall|i: int| 0 <= i < segs.len() implies segment_ok(fits, #[trigger] segs[i]) by {
                if i < done.len() {
                    assert(segs[i] == done[i]);
                }
            }
            assert(paragraph_lines(fits, paragraph) =~= render_segments(fits, segs));
        } else {
            assert(join_words(run) =~= Seq::<char>::empty());
            assert(segment_words(done) =~= words);
            assert(paragraph_lines(fits, paragraph) =~= render_segments(fits, done));
        }
    }
}

} // verus!
