//! The tokens of line-oriented input: a buffer that takes whole lines and
//! hands out their tokens one by one.
use vstd::prelude::*;

verus! {

/// What `char::is_whitespace` returns for `c`.
pub uninterp spec fn is_white_space(c: char) -> bool;

/// `char::is_whitespace` tells whether a character is white space. Its
/// answer depends on the character alone.
pub assume_specification[ char::is_whitespace ](c: char) -> (white: bool)
    ensures
        white == is_white_space(c),
;

/// `String::push` appends one character to the end of a string.
pub assume_specification[ String::push ](text: &mut String, c: char)
    ensures
        final(text)@ == old(text)@.push(c),
;

/// The tokens of `text`, its longest runs of characters that are not white
/// space, as they come when `text` is read from its start: white space ends a
/// token, another character goes on with the token before it or starts one.
pub open spec fn tokens(text: Seq<char>) -> Seq<Seq<char>>
    decreases text.len(),
{
    if text.len() == 0 {
        Seq::empty()
    } else {
        let read = tokens(text.drop_last());
        if is_white_space(text.last()) {
            read
        } else if ends_in_token(text.drop_last()) {
            read.drop_last().push(read.last().push(text.last()))
        } else {
            read.push(seq![text.last()])
        }
    }
}

/// The last character of `text` belongs to a token.
pub open spec fn ends_in_token(text: Seq<char>) -> bool {
    text.len() > 0 && !is_white_space(text.last())
}

/// The texts of `words`.
pub open spec fn texts(words: Seq<String>) -> Seq<Seq<char>> {
    Seq::new(words.len(), |i: int| words[i]@)
}

/// The tokens of the lines read so far that have not been handed out.
pub struct StdIn {
    buffer: Vec<String>,
}

impl StdIn {
    /// The tokens that wait to be handed out, the next one first.
    pub closed spec fn pending(&self) -> Seq<Seq<char>> {
        texts(self.buffer@).reverse()
    }

    /// A buffer in which no token waits.
    pub fn new() -> (input: StdIn)
        ensures
            input.pending() == Seq::<Seq<char>>::empty(),
    {
        let input = StdIn { buffer: Vec::new() };
        assert(input.pending() =~= Seq::<Seq<char>>::empty());
        input
    }

    /// Hands out the token that waits first, or nothing where none waits.
    pub fn take(&mut self) -> (token: Option<String>)
        ensures
            match token {
                Some(text) => old(self).pending().len() > 0 && text@ == old(self).pending()[0]
                    && final(self).pending() == old(self).pending().drop_first(),
                None => old(self).pending().len() == 0 && final(self).pending() == old(
                    self,
                ).pending(),
            },
    {
        let token = self.buffer.pop();
        proof {
            if token is Some {
                assert(self.pending() =~= old(self).pending().drop_first());
            }
        }
        token
    }

    /// Takes in a line: its tokens wait before those that are waiting
    /// already, in the order in which the line holds them.
    pub fn feed(&mut self, line: &str)
        ensures
            final(self).pending() == tokens(line@) + old(self).pending(),
    {
        let mut words: Vec<String> = Vec::new();
        let mut word = String::new();
        let mut open = false;
        for c in it: line.chars()
            invariant
                it.seq() == line@,
                open == ends_in_token(line@.take(it.index() as int)),
                !open ==> word@.len() == 0 && texts(words@) == tokens(line@.take(it.index() as int)),
                open ==> texts(words@).push(word@) == tokens(line@.take(it.index() as int)),
        {
            let ghost read = line@.take(it.index() as int);
            let ghost grown = line@.take(it.index() + 1);
            assert(grown.drop_last() =~= read);
            if c.is_whitespace() {
                if open {
                    words.push(word);
                    word = String::new();
                    open = false;
                    assert(texts(words@) =~= tokens(grown));
                }
            } else {
                let ghost begun = texts(words@).push(word@);
                word.push(c);
                assert(grown.last() == c);
                if open {
                    assert(begun.drop_last() =~= texts(words@));
                    assert(texts(words@).push(word@) =~= tokens(grown));
                } else {
                    assert(word@ =~= seq![c]);
                    assert(texts(words@).push(word@) =~= tokens(grown));
                }
                open = true;
            }
        }
        assert(line@.take(line@.len() as int) =~= line@);
        if open {
            words.push(word);
            assert(texts(words@) =~= tokens(line@));
        }
        let ghost waiting = self.pending();
        let ghost all = words@;
        assert(self.pending() =~= texts(all).skip(all.len() as int) + waiting);
        loop
            invariant
                waiting == old(self).pending(),
                texts(all) == tokens(line@),
                words@.len() <= all.len(),
                words@ == all.take(words@.len() as int),
                self.pending() == texts(all).skip(words@.len() as int) + waiting,
            decreases words@.len(),
        {
            let ghost left = words@.len() as int;
            let ghost was = self.buffer@;
            match words.pop() {
                Some(text) => {
                    self.buffer.push(text);
                    assert(text == all[left - 1]);
                    assert(texts(self.buffer@).reverse() =~= seq![text@] + texts(was).reverse());
                    assert(texts(all).skip(left - 1) =~= seq![text@] + texts(all).skip(left));
                    assert(self.pending() =~= texts(all).skip(words@.len() as int) + waiting);
                },
                None => {
                    assert(texts(all).skip(0) =~= texts(all));
                    return ;
                },
            }
        }
    }
}

} // verus!
