use vstd::prelude::*;

verus! {

/// Characters that form a one-character token of their own.
pub open spec fn is_delimiter(c: char) -> bool {
    c == ':' || c == ',' || c == '.' || c == '?' || c == '!' || c == '(' || c == ')' || c == '\n'
}

/// Characters that belong to a word token: anything that neither separates
/// nor delimits.
pub open spec fn is_word_char(c: char) -> bool {
    c != ' ' && !is_delimiter(c)
}

/// Length of the maximal word prefix of `s`.
pub open spec fn word_len(s: Seq<char>) -> nat
    decreases s.len(),
{
    if s.len() > 0 && is_word_char(s[0]) {
        1 + word_len(s.drop_first())
    } else {
        0
    }
}

/// The token sequence of `s`: runs of spaces separate without producing
/// tokens, each delimiter character is a token of its own, and every maximal
/// run of word characters is one token.
pub open spec fn tokens_of(s: Seq<char>) -> Seq<Seq<char>>
    decreases s.len(),
    via tokens_of_decreases
{
    if s.len() == 0 {
        Seq::empty()
    } else if s[0] == ' ' {
        tokens_of(s.drop_first())
    } else if is_delimiter(s[0]) {
        seq![seq![s[0]]] + tokens_of(s.drop_first())
    } else {
        seq![s.take(word_len(s) as int)] + tokens_of(s.skip(word_len(s) as int))
    }
}

#[via_fn]
proof fn tokens_of_decreases(s: Seq<char>) {
    if s.len() > 0 && s[0] != ' ' && !is_delimiter(s[0]) {
        assert(word_len(s) >= 1);
        lemma_word_len_le(s);
    }
}

/// The maximal word prefix never runs past the end.
pub proof fn lemma_word_len_le(s: Seq<char>)
    ensures
        word_len(s) <= s.len(),
    decreases s.len(),
{
    if s.len() > 0 && is_word_char(s[0]) {
        lemma_word_len_le(s.drop_first());
    }
}

/// The exact extent of the maximal word prefix: `n` word characters followed
/// by the end or by a non-word character.
proof fn lemma_word_len_exact(s: Seq<char>, n: int)
    requires
        0 <= n <= s.len(),
        forall|j: int| 0 <= j < n ==> is_word_char(s[j]),
        n == s.len() || !is_word_char(s[n]),
    ensures
        word_len(s) == n,
    decreases n,
{
    if n == 0 {
    } else {
        assert(is_word_char(s[0]));
        assert forall|j: int| 0 <= j < n - 1 implies is_word_char(s.drop_first()[j]) by {
            assert(s.drop_first()[j] == s[j + 1]);
        }
        lemma_word_len_exact(s.drop_first(), n - 1);
    }
}

/// The lazy tokenizer: hands out the tokens of the text one at a time, in
/// order, until none are left.
pub struct Words {
    data: String,
    length: usize,
    position: usize,
}

impl Words {
    /// The full text being tokenized.
    pub closed spec fn text(&self) -> Seq<char> {
        self.data@
    }

    /// The part of the text not yet consumed.
    pub closed spec fn rest(&self) -> Seq<char> {
        self.data@.skip(self.position as int)
    }

    pub closed spec fn inv(&self) -> bool {
        self.position <= self.length && self.length == self.data@.len()
    }

    /// Start tokenizing `data` from its beginning.
    pub fn new(data: &str) -> (w: Words)
        ensures
            w.inv(),
            w.text() == data@,
            w.rest() == data@,
    {
        let owned = data.to_owned();
        let n = owned.as_str().unicode_len();
        let w = Words { data: owned, length: n, position: 0 };
        proof {
            assert(w.rest() =~= data@);
        }
        w
    }
}

/// Runtime test matching `is_delimiter`.
fn is_delimiter_char(c: char) -> (b: bool)
    ensures
        b == is_delimiter(c),
{
    c == ':' || c == ',' || c == '.' || c == '?' || c == '!' || c == '(' || c == ')' || c == '\n'
}

impl Words {
    /// Produce the next token of the text, or `None` once nothing but
    /// separating spaces remains: the head of `tokens_of` on the unconsumed
    /// part, which shrinks by exactly that one token.
    pub fn next(&mut self) -> (r: Option<String>)
        requires
            old(self).inv(),
        ensures
            final(self).inv(),
            final(self).text() == old(self).text(),
            match r {
                Some(t) => tokens_of(old(self).rest()).len() > 0 && t@ == tokens_of(
                    old(self).rest(),
                )[0] && tokens_of(final(self).rest()) == tokens_of(old(self).rest()).drop_first(),
                None => tokens_of(old(self).rest()).len() == 0 && final(self).rest().len() == 0,
            },
    {
        let ghost toks0 = tokens_of(old(self).rest());
        // spaces separate tokens but never form one
        while self.position < self.length && self.data.as_str().get_char(self.position) == ' '
            invariant
                self.inv(),
                self.text() == old(self).text(),
                tokens_of(self.rest()) == toks0,
            decreases self.length - self.position,
        {
            proof {
                let rest = self.rest();
                assert(rest[0] == ' ');
                assert(rest.drop_first() =~= self.text().skip(self.position + 1));
            }
            self.position = self.position + 1;
        }
        if self.position == self.length {
            proof {
                assert(self.rest().len() == 0);
                assert(tokens_of(self.rest()) =~= Seq::<Seq<char>>::empty());
            }
            return None;
        }
        let c = self.data.as_str().get_char(self.position);
        let ghost rest1 = self.rest();
        proof {
            assert(c == rest1[0]);
        }
        if is_delimiter_char(c) {
            let start = self.position;
            self.position = start + 1;
            let tok = self.data.as_str().substring_char(start, start + 1).to_owned();
            proof {
                assert(tok@ =~= seq![c]);
                assert(self.rest() =~= rest1.drop_first());
                assert(tokens_of(rest1) == seq![seq![rest1[0]]] + tokens_of(rest1.drop_first()));
                assert(tokens_of(rest1)[0] == tok@);
                assert(tokens_of(rest1).drop_first() =~= tokens_of(self.rest()));
            }
            Some(tok)
        } else {
            let start = self.position;
            let mut end = start;
            loop
                invariant_except_break
                    self.inv(),
                    start <= end <= self.length,
                    forall|k: int| start <= k < end ==> is_word_char(self.text()[k]),
                ensures
                    start <= end <= self.length,
                    forall|k: int| start <= k < end ==> is_word_char(self.text()[k]),
                    end == self.length || !is_word_char(self.text()[end as int]),
                decreases self.length - end,
            {
                if end == self.length {
                    break;
                }
                let ch = self.data.as_str().get_char(end);
                if ch == ' ' {
                    break;
                }
                if is_delimiter_char(ch) {
                    break;
                }
                end = end + 1;
            }
            self.position = end;
            let tok = self.data.as_str().substring_char(start, end).to_owned();
            proof {
                let n = end - start;
                assert forall|j: int| 0 <= j < n implies is_word_char(rest1[j]) by {
                    assert(rest1[j] == self.text()[start + j]);
                }
                if (end as int) < (self.length as int) {
                    assert(!is_word_char(rest1[n]));
                }
                lemma_word_len_exact(rest1, n);
                assert(tok@ =~= rest1.take(n));
                assert(self.rest() =~= rest1.skip(n));
                assert(tokens_of(rest1) == seq![rest1.take(n)] + tokens_of(rest1.skip(n)));
                assert(tokens_of(rest1)[0] == tok@);
                assert(tokens_of(rest1).drop_first() =~= tokens_of(self.rest()));
            }
            Some(tok)
        }
    }
}

} // verus!
