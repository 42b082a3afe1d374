use vstd::prelude::*;

use crate::chars::{char_buffer, digit, is_digit, is_space, space};
use crate::number::{
    empty_number, lemma_number_run_advances, number_run, NumberLiteral, NumberState, NumberView,
};
use crate::url::{lemma_url_run_advances, url_run, url_step, UrlState};

verus! {

/// A token found in the input.
#[derive(Debug, PartialEq, Eq)]
pub enum Lexem {
    /// The exact text of a URL, scheme included.
    Url(String),
    /// A numeric literal, as the digits that were read.
    Number(NumberLiteral),
}

/// The mathematical model of a [`Lexem`].
pub enum LexemView {
    Url(Seq<char>),
    Number(NumberView),
}

impl View for Lexem {
    type V = LexemView;

    open spec fn view(&self) -> LexemView {
        match self {
            Lexem::Url(u) => LexemView::Url(u@),
            Lexem::Number(n) => LexemView::Number(n@),
        }
    }
}

/// The tokens of a run of the URL recognizer from position `i`: the matched
/// text when the run accepts, nothing otherwise.
pub open spec fn url_tokens(s: Seq<char>, i: nat) -> Seq<LexemView> {
    let (end, accepted) = url_run(s, i, UrlState::Start);
    if accepted {
        seq![LexemView::Url(s.subrange(i as int, end as int))]
    } else {
        Seq::empty()
    }
}

/// The tokens of a run of the numeric recognizer from position `i`: the
/// literal when its mantissa has a digit, nothing otherwise.
pub open spec fn number_tokens(s: Seq<char>, i: nat) -> Seq<LexemView> {
    let acc = number_run(s, i, NumberState::Start, empty_number()).1;
    if acc.has_mantissa() {
        seq![LexemView::Number(acc)]
    } else {
        Seq::empty()
    }
}

/// A character that hands the scan to the numeric recognizer.
pub open spec fn starts_number(c: char) -> bool {
    is_digit(c) || c == '.' || c == '-'
}

/// The tokens that a scan of `s` finds from position `i` on. Whitespace is
/// skipped; an `h` starts the URL recognizer, a digit, '.' or '-' the numeric
/// one, and the scan goes on from wherever the recognizer stopped, whether
/// it matched or not; any other character is skipped.
pub open spec fn scan(s: Seq<char>, i: nat) -> Seq<LexemView>
    decreases s.len() - i,
    via scan_decreases
{
    if i >= s.len() {
        Seq::empty()
    } else if is_space(s[i as int]) {
        scan(s, i + 1)
    } else if s[i as int] == 'h' {
        url_tokens(s, i) + scan(s, url_run(s, i, UrlState::Start).0)
    } else if starts_number(s[i as int]) {
        number_tokens(s, i) + scan(s, number_run(s, i, NumberState::Start, empty_number()).0)
    } else {
        scan(s, i + 1)
    }
}

#[via_fn]
proof fn scan_decreases(s: Seq<char>, i: nat) {
    if i < s.len() && !is_space(s[i as int]) {
        if s[i as int] == 'h' {
            lemma_url_run_advances(s, i);
        } else if starts_number(s[i as int]) {
            lemma_number_run_advances(s, i);
        }
    }
}

/// A scanning session over one text: the cursor and the tokens found so far.
pub struct Lexer {
    idx: usize,
    parsed_lexems: Vec<Lexem>,
}

impl Lexer {
    /// The position of the cursor, in characters.
    pub closed spec fn cursor(&self) -> nat {
        self.idx as nat
    }

    /// The tokens found so far, in order.
    pub closed spec fn tokens(&self) -> Seq<LexemView> {
        self.parsed_lexems@.map_values(|l: Lexem| l@)
    }

    /// A fresh session: cursor at the start, no tokens.
    pub fn new() -> (r: Lexer)
        ensures
            r.cursor() == 0,
            r.tokens() == Seq::<LexemView>::empty(),
    {
        Lexer { idx: 0, parsed_lexems: Vec::new() }
    }

    /// The tokens found so far, in order.
    pub fn lexems(&self) -> (r: &Vec<Lexem>)
        ensures
            r@.map_values(|l: Lexem| l@) == self.tokens(),
    {
        &self.parsed_lexems
    }

    /// Appending a lexem appends its view to the tokens.
    proof fn lemma_push(&self, l: Lexem, pushed: Seq<Lexem>)
        requires
            pushed == self.parsed_lexems@.push(l),
        ensures
            pushed.map_values(|x: Lexem| x@) == self.tokens() + seq![l@],
    {
        assert(pushed.map_values(|x: Lexem| x@) =~= self.tokens() + seq![l@]);
    }

    /// Runs the URL recognizer at the cursor, which stands on an `h`. The
    /// cursor moves to where the automaton stopped; the URL is appended when
    /// it accepted.
    fn parse_url(&mut self, text: &str, chars: &Vec<char>)
        requires
            chars@ == text@,
            old(self).idx < chars.len(),
            chars[old(self).idx as int] == 'h',
        ensures
            final(self).cursor() == url_run(chars@, old(self).cursor(), UrlState::Start).0,
            final(self).tokens() == old(self).tokens() + url_tokens(chars@, old(self).cursor()),
    {
        let ghost s = chars@;
        let ghost i0 = self.idx as nat;
        let start = self.idx;
        let mut state = UrlState::Start;
        let mut accepted = false;
        loop
            invariant
                s == chars@,
                s == text@,
                start == i0,
                start <= self.idx <= chars.len(),
                self.parsed_lexems == old(self).parsed_lexems,
                url_run(s, self.idx as nat, state) == url_run(s, i0, UrlState::Start),
            ensures
                url_run(s, i0, UrlState::Start) == (self.idx as nat, accepted),
            decreases chars.len() - self.idx,
        {
            if self.idx >= chars.len() {
                accepted = state == UrlState::Done;
                break;
            }
            match url_step(state, chars[self.idx]) {
                Some(next) => {
                    state = next;
                    self.idx = self.idx + 1;
                },
                None => {
                    accepted = state == UrlState::Done;
                    break;
                },
            }
        }
        if accepted {
            let url = String::from_str(text.substring_char(start, self.idx));
            proof {
                self.lemma_push(Lexem::Url(url), self.parsed_lexems@.push(Lexem::Url(url)));
            }
            self.parsed_lexems.push(Lexem::Url(url));
        }
        proof {
            assert(self.tokens() == old(self).tokens() + url_tokens(s, i0));
        }
    }
    /// Runs the numeric recognizer at the cursor, which stands on a digit,
    /// '.' or '-'. The cursor moves to where the recognizer stopped; the
    /// literal is appended when its mantissa has a digit.
    fn parse_number(&mut self, chars: &Vec<char>)
        requires
            old(self).idx < chars.len(),
            starts_number(chars[old(self).idx as int]),
        ensures
            final(self).cursor() == number_run(
                chars@,
                old(self).cursor(),
                NumberState::Start,
                empty_number(),
            ).0,
            final(self).tokens() == old(self).tokens() + number_tokens(chars@, old(self).cursor()),
    {
        let ghost s = chars@;
        let ghost i0 = self.idx as nat;
        let mut state = NumberState::Start;
        let mut literal = NumberLiteral::new();
        loop
            invariant
                s == chars@,
                i0 <= self.idx <= chars.len(),
                self.parsed_lexems == old(self).parsed_lexems,
                number_run(s, self.idx as nat, state, literal@) == number_run(
                    s,
                    i0,
                    NumberState::Start,
                    empty_number(),
                ),
            ensures
                number_run(s, i0, NumberState::Start, empty_number()) == (
                    self.idx as nat,
                    literal@,
                ),
            decreases chars.len() - self.idx,
        {
            if self.idx >= chars.len() {
                break;
            }
            match literal.advance(state, chars[self.idx]) {
                Some(next) => {
                    state = next;
                    self.idx = self.idx + 1;
                },
                None => {
                    break;
                },
            }
        }
        if literal.int_digits.len() > 0 || literal.frac_digits.len() > 0 {
            proof {
                self.lemma_push(
                    Lexem::Number(literal),
                    self.parsed_lexems@.push(Lexem::Number(literal)),
                );
            }
            self.parsed_lexems.push(Lexem::Number(literal));
        }
        proof {
            assert(self.tokens() == old(self).tokens() + number_tokens(s, i0));
        }
    }

    /// Scans `contents` from the cursor to its end. The tokens found are appended
    /// in order, and the cursor ends at the end of the text (or stays where it
    /// was, if it already stood there or beyond).
    pub fn lex(&mut self, contents: &str)
        ensures
            final(self).cursor() == if old(self).cursor() < contents@.len() {
                contents@.len()
            } else {
                old(self).cursor()
            },
            final(self).tokens() == old(self).tokens() + scan(contents@, old(self).cursor()),
    {
        let chars = char_buffer(contents);
        let ghost s = chars@;
        while self.idx < chars.len()
            invariant
                s == chars@,
                s == contents@,
                old(self).idx < chars.len() ==> self.idx <= chars.len(),
                old(self).idx >= chars.len() ==> self.idx == old(self).idx,
                self.tokens() + scan(s, self.idx as nat) == old(self).tokens() + scan(
                    s,
                    old(self).idx as nat,
                ),
            decreases chars.len() - self.idx,
        {
            let ghost round_start = self.idx;
            let mut ch = chars[self.idx];
            while space(ch)
                invariant
                    old(self).idx < chars.len(),
                    round_start <= self.idx,
                    s == chars@,
                    s == contents@,
                    self.idx < chars.len(),
                    ch == s[self.idx as int],
                    self.tokens() + scan(s, self.idx as nat) == old(self).tokens() + scan(
                        s,
                        old(self).idx as nat,
                    ),
                decreases chars.len() - self.idx,
            {
                self.idx = self.idx + 1;
                if self.idx >= chars.len() {
                    proof {
                        let rest = scan(s, self.idx as nat);
                        assert(rest == Seq::<LexemView>::empty());
                        assert(self.tokens() + rest =~= self.tokens());
                    }
                    return;
                }
                ch = chars[self.idx];
            }
            let ghost i = self.idx as nat;
            let ghost before = self.tokens();
            if ch == 'h' {
                self.parse_url(contents, &chars);
                proof {
                    lemma_url_run_advances(s, i);
                    let rest = scan(s, self.idx as nat);
                    assert(before + url_tokens(s, i) + rest =~= before + (url_tokens(s, i) + rest));
                }
            } else if digit(ch) || ch == '.' || ch == '-' {
                self.parse_number(&chars);
                proof {
                    lemma_number_run_advances(s, i);
                    let rest = scan(s, self.idx as nat);
                    assert(before + number_tokens(s, i) + rest =~= before + (number_tokens(s, i)
                        + rest));
                }
            } else {
                self.idx = self.idx + 1;
            }
        }
        proof {
            assert(self.tokens() + Seq::<LexemView>::empty() =~= self.tokens());
        }
    }
}

} // verus!
