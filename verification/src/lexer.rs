//! Lexical analysis: an ordered list of pattern rules is matched against the
//! source bytes, longest match first, with earlier-declared rules winning
//! ties; unrecognized bytes are collected into `Unknown` tokens.

use vstd::prelude::*;

verus! {

/// A half-open byte range `[start, end)` into the source.
#[derive(Clone, Copy, Debug, PartialEq, Eq, PartialOrd, Structural)]
pub struct Span {
    pub start: usize,
    pub end: usize,
}

impl Span {
    /// Number of bytes the span covers.
    pub open spec fn spec_len(self) -> nat {
        (self.end - self.start) as nat
    }

    /// A span is well formed when it does not end before it starts.
    pub open spec fn wf(self) -> bool {
        self.start <= self.end
    }

    pub fn len(self) -> (r: usize)
        requires
            self.wf(),
        ensures
            r == self.spec_len(),
    {
        self.end - self.start
    }

    pub fn new(start: usize, end: usize) -> (r: Span)
        ensures
            r == (Span { start, end }),
    {
        Span { start, end }
    }

    pub fn as_range(self) -> (r: core::ops::Range<usize>)
        ensures
            r.start == self.start,
            r.end == self.end,
    {
        self.start..self.end
    }
}

/// The kinds of token the tokenizer can emit.
#[derive(Clone, Copy, Debug, PartialEq, Eq, PartialOrd, Structural)]
pub enum Tokens {
    Dot,
    Comma,
    OpenSquare,
    CloseSquare,
    Plus,
    Minus,
    ShiftR,
    ShiftL,
    Comment,
    Newline,
    Unknown,
}

/// A token: a kind together with the span of source bytes it covers.
#[derive(Clone, Copy, Debug, PartialEq, Eq, PartialOrd, Structural)]
pub struct Token {
    pub kind: Tokens,
    pub span: Span,
}

/// An anchored pattern, matched against the start of the remaining input.
#[derive(Clone, Copy, Debug, PartialEq, Eq, Structural)]
pub enum Pattern {
    /// Exactly the given byte.
    Lit(u8),
    /// One or more word or space bytes (letters, digits, underscore, space).
    WordSpace,
    /// One or more newline sequences (a line feed, or a carriage return
    /// followed by a line feed).
    Newlines,
}

/// One tokenization rule: tokens of kind `kind` are produced where
/// `pattern` matches.
#[derive(Clone, Copy, Debug, PartialEq, Eq, Structural)]
pub struct Rule {
    pub kind: Tokens,
    pub pattern: Pattern,
}

/// Word or space bytes: ASCII letters, digits, underscore, and space.
pub open spec fn is_word_space(b: u8) -> bool {
    b == 32 || (48 <= b && b <= 57) || (65 <= b && b <= 90) || (97 <= b && b <= 122) || b == 95
}

/// Length of the longest prefix of `s` made of word or space bytes.
pub open spec fn word_space_len(s: Seq<u8>) -> nat
    decreases s.len(),
{
    if s.len() > 0 && is_word_space(s[0]) {
        1 + word_space_len(s.skip(1))
    } else {
        0
    }
}

/// Length of the longest prefix of `s` made of newline sequences, where a
/// newline sequence is a line feed or a carriage return followed by a line
/// feed.
pub open spec fn newline_len(s: Seq<u8>) -> nat
    decreases s.len(),
{
    if s.len() > 0 && s[0] == 10 {
        1 + newline_len(s.skip(1))
    } else if s.len() >= 2 && s[0] == 13 && s[1] == 10 {
        2 + newline_len(s.skip(2))
    } else {
        0
    }
}

/// Length of the match of `p` anchored at the start of `s`; zero means no
/// match.  No pattern ever matches an empty prefix.
pub open spec fn pattern_len(p: Pattern, s: Seq<u8>) -> nat {
    match p {
        Pattern::Lit(b) => if s.len() > 0 && s[0] == b { 1 } else { 0 },
        Pattern::WordSpace => word_space_len(s),
        Pattern::Newlines => newline_len(s),
    }
}

/// The winning rule at the start of `s`: among the rules whose pattern
/// matches, the one with the longest match, earlier-declared rules winning
/// ties.  `None` when no rule matches.
pub open spec fn best_match(rules: Seq<Rule>, s: Seq<u8>) -> Option<(Tokens, nat)>
    decreases rules.len(),
{
    if rules.len() == 0 {
        None
    } else {
        let l = pattern_len(rules[0].pattern, s);
        let rest = best_match(rules.skip(1), s);
        if l == 0 {
            rest
        } else {
            match rest {
                None => Some((rules[0].kind, l)),
                Some((k, lr)) => if lr > l {
                    Some((k, lr))
                } else {
                    Some((rules[0].kind, l))
                },
            }
        }
    }
}

/// Length of the `Unknown` token that starts at the head of `s`: the
/// tokenizer advances one byte at a time, re-attempting rule matching after
/// each byte, and stops just before the first position where some rule
/// matches (or at the end of the input).
pub open spec fn unknown_len(rules: Seq<Rule>, s: Seq<u8>) -> nat
    decreases s.len(),
{
    if s.len() <= 1 {
        s.len()
    } else if best_match(rules, s.skip(1)).is_some() {
        1
    } else {
        1 + unknown_len(rules, s.skip(1))
    }
}

/// Length of the next token at the head of `s` (never zero on nonempty
/// input, so the tokenizer always makes progress).
pub open spec fn next_token_len(rules: Seq<Rule>, s: Seq<u8>) -> nat {
    match best_match(rules, s) {
        Some((k, l)) => l,
        None => unknown_len(rules, s),
    }
}

/// Kind of the next token at the head of `s`.
pub open spec fn next_token_kind(rules: Seq<Rule>, s: Seq<u8>) -> Tokens {
    match best_match(rules, s) {
        Some((k, l)) => k,
        None => Tokens::Unknown,
    }
}

pub proof fn lemma_word_space_len_le(s: Seq<u8>)
    ensures
        word_space_len(s) <= s.len(),
    decreases s.len(),
{
    if s.len() > 0 && is_word_space(s[0]) {
        lemma_word_space_len_le(s.skip(1));
    }
}

pub proof fn lemma_newline_len_le(s: Seq<u8>)
    ensures
        newline_len(s) <= s.len(),
    decreases s.len(),
{
    if s.len() > 0 && s[0] == 10 {
        lemma_newline_len_le(s.skip(1));
    } else if s.len() >= 2 && s[0] == 13 && s[1] == 10 {
        lemma_newline_len_le(s.skip(2));
    }
}

pub proof fn lemma_pattern_len_le(p: Pattern, s: Seq<u8>)
    ensures
        pattern_len(p, s) <= s.len(),
{
    match p {
        Pattern::Lit(b) => {},
        Pattern::WordSpace => lemma_word_space_len_le(s),
        Pattern::Newlines => lemma_newline_len_le(s),
    }
}

pub proof fn lemma_best_match_bounds(rules: Seq<Rule>, s: Seq<u8>)
    ensures
        best_match(rules, s) matches Some(kl) ==> 1 <= kl.1 <= s.len(),
    decreases rules.len(),
{
    if rules.len() > 0 {
        lemma_pattern_len_le(rules[0].pattern, s);
        lemma_best_match_bounds(rules.skip(1), s);
    }
}

pub proof fn lemma_unknown_len_bounds(rules: Seq<Rule>, s: Seq<u8>)
    ensures
        s.len() > 0 ==> 1 <= unknown_len(rules, s) <= s.len(),
    decreases s.len(),
{
    if s.len() > 1 {
        lemma_unknown_len_bounds(rules, s.skip(1));
    }
}

pub proof fn lemma_next_token_len_bounds(rules: Seq<Rule>, s: Seq<u8>)
    ensures
        s.len() > 0 ==> 1 <= next_token_len(rules, s) <= s.len(),
{
    lemma_best_match_bounds(rules, s);
    lemma_unknown_len_bounds(rules, s);
}

/// Some rule matches at the head of `s` exactly when some pattern in the
/// list matches there.
pub proof fn lemma_best_match_some_iff(rules: Seq<Rule>, s: Seq<u8>)
    ensures
        best_match(rules, s).is_some() <==> exists|i: int|
            0 <= i < rules.len() && pattern_len(#[trigger] rules[i].pattern, s) > 0,
    decreases rules.len(),
{
    if rules.len() > 0 {
        lemma_best_match_some_iff(rules.skip(1), s);
        let l = pattern_len(rules[0].pattern, s);
        if l > 0 {
            assert(pattern_len(rules[0].pattern, s) > 0);
        } else {
            if best_match(rules, s).is_some() {
                let i = choose|i: int|
                    0 <= i < rules.skip(1).len() && pattern_len(
                        #[trigger] rules.skip(1)[i].pattern,
                        s,
                    ) > 0;
                assert(rules.skip(1)[i] == rules[i + 1]);
                assert(pattern_len(rules[i + 1].pattern, s) > 0);
            }
            if exists|i: int|
                0 <= i < rules.len() && pattern_len(#[trigger] rules[i].pattern, s) > 0 {
                let i = choose|i: int|
                    0 <= i < rules.len() && pattern_len(#[trigger] rules[i].pattern, s) > 0;
                assert(i != 0);
                assert(rules.skip(1)[i - 1] == rules[i]);
            }
        }
    }
}

#[via_fn]
proof fn spec_tokenize_decreases(rules: Seq<Rule>, s: Seq<u8>, pos: int) {
    if s.len() > 0 {
        lemma_next_token_len_bounds(rules, s);
    }
}

/// The token sequence produced from source bytes `s`, with spans counted
/// from byte offset `pos`: at each position the winning rule's token is
/// emitted, or an `Unknown` token where no rule matches.
pub open spec fn spec_tokenize(rules: Seq<Rule>, s: Seq<u8>, pos: int) -> Seq<Token>
    decreases s.len()
        via spec_tokenize_decreases
{
    if s.len() == 0 {
        Seq::empty()
    } else {
        let l = next_token_len(rules, s);
        let t = Token {
            kind: next_token_kind(rules, s),
            span: Span { start: pos as usize, end: (pos + l) as usize },
        };
        seq![t] + spec_tokenize(rules, s.skip(l as int), pos + l)
    }
}

/// The rule list of this language, in declaration order: the eight
/// one-byte instruction rules, then comments, then newlines.
pub open spec fn spec_rules() -> Seq<Rule> {
    seq![
        Rule { kind: Tokens::Dot, pattern: Pattern::Lit(46) },
        Rule { kind: Tokens::Comma, pattern: Pattern::Lit(44) },
        Rule { kind: Tokens::OpenSquare, pattern: Pattern::Lit(91) },
        Rule { kind: Tokens::CloseSquare, pattern: Pattern::Lit(93) },
        Rule { kind: Tokens::Plus, pattern: Pattern::Lit(43) },
        Rule { kind: Tokens::Minus, pattern: Pattern::Lit(45) },
        Rule { kind: Tokens::ShiftR, pattern: Pattern::Lit(62) },
        Rule { kind: Tokens::ShiftL, pattern: Pattern::Lit(60) },
        Rule { kind: Tokens::Comment, pattern: Pattern::WordSpace },
        Rule { kind: Tokens::Newline, pattern: Pattern::Newlines },
    ]
}

/// The rule list of this language as a vector, for building a `Lexer`.
pub fn default_rules() -> (r: Vec<Rule>)
    ensures
        r@ == spec_rules(),
{
    let mut v: Vec<Rule> = Vec::new();
    v.push(Rule { kind: Tokens::Dot, pattern: Pattern::Lit(46) });
    v.push(Rule { kind: Tokens::Comma, pattern: Pattern::Lit(44) });
    v.push(Rule { kind: Tokens::OpenSquare, pattern: Pattern::Lit(91) });
    v.push(Rule { kind: Tokens::CloseSquare, pattern: Pattern::Lit(93) });
    v.push(Rule { kind: Tokens::Plus, pattern: Pattern::Lit(43) });
    v.push(Rule { kind: Tokens::Minus, pattern: Pattern::Lit(45) });
    v.push(Rule { kind: Tokens::ShiftR, pattern: Pattern::Lit(62) });
    v.push(Rule { kind: Tokens::ShiftL, pattern: Pattern::Lit(60) });
    v.push(Rule { kind: Tokens::Comment, pattern: Pattern::WordSpace });
    v.push(Rule { kind: Tokens::Newline, pattern: Pattern::Newlines });
    proof {
        assert(v@ =~= spec_rules());
    }
    v
}

/// Every token's span ends no earlier than it starts.
pub open spec fn wf_spans(toks: Seq<Token>) -> bool {
    forall|i: int| 0 <= i < toks.len() ==> (#[trigger] toks[i]).span.wf()
}

/// Every token's span is a well-formed range into `src`.
pub open spec fn wf_tokens(toks: Seq<Token>, src: Seq<u8>) -> bool {
    forall|i: int|
        0 <= i < toks.len() ==> (#[trigger] toks[i]).span.wf() && toks[i].span.end <= src.len()
}

/// The tokenizer: an ordered rule list and a running cursor of how many
/// bytes of source have been consumed so far (token spans are counted from
/// that cursor).
pub struct Lexer {
    pub rules: Vec<Rule>,
    pub consumed_len: usize,
}

fn word_space_byte(b: u8) -> (r: bool)
    ensures
        r == is_word_space(b),
{
    b == 32 || (48 <= b && b <= 57) || (65 <= b && b <= 90) || (97 <= b && b <= 122) || b == 95
}

/// Length of the match of `p` against `input` anchored at byte `from`.
fn match_at(p: Pattern, input: &Vec<u8>, from: usize) -> (l: usize)
    requires
        from <= input.len(),
    ensures
        l == pattern_len(p, input@.skip(from as int)),
{
    match p {
        Pattern::Lit(b) => {
            if from < input.len() {
                assert(input@.skip(from as int).len() > 0);
                assert(input@.skip(from as int)[0] == input@[from as int]);
                if input[from] == b {
                    assert(pattern_len(p, input@.skip(from as int)) == 1);
                    1
                } else {
                    assert(pattern_len(p, input@.skip(from as int)) == 0);
                    0
                }
            } else {
                assert(input@.skip(from as int).len() == 0);
                assert(pattern_len(p, input@.skip(from as int)) == 0);
                0
            }
        },
        Pattern::WordSpace => {
            let mut j = from;
            while j < input.len() && word_space_byte(input[j])
                invariant
                    from <= j <= input.len(),
                    word_space_len(input@.skip(from as int)) == j - from + word_space_len(
                        input@.skip(j as int),
                    ),
                decreases input.len() - j,
            {
                proof {
                    assert(input@.skip(j as int).skip(1) =~= input@.skip(j + 1));
                }
                j = j + 1;
            }
            proof {
                assert(word_space_len(input@.skip(j as int)) == 0);
            }
            j - from
        },
        Pattern::Newlines => {
            let mut j = from;
            let mut go = true;
            while go
                invariant
                    from <= j <= input.len(),
                    newline_len(input@.skip(from as int)) == j - from + newline_len(
                        input@.skip(j as int),
                    ),
                    !go ==> newline_len(input@.skip(j as int)) == 0,
                decreases input.len() - j + (if go {
                    1int
                } else {
                    0int
                }),
            {
                if j < input.len() && input[j] == 10 {
                    proof {
                        assert(input@.skip(j as int).skip(1) =~= input@.skip(j + 1));
                    }
                    j = j + 1;
                } else if j < input.len() && j + 1 < input.len() && input[j] == 13 && input[j + 1]
                    == 10 {
                    proof {
                        assert(input@.skip(j as int).skip(2) =~= input@.skip(j + 2));
                    }
                    j = j + 2;
                } else {
                    proof {
                        if j < input.len() {
                            assert(input@.skip(j as int)[0] == input@[j as int]);
                            if j + 1 < input.len() {
                                assert(input@.skip(j as int)[1] == input@[j + 1]);
                            }
                        }
                        assert(newline_len(input@.skip(j as int)) == 0);
                    }
                    go = false;
                }
            }
            j - from
        },
    }
}

/// Whether any rule in the list matches at byte `from` of `input`.
fn any_match(rules: &Vec<Rule>, input: &Vec<u8>, from: usize) -> (r: bool)
    requires
        from <= input.len(),
    ensures
        r == best_match(rules@, input@.skip(from as int)).is_some(),
{
    let ghost s = input@.skip(from as int);
    let mut i: usize = 0;
    while i < rules.len()
        invariant
            0 <= i <= rules.len(),
            from <= input.len(),
            s == input@.skip(from as int),
            forall|j: int| 0 <= j < i ==> pattern_len(#[trigger] rules@[j].pattern, s) == 0,
        decreases rules.len() - i,
    {
        let l = match_at(rules[i].pattern, input, from);
        if l > 0 {
            proof {
                lemma_best_match_some_iff(rules@, s);
            }
            return true;
        }
        i = i + 1;
    }
    proof {
        lemma_best_match_some_iff(rules@, s);
    }
    false
}

impl Lexer {
    pub fn build(rules: Vec<Rule>) -> (r: Lexer)
        ensures
            r.rules == rules,
            r.consumed_len == 0,
    {
        Lexer { rules, consumed_len: 0 }
    }

    /// Emits the winning rule's token at byte `from`, advancing the consumed
    /// cursor, or reports that no rule matches there.
    fn token_valid(&mut self, input: &Vec<u8>, from: usize) -> (r: Option<Token>)
        requires
            from <= input.len(),
            old(self).consumed_len + (input.len() - from) <= usize::MAX,
        ensures
            final(self).rules == old(self).rules,
            match best_match(old(self).rules@, input@.skip(from as int)) {
                Some(kl) => r == Some(
                    Token {
                        kind: kl.0,
                        span: Span {
                            start: old(self).consumed_len,
                            end: (old(self).consumed_len + kl.1) as usize,
                        },
                    },
                ) && final(self).consumed_len == old(self).consumed_len + kl.1,
                None => r.is_none() && final(self).consumed_len == old(self).consumed_len,
            },
    {
        let ghost s = input@.skip(from as int);
        let mut best: Option<(Tokens, usize)> = None;
        let mut i: usize = self.rules.len();
        while i > 0
            invariant
                0 <= i <= self.rules.len(),
                from <= input.len(),
                s == input@.skip(from as int),
                match best {
                    Some(kl) => best_match(self.rules@.skip(i as int), s) == Some(
                        (kl.0, kl.1 as nat),
                    ),
                    None => best_match(self.rules@.skip(i as int), s).is_none(),
                },
            decreases i,
        {
            i = i - 1;
            let l = match_at(self.rules[i].pattern, input, from);
            proof {
                assert(self.rules@.skip(i as int)[0] == self.rules@[i as int]);
                assert(self.rules@.skip(i as int).skip(1) =~= self.rules@.skip(i + 1));
            }
            if l > 0 {
                best = match best {
                    None => Some((self.rules[i].kind, l)),
                    Some((k, lr)) => if lr > l {
                        Some((k, lr))
                    } else {
                        Some((self.rules[i].kind, l))
                    },
                };
            }
        }
        proof {
            assert(self.rules@.skip(0) =~= self.rules@);
            lemma_best_match_bounds(self.rules@, s);
        }
        match best {
            None => None,
            Some((k, l)) => {
                let prev_len = self.consumed_len;
                self.consumed_len = self.consumed_len + l;
                Some(Token { kind: k, span: Span::new(prev_len, self.consumed_len) })
            },
        }
    }

    /// Collects unrecognized bytes from `from` on into a single `Unknown`
    /// token, advancing one byte at a time and re-attempting rule matching
    /// after each byte.
    fn token_invalid(&mut self, input: &Vec<u8>, from: usize) -> (t: Token)
        requires
            from < input.len(),
            old(self).consumed_len + (input.len() - from) <= usize::MAX,
        ensures
            final(self).rules == old(self).rules,
            t.kind == Tokens::Unknown,
            t.span.start == old(self).consumed_len,
            t.span.end == old(self).consumed_len + unknown_len(
                old(self).rules@,
                input@.skip(from as int),
            ),
            final(self).consumed_len == t.span.end,
    {
        let prev_len = self.consumed_len;
        let mut j = from + 1;
        while j < input.len() && !any_match(&self.rules, input, j)
            invariant
                from < j <= input.len(),
                forall|a: int| from < a < j ==> best_match(
                    self.rules@,
                    #[trigger] input@.skip(a),
                ).is_none(),
            decreases input.len() - j,
        {
            j = j + 1;
        }
        proof {
            lemma_unknown_run(self.rules@, input@, from as int, j as int);
        }
        self.consumed_len = self.consumed_len + (j - from);
        Token { kind: Tokens::Unknown, span: Span::new(prev_len, self.consumed_len) }
    }

    /// The next token at byte `from` of `input`: the winning rule's token,
    /// or an `Unknown` token where no rule matches.
    pub fn next_token(&mut self, input: &Vec<u8>, from: usize) -> (t: Token)
        requires
            from < input.len(),
            old(self).consumed_len + (input.len() - from) <= usize::MAX,
        ensures
            final(self).rules == old(self).rules,
            t.kind == next_token_kind(old(self).rules@, input@.skip(from as int)),
            t.span.start == old(self).consumed_len,
            t.span.end == old(self).consumed_len + next_token_len(
                old(self).rules@,
                input@.skip(from as int),
            ),
            final(self).consumed_len == t.span.end,
    {
        match self.token_valid(input, from) {
            Some(t) => t,
            None => self.token_invalid(input, from),
        }
    }

    /// Tokenizes the whole input: the resulting token spans are contiguous
    /// and exactly cover the input, starting at the consumed cursor.
    pub fn tokenize(&mut self, input: &Vec<u8>) -> (r: Vec<Token>)
        requires
            old(self).consumed_len + input.len() <= usize::MAX,
        ensures
            final(self).rules == old(self).rules,
            final(self).consumed_len == old(self).consumed_len + input.len(),
            r@ == spec_tokenize(old(self).rules@, input@, old(self).consumed_len as int),
    {
        let ghost c0 = self.consumed_len as int;
        let ghost full = spec_tokenize(self.rules@, input@, c0);
        let mut val: Vec<Token> = Vec::new();
        let mut idx: usize = 0;
        proof {
            assert(input@.skip(0) =~= input@);
            assert(Seq::<Token>::empty() + full =~= full);
        }
        while idx < input.len()
            invariant
                0 <= idx <= input.len(),
                self.rules == old(self).rules,
                self.consumed_len == old(self).consumed_len + idx,
                old(self).consumed_len + input.len() <= usize::MAX,
                c0 == old(self).consumed_len as int,
                full == spec_tokenize(self.rules@, input@, c0),
                full == val@ + spec_tokenize(self.rules@, input@.skip(idx as int), c0 + idx),
            decreases input.len() - idx,
        {
            let ghost rem = input@.skip(idx as int);
            proof {
                lemma_next_token_len_bounds(self.rules@, rem);
            }
            let t = self.next_token(input, idx);
            let l = t.span.len();
            proof {
                assert(rem.skip(next_token_len(self.rules@, rem) as int) =~= input@.skip(
                    idx + next_token_len(self.rules@, rem),
                ));
                assert((val@ + seq![t]) + spec_tokenize(
                    self.rules@,
                    input@.skip(idx + l),
                    c0 + idx + l,
                ) =~= val@ + (seq![t] + spec_tokenize(self.rules@, input@.skip(idx + l), c0 + idx + l)));
            }
            val.push(t);
            idx = idx + l;
        }
        proof {
            assert(input@.skip(idx as int) =~= Seq::<u8>::empty());
            assert(val@ + spec_tokenize(self.rules@, input@.skip(idx as int), c0 + idx) =~= val@);
        }
        val
    }
}

/// Token spans chain without gaps or overlaps from `start` to `end_`: the
/// first span starts at `start`, every span ends no earlier than it starts,
/// each following span starts where the previous one ended, and the last
/// span ends at `end_`.
pub open spec fn spans_cover(toks: Seq<Token>, start: int, end_: int) -> bool {
    &&& (toks.len() == 0 ==> start == end_)
    &&& (toks.len() > 0 ==> toks[0].span.start == start && toks.last().span.end == end_)
    &&& (forall|i: int| 0 <= i < toks.len() ==> (#[trigger] toks[i]).span.start <= toks[i].span.end)
    &&& (forall|i: int|
        0 <= i < toks.len() - 1 ==> (#[trigger] toks[i]).span.end == toks[i + 1].span.start)
}

/// For every source, the emitted token spans are contiguous and together
/// exactly cover the input: tokenizing `s` from byte offset `pos` yields
/// spans that chain from `pos` to `pos + s.len()`.
#[verifier::rlimit(100)]
pub proof fn lemma_token_spans_cover(rules: Seq<Rule>, s: Seq<u8>, pos: int)
    requires
        0 <= pos,
        pos + s.len() <= usize::MAX,
    ensures
        spans_cover(spec_tokenize(rules, s, pos), pos, pos + s.len()),
    decreases s.len(),
{
    if s.len() > 0 {
        lemma_next_token_len_bounds(rules, s);
        let l = next_token_len(rules, s);
        let toks = spec_tokenize(rules, s, pos);
        let rest = spec_tokenize(rules, s.skip(l as int), pos + l);
        lemma_token_spans_cover(rules, s.skip(l as int), pos + l);
        assert(toks[0].span.start == pos && toks[0].span.end == pos + l);
        assert(forall|i: int| 0 < i < toks.len() ==> toks[i] == rest[i - 1]);
        if rest.len() > 0 {
            assert(toks.last() == rest.last());
        }
        assert(spans_cover(toks, pos, pos + s.len()));
    }
}

/// Every emitted span lies between the starting offset and the end of the
/// input.
pub proof fn lemma_token_spans_in_range(rules: Seq<Rule>, s: Seq<u8>, pos: int)
    requires
        0 <= pos,
        pos + s.len() <= usize::MAX,
    ensures
        forall|i: int| 0 <= i < spec_tokenize(rules, s, pos).len() ==> pos <= (#[trigger] spec_tokenize(
            rules,
            s,
            pos,
        )[i]).span.start <= spec_tokenize(rules, s, pos)[i].span.end <= pos + s.len(),
    decreases s.len(),
{
    if s.len() > 0 {
        lemma_next_token_len_bounds(rules, s);
        let l = next_token_len(rules, s);
        let toks = spec_tokenize(rules, s, pos);
        let rest = spec_tokenize(rules, s.skip(l as int), pos + l);
        lemma_token_spans_in_range(rules, s.skip(l as int), pos + l);
        assert(forall|i: int| 0 < i < toks.len() ==> toks[i] == rest[i - 1]);
    }
}

/// Tokenizing a whole source from offset zero yields spans that the tree
/// builder accepts: each one a well-formed range into that source.
pub proof fn lemma_tokenize_wf(rules: Seq<Rule>, s: Seq<u8>)
    requires
        s.len() <= usize::MAX,
    ensures
        wf_tokens(spec_tokenize(rules, s, 0), s),
{
    lemma_token_spans_in_range(rules, s, 0);
}

/// A maximal run of bytes at which no rule matches forms one `Unknown`
/// token reaching to the first position where a rule matches again (or to
/// the end of the input).
proof fn lemma_unknown_run(rules: Seq<Rule>, input: Seq<u8>, from: int, j: int)
    requires
        0 <= from < j <= input.len(),
        forall|a: int| from < a < j ==> best_match(rules, #[trigger] input.skip(a)).is_none(),
        j == input.len() || best_match(rules, input.skip(j)).is_some(),
    ensures
        unknown_len(rules, input.skip(from)) == j - from,
    decreases j - from,
{
    let s = input.skip(from);
    assert(s.skip(1) =~= input.skip(from + 1));
    if j == from + 1 {
        if j < input.len() {
            assert(best_match(rules, s.skip(1)).is_some());
            assert(s.len() > 1);
        }
    } else {
        assert(best_match(rules, input.skip(from + 1)).is_none());
        lemma_unknown_run(rules, input, from + 1, j);
        assert(s.len() > 1);
    }
}

} // verus!
