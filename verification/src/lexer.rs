//! Lexical filtering: source text to instruction tokens.
//!
//! Every character that is one of the eight command glyphs `> < + - . , [ ]`
//! becomes the corresponding token, in source order; every other character is
//! silently discarded. This stage cannot fail.

use vstd::prelude::*;

verus! {

/// One token per recognized command character of the source language.
#[derive(Clone, Copy, PartialEq, Eq, Structural, Debug)]
pub enum LexicalInst {
    MovRight,
    MovLeft,
    Inc,
    Dec,
    Read,
    Write,
    IniLoop,
    EndLoop,
}

/// The token a character maps to, or `None` for a non-command character.
pub open spec fn token_of(c: char) -> Option<LexicalInst> {
    match c {
        '>' => Some(LexicalInst::MovRight),
        '<' => Some(LexicalInst::MovLeft),
        '+' => Some(LexicalInst::Inc),
        '-' => Some(LexicalInst::Dec),
        '.' => Some(LexicalInst::Write),
        ',' => Some(LexicalInst::Read),
        '[' => Some(LexicalInst::IniLoop),
        ']' => Some(LexicalInst::EndLoop),
        _ => None,
    }
}

/// Whether a character is one of the eight command glyphs.
pub open spec fn is_command(c: char) -> bool {
    token_of(c) is Some
}

/// The token sequence produced from a character sequence: each command
/// character contributes its token, in order, and all else is dropped.
pub open spec fn lex_spec(s: Seq<char>) -> Seq<LexicalInst>
    decreases s.len(),
{
    if s.len() == 0 {
        Seq::empty()
    } else {
        let rest = lex_spec(s.drop_last());
        match token_of(s.last()) {
            Some(t) => rest.push(t),
            None => rest,
        }
    }
}

/// Lexical filtering is a pure projection: the token sequence is exactly the
/// subsequence of command characters of the input, in order, each mapped to
/// its token, with every other character removed.
pub proof fn lemma_lex_is_projection(s: Seq<char>)
    ensures
        lex_spec(s) == s.filter(|c: char| is_command(c)).map_values(
            |c: char| token_of(c)->Some_0,
        ),
    decreases s.len(),
{
    reveal(Seq::filter);
    let pred = |c: char| is_command(c);
    let f = |c: char| token_of(c)->Some_0;
    if s.len() == 0 {
        assert(s.filter(pred).map_values(f) =~= Seq::<LexicalInst>::empty());
    } else {
        lemma_lex_is_projection(s.drop_last());
        let sub = s.drop_last().filter(pred);
        if pred(s.last()) {
            assert(s.filter(pred) == sub.push(s.last()));
            assert(sub.push(s.last()).map_values(f) =~= sub.map_values(f).push(f(s.last())));
        } else {
            assert(s.filter(pred) == sub);
        }
    }
}

/// Scans the source text and keeps exactly the command characters, each as
/// its token, in source order; everything else (whitespace, comments, any
/// other glyph) is skipped. Never fails; a command-free input yields an
/// empty token sequence.
pub fn lexicon_parser(src_code: String) -> (lexicon: Vec<LexicalInst>)
    ensures
        lexicon@ == lex_spec(src_code@),
{
    let mut lexicon: Vec<LexicalInst> = Vec::new();
    let n: usize = src_code.as_str().unicode_len();
    let mut i: usize = 0;
    while i < n
        invariant
            i <= n,
            n == src_code@.len(),
            lexicon@ == lex_spec(src_code@.take(i as int)),
        decreases n - i,
    {
        let symbol = src_code.as_str().get_char(i);
        match symbol {
            '>' => lexicon.push(LexicalInst::MovRight),
            '<' => lexicon.push(LexicalInst::MovLeft),
            '+' => lexicon.push(LexicalInst::Inc),
            '-' => lexicon.push(LexicalInst::Dec),
            '.' => lexicon.push(LexicalInst::Write),
            ',' => lexicon.push(LexicalInst::Read),
            '[' => lexicon.push(LexicalInst::IniLoop),
            ']' => lexicon.push(LexicalInst::EndLoop),
            _ => (),
        }
        proof {
            let t = src_code@.take(i + 1 as int);
            assert(t.drop_last() =~= src_code@.take(i as int));
            assert(t.last() == src_code@[i as int]);
        }
        i = i + 1;
    }
    proof {
        assert(src_code@.take(n as int) =~= src_code@);
    }
    lexicon
}

} // verus!
