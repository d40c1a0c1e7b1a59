//! The tokenizer shared by index building and querying.

use vstd::prelude::*;

use crate::text::{chars_of, string_of};

verus! {

/// A character of a CJK ideograph, Kana or Hangul block: each such
/// character is a term of its own.
pub open spec fn is_cjk_spec(c: char) -> bool {
    ('\u{4E00}' <= c && c <= '\u{9FFF}')
    || ('\u{3400}' <= c && c <= '\u{4DBF}')
    || ('\u{3040}' <= c && c <= '\u{309F}')
    || ('\u{30A0}' <= c && c <= '\u{30FF}')
    || ('\u{AC00}' <= c && c <= '\u{D7AF}')
}

/// A character that extends a word: `[A-Za-z0-9_]`.
pub open spec fn is_word_spec(c: char) -> bool {
    ('a' <= c && c <= 'z') || ('A' <= c && c <= 'Z') || ('0' <= c && c <= '9') || c == '_'
}

/// The lowercase of an ASCII letter; any other character is left as it is.
pub open spec fn lower_spec(c: char) -> char {
    if 'A' <= c && c <= 'Z' {
        ((c as u32 + 32) as u8) as char
    } else {
        c
    }
}

pub fn is_cjk(c: char) -> (r: bool)
    ensures
        r == is_cjk_spec(c),
{
    ('\u{4E00}' <= c && c <= '\u{9FFF}')
    || ('\u{3400}' <= c && c <= '\u{4DBF}')
    || ('\u{3040}' <= c && c <= '\u{309F}')
    || ('\u{30A0}' <= c && c <= '\u{30FF}')
    || ('\u{AC00}' <= c && c <= '\u{D7AF}')
}

pub fn is_word_char(c: char) -> (r: bool)
    ensures
        r == is_word_spec(c),
{
    ('a' <= c && c <= 'z') || ('A' <= c && c <= 'Z') || ('0' <= c && c <= '9') || c == '_'
}

pub fn lower_char(c: char) -> (r: char)
    ensures
        r == lower_spec(c),
{
    if 'A' <= c && c <= 'Z' {
        ((c as u32 + 32) as u8) as char
    } else {
        c
    }
}

} // verus!

verus! {

/// What a finished word buffer contributes: itself as one term, or nothing
/// when it is empty.
pub open spec fn flush(buf: Seq<char>) -> Seq<Seq<char>> {
    if buf.len() == 0 {
        seq![]
    } else {
        seq![buf]
    }
}

/// The terms of `s`, scanned left to right, with `buf` the (lowercased) word
/// read so far.
pub open spec fn tokens_from(s: Seq<char>, buf: Seq<char>) -> Seq<Seq<char>>
    decreases s.len(),
{
    if s.len() == 0 {
        flush(buf)
    } else {
        let c = s[0];
        let rest = s.drop_first();
        if is_cjk_spec(c) {
            flush(buf) + seq![seq![c]] + tokens_from(rest, seq![])
        } else if is_word_spec(c) {
            tokens_from(rest, buf.push(lower_spec(c)))
        } else {
            flush(buf) + tokens_from(rest, seq![])
        }
    }
}

/// The terms of a text: maximal runs of word characters, lowercased, and
/// each CJK character on its own; everything else separates.
pub open spec fn tokens_of(s: Seq<char>) -> Seq<Seq<char>> {
    tokens_from(s, seq![])
}

pub open spec fn views_of(v: Seq<String>) -> Seq<Seq<char>> {
    v.map_values(|t: String| t@)
}

fn push_flushed(out: &mut Vec<String>, buf: &Vec<char>)
    ensures
        views_of(final(out)@) == views_of(old(out)@) + flush(buf@),
{
    if buf.len() > 0 {
        let t = string_of(buf.as_slice());
        out.push(t);
        assert(views_of(final(out)@) =~= views_of(old(out)@) + flush(buf@));
    } else {
        assert(views_of(old(out)@) + flush(buf@) =~= views_of(old(out)@));
    }
}

/// Splits `text` into its terms, in order.
pub fn tokenize(text: &str) -> (r: Vec<String>)
    ensures
        views_of(r@) == tokens_of(text@),
{
    let cs = chars_of(text);
    let mut out: Vec<String> = Vec::new();
    let mut buf: Vec<char> = Vec::new();
    let mut i: usize = 0;
    assert(cs@.skip(0) =~= cs@);
    while i < cs.len()
        invariant
            0 <= i <= cs@.len(),
            cs@ == text@,
            views_of(out@) + tokens_from(cs@.skip(i as int), buf@) == tokens_of(text@),
        decreases cs.len() - i,
    {
        let c = cs[i];
        let ghost rest = cs@.skip(i as int + 1);
        assert(cs@.skip(i as int).drop_first() =~= rest);
        let ghost before = views_of(out@);
        let ghost b = buf@;
        if is_cjk(c) {
            push_flushed(&mut out, &buf);
            buf = Vec::new();
            let one: Vec<char> = vec![c];
            let t = string_of(one.as_slice());
            assert(t@ =~= seq![c]);
            out.push(t);
            assert(views_of(out@) =~= before + flush(b) + seq![seq![c]]);
            assert(buf@ =~= Seq::<char>::empty());
        } else if is_word_char(c) {
            let l = lower_char(c);
            buf.push(l);
        } else {
            push_flushed(&mut out, &buf);
            buf = Vec::new();
            assert(buf@ =~= Seq::<char>::empty());
        }
        i = i + 1;
    }
    assert(cs@.skip(i as int).len() == 0);
    push_flushed(&mut out, &buf);
    out
}

} // verus!
