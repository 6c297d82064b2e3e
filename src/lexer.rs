use vstd::prelude::*;
use vstd::string::StrSliceExecFns;

verus! {

/// Unicode white space, as `char::is_whitespace` decides it.
pub open spec fn is_space(c: char) -> bool {
    let u = c as u32;
    (0x09 <= u && u <= 0x0d) || u == 0x20 || u == 0x85 || u == 0xa0 || u == 0x1680 || (0x2000
        <= u && u <= 0x200a) || u == 0x2028 || u == 0x2029 || u == 0x202f || u == 0x205f || u
        == 0x3000
}

pub open spec fn is_paren(c: char) -> bool {
    c == '(' || c == ')'
}

/// A character that ends a word.
pub open spec fn is_delimiter(c: char) -> bool {
    is_space(c) || is_paren(c)
}

/// The word collected so far, as a token list of zero or one item.
pub open spec fn flush(word: Seq<char>) -> Seq<Seq<char>> {
    if word.len() == 0 {
        Seq::empty()
    } else {
        seq![word]
    }
}

/// The tokens of `s`, given that the characters `word` directly before it
/// belong to one word: every parenthesis is a token of its own, white space
/// separates tokens, and every other run of characters is a token.
pub open spec fn lex(s: Seq<char>, word: Seq<char>) -> Seq<Seq<char>>
    decreases s.len(),
{
    if s.len() == 0 {
        flush(word)
    } else if is_space(s[0]) {
        flush(word) + lex(s.drop_first(), Seq::empty())
    } else if is_paren(s[0]) {
        flush(word) + seq![seq![s[0]]] + lex(s.drop_first(), Seq::empty())
    } else {
        lex(s.drop_first(), word.push(s[0]))
    }
}

/// The tokens of the text `s`.
pub open spec fn tokens(s: Seq<char>) -> Seq<Seq<char>> {
    lex(s, Seq::empty())
}

/// The characters of each string.
pub open spec fn texts(v: Seq<String>) -> Seq<Seq<char>> {
    v.map_values(|t: String| t@)
}

fn is_space_char(c: char) -> (r: bool)
    ensures
        r == is_space(c),
{
    let u = c as u32;
    (0x09 <= u && u <= 0x0d) || u == 0x20 || u == 0x85 || u == 0xa0 || u == 0x1680 || (0x2000
        <= u && u <= 0x200a) || u == 0x2028 || u == 0x2029 || u == 0x202f || u == 0x205f || u
        == 0x3000
}

/// Splits `exp` into tokens: each `(` and `)` on its own, and the runs of other
/// characters between white space.
pub fn tokenize(exp: String) -> (r: Vec<String>)
    ensures
        texts(r@) == tokens(exp@),
{
    let s = exp.as_str();
    let len = s.unicode_len();
    let mut out: Vec<String> = Vec::new();
    let mut start: usize = 0;
    let mut i: usize = 0;
    proof {
        assert(s@.skip(0) =~= s@);
        assert(s@.subrange(0, 0) =~= Seq::<char>::empty());
        assert(texts(out@) =~= Seq::<Seq<char>>::empty());
    }
    while i < len
        invariant
            len == s@.len(),
            s@ == exp@,
            start <= i <= len,
            texts(out@) + lex(s@.skip(i as int), s@.subrange(start as int, i as int)) == tokens(
                s@,
            ),
        decreases len - i,
    {
        let c = s.get_char(i);
        let ghost rest = s@.skip(i as int);
        let ghost word = s@.subrange(start as int, i as int);
        proof {
            assert(rest[0] == c);
            assert(rest.drop_first() =~= s@.skip(i + 1));
        }
        if is_space_char(c) || c == '(' || c == ')' {
            let ghost before = texts(out@);
            if start < i {
                out.push(s.substring_char(start, i).to_owned());
            }
            proof {
                assert(texts(out@) =~= before + flush(word));
            }
            if c == '(' || c == ')' {
                let ghost mid = texts(out@);
                out.push(s.substring_char(i, i + 1).to_owned());
                proof {
                    assert(s@.subrange(i as int, i + 1) =~= seq![c]);
                    assert(texts(out@) =~= mid + seq![seq![c]]);
                }
            }
            start = i + 1;
            proof {
                assert(s@.subrange(start as int, start as int) =~= Seq::<char>::empty());
                if c == '(' || c == ')' {
                    assert(texts(out@) + lex(s@.skip(start as int), Seq::empty()) =~= before
                        + lex(rest, word));
                } else {
                    assert(texts(out@) + lex(s@.skip(start as int), Seq::empty()) =~= before
                        + lex(rest, word));
                }
            }
        } else {
            proof {
                assert(word.push(c) =~= s@.subrange(start as int, i + 1));
            }
        }
        i = i + 1;
    }
    let ghost before = texts(out@);
    if start < len {
        out.push(s.substring_char(start, len).to_owned());
    }
    proof {
        assert(s@.skip(len as int) =~= Seq::<char>::empty());
        assert(texts(out@) =~= before + flush(s@.subrange(start as int, len as int)));
    }
    out
}

/// Characters that end no word are collected into the word being read.
pub proof fn lemma_lex_word(w: Seq<char>, r: Seq<char>, word: Seq<char>)
    requires
        forall|i: int| 0 <= i < w.len() ==> !is_delimiter(#[trigger] w[i]),
    ensures
        lex(w + r, word) == lex(r, word + w),
    decreases w.len(),
{
    if w.len() == 0 {
        assert(w + r =~= r);
        assert(word + w =~= word);
    } else {
        assert((w + r)[0] == w[0]);
        assert((w + r).drop_first() =~= w.drop_first() + r);
        assert(word.push(w[0]) + w.drop_first() =~= word + w);
        lemma_lex_word(w.drop_first(), r, word.push(w[0]));
    }
}

/// A word followed by the end of the text or by a delimiter is one token.
pub proof fn lemma_lex_token(w: Seq<char>, r: Seq<char>)
    requires
        w.len() > 0,
        forall|i: int| 0 <= i < w.len() ==> !is_delimiter(#[trigger] w[i]),
        r.len() == 0 || is_delimiter(r[0]),
    ensures
        lex(w + r, Seq::empty()) == seq![w] + lex(r, Seq::empty()),
{
    lemma_lex_word(w, r, Seq::empty());
    assert(Seq::<char>::empty() + w =~= w);
    if r.len() == 0 {
        assert(lex(r, Seq::empty()) =~= Seq::<Seq<char>>::empty());
    } else if is_space(r[0]) {
        assert(flush(Seq::<char>::empty()) =~= Seq::<Seq<char>>::empty());
    } else {
        assert(flush(Seq::<char>::empty()) =~= Seq::<Seq<char>>::empty());
        assert(seq![w] + seq![seq![r[0]]] + lex(r.drop_first(), Seq::empty()) =~= seq![w] + (
        Seq::<Seq<char>>::empty() + seq![seq![r[0]]] + lex(r.drop_first(), Seq::empty())));
    }
}

} // verus!
