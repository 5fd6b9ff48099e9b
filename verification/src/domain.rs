//! Words, synonym groups, and the parser for the service's delimited
//! synonym strings.
//!
//! A raw synonyms string is a `|`-separated list of tokens.  A token is a
//! bare word, or a word followed by a parenthetical qualifier such as
//! `latent (similar term)`.  Several bare words may precede one qualifier
//! and share it; bare words that never meet a qualifier yield nothing.

use vstd::prelude::*;

verus! {

use crate::request_handling::ResponseItem;
use crate::text::{
    find_char, from_chars, remove_char, remove_char_vec, split_char, split_char_vec,
    subrange_vec, to_chars, trim_spec, trim_vec,
};
use vstd::string::StringExecFns;

/// One synonym together with the qualifier text that describes it.
#[derive(Debug, PartialEq, Eq)]
pub struct Word {
    pub content: String,
    pub description: String,
}

/// Mathematical image of a [`Word`]: both fields as character sequences.
#[verifier::ext_equal]
pub struct WordV {
    pub content: Seq<char>,
    pub description: Seq<char>,
}

impl View for Word {
    type V = WordV;

    open spec fn view(&self) -> WordV {
        WordV { content: self.content@, description: self.description@ }
    }
}

impl DeepView for Word {
    type V = WordV;

    open spec fn deep_view(&self) -> WordV {
        self@
    }
}

/// The escape code that starts dimmed terminal text.
pub open spec fn dim_prefix() -> Seq<char> {
    seq!['\u{1b}', '[', '2', 'm']
}

/// The escape code that resets terminal styling.
pub open spec fn dim_suffix() -> Seq<char> {
    seq!['\u{1b}', '[', '0', 'm']
}

/// `s` wrapped in the terminal escape codes for dimmed text.
pub open spec fn dim_wrap(s: Seq<char>) -> Seq<char> {
    dim_prefix() + s + dim_suffix()
}

/// Relies on `ansi_term`: painting text with the dimmed style alone and
/// displaying it yields `ESC [ 2 m`, the text unchanged, then the reset
/// code `ESC [ 0 m`.
#[verifier::external_body]
pub fn dim(s: &str) -> (r: String)
    ensures
        r@ == dim_wrap(s@),
{
    ansi_term::Style::new().dimmed().paint(s).to_string()
}

/// The two-line cell text of a word: its content, then its description in
/// parentheses, dimmed.
pub open spec fn printable_of(w: WordV) -> Seq<char> {
    w.content + "\n"@ + dim_wrap("("@ + w.description + ")"@)
}

impl Word {
    pub fn new(content: String, description: String) -> (w: Word)
        ensures
            w@ == (WordV { content: content@, description: description@ }),
    {
        Word { content, description }
    }

    /// The text shown in this word's grid cell.
    pub fn get_printable(&self) -> (r: String)
        ensures
            r@ == printable_of(self@),
    {
        let mut inner = String::from_str("(");
        inner.append(self.description.as_str());
        inner.append(")");
        let styled = dim(inner.as_str());
        let mut out = self.content.clone();
        out.append("\n");
        out.append(styled.as_str());
        out
    }
}

/// The part of a token before its first `(`: the bare word.
pub open spec fn head_of(tok: Seq<char>) -> Seq<char>
    decreases tok.len(),
{
    if tok.len() == 0 {
        Seq::empty()
    } else if tok[0] == '(' {
        Seq::empty()
    } else {
        seq![tok[0]] + head_of(tok.drop_first())
    }
}

/// The part of a token after its first `(`, if the token has one: the raw
/// qualifier text.
pub open spec fn tail_of(tok: Seq<char>) -> Option<Seq<char>>
    decreases tok.len(),
{
    if tok.len() == 0 {
        None
    } else if tok[0] == '(' {
        Some(tok.drop_first())
    } else {
        tail_of(tok.drop_first())
    }
}

/// A token without `(` is all head and has no tail.
pub proof fn lemma_head_tail_none(tok: Seq<char>)
    requires
        forall|j: int| 0 <= j < tok.len() ==> tok[j] != '(',
    ensures
        head_of(tok) == tok,
        tail_of(tok) is None,
    decreases tok.len(),
{
    if tok.len() == 0 {
        assert(head_of(tok) =~= tok);
    } else {
        lemma_head_tail_none(tok.drop_first());
        assert(seq![tok[0]] + tok.drop_first() =~= tok);
    }
}

/// With the first `(` at `i`, the head is everything before it and the
/// tail everything after it.
pub proof fn lemma_head_tail_at(tok: Seq<char>, i: int)
    requires
        0 <= i < tok.len(),
        tok[i] == '(',
        forall|j: int| 0 <= j < i ==> tok[j] != '(',
    ensures
        head_of(tok) == tok.subrange(0, i),
        tail_of(tok) == Some(tok.subrange(i + 1, tok.len() as int)),
    decreases i,
{
    if i == 0 {
        assert(head_of(tok) =~= tok.subrange(0, 0));
        assert(tok.drop_first() =~= tok.subrange(1, tok.len() as int));
    } else {
        let d = tok.drop_first();
        lemma_head_tail_at(d, i - 1);
        assert(seq![tok[0]] + d.subrange(0, i - 1) =~= tok.subrange(0, i));
        assert(d.subrange(i, d.len() as int) =~= tok.subrange(i + 1, tok.len() as int));
    }
}

/// One word per buffered bare token, all sharing one description.
pub open spec fn words_from_buffer(buf: Seq<Seq<char>>, d: Seq<char>) -> Seq<WordV> {
    buf.map_values(|c: Seq<char>| WordV { content: c, description: d })
}

/// The words encoded by the remaining tokens, given the trimmed bare words
/// buffered so far.  A token's head joins the buffer; a token with a
/// qualifier closes the buffer, emitting one word per buffered head with
/// the qualifier (its `)` characters removed, then trimmed) as the shared
/// description.  Whatever is still buffered at the end yields nothing.
pub open spec fn parse_tokens(toks: Seq<Seq<char>>, buf: Seq<Seq<char>>) -> Seq<WordV>
    decreases toks.len(),
{
    if toks.len() == 0 {
        Seq::empty()
    } else {
        let buf2 = buf.push(trim_spec(head_of(toks[0])));
        match tail_of(toks[0]) {
            Option::None => parse_tokens(toks.drop_first(), buf2),
            Option::Some(t) => words_from_buffer(buf2, trim_spec(remove_char(t, ')')))
                + parse_tokens(toks.drop_first(), Seq::empty()),
        }
    }
}

/// The words encoded by one raw synonyms string.
pub open spec fn parse_synonyms(s: Seq<char>) -> Seq<WordV> {
    parse_tokens(split_char(s, '|'), Seq::empty())
}

/// Parse a raw synonyms string into its words, in order.
pub fn get_words(s: String) -> (words: Vec<Word>)
    ensures
        words.deep_view() == parse_synonyms(s@),
{
    let chars = to_chars(s.as_str());
    let toks = split_char_vec(&chars, '|');
    let mut words: Vec<Word> = Vec::new();
    let mut buf: Vec<String> = Vec::new();
    let mut k: usize = 0;
    proof {
        assert(toks.deep_view().skip(0) =~= toks.deep_view());
        assert(buf.deep_view() =~= Seq::<Seq<char>>::empty());
        assert(words.deep_view() + parse_tokens(toks.deep_view(), buf.deep_view())
            =~= parse_tokens(toks.deep_view(), buf.deep_view()));
    }
    while k < toks.len()
        invariant
            k <= toks@.len(),
            toks.deep_view() == split_char(s@, '|'),
            parse_synonyms(s@) == words.deep_view() + parse_tokens(
                toks.deep_view().skip(k as int),
                buf.deep_view(),
            ),
        decreases toks@.len() - k,
    {
        let ghost tokv = toks.deep_view()[k as int];
        proof {
            assert(toks.deep_view().skip(k as int)[0] == tokv);
            assert(toks.deep_view().skip(k as int).drop_first() =~= toks.deep_view().skip(
                k as int + 1,
            ));
        }
        let tok = &toks[k];
        proof {
            assert(tok.deep_view() =~= tok@);
            assert(tokv == tok@);
        }
        match find_char(tok, 0, '(') {
            None => {
                proof {
                    lemma_head_tail_none(tok@);
                }
                let h = trim_vec(tok);
                let hs = from_chars(&h);
                let ghost prevbuf = buf.deep_view();
                buf.push(hs);
                proof {
                    assert(buf.deep_view() =~~= prevbuf.push(trim_spec(head_of(tokv))));
                }
            },
            Some(i) => {
                proof {
                    lemma_head_tail_at(tok@, i as int);
                }
                let head = subrange_vec(tok, 0, i);
                let h = trim_vec(&head);
                let hs = from_chars(&h);
                let ghost prevbuf = buf.deep_view();
                buf.push(hs);
                proof {
                    assert(buf.deep_view() =~~= prevbuf.push(trim_spec(head_of(tokv))));
                }
                let t = subrange_vec(tok, i + 1, tok.len());
                let stripped = remove_char_vec(&t, ')');
                let d = trim_vec(&stripped);
                let ds = from_chars(&d);
                let ghost buf2 = buf.deep_view();
                let ghost dv = trim_spec(remove_char(tail_of(tokv)->0, ')'));
                proof {
                    assert(ds@ == dv);
                    assert(buf2.take(0) =~= Seq::<Seq<char>>::empty());
                    assert(words_from_buffer(buf2.take(0), dv) =~= Seq::<WordV>::empty());
                    assert(words.deep_view() + Seq::<WordV>::empty() =~= words.deep_view());
                }
                let ghost prevwords = words.deep_view();
                let mut m: usize = 0;
                while m < buf.len()
                    invariant
                        m <= buf@.len(),
                        buf.deep_view() == buf2,
                        ds@ == dv,
                        words.deep_view() == prevwords + words_from_buffer(
                            buf2.take(m as int),
                            dv,
                        ),
                    decreases buf@.len() - m,
                {
                    let ghost pw = words.deep_view();
                    words.push(Word::new(buf[m].clone(), ds.clone()));
                    proof {
                        let wv = WordV { content: buf2[m as int], description: dv };
                        assert(words.deep_view() =~= pw.push(wv));
                        assert(buf2.take(m as int + 1) =~= buf2.take(m as int).push(
                            buf2[m as int],
                        ));
                        assert(words_from_buffer(buf2.take(m as int + 1), dv) =~= words_from_buffer(
                            buf2.take(m as int),
                            dv,
                        ).push(wv));
                        assert(pw + words_from_buffer(buf2.take(m as int), dv).push(wv) =~= (pw
                            + words_from_buffer(buf2.take(m as int), dv)).push(wv));
                    }
                    m = m + 1;
                }
                buf.clear();
                proof {
                    assert(buf2.take(buf2.len() as int) =~= buf2);
                    assert(buf.deep_view() =~= Seq::<Seq<char>>::empty());
                    let rest = parse_tokens(toks.deep_view().skip(k as int + 1), Seq::empty());
                    assert((prevwords + words_from_buffer(buf2, dv)) + rest =~= prevwords + (
                    words_from_buffer(buf2, dv) + rest));
                }
            },
        }
        k = k + 1;
    }
    proof {
        assert(toks.deep_view().skip(k as int) =~= Seq::<Seq<char>>::empty());
        assert(words.deep_view() + Seq::<WordV>::empty() =~= words.deep_view());
    }
    words
}

/// Tokens without any `(` only ever feed the buffer, and the buffer is
/// dropped at the end, so they yield no words.
pub proof fn lemma_parse_tokens_all_bare(toks: Seq<Seq<char>>, buf: Seq<Seq<char>>)
    requires
        forall|k: int, i: int|
            0 <= k < toks.len() && 0 <= i < toks[k].len() ==> #[trigger] toks[k][i] != '(',
    ensures
        parse_tokens(toks, buf) == Seq::<WordV>::empty(),
    decreases toks.len(),
{
    if toks.len() > 0 {
        lemma_head_tail_none(toks[0]);
        assert forall|k: int, i: int|
            0 <= k < toks.drop_first().len() && 0 <= i < toks.drop_first()[k].len()
            implies #[trigger] toks.drop_first()[k][i] != '(' by {
            assert(toks.drop_first()[k] == toks[k + 1]);
            assert(toks[k + 1][i] != '(');
        }
        lemma_parse_tokens_all_bare(toks.drop_first(), buf.push(trim_spec(head_of(toks[0]))));
    }
}

/// A synonyms string made of bare tokens alone, with no qualifier
/// anywhere, parses to no words at all.
pub proof fn lemma_bare_tokens_yield_no_words(s: Seq<char>)
    requires
        forall|i: int| 0 <= i < s.len() ==> s[i] != '(',
    ensures
        parse_synonyms(s) == Seq::<WordV>::empty(),
{
    crate::text::lemma_split_char_no_char(s, '|', '(');
    lemma_parse_tokens_all_bare(split_char(s, '|'), Seq::empty());
}

/// Every description the parser emits has every `)` stripped from it,
/// however many the qualifier held.
pub proof fn lemma_parse_tokens_descriptions(toks: Seq<Seq<char>>, buf: Seq<Seq<char>>)
    ensures
        forall|k: int, i: int|
            0 <= k < parse_tokens(toks, buf).len() && 0 <= i < parse_tokens(
                toks,
                buf,
            )[k].description.len() ==> #[trigger] parse_tokens(toks, buf)[k].description[i]
                != ')',
    decreases toks.len(),
{
    let res = parse_tokens(toks, buf);
    if toks.len() > 0 {
        let buf2 = buf.push(trim_spec(head_of(toks[0])));
        match tail_of(toks[0]) {
            Option::None => {
                lemma_parse_tokens_descriptions(toks.drop_first(), buf2);
                assert forall|k: int, i: int|
                    0 <= k < res.len() && 0 <= i < res[k].description.len()
                    implies #[trigger] res[k].description[i] != ')' by {
                    assert(res[k] == parse_tokens(toks.drop_first(), buf2)[k]);
                    assert(parse_tokens(toks.drop_first(), buf2)[k].description[i] != ')');
                }
            },
            Option::Some(t) => {
                let d = trim_spec(remove_char(t, ')'));
                crate::text::lemma_remove_char_absent(t, ')');
                crate::text::lemma_trim_no_char(remove_char(t, ')'), ')');
                lemma_parse_tokens_descriptions(toks.drop_first(), Seq::empty());
                let emitted = words_from_buffer(buf2, d);
                let rest = parse_tokens(toks.drop_first(), Seq::empty());
                assert forall|k: int, i: int|
                    0 <= k < res.len() && 0 <= i < res[k].description.len()
                    implies #[trigger] res[k].description[i] != ')' by {
                    if k < emitted.len() {
                        assert(res[k] == emitted[k]);
                        assert(emitted[k].description == d);
                    } else {
                        assert(res[k] == rest[k - emitted.len()]);
                        assert(rest[k - emitted.len()].description[i] != ')');
                    }
                }
            },
        }
    }
}

/// No word a synonyms string parses to carries a `)` in its description.
pub proof fn lemma_descriptions_have_no_rparen(s: Seq<char>)
    ensures
        forall|k: int, i: int|
            0 <= k < parse_synonyms(s).len() && 0 <= i < parse_synonyms(
                s,
            )[k].description.len() ==> #[trigger] parse_synonyms(s)[k].description[i] != ')',
{
    lemma_parse_tokens_descriptions(split_char(s, '|'), Seq::empty());
}

/// The synonyms the service returned under one category label.
#[derive(Debug)]
pub struct Synonyms {
    pub category: String,
    pub words: Vec<Word>,
}

/// Mathematical image of a [`Synonyms`] group.
#[verifier::ext_equal]
pub struct SynonymsV {
    pub category: Seq<char>,
    pub words: Seq<WordV>,
}

impl View for Synonyms {
    type V = SynonymsV;

    open spec fn view(&self) -> SynonymsV {
        SynonymsV { category: self.category@, words: self.words.deep_view() }
    }
}

impl DeepView for Synonyms {
    type V = SynonymsV;

    open spec fn deep_view(&self) -> SynonymsV {
        self@
    }
}

/// The category label as displayed: the raw text with every parenthesis
/// removed, so raw `(adj)` reads `adj`.
pub open spec fn category_of(raw: Seq<char>) -> Seq<char> {
    remove_char(remove_char(raw, '('), ')')
}

/// The group encoded by one raw response item.
pub open spec fn group_of(category: Seq<char>, synonyms: Seq<char>) -> SynonymsV {
    SynonymsV { category: category_of(category), words: parse_synonyms(synonyms) }
}

impl Synonyms {
    /// Build the group a raw response item encodes.
    pub fn from(item: ResponseItem) -> (s: Synonyms)
        ensures
            s@ == group_of(item.list.category@, item.list.synonyms@),
    {
        let chars = to_chars(item.list.category.as_str());
        let no_open = remove_char_vec(&chars, '(');
        let no_close = remove_char_vec(&no_open, ')');
        let category = from_chars(&no_close);
        let words = get_words(item.list.synonyms);
        let s = Synonyms { category, words };
        proof {
            assert(s@.words =~= parse_synonyms(item.list.synonyms@));
        }
        s
    }
}

} // verus!
