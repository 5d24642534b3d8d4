//! Tokens, the tokenizer, and the normalized rendering of a token sequence.
//!
//! `tokenize` erases run-length and trailing whitespace distinctions from a
//! text: each line becomes its whitespace-separated words, and lines are
//! separated by a single line-break token. `construct_string` is the
//! normalized inverse: words joined by single spaces, lines by newlines.
use vstd::prelude::*;

use crate::text::{
    chars_of, good_word, good_words, lines_of, split_lines_chars, words_in_line, words_of,
};


verus! {

/// A normalized unit of text: a whitespace-free word or a line break.
#[derive(Debug, Clone, PartialEq)]
pub enum Token {
    Word(String),
    Newline,
}

/// Mathematical model of a [`Token`]: the word as a character sequence.
pub enum Tok {
    Word(Seq<char>),
    Newline,
}

impl View for Token {
    type V = Tok;

    open spec fn view(&self) -> Tok {
        match self {
            Token::Word(w) => Tok::Word(w@),
            Token::Newline => Tok::Newline,
        }
    }
}

impl DeepView for Token {
    type V = Tok;

    open spec fn deep_view(&self) -> Tok {
        self.view()
    }
}

/// Word sequences as token sequences.
pub open spec fn word_toks(ws: Seq<Seq<char>>) -> Seq<Tok> {
    ws.map_values(|w: Seq<char>| Tok::Word(w))
}

/// The token sequence for the given per-line word groups: each group's words
/// in order, with one line break between consecutive groups.
pub open spec fn rebuild(gs: Seq<Seq<Seq<char>>>) -> Seq<Tok>
    decreases gs.len(),
{
    if gs.len() == 0 {
        seq![]
    } else if gs.len() == 1 {
        word_toks(gs[0])
    } else {
        word_toks(gs[0]) + seq![Tok::Newline] + rebuild(gs.drop_first())
    }
}

/// The tokens of a text: split into lines, each line into its words; words of
/// one line are consecutive, with a single line break between lines.
pub open spec fn tokens_of(s: Seq<char>) -> Seq<Tok> {
    rebuild(lines_of(s).map_values(|l: Seq<char>| words_of(l)))
}

/// Groups a token sequence into lines of words: line breaks separate groups,
/// so there is always at least one group, and consecutive line breaks yield
/// empty groups.
pub open spec fn token_lines(ts: Seq<Tok>) -> Seq<Seq<Seq<char>>>
    decreases ts.len(),
{
    if ts.len() == 0 {
        seq![seq![]]
    } else {
        let rest = token_lines(ts.drop_first());
        match ts[0] {
            Tok::Newline => seq![seq![]] + rest,
            Tok::Word(w) => rest.update(0, seq![w] + rest[0]),
        }
    }
}

pub proof fn lemma_token_lines_len(ts: Seq<Tok>)
    ensures
        token_lines(ts).len() >= 1,
    decreases ts.len(),
{
    if ts.len() > 0 {
        lemma_token_lines_len(ts.drop_first());
    }
}

/// Words joined by a single space.
pub open spec fn join_words(ws: Seq<Seq<char>>) -> Seq<char>
    decreases ws.len(),
{
    if ws.len() == 0 {
        seq![]
    } else if ws.len() == 1 {
        ws[0]
    } else {
        ws[0] + seq![' '] + join_words(ws.drop_first())
    }
}

/// Lines joined by a single newline.
pub open spec fn join_lines(ls: Seq<Seq<char>>) -> Seq<char>
    decreases ls.len(),
{
    if ls.len() == 0 {
        seq![]
    } else if ls.len() == 1 {
        ls[0]
    } else {
        ls[0] + seq!['\n'] + join_lines(ls.drop_first())
    }
}

/// The normalized rendering of a token sequence: each line's words joined by
/// single spaces, lines joined by single newlines.
pub open spec fn render(ts: Seq<Tok>) -> Seq<char> {
    join_lines(token_lines(ts).map_values(|g: Seq<Seq<char>>| join_words(g)))
}

/// Whether the last line of the token sequence already holds a word, so that
/// a further word on it needs a separating space.
pub open spec fn line_open(ts: Seq<Tok>) -> bool {
    ts.len() > 0 && ts.last() is Word
}

pub proof fn lemma_token_lines_push_nl(ts: Seq<Tok>)
    ensures
        token_lines(ts.push(Tok::Newline)) == token_lines(ts).push(seq![]),
    decreases ts.len(),
{
    let p = ts.push(Tok::Newline);
    if ts.len() == 0 {
        assert(p.drop_first() =~= Seq::<Tok>::empty());
        assert(p[0] == Tok::Newline);
        assert(token_lines(Seq::<Tok>::empty()) == seq![Seq::<Seq<char>>::empty()]);
        assert(token_lines(p) == seq![Seq::<Seq<char>>::empty()] + token_lines(
            Seq::<Tok>::empty(),
        ));
        assert(token_lines(p) =~~= token_lines(ts).push(seq![]));
    } else {
        assert(p.drop_first() =~= ts.drop_first().push(Tok::Newline));
        lemma_token_lines_push_nl(ts.drop_first());
        lemma_token_lines_len(ts.drop_first());
        match ts[0] {
            Tok::Newline => {
                assert(token_lines(p) =~~= token_lines(ts).push(seq![]));
            },
            Tok::Word(w) => {
                let rest = token_lines(ts.drop_first());
                assert(token_lines(p) == rest.push(seq![]).update(0, seq![w] + rest.push(
                    seq![],
                )[0]));
                assert(rest.push(seq![])[0] =~~= rest[0]);
                assert(token_lines(p) =~~= token_lines(ts).push(seq![]));
            },
        }
    }
}

pub proof fn lemma_token_lines_push_word(ts: Seq<Tok>, w: Seq<char>)
    ensures
        token_lines(ts.push(Tok::Word(w))) == token_lines(ts).update(
            token_lines(ts).len() - 1,
            token_lines(ts).last().push(w),
        ),
    decreases ts.len(),
{
    let p = ts.push(Tok::Word(w));
    if ts.len() == 0 {
        assert(p.drop_first() =~= Seq::<Tok>::empty());
        assert(seq![w] + token_lines(Seq::<Tok>::empty())[0] =~~= Seq::<Seq<char>>::empty().push(
            w,
        ));
        assert(token_lines(p) =~~= token_lines(ts).update(0, token_lines(ts).last().push(w)));
    } else {
        assert(p.drop_first() =~= ts.drop_first().push(Tok::Word(w)));
        lemma_token_lines_push_word(ts.drop_first(), w);
        lemma_token_lines_len(ts.drop_first());
        let rest = token_lines(ts.drop_first());
        let rest2 = rest.update(rest.len() - 1, rest.last().push(w));
        match ts[0] {
            Tok::Newline => {
                assert(token_lines(p) == seq![Seq::<Seq<char>>::empty()] + rest2);
                assert(token_lines(ts) == seq![Seq::<Seq<char>>::empty()] + rest);
                assert(token_lines(p) =~~= token_lines(ts).update(
                    token_lines(ts).len() - 1,
                    token_lines(ts).last().push(w),
                ));
            },
            Tok::Word(v) => {
                assert(token_lines(p) == rest2.update(0, seq![v] + rest2[0]));
                assert(token_lines(ts) == rest.update(0, seq![v] + rest[0]));
                if rest.len() == 1 {
                    assert(rest2[0] =~~= rest[0].push(w));
                    assert(seq![v] + rest[0].push(w) =~~= (seq![v] + rest[0]).push(w));
                    assert(token_lines(p) =~~= token_lines(ts).update(
                        token_lines(ts).len() - 1,
                        token_lines(ts).last().push(w),
                    ));
                } else {
                    assert(rest2[0] =~~= rest[0]);
                    assert(token_lines(p) =~~= token_lines(ts).update(
                        token_lines(ts).len() - 1,
                        token_lines(ts).last().push(w),
                    ));
                }
            },
        }
    }
}

pub proof fn lemma_join_lines_push(ls: Seq<Seq<char>>, l: Seq<char>)
    ensures
        join_lines(ls.push(l)) == if ls.len() == 0 {
            l
        } else {
            join_lines(ls) + seq!['\n'] + l
        },
    decreases ls.len(),
{
    let p = ls.push(l);
    if ls.len() == 0 {
        assert(join_lines(p) == p[0]);
        assert(p[0] == l);
    } else if ls.len() == 1 {
        assert(p.drop_first() =~= seq![l]);
        assert(join_lines(p) == p[0] + seq!['\n'] + join_lines(seq![l]));
        assert(join_lines(seq![l]) == l);
        assert(join_lines(ls) == ls[0]);
        assert(p[0] == ls[0]);
    } else {
        assert(p.drop_first() =~= ls.drop_first().push(l));
        lemma_join_lines_push(ls.drop_first(), l);
        assert(join_lines(p) == p[0] + seq!['\n'] + (join_lines(ls.drop_first()) + seq!['\n']
            + l));
        assert(p[0] == ls[0]);
        assert(ls[0] + seq!['\n'] + (join_lines(ls.drop_first()) + seq!['\n'] + l) =~= (ls[0]
            + seq!['\n'] + join_lines(ls.drop_first())) + seq!['\n'] + l);
    }
}

pub proof fn lemma_join_words_push(ws: Seq<Seq<char>>, w: Seq<char>)
    ensures
        join_words(ws.push(w)) == if ws.len() == 0 {
            w
        } else {
            join_words(ws) + seq![' '] + w
        },
    decreases ws.len(),
{
    let p = ws.push(w);
    if ws.len() == 0 {
        assert(join_words(p) == p[0]);
        assert(p[0] == w);
    } else if ws.len() == 1 {
        assert(p.drop_first() =~= seq![w]);
        assert(join_words(p) == p[0] + seq![' '] + join_words(seq![w]));
        assert(join_words(seq![w]) == w);
        assert(p[0] == ws[0]);
    } else {
        assert(p.drop_first() =~= ws.drop_first().push(w));
        lemma_join_words_push(ws.drop_first(), w);
        assert(join_words(p) == p[0] + seq![' '] + (join_words(ws.drop_first()) + seq![' ']
            + w));
        assert(p[0] == ws[0]);
        assert(ws[0] + seq![' '] + (join_words(ws.drop_first()) + seq![' '] + w) =~= (ws[0]
            + seq![' '] + join_words(ws.drop_first())) + seq![' '] + w);
    }
}

/// The last group of `token_lines` holds a word exactly when the sequence ends
/// in a word token.
pub proof fn lemma_last_group(ts: Seq<Tok>)
    ensures
        token_lines(ts).last().len() > 0 <==> line_open(ts),
    decreases ts.len(),
{
    lemma_token_lines_len(ts);
    if ts.len() > 0 {
        let t0 = ts.drop_last();
        lemma_last_group(t0);
        lemma_token_lines_len(t0);
        assert(ts =~= t0.push(ts.last()));
        match ts.last() {
            Tok::Newline => {
                lemma_token_lines_push_nl(t0);
            },
            Tok::Word(w) => {
                lemma_token_lines_push_word(t0, w);
            },
        }
    }
}

/// Rendering after appending a line break: the text gains a single newline.
pub proof fn lemma_render_push_nl(ts: Seq<Tok>)
    ensures
        render(ts.push(Tok::Newline)) == render(ts).push('\n'),
{
    lemma_token_lines_push_nl(ts);
    lemma_token_lines_len(ts);
    let m = |g: Seq<Seq<char>>| join_words(g);
    assert(token_lines(ts).push(seq![]).map_values(m) =~~= token_lines(ts).map_values(m).push(
        join_words(seq![]),
    ));
    lemma_join_lines_push(token_lines(ts).map_values(m), join_words(seq![]));
    assert(render(ts).push('\n') =~= render(ts) + seq!['\n'] + join_words(seq![]));
}

/// Rendering after appending a word: the text gains the word, preceded by a
/// space when the current line already holds one.
pub proof fn lemma_render_push_word(ts: Seq<Tok>, w: Seq<char>)
    ensures
        render(ts.push(Tok::Word(w))) == render(ts) + (if line_open(ts) {
            seq![' '] + w
        } else {
            w
        }),
{
    lemma_token_lines_push_word(ts, w);
    lemma_token_lines_len(ts);
    lemma_last_group(ts);
    let m = |g: Seq<Seq<char>>| join_words(g);
    let tl = token_lines(ts);
    let n = tl.len();
    let last = tl.last();
    let ls = tl.map_values(m);
    assert(ls.last() == join_words(last));
    assert(tl.update(n - 1, last.push(w)).map_values(m) =~~= ls.update(
        n - 1,
        join_words(last.push(w)),
    ));
    lemma_join_words_push(last, w);
    lemma_join_lines_update_last(ls, join_words(last.push(w)));
    let head = join_lines(ls.drop_last());
    let jw = join_words(last);
    if line_open(ts) {
        assert(join_words(last.push(w)) == jw + seq![' '] + w);
        if n == 1 {
            assert(render(ts.push(Tok::Word(w))) == head + (jw + seq![' '] + w));
            assert(render(ts) == head + jw);
            assert(head + (jw + seq![' '] + w) =~= (head + jw) + (seq![' '] + w));
        } else {
            assert(render(ts.push(Tok::Word(w))) == head + (seq!['\n'] + (jw + seq![' ']
                + w)));
            assert(render(ts) == head + (seq!['\n'] + jw));
            assert(head + (seq!['\n'] + (jw + seq![' '] + w)) =~= (head + (seq!['\n'] + jw)) + (
            seq![' '] + w));
        }
    } else {
        assert(last.len() == 0);
        assert(join_words(last.push(w)) == w) by {
            assert(last.push(w).len() == 1);
            assert(last.push(w)[0] == w);
        };
        if n == 1 {
            assert(render(ts.push(Tok::Word(w))) == head + w);
            assert(render(ts) == head + jw);
            assert(jw =~= Seq::<char>::empty());
            assert(head + w =~= (head + jw) + w);
        } else {
            assert(render(ts.push(Tok::Word(w))) == head + (seq!['\n'] + w));
            assert(render(ts) == head + (seq!['\n'] + jw));
            assert(jw =~= Seq::<char>::empty());
            assert(head + (seq!['\n'] + w) =~= (head + (seq!['\n'] + jw)) + w);
        }
    }
}

/// Rendering with the last line replaced: only the tail of the text changes.
pub proof fn lemma_join_lines_update_last(ls: Seq<Seq<char>>, l: Seq<char>)
    requires
        ls.len() >= 1,
    ensures
        join_lines(ls.update(ls.len() - 1, l)) == join_lines(ls.drop_last()) + (if ls.len() == 1 {
            l
        } else {
            seq!['\n'] + l
        }),
        join_lines(ls) == join_lines(ls.drop_last()) + (if ls.len() == 1 {
            ls.last()
        } else {
            seq!['\n'] + ls.last()
        }),
{
    let u = ls.update(ls.len() - 1, l);
    assert(u =~= u.drop_last().push(l));
    assert(u.drop_last() =~= ls.drop_last());
    assert(ls =~= ls.drop_last().push(ls.last()));
    lemma_join_lines_push(ls.drop_last(), l);
    lemma_join_lines_push(ls.drop_last(), ls.last());
    if ls.len() == 1 {
        assert(join_lines(u) == l);
        assert(Seq::<char>::empty() + l =~= l);
    }
}

pub proof fn lemma_rebuild_push(gs: Seq<Seq<Seq<char>>>, g: Seq<Seq<char>>)
    ensures
        rebuild(gs.push(g)) == if gs.len() == 0 {
            word_toks(g)
        } else {
            rebuild(gs) + seq![Tok::Newline] + word_toks(g)
        },
    decreases gs.len(),
{
    let p = gs.push(g);
    if gs.len() == 0 {
        assert(p.len() == 1);
        assert(p[0] == g);
    } else if gs.len() == 1 {
        assert(p.drop_first() =~= seq![g]);
        assert(rebuild(seq![g]) == word_toks(g));
        assert(rebuild(p) == word_toks(p[0]) + seq![Tok::Newline] + rebuild(seq![g]));
        assert(p[0] == gs[0]);
        assert(rebuild(gs) == word_toks(gs[0]));
    } else {
        assert(p.drop_first() =~= gs.drop_first().push(g));
        lemma_rebuild_push(gs.drop_first(), g);
        assert(rebuild(p) == word_toks(gs[0]) + seq![Tok::Newline] + (rebuild(gs.drop_first())
            + seq![Tok::Newline] + word_toks(g)));
        assert(word_toks(gs[0]) + seq![Tok::Newline] + (rebuild(gs.drop_first())
            + seq![Tok::Newline] + word_toks(g)) =~= (word_toks(gs[0]) + seq![Tok::Newline]
            + rebuild(gs.drop_first())) + seq![Tok::Newline] + word_toks(g));
    }
}

/// Relies on `String::from_iter`: the collected string holds exactly the given
/// characters, in order.
#[verifier::external_body]
pub(crate) fn chars_to_string(cs: Vec<char>) -> (s: String)
    ensures
        s@ == cs@,
{
    String::from_iter(cs)
}

/// Tokenizes a text: each line of `s` contributes its whitespace-separated
/// words as consecutive word tokens, and consecutive lines are separated by a
/// single line-break token. Any text tokenizes; empty lines contribute no
/// word, and a trailing newline produces no phantom empty line.
pub fn tokenize(s: String) -> (r: Vec<Token>)
    ensures
        r.deep_view() == tokens_of(s@),
{
    let cs = chars_of(s.as_str());
    let lines = split_lines_chars(&cs);
    let n = lines.len();
    let ghost gs = Seq::new(n as nat, |t: int| words_of(lines@[t]@));
    let mut r: Vec<Token> = Vec::new();
    let mut i: usize = 0;
    proof {
        assert(gs.take(0) =~= Seq::<Seq<Seq<char>>>::empty());
        assert(r.deep_view() =~= rebuild(gs.take(0)));
    }
    while i < n
        invariant
            i <= n,
            n == lines@.len(),
            gs == Seq::new(n as nat, |t: int| words_of(lines@[t]@)),
            r.deep_view() == rebuild(gs.take(i as int)),
        decreases n - i,
    {
        let ghost sep: Seq<Tok> = if i > 0 {
            seq![Tok::Newline]
        } else {
            seq![]
        };
        if i > 0 {
            let ghost old_r = r.deep_view();
            r.push(Token::Newline);
            proof {
                assert(r.deep_view() =~~= old_r + seq![Tok::Newline]);
            }
        }
        let ghost base = r.deep_view();
        let ws = words_in_line(vstd::slice::slice_index_get(lines.as_slice(), i));
        proof {
            assert(ws.deep_view() == words_of(lines@[i as int]@));
            assert(gs[i as int] == words_of(lines@[i as int]@));
        }
        let m = ws.len();
        let mut k: usize = 0;
        proof {
            assert(gs[i as int].take(0) =~= Seq::<Seq<char>>::empty());
            assert(word_toks(Seq::<Seq<char>>::empty()) =~= Seq::<Tok>::empty());
            assert(base =~= base + word_toks(gs[i as int].take(0)));
        }
        while k < m
            invariant
                k <= m,
                m == ws@.len(),
                ws.deep_view() == gs[i as int],
                r.deep_view() == base + word_toks(gs[i as int].take(k as int)),
            decreases m - k,
        {
            let w: Vec<char> = vstd::slice::slice_to_vec(
                vstd::slice::slice_index_get(ws.as_slice(), k).as_slice(),
            );
            let ghost old_r = r.deep_view();
            r.push(Token::Word(chars_to_string(w)));
            proof {
                assert(w@ == ws.deep_view()[k as int]);
                assert(r.deep_view() =~~= old_r + seq![Tok::Word(gs[i as int][k as int])]);
                assert(gs[i as int].take(k + 1) =~= gs[i as int].take(k as int).push(
                    gs[i as int][k as int],
                ));
                assert(word_toks(gs[i as int].take(k + 1)) =~~= word_toks(
                    gs[i as int].take(k as int),
                ) + seq![Tok::Word(gs[i as int][k as int])]);
                assert(r.deep_view() =~~= base + word_toks(gs[i as int].take(k + 1)));
            }
            k = k + 1;
        }
        proof {
            assert(gs[i as int].take(m as int) =~= gs[i as int]);
            lemma_rebuild_push(gs.take(i as int), gs[i as int]);
            assert(gs.take(i as int).push(gs[i as int]) =~= gs.take(i + 1));
            if i > 0 {
                assert(r.deep_view() =~~= rebuild(gs.take(i as int)) + seq![Tok::Newline]
                    + word_toks(gs[i as int]));
            } else {
                assert(gs.take(0).len() == 0);
                assert(r.deep_view() =~~= word_toks(gs[i as int]));
            }
            assert(r.deep_view() =~~= rebuild(gs.take(i + 1)));
        }
        i = i + 1;
    }
    proof {
        assert(gs.take(n as int) =~= gs);
        assert(lines.deep_view() == lines_of(s@));
        let mv = lines_of(s@).map_values(|l: Seq<char>| words_of(l));
        assert forall|t: int| 0 <= t < n implies gs[t] == mv[t] by {
            assert(lines.deep_view()[t] == lines@[t].deep_view());
            assert(lines@[t].deep_view() =~= lines@[t]@);
            assert(mv[t] == words_of(lines_of(s@)[t]));
        };
        assert(gs =~= mv);
        assert(r.deep_view() == tokens_of(s@));
    }
    r
}

/// Rebuilds the normalized text of a token sequence: each line's words joined
/// by single spaces, lines joined by single newlines.
pub fn construct_string(tokens: Vec<Token>) -> (r: String)
    ensures
        r@ == render(tokens.deep_view()),
{
    let n = tokens.len();
    let ghost ts = tokens.deep_view();
    let mut out: Vec<char> = Vec::new();
    let mut has_word: bool = false;
    let mut i: usize = 0;
    proof {
        assert(ts.take(0) =~= Seq::<Tok>::empty());
        assert(token_lines(Seq::<Tok>::empty()) == seq![Seq::<Seq<char>>::empty()]);
        assert(token_lines(Seq::<Tok>::empty()).map_values(|g: Seq<Seq<char>>| join_words(g))
            =~~= seq![Seq::<char>::empty()]);
        assert(render(ts.take(0)) =~= out@);
    }
    while i < n
        invariant
            i <= n,
            n == tokens@.len(),
            ts == tokens.deep_view(),
            out@ == render(ts.take(i as int)),
            has_word == line_open(ts.take(i as int)),
        decreases n - i,
    {
        let ghost prefix = ts.take(i as int);
        proof {
            assert(ts.take(i + 1) =~= prefix.push(ts[i as int]));
            assert(ts[i as int] == tokens@[i as int]@);
        }
        match vstd::slice::slice_index_get(tokens.as_slice(), i) {
            Token::Newline => {
                proof {
                    lemma_render_push_nl(prefix);
                }
                out.push('\n');
                has_word = false;
            },
            Token::Word(w) => {
                proof {
                    lemma_render_push_word(prefix, w@);
                }
                if has_word {
                    out.push(' ');
                }
                let wc = chars_of(w.as_str());
                out.extend_from_slice(wc.as_slice());
                proof {
                    if has_word {
                        assert(out@ =~= render(prefix) + (seq![' '] + w@));
                    } else {
                        assert(out@ =~= render(prefix) + w@);
                    }
                }
                has_word = true;
            },
        }
        i = i + 1;
    }
    proof {
        assert(ts.take(n as int) =~= ts);
    }
    chars_to_string(out)
}

/// A token sequence as the tokenizer produces it: every word is non-empty and
/// free of whitespace.
pub open spec fn canonical(ts: Seq<Tok>) -> bool {
    forall|i: int|
        0 <= i < ts.len() ==> ((#[trigger] ts[i]) matches Tok::Word(w) ==> good_word(w))
}

proof fn lemma_rebuild_canonical(gs: Seq<Seq<Seq<char>>>)
    requires
        forall|i: int| 0 <= i < gs.len() ==> good_words(#[trigger] gs[i]),
    ensures
        canonical(rebuild(gs)),
    decreases gs.len(),
{
    if gs.len() == 0 {
    } else if gs.len() == 1 {
        assert forall|i: int|
            0 <= i < rebuild(gs).len() implies ((#[trigger] rebuild(gs)[i]) matches Tok::Word(w)
            ==> good_word(w)) by {
            assert(rebuild(gs)[i] == Tok::Word(gs[0][i]));
            assert(good_words(gs[0]));
        };
    } else {
        assert forall|i: int| 0 <= i < gs.drop_first().len() implies good_words(
            #[trigger] gs.drop_first()[i],
        ) by {
            assert(gs.drop_first()[i] == gs[i + 1]);
        };
        lemma_rebuild_canonical(gs.drop_first());
        let head = word_toks(gs[0]);
        let rest = rebuild(gs.drop_first());
        assert forall|i: int|
            0 <= i < rebuild(gs).len() implies ((#[trigger] rebuild(gs)[i]) matches Tok::Word(w)
            ==> good_word(w)) by {
            if i < head.len() {
                assert(rebuild(gs)[i] == Tok::Word(gs[0][i]));
                assert(good_words(gs[0]));
            } else if i == head.len() {
                assert(rebuild(gs)[i] == Tok::Newline);
            } else {
                assert(rebuild(gs)[i] == rest[i - head.len() - 1]);
            }
        };
    }
}

/// Whatever the text, the tokenizer yields only non-empty, whitespace-free
/// words.
pub proof fn lemma_tokens_of_canonical(s: Seq<char>)
    ensures
        canonical(tokens_of(s)),
{
    let ls = lines_of(s);
    let gs = ls.map_values(|l: Seq<char>| words_of(l));
    assert forall|i: int| 0 <= i < gs.len() implies good_words(#[trigger] gs[i]) by {
        crate::text::lemma_words_of_good(ls[i]);
    };
    lemma_rebuild_canonical(gs);
}

/// Splitting the space-joined words of a line recovers exactly those words.
proof fn lemma_words_of_join(ws: Seq<Seq<char>>)
    requires
        good_words(ws),
    ensures
        words_of(join_words(ws)) == ws,
    decreases ws.len(),
{
    crate::text::lemma_first_word_len_le(join_words(ws));
    if ws.len() == 0 {
        assert(words_of(join_words(ws)) =~= ws);
    } else if ws.len() == 1 {
        let w = ws[0];
        assert(good_word(w));
        crate::text::lemma_first_word_len_is(w, w.len() as int);
        assert(words_of(w) == seq![w.take(w.len() as int)] + words_of(w.skip(w.len() as int)));
        assert(w.take(w.len() as int) =~= w);
        assert(w.skip(w.len() as int) =~= Seq::<char>::empty());
        assert(words_of(Seq::<char>::empty()) == Seq::<Seq<char>>::empty());
        assert(words_of(join_words(ws)) =~= ws);
    } else {
        let w = ws[0];
        let rest = ws.drop_first();
        assert forall|i: int| 0 <= i < rest.len() implies good_word(#[trigger] rest[i]) by {
            assert(rest[i] == ws[i + 1]);
        };
        lemma_words_of_join(rest);
        let j = join_words(ws);
        assert(j == w + seq![' '] + join_words(rest));
        assert forall|k: int| 0 <= k < w.len() implies !crate::text::is_space(j[k]) by {
            assert(j[k] == w[k]);
            assert(good_word(w));
        };
        assert(j[w.len() as int] == ' ');
        crate::text::lemma_first_word_len_is(j, w.len() as int);
        assert(good_word(w));
        assert(j.len() > 0 && !crate::text::is_space(j[0]));
        assert(words_of(j) == seq![j.take(w.len() as int)] + words_of(j.skip(w.len() as int)));
        assert(j.take(w.len() as int) =~= w);
        let tail = j.skip(w.len() as int);
        assert(tail =~= seq![' '] + join_words(rest));
        assert(crate::text::is_space(tail[0]));
        assert(tail.drop_first() =~= join_words(rest));
        assert(words_of(tail) == words_of(join_words(rest)));
        assert(words_of(j) =~= ws);
    }
}

/// The space-joined words of a line hold no newline and no carriage return.
proof fn lemma_join_words_clean(ws: Seq<Seq<char>>)
    requires
        good_words(ws),
    ensures
        forall|k: int|
            0 <= k < join_words(ws).len() ==> (#[trigger] join_words(ws)[k]) != '\n' && join_words(
                ws,
            )[k] != '\r',
        join_words(ws).len() == 0 <==> ws.len() == 0,
    decreases ws.len(),
{
    if ws.len() == 0 {
    } else if ws.len() == 1 {
        assert(good_word(ws[0]));
        assert forall|k: int|
            0 <= k < join_words(ws).len() implies (#[trigger] join_words(ws)[k]) != '\n'
            && join_words(ws)[k] != '\r' by {
            assert(!crate::text::is_space(ws[0][k]));
        };
    } else {
        let rest = ws.drop_first();
        assert forall|i: int| 0 <= i < rest.len() implies good_word(#[trigger] rest[i]) by {
            assert(rest[i] == ws[i + 1]);
        };
        lemma_join_words_clean(rest);
        let j = join_words(ws);
        assert(j == ws[0] + seq![' '] + join_words(rest));
        assert(good_word(ws[0]));
        assert forall|k: int|
            0 <= k < j.len() implies (#[trigger] j[k]) != '\n' && j[k] != '\r' by {
            if k < ws[0].len() {
                assert(j[k] == ws[0][k]);
                assert(!crate::text::is_space(ws[0][k]));
            } else if k == ws[0].len() {
                assert(j[k] == ' ');
            } else {
                assert(j[k] == join_words(rest)[k - ws[0].len() - 1]);
            }
        };
    }
}

/// Splitting space-joined, newline-joined clean lines recovers the lines,
/// except that one trailing empty line is absorbed by the final newline.
proof fn lemma_lines_of_join(ls: Seq<Seq<char>>)
    requires
        ls.len() >= 1,
        forall|i: int, k: int|
            0 <= i < ls.len() && 0 <= k < ls[i].len() ==> (#[trigger] ls[i][k]) != '\n' && ls[i][k]
                != '\r',
    ensures
        lines_of(join_lines(ls)) == if ls.last().len() == 0 {
            ls.drop_last()
        } else {
            ls
        },
    decreases ls.len(),
{
    let j = join_lines(ls);
    if ls.len() == 1 {
        assert(j == ls[0]);
        if ls[0].len() == 0 {
            assert(lines_of(j) =~= ls.drop_last());
        } else {
            crate::text::lemma_first_nl_is(j, j.len() as int);
            assert(lines_of(j) == seq![j]);
            assert(lines_of(j) =~= ls);
        }
    } else {
        let rest = ls.drop_first();
        assert forall|i: int, k: int|
            0 <= i < rest.len() && 0 <= k < rest[i].len() implies (#[trigger] rest[i][k]) != '\n'
            && rest[i][k] != '\r' by {
            assert(rest[i] == ls[i + 1]);
        };
        lemma_lines_of_join(rest);
        assert(j == ls[0] + seq!['\n'] + join_lines(rest));
        assert forall|k: int| 0 <= k < ls[0].len() implies j[k] != '\n' by {
            assert(j[k] == ls[0][k]);
        };
        assert(j[ls[0].len() as int] == '\n');
        crate::text::lemma_first_nl_is(j, ls[0].len() as int);
        let jj = ls[0].len() as int;
        assert(jj < j.len());
        assert(lines_of(j) == seq![crate::text::strip_cr(j.take(jj))] + lines_of(j.skip(jj + 1)));
        assert(j.take(jj) =~= ls[0]);
        assert(crate::text::strip_cr(ls[0]) == ls[0]) by {
            if ls[0].len() > 0 {
                assert(ls[0].last() != '\r');
            }
        };
        assert(j.skip(jj + 1) =~= join_lines(rest));
        assert(rest.last() == ls.last());
        if ls.last().len() == 0 {
            assert(lines_of(j) == seq![ls[0]] + rest.drop_last());
            assert(lines_of(j) =~= ls.drop_last());
        } else {
            assert(lines_of(j) == seq![ls[0]] + rest);
            assert(lines_of(j) =~= ls);
        }
    }
}

/// Regrouping the line groups of a token sequence rebuilds that sequence.
proof fn lemma_rebuild_token_lines(ts: Seq<Tok>)
    ensures
        rebuild(token_lines(ts)) == ts,
    decreases ts.len(),
{
    lemma_token_lines_len(ts);
    if ts.len() == 0 {
        assert(word_toks(Seq::<Seq<char>>::empty()) =~= Seq::<Tok>::empty());
        assert(rebuild(token_lines(ts)) =~= ts);
    } else {
        lemma_rebuild_token_lines(ts.drop_first());
        lemma_token_lines_len(ts.drop_first());
        let rr = token_lines(ts.drop_first());
        match ts[0] {
            Tok::Newline => {
                let tl = seq![Seq::<Seq<char>>::empty()] + rr;
                assert(token_lines(ts) == tl);
                assert(tl.len() >= 2);
                assert(tl[0] =~= Seq::<Seq<char>>::empty());
                assert(word_toks(Seq::<Seq<char>>::empty()) =~= Seq::<Tok>::empty());
                assert(tl.drop_first() =~= rr);
                assert(rebuild(tl) == word_toks(tl[0]) + seq![Tok::Newline] + rebuild(rr));
                assert(rebuild(tl) =~= ts);
            },
            Tok::Word(w) => {
                let tl = rr.update(0, seq![w] + rr[0]);
                assert(token_lines(ts) == tl);
                assert(word_toks(seq![w] + rr[0]) =~~= seq![Tok::Word(w)] + word_toks(rr[0]));
                if rr.len() == 1 {
                    assert(tl.len() == 1);
                    assert(rebuild(tl) == word_toks(tl[0]));
                    assert(rebuild(rr) == word_toks(rr[0]));
                    assert(rebuild(tl) == seq![Tok::Word(w)] + word_toks(rr[0]));
                    assert(word_toks(rr[0]) == ts.drop_first());
                    assert(rebuild(tl) =~= ts);
                } else {
                    assert(tl.drop_first() =~= rr.drop_first());
                    assert(rebuild(tl) == word_toks(tl[0]) + seq![Tok::Newline] + rebuild(
                        tl.drop_first(),
                    ));
                    assert(rebuild(rr) == word_toks(rr[0]) + seq![Tok::Newline] + rebuild(
                        rr.drop_first(),
                    ));
                    assert(rebuild(tl) == (seq![Tok::Word(w)] + word_toks(rr[0]))
                        + seq![Tok::Newline] + rebuild(rr.drop_first()));
                    assert((seq![Tok::Word(w)] + word_toks(rr[0])) + seq![Tok::Newline]
                        + rebuild(rr.drop_first()) =~= seq![Tok::Word(w)] + (word_toks(rr[0])
                        + seq![Tok::Newline] + rebuild(rr.drop_first())));
                    assert(rebuild(tl) =~= ts);
                }
            },
        }
    }
}

/// Every line group of a canonical token sequence holds only good words.
proof fn lemma_token_lines_good(ts: Seq<Tok>)
    requires
        canonical(ts),
    ensures
        forall|i: int| 0 <= i < token_lines(ts).len() ==> good_words(#[trigger] token_lines(ts)[i]),
    decreases ts.len(),
{
    if ts.len() == 0 {
    } else {
        assert forall|i: int|
            0 <= i < ts.drop_first().len() implies ((#[trigger] ts.drop_first()[i])
            matches Tok::Word(w) ==> good_word(w)) by {
            assert(ts.drop_first()[i] == ts[i + 1]);
        };
        lemma_token_lines_good(ts.drop_first());
        lemma_token_lines_len(ts.drop_first());
        let rr = token_lines(ts.drop_first());
        match ts[0] {
            Tok::Newline => {
                let tl = seq![Seq::<Seq<char>>::empty()] + rr;
                assert forall|i: int| 0 <= i < tl.len() implies good_words(#[trigger] tl[i]) by {
                    if i > 0 {
                        assert(tl[i] == rr[i - 1]);
                    } else {
                        assert(tl[0] =~= Seq::<Seq<char>>::empty());
                    }
                };
            },
            Tok::Word(w) => {
                let g0 = seq![w] + rr[0];
                let tl = rr.update(0, g0);
                assert(ts[0] matches Tok::Word(v) && v == w);
                assert(good_word(w));
                assert forall|i: int| 0 <= i < tl.len() implies good_words(#[trigger] tl[i]) by {
                    if i == 0 {
                        assert(good_words(rr[0]));
                        assert forall|k: int| 0 <= k < g0.len() implies good_word(
                            #[trigger] g0[k],
                        ) by {
                            if k > 0 {
                                assert(g0[k] == rr[0][k - 1]);
                            }
                        };
                    } else {
                        assert(tl[i] == rr[i]);
                    }
                };
            },
        }
    }
}

/// A token sequence without its one trailing line break, if it has one.
pub open spec fn drop_trailing_nl(ts: Seq<Tok>) -> Seq<Tok> {
    if ts.len() > 0 && ts.last() is Newline {
        ts.drop_last()
    } else {
        ts
    }
}

/// Tokenizing the rendering of a canonical token sequence recovers the
/// sequence, except that a trailing line break is absorbed: the rendering
/// ends the last line without a newline, so one trailing empty line is lost.
pub proof fn lemma_tokenize_render(ts: Seq<Tok>)
    requires
        canonical(ts),
    ensures
        tokens_of(render(ts)) == drop_trailing_nl(ts),
{
    let m = |g: Seq<Seq<char>>| join_words(g);
    let wmap = |l: Seq<char>| words_of(l);
    let gs = token_lines(ts);
    let ls = gs.map_values(m);
    lemma_token_lines_len(ts);
    lemma_token_lines_good(ts);
    assert forall|i: int, k: int|
        0 <= i < ls.len() && 0 <= k < ls[i].len() implies (#[trigger] ls[i][k]) != '\n' && ls[i][k]
        != '\r' by {
        lemma_join_words_clean(gs[i]);
        assert(ls[i] == join_words(gs[i]));
    };
    lemma_lines_of_join(ls);
    lemma_last_group(ts);
    lemma_join_words_clean(gs.last());
    assert(ls.last() == join_words(gs.last()));
    assert(ls.last().len() == 0 <==> !line_open(ts));
    if ts.len() > 0 && ts.last() is Newline {
        let t0 = ts.drop_last();
        assert(ts =~= t0.push(Tok::Newline));
        lemma_token_lines_push_nl(t0);
        assert(gs == token_lines(t0).push(seq![]));
        assert(ls.drop_last() =~~= token_lines(t0).map_values(m));
        assert(lines_of(render(ts)) == ls.drop_last());
        assert forall|i: int|
            0 <= i < ls.drop_last().len() implies (#[trigger] ls.drop_last().map_values(wmap)[i])
            == token_lines(t0)[i] by {
            assert(ls.drop_last()[i] == join_words(gs[i]));
            assert(gs[i] == token_lines(t0)[i]);
            lemma_words_of_join(gs[i]);
        };
        assert(lines_of(render(ts)).map_values(wmap) =~= token_lines(t0));
        assert forall|i: int|
            0 <= i < t0.len() implies ((#[trigger] t0[i]) matches Tok::Word(w) ==> good_word(
            w,
        )) by {
            assert(t0[i] == ts[i]);
        };
        lemma_rebuild_token_lines(t0);
        assert(tokens_of(render(ts)) == t0);
    } else if ts.len() == 0 {
        assert(gs =~= seq![Seq::<Seq<char>>::empty()]);
        assert(ls.last().len() == 0);
        assert(lines_of(render(ts)) == ls.drop_last());
        assert(ls.drop_last() =~= Seq::<Seq<char>>::empty());
        assert(lines_of(render(ts)).map_values(wmap) =~= Seq::<Seq<Seq<char>>>::empty());
        assert(rebuild(Seq::<Seq<Seq<char>>>::empty()) == Seq::<Tok>::empty());
        assert(tokens_of(render(ts)) =~= drop_trailing_nl(ts));
    } else {
        assert(line_open(ts));
        assert(ls.last().len() > 0);
        assert(lines_of(render(ts)) == ls);
        assert forall|i: int|
            0 <= i < ls.len() implies (#[trigger] ls.map_values(wmap)[i]) == gs[i] by {
            assert(ls[i] == join_words(gs[i]));
            lemma_words_of_join(gs[i]);
        };
        assert(lines_of(render(ts)).map_values(wmap) =~= gs);
        lemma_rebuild_token_lines(ts);
        assert(tokens_of(render(ts)) == ts);
    }
}

/// Re-tokenizing a normalized rendering is a no-op: tokenizing the rendering
/// of a text's tokens yields those tokens again, whenever the tokens do not
/// end in a line break. (A trailing line break — a text whose last line holds
/// no word — is absorbed by the rendering, which never emits a trailing
/// newline, so such inputs are left out.)
pub proof fn lemma_tokenize_render_idempotent(x: Seq<char>)
    requires
        !(tokens_of(x).len() > 0 && tokens_of(x).last() is Newline),
    ensures
        tokens_of(render(tokens_of(x))) == tokens_of(x),
{
    lemma_tokens_of_canonical(x);
    lemma_tokenize_render(tokens_of(x));
}

} // verus!
