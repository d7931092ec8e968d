//! Laws of the expression parser: what surrounding whitespace, brackets and
//! a leading `NOT` do to the tree that a text parses to.
use vstd::prelude::*;

use super::{
    and_rest, cons_token, iff_rest, is_ascii_alnum, is_ascii_ws, is_unicode_ws, is_word_char,
    lemma_word_end, lex_from, or_rest, p_and, p_atom, p_expr, p_iff, p_implies, p_or, p_unary,
    parse_expression_spec, parse_tokens, trim, trim_back, trim_front, with_prefix, word_end,
    word_kind, ErrorSpec, Formula, Tok, TokenSpec,
};

verus! {

// ── Whitespace ───────────────────────────────────────────

proof fn lemma_trim_front_skips_ws(c: char, x: Seq<char>)
    requires
        is_unicode_ws(c),
    ensures
        trim_front(seq![c] + x) == trim_front(x),
{
    assert((seq![c] + x).drop_first() =~= x);
}

proof fn lemma_trim_back_skips_ws(x: Seq<char>, c: char)
    requires
        is_unicode_ws(c),
    ensures
        trim_back(x + seq![c]) == trim_back(x),
{
    assert((x + seq![c]).drop_last() =~= x);
}

proof fn lemma_trim_front_append_ws(s: Seq<char>, c: char)
    requires
        is_unicode_ws(c),
    ensures
        trim_front(s + seq![c]) == (if trim_front(s).len() > 0 {
            trim_front(s) + seq![c]
        } else {
            Seq::<char>::empty()
        }),
    decreases s.len(),
{
    if s.len() == 0 {
        assert(s + seq![c] =~= seq![c] + s);
        lemma_trim_front_skips_ws(c, s);
    } else if is_unicode_ws(s[0]) {
        assert((s + seq![c]).drop_first() =~= s.drop_first() + seq![c]);
        lemma_trim_front_append_ws(s.drop_first(), c);
    } else {
        assert((s + seq![c])[0] == s[0]);
    }
}

/// Every character of `w` is whitespace.
pub open spec fn all_ws(w: Seq<char>) -> bool {
    forall|k: int| 0 <= k < w.len() ==> is_unicode_ws(#[trigger] w[k])
}

proof fn lemma_trim_front_skips_all(pre: Seq<char>, x: Seq<char>)
    requires
        all_ws(pre),
    ensures
        trim_front(pre + x) == trim_front(x),
    decreases pre.len(),
{
    if pre.len() > 0 {
        assert(pre + x =~= seq![pre[0]] + (pre.drop_first() + x));
        lemma_trim_front_skips_ws(pre[0], pre.drop_first() + x);
        lemma_trim_front_skips_all(pre.drop_first(), x);
    } else {
        assert(pre + x =~= x);
    }
}

proof fn lemma_trim_back_skips_all(x: Seq<char>, post: Seq<char>)
    requires
        all_ws(post),
    ensures
        trim_back(x + post) == trim_back(x),
    decreases post.len(),
{
    if post.len() > 0 {
        assert(x + post =~= (x + post.drop_last()) + seq![post.last()]);
        lemma_trim_back_skips_ws(x + post.drop_last(), post.last());
        lemma_trim_back_skips_all(x, post.drop_last());
    } else {
        assert(x + post =~= x);
    }
}

proof fn lemma_trim_front_append_all(s: Seq<char>, post: Seq<char>)
    requires
        all_ws(post),
    ensures
        trim_front(s + post) == (if trim_front(s).len() > 0 {
            trim_front(s) + post
        } else {
            Seq::<char>::empty()
        }),
    decreases post.len(),
{
    if post.len() > 0 {
        let init = post.drop_last();
        let c = post.last();
        assert(s + post =~= (s + init) + seq![c]);
        lemma_trim_front_append_all(s, init);
        lemma_trim_front_append_ws(s + init, c);
        if trim_front(s).len() > 0 {
            assert(trim_front(s) + init + seq![c] =~= trim_front(s) + post);
        }
    } else {
        assert(s + post =~= s);
    }
}

/// Whitespace around an expression changes nothing: with any whitespace
/// before it and after it, it gives the same tree, or the same errors, as
/// the expression alone.
pub proof fn lemma_parse_ignores_surrounding_whitespace(pre: Seq<char>, s: Seq<char>, post: Seq<char>)
    requires
        all_ws(pre),
        all_ws(post),
    ensures
        parse_expression_spec(pre + s + post) == parse_expression_spec(s),
{
    let padded = pre + s + post;
    assert(padded =~= pre + (s + post));
    lemma_trim_front_skips_all(pre, s + post);
    lemma_trim_front_append_all(s, post);
    if trim_front(s).len() > 0 {
        lemma_trim_back_skips_all(trim_front(s), post);
    } else {
        assert(trim_front(s) =~= Seq::<char>::empty());
    }
    assert(trim(padded) == trim(s));
}

// ── Parsing inside a larger token sequence ───────────────

/// The binary operators, the only tokens at which a parsed prefix may go on.
spec fn is_binary_op(k: Tok) -> bool {
    k is Iff || k is Implies || k is Or || k is And
}

/// `u` stands in `t` from index `off` on, token kind by token kind, and the
/// token after it in `t`, if any, is no binary operator.
spec fn embeds(u: Seq<TokenSpec>, t: Seq<TokenSpec>, off: int) -> bool {
    &&& 0 <= off
    &&& off + u.len() <= t.len()
    &&& forall|i: int| 0 <= i < u.len() ==> t[off + i].kind == #[trigger] u[i].kind
    &&& (off + u.len() < t.len() ==> !is_binary_op(t[off + u.len()].kind))
}

proof fn lemma_embed_expr(
    u: Seq<TokenSpec>,
    t: Seq<TokenSpec>,
    off: int,
    pos: int,
    end: int,
    end2: int,
)
    requires
        embeds(u, t, off),
        0 <= pos,
    ensures
        p_expr(u, pos, end) matches Ok((f, q)) ==> pos < q <= u.len() && p_expr(t, pos + off, end2)
            == Ok::<(Formula, int), ErrorSpec>((f, q + off)),
    decreases u.len() - pos, 7int,
{
    lemma_embed_iff(u, t, off, pos, end, end2);
}

proof fn lemma_embed_iff(
    u: Seq<TokenSpec>,
    t: Seq<TokenSpec>,
    off: int,
    pos: int,
    end: int,
    end2: int,
)
    requires
        embeds(u, t, off),
        0 <= pos,
    ensures
        p_iff(u, pos, end) matches Ok((f, q)) ==> pos < q <= u.len() && p_iff(t, pos + off, end2)
            == Ok::<(Formula, int), ErrorSpec>((f, q + off)),
    decreases u.len() - pos, 6int,
{
    lemma_embed_implies(u, t, off, pos, end, end2);
    if let Ok((l, p)) = p_implies(u, pos, end) {
        lemma_embed_iff_rest(u, t, off, p, end, end2, l);
    }
}

proof fn lemma_embed_iff_rest(
    u: Seq<TokenSpec>,
    t: Seq<TokenSpec>,
    off: int,
    p: int,
    end: int,
    end2: int,
    l: Formula,
)
    requires
        embeds(u, t, off),
        0 <= p <= u.len(),
    ensures
        iff_rest(u, p, end, l) matches Ok((f, q)) ==> p <= q <= u.len() && iff_rest(
            t,
            p + off,
            end2,
            l,
        ) == Ok::<(Formula, int), ErrorSpec>((f, q + off)),
    decreases u.len() - p, 6int,
{
    if p < u.len() {
        assert(t[off + p].kind == u[p].kind);
    }
    if p < u.len() && u[p].kind is Iff {
        lemma_embed_implies(u, t, off, p + 1, end, end2);
        if let Ok((r, q)) = p_implies(u, p + 1, end) {
            lemma_embed_iff_rest(u, t, off, q, end, end2, Formula::Iff(Box::new(l), Box::new(r)));
        }
    }
}

#[verifier::spinoff_prover]
#[verifier::rlimit(40)]
proof fn lemma_embed_implies(
    u: Seq<TokenSpec>,
    t: Seq<TokenSpec>,
    off: int,
    pos: int,
    end: int,
    end2: int,
)
    requires
        embeds(u, t, off),
        0 <= pos,
    ensures
        p_implies(u, pos, end) matches Ok((f, q)) ==> pos < q <= u.len() && p_implies(
            t,
            pos + off,
            end2,
        ) == Ok::<(Formula, int), ErrorSpec>((f, q + off)),
    decreases u.len() - pos, 5int,
{
    lemma_embed_or(u, t, off, pos, end, end2);
    if let Ok((l, p)) = p_or(u, pos, end) {
        assert(p_or(t, pos + off, end2) == Ok::<(Formula, int), ErrorSpec>((l, p + off)));
        if p < u.len() {
            assert(t[off + p].kind == u[p].kind);
        }
        if p < u.len() && u[p].kind is Implies {
            assert(t[p + off].kind is Implies);
            lemma_embed_implies(u, t, off, p + 1, end, end2);
            if let Ok((r, q)) = p_implies(u, p + 1, end) {
                assert(p_implies(t, p + 1 + off, end2) == Ok::<(Formula, int), ErrorSpec>(
                    (r, q + off),
                ));
                assert(p_implies(u, pos, end) == Ok::<(Formula, int), ErrorSpec>(
                    (Formula::Implies(Box::new(l), Box::new(r)), q),
                ));
            }
        } else {
            assert(!(pos + off <= p + off < t.len() && t[p + off].kind is Implies));
        }
    }
}

proof fn lemma_embed_or(
    u: Seq<TokenSpec>,
    t: Seq<TokenSpec>,
    off: int,
    pos: int,
    end: int,
    end2: int,
)
    requires
        embeds(u, t, off),
        0 <= pos,
    ensures
        p_or(u, pos, end) matches Ok((f, q)) ==> pos < q <= u.len() && p_or(t, pos + off, end2)
            == Ok::<(Formula, int), ErrorSpec>((f, q + off)),
    decreases u.len() - pos, 4int,
{
    lemma_embed_and(u, t, off, pos, end, end2);
    if let Ok((l, p)) = p_and(u, pos, end) {
        lemma_embed_or_rest(u, t, off, p, end, end2, l);
    }
}

proof fn lemma_embed_or_rest(
    u: Seq<TokenSpec>,
    t: Seq<TokenSpec>,
    off: int,
    p: int,
    end: int,
    end2: int,
    l: Formula,
)
    requires
        embeds(u, t, off),
        0 <= p <= u.len(),
    ensures
        or_rest(u, p, end, l) matches Ok((f, q)) ==> p <= q <= u.len() && or_rest(
            t,
            p + off,
            end2,
            l,
        ) == Ok::<(Formula, int), ErrorSpec>((f, q + off)),
    decreases u.len() - p, 4int,
{
    if p < u.len() {
        assert(t[off + p].kind == u[p].kind);
    }
    if p < u.len() && u[p].kind is Or {
        lemma_embed_and(u, t, off, p + 1, end, end2);
        if let Ok((r, q)) = p_and(u, p + 1, end) {
            lemma_embed_or_rest(u, t, off, q, end, end2, Formula::Or(Box::new(l), Box::new(r)));
        }
    }
}

proof fn lemma_embed_and(
    u: Seq<TokenSpec>,
    t: Seq<TokenSpec>,
    off: int,
    pos: int,
    end: int,
    end2: int,
)
    requires
        embeds(u, t, off),
        0 <= pos,
    ensures
        p_and(u, pos, end) matches Ok((f, q)) ==> pos < q <= u.len() && p_and(t, pos + off, end2)
            == Ok::<(Formula, int), ErrorSpec>((f, q + off)),
    decreases u.len() - pos, 3int,
{
    lemma_embed_unary(u, t, off, pos, end, end2);
    if let Ok((l, p)) = p_unary(u, pos, end) {
        lemma_embed_and_rest(u, t, off, p, end, end2, l);
    }
}

proof fn lemma_embed_and_rest(
    u: Seq<TokenSpec>,
    t: Seq<TokenSpec>,
    off: int,
    p: int,
    end: int,
    end2: int,
    l: Formula,
)
    requires
        embeds(u, t, off),
        0 <= p <= u.len(),
    ensures
        and_rest(u, p, end, l) matches Ok((f, q)) ==> p <= q <= u.len() && and_rest(
            t,
            p + off,
            end2,
            l,
        ) == Ok::<(Formula, int), ErrorSpec>((f, q + off)),
    decreases u.len() - p, 3int,
{
    if p < u.len() {
        assert(t[off + p].kind == u[p].kind);
    }
    if p < u.len() && u[p].kind is And {
        lemma_embed_unary(u, t, off, p + 1, end, end2);
        if let Ok((r, q)) = p_unary(u, p + 1, end) {
            lemma_embed_and_rest(u, t, off, q, end, end2, Formula::And(Box::new(l), Box::new(r)));
        }
    }
}

proof fn lemma_embed_unary(
    u: Seq<TokenSpec>,
    t: Seq<TokenSpec>,
    off: int,
    pos: int,
    end: int,
    end2: int,
)
    requires
        embeds(u, t, off),
        0 <= pos,
    ensures
        p_unary(u, pos, end) matches Ok((f, q)) ==> pos < q <= u.len() && p_unary(
            t,
            pos + off,
            end2,
        ) == Ok::<(Formula, int), ErrorSpec>((f, q + off)),
    decreases u.len() - pos, 2int,
{
    if pos < u.len() {
        assert(t[off + pos].kind == u[pos].kind);
    }
    if pos < u.len() && u[pos].kind is Not {
        lemma_embed_unary(u, t, off, pos + 1, end, end2);
    } else {
        lemma_embed_atom(u, t, off, pos, end, end2);
    }
}

proof fn lemma_embed_atom(
    u: Seq<TokenSpec>,
    t: Seq<TokenSpec>,
    off: int,
    pos: int,
    end: int,
    end2: int,
)
    requires
        embeds(u, t, off),
        0 <= pos,
    ensures
        p_atom(u, pos, end) matches Ok((f, q)) ==> pos < q <= u.len() && p_atom(t, pos + off, end2)
            == Ok::<(Formula, int), ErrorSpec>((f, q + off)),
    decreases u.len() - pos, 1int,
{
    if pos < u.len() {
        assert(t[off + pos].kind == u[pos].kind);
        if u[pos].kind is LParen {
            lemma_embed_expr(u, t, off, pos + 1, end, end2);
            if let Ok((e, p)) = p_expr(u, pos + 1, end) {
                if p < u.len() {
                    assert(t[off + p].kind == u[p].kind);
                }
            }
        }
    }
}

// ── Lexing inside a larger text ──────────────────────────

/// `ts` with every position moved on by `o`.
spec fn shifted(ts: Seq<TokenSpec>, o: int) -> Seq<TokenSpec> {
    ts.map_values(|t: TokenSpec| TokenSpec { kind: t.kind, pos: t.pos + o })
}

/// `x` stands in `w` from index `o` on, and the character after it in `w`,
/// if any, cannot continue a word.
spec fn contains_at(w: Seq<char>, x: Seq<char>, o: int) -> bool {
    &&& 0 <= o
    &&& o + x.len() <= w.len()
    &&& w.subrange(o, o + x.len()) == x
    &&& (o + x.len() < w.len() ==> !is_word_char(w[o + x.len()]))
}

proof fn lemma_ascii_ws_not_word(c: char)
    requires
        is_ascii_ws(c),
    ensures
        !is_word_char(c),
        !is_ascii_alnum(c),
        c != '(',
        c != ')',
{
}

proof fn lemma_word_end_at(w: Seq<char>, x: Seq<char>, o: int, k: int)
    requires
        contains_at(w, x, o),
        0 <= k <= x.len(),
    ensures
        word_end(w, o + k) == o + word_end(x, k),
    decreases x.len() - k,
{
    if k < x.len() {
        assert(w[o + k] == w.subrange(o, o + x.len())[k]);
        if is_word_char(x[k]) {
            lemma_word_end_at(w, x, o, k + 1);
        }
    }
}

proof fn lemma_cons_with_prefix(
    t: TokenSpec,
    a: Seq<TokenSpec>,
    r: Result<Seq<TokenSpec>, ErrorSpec>,
)
    ensures
        cons_token(t, with_prefix(a, r)) == with_prefix(seq![t] + a, r),
{
    if let Ok(ts) = r {
        assert(seq![t] + (a + ts) =~= (seq![t] + a) + ts);
    }
}

proof fn lemma_lex_at(w: Seq<char>, x: Seq<char>, o: int, i: int)
    requires
        contains_at(w, x, o),
        0 <= i <= x.len(),
        lex_from(x, i) is Ok,
    ensures
        lex_from(w, o + i) == with_prefix(shifted(lex_from(x, i)->Ok_0, o), lex_from(w, o + x.len())),
    decreases x.len() - i,
{
    if i == x.len() {
        assert(shifted(Seq::<TokenSpec>::empty(), o) =~= Seq::<TokenSpec>::empty());
        if let Ok(ts) = lex_from(w, o + x.len()) {
            assert(Seq::<TokenSpec>::empty() + ts =~= ts);
        }
    } else {
        let c = x[i];
        assert(w[o + i] == w.subrange(o, o + x.len())[i]);
        if is_ascii_ws(c) {
            lemma_lex_at(w, x, o, i + 1);
        } else if c == '(' || c == ')' {
            lemma_lex_at(w, x, o, i + 1);
            let k = if c == '(' {
                Tok::LParen
            } else {
                Tok::RParen
            };
            let rest = lex_from(x, i + 1)->Ok_0;
            assert(shifted(seq![TokenSpec { kind: k, pos: i }] + rest, o) =~= seq![
                TokenSpec { kind: k, pos: o + i },
            ] + shifted(rest, o));
            lemma_cons_with_prefix(
                TokenSpec { kind: k, pos: o + i },
                shifted(rest, o),
                lex_from(w, o + x.len()),
            );
        } else if is_ascii_alnum(c) {
            lemma_word_end(x, i + 1);
            lemma_word_end_at(w, x, o, i);
            let j = word_end(x, i);
            assert(w.subrange(o + i, o + j) =~= x.subrange(i, j)) by {
                assert forall|m: int| 0 <= m < j - i implies w.subrange(o + i, o + j)[m]
                    == x.subrange(i, j)[m] by {
                    assert(w[o + i + m] == w.subrange(o, o + x.len())[i + m]);
                }
            }
            lemma_lex_at(w, x, o, j);
            let k = word_kind(x.subrange(i, j));
            let rest = lex_from(x, j)->Ok_0;
            assert(shifted(seq![TokenSpec { kind: k, pos: i }] + rest, o) =~= seq![
                TokenSpec { kind: k, pos: o + i },
            ] + shifted(rest, o));
            lemma_cons_with_prefix(
                TokenSpec { kind: k, pos: o + i },
                shifted(rest, o),
                lex_from(w, o + x.len()),
            );
        }
    }
}

proof fn lemma_lex_skips_ws(w: Seq<char>, i: int, j: int)
    requires
        0 <= i <= j <= w.len(),
        forall|k: int| i <= k < j ==> is_ascii_ws(#[trigger] w[k]),
    ensures
        lex_from(w, i) == lex_from(w, j),
    decreases j - i,
{
    if i < j {
        lemma_lex_skips_ws(w, i + 1, j);
    }
}

proof fn lemma_trim_front_shape(s: Seq<char>) -> (a: int)
    ensures
        0 <= a <= s.len(),
        trim_front(s) == s.subrange(a, s.len() as int),
        forall|k: int| 0 <= k < a ==> is_unicode_ws(#[trigger] s[k]),
    decreases s.len(),
{
    if s.len() > 0 && is_unicode_ws(s[0]) {
        let a1 = lemma_trim_front_shape(s.drop_first());
        assert(s.drop_first().subrange(a1, s.len() - 1) =~= s.subrange(a1 + 1, s.len() as int));
        assert forall|k: int| 0 <= k < a1 + 1 implies is_unicode_ws(#[trigger] s[k]) by {
            if k > 0 {
                assert(s[k] == s.drop_first()[k - 1]);
            }
        }
        a1 + 1
    } else {
        assert(s.subrange(0, s.len() as int) =~= s);
        0
    }
}

proof fn lemma_trim_back_shape(s: Seq<char>) -> (b: int)
    ensures
        0 <= b <= s.len(),
        trim_back(s) == s.subrange(0, b),
        forall|k: int| b <= k < s.len() ==> is_unicode_ws(#[trigger] s[k]),
    decreases s.len(),
{
    if s.len() > 0 && is_unicode_ws(s.last()) {
        let b1 = lemma_trim_back_shape(s.drop_last());
        assert(s.drop_last().subrange(0, b1) =~= s.subrange(0, b1));
        assert forall|k: int| b1 <= k < s.len() implies is_unicode_ws(#[trigger] s[k]) by {
            if k < s.len() - 1 {
                assert(s[k] == s.drop_last()[k]);
            }
        }
        b1
    } else {
        assert(s.subrange(0, s.len() as int) =~= s);
        s.len() as int
    }
}

/// The tokens of `w` from `o` on, where `w` holds `s` at `o` and then one
/// closing bracket: the tokens of the trimmed `s`, moved on by `o` and the
/// whitespace trimmed off the front of `s`, then that bracket.
proof fn lemma_lex_bracketed(w: Seq<char>, s: Seq<char>, o: int) -> (a: int)
    requires
        0 <= o,
        w.len() == o + s.len() + 1,
        w.subrange(o, o + s.len()) == s,
        w[o + s.len()] == ')',
        lex_from(trim(s), 0) is Ok,
        forall|k: int| 0 <= k < s.len() && is_unicode_ws(#[trigger] s[k]) ==> is_ascii_ws(s[k]),
    ensures
        lex_from(w, o) == Ok::<Seq<TokenSpec>, ErrorSpec>(
            shifted(lex_from(trim(s), 0)->Ok_0, o + a) + seq![
                TokenSpec { kind: Tok::RParen, pos: o + s.len() },
            ],
        ),
{
    let a = lemma_trim_front_shape(s);
    let b = lemma_trim_back_shape(trim_front(s));
    let tr = trim(s);
    assert(tr =~= s.subrange(a, a + b));
    assert forall|k: int| 0 <= k < s.len() implies w[o + k] == #[trigger] s[k] by {
        assert(w[o + k] == w.subrange(o, o + s.len())[k]);
    }
    assert forall|k: int| a + b <= k < s.len() implies is_unicode_ws(#[trigger] s[k]) by {
        assert(s[k] == trim_front(s)[k - a]);
    }
    assert forall|k: int| o <= k < o + a implies is_ascii_ws(#[trigger] w[k]) by {
        assert(w[k] == s[k - o]);
    }
    lemma_lex_skips_ws(w, o, o + a);
    assert forall|k: int| o + a + b <= k < o + s.len() implies is_ascii_ws(#[trigger] w[k]) by {
        assert(w[k] == s[k - o]);
    }
    lemma_lex_skips_ws(w, o + a + b, o + s.len());
    assert(w.subrange(o + a, o + a + b) =~= tr);
    if a + b < s.len() {
        assert(w[o + a + b] == s[a + b]);
        lemma_ascii_ws_not_word(s[a + b]);
    }
    assert(contains_at(w, tr, o + a));
    lemma_lex_at(w, tr, o + a, 0);
    assert(lex_from(w, o + s.len() + 1) == Ok::<Seq<TokenSpec>, ErrorSpec>(Seq::empty()));
    assert(seq![TokenSpec { kind: Tok::RParen, pos: o + s.len() }] + Seq::<TokenSpec>::empty()
        =~= seq![TokenSpec { kind: Tok::RParen, pos: o + s.len() }]);
    a
}

// ── Brackets and negation ────────────────────────────────

proof fn lemma_unary_spans_all(w: Seq<TokenSpec>, end: int, f: Formula)
    requires
        w.len() > 0,
        p_unary(w, 0, end) == Ok::<(Formula, int), ErrorSpec>((f, w.len() as int)),
    ensures
        parse_tokens(w, end) == Ok::<Formula, ErrorSpec>(f),
{
    let n = w.len() as int;
    assert(and_rest(w, n, end, f) == Ok::<(Formula, int), ErrorSpec>((f, n)));
    assert(p_and(w, 0, end) == Ok::<(Formula, int), ErrorSpec>((f, n)));
    assert(or_rest(w, n, end, f) == Ok::<(Formula, int), ErrorSpec>((f, n)));
    assert(p_or(w, 0, end) == Ok::<(Formula, int), ErrorSpec>((f, n)));
    assert(p_implies(w, 0, end) == Ok::<(Formula, int), ErrorSpec>((f, n)));
    assert(iff_rest(w, n, end, f) == Ok::<(Formula, int), ErrorSpec>((f, n)));
    assert(p_iff(w, 0, end) == Ok::<(Formula, int), ErrorSpec>((f, n)));
    assert(p_expr(w, 0, end) == Ok::<(Formula, int), ErrorSpec>((f, n)));
}

/// The tokens `u` of a whole expression, standing in `w` from `off` on,
/// right before a closing bracket at the end of `w` and right after an
/// opening one: the bracket pair parses to the tree of `u`.
proof fn lemma_bracket_pair(u: Seq<TokenSpec>, w: Seq<TokenSpec>, off: int, end: int, end2: int)
    requires
        1 <= off,
        w.len() == off + u.len() + 1,
        w[off - 1].kind is LParen,
        w[off + u.len()].kind is RParen,
        forall|i: int| 0 <= i < u.len() ==> w[off + i].kind == #[trigger] u[i].kind,
        parse_tokens(u, end) is Ok,
    ensures
        p_atom(w, off - 1, end2) == Ok::<(Formula, int), ErrorSpec>(
            (parse_tokens(u, end)->Ok_0, w.len() as int),
        ),
{
    assert(embeds(u, w, off));
    lemma_embed_expr(u, w, off, 0, end, end2);
}

proof fn lemma_trim_keeps(v: Seq<char>)
    requires
        v.len() > 0,
        !is_unicode_ws(v[0]),
        !is_unicode_ws(v.last()),
    ensures
        trim(v) == v,
{
}

proof fn lemma_in_brackets(s: Seq<char>)
    requires
        parse_expression_spec(s) is Ok,
        forall|k: int| 0 <= k < s.len() && is_unicode_ws(#[trigger] s[k]) ==> is_ascii_ws(s[k]),
    ensures
        parse_expression_spec(seq!['('] + s + seq![')']) == parse_expression_spec(s),
{
    let tr = trim(s);
    let u = lex_from(tr, 0)->Ok_0;
    let f = parse_expression_spec(s)->Ok_0;
    assert(parse_tokens(u, tr.len() as int) == Ok::<Formula, ErrorSpec>(f));
    let n = s.len() as int;
    let w = seq!['('] + s + seq![')'];
    assert(w.subrange(1, 1 + n) =~= s);
    let a = lemma_lex_bracketed(w, s, 1);
    let close = TokenSpec { kind: Tok::RParen, pos: 1 + n };
    let open = TokenSpec { kind: Tok::LParen, pos: 0 };
    let big = seq![open] + shifted(u, 1 + a) + seq![close];
    assert(w[0] == '(');
    assert(lex_from(w, 0) == cons_token(open, lex_from(w, 1)));
    assert(seq![open] + (shifted(u, 1 + a) + seq![close]) =~= big);
    assert(lex_from(w, 0) == Ok::<Seq<TokenSpec>, ErrorSpec>(big));
    assert(w.last() == ')');
    lemma_trim_keeps(w);
    assert forall|i: int| 0 <= i < u.len() implies big[1 + i].kind == #[trigger] u[i].kind by {
        assert(big[1 + i] == shifted(u, 1 + a)[i]);
    }
    lemma_bracket_pair(u, big, 1, tr.len() as int, w.len() as int);
    lemma_unary_spans_all(big, w.len() as int, f);
}

proof fn lemma_lex_not_open(v: Seq<char>)
    requires
        v.len() >= 5,
        v[0] == 'N',
        v[1] == 'O',
        v[2] == 'T',
        v[3] == ' ',
        v[4] == '(',
    ensures
        lex_from(v, 0) == cons_token(
            TokenSpec { kind: Tok::Not, pos: 0 },
            cons_token(TokenSpec { kind: Tok::LParen, pos: 4 }, lex_from(v, 5)),
        ),
{
    assert(word_end(v, 3) == 3);
    assert(word_end(v, 2) == 3);
    assert(word_end(v, 1) == 3);
    assert(word_end(v, 0) == 3);
    assert(v.subrange(0, 3) =~= seq!['N', 'O', 'T']);
    assert(word_kind(v.subrange(0, 3)) == Tok::Not) by {
        assert(seq!['N', 'O', 'T'][0] != seq!['A', 'N', 'D'][0]);
        assert(seq!['N', 'O', 'T'].len() != seq!['O', 'R'].len());
    }
    assert(lex_from(v, 4) == cons_token(TokenSpec { kind: Tok::LParen, pos: 4 }, lex_from(v, 5)));
    assert(lex_from(v, 3) == lex_from(v, 4));
}

proof fn lemma_negated_pair(u: Seq<TokenSpec>, w: Seq<TokenSpec>, end: int, end2: int)
    requires
        w.len() == u.len() + 3,
        w[0].kind is Not,
        w[1].kind is LParen,
        w[2 + u.len() as int].kind is RParen,
        forall|i: int| 0 <= i < u.len() ==> w[2 + i].kind == #[trigger] u[i].kind,
        parse_tokens(u, end) is Ok,
    ensures
        parse_tokens(w, end2) == Ok::<Formula, ErrorSpec>(
            Formula::Not(Box::new(parse_tokens(u, end)->Ok_0)),
        ),
{
    let f = parse_tokens(u, end)->Ok_0;
    lemma_bracket_pair(u, w, 2, end, end2);
    assert(p_unary(w, 1, end2) == p_atom(w, 1, end2));
    assert(p_unary(w, 0, end2) == Ok::<(Formula, int), ErrorSpec>(
        (Formula::Not(Box::new(f)), w.len() as int),
    ));
    lemma_unary_spans_all(w, end2, Formula::Not(Box::new(f)));
}

#[verifier::spinoff_prover]
#[verifier::rlimit(60)]
proof fn lemma_negated(s: Seq<char>)
    requires
        parse_expression_spec(s) is Ok,
        forall|k: int| 0 <= k < s.len() && is_unicode_ws(#[trigger] s[k]) ==> is_ascii_ws(s[k]),
    ensures
        parse_expression_spec(seq!['N', 'O', 'T', ' ', '('] + s + seq![')']) == Ok::<
            Formula,
            Seq<ErrorSpec>,
        >(Formula::Not(Box::new(parse_expression_spec(s)->Ok_0))),
{
    let tr = trim(s);
    let u = lex_from(tr, 0)->Ok_0;
    let f = parse_expression_spec(s)->Ok_0;
    assert(parse_tokens(u, tr.len() as int) == Ok::<Formula, ErrorSpec>(f));
    let n = s.len() as int;
    let v = seq!['N', 'O', 'T', ' ', '('] + s + seq![')'];
    assert(v.subrange(5, 5 + n) =~= s);
    let a = lemma_lex_bracketed(v, s, 5);
    let not = TokenSpec { kind: Tok::Not, pos: 0 };
    let open = TokenSpec { kind: Tok::LParen, pos: 4 };
    let close = TokenSpec { kind: Tok::RParen, pos: 5 + n };
    let neg = seq![not, open] + shifted(u, 5 + a) + seq![close];
    assert(lex_from(v, 0) == Ok::<Seq<TokenSpec>, ErrorSpec>(neg)) by {
        assert(v[0] == 'N' && v[1] == 'O' && v[2] == 'T' && v[3] == ' ' && v[4] == '(');
        lemma_lex_not_open(v);
        assert(seq![not] + (seq![open] + (shifted(u, 5 + a) + seq![close])) =~= neg);
    }
    assert(trim(v) == v) by {
        assert(v[0] == 'N' && v.last() == ')');
        lemma_trim_keeps(v);
    }
    assert forall|i: int| 0 <= i < u.len() implies neg[2 + i].kind == #[trigger] u[i].kind by {
        assert(neg[2 + i] == shifted(u, 5 + a)[i]);
    }
    assert(neg.len() == u.len() + 3);
    assert(neg[0] == not && neg[1] == open && neg[2 + u.len() as int] == close);
    lemma_negated_pair(u, neg, tr.len() as int, v.len() as int);
    assert(parse_tokens(neg, v.len() as int) == Ok::<Formula, ErrorSpec>(
        Formula::Not(Box::new(f)),
    ));
}

/// Wrapping an expression in brackets keeps its tree, and writing `NOT`
/// before the brackets negates it. This holds of every text that parses
/// whose whitespace is ASCII; other whitespace is trimmed off the ends of a
/// text but refused inside one.
pub proof fn lemma_brackets_keep_tree(s: Seq<char>)
    requires
        parse_expression_spec(s) is Ok,
        forall|k: int| 0 <= k < s.len() && is_unicode_ws(#[trigger] s[k]) ==> is_ascii_ws(s[k]),
    ensures
        parse_expression_spec(seq!['('] + s + seq![')']) == parse_expression_spec(s),
        parse_expression_spec(seq!['N', 'O', 'T', ' ', '('] + s + seq![')']) == Ok::<
            Formula,
            Seq<ErrorSpec>,
        >(Formula::Not(Box::new(parse_expression_spec(s)->Ok_0))),
{
    lemma_in_brackets(s);
    lemma_negated(s);
}

// ── Operator precedence and grouping ─────────────────────

/// A word: a letter or digit, then letters, digits, `-` and `_`.
pub open spec fn is_word(w: Seq<char>) -> bool {
    &&& w.len() > 0
    &&& is_ascii_alnum(w[0])
    &&& forall|k: int| 0 <= k < w.len() ==> is_word_char(#[trigger] w[k])
}

/// A node ID as an expression names it: a word that is no keyword.
pub open spec fn is_operand_word(w: Seq<char>) -> bool {
    is_word(w) && word_kind(w) == Tok::Id(w)
}

/// The words of `ws` with one space between each two.
pub open spec fn spaced(ws: Seq<Seq<char>>) -> Seq<char>
    decreases ws.len(),
{
    if ws.len() == 0 {
        Seq::empty()
    } else if ws.len() == 1 {
        ws[0]
    } else {
        ws[0] + seq![' '] + spaced(ws.drop_first())
    }
}

/// The keyword `AND`.
pub open spec fn and_word() -> Seq<char> {
    seq!['A', 'N', 'D']
}

/// The keyword `OR`.
pub open spec fn or_word() -> Seq<char> {
    seq!['O', 'R']
}

/// The keyword `NOT`.
pub open spec fn not_word() -> Seq<char> {
    seq!['N', 'O', 'T']
}

/// The keyword `IMPLIES`.
pub open spec fn implies_word() -> Seq<char> {
    seq!['I', 'M', 'P', 'L', 'I', 'E', 'S']
}

/// The keyword `IFF`.
pub open spec fn iff_word() -> Seq<char> {
    seq!['I', 'F', 'F']
}

/// The token kinds of `ts`.
spec fn kinds(ts: Seq<TokenSpec>) -> Seq<Tok> {
    ts.map_values(|t: TokenSpec| t.kind)
}

proof fn lemma_keywords()
    ensures
        is_word(and_word()) && word_kind(and_word()) == Tok::And,
        is_word(or_word()) && word_kind(or_word()) == Tok::Or,
        is_word(not_word()) && word_kind(not_word()) == Tok::Not,
        is_word(implies_word()) && word_kind(implies_word()) == Tok::Implies,
        is_word(iff_word()) && word_kind(iff_word()) == Tok::Iff,
{
    assert(or_word().len() != and_word().len());
    assert(not_word()[0] != and_word()[0]);
    assert(implies_word().len() != and_word().len());
    assert(implies_word().len() != or_word().len());
    assert(implies_word().len() != not_word().len());
    assert(iff_word()[0] != and_word()[0]);
    assert(iff_word().len() != or_word().len());
    assert(iff_word()[0] != not_word()[0]);
    assert(iff_word().len() != implies_word().len());
}

proof fn lemma_word_end_all(w: Seq<char>, i: int)
    requires
        0 <= i <= w.len(),
        forall|k: int| 0 <= k < w.len() ==> is_word_char(#[trigger] w[k]),
    ensures
        word_end(w, i) == w.len(),
    decreases w.len() - i,
{
    if i < w.len() {
        lemma_word_end_all(w, i + 1);
    }
}

proof fn lemma_word_not_ws(c: char)
    ensures
        is_word_char(c) ==> !is_unicode_ws(c),
        is_ascii_alnum(c) ==> !is_unicode_ws(c),
{
}

/// Words joined by single spaces lex to one token per word, of the kind the
/// word stands for.
proof fn lemma_lex_spaced(ws: Seq<Seq<char>>)
    requires
        ws.len() > 0,
        forall|k: int| 0 <= k < ws.len() ==> is_word(#[trigger] ws[k]),
    ensures
        lex_from(spaced(ws), 0) is Ok,
        kinds(lex_from(spaced(ws), 0)->Ok_0) == ws.map_values(|w: Seq<char>| word_kind(w)),
        spaced(ws).len() > 0,
        spaced(ws)[0] == ws[0][0],
        spaced(ws).last() == ws.last().last(),
    decreases ws.len(),
{
    let w0 = ws[0];
    assert(is_word(w0));
    let s = spaced(ws);
    if ws.len() == 1 {
        lemma_word_end_all(w0, 0);
        assert(w0.subrange(0, w0.len() as int) =~= w0);
        assert(lex_from(w0, w0.len() as int) == Ok::<Seq<TokenSpec>, ErrorSpec>(Seq::empty()));
        let t0 = TokenSpec { kind: word_kind(w0), pos: 0 };
        assert(lex_from(w0, 0) == Ok::<Seq<TokenSpec>, ErrorSpec>(seq![t0] + Seq::empty()));
        assert(kinds(seq![t0] + Seq::<TokenSpec>::empty()) =~= ws.map_values(
            |w: Seq<char>| word_kind(w),
        ));
    } else {
        let rest = ws.drop_first();
        assert forall|k: int| 0 <= k < rest.len() implies is_word(#[trigger] rest[k]) by {
            assert(rest[k] == ws[k + 1]);
        }
        lemma_lex_spaced(rest);
        let j = spaced(rest);
        let u = lex_from(j, 0)->Ok_0;
        let o: int = w0.len() as int + 1;
        assert(s == w0 + seq![' '] + j);
        assert(s.subrange(o, o + j.len() as int) =~= j);
        assert(contains_at(s, j, o));
        lemma_lex_at(s, j, o, 0);
        assert(lex_from(s, s.len() as int) == Ok::<Seq<TokenSpec>, ErrorSpec>(Seq::empty()));
        assert(shifted(u, o) + Seq::<TokenSpec>::empty() =~= shifted(u, o));
        assert(lex_from(s, o) == Ok::<Seq<TokenSpec>, ErrorSpec>(shifted(u, o)));
        assert(s[w0.len() as int] == ' ');
        assert(lex_from(s, w0.len() as int) == lex_from(s, o));
        assert(s.subrange(0, w0.len() as int) =~= w0);
        assert(contains_at(s, w0, 0));
        lemma_word_end_all(w0, 0);
        lemma_word_end_at(s, w0, 0, 0);
        assert(s[0] == w0[0]);
        let t0 = TokenSpec { kind: word_kind(w0), pos: 0 };
        assert(lex_from(s, 0) == cons_token(t0, lex_from(s, w0.len() as int)));
        assert(lex_from(s, 0) == Ok::<Seq<TokenSpec>, ErrorSpec>(seq![t0] + shifted(u, o)));
        assert(kinds(seq![t0] + shifted(u, o)) =~= ws.map_values(|w: Seq<char>| word_kind(w))) by {
            let km = rest.map_values(|w: Seq<char>| word_kind(w));
            assert(kinds(u) == km);
            assert(kinds(u).len() == u.len());
            assert(km.len() == rest.len());
            let all = seq![t0] + shifted(u, o);
            assert(all.len() == ws.len());
            assert forall|k: int| 0 <= k < ws.len() implies #[trigger] kinds(all)[k] == word_kind(
                ws[k],
            ) by {
                if k > 0 {
                    assert(all[k] == shifted(u, o)[k - 1]);
                    assert(shifted(u, o)[k - 1].kind == u[k - 1].kind);
                    assert(kinds(u)[k - 1] == u[k - 1].kind);
                    assert(km[k - 1] == word_kind(rest[k - 1]));
                    assert(rest[k - 1] == ws[k]);
                }
            }
        }
        assert(s.last() == j.last());
        assert(rest.last() == ws.last());
    }
}

/// The tokens of a sentence of words: one per word, of the word's kind;
/// and the sentence needs no trimming.
proof fn lemma_sentence(ws: Seq<Seq<char>>) -> (t: Seq<TokenSpec>)
    requires
        ws.len() > 0,
        forall|k: int| 0 <= k < ws.len() ==> is_word(#[trigger] ws[k]),
    ensures
        trim(spaced(ws)) == spaced(ws),
        spaced(ws).len() > 0,
        lex_from(spaced(ws), 0) == Ok::<Seq<TokenSpec>, ErrorSpec>(t),
        t.len() == ws.len(),
        forall|k: int| 0 <= k < ws.len() ==> #[trigger] t[k].kind == word_kind(ws[k]),
{
    lemma_lex_spaced(ws);
    let t = lex_from(spaced(ws), 0)->Ok_0;
    assert(is_word(ws[0]));
    assert(is_word(ws.last()));
    assert(is_word(ws[ws.len() - 1]));
    lemma_word_not_ws(ws[0][0]);
    lemma_word_not_ws(ws.last().last());
    assert(is_word_char(ws.last()[ws.last().len() - 1]));
    lemma_trim_keeps(spaced(ws));
    let km = ws.map_values(|w: Seq<char>| word_kind(w));
    assert(kinds(t) == km);
    assert(kinds(t).len() == t.len());
    assert(km.len() == ws.len());
    assert forall|k: int| 0 <= k < ws.len() implies #[trigger] t[k].kind == word_kind(ws[k]) by {
        assert(kinds(t)[k] == t[k].kind);
        assert(km[k] == word_kind(ws[k]));
    }
    t
}

proof fn lemma_operand_at(t: Seq<TokenSpec>, pos: int, end: int, x: Seq<char>)
    requires
        0 <= pos < t.len(),
        t[pos].kind == Tok::Id(x),
    ensures
        p_unary(t, pos, end) == Ok::<(Formula, int), ErrorSpec>((Formula::Operand(x), pos + 1)),
{
    assert(p_atom(t, pos, end) == Ok::<(Formula, int), ErrorSpec>((Formula::Operand(x), pos + 1)));
}

proof fn lemma_finish_from_implies(t: Seq<TokenSpec>, end: int, f: Formula)
    requires
        t.len() > 0,
        p_implies(t, 0, end) == Ok::<(Formula, int), ErrorSpec>((f, t.len() as int)),
    ensures
        parse_tokens(t, end) == Ok::<Formula, ErrorSpec>(f),
{
    let n = t.len() as int;
    assert(iff_rest(t, n, end, f) == Ok::<(Formula, int), ErrorSpec>((f, n)));
    assert(p_iff(t, 0, end) == Ok::<(Formula, int), ErrorSpec>((f, n)));
    assert(p_expr(t, 0, end) == Ok::<(Formula, int), ErrorSpec>((f, n)));
}

proof fn lemma_finish_from_or(t: Seq<TokenSpec>, end: int, f: Formula)
    requires
        t.len() > 0,
        p_or(t, 0, end) == Ok::<(Formula, int), ErrorSpec>((f, t.len() as int)),
    ensures
        parse_tokens(t, end) == Ok::<Formula, ErrorSpec>(f),
{
    assert(p_implies(t, 0, end) == Ok::<(Formula, int), ErrorSpec>((f, t.len() as int)));
    lemma_finish_from_implies(t, end, f);
}

proof fn lemma_finish_from_and(t: Seq<TokenSpec>, end: int, f: Formula)
    requires
        t.len() > 0,
        p_and(t, 0, end) == Ok::<(Formula, int), ErrorSpec>((f, t.len() as int)),
    ensures
        parse_tokens(t, end) == Ok::<Formula, ErrorSpec>(f),
{
    let n = t.len() as int;
    assert(or_rest(t, n, end, f) == Ok::<(Formula, int), ErrorSpec>((f, n)));
    assert(p_or(t, 0, end) == Ok::<(Formula, int), ErrorSpec>((f, n)));
    lemma_finish_from_or(t, end, f);
}

/// `x` as an operand.
pub open spec fn op(x: Seq<char>) -> Formula {
    Formula::Operand(x)
}

/// The tokens of a sentence parse to `f`, so the sentence does.
proof fn lemma_sentence_parses(ws: Seq<Seq<char>>, t: Seq<TokenSpec>, f: Formula)
    requires
        trim(spaced(ws)) == spaced(ws),
        spaced(ws).len() > 0,
        lex_from(spaced(ws), 0) == Ok::<Seq<TokenSpec>, ErrorSpec>(t),
        parse_tokens(t, spaced(ws).len() as int) == Ok::<Formula, ErrorSpec>(f),
    ensures
        parse_expression_spec(spaced(ws)) == Ok::<Formula, Seq<ErrorSpec>>(f),
{
}

/// Tokens `a OR b AND c`.
proof fn lemma_tokens_or_and(t: Seq<TokenSpec>, n: int, a: Seq<char>, b: Seq<char>, c: Seq<char>)
    requires
        t.len() == 5,
        t[0].kind == Tok::Id(a),
        t[1].kind == Tok::Or,
        t[2].kind == Tok::Id(b),
        t[3].kind == Tok::And,
        t[4].kind == Tok::Id(c),
    ensures
        parse_tokens(t, n) == Ok::<Formula, ErrorSpec>(
            Formula::Or(Box::new(op(a)), Box::new(Formula::And(Box::new(op(b)), Box::new(op(c))))),
        ),
{
    lemma_operand_at(t, 0, n, a);
    lemma_operand_at(t, 2, n, b);
    lemma_operand_at(t, 4, n, c);
    let bc = Formula::And(Box::new(op(b)), Box::new(op(c)));
    let f = Formula::Or(Box::new(op(a)), Box::new(bc));
    assert(and_rest(t, 1, n, op(a)) == Ok::<(Formula, int), ErrorSpec>((op(a), 1)));
    assert(p_and(t, 0, n) == Ok::<(Formula, int), ErrorSpec>((op(a), 1)));
    assert(and_rest(t, 5, n, bc) == Ok::<(Formula, int), ErrorSpec>((bc, 5)));
    assert(and_rest(t, 3, n, op(b)) == Ok::<(Formula, int), ErrorSpec>((bc, 5)));
    assert(p_and(t, 2, n) == Ok::<(Formula, int), ErrorSpec>((bc, 5)));
    assert(or_rest(t, 5, n, f) == Ok::<(Formula, int), ErrorSpec>((f, 5)));
    assert(or_rest(t, 1, n, op(a)) == Ok::<(Formula, int), ErrorSpec>((f, 5)));
    assert(p_or(t, 0, n) == Ok::<(Formula, int), ErrorSpec>((f, 5)));
    lemma_finish_from_or(t, n, f);
}

/// Tokens `a AND b OR c`.
proof fn lemma_tokens_and_or(t: Seq<TokenSpec>, n: int, a: Seq<char>, b: Seq<char>, c: Seq<char>)
    requires
        t.len() == 5,
        t[0].kind == Tok::Id(a),
        t[1].kind == Tok::And,
        t[2].kind == Tok::Id(b),
        t[3].kind == Tok::Or,
        t[4].kind == Tok::Id(c),
    ensures
        parse_tokens(t, n) == Ok::<Formula, ErrorSpec>(
            Formula::Or(Box::new(Formula::And(Box::new(op(a)), Box::new(op(b)))), Box::new(op(c))),
        ),
{
    lemma_operand_at(t, 0, n, a);
    lemma_operand_at(t, 2, n, b);
    lemma_operand_at(t, 4, n, c);
    let ab = Formula::And(Box::new(op(a)), Box::new(op(b)));
    let g = Formula::Or(Box::new(ab), Box::new(op(c)));
    assert(and_rest(t, 3, n, ab) == Ok::<(Formula, int), ErrorSpec>((ab, 3)));
    assert(and_rest(t, 1, n, op(a)) == Ok::<(Formula, int), ErrorSpec>((ab, 3)));
    assert(p_and(t, 0, n) == Ok::<(Formula, int), ErrorSpec>((ab, 3)));
    assert(and_rest(t, 5, n, op(c)) == Ok::<(Formula, int), ErrorSpec>((op(c), 5)));
    assert(p_and(t, 4, n) == Ok::<(Formula, int), ErrorSpec>((op(c), 5)));
    assert(or_rest(t, 5, n, g) == Ok::<(Formula, int), ErrorSpec>((g, 5)));
    assert(or_rest(t, 3, n, ab) == Ok::<(Formula, int), ErrorSpec>((g, 5)));
    assert(p_or(t, 0, n) == Ok::<(Formula, int), ErrorSpec>((g, 5)));
    lemma_finish_from_or(t, n, g);
}

/// The tokens of the five-word sentence `ws`, with their kinds.
proof fn lemma_sentence5(ws: Seq<Seq<char>>) -> (t: Seq<TokenSpec>)
    requires
        ws.len() == 5,
        forall|k: int| 0 <= k < 5 ==> is_word(#[trigger] ws[k]),
    ensures
        trim(spaced(ws)) == spaced(ws),
        spaced(ws).len() > 0,
        lex_from(spaced(ws), 0) == Ok::<Seq<TokenSpec>, ErrorSpec>(t),
        t.len() == 5,
        t[0].kind == word_kind(ws[0]),
        t[1].kind == word_kind(ws[1]),
        t[2].kind == word_kind(ws[2]),
        t[3].kind == word_kind(ws[3]),
        t[4].kind == word_kind(ws[4]),
{
    lemma_sentence(ws)
}

proof fn lemma_sentence_or_and(a: Seq<char>, b: Seq<char>, c: Seq<char>)
    requires
        is_operand_word(a),
        is_operand_word(b),
        is_operand_word(c),
    ensures
        parse_expression_spec(spaced(seq![a, or_word(), b, and_word(), c])) == Ok::<Formula, Seq<ErrorSpec>>(Formula::Or(Box::new(op(a)), Box::new(Formula::And(Box::new(op(b)), Box::new(op(c)))))),
{
    lemma_keywords();
    let ws = seq![a, or_word(), b, and_word(), c];
    let t = lemma_sentence5(ws);
    lemma_tokens_or_and(t, spaced(ws).len() as int, a, b, c);
    lemma_sentence_parses(ws, t, Formula::Or(Box::new(op(a)), Box::new(Formula::And(Box::new(op(b)), Box::new(op(c))))));
}

proof fn lemma_sentence_and_or(a: Seq<char>, b: Seq<char>, c: Seq<char>)
    requires
        is_operand_word(a),
        is_operand_word(b),
        is_operand_word(c),
    ensures
        parse_expression_spec(spaced(seq![a, and_word(), b, or_word(), c])) == Ok::<Formula, Seq<ErrorSpec>>(Formula::Or(Box::new(Formula::And(Box::new(op(a)), Box::new(op(b)))), Box::new(op(c)))),
{
    lemma_keywords();
    let ws = seq![a, and_word(), b, or_word(), c];
    let t = lemma_sentence5(ws);
    lemma_tokens_and_or(t, spaced(ws).len() as int, a, b, c);
    lemma_sentence_parses(ws, t, Formula::Or(Box::new(Formula::And(Box::new(op(a)), Box::new(op(b)))), Box::new(op(c))));
}

/// `AND` binds tighter than `OR`: with node IDs `a`, `b`, `c`,
/// `a OR b AND c` reads as `a OR (b AND c)` and `a AND b OR c` as
/// `(a AND b) OR c`.
pub proof fn lemma_and_binds_tighter_than_or(a: Seq<char>, b: Seq<char>, c: Seq<char>)
    requires
        is_operand_word(a),
        is_operand_word(b),
        is_operand_word(c),
    ensures
        parse_expression_spec(spaced(seq![a, or_word(), b, and_word(), c])) == Ok::<
            Formula,
            Seq<ErrorSpec>,
        >(Formula::Or(Box::new(op(a)), Box::new(Formula::And(Box::new(op(b)), Box::new(op(c)))))),
        parse_expression_spec(spaced(seq![a, and_word(), b, or_word(), c])) == Ok::<
            Formula,
            Seq<ErrorSpec>,
        >(Formula::Or(Box::new(Formula::And(Box::new(op(a)), Box::new(op(b)))), Box::new(op(c)))),
{
    lemma_sentence_or_and(a, b, c);
    lemma_sentence_and_or(a, b, c);
}

proof fn lemma_finish_from_iff(t: Seq<TokenSpec>, end: int, f: Formula)
    requires
        t.len() > 0,
        p_iff(t, 0, end) == Ok::<(Formula, int), ErrorSpec>((f, t.len() as int)),
    ensures
        parse_tokens(t, end) == Ok::<Formula, ErrorSpec>(f),
{
    assert(p_expr(t, 0, end) == Ok::<(Formula, int), ErrorSpec>((f, t.len() as int)));
}

/// A lone operand at `pos`, followed by the end or by a token that is no
/// operator of the level in question.
proof fn lemma_single(t: Seq<TokenSpec>, pos: int, n: int, x: Seq<char>)
    requires
        0 <= pos < t.len(),
        t[pos].kind == Tok::Id(x),
    ensures
        (pos + 1 == t.len() || !(t[pos + 1].kind is And)) ==> p_and(t, pos, n) == Ok::<
            (Formula, int),
            ErrorSpec,
        >((op(x), pos + 1)),
        (pos + 1 == t.len() || !(t[pos + 1].kind is And || t[pos + 1].kind is Or)) ==> p_or(
            t,
            pos,
            n,
        ) == Ok::<(Formula, int), ErrorSpec>((op(x), pos + 1)),
        (pos + 1 == t.len() || !(t[pos + 1].kind is And || t[pos + 1].kind is Or || t[pos
            + 1].kind is Implies)) ==> p_implies(t, pos, n) == Ok::<(Formula, int), ErrorSpec>(
            (op(x), pos + 1),
        ),
{
    lemma_operand_at(t, pos, n, x);
    if pos + 1 == t.len() || !(t[pos + 1].kind is And) {
        assert(and_rest(t, pos + 1, n, op(x)) == Ok::<(Formula, int), ErrorSpec>((op(x), pos + 1)));
        assert(p_and(t, pos, n) == Ok::<(Formula, int), ErrorSpec>((op(x), pos + 1)));
        if pos + 1 == t.len() || !(t[pos + 1].kind is Or) {
            assert(or_rest(t, pos + 1, n, op(x)) == Ok::<(Formula, int), ErrorSpec>(
                (op(x), pos + 1),
            ));
            assert(p_or(t, pos, n) == Ok::<(Formula, int), ErrorSpec>((op(x), pos + 1)));
        }
    }
}

/// Tokens `a IMPLIES b OR c`.
proof fn lemma_tokens_implies_or(t: Seq<TokenSpec>, n: int, a: Seq<char>, b: Seq<char>, c: Seq<char>)
    requires
        t.len() == 5,
        t[0].kind == Tok::Id(a),
        t[1].kind == Tok::Implies,
        t[2].kind == Tok::Id(b),
        t[3].kind == Tok::Or,
        t[4].kind == Tok::Id(c),
    ensures
        parse_tokens(t, n) == Ok::<Formula, ErrorSpec>(
            Formula::Implies(Box::new(op(a)), Box::new(Formula::Or(Box::new(op(b)), Box::new(op(c))))),
        ),
{
    lemma_single(t, 0, n, a);
    lemma_single(t, 2, n, b);
    lemma_single(t, 4, n, c);
    let bc = Formula::Or(Box::new(op(b)), Box::new(op(c)));
    let f = Formula::Implies(Box::new(op(a)), Box::new(bc));
    assert(or_rest(t, 5, n, bc) == Ok::<(Formula, int), ErrorSpec>((bc, 5)));
    assert(or_rest(t, 3, n, op(b)) == Ok::<(Formula, int), ErrorSpec>((bc, 5)));
    assert(p_or(t, 2, n) == Ok::<(Formula, int), ErrorSpec>((bc, 5)));
    assert(p_implies(t, 2, n) == Ok::<(Formula, int), ErrorSpec>((bc, 5)));
    assert(p_implies(t, 0, n) == Ok::<(Formula, int), ErrorSpec>((f, 5)));
    lemma_finish_from_implies(t, n, f);
}

/// Tokens `a OR b IMPLIES c`.
proof fn lemma_tokens_or_implies(t: Seq<TokenSpec>, n: int, a: Seq<char>, b: Seq<char>, c: Seq<char>)
    requires
        t.len() == 5,
        t[0].kind == Tok::Id(a),
        t[1].kind == Tok::Or,
        t[2].kind == Tok::Id(b),
        t[3].kind == Tok::Implies,
        t[4].kind == Tok::Id(c),
    ensures
        parse_tokens(t, n) == Ok::<Formula, ErrorSpec>(
            Formula::Implies(Box::new(Formula::Or(Box::new(op(a)), Box::new(op(b)))), Box::new(op(c))),
        ),
{
    lemma_single(t, 0, n, a);
    lemma_single(t, 2, n, b);
    lemma_single(t, 4, n, c);
    let ab = Formula::Or(Box::new(op(a)), Box::new(op(b)));
    let f = Formula::Implies(Box::new(ab), Box::new(op(c)));
    assert(or_rest(t, 3, n, ab) == Ok::<(Formula, int), ErrorSpec>((ab, 3)));
    assert(or_rest(t, 1, n, op(a)) == Ok::<(Formula, int), ErrorSpec>((ab, 3)));
    assert(p_and(t, 0, n) == Ok::<(Formula, int), ErrorSpec>((op(a), 1)));
    assert(p_or(t, 0, n) == Ok::<(Formula, int), ErrorSpec>((ab, 3)));
    assert(p_implies(t, 4, n) == Ok::<(Formula, int), ErrorSpec>((op(c), 5)));
    assert(p_implies(t, 0, n) == Ok::<(Formula, int), ErrorSpec>((f, 5)));
    lemma_finish_from_implies(t, n, f);
}

/// Tokens `a IFF b IMPLIES c`.
proof fn lemma_tokens_iff_implies(t: Seq<TokenSpec>, n: int, a: Seq<char>, b: Seq<char>, c: Seq<char>)
    requires
        t.len() == 5,
        t[0].kind == Tok::Id(a),
        t[1].kind == Tok::Iff,
        t[2].kind == Tok::Id(b),
        t[3].kind == Tok::Implies,
        t[4].kind == Tok::Id(c),
    ensures
        parse_tokens(t, n) == Ok::<Formula, ErrorSpec>(
            Formula::Iff(Box::new(op(a)), Box::new(Formula::Implies(Box::new(op(b)), Box::new(op(c))))),
        ),
{
    lemma_single(t, 0, n, a);
    lemma_single(t, 2, n, b);
    lemma_single(t, 4, n, c);
    let bc = Formula::Implies(Box::new(op(b)), Box::new(op(c)));
    let f = Formula::Iff(Box::new(op(a)), Box::new(bc));
    assert(p_implies(t, 2, n) == Ok::<(Formula, int), ErrorSpec>((bc, 5)));
    assert(iff_rest(t, 5, n, f) == Ok::<(Formula, int), ErrorSpec>((f, 5)));
    assert(iff_rest(t, 1, n, op(a)) == Ok::<(Formula, int), ErrorSpec>((f, 5)));
    assert(p_iff(t, 0, n) == Ok::<(Formula, int), ErrorSpec>((f, 5)));
    lemma_finish_from_iff(t, n, f);
}

/// Tokens `a IMPLIES b IFF c`.
proof fn lemma_tokens_implies_iff(t: Seq<TokenSpec>, n: int, a: Seq<char>, b: Seq<char>, c: Seq<char>)
    requires
        t.len() == 5,
        t[0].kind == Tok::Id(a),
        t[1].kind == Tok::Implies,
        t[2].kind == Tok::Id(b),
        t[3].kind == Tok::Iff,
        t[4].kind == Tok::Id(c),
    ensures
        parse_tokens(t, n) == Ok::<Formula, ErrorSpec>(
            Formula::Iff(Box::new(Formula::Implies(Box::new(op(a)), Box::new(op(b)))), Box::new(op(c))),
        ),
{
    lemma_single(t, 0, n, a);
    lemma_single(t, 2, n, b);
    lemma_single(t, 4, n, c);
    let ab = Formula::Implies(Box::new(op(a)), Box::new(op(b)));
    let f = Formula::Iff(Box::new(ab), Box::new(op(c)));
    assert(p_implies(t, 0, n) == Ok::<(Formula, int), ErrorSpec>((ab, 3)));
    assert(iff_rest(t, 5, n, f) == Ok::<(Formula, int), ErrorSpec>((f, 5)));
    assert(iff_rest(t, 3, n, ab) == Ok::<(Formula, int), ErrorSpec>((f, 5)));
    assert(p_iff(t, 0, n) == Ok::<(Formula, int), ErrorSpec>((f, 5)));
    lemma_finish_from_iff(t, n, f);
}

/// Tokens `a AND b AND c`.
proof fn lemma_tokens_and_and(t: Seq<TokenSpec>, n: int, a: Seq<char>, b: Seq<char>, c: Seq<char>)
    requires
        t.len() == 5,
        t[0].kind == Tok::Id(a),
        t[1].kind == Tok::And,
        t[2].kind == Tok::Id(b),
        t[3].kind == Tok::And,
        t[4].kind == Tok::Id(c),
    ensures
        parse_tokens(t, n) == Ok::<Formula, ErrorSpec>(
            Formula::And(Box::new(Formula::And(Box::new(op(a)), Box::new(op(b)))), Box::new(op(c))),
        ),
{
    lemma_operand_at(t, 0, n, a);
    lemma_operand_at(t, 2, n, b);
    lemma_operand_at(t, 4, n, c);
    let ab = Formula::And(Box::new(op(a)), Box::new(op(b)));
    let f = Formula::And(Box::new(ab), Box::new(op(c)));
    assert(and_rest(t, 5, n, f) == Ok::<(Formula, int), ErrorSpec>((f, 5)));
    assert(and_rest(t, 3, n, ab) == Ok::<(Formula, int), ErrorSpec>((f, 5)));
    assert(and_rest(t, 1, n, op(a)) == Ok::<(Formula, int), ErrorSpec>((f, 5)));
    assert(p_and(t, 0, n) == Ok::<(Formula, int), ErrorSpec>((f, 5)));
    lemma_finish_from_and(t, n, f);
}

/// Tokens `a OR b OR c`.
proof fn lemma_tokens_or_or(t: Seq<TokenSpec>, n: int, a: Seq<char>, b: Seq<char>, c: Seq<char>)
    requires
        t.len() == 5,
        t[0].kind == Tok::Id(a),
        t[1].kind == Tok::Or,
        t[2].kind == Tok::Id(b),
        t[3].kind == Tok::Or,
        t[4].kind == Tok::Id(c),
    ensures
        parse_tokens(t, n) == Ok::<Formula, ErrorSpec>(
            Formula::Or(Box::new(Formula::Or(Box::new(op(a)), Box::new(op(b)))), Box::new(op(c))),
        ),
{
    lemma_single(t, 0, n, a);
    lemma_single(t, 2, n, b);
    lemma_single(t, 4, n, c);
    let ab = Formula::Or(Box::new(op(a)), Box::new(op(b)));
    let f = Formula::Or(Box::new(ab), Box::new(op(c)));
    assert(or_rest(t, 5, n, f) == Ok::<(Formula, int), ErrorSpec>((f, 5)));
    assert(or_rest(t, 3, n, ab) == Ok::<(Formula, int), ErrorSpec>((f, 5)));
    assert(or_rest(t, 1, n, op(a)) == Ok::<(Formula, int), ErrorSpec>((f, 5)));
    assert(p_or(t, 0, n) == Ok::<(Formula, int), ErrorSpec>((f, 5)));
    lemma_finish_from_or(t, n, f);
}

/// Tokens `a IMPLIES b IMPLIES c`.
proof fn lemma_tokens_implies_implies(
    t: Seq<TokenSpec>,
    n: int,
    a: Seq<char>,
    b: Seq<char>,
    c: Seq<char>,
)
    requires
        t.len() == 5,
        t[0].kind == Tok::Id(a),
        t[1].kind == Tok::Implies,
        t[2].kind == Tok::Id(b),
        t[3].kind == Tok::Implies,
        t[4].kind == Tok::Id(c),
    ensures
        parse_tokens(t, n) == Ok::<Formula, ErrorSpec>(
            Formula::Implies(
                Box::new(op(a)),
                Box::new(Formula::Implies(Box::new(op(b)), Box::new(op(c)))),
            ),
        ),
{
    lemma_single(t, 0, n, a);
    lemma_single(t, 2, n, b);
    lemma_single(t, 4, n, c);
    let bc = Formula::Implies(Box::new(op(b)), Box::new(op(c)));
    let f = Formula::Implies(Box::new(op(a)), Box::new(bc));
    assert(p_implies(t, 2, n) == Ok::<(Formula, int), ErrorSpec>((bc, 5)));
    assert(p_implies(t, 0, n) == Ok::<(Formula, int), ErrorSpec>((f, 5)));
    lemma_finish_from_implies(t, n, f);
}

/// Tokens `a IFF b IFF c`.
proof fn lemma_tokens_iff_iff(t: Seq<TokenSpec>, n: int, a: Seq<char>, b: Seq<char>, c: Seq<char>)
    requires
        t.len() == 5,
        t[0].kind == Tok::Id(a),
        t[1].kind == Tok::Iff,
        t[2].kind == Tok::Id(b),
        t[3].kind == Tok::Iff,
        t[4].kind == Tok::Id(c),
    ensures
        parse_tokens(t, n) == Ok::<Formula, ErrorSpec>(
            Formula::Iff(Box::new(Formula::Iff(Box::new(op(a)), Box::new(op(b)))), Box::new(op(c))),
        ),
{
    lemma_single(t, 0, n, a);
    lemma_single(t, 2, n, b);
    lemma_single(t, 4, n, c);
    let ab = Formula::Iff(Box::new(op(a)), Box::new(op(b)));
    let f = Formula::Iff(Box::new(ab), Box::new(op(c)));
    assert(iff_rest(t, 5, n, f) == Ok::<(Formula, int), ErrorSpec>((f, 5)));
    assert(iff_rest(t, 3, n, ab) == Ok::<(Formula, int), ErrorSpec>((f, 5)));
    assert(iff_rest(t, 1, n, op(a)) == Ok::<(Formula, int), ErrorSpec>((f, 5)));
    assert(p_iff(t, 0, n) == Ok::<(Formula, int), ErrorSpec>((f, 5)));
    lemma_finish_from_iff(t, n, f);
}

/// Tokens `NOT a AND b`.
proof fn lemma_tokens_not_and(t: Seq<TokenSpec>, n: int, a: Seq<char>, b: Seq<char>)
    requires
        t.len() == 4,
        t[0].kind == Tok::Not,
        t[1].kind == Tok::Id(a),
        t[2].kind == Tok::And,
        t[3].kind == Tok::Id(b),
    ensures
        parse_tokens(t, n) == Ok::<Formula, ErrorSpec>(
            Formula::And(Box::new(Formula::Not(Box::new(op(a)))), Box::new(op(b))),
        ),
{
    lemma_operand_at(t, 1, n, a);
    lemma_operand_at(t, 3, n, b);
    let na = Formula::Not(Box::new(op(a)));
    let f = Formula::And(Box::new(na), Box::new(op(b)));
    assert(p_unary(t, 0, n) == Ok::<(Formula, int), ErrorSpec>((na, 2)));
    assert(and_rest(t, 4, n, f) == Ok::<(Formula, int), ErrorSpec>((f, 4)));
    assert(and_rest(t, 2, n, na) == Ok::<(Formula, int), ErrorSpec>((f, 4)));
    assert(p_and(t, 0, n) == Ok::<(Formula, int), ErrorSpec>((f, 4)));
    lemma_finish_from_and(t, n, f);
}

proof fn lemma_sentence_implies_or(a: Seq<char>, b: Seq<char>, c: Seq<char>)
    requires
        is_operand_word(a),
        is_operand_word(b),
        is_operand_word(c),
    ensures
        parse_expression_spec(spaced(seq![a, implies_word(), b, or_word(), c])) == Ok::<Formula, Seq<ErrorSpec>>(Formula::Implies(Box::new(op(a)), Box::new(Formula::Or(Box::new(op(b)), Box::new(op(c)))))),
{
    lemma_keywords();
    let ws = seq![a, implies_word(), b, or_word(), c];
    let t = lemma_sentence5(ws);
    lemma_tokens_implies_or(t, spaced(ws).len() as int, a, b, c);
    lemma_sentence_parses(ws, t, Formula::Implies(Box::new(op(a)), Box::new(Formula::Or(Box::new(op(b)), Box::new(op(c))))));
}

proof fn lemma_sentence_or_implies(a: Seq<char>, b: Seq<char>, c: Seq<char>)
    requires
        is_operand_word(a),
        is_operand_word(b),
        is_operand_word(c),
    ensures
        parse_expression_spec(spaced(seq![a, or_word(), b, implies_word(), c])) == Ok::<Formula, Seq<ErrorSpec>>(Formula::Implies(Box::new(Formula::Or(Box::new(op(a)), Box::new(op(b)))), Box::new(op(c)))),
{
    lemma_keywords();
    let ws = seq![a, or_word(), b, implies_word(), c];
    let t = lemma_sentence5(ws);
    lemma_tokens_or_implies(t, spaced(ws).len() as int, a, b, c);
    lemma_sentence_parses(ws, t, Formula::Implies(Box::new(Formula::Or(Box::new(op(a)), Box::new(op(b)))), Box::new(op(c))));
}

/// `OR` binds tighter than `IMPLIES`: with node IDs `a`, `b`, `c`,
/// `a IMPLIES b OR c` reads as `a IMPLIES (b OR c)` and `a OR b IMPLIES c`
/// as `(a OR b) IMPLIES c`.
pub proof fn lemma_or_binds_tighter_than_implies(a: Seq<char>, b: Seq<char>, c: Seq<char>)
    requires
        is_operand_word(a),
        is_operand_word(b),
        is_operand_word(c),
    ensures
        parse_expression_spec(spaced(seq![a, implies_word(), b, or_word(), c])) == Ok::<
            Formula,
            Seq<ErrorSpec>,
        >(Formula::Implies(Box::new(op(a)), Box::new(Formula::Or(Box::new(op(b)), Box::new(op(c)))))),
        parse_expression_spec(spaced(seq![a, or_word(), b, implies_word(), c])) == Ok::<
            Formula,
            Seq<ErrorSpec>,
        >(Formula::Implies(Box::new(Formula::Or(Box::new(op(a)), Box::new(op(b)))), Box::new(op(c)))),
{
    lemma_sentence_implies_or(a, b, c);
    lemma_sentence_or_implies(a, b, c);
}

proof fn lemma_sentence_iff_implies(a: Seq<char>, b: Seq<char>, c: Seq<char>)
    requires
        is_operand_word(a),
        is_operand_word(b),
        is_operand_word(c),
    ensures
        parse_expression_spec(spaced(seq![a, iff_word(), b, implies_word(), c])) == Ok::<Formula, Seq<ErrorSpec>>(Formula::Iff(Box::new(op(a)), Box::new(Formula::Implies(Box::new(op(b)), Box::new(op(c)))))),
{
    lemma_keywords();
    let ws = seq![a, iff_word(), b, implies_word(), c];
    let t = lemma_sentence5(ws);
    lemma_tokens_iff_implies(t, spaced(ws).len() as int, a, b, c);
    lemma_sentence_parses(ws, t, Formula::Iff(Box::new(op(a)), Box::new(Formula::Implies(Box::new(op(b)), Box::new(op(c))))));
}

proof fn lemma_sentence_implies_iff(a: Seq<char>, b: Seq<char>, c: Seq<char>)
    requires
        is_operand_word(a),
        is_operand_word(b),
        is_operand_word(c),
    ensures
        parse_expression_spec(spaced(seq![a, implies_word(), b, iff_word(), c])) == Ok::<Formula, Seq<ErrorSpec>>(Formula::Iff(Box::new(Formula::Implies(Box::new(op(a)), Box::new(op(b)))), Box::new(op(c)))),
{
    lemma_keywords();
    let ws = seq![a, implies_word(), b, iff_word(), c];
    let t = lemma_sentence5(ws);
    lemma_tokens_implies_iff(t, spaced(ws).len() as int, a, b, c);
    lemma_sentence_parses(ws, t, Formula::Iff(Box::new(Formula::Implies(Box::new(op(a)), Box::new(op(b)))), Box::new(op(c))));
}

/// `IMPLIES` binds tighter than `IFF`: with node IDs `a`, `b`, `c`,
/// `a IFF b IMPLIES c` reads as `a IFF (b IMPLIES c)` and
/// `a IMPLIES b IFF c` as `(a IMPLIES b) IFF c`.
pub proof fn lemma_implies_binds_tighter_than_iff(a: Seq<char>, b: Seq<char>, c: Seq<char>)
    requires
        is_operand_word(a),
        is_operand_word(b),
        is_operand_word(c),
    ensures
        parse_expression_spec(spaced(seq![a, iff_word(), b, implies_word(), c])) == Ok::<
            Formula,
            Seq<ErrorSpec>,
        >(Formula::Iff(Box::new(op(a)), Box::new(Formula::Implies(Box::new(op(b)), Box::new(op(c)))))),
        parse_expression_spec(spaced(seq![a, implies_word(), b, iff_word(), c])) == Ok::<
            Formula,
            Seq<ErrorSpec>,
        >(Formula::Iff(Box::new(Formula::Implies(Box::new(op(a)), Box::new(op(b)))), Box::new(op(c)))),
{
    lemma_sentence_iff_implies(a, b, c);
    lemma_sentence_implies_iff(a, b, c);
}

proof fn lemma_group_and(a: Seq<char>, b: Seq<char>, c: Seq<char>)
    requires
        is_operand_word(a),
        is_operand_word(b),
        is_operand_word(c),
    ensures
        parse_expression_spec(spaced(seq![a, and_word(), b, and_word(), c])) == Ok::<Formula, Seq<ErrorSpec>>(Formula::And(Box::new(Formula::And(Box::new(op(a)), Box::new(op(b)))), Box::new(op(c)))),
{
    lemma_keywords();
    let ws = seq![a, and_word(), b, and_word(), c];
    let t = lemma_sentence5(ws);
    lemma_tokens_and_and(t, spaced(ws).len() as int, a, b, c);
    lemma_sentence_parses(ws, t, Formula::And(Box::new(Formula::And(Box::new(op(a)), Box::new(op(b)))), Box::new(op(c))));
}

proof fn lemma_group_or(a: Seq<char>, b: Seq<char>, c: Seq<char>)
    requires
        is_operand_word(a),
        is_operand_word(b),
        is_operand_word(c),
    ensures
        parse_expression_spec(spaced(seq![a, or_word(), b, or_word(), c])) == Ok::<Formula, Seq<ErrorSpec>>(Formula::Or(Box::new(Formula::Or(Box::new(op(a)), Box::new(op(b)))), Box::new(op(c)))),
{
    lemma_keywords();
    let ws = seq![a, or_word(), b, or_word(), c];
    let t = lemma_sentence5(ws);
    lemma_tokens_or_or(t, spaced(ws).len() as int, a, b, c);
    lemma_sentence_parses(ws, t, Formula::Or(Box::new(Formula::Or(Box::new(op(a)), Box::new(op(b)))), Box::new(op(c))));
}

proof fn lemma_group_iff(a: Seq<char>, b: Seq<char>, c: Seq<char>)
    requires
        is_operand_word(a),
        is_operand_word(b),
        is_operand_word(c),
    ensures
        parse_expression_spec(spaced(seq![a, iff_word(), b, iff_word(), c])) == Ok::<Formula, Seq<ErrorSpec>>(Formula::Iff(Box::new(Formula::Iff(Box::new(op(a)), Box::new(op(b)))), Box::new(op(c)))),
{
    lemma_keywords();
    let ws = seq![a, iff_word(), b, iff_word(), c];
    let t = lemma_sentence5(ws);
    lemma_tokens_iff_iff(t, spaced(ws).len() as int, a, b, c);
    lemma_sentence_parses(ws, t, Formula::Iff(Box::new(Formula::Iff(Box::new(op(a)), Box::new(op(b)))), Box::new(op(c))));
}

proof fn lemma_group_implies(a: Seq<char>, b: Seq<char>, c: Seq<char>)
    requires
        is_operand_word(a),
        is_operand_word(b),
        is_operand_word(c),
    ensures
        parse_expression_spec(spaced(seq![a, implies_word(), b, implies_word(), c])) == Ok::<Formula, Seq<ErrorSpec>>(Formula::Implies(Box::new(op(a)), Box::new(Formula::Implies(Box::new(op(b)), Box::new(op(c)))))),
{
    lemma_keywords();
    let ws = seq![a, implies_word(), b, implies_word(), c];
    let t = lemma_sentence5(ws);
    lemma_tokens_implies_implies(t, spaced(ws).len() as int, a, b, c);
    lemma_sentence_parses(ws, t, Formula::Implies(Box::new(op(a)), Box::new(Formula::Implies(Box::new(op(b)), Box::new(op(c))))));
}

/// `AND`, `OR` and `IFF` group to the left and `IMPLIES` to the right:
/// with node IDs `a`, `b`, `c`, `a AND b AND c` reads as
/// `(a AND b) AND c`, `a OR b OR c` as `(a OR b) OR c`,
/// `a IFF b IFF c` as `(a IFF b) IFF c`, and `a IMPLIES b IMPLIES c` as
/// `a IMPLIES (b IMPLIES c)`.
pub proof fn lemma_operator_grouping(a: Seq<char>, b: Seq<char>, c: Seq<char>)
    requires
        is_operand_word(a),
        is_operand_word(b),
        is_operand_word(c),
    ensures
        parse_expression_spec(spaced(seq![a, and_word(), b, and_word(), c])) == Ok::<
            Formula,
            Seq<ErrorSpec>,
        >(Formula::And(Box::new(Formula::And(Box::new(op(a)), Box::new(op(b)))), Box::new(op(c)))),
        parse_expression_spec(spaced(seq![a, or_word(), b, or_word(), c])) == Ok::<
            Formula,
            Seq<ErrorSpec>,
        >(Formula::Or(Box::new(Formula::Or(Box::new(op(a)), Box::new(op(b)))), Box::new(op(c)))),
        parse_expression_spec(spaced(seq![a, iff_word(), b, iff_word(), c])) == Ok::<
            Formula,
            Seq<ErrorSpec>,
        >(Formula::Iff(Box::new(Formula::Iff(Box::new(op(a)), Box::new(op(b)))), Box::new(op(c)))),
        parse_expression_spec(spaced(seq![a, implies_word(), b, implies_word(), c])) == Ok::<
            Formula,
            Seq<ErrorSpec>,
        >(
            Formula::Implies(
                Box::new(op(a)),
                Box::new(Formula::Implies(Box::new(op(b)), Box::new(op(c)))),
            ),
        ),
{
    lemma_group_and(a, b, c);
    lemma_group_or(a, b, c);
    lemma_group_iff(a, b, c);
    lemma_group_implies(a, b, c);
}

/// `NOT` binds tighter than `AND`: with node IDs `a`, `b`, `NOT a AND b`
/// reads as `(NOT a) AND b`.
pub proof fn lemma_not_binds_tighter_than_and(a: Seq<char>, b: Seq<char>)
    requires
        is_operand_word(a),
        is_operand_word(b),
    ensures
        parse_expression_spec(spaced(seq![not_word(), a, and_word(), b])) == Ok::<
            Formula,
            Seq<ErrorSpec>,
        >(Formula::And(Box::new(Formula::Not(Box::new(op(a)))), Box::new(op(b)))),
{
    lemma_keywords();
    let ws = seq![not_word(), a, and_word(), b];
    assert(ws[0] == not_word() && ws[1] == a && ws[2] == and_word() && ws[3] == b);
    let t = lemma_sentence(ws);
    assert(t[0].kind == Tok::Not && t[1].kind == Tok::Id(a));
    assert(t[2].kind == Tok::And && t[3].kind == Tok::Id(b));
    lemma_tokens_not_and(t, spaced(ws).len() as int, a, b);
    lemma_sentence_parses(
        ws,
        t,
        Formula::And(Box::new(Formula::Not(Box::new(op(a)))), Box::new(op(b))),
    );
}

} // verus!
