//! Alias substitution over token trees.
//!
//! The walk goes through a token stream depth first, left to right. Each
//! identifier that names an alias is replaced by the tokens of the alias's
//! value, and each string literal has its `% alias %` placeholders expanded.
//! After every replacement the whole stream, as it then stands, is handed to a
//! validator; a rejection ends the walk with an error that names the alias.

use vstd::prelude::*;
use crate::error::{Error, ErrorView};
use crate::format_string::{format_string, formatted};
use crate::substitutions::Substitutions;
use crate::token::{
    copy_token, copy_tokens, lemma_tokens_view, lemma_view_concat, lemma_view_take_skip, lemma_view_update,
    lemma_weight_concat, token_view, token_weight, tokens_view, tokens_weight, TokenTree, TokenView,
};
use crate::value::Value;

verus! {

/// The contents of the string literal written as `text`, if it is one.
pub uninterp spec fn string_literal_value(text: Seq<char>) -> Option<Seq<char>>;

/// The contents of a string literal.
///
/// Trusted: lexes `text` with `proc_macro2` (`str::parse` into a
/// `TokenStream`) and parses the result with `syn::parse2::<syn::LitStr>`,
/// whose `value` is the literal's contents with escapes resolved. The result
/// is named by [`string_literal_value`]; that a normal or raw string literal
/// gives `Some` and anything else `None` is left unsaid.
#[verifier::external_body]
pub(crate) fn lit_str_value(text: &String) -> (r: Option<String>)
    ensures
        match r {
            Some(v) => string_literal_value(text@) == Some(v@),
            None => string_literal_value(text@) is None,
        },
{
    let stream: proc_macro2::TokenStream = text.parse().ok()?;
    syn::parse2::<syn::LitStr>(stream).ok().map(|lit| lit.value())
}

/// What substitution makes of one token.
pub open spec fn subst_token(t: TokenView, subs: Map<Seq<char>, Value>) -> Seq<TokenView>
    decreases t, 0int,
{
    match t {
        TokenView::Ident(name, _) => if subs.contains_key(name) {
            tokens_view(subs[name].tokens@)
        } else {
            seq![t]
        },
        TokenView::Punct(_, _, _) => seq![t],
        TokenView::Literal(text, sp) => match string_literal_value(text) {
            Some(v) => seq![TokenView::StrLit(formatted(v, subs), sp)],
            None => seq![t],
        },
        TokenView::StrLit(v, sp) => seq![TokenView::StrLit(formatted(v, subs), sp)],
        TokenView::Group(d, inner, sp) => seq![TokenView::Group(d, subst_upto(inner, inner.len() as int, subs), sp)],
    }
}

/// What substitution makes of the first `n` tokens of `s`.
pub open spec fn subst_upto(s: Seq<TokenView>, n: int, subs: Map<Seq<char>, Value>) -> Seq<TokenView>
    decreases s, n,
{
    if n <= 0 || n > s.len() {
        Seq::empty()
    } else {
        subst_upto(s, n - 1, subs) + subst_token(s[n - 1], subs)
    }
}

/// What substitution makes of a token stream.
pub open spec fn subst_tokens(s: Seq<TokenView>, subs: Map<Seq<char>, Value>) -> Seq<TokenView> {
    subst_upto(s, s.len() as int, subs)
}

proof fn lemma_subst_upto_same(s: Seq<TokenView>, t: Seq<TokenView>, n: int, subs: Map<Seq<char>, Value>)
    requires
        0 <= n <= s.len(),
        n <= t.len(),
        forall|k: int| 0 <= k < n ==> s[k] == t[k],
    ensures
        subst_upto(s, n, subs) == subst_upto(t, n, subs),
    decreases n,
{
    if n > 0 {
        lemma_subst_upto_same(s, t, n - 1, subs);
    }
}

/// Substitution of a concatenation is the concatenation of the substitutions.
pub proof fn law_subst_concat(a: Seq<TokenView>, b: Seq<TokenView>, subs: Map<Seq<char>, Value>)
    ensures
        subst_tokens(a + b, subs) == subst_tokens(a, subs) + subst_tokens(b, subs),
    decreases b.len(),
{
    if b.len() > 0 {
        law_subst_concat(a, b.drop_last(), subs);
        assert((a + b).drop_last() =~= a + b.drop_last());
        lemma_subst_upto_same(a + b, (a + b).drop_last(), (a + b).len() - 1, subs);
        lemma_subst_upto_same(b, b.drop_last(), b.len() - 1, subs);
        assert(subst_tokens(a + b, subs) =~= subst_tokens(a, subs) + subst_tokens(b, subs));
    } else {
        assert(a + b =~= a);
        assert(subst_tokens(a, subs) + subst_tokens(b, subs) =~= subst_tokens(a, subs));
    }
}

/// Substitution of a stream is that of its first token, then that of the rest.
proof fn lemma_subst_first(s: Seq<TokenView>, subs: Map<Seq<char>, Value>)
    requires
        s.len() > 0,
    ensures
        subst_tokens(s, subs) == subst_token(s[0], subs) + subst_tokens(s.drop_first(), subs),
{
    assert(s =~= seq![s[0]] + s.drop_first());
    law_subst_concat(seq![s[0]], s.drop_first(), subs);
    assert(seq![s[0]].drop_last() =~= Seq::<TokenView>::empty());
    assert(subst_upto(seq![s[0]], 0, subs) =~= Seq::<TokenView>::empty());
    assert(subst_upto(seq![s[0]], 1, subs) =~= subst_upto(seq![s[0]], 0, subs) + subst_token(s[0], subs));
    assert(subst_tokens(seq![s[0]], subs) =~= subst_token(s[0], subs));
}

/// The weight of a stream is that of its first token plus that of the rest.
proof fn lemma_weight_first(s: Seq<TokenView>)
    requires
        s.len() > 0,
    ensures
        tokens_weight(s) == token_weight(s[0]) + tokens_weight(s.drop_first()),
{
    assert(s =~= seq![s[0]] + s.drop_first());
    lemma_weight_concat(seq![s[0]], s.drop_first());
    assert(seq![s[0]].drop_last() =~= Seq::<TokenView>::empty());
    assert(crate::token::tokens_weight_upto(seq![s[0]], 0) == 0);
    assert(tokens_weight(seq![s[0]]) == token_weight(s[0]));
}

/// The group token `g` with its contents replaced by `content`.
pub open spec fn wrap_group(g: TokenView, content: Seq<TokenView>) -> TokenView {
    match g {
        TokenView::Group(d, _, sp) => TokenView::Group(d, content, sp),
        _ => g,
    }
}

/// The views of the enclosing frames of the walk: the position of the group
/// being walked in each, and its tokens.
pub open spec fn frames_view(outer: Seq<(usize, Vec<TokenTree>)>) -> Seq<(int, Seq<TokenView>)> {
    outer.map_values(|f: (usize, Vec<TokenTree>)| (f.0 as int, tokens_view(f.1@)))
}

/// Whether each enclosing frame points at a group.
pub open spec fn frames_wf(fv: Seq<(int, Seq<TokenView>)>) -> bool {
    forall|j: int| 0 <= j < fv.len() ==> 0 <= (#[trigger] fv[j]).0 < fv[j].1.len() && fv[j].1[fv[j].0 as int] is Group
}

/// The stream as it stands: `content` folded into the enclosing frames.
pub open spec fn stream_frames(fv: Seq<(int, Seq<TokenView>)>, content: Seq<TokenView>) -> Seq<TokenView>
    decreases fv.len(),
{
    if fv.len() == 0 {
        content
    } else {
        let (i, t) = fv.last();
        stream_frames(fv.drop_last(), t.take(i as int) + seq![wrap_group(t[i as int], content)] + t.skip(i + 1))
    }
}

/// The stream the walk will produce: `content` folded into the enclosing
/// frames, whose tokens after the walked group are still to be substituted.
pub open spec fn complete_frames(
    fv: Seq<(int, Seq<TokenView>)>,
    content: Seq<TokenView>,
    subs: Map<Seq<char>, Value>,
) -> Seq<TokenView>
    decreases fv.len(),
{
    if fv.len() == 0 {
        content
    } else {
        let (i, t) = fv.last();
        complete_frames(
            fv.drop_last(),
            t.take(i as int) + seq![wrap_group(t[i as int], content)] + subst_tokens(t.skip(i + 1), subs),
            subs,
        )
    }
}

/// Weight of what the enclosing frames still hold to walk, plus one per frame.
pub open spec fn outer_weight(fv: Seq<(int, Seq<TokenView>)>) -> nat
    decreases fv.len(),
{
    if fv.len() == 0 {
        0
    } else {
        outer_weight(fv.drop_last()) + tokens_weight(fv.last().1.skip(fv.last().0 + 1)) + 1
    }
}

/// Copies `parent`, putting at position `i` its group with `group_tokens` as
/// contents. The group keeps its delimiter and span.
pub fn fold_group(group_tokens: Vec<TokenTree>, parent_tokens: &Vec<TokenTree>, i: usize) -> (r: Vec<TokenTree>)
    requires
        i < parent_tokens@.len(),
        parent_tokens@[i as int] is Group,
    ensures
        tokens_view(r@) == tokens_view(parent_tokens@).take(i as int) + seq![
            wrap_group(tokens_view(parent_tokens@)[i as int], tokens_view(group_tokens@)),
        ] + tokens_view(parent_tokens@).skip(i + 1),
{
    let ghost pv = tokens_view(parent_tokens@);
    proof {
        lemma_tokens_view(parent_tokens@);
    }
    let mut out: Vec<TokenTree> = Vec::new();
    let mut k: usize = 0;
    while k < i
        invariant
            k <= i < parent_tokens@.len(),
            pv == tokens_view(parent_tokens@),
            pv.len() == parent_tokens@.len(),
            forall|m: int| 0 <= m < parent_tokens@.len() ==> #[trigger] pv[m] == token_view(parent_tokens@[m]),
            out@.len() == k,
            forall|m: int| 0 <= m < k ==> token_view(#[trigger] out@[m]) == pv[m],
        decreases i - k,
    {
        out.push(copy_token(&parent_tokens[k]));
        k = k + 1;
    }
    let (d, sp) = match &parent_tokens[i] {
        TokenTree::Group(d, _, sp) => (*d, *sp),
        _ => {
            proof {
                assert(false);
            }
            return out;
        },
    };
    let ghost cv = tokens_view(group_tokens@);
    out.push(TokenTree::Group(d, group_tokens, sp));
    let n = parent_tokens.len();
    k = i + 1;
    while k < parent_tokens.len()
        invariant
            i < k <= parent_tokens@.len(),
            pv == tokens_view(parent_tokens@),
            pv.len() == parent_tokens@.len(),
            forall|m: int| 0 <= m < parent_tokens@.len() ==> #[trigger] pv[m] == token_view(parent_tokens@[m]),
            out@.len() == k,
            forall|m: int| 0 <= m < i ==> token_view(#[trigger] out@[m]) == pv[m],
            token_view(out@[i as int]) == wrap_group(pv[i as int], cv),
            forall|m: int| i < m < k ==> token_view(#[trigger] out@[m]) == pv[m],
        decreases parent_tokens.len() - k,
    {
        out.push(copy_token(&parent_tokens[k]));
        k = k + 1;
    }
    proof {
        lemma_tokens_view(out@);
        assert(tokens_view(out@) =~= pv.take(i as int) + seq![wrap_group(pv[i as int], cv)] + pv.skip(i + 1));
    }
    out
}

/// Reconstructs the whole stream at the current state of the walk.
pub fn current_stream(outer: &Vec<(usize, Vec<TokenTree>)>, tokens: &Vec<TokenTree>) -> (r: Vec<TokenTree>)
    requires
        frames_wf(frames_view(outer@)),
    ensures
        tokens_view(r@) == stream_frames(frames_view(outer@), tokens_view(tokens@)),
{
    let ghost fv = frames_view(outer@);
    let mut acc = copy_tokens(tokens);
    let mut j: usize = outer.len();
    proof {
        assert(fv.take(j as int) =~= fv);
    }
    while j > 0
        invariant
            j <= outer@.len(),
            fv == frames_view(outer@),
            frames_wf(fv),
            stream_frames(fv, tokens_view(tokens@)) == stream_frames(fv.take(j as int), tokens_view(acc@)),
        decreases j,
    {
        j = j - 1;
        let frame = &outer[j];
        proof {
            assert(fv[j as int] == (frame.0 as int, tokens_view(frame.1@)));
            assert(fv.take(j + 1).drop_last() =~= fv.take(j as int));
            lemma_tokens_view(frame.1@);
        }
        acc = fold_group(acc, &frame.1, frame.0);
    }
    proof {
        assert(fv.take(0) =~= Seq::<(int, Seq<TokenView>)>::empty());
    }
    acc
}

/// Replaces the token at position `i` by the tokens `repl`.
fn splice_replace(tokens: &mut Vec<TokenTree>, i: usize, repl: Vec<TokenTree>)
    requires
        i < old(tokens)@.len(),
    ensures
        final(tokens)@ == old(tokens)@.take(i as int) + repl@ + old(tokens)@.skip(i + 1),
        tokens_view(final(tokens)@) == tokens_view(old(tokens)@).take(i as int) + tokens_view(repl@)
            + tokens_view(old(tokens)@).skip(i + 1),
{
    let ghost before = tokens@;
    let ghost rs = repl@;
    let n = tokens.len();
    let mut tail = tokens.split_off(i + 1);
    tokens.pop();
    let mut r = repl;
    tokens.append(&mut r);
    tokens.append(&mut tail);
    proof {
        assert(tokens@ =~= before.take(i as int) + rs + before.skip(i + 1));
        lemma_view_take_skip(before, i as int);
        lemma_view_take_skip(before, i + 1);
        lemma_view_concat(before.take(i as int), rs);
        lemma_view_concat(before.take(i as int) + rs, before.skip(i + 1));
    }
}


/// Whether substitution has nothing to do in a token: it is no identifier that
/// names an alias and no string literal, and neither is any token inside it.
pub open spec fn token_untouched(t: TokenView, subs: Map<Seq<char>, Value>) -> bool
    decreases t, 0int,
{
    match t {
        TokenView::Ident(name, _) => !subs.contains_key(name),
        TokenView::Punct(_, _, _) => true,
        TokenView::Literal(text, _) => string_literal_value(text) is None,
        TokenView::StrLit(_, _) => false,
        TokenView::Group(_, inner, _) => tokens_untouched_upto(inner, inner.len() as int, subs),
    }
}

/// Whether substitution has nothing to do in the first `n` tokens of `s`.
pub open spec fn tokens_untouched_upto(s: Seq<TokenView>, n: int, subs: Map<Seq<char>, Value>) -> bool
    decreases s, n,
{
    if n <= 0 || n > s.len() {
        true
    } else {
        tokens_untouched_upto(s, n - 1, subs) && token_untouched(s[n - 1], subs)
    }
}

/// Whether substitution has nothing to do in a token stream.
pub open spec fn tokens_untouched(s: Seq<TokenView>, subs: Map<Seq<char>, Value>) -> bool {
    tokens_untouched_upto(s, s.len() as int, subs)
}

proof fn lemma_untouched_upto(s: Seq<TokenView>, n: int, subs: Map<Seq<char>, Value>)
    requires
        0 <= n <= s.len(),
    ensures
        tokens_untouched_upto(s, n, subs) <==> forall|k: int| 0 <= k < n ==> #[trigger] token_untouched(s[k], subs),
    decreases n,
{
    if n > 0 {
        lemma_untouched_upto(s, n - 1, subs);
        if forall|k: int| 0 <= k < n ==> #[trigger] token_untouched(s[k], subs) {
            assert(token_untouched(s[n - 1], subs));
            assert forall|k: int| 0 <= k < n - 1 implies #[trigger] token_untouched(s[k], subs) by {
                assert(token_untouched(s[k], subs));
            }
        }
        if tokens_untouched_upto(s, n, subs) {
            assert forall|k: int| 0 <= k < n implies #[trigger] token_untouched(s[k], subs) by {
                if k < n - 1 {
                    assert(token_untouched(s[k], subs));
                }
            }
        }
    }
}

/// A stream is untouched exactly when each of its tokens is.
pub proof fn lemma_untouched_all(s: Seq<TokenView>, subs: Map<Seq<char>, Value>)
    ensures
        tokens_untouched(s, subs) <==> forall|k: int| 0 <= k < s.len() ==> #[trigger] token_untouched(s[k], subs),
{
    lemma_untouched_upto(s, s.len() as int, subs);
}

proof fn lemma_subst_untouched_token(t: TokenView, subs: Map<Seq<char>, Value>)
    requires
        token_untouched(t, subs),
    ensures
        subst_token(t, subs) == seq![t],
    decreases t, 0int,
{
    match t {
        TokenView::Group(d, inner, sp) => {
            lemma_subst_untouched_upto(inner, inner.len() as int, subs);
            assert(inner.take(inner.len() as int) =~= inner);
        },
        _ => {},
    }
}

proof fn lemma_subst_untouched_upto(s: Seq<TokenView>, n: int, subs: Map<Seq<char>, Value>)
    requires
        0 <= n <= s.len(),
        tokens_untouched_upto(s, n, subs),
    ensures
        subst_upto(s, n, subs) == s.take(n),
    decreases s, n,
{
    if n > 0 {
        lemma_subst_untouched_upto(s, n - 1, subs);
        lemma_subst_untouched_token(s[n - 1], subs);
        assert(s.take(n) =~= s.take(n - 1) + seq![s[n - 1]]);
    } else {
        assert(s.take(n) =~= Seq::<TokenView>::empty());
    }
}

/// Substitution leaves a stream in which it has nothing to do as it is: with
/// no identifier that names an alias and no string literal anywhere in it, the
/// stream comes back unchanged.
pub proof fn law_untouched_stream_unchanged(s: Seq<TokenView>, subs: Map<Seq<char>, Value>)
    requires
        tokens_untouched(s, subs),
    ensures
        subst_tokens(s, subs) == s,
{
    lemma_subst_untouched_upto(s, s.len() as int, subs);
    assert(s.take(s.len() as int) =~= s);
}

/// Whether substitution has nothing to do in what the enclosing frames still
/// hold to walk.
pub open spec fn frames_untouched(fv: Seq<(int, Seq<TokenView>)>, subs: Map<Seq<char>, Value>) -> bool {
    forall|j: int| 0 <= j < fv.len() ==> tokens_untouched(#[trigger] fv[j].1.skip(fv[j].0 + 1), subs)
}

/// Message of the error raised when a rewritten string literal makes the
/// stream invalid before any alias was substituted.
pub open spec fn literal_failure_message() -> Seq<char> {
    "Rewriting a string literal made the code invalid"@
}

/// The errors substitution can end with: the substitution of a bound alias,
/// with the printed tokens of its value, was rejected; or a rewritten string
/// literal was rejected before any alias was substituted.
pub open spec fn substitution_failure(e: ErrorView, subs: Map<Seq<char>, Value>) -> bool {
    match e {
        ErrorView::Substitution(name, text, _, _) => subs.contains_key(name) && text == subs[name].text@,
        ErrorView::Internal(m) => m == literal_failure_message(),
        _ => false,
    }
}

/// The measure the walk decreases.
pub open spec fn walk_measure(fv: Seq<(int, Seq<TokenView>)>, tv: Seq<TokenView>, i: int) -> nat {
    tokens_weight(tv.skip(i)) + outer_weight(fv)
}

/// What is left to produce at a state of the walk.
pub open spec fn walk_goal(
    fv: Seq<(int, Seq<TokenView>)>,
    tv: Seq<TokenView>,
    i: int,
    subs: Map<Seq<char>, Value>,
) -> Seq<TokenView> {
    complete_frames(fv, tv.take(i) + subst_tokens(tv.skip(i), subs), subs)
}

/// One step over a token that substitution maps to `out`: the walk state
/// that has `tv[i]` replaced by `out` and the cursor past it produces the same,
/// and has less left to walk.
proof fn lemma_step_token(
    fv: Seq<(int, Seq<TokenView>)>,
    tv: Seq<TokenView>,
    i: int,
    out: Seq<TokenView>,
    subs: Map<Seq<char>, Value>,
)
    requires
        0 <= i < tv.len(),
        out == subst_token(tv[i], subs),
    ensures
        walk_goal(fv, tv.take(i) + out + tv.skip(i + 1), i + out.len(), subs) == walk_goal(fv, tv, i, subs),
        walk_measure(fv, tv.take(i) + out + tv.skip(i + 1), i + out.len()) < walk_measure(fv, tv, i),
{
    let tv2 = tv.take(i) + out + tv.skip(i + 1);
    let rest = tv.skip(i);
    assert(rest[0] == tv[i]);
    assert(rest.drop_first() =~= tv.skip(i + 1));
    lemma_subst_first(rest, subs);
    lemma_weight_first(rest);
    assert(tv2.take(i + out.len()) =~= tv.take(i) + out);
    assert(tv2.skip(i + out.len()) =~= tv.skip(i + 1));
    assert(tv2.take(i + out.len()) + subst_tokens(tv2.skip(i + out.len()), subs) =~= tv.take(i) + subst_tokens(
        tv.skip(i),
        subs,
    ));
}

/// Descending into the group at position `i` leaves what the walk produces
/// unchanged, and leaves less to walk.
proof fn lemma_descend(
    fv: Seq<(int, Seq<TokenView>)>,
    tv: Seq<TokenView>,
    i: int,
    d: crate::token::Delimiter,
    iv: Seq<TokenView>,
    sp: proc_macro2::Span,
    subs: Map<Seq<char>, Value>,
)
    requires
        0 <= i < tv.len(),
        tv[i] == TokenView::Group(d, iv, sp),
    ensures
        walk_goal(fv.push((i, tv.update(i, TokenView::Group(d, Seq::empty(), sp)))), iv, 0, subs)
            == walk_goal(fv, tv, i, subs),
        walk_measure(fv.push((i, tv.update(i, TokenView::Group(d, Seq::empty(), sp)))), iv, 0)
            < walk_measure(fv, tv, i),
{
    let tvp = tv.update(i, TokenView::Group(d, Seq::empty(), sp));
    let fv2 = fv.push((i, tvp));
    let rest = tv.skip(i);
    assert(rest[0] == tv[i]);
    assert(rest.drop_first() =~= tv.skip(i + 1));
    lemma_subst_first(rest, subs);
    lemma_weight_first(rest);
    assert(iv.skip(0) =~= iv);
    assert(iv.take(0) + subst_tokens(iv.skip(0), subs) =~= subst_tokens(iv, subs));
    assert(fv2.drop_last() =~= fv);
    assert(fv2.last() == (i, tvp));
    assert(tvp.take(i) =~= tv.take(i));
    assert(tvp.skip(i + 1) =~= tv.skip(i + 1));
    assert(tvp.take(i) + seq![wrap_group(tvp[i], subst_tokens(iv, subs))] + subst_tokens(
        tvp.skip(i + 1),
        subs,
    ) =~= tv.take(i) + subst_tokens(tv.skip(i), subs));
    assert(outer_weight(fv2) == outer_weight(fv) + tokens_weight(tv.skip(i + 1)) + 1);
}

/// The last alias substituted: its name, the printed tokens of its value, and
/// the span of the identifier it replaced.
pub type LastAlias = Option<(Seq<char>, Seq<char>, proc_macro2::Span)>;

/// Where the walk stands: the enclosing frames, the tokens of the group being
/// walked, the position in them, and the last alias substituted.
pub struct WalkState {
    pub frames: Seq<(int, Seq<TokenView>)>,
    pub tokens: Seq<TokenView>,
    pub pos: int,
    pub last: LastAlias,
}

/// One validation made by the walk: the stream shown to the validator, and the
/// last alias substituted before it.
pub struct Validation {
    pub stream: Seq<TokenView>,
    pub last: LastAlias,
}

/// The state the walk starts in, on a stream with view `tv`.
pub open spec fn walk_start(tv: Seq<TokenView>) -> WalkState {
    WalkState { frames: Seq::empty(), tokens: tv, pos: 0, last: None }
}

/// Whether a walk state is consistent.
pub open spec fn walk_wf(w: WalkState) -> bool {
    frames_wf(w.frames) && 0 <= w.pos <= w.tokens.len()
}

/// Whether the walk is over: every token at every level has been walked.
pub open spec fn walk_done(w: WalkState) -> bool {
    w.pos >= w.tokens.len() && w.frames.len() == 0
}

/// The contents of a group token.
pub open spec fn group_contents(t: TokenView) -> Seq<TokenView> {
    match t {
        TokenView::Group(_, inner, _) => inner,
        _ => Seq::empty(),
    }
}

/// The walk state that only moves past the current token.
pub open spec fn walk_advance(w: WalkState) -> WalkState {
    WalkState { pos: w.pos + 1, ..w }
}

/// One step of the walk: the next state, and the validation it makes, if any.
///
/// At the end of a group the walk folds it into the enclosing frame and goes
/// on after it. A group is entered, its place in the enclosing tokens left
/// empty until it is folded back. An identifier naming an alias is replaced by
/// the tokens of its value and the walk goes on after them; a string literal
/// is replaced by its formatted form. Each replacement is validated on the
/// whole stream as it then stands.
pub open spec fn walk_step(w: WalkState, subs: Map<Seq<char>, Value>) -> (WalkState, Option<Validation>) {
    if w.pos >= w.tokens.len() {
        let (pi, pt) = w.frames.last();
        (
            WalkState {
                frames: w.frames.drop_last(),
                tokens: pt.update(pi as int, wrap_group(pt[pi as int], w.tokens)),
                pos: pi + 1,
                last: w.last,
            },
            None,
        )
    } else {
        match w.tokens[w.pos] {
            TokenView::Group(_, inner, _) => (
                WalkState {
                    frames: w.frames.push(
                        (w.pos, w.tokens.update(w.pos, wrap_group(w.tokens[w.pos], Seq::empty()))),
                    ),
                    tokens: inner,
                    pos: 0,
                    last: w.last,
                },
                None,
            ),
            TokenView::Ident(name, sp) => if subs.contains_key(name) {
                let out = tokens_view(subs[name].tokens@);
                let t2 = w.tokens.take(w.pos) + out + w.tokens.skip(w.pos + 1);
                let last = Some((name, subs[name].text@, sp));
                (
                    WalkState { frames: w.frames, tokens: t2, pos: w.pos + out.len(), last },
                    Some(Validation { stream: stream_frames(w.frames, t2), last }),
                )
            } else {
                (walk_advance(w), None)
            },
            TokenView::Literal(text, sp) => match string_literal_value(text) {
                Some(v) => {
                    let t2 = w.tokens.update(w.pos, TokenView::StrLit(formatted(v, subs), sp));
                    (
                        WalkState { frames: w.frames, tokens: t2, pos: w.pos + 1, last: w.last },
                        Some(Validation { stream: stream_frames(w.frames, t2), last: w.last }),
                    )
                },
                None => (walk_advance(w), None),
            },
            TokenView::StrLit(v, sp) => {
                let t2 = w.tokens.update(w.pos, TokenView::StrLit(formatted(v, subs), sp));
                (
                    WalkState { frames: w.frames, tokens: t2, pos: w.pos + 1, last: w.last },
                    Some(Validation { stream: stream_frames(w.frames, t2), last: w.last }),
                )
            },
            TokenView::Punct(_, _, _) => (walk_advance(w), None),
        }
    }
}

/// A step of an unfinished walk keeps it consistent and leaves less to walk.
pub proof fn lemma_walk_step(w: WalkState, subs: Map<Seq<char>, Value>)
    requires
        walk_wf(w),
        !walk_done(w),
    ensures
        walk_wf(walk_step(w, subs).0),
        walk_measure(walk_step(w, subs).0.frames, walk_step(w, subs).0.tokens, walk_step(w, subs).0.pos)
            < walk_measure(w.frames, w.tokens, w.pos),
{
    let fv = w.frames;
    let tv = w.tokens;
    let i = w.pos;
    let w2 = walk_step(w, subs).0;
    if i >= tv.len() {
        let (pi, pt) = fv.last();
        assert(fv.last() == fv[fv.len() - 1]);
        let t2 = pt.update(pi as int, wrap_group(pt[pi as int], tv));
        assert(t2.skip(pi + 1) =~= pt.skip(pi + 1));
        assert(tv.skip(i) =~= Seq::<TokenView>::empty());
        let fv2 = fv.drop_last();
        assert forall|j: int| 0 <= j < fv2.len() implies 0 <= (#[trigger] fv2[j]).0 < fv2[j].1.len()
            && fv2[j].1[fv2[j].0 as int] is Group by {
            assert(fv2[j] == fv[j]);
        }
    } else {
        match tv[i] {
            TokenView::Group(d, inner, sp) => {
                lemma_descend(fv, tv, i, d, inner, sp, subs);
                let tvp = tv.update(i, TokenView::Group(d, Seq::empty(), sp));
                let fv2 = fv.push((i, tvp));
                assert(w2.frames == fv2);
                assert forall|j: int| 0 <= j < fv2.len() implies 0 <= (#[trigger] fv2[j]).0 < fv2[j].1.len()
                    && fv2[j].1[fv2[j].0 as int] is Group by {
                    if j < fv.len() {
                        assert(fv2[j] == fv[j]);
                    }
                }
            },
            TokenView::Ident(name, sp) => {
                if subs.contains_key(name) {
                    let out = tokens_view(subs[name].tokens@);
                    lemma_tokens_view(subs[name].tokens@);
                    lemma_step_token(fv, tv, i, out, subs);
                } else {
                    lemma_step_token(fv, tv, i, seq![tv[i]], subs);
                    assert(tv.take(i) + seq![tv[i]] + tv.skip(i + 1) =~= tv);
                }
            },
            TokenView::StrLit(v, sp) => {
                let out = seq![TokenView::StrLit(formatted(v, subs), sp)];
                lemma_step_token(fv, tv, i, out, subs);
                assert(tv.take(i) + out + tv.skip(i + 1) =~= w2.tokens);
            },
            TokenView::Literal(text, sp) => {
                match string_literal_value(text) {
                    Some(v) => {
                        let out = seq![TokenView::StrLit(formatted(v, subs), sp)];
                        lemma_step_token(fv, tv, i, out, subs);
                        assert(tv.take(i) + out + tv.skip(i + 1) =~= w2.tokens);
                    },
                    None => {
                        lemma_step_token(fv, tv, i, seq![tv[i]], subs);
                        assert(tv.take(i) + seq![tv[i]] + tv.skip(i + 1) =~= tv);
                    },
                }
            },
            TokenView::Punct(_, _, _) => {
                lemma_step_token(fv, tv, i, seq![tv[i]], subs);
                assert(tv.take(i) + seq![tv[i]] + tv.skip(i + 1) =~= tv);
            },
        }
    }
}

/// The validations the walk makes from state `w` on, in order.
pub open spec fn walk_trace(w: WalkState, subs: Map<Seq<char>, Value>) -> Seq<Validation>
    decreases walk_measure(w.frames, w.tokens, w.pos),
    when walk_wf(w)
{
    if walk_done(w) {
        Seq::empty()
    } else {
        proof {
            lemma_walk_step(w, subs);
        }
        let (w2, c) = walk_step(w, subs);
        match c {
            Some(c) => seq![c] + walk_trace(w2, subs),
            None => walk_trace(w2, subs),
        }
    }
}

/// The stream the walk will produce from state `w`.
pub open spec fn walk_result(w: WalkState, subs: Map<Seq<char>, Value>) -> Seq<TokenView> {
    walk_goal(w.frames, w.tokens, w.pos, subs)
}

/// The stream as it stands at state `w`.
pub open spec fn walk_stream(w: WalkState) -> Seq<TokenView> {
    stream_frames(w.frames, w.tokens)
}

/// A step keeps what the walk will produce; a step that validates nothing
/// also keeps the stream as it stands.
proof fn lemma_step_keeps(w: WalkState, subs: Map<Seq<char>, Value>)
    requires
        walk_wf(w),
        !walk_done(w),
    ensures
        walk_result(walk_step(w, subs).0, subs) == walk_result(w, subs),
        walk_step(w, subs).1 is None ==> walk_stream(walk_step(w, subs).0) == walk_stream(w),
        walk_step(w, subs).1 matches Some(c) ==> c.stream == walk_stream(walk_step(w, subs).0),
{
    let fv = w.frames;
    let tv = w.tokens;
    let i = w.pos;
    let w2 = walk_step(w, subs).0;
    if i >= tv.len() {
        let (pi, pt) = fv.last();
        let t2 = pt.update(pi, wrap_group(pt[pi], tv));
        assert(fv.last() == fv[fv.len() - 1]);
        assert(tv.skip(i) =~= Seq::<TokenView>::empty());
        assert(tv.take(i) + subst_tokens(tv.skip(i), subs) =~= tv);
        assert(t2.take(pi + 1) =~= pt.take(pi) + seq![wrap_group(pt[pi], tv)]);
        assert(t2.skip(pi + 1) =~= pt.skip(pi + 1));
        assert(t2 =~= pt.take(pi) + seq![wrap_group(pt[pi], tv)] + pt.skip(pi + 1));
    } else {
        match tv[i] {
            TokenView::Group(d, inner, sp) => {
                lemma_descend(fv, tv, i, d, inner, sp, subs);
                let tvp = tv.update(i, TokenView::Group(d, Seq::empty(), sp));
                let fv2 = fv.push((i, tvp));
                assert(fv2.drop_last() =~= fv);
                assert(fv2.last() == (i, tvp));
                assert(tvp.take(i) + seq![wrap_group(tvp[i], inner)] + tvp.skip(i + 1) =~= tv);
            },
            TokenView::Ident(name, sp) => {
                if subs.contains_key(name) {
                    lemma_tokens_view(subs[name].tokens@);
                    lemma_step_token(fv, tv, i, tokens_view(subs[name].tokens@), subs);
                } else {
                    lemma_step_token(fv, tv, i, seq![tv[i]], subs);
                    assert(tv.take(i) + seq![tv[i]] + tv.skip(i + 1) =~= tv);
                }
            },
            TokenView::StrLit(v, sp) => {
                let out = seq![TokenView::StrLit(formatted(v, subs), sp)];
                lemma_step_token(fv, tv, i, out, subs);
                assert(tv.take(i) + out + tv.skip(i + 1) =~= w2.tokens);
            },
            TokenView::Literal(text, sp) => {
                match string_literal_value(text) {
                    Some(v) => {
                        let out = seq![TokenView::StrLit(formatted(v, subs), sp)];
                        lemma_step_token(fv, tv, i, out, subs);
                        assert(tv.take(i) + out + tv.skip(i + 1) =~= w2.tokens);
                    },
                    None => {
                        lemma_step_token(fv, tv, i, seq![tv[i]], subs);
                        assert(tv.take(i) + seq![tv[i]] + tv.skip(i + 1) =~= tv);
                    },
                }
            },
            TokenView::Punct(_, _, _) => {
                lemma_step_token(fv, tv, i, seq![tv[i]], subs);
                assert(tv.take(i) + seq![tv[i]] + tv.skip(i + 1) =~= tv);
            },
        }
    }
}

/// From any consistent state, the last stream the walk validates is the
/// stream it produces; when it validates nothing more, the stream as it stands
/// is already the one it produces.
proof fn lemma_last_validation(w: WalkState, subs: Map<Seq<char>, Value>)
    requires
        walk_wf(w),
    ensures
        walk_trace(w, subs).len() == 0 ==> walk_stream(w) == walk_result(w, subs),
        walk_trace(w, subs).len() > 0 ==> walk_trace(w, subs).last().stream == walk_result(w, subs),
    decreases walk_measure(w.frames, w.tokens, w.pos),
{
    if walk_done(w) {
        let tv = w.tokens;
        assert(tv.skip(w.pos) =~= Seq::<TokenView>::empty());
        assert(tv.take(w.pos) + subst_tokens(tv.skip(w.pos), subs) =~= tv);
        assert(w.frames =~= Seq::<(int, Seq<TokenView>)>::empty());
    } else {
        lemma_walk_step(w, subs);
        lemma_trace_unfold(w, subs);
        lemma_step_keeps(w, subs);
        let (w2, c) = walk_step(w, subs);
        lemma_last_validation(w2, subs);
        match c {
            Some(c) => {
                let t2 = walk_trace(w2, subs);
                if t2.len() > 0 {
                    assert((seq![c] + t2).last() == t2.last());
                } else {
                    assert((seq![c] + t2).last() == c);
                }
            },
            None => {},
        }
    }
}

/// The last stream that substitution shows the validator is the stream it
/// produces.
pub proof fn law_last_validation_is_result(stream: Seq<TokenView>, subs: Map<Seq<char>, Value>)
    requires
        walk_trace(walk_start(stream), subs).len() > 0,
    ensures
        walk_trace(walk_start(stream), subs).last().stream == subst_tokens(stream, subs),
{
    let w = walk_start(stream);
    lemma_last_validation(w, subs);
    assert(stream.skip(0) =~= stream);
    assert(stream.take(0) + subst_tokens(stream.skip(0), subs) =~= subst_tokens(stream, subs));
}

/// Whether the validator, shown a stream with view `stream`, can accept it.
pub open spec fn accepted<F: Fn(&Vec<TokenTree>) -> Option<String>>(validate: F, stream: Seq<TokenView>) -> bool {
    exists|s: &Vec<TokenTree>| tokens_view(s@) == stream && #[trigger] call_ensures(validate, (s,), None)
}

/// Whether the validator, shown a stream with view `stream`, can complain
/// with `msg`.
pub open spec fn rejected<F: Fn(&Vec<TokenTree>) -> Option<String>>(
    validate: F,
    stream: Seq<TokenView>,
    msg: Seq<char>,
) -> bool {
    exists|s: &Vec<TokenTree>, m: String|
        tokens_view(s@) == stream && m@ == msg && #[trigger] call_ensures(validate, (s,), Some(m))
}

/// The error that a complaint `msg` of the validator ends the walk with.
pub open spec fn failure_of(last: LastAlias, msg: Seq<char>) -> ErrorView {
    match last {
        Some((name, text, sp)) => ErrorView::Substitution(name, text, msg, sp),
        None => ErrorView::Internal(literal_failure_message()),
    }
}

/// Steps into the group at position `i`: the current tokens, with that group
/// emptied, go onto the frame stack, and the group's tokens become current.
fn enter_group(
    outer: &mut Vec<(usize, Vec<TokenTree>)>,
    tokens: &mut Vec<TokenTree>,
    i: usize,
    Ghost(subs): Ghost<Map<Seq<char>, Value>>,
)
    requires
        i < old(tokens)@.len(),
        old(tokens)@[i as int] is Group,
        frames_wf(frames_view(old(outer)@)),
    ensures
        frames_wf(frames_view(final(outer)@)),
        walk_goal(frames_view(final(outer)@), tokens_view(final(tokens)@), 0, subs) == walk_goal(
            frames_view(old(outer)@),
            tokens_view(old(tokens)@),
            i as int,
            subs,
        ),
        walk_measure(frames_view(final(outer)@), tokens_view(final(tokens)@), 0) < walk_measure(
            frames_view(old(outer)@),
            tokens_view(old(tokens)@),
            i as int,
        ),
        frames_view(final(outer)@).drop_last() == frames_view(old(outer)@),
        frames_view(final(outer)@).len() == frames_view(old(outer)@).len() + 1,
        frames_view(final(outer)@).last().0 == i,
        frames_view(final(outer)@).last().1.skip(i + 1) == tokens_view(old(tokens)@).skip(i + 1),
        tokens_view(old(tokens)@)[i as int] == wrap_group(tokens_view(old(tokens)@)[i as int], tokens_view(final(tokens)@)),
        frames_view(final(outer)@) == frames_view(old(outer)@).push(
            (
                i as int,
                tokens_view(old(tokens)@).update(
                    i as int,
                    wrap_group(tokens_view(old(tokens)@)[i as int], Seq::empty()),
                ),
            ),
        ),
        tokens_view(final(tokens)@) == group_contents(tokens_view(old(tokens)@)[i as int]),
{
    let ghost fv = frames_view(outer@);
    let ghost before = tokens@;
    let ghost tv = tokens_view(tokens@);
    proof {
        lemma_tokens_view(before);
    }
    let g = tokens.remove(i);
    match g {
        TokenTree::Group(d, inner, sp) => {
            let empty: Vec<TokenTree> = Vec::new();
            tokens.insert(i, TokenTree::Group(d, empty, sp));
            let ghost parent = tokens@;
            let ghost iv = tokens_view(inner@);
            let mut current = inner;
            core::mem::swap(tokens, &mut current);
            outer.push((i, current));
            proof {
                let placeholder = parent[i as int];
                assert(parent =~= before.update(i as int, placeholder));
                lemma_view_update(before, i as int, placeholder);
                assert(token_view(placeholder) == TokenView::Group(d, Seq::empty(), sp));
                let tvp = tokens_view(parent);
                assert(tvp == tv.update(i as int, TokenView::Group(d, Seq::empty(), sp)));
                assert(tv[i as int] == TokenView::Group(d, iv, sp));
                let fv2 = frames_view(outer@);
                assert(fv2 =~= fv.push((i as int, tvp)));
                lemma_descend(fv, tv, i as int, d, iv, sp, subs);
                assert(fv2.drop_last() =~= fv);
                assert(tvp.skip(i + 1) =~= tv.skip(i + 1));
                assert forall|j: int| 0 <= j < fv2.len() implies 0 <= (#[trigger] fv2[j]).0 < fv2[j].1.len()
                    && fv2[j].1[fv2[j].0 as int] is Group by {
                    if j < fv.len() {
                        assert(fv2[j] == fv[j]);
                    }
                }
            }
        },
        _ => {
            proof {
                assert(false);
            }
        },
    }
}

/// Steps out of the current group once its tokens are all walked: they become
/// the contents of the group in the innermost enclosing frame, whose tokens
/// become current, and the walk goes on after that group.
fn leave_group(
    outer: &mut Vec<(usize, Vec<TokenTree>)>,
    tokens: &mut Vec<TokenTree>,
    Ghost(subs): Ghost<Map<Seq<char>, Value>>,
) -> (next: usize)
    requires
        old(outer)@.len() > 0,
        frames_wf(frames_view(old(outer)@)),
    ensures
        next <= final(tokens)@.len(),
        frames_wf(frames_view(final(outer)@)),
        walk_goal(frames_view(final(outer)@), tokens_view(final(tokens)@), next as int, subs)
            == complete_frames(frames_view(old(outer)@), tokens_view(old(tokens)@), subs),
        walk_measure(frames_view(final(outer)@), tokens_view(final(tokens)@), next as int) < outer_weight(
            frames_view(old(outer)@),
        ),
        frames_view(final(outer)@) == frames_view(old(outer)@).drop_last(),
        next == frames_view(old(outer)@).last().0 + 1,
        tokens_view(final(tokens)@).skip(next as int) == frames_view(old(outer)@).last().1.skip(next as int),
        tokens_view(final(tokens)@) == frames_view(old(outer)@).last().1.update(
            frames_view(old(outer)@).last().0,
            wrap_group(
                frames_view(old(outer)@).last().1[frames_view(old(outer)@).last().0],
                tokens_view(old(tokens)@),
            ),
        ),
{
    let ghost fv = frames_view(outer@);
    let ghost tv = tokens_view(tokens@);
    let frame = outer.pop();
    match frame {
        Some(f) => {
            let (pi, mut pt) = f;
            proof {
                assert(fv.drop_last() =~= frames_view(outer@));
                assert(fv.last() == (pi as int, tokens_view(pt@)));
                lemma_tokens_view(pt@);
            }
            let ghost ptv = tokens_view(pt@);
            let ghost pt_before = pt@;
            let pt_len = pt.len();
            let (d, sp) = match &pt[pi] {
                TokenTree::Group(d, _, sp) => (*d, *sp),
                _ => {
                    proof {
                        assert(fv[fv.len() - 1].1[pi as int] is Group);
                    }
                    return 0;
                },
            };
            let mut content: Vec<TokenTree> = Vec::new();
            core::mem::swap(tokens, &mut content);
            pt.set(pi, TokenTree::Group(d, content, sp));
            core::mem::swap(tokens, &mut pt);
            proof {
                let new_group = tokens@[pi as int];
                assert(tokens@ == pt_before.update(pi as int, new_group));
                lemma_view_update(pt_before, pi as int, new_group);
                let tv2 = tokens_view(tokens@);
                assert(tv2 =~= ptv.update(pi as int, TokenView::Group(d, tv, sp)));
                assert(tv2.take(pi + 1) =~= ptv.take(pi as int) + seq![wrap_group(ptv[pi as int], tv)]);
                assert(tv2.skip(pi + 1) =~= ptv.skip(pi + 1));
                let fv2 = frames_view(outer@);
                assert forall|j: int| 0 <= j < fv2.len() implies 0 <= (#[trigger] fv2[j]).0 < fv2[j].1.len()
                    && fv2[j].1[fv2[j].0 as int] is Group by {
                    assert(fv2[j] == fv[j]);
                }
            }
            pi + 1
        },
        None => {
            proof {
                assert(false);
            }
            0
        },
    }
}

/// Hands the stream as it now stands to `validate`, and turns a complaint into
/// the error of the walk.
fn validate_stream<F: Fn(&Vec<TokenTree>) -> Option<String>>(
    outer: &Vec<(usize, Vec<TokenTree>)>,
    tokens: &Vec<TokenTree>,
    validate: &F,
    error_data: &Option<(String, String, proc_macro2::Span)>,
    Ghost(subs): Ghost<Map<Seq<char>, Value>>,
) -> (r: Result<(), Error>)
    requires
        frames_wf(frames_view(outer@)),
        forall|s: &Vec<TokenTree>| validate.requires((s,)),
        error_data matches Some(ed) ==> subs.contains_key(ed.0@) && ed.1@ == subs[ed.0@].text@,
    ensures
        r is Ok ==> accepted(validate, stream_frames(frames_view(outer@), tokens_view(tokens@))),
        r matches Err(e) ==> substitution_failure(e@, subs) && exists|msg: Seq<char>|
            rejected(validate, stream_frames(frames_view(outer@), tokens_view(tokens@)), msg) && e@
                == failure_of(last_of(*error_data), msg),
        (forall|s: &Vec<TokenTree>, o: Option<String>| call_ensures(validate, (s,), o) ==> o is None) ==> r is Ok,
{
    let stream_now = current_stream(outer, tokens);
    let verdict = validate(&stream_now);
    proof {
        assert(call_ensures(validate, (&stream_now,), verdict));
    }
    match verdict {
        None => Ok(()),
        Some(msg) => {
            let ghost m = msg@;
            proof {
                assert(rejected(validate, tokens_view(stream_now@), m));
            }
            let e = match error_data {
                Some(ed) => Error::SubstitutionError(ed.0.clone(), ed.1.clone(), msg, ed.2),
                None => Error::InternalError("Rewriting a string literal made the code invalid".to_string()),
            };
            proof {
                assert(rejected(validate, stream_frames(frames_view(outer@), tokens_view(tokens@)), m) && e@
                    == failure_of(last_of(*error_data), m));
            }
            Err(e)
        },
    }
}

/// The walk state of the exec walk: its frames, current tokens, position, and
/// the last alias substituted.
pub open spec fn state_of(
    outer: Seq<(usize, Vec<TokenTree>)>,
    tokens: Seq<TokenTree>,
    i: int,
    error_data: Option<(String, String, proc_macro2::Span)>,
) -> WalkState {
    WalkState { frames: frames_view(outer), tokens: tokens_view(tokens), pos: i, last: last_of(error_data) }
}

/// The view of the record of the last alias substituted.
pub open spec fn last_of(error_data: Option<(String, String, proc_macro2::Span)>) -> LastAlias {
    match error_data {
        Some(ed) => Some((ed.0@, ed.1@, ed.2)),
        None => None,
    }
}

/// The validations from an unfinished state are those of its step, then
/// those from the state it steps to.
proof fn lemma_trace_unfold(w: WalkState, subs: Map<Seq<char>, Value>)
    requires
        walk_wf(w),
        !walk_done(w),
    ensures
        walk_trace(w, subs) == match walk_step(w, subs).1 {
            Some(c) => seq![c] + walk_trace(walk_step(w, subs).0, subs),
            None => walk_trace(walk_step(w, subs).0, subs),
        },
{
}

/// Past position `i` of an untouched rest of a stream, the token at `i` and
/// what follows it are untouched.
proof fn lemma_untouched_step(tv: Seq<TokenView>, i: int, subs: Map<Seq<char>, Value>)
    requires
        0 <= i < tv.len(),
        tokens_untouched(tv.skip(i), subs),
    ensures
        token_untouched(tv[i], subs),
        tokens_untouched(tv.skip(i + 1), subs),
{
    lemma_untouched_all(tv.skip(i), subs);
    lemma_untouched_all(tv.skip(i + 1), subs);
    assert(token_untouched(tv.skip(i)[0], subs));
    assert forall|k: int| 0 <= k < tv.skip(i + 1).len() implies #[trigger] token_untouched(tv.skip(i + 1)[k], subs) by {
        assert(tv.skip(i + 1)[k] == tv.skip(i)[k + 1]);
    }
}

/// Substitutes aliases in a token stream.
///
/// Each identifier that names an alias is replaced by the tokens of its value,
/// and each string literal has its placeholders expanded, inside groups too.
/// After every replacement `validate` is shown the whole stream as it stands:
/// the streams of [`walk_trace`], in order. When it accepts them all, the
/// result is the substituted stream; at its first complaint the walk ends with
/// an error naming the last substituted alias (an internal error when only
/// string literals were rewritten so far).
pub fn substitute_idents<F: Fn(&Vec<TokenTree>) -> Option<String>>(
    stream: Vec<TokenTree>,
    substitutions: &Substitutions,
    validate: &F,
) -> (r: Result<Vec<TokenTree>, Error>)
    requires
        forall|s: &Vec<TokenTree>| validate.requires((s,)),
    ensures
        ({
            let trace = walk_trace(walk_start(tokens_view(stream@)), substitutions@);
            match r {
                Ok(t) => tokens_view(t@) == subst_tokens(tokens_view(stream@), substitutions@) && forall|k: int|
                    0 <= k < trace.len() ==> accepted(validate, #[trigger] trace[k].stream),
                Err(e) => substitution_failure(e@, substitutions@) && exists|k: int|
                    0 <= k < trace.len() && (forall|j: int|
                        0 <= j < k ==> accepted(validate, #[trigger] trace[j].stream)) && exists|msg: Seq<char>|
                        rejected(validate, #[trigger] trace[k].stream, msg) && e@ == failure_of(trace[k].last, msg),
            }
        }),
        tokens_untouched(tokens_view(stream@), substitutions@) ==> r is Ok,
        (forall|s: &Vec<TokenTree>, o: Option<String>| call_ensures(validate, (s,), o) ==> o is None) ==> r is Ok,
{
    let ghost subs = substitutions@;
    let ghost goal = subst_tokens(tokens_view(stream@), subs);
    let mut outer: Vec<(usize, Vec<TokenTree>)> = Vec::new();
    let mut tokens = stream;
    let mut i: usize = 0;
    let mut error_data: Option<(String, String, proc_macro2::Span)> = None;
    let ghost start = walk_start(tokens_view(stream@));
    let ghost mut done: Seq<Validation> = Seq::empty();
    proof {
        let tv = tokens_view(tokens@);
        assert(done + walk_trace(start, subs) =~= walk_trace(start, subs));
        assert(frames_view(outer@) =~= Seq::<(int, Seq<TokenView>)>::empty());
        assert(tv.skip(0) =~= tv);
        assert(tv.take(0) + subst_tokens(tv.skip(0), subs) =~= goal);
        assert(tokens_view(stream@) == tv);
        assert(state_of(outer@, tokens@, 0, error_data) == start);
    }
    loop
        invariant
            subs == substitutions@,
            goal == subst_tokens(tokens_view(stream@), substitutions@),
            forall|s: &Vec<TokenTree>| validate.requires((s,)),
            i <= tokens@.len(),
            frames_wf(frames_view(outer@)),
            walk_goal(frames_view(outer@), tokens_view(tokens@), i as int, subs) == goal,
            error_data matches Some(ed) ==> subs.contains_key(ed.0@) && ed.1@ == subs[ed.0@].text@,
            tokens_untouched(tokens_view(stream@), subs) ==> frames_untouched(frames_view(outer@), subs)
                && tokens_untouched(tokens_view(tokens@).skip(i as int), subs),
            start == walk_start(tokens_view(stream@)),
            walk_trace(start, subs) == done + walk_trace(state_of(outer@, tokens@, i as int, error_data), subs),
            forall|k: int| 0 <= k < done.len() ==> accepted(validate, #[trigger] done[k].stream),
        decreases walk_measure(frames_view(outer@), tokens_view(tokens@), i as int),
    {
        let ghost fv = frames_view(outer@);
        let ghost tv = tokens_view(tokens@);
        let ghost w = state_of(outer@, tokens@, i as int, error_data);
        proof {
            lemma_tokens_view(tokens@);
            if !walk_done(w) {
                lemma_trace_unfold(w, subs);
            }
        }
        if i >= tokens.len() {
            proof {
                assert(tv.skip(i as int) =~= Seq::<TokenView>::empty());
                assert(tv.take(i as int) + subst_tokens(tv.skip(i as int), subs) =~= tv);
            }
            if outer.len() == 0 {
                proof {
                    assert(fv =~= Seq::<(int, Seq<TokenView>)>::empty());
                }
                return Ok(tokens);
            }
            i = leave_group(&mut outer, &mut tokens, Ghost(subs));
            proof {
                let fv2 = frames_view(outer@);
                let w2 = state_of(outer@, tokens@, i as int, error_data);
                assert(w2.frames == walk_step(w, subs).0.frames);
                assert(w2.tokens == walk_step(w, subs).0.tokens);
                assert(w2 == walk_step(w, subs).0);
                if tokens_untouched(tokens_view(stream@), subs) {
                    assert(fv.last() == fv[fv.len() - 1]);
                    assert forall|j: int| 0 <= j < fv2.len() implies tokens_untouched(
                        #[trigger] fv2[j].1.skip(fv2[j].0 + 1),
                        subs,
                    ) by {
                        assert(fv2[j] == fv[j]);
                    }
                }
            }
        } else if tokens[i].is_group() {
            enter_group(&mut outer, &mut tokens, i, Ghost(subs));
            proof {
                let fv2 = frames_view(outer@);
                let iv = tokens_view(tokens@);
                let w2 = state_of(outer@, tokens@, 0, error_data);
                assert(w2.frames == walk_step(w, subs).0.frames);
                assert(w2.tokens == walk_step(w, subs).0.tokens);
                assert(w2 == walk_step(w, subs).0);
                if tokens_untouched(tokens_view(stream@), subs) {
                    lemma_untouched_step(tv, i as int, subs);
                    assert(iv.skip(0) =~= iv);
                    assert forall|j: int| 0 <= j < fv2.len() implies tokens_untouched(
                        #[trigger] fv2[j].1.skip(fv2[j].0 + 1),
                        subs,
                    ) by {
                        if j < fv.len() {
                            assert(fv2[j] == fv2.drop_last()[j]);
                        } else {
                            assert(fv2[j] == fv2.last());
                        }
                    }
                }
            }
            i = 0;
        } else {
            proof {
                if tokens_untouched(tokens_view(stream@), subs) {
                    lemma_untouched_step(tv, i as int, subs);
                }
            }
            let ident = match &tokens[i] {
                TokenTree::Ident(name, sp) => Some((name.clone(), *sp)),
                _ => None,
            };
            let literal: Option<(Option<String>, proc_macro2::Span)> = match &tokens[i] {
                TokenTree::Literal(text, sp) => Some((lit_str_value(text), *sp)),
                TokenTree::StrLit(contents, sp) => Some((Some(contents.clone()), *sp)),
                _ => None,
            };
            if let Some((name, sp)) = ident {
                match substitutions.get(name.as_str()) {
                    Some(value) => {
                        let repl = copy_tokens(&value.tokens);
                        let m = repl.len();
                        let ghost rv = tokens_view(repl@);
                        proof {
                            assert(tv[i as int] == TokenView::Ident(name@, sp));
                            lemma_tokens_view(repl@);
                            lemma_step_token(fv, tv, i as int, rv, subs);
                        }
                        error_data = Some((name, value.text.clone(), sp));
                        splice_replace(&mut tokens, i, repl);
                        let n = tokens.len();
                        assert(i + m <= n);
                        i = i + m;
                        let ghost c = walk_step(w, subs).1->Some_0;
                        proof {
                            let w2 = state_of(outer@, tokens@, i as int, error_data);
                            assert(w2.tokens == walk_step(w, subs).0.tokens);
                            assert(w2 == walk_step(w, subs).0);
                            assert(walk_step(w, subs).1 == Some(c));
                            assert(c.stream == stream_frames(frames_view(outer@), tokens_view(tokens@)));
                            assert(walk_trace(start, subs) == (done + seq![c]) + walk_trace(w2, subs));
                        }
                        match validate_stream(&outer, &tokens, validate, &error_data, Ghost(subs)) {
                            Ok(()) => {
                                proof {
                                    done = done.push(c);
                                }
                            },
                            Err(e) => {
                                proof {
                                    let trace = walk_trace(start, subs);
                                    let k = done.len() as int;
                                    assert(trace[k] == c);
                                    assert forall|j: int| 0 <= j < k implies accepted(validate, #[trigger] trace[j].stream) by {
                                        assert(trace[j] == done[j]);
                                    }
                                }
                                return Err(e);
                            },
                        }
                    },
                    None => {
                        proof {
                            lemma_step_token(fv, tv, i as int, seq![tv[i as int]], subs);
                            assert(tv.take(i as int) + seq![tv[i as int]] + tv.skip(i + 1) =~= tv);
                        }
                        i = i + 1;
                    },
                }
            } else if let Some((contents, sp)) = literal {
                match contents {
                    Some(v) => {
                        let f = format_string(v.as_str(), substitutions);
                        let ghost before = tokens@;
                        tokens.set(i, TokenTree::StrLit(f, sp));
                        proof {
                            let lit = tokens@[i as int];
                            lemma_view_update(before, i as int, lit);
                            let out = seq![token_view(lit)];
                            lemma_step_token(fv, tv, i as int, out, subs);
                            assert(tokens_view(tokens@) =~= tv.take(i as int) + out + tv.skip(i + 1));
                        }
                        i = i + 1;
                        let ghost c = walk_step(w, subs).1->Some_0;
                        proof {
                            let w2 = state_of(outer@, tokens@, i as int, error_data);
                            assert(w2.tokens == walk_step(w, subs).0.tokens);
                            assert(w2 == walk_step(w, subs).0);
                            assert(walk_step(w, subs).1 == Some(c));
                            assert(c.stream == stream_frames(frames_view(outer@), tokens_view(tokens@)));
                            assert(walk_trace(start, subs) == (done + seq![c]) + walk_trace(w2, subs));
                        }
                        match validate_stream(&outer, &tokens, validate, &error_data, Ghost(subs)) {
                            Ok(()) => {
                                proof {
                                    done = done.push(c);
                                }
                            },
                            Err(e) => {
                                proof {
                                    let trace = walk_trace(start, subs);
                                    let k = done.len() as int;
                                    assert(trace[k] == c);
                                    assert forall|j: int| 0 <= j < k implies accepted(validate, #[trigger] trace[j].stream) by {
                                        assert(trace[j] == done[j]);
                                    }
                                }
                                return Err(e);
                            },
                        }
                    },
                    None => {
                        proof {
                            lemma_step_token(fv, tv, i as int, seq![tv[i as int]], subs);
                            assert(tv.take(i as int) + seq![tv[i as int]] + tv.skip(i + 1) =~= tv);
                        }
                        i = i + 1;
                    },
                }
            } else {
                proof {
                    lemma_step_token(fv, tv, i as int, seq![tv[i as int]], subs);
                    assert(tv.take(i as int) + seq![tv[i as int]] + tv.skip(i + 1) =~= tv);
                }
                i = i + 1;
            }
        }
    }
}

} // verus!
