//! The grammar of the macro's input, over token trees.
//!
//! The input is: optional `for` loops, an optional alias specification, a
//! block, and an optional trailing `,` or `;`. An alias specification is a
//! list of `alias = expression` items, each ended by `,` or `;`, the same
//! separator throughout; the last one may instead end the input. The
//! arguments of an item attribute are the same without the block. An expression is a call of a known function, a name
//! followed by its parenthesized arguments, or else a value.

use vstd::prelude::*;
use std::rc::Rc;
use crate::ast::{AliasSpec, AliasSpecItem, Call, Expr};
use crate::error::{Error, ErrorView};
use crate::parse::{ident_reads, ident_syntax};
use crate::parse::{chosen_reading, first_comma, kind_of_reading, parse_terminated_value, readings};
use crate::token::{
    copy_token, lemma_inner_lighter, lemma_tokens_view, lemma_weight_concat, lemma_weight_prefix, lemma_weight_upto_bound,
    print_prefix, printed, token_view, token_weight, tokens_view, tokens_weight, Delimiter, TokenTree, TokenView,
};
use crate::value::{Value, ValueKind};

verus! {

/// Whether a token is a comma.
pub open spec fn comma_token(t: TokenView) -> bool {
    t matches TokenView::Punct(',', _, _)
}

/// How many tokens a value takes from the start of `tv`: its kept reading,
/// else everything up to the first comma.
#[verifier::opaque]
pub open spec fn value_extent(tv: Seq<TokenView>) -> int {
    match chosen_reading(readings(tv)) {
        Some(k) => readings(tv)[k]->Some_0 as int,
        None => first_comma(tv),
    }
}

/// Whether `tv` starts with a call of one of the functions `funcs`: its name,
/// then a parenthesized group.
pub open spec fn call_start(tv: Seq<TokenView>, funcs: Seq<Seq<char>>) -> bool {
    &&& tv.len() >= 2
    &&& (tv[0] matches TokenView::Ident(name, _) && funcs.contains(name))
    &&& (tv[1] matches TokenView::Group(Delimiter::Parenthesis, _, _))
}

/// How many tokens an expression takes from the start of `tv`.
pub open spec fn expr_extent(tv: Seq<TokenView>, funcs: Seq<Seq<char>>) -> int {
    if call_start(tv, funcs) {
        2
    } else {
        value_extent(tv)
    }
}

/// The contents of a group token.
pub open spec fn inner_of(t: TokenView) -> Seq<TokenView> {
    match t {
        TokenView::Group(_, inner, _) => inner,
        _ => Seq::empty(),
    }
}

/// The names of the known functions.
pub open spec fn names_view(funcs: Seq<String>) -> Seq<Seq<char>> {
    funcs.map_values(|s: String| s@)
}

/// Whether `name` is one of `funcs`.
fn known_function(funcs: &Vec<String>, name: &String) -> (r: bool)
    ensures
        r == names_view(funcs@).contains(name@),
{
    let mut i: usize = 0;
    while i < funcs.len()
        invariant
            i <= funcs@.len(),
            forall|k: int| 0 <= k < i ==> funcs@[k]@ != name@,
        decreases funcs.len() - i,
    {
        if funcs[i] == *name {
            proof {
                assert(names_view(funcs@)[i as int] == name@);
            }
            return true;
        }
        i = i + 1;
    }
    proof {
        if names_view(funcs@).contains(name@) {
            let k = choose|k: int| 0 <= k < names_view(funcs@).len() && names_view(funcs@)[k] == name@;
            assert(funcs@[k]@ == name@);
        }
    }
    false
}

/// The name of an identifier token.
pub open spec fn ident_name(t: TokenView) -> Seq<char> {
    match t {
        TokenView::Ident(name, _) => name,
        _ => Seq::empty(),
    }
}

/// A fresh node identifier.
fn fresh_id(next_id: &mut u64) -> (r: u64) {
    let r = *next_id;
    *next_id = next_id.wrapping_add(1);
    r
}

/// Reads an expression from the start of `tokens`.
///
/// A known function's name followed by a parenthesized group is a call: its
/// arguments are the comma-separated pieces of the group when each reads as
/// one whole expression, and none otherwise; the group's tokens are kept as
/// the call's raw argument. Anything else is read as a value. Returns the
/// expression and the number of tokens it took.
pub fn parse_expr(
    tokens: &Vec<TokenTree>,
    funcs: &Vec<String>,
    next_id: &mut u64,
    span: proc_macro2::Span,
) -> (r: (Rc<Expr>, usize))
    ensures
        r.1 == expr_extent(tokens_view(tokens@), names_view(funcs@)),
        r.1 <= tokens@.len(),
        expr_read(*r.0, tokens_view(tokens@), names_view(funcs@), span),
    decreases tokens_weight(tokens_view(tokens@)), 0int,
{
    let ghost tv = tokens_view(tokens@);
    let ghost names = names_view(funcs@);
    proof {
        lemma_tokens_view(tokens@);
    }
    let mut call_name: Option<String> = None;
    if tokens.len() >= 2 {
        if let TokenTree::Ident(name, _) = &tokens[0] {
            if let TokenTree::Group(Delimiter::Parenthesis, _, _) = &tokens[1] {
                if known_function(funcs, name) {
                    call_name = Some(name.clone());
                }
            }
        }
    }
    match call_name {
        Some(name) => {
            let content = match &tokens[1] {
                TokenTree::Group(_, inner, _) => inner,
                _ => {
                    proof {
                        assert(false);
                    }
                    return (Rc::new(Expr::ValueExpr(Rc::new(Value {
                        id: 0,
                        kind: ValueKind::Raw(String::new()),
                        tokens: Vec::new(),
                        text: String::new(),
                        span,
                    }))), 0);
                },
            };
            let ghost cv = tokens_view(content@);
            proof {
                assert(tv[1] == token_view(tokens@[1]));
                assert(inner_of(tv[1]) == cv);
                lemma_weight_upto_bound(tv, tv.len() as int, 1);
            }
            let mut args: Vec<Rc<Expr>> = Vec::new();
            match parse_list(0, content, funcs, next_id, span) {
                Some(items) => {
                    let mut j: usize = 0;
                    while j < items.len()
                        invariant
                            j <= items@.len(),
                            args@.len() == j,
                            forall|q: int| 0 <= q < items@.len() ==> #[trigger] items@[q] is Single,
                            forall|q: int| 0 <= q < j ==> TupleItem::Single(#[trigger] args@[q]) == items@[q],
                        decreases items.len() - j,
                    {
                        match &items[j] {
                            TupleItem::Single(e) => args.push(crate::ast::rc_clone(e)),
                            TupleItem::Tuple(_) => {
                                proof {
                                    assert(items@[j as int] is Single);
                                }
                            },
                        }
                        j = j + 1;
                    }
                    proof {
                        assert(args@.map_values(|a: Rc<Expr>| TupleItem::Single(a)) =~= items@);
                    }
                },
                None => {},
            }
            let raw_text = print_prefix(content, content.len());
            let raw_tokens = copy_prefix_all(content);
            proof {
                lemma_tokens_view(content@);
                assert(cv.take(cv.len() as int) =~= cv);
            }
            let raw_id = fresh_id(next_id);
            let raw = Value { id: raw_id, kind: ValueKind::Raw(raw_text.clone()), tokens: raw_tokens, text: raw_text, span };
            let text = print_prefix(tokens, 2);
            let call_span = match &tokens[0] {
                TokenTree::Ident(_, sp) => *sp,
                _ => span,
            };
            let id = fresh_id(next_id);
            let call = Call {
                id,
                name,
                args,
                tokens: Some(Rc::new(Expr::ValueExpr(Rc::new(raw)))),
                text,
                span: call_span,
            };
            let r = Rc::new(Expr::FuncCallExpr(Rc::new(call)));
            proof {
                assert(call_start(tv, names));
                assert(tv[0] == token_view(tokens@[0]));
                assert(inner_of(tv[1]) == cv);
            }
            (r, 2)
        },
        None => {
            let id = fresh_id(next_id);
            let (v, n) = parse_terminated_value(tokens, id, span);
            proof {
                reveal(value_extent);
            }
            (Rc::new(Expr::ValueExpr(Rc::new(v))), n)
        },
    }
}

/// Copies a token stream.
fn copy_prefix_all(v: &Vec<TokenTree>) -> (r: Vec<TokenTree>)
    ensures
        tokens_view(r@) == tokens_view(v@),
{
    crate::token::copy_tokens(v)
}

/// Whether a token is a parenthesized group.
pub open spec fn paren_token(t: TokenView) -> bool {
    t matches TokenView::Group(Delimiter::Parenthesis, _, _)
}

/// The first token of a stream weighs no more than the stream.
pub proof fn lemma_first_lighter(s: Seq<TokenView>)
    requires
        s.len() > 0,
    ensures
        token_weight(s[0]) <= tokens_weight(s),
{
    lemma_weight_upto_bound(s, s.len() as int, 0);
}

/// Dropping tokens from the front of a stream makes it lighter.
pub proof fn lemma_skip_lighter(s: Seq<TokenView>, k: int)
    requires
        1 <= k <= s.len(),
    ensures
        tokens_weight(s.skip(k)) < tokens_weight(s),
{
    lemma_weight_concat(s.take(k), s.skip(k));
    assert(s.take(k) + s.skip(k) =~= s);
    lemma_first_lighter(s.take(k));
    assert(s.take(k)[0] == s[0]);
    assert(token_weight(s[0]) >= 1);
}

/// How many tokens one item of a comma-separated list takes from the start of
/// `s`, or -1 when it cannot be read. Items of `mode` 0 are expressions
/// (arguments); of mode 1, a parenthesized group that must read as a tuple,
/// or else an expression (tuple elements); of mode 2, a parenthesized group
/// that reads as a tuple, or else an expression (the values of a loop).
pub open spec fn item_extent(mode: int, s: Seq<TokenView>, funcs: Seq<Seq<char>>) -> int
    decreases tokens_weight(s), 1int,
{
    if mode != 0 && s.len() > 0 && paren_token(s[0]) {
        proof {
            lemma_first_lighter(s);
        }
        if tuple_ok(s[0], funcs) {
            1
        } else if mode == 1 {
            -1
        } else {
            expr_extent(s, funcs)
        }
    } else {
        expr_extent(s, funcs)
    }
}

/// Whether `s` is a comma-separated list of items of `mode`, a trailing
/// comma allowed.
pub open spec fn list_ok(mode: int, s: Seq<TokenView>, funcs: Seq<Seq<char>>) -> bool
    decreases tokens_weight(s), 2int,
{
    if s.len() == 0 {
        true
    } else {
        let n = item_extent(mode, s, funcs);
        if 0 <= n < s.len() && comma_token(s[n]) {
            proof {
                lemma_skip_lighter(s, n + 1);
            }
            list_ok(mode, s.skip(n + 1), funcs)
        } else {
            0 <= n && n == s.len()
        }
    }
}

/// The number of items of a list that [`list_ok`] accepts.
pub open spec fn list_count(mode: int, s: Seq<TokenView>, funcs: Seq<Seq<char>>) -> int
    decreases tokens_weight(s),
{
    if s.len() == 0 {
        0
    } else {
        let n = item_extent(mode, s, funcs);
        if 0 <= n < s.len() && comma_token(s[n]) {
            proof {
                lemma_skip_lighter(s, n + 1);
            }
            1 + list_count(mode, s.skip(n + 1), funcs)
        } else {
            1
        }
    }
}

/// Whether a token is a parenthesized group whose contents read as a tuple:
/// a comma-separated list of nested tuples and expressions.
pub open spec fn tuple_ok(g: TokenView, funcs: Seq<Seq<char>>) -> bool
    decreases token_weight(g), 0int,
{
    match g {
        TokenView::Group(Delimiter::Parenthesis, inner, _) => list_ok(1, inner, funcs),
        _ => false,
    }
}

/// An element of a tuple, or a value of a loop: an expression, or a nested
/// tuple.
#[derive(Debug)]
pub enum TupleItem {
    Single(Rc<Expr>),
    Tuple(Vec<TupleItem>),
}

/// Whether `v` is the value read from the start of `tv`: the tokens of its
/// kept reading (see [`parse_terminated_value`]), or else those up to the
/// first comma, with their printed text, and the kind that the reading gives.
pub open spec fn value_read(v: Value, tv: Seq<TokenView>, span: proc_macro2::Span) -> bool {
    let n = value_extent(tv);
    &&& tokens_view(v.tokens@) == tv.take(n)
    &&& v.text@ == printed(tv.take(n))
    &&& v.span == span
    &&& match chosen_reading(readings(tv)) {
        Some(k) => kind_of_reading(k, v.kind, printed(tv.take(n))),
        None => v.kind matches ValueKind::Tokens(s) && s@ == printed(tv.take(n)),
    }
}

/// Whether `e` is the expression read from the start of `s`. A call of one of
/// `funcs` is written with its name: its arguments are those read from the
/// group's contents as a list of `mode` 0 when it reads as one, and none
/// otherwise, and the group's contents are kept as a raw value. Anything else
/// is a value.
pub open spec fn expr_read(e: Expr, s: Seq<TokenView>, funcs: Seq<Seq<char>>, span: proc_macro2::Span) -> bool
    decreases tokens_weight(s), 0int,
{
    if call_start(s, funcs) {
        let inner = inner_of(s[1]);
        proof {
            lemma_weight_upto_bound(s, s.len() as int, 1);
        }
        &&& e matches Expr::FuncCallExpr(c)
        &&& c.name@ == ident_name(s[0])
        &&& (s[0] matches TokenView::Ident(_, sp) && c.span == sp)
        &&& c.text@ == printed(s.take(2))
        &&& (c.tokens matches Some(raw) && (*raw matches Expr::ValueExpr(v) && tokens_view(v.tokens@) == inner
            && v.text@ == printed(inner) && v.span == span && (v.kind matches ValueKind::Raw(t) && t@ == printed(
            inner,
        ))))
        &&& if list_ok(0, inner, funcs) {
            list_read(0, c.args@.map_values(|a: Rc<Expr>| TupleItem::Single(a)), inner, funcs, span)
        } else {
            c.args@.len() == 0
        }
    } else {
        e matches Expr::ValueExpr(v) && value_read(*v, s, span)
    }
}

/// Whether `it` is the item of a list of `mode` (see [`item_extent`]) read
/// from the start of `s`.
pub open spec fn item_read(
    mode: int,
    it: TupleItem,
    s: Seq<TokenView>,
    funcs: Seq<Seq<char>>,
    span: proc_macro2::Span,
) -> bool
    decreases tokens_weight(s), 1int,
{
    if mode != 0 && s.len() > 0 && paren_token(s[0]) && tuple_ok(s[0], funcs) {
        proof {
            lemma_first_lighter(s);
        }
        it matches TupleItem::Tuple(items) && list_read(1, items@, inner_of(s[0]), funcs, span)
    } else {
        it matches TupleItem::Single(e) && expr_read(*e, s, funcs, span)
    }
}

/// Whether `items` are the items of the list of `mode` that is all of `s`.
pub open spec fn list_read(
    mode: int,
    items: Seq<TupleItem>,
    s: Seq<TokenView>,
    funcs: Seq<Seq<char>>,
    span: proc_macro2::Span,
) -> bool
    decreases tokens_weight(s), 2int,
{
    if s.len() == 0 {
        items.len() == 0
    } else {
        let n = item_extent(mode, s, funcs);
        if 0 <= n < s.len() && comma_token(s[n]) {
            proof {
                lemma_skip_lighter(s, n + 1);
            }
            &&& items.len() > 0
            &&& item_read(mode, items[0], s, funcs, span)
            &&& list_read(mode, items.skip(1), s.skip(n + 1), funcs, span)
        } else {
            items.len() == 1 && item_read(mode, items[0], s, funcs, span)
        }
    }
}

/// Copies the tokens of `s` from position `i` on.
fn copy_suffix(s: &Vec<TokenTree>, i: usize) -> (r: Vec<TokenTree>)
    requires
        i <= s@.len(),
    ensures
        tokens_view(r@) == tokens_view(s@).skip(i as int),
{
    let mut out: Vec<TokenTree> = Vec::new();
    let mut k: usize = i;
    while k < s.len()
        invariant
            i <= k <= s@.len(),
            out@.len() == k - i,
            forall|m: int| 0 <= m < out@.len() ==> token_view(#[trigger] out@[m]) == token_view(s@[i + m]),
        decreases s.len() - k,
    {
        out.push(copy_token(&s[k]));
        k = k + 1;
    }
    proof {
        lemma_tokens_view(out@);
        lemma_tokens_view(s@);
        assert(tokens_view(out@) =~= tokens_view(s@).skip(i as int));
    }
    out
}

/// Reads one item of a list of `mode` (see [`item_extent`]) from the start of
/// `s`: the item and the number of tokens it took, or `None` when it cannot
/// be read.
fn parse_item(
    mode: u8,
    s: &Vec<TokenTree>,
    funcs: &Vec<String>,
    next_id: &mut u64,
    span: proc_macro2::Span,
) -> (r: Option<(TupleItem, usize)>)
    requires
        mode <= 2,
    ensures
        match r {
            Some((item, n)) => n as int == item_extent(mode as int, tokens_view(s@), names_view(funcs@)) && (mode
                == 0 ==> item is Single) && item_read(mode as int, item, tokens_view(s@), names_view(funcs@), span),
            None => item_extent(mode as int, tokens_view(s@), names_view(funcs@)) == -1,
        },
    decreases tokens_weight(tokens_view(s@)), 1int,
{
    let ghost tv = tokens_view(s@);
    proof {
        lemma_tokens_view(s@);
    }
    if mode != 0 && s.len() > 0 {
        if let TokenTree::Group(Delimiter::Parenthesis, inner, _) = &s[0] {
            proof {
                assert(tv[0] == token_view(s@[0]));
                lemma_first_lighter(tv);
                assert(tokens_view(inner@) == inner_of(tv[0]));
            }
            match parse_list(1, inner, funcs, next_id, span) {
                Some(items) => {
                    return Some((TupleItem::Tuple(items), 1));
                },
                None => {
                    if mode == 1 {
                        return None;
                    }
                },
            }
        }
    }
    let (e, n) = parse_expr(s, funcs, next_id, span);
    Some((TupleItem::Single(e), n))
}

/// Reads a comma-separated list of items of `mode` that takes all of `s`, a
/// trailing comma allowed; `None` when `s` is no such list.
fn parse_list(
    mode: u8,
    s: &Vec<TokenTree>,
    funcs: &Vec<String>,
    next_id: &mut u64,
    span: proc_macro2::Span,
) -> (r: Option<Vec<TupleItem>>)
    requires
        mode <= 2,
    ensures
        r is Some <==> list_ok(mode as int, tokens_view(s@), names_view(funcs@)),
        r matches Some(v) ==> v@.len() == list_count(mode as int, tokens_view(s@), names_view(funcs@)),
        r matches Some(v) ==> list_read(mode as int, v@, tokens_view(s@), names_view(funcs@), span),
        r matches Some(v) ==> (mode == 0 ==> forall|q: int| 0 <= q < v@.len() ==> #[trigger] v@[q] is Single),
    decreases tokens_weight(tokens_view(s@)), 2int,
{
    let ghost tv = tokens_view(s@);
    let ghost names = names_view(funcs@);
    proof {
        lemma_tokens_view(s@);
    }
    if s.len() == 0 {
        return Some(Vec::new());
    }
    match parse_item(mode, s, funcs, next_id, span) {
        None => None,
        Some((item, n)) => {
            if n < s.len() && s[n].is_comma() {
                proof {
                    assert(tv[n as int] == token_view(s@[n as int]));
                    lemma_skip_lighter(tv, n + 1);
                }
                let rest = copy_suffix(s, n + 1);
                match parse_list(mode, &rest, funcs, next_id, span) {
                    None => None,
                    Some(mut v) => {
                        let ghost tail = v@;
                        v.insert(0, item);
                        proof {
                            assert(v@.skip(1) =~= tail);
                            if mode == 0 {
                                assert forall|q: int| 0 <= q < v@.len() implies #[trigger] v@[q] is Single by {
                                    if q > 0 {
                                        assert(v@[q] == tail[q - 1]);
                                    }
                                }
                            }
                        }
                        Some(v)
                    },
                }
            } else if n == s.len() {
                let mut v: Vec<TupleItem> = Vec::new();
                v.push(item);
                Some(v)
            } else {
                proof {
                    if n < s.len() {
                        assert(tv[n as int] == token_view(s@[n as int]));
                    }
                }
                None
            }
        },
    }
}

/// Whether `syn` reads all of `text` as a block.
pub uninterp spec fn block_syntax(text: Seq<char>) -> bool;

/// Trusted: `syn::parse_str::<syn::Block>`, which succeeds exactly when the
/// whole text is a brace-delimited block of statements; the result tells
/// whether it did.
#[verifier::external_body]
fn block_reads(text: &String) -> (r: bool)
    ensures
        r == block_syntax(text@),
{
    syn::parse_str::<syn::Block>(text).is_ok()
}

/// Whether a token is the identifier `kw`.
pub open spec fn keyword_token(t: TokenView, kw: Seq<char>) -> bool {
    t matches TokenView::Ident(name, _) && name == kw
}

/// Whether a token is an identifier that can name an alias (no keyword).
pub open spec fn alias_token(t: TokenView) -> bool {
    t matches TokenView::Ident(name, _) && ident_syntax(name)
}

/// Whether a token is the punctuation character `c`.
pub open spec fn punct_token(t: TokenView, c: char) -> bool {
    t matches TokenView::Punct(p, _, _) && p == c
}

/// Whether a token is a block: a brace group that reads as statements.
pub open spec fn block_token(t: TokenView) -> bool {
    &&& t matches TokenView::Group(Delimiter::Brace, _, _)
    &&& block_syntax(printed(seq![t]))
}

/// Whether a token is the alias of a loop: an alias name, or a parenthesized
/// tuple of loop aliases separated by commas, a trailing comma allowed.
pub open spec fn loop_alias_ok(t: TokenView) -> bool
    decreases t,
{
    match t {
        TokenView::Ident(name, _) => ident_syntax(name),
        TokenView::Group(Delimiter::Parenthesis, inner, _) => forall|k: int|
            0 <= k < inner.len() ==> if k % 2 == 0 {
                loop_alias_ok(#[trigger] inner[k])
            } else {
                comma_token(inner[k])
            },
        _ => false,
    }
}

/// Whether a loop starts at position `i`: `for`, a loop alias, `in`, and a
/// bracketed list of values (tuples or expressions).
pub open spec fn loop_item_ok(tv: Seq<TokenView>, i: int, funcs: Seq<Seq<char>>) -> bool {
    &&& 0 <= i && i + 3 < tv.len()
    &&& keyword_token(tv[i], seq!['f', 'o', 'r'])
    &&& loop_alias_ok(tv[i + 1])
    &&& keyword_token(tv[i + 2], seq!['i', 'n'])
    &&& tv[i + 3] matches TokenView::Group(Delimiter::Bracket, _, _)
    &&& list_ok(2, inner_of(tv[i + 3]), funcs)
}

/// Where the loops starting at position `i` end, or -1 when one of them
/// does not read.
pub open spec fn loops_end(tv: Seq<TokenView>, i: int, funcs: Seq<Seq<char>>) -> int
    decreases tv.len() - i,
{
    if 0 <= i < tv.len() && keyword_token(tv[i], seq!['f', 'o', 'r']) {
        if loop_item_ok(tv, i, funcs) {
            loops_end(tv, i + 4, funcs)
        } else {
            -1
        }
    } else {
        i
    }
}

/// What reading an alias specification from position `p` finds: where it
/// ends (-1 when it does not read, -2 when it mixes separators), the
/// separator it uses (`true` for `,`), the aliases it defines, and where the
/// expression of each of them starts.
pub struct SpecScan {
    pub end: int,
    pub sep: Option<bool>,
    pub aliases: Seq<Seq<char>>,
    pub starts: Seq<int>,
}

/// Reads `alias = expression` items from position `p`, each ended by `,` or
/// `;` or by the end of the input, while an alias name follows; `used` is the
/// separator of the items before.
pub open spec fn spec_scan(tv: Seq<TokenView>, p: int, used: Option<bool>, funcs: Seq<Seq<char>>) -> SpecScan
    decreases tv.len() - p,
{
    if !(0 <= p && p + 1 < tv.len() && alias_token(tv[p]) && punct_token(tv[p + 1], '=')) {
        SpecScan { end: -1, sep: used, aliases: Seq::empty(), starts: Seq::empty() }
    } else {
        let q = p + 2 + expr_extent(tv.skip(p + 2), funcs);
        if q == tv.len() {
            SpecScan { end: q, sep: used, aliases: seq![ident_name(tv[p])], starts: seq![p + 2] }
        } else if !(p + 2 <= q < tv.len() && (punct_token(tv[q], ',') || punct_token(tv[q], ';'))) {
            SpecScan { end: -1, sep: used, aliases: Seq::empty(), starts: Seq::empty() }
        } else {
            let sep = punct_token(tv[q], ',');
            if used matches Some(u) && u != sep {
                SpecScan { end: -2, sep: used, aliases: Seq::empty(), starts: Seq::empty() }
            } else if q + 1 < tv.len() && alias_token(tv[q + 1]) {
                let rest = spec_scan(tv, q + 1, Some(sep), funcs);
                SpecScan {
                    end: rest.end,
                    sep: rest.sep,
                    aliases: seq![ident_name(tv[p])] + rest.aliases,
                    starts: seq![p + 2] + rest.starts,
                }
            } else {
                SpecScan { end: q + 1, sep: Some(sep), aliases: seq![ident_name(tv[p])], starts: seq![p + 2] }
            }
        }
    }
}

/// Once a separator is in use, reading goes on with one.
proof fn lemma_scan_keeps_sep(tv: Seq<TokenView>, p: int, used: bool, funcs: Seq<Seq<char>>)
    ensures
        spec_scan(tv, p, Some(used), funcs).sep is Some,
    decreases tv.len() - p,
{
    if 0 <= p && p + 1 < tv.len() && alias_token(tv[p]) && punct_token(tv[p + 1], '=') {
        let q = p + 2 + expr_extent(tv.skip(p + 2), funcs);
        if q != tv.len() && p + 2 <= q < tv.len() && (punct_token(tv[q], ',') || punct_token(tv[q], ';')) {
            let sep = punct_token(tv[q], ',');
            if q + 1 < tv.len() && alias_token(tv[q + 1]) {
                lemma_scan_keeps_sep(tv, q + 1, sep, funcs);
            }
        }
    }
}

/// An alias specification that ends before the input does has a separator.
proof fn lemma_scan_sep(tv: Seq<TokenView>, p: int, funcs: Seq<Seq<char>>)
    requires
        0 <= spec_scan(tv, p, None, funcs).end < tv.len(),
    ensures
        spec_scan(tv, p, None, funcs).sep is Some,
{
    let q = p + 2 + expr_extent(tv.skip(p + 2), funcs);
    if q + 1 < tv.len() && alias_token(tv[q + 1]) {
        lemma_scan_keeps_sep(tv, q + 1, punct_token(tv[q], ','), funcs);
    }
}

/// The message of the error for mixed separators.
pub open spec fn mixing_message() -> Seq<char> {
    "Mixing \",\" and \";\" as separators is not allowed"@
}

/// The outcome of reading the macro's input.
pub enum RawForm {
    /// The input reads: where the loops end, what the alias specification
    /// reads as (if there is one), where the block stands, and the trailing
    /// separator (`true` for `,`).
    Accepted { loops_end: int, spec: Option<SpecScan>, block: int, trailing: Option<bool> },
    /// The separators of the alias specification, or its trailing one, differ.
    Mixing,
    /// The input does not read.
    Invalid,
}

/// How the macro's input reads: optional loops, an optional alias
/// specification, a block, and an optional `,` or `;`, with nothing after.
pub open spec fn raw_form(tv: Seq<TokenView>, funcs: Seq<Seq<char>>) -> RawForm {
    let le = loops_end(tv, 0, funcs);
    if le < 0 {
        RawForm::Invalid
    } else {
        let spec = if le < tv.len() && alias_token(tv[le]) {
            Some(spec_scan(tv, le, None, funcs))
        } else {
            None
        };
        let b = match spec {
            Some(sc) => sc.end,
            None => le,
        };
        if b == -2 {
            RawForm::Mixing
        } else if !(0 <= b < tv.len() && block_token(tv[b])) {
            RawForm::Invalid
        } else if b + 1 == tv.len() {
            RawForm::Accepted { loops_end: le, spec, block: b, trailing: None }
        } else if punct_token(tv[b + 1], ',') || punct_token(tv[b + 1], ';') {
            let t = punct_token(tv[b + 1], ',');
            if spec matches Some(sc) && sc.sep != Some(t) {
                RawForm::Mixing
            } else if b + 2 == tv.len() {
                RawForm::Accepted { loops_end: le, spec, block: b, trailing: Some(t) }
            } else {
                RawForm::Invalid
            }
        } else {
            RawForm::Invalid
        }
    }
}

/// The alias of a loop: a name, or a tuple of aliases.
#[derive(Debug)]
pub enum LoopAlias {
    Name(String),
    Tuple(Vec<LoopAlias>),
}

/// The mathematical content of a [`LoopAlias`].
pub enum LoopAliasView {
    Name(Seq<char>),
    Tuple(Seq<LoopAliasView>),
}

/// The view of a loop alias.
pub open spec fn alias_view(a: LoopAlias) -> LoopAliasView
    decreases a, 0int,
{
    match a {
        LoopAlias::Name(s) => LoopAliasView::Name(s@),
        LoopAlias::Tuple(parts) => LoopAliasView::Tuple(alias_views_upto(parts@, parts@.len() as int)),
    }
}

/// The views of the first `n` aliases of `s`.
pub open spec fn alias_views_upto(s: Seq<LoopAlias>, n: int) -> Seq<LoopAliasView>
    decreases s, n,
{
    if n <= 0 || n > s.len() {
        Seq::empty()
    } else {
        alias_views_upto(s, n - 1).push(alias_view(s[n - 1]))
    }
}

/// The alias that a token stands for: a name for an identifier, and for a
/// parenthesized group the tuple of the aliases at its even positions (the
/// odd ones hold the commas).
pub open spec fn loop_alias_of(t: TokenView) -> LoopAliasView
    decreases t, 0int,
{
    match t {
        TokenView::Ident(name, _) => LoopAliasView::Name(name),
        TokenView::Group(Delimiter::Parenthesis, inner, _) => LoopAliasView::Tuple(
            even_aliases_upto(inner, (inner.len() as int + 1) / 2),
        ),
        _ => LoopAliasView::Tuple(Seq::empty()),
    }
}

/// The aliases at positions `0, 2, ..., 2 * (n - 1)` of `s`.
pub open spec fn even_aliases_upto(s: Seq<TokenView>, n: int) -> Seq<LoopAliasView>
    decreases s, n,
{
    if n <= 0 || 2 * (n - 1) >= s.len() {
        Seq::empty()
    } else {
        even_aliases_upto(s, n - 1).push(loop_alias_of(s[2 * (n - 1)]))
    }
}

proof fn lemma_alias_views_upto(s: Seq<LoopAlias>, n: int)
    requires
        0 <= n <= s.len(),
    ensures
        alias_views_upto(s, n).len() == n,
        forall|j: int| 0 <= j < n ==> #[trigger] alias_views_upto(s, n)[j] == alias_view(s[j]),
    decreases n,
{
    if n > 0 {
        lemma_alias_views_upto(s, n - 1);
    }
}

proof fn lemma_even_aliases_upto(s: Seq<TokenView>, n: int)
    requires
        0 <= n,
        2 * (n - 1) < s.len(),
    ensures
        even_aliases_upto(s, n).len() == n,
        forall|j: int| 0 <= j < n ==> #[trigger] even_aliases_upto(s, n)[j] == loop_alias_of(s[2 * j]),
    decreases n,
{
    if n > 0 {
        lemma_even_aliases_upto(s, n - 1);
    }
}

/// One loop: its alias and the values it takes.
#[derive(Debug)]
pub struct LoopSpecItem {
    pub alias: LoopAlias,
    pub values: Vec<TupleItem>,
}

/// The macro's input, read: its loops, its alias specification, the block,
/// and the trailing separator (`true` for `,`).
#[derive(Debug)]
pub struct RawAst {
    pub loops: Vec<LoopSpecItem>,
    pub spec: Option<AliasSpec>,
    pub block: TokenTree,
    pub trailing: Option<bool>,
}

/// Whether `t` is the identifier `word`.
fn is_keyword(t: &TokenTree, word: &str) -> (r: bool)
    ensures
        r == keyword_token(token_view(*t), word@),
{
    match t {
        TokenTree::Ident(name, sp) => {
            let n = name.as_str().unicode_len();
            let m = word.unicode_len();
            if n != m {
                return false;
            }
            let mut i: usize = 0;
            while i < n
                invariant
                    n == name@.len(),
                    m == word@.len(),
                    n == m,
                    i <= n,
                    *t == TokenTree::Ident(*name, *sp),
                    forall|k: int| 0 <= k < i ==> name@[k] == word@[k],
                decreases n - i,
            {
                if name.as_str().get_char(i) != word.get_char(i) {
                    proof {
                        assert(name@[i as int] != word@[i as int]);
                        assert(name@ != word@);
                    }
                    return false;
                }
                i = i + 1;
            }
            proof {
                assert(name@ =~= word@);
            }
            true
        },
        _ => false,
    }
}

/// Whether `t` can name an alias.
fn is_alias_token(t: &TokenTree) -> (r: bool)
    ensures
        r == alias_token(token_view(*t)),
{
    match t {
        TokenTree::Ident(name, _) => ident_reads(name),
        _ => false,
    }
}

/// Whether `t` is the punctuation character `c`.
fn is_punct(t: &TokenTree, c: char) -> (r: bool)
    ensures
        r == punct_token(token_view(*t), c),
{
    match t {
        TokenTree::Punct(p, _, _) => *p == c,
        _ => false,
    }
}

/// Reads the alias of a loop from one token.
pub fn parse_loop_alias(t: &TokenTree) -> (r: Option<LoopAlias>)
    ensures
        r is Some <==> loop_alias_ok(token_view(*t)),
        r matches Some(a) ==> alias_view(a) == loop_alias_of(token_view(*t)),
    decreases token_weight(token_view(*t)),
{
    match t {
        TokenTree::Ident(name, _) => {
            if ident_reads(name) {
                Some(LoopAlias::Name(name.clone()))
            } else {
                None
            }
        },
        TokenTree::Group(Delimiter::Parenthesis, inner, sp) => {
            let ghost iv = tokens_view(inner@);
            proof {
                lemma_tokens_view(inner@);
            }
            let mut parts: Vec<LoopAlias> = Vec::new();
            let mut k: usize = 0;
            while k < inner.len()
                invariant
                    k <= inner@.len(),
                    *t == TokenTree::Group(Delimiter::Parenthesis, *inner, *sp),
                    iv == tokens_view(inner@),
                    iv.len() == inner@.len(),
                    forall|j: int| 0 <= j < inner@.len() ==> #[trigger] iv[j] == token_view(inner@[j]),
                    forall|j: int| 0 <= j < k ==> if j % 2 == 0 {
                        loop_alias_ok(#[trigger] iv[j])
                    } else {
                        comma_token(iv[j])
                    },
                    parts@.len() == (k + 1) / 2,
                    forall|j: int| 0 <= j < parts@.len() ==> alias_view(#[trigger] parts@[j]) == loop_alias_of(iv[2 * j]),
                decreases inner.len() - k,
            {
                if k % 2 == 0 {
                    proof {
                        lemma_inner_lighter(Delimiter::Parenthesis, iv, *sp, k as int);
                    }
                    match parse_loop_alias(&inner[k]) {
                        Some(a) => parts.push(a),
                        None => {
                            proof {
                                assert(!loop_alias_ok(iv[k as int]));
                                assert(token_view(*t) == TokenView::Group(Delimiter::Parenthesis, iv, *sp));
                            }
                            return None;
                        },
                    }
                } else if !inner[k].is_comma() {
                    proof {
                        assert(!comma_token(iv[k as int]));
                        assert(token_view(*t) == TokenView::Group(Delimiter::Parenthesis, iv, *sp));
                    }
                    return None;
                }
                k = k + 1;
            }
            proof {
                let n = (iv.len() as int + 1) / 2;
                lemma_alias_views_upto(parts@, parts@.len() as int);
                lemma_even_aliases_upto(iv, n);
                assert(alias_views_upto(parts@, parts@.len() as int) =~= even_aliases_upto(iv, n));
                assert(token_view(*t) == TokenView::Group(Delimiter::Parenthesis, iv, *sp));
            }
            Some(LoopAlias::Tuple(parts))
        },
        _ => None,
    }
}

/// Whether `loops` are the loops read from the start of `tv`: loop `k` takes
/// the positions `4 * k` to `4 * k + 3`, its alias is the one that position
/// `4 * k + 1` stands for, and its values are the list of `mode` 2 read from
/// the contents of the bracketed group at position `4 * k + 3`.
pub open spec fn loops_read(
    loops: Seq<LoopSpecItem>,
    tv: Seq<TokenView>,
    funcs: Seq<Seq<char>>,
    span: proc_macro2::Span,
) -> bool {
    forall|k: int|
        #![trigger loops[k]]
        0 <= k < loops.len() ==> alias_view(loops[k].alias) == loop_alias_of(tv[4 * k + 1]) && list_read(
            2,
            loops[k].values@,
            inner_of(tv[4 * k + 3]),
            funcs,
            span,
        )
}

/// Reads the loops at the start of `tokens`: the loops and where they end,
/// or `None` when one of them does not read.
pub fn parse_loops(
    tokens: &Vec<TokenTree>,
    funcs: &Vec<String>,
    next_id: &mut u64,
    span: proc_macro2::Span,
) -> (r: Option<(Vec<LoopSpecItem>, usize)>)
    ensures
        match r {
            Some((v, e)) => e as int == loops_end(tokens_view(tokens@), 0, names_view(funcs@)) && e == 4 * v@.len()
                && e <= tokens@.len() && loops_read(v@, tokens_view(tokens@), names_view(funcs@), span),
            None => loops_end(tokens_view(tokens@), 0, names_view(funcs@)) == -1,
        },
{
    let ghost tv = tokens_view(tokens@);
    let ghost names = names_view(funcs@);
    proof {
        lemma_tokens_view(tokens@);
    }
    let mut loops: Vec<LoopSpecItem> = Vec::new();
    let mut i: usize = 0;
    while i < tokens.len() && is_keyword(&tokens[i], "for")
        invariant
            i <= tokens@.len(),
            tv == tokens_view(tokens@),
            names == names_view(funcs@),
            tv.len() == tokens@.len(),
            forall|m: int| 0 <= m < tokens@.len() ==> #[trigger] tv[m] == token_view(tokens@[m]),
            loops_end(tv, 0, names) == loops_end(tv, i as int, names),
            i == 4 * loops@.len(),
            loops_read(loops@, tv, names, span),
        decreases tokens.len() - i,
    {
        proof {
            reveal_strlit("for");
            reveal_strlit("in");
            assert("for"@ =~= seq!['f', 'o', 'r']);
            assert("in"@ =~= seq!['i', 'n']);
            assert(keyword_token(tv[i as int], seq!['f', 'o', 'r']));
            assert(loops_end(tv, i as int, names) == if loop_item_ok(tv, i as int, names) {
                loops_end(tv, i + 4, names)
            } else {
                -1
            });
        }
        if i + 3 >= tokens.len() {
            return None;
        }
        let alias = match parse_loop_alias(&tokens[i + 1]) {
            Some(a) => a,
            None => {
                return None;
            },
        };
        if !is_keyword(&tokens[i + 2], "in") {
            return None;
        }
        let values = match &tokens[i + 3] {
            TokenTree::Group(Delimiter::Bracket, inner, _) => {
                proof {
                    assert(tokens_view(inner@) == inner_of(tv[i + 3]));
                }
                match parse_list(2, inner, funcs, next_id, span) {
                    Some(v) => v,
                    None => {
                        return None;
                    },
                }
            },
            _ => {
                return None;
            },
        };
        let ghost before = loops@;
        proof {
            assert(tv[i + 1] == token_view(tokens@[i + 1]));
        }
        loops.push(LoopSpecItem { alias, values });
        proof {
            assert forall|k: int| #![trigger loops@[k]] 0 <= k < loops@.len() implies alias_view(loops@[k].alias)
                == loop_alias_of(tv[4 * k + 1]) && list_read(2, loops@[k].values@, inner_of(tv[4 * k + 3]), names, span) by {
                if k < before.len() {
                    assert(loops@[k] == before[k]);
                }
            }
        }
        i = i + 4;
    }
    proof {
        reveal_strlit("for");
        assert("for"@ =~= seq!['f', 'o', 'r']);
        if i < tokens@.len() {
            assert(!keyword_token(tv[i as int], seq!['f', 'o', 'r']));
        }
    }
    Some((loops, i))
}

/// The names of the aliases that items define.
pub open spec fn item_names(items: Seq<Rc<AliasSpecItem>>) -> Seq<Seq<char>> {
    items.map_values(|it: Rc<AliasSpecItem>| it.alias@)
}

/// Whether `items` are the items that `sc` describes: they define its
/// aliases, in order, each bound to the expression read where `sc` says that
/// the item's expression starts.
pub open spec fn items_read(
    items: Seq<Rc<AliasSpecItem>>,
    sc: SpecScan,
    tv: Seq<TokenView>,
    funcs: Seq<Seq<char>>,
    span: proc_macro2::Span,
) -> bool {
    &&& sc.aliases == item_names(items)
    &&& sc.starts.len() == items.len()
    &&& forall|k: int| #![trigger items[k]] 0 <= k < items.len() ==> expr_read(*items[k].expr, tv.skip(sc.starts[k]), funcs, span)
}

/// Reads an alias specification from position `p`: its items, where it ends,
/// and its separator (`true` for `,`; none when its only item ends the
/// input). The error tells whether the separators were mixed.
pub fn parse_alias_spec(
    tokens: &Vec<TokenTree>,
    p: usize,
    funcs: &Vec<String>,
    next_id: &mut u64,
    span: proc_macro2::Span,
) -> (r: Result<(Vec<Rc<AliasSpecItem>>, usize, Option<bool>), bool>)
    requires
        p <= tokens@.len(),
    ensures
        ({
            let sc = spec_scan(tokens_view(tokens@), p as int, None, names_view(funcs@));
            match r {
                Ok((items, e, sep)) => sc.end == e && e <= tokens@.len() && sc.sep == sep && items_read(
                    items@,
                    sc,
                    tokens_view(tokens@),
                    names_view(funcs@),
                    span,
                ),
                Err(mixed) => sc.end == (if mixed { -2int } else { -1int }),
            }
        }),
{
    let ghost tv = tokens_view(tokens@);
    let ghost names = names_view(funcs@);
    let ghost p0 = p as int;
    let mut pos: usize = p;
    proof {
        lemma_tokens_view(tokens@);
    }
    let mut items: Vec<Rc<AliasSpecItem>> = Vec::new();
    let mut used: Option<bool> = None;
    let ghost mut done_starts: Seq<int> = Seq::empty();
    proof {
        assert(item_names(items@) =~= Seq::<Seq<char>>::empty());
    }
    loop
        invariant
            tv == tokens_view(tokens@),
            names == names_view(funcs@),
            tv.len() == tokens@.len(),
            pos <= tokens@.len(),
            p0 == p as int,
            forall|m: int| 0 <= m < tokens@.len() ==> #[trigger] tv[m] == token_view(tokens@[m]),
            spec_scan(tv, p0, None, names).end == spec_scan(tv, pos as int, used, names).end,
            spec_scan(tv, p0, None, names).sep == spec_scan(tv, pos as int, used, names).sep,
            spec_scan(tv, pos as int, used, names).end >= 0 ==> spec_scan(tv, p0, None, names).aliases == item_names(
                items@,
            ) + spec_scan(tv, pos as int, used, names).aliases,
            spec_scan(tv, pos as int, used, names).end >= 0 ==> spec_scan(tv, p0, None, names).starts == done_starts
                + spec_scan(tv, pos as int, used, names).starts,
            done_starts.len() == items@.len(),
            forall|k: int| #![trigger items@[k]] 0 <= k < items@.len() ==> expr_read(
                *items@[k].expr,
                tv.skip(done_starts[k]),
                names,
                span,
            ),
        decreases tokens.len() - pos,
    {
        let ghost cur = spec_scan(tv, pos as int, used, names);
        if !(pos < tokens.len() && pos + 1 < tokens.len() && is_alias_token(&tokens[pos]) && is_punct(&tokens[pos + 1], '=')) {
            proof {
                assert(cur.end == -1);
            }
            return Err(false);
        }
        let name = match &tokens[pos] {
            TokenTree::Ident(n, _) => n.clone(),
            _ => String::new(),
        };
        let rest = copy_suffix(tokens, pos + 2);
        let (expr, n) = parse_expr(&rest, funcs, next_id, span);
        proof {
            lemma_tokens_view(rest@);
        }
        proof {
            assert(tokens_view(rest@) == tv.skip(pos + 2));
            assert(n as int == expr_extent(tv.skip(pos + 2), names));
        }
        if n > tokens.len() - (pos + 2) {
            proof {
                assert(cur.end == -1);
            }
            return Err(false);
        }
        let q = pos + 2 + n;
        let at_end = q == tokens.len();
        if !(at_end || (is_punct(&tokens[q], ',') || is_punct(&tokens[q], ';'))) {
            proof {
                assert(cur.end == -1);
            }
            return Err(false);
        }
        if !at_end {
            let sep = is_punct(&tokens[q], ',');
            if let Some(u) = used {
                if u != sep {
                    proof {
                        assert(cur.end == -2);
                    }
                    return Err(true);
                }
            }
        }
        let id = fresh_id(next_id);
        let ghost before = items@;
        let ghost before_starts = done_starts;
        items.push(Rc::new(AliasSpecItem { id, alias: name, expr }));
        proof {
            assert(ident_name(tv[pos as int]) == items@.last().alias@);
            assert(item_names(items@) =~= item_names(before).push(ident_name(tv[pos as int])));
            done_starts = done_starts.push(pos + 2);
            assert forall|k: int| #![trigger items@[k]] 0 <= k < items@.len() implies expr_read(
                *items@[k].expr,
                tv.skip(done_starts[k]),
                names,
                span,
            ) by {
                if k < before.len() {
                    assert(items@[k] == before[k]);
                }
            }
        }
        if at_end {
            proof {
                assert(cur.end == q);
                assert(cur.sep == used);
                assert(item_names(before) + cur.aliases =~= item_names(items@));
                assert(before_starts + cur.starts =~= done_starts);
            }
            return Ok((items, q, used));
        }
        let sep = is_punct(&tokens[q], ',');
        if q + 1 < tokens.len() && is_alias_token(&tokens[q + 1]) {
            used = Some(sep);
            pos = q + 1;
            proof {
                let nxt = spec_scan(tv, pos as int, used, names);
                if nxt.end >= 0 {
                    assert(item_names(before) + cur.aliases =~= item_names(items@) + nxt.aliases);
                    assert(before_starts + cur.starts =~= done_starts + nxt.starts);
                }
            }
        } else {
            proof {
                assert(cur.end == q + 1);
                assert(cur.sep == Some(sep));
                assert(cur.aliases == seq![ident_name(tv[pos as int])]);
                assert(item_names(before) + cur.aliases =~= item_names(items@));
                assert(before_starts + cur.starts =~= done_starts);
            }
            return Ok((items, q + 1, Some(sep)));
        }
    }
}

/// The message of the error for an input that does not read.
pub open spec fn syntax_message() -> Seq<char> {
    "Expected optional loops, an optional alias specification and a block"@
}

/// Reads the macro's input: optional `for` loops, an optional alias
/// specification, a block, and an optional `,` or `;`, with nothing after.
/// A trailing separator must be the one the alias specification uses.
pub fn parse_raw_ast(
    tokens: &Vec<TokenTree>,
    funcs: &Vec<String>,
    next_id: &mut u64,
    span: proc_macro2::Span,
) -> (r: Result<RawAst, Error>)
    ensures
        ({
            let tv = tokens_view(tokens@);
            match raw_form(tv, names_view(funcs@)) {
                RawForm::Accepted { loops_end, spec, block, trailing } => r matches Ok(ast) && 4 * ast.loops@.len()
                    == loops_end && loops_read(ast.loops@, tv, names_view(funcs@), span) && token_view(ast.block)
                    == tv[block] && ast.trailing == trailing && match spec {
                    Some(sc) => ast.spec matches Some(s) && items_read(s.items@, sc, tv, names_view(funcs@), span),
                    None => ast.spec is None,
                },
                RawForm::Mixing => r matches Err(e) && e@ == ErrorView::Syntax(mixing_message(), span),
                RawForm::Invalid => r matches Err(e) && e@ == ErrorView::Syntax(syntax_message(), span),
            }
        }),
{
    let ghost tv = tokens_view(tokens@);
    let ghost names = names_view(funcs@);
    proof {
        lemma_tokens_view(tokens@);
        reveal_strlit("Mixing \",\" and \";\" as separators is not allowed");
        reveal_strlit("Expected optional loops, an optional alias specification and a block");
    }
    let len = tokens.len();
    let (loops, le) = match parse_loops(tokens, funcs, next_id, span) {
        Some(x) => x,
        None => {
            return Err(Error::SyntaxError(
                "Expected optional loops, an optional alias specification and a block".to_string(),
                span,
            ));
        },
    };
    let mut spec: Option<AliasSpec> = None;
    let mut sep_used: Option<bool> = None;
    let mut b = le;
    if le < len && is_alias_token(&tokens[le]) {
        match parse_alias_spec(tokens, le, funcs, next_id, span) {
            Ok((items, e, sep)) => {
                let id = fresh_id(next_id);
                spec = Some(AliasSpec { id, items });
                sep_used = sep;
                b = e;
                proof {
                    if e < len {
                        lemma_scan_sep(tv, le as int, names);
                    }
                }
            },
            Err(mixed) => {
                if mixed {
                    return Err(Error::SyntaxError("Mixing \",\" and \";\" as separators is not allowed".to_string(), span));
                }
                return Err(Error::SyntaxError(
                    "Expected optional loops, an optional alias specification and a block".to_string(),
                    span,
                ));
            },
        }
    }
    let is_block = b < len && match &tokens[b] {
        TokenTree::Group(Delimiter::Brace, _, _) => {
            let text = print_prefix_one(&tokens[b]);
            block_reads(&text)
        },
        _ => false,
    };
    if !is_block {
        return Err(Error::SyntaxError(
            "Expected optional loops, an optional alias specification and a block".to_string(),
            span,
        ));
    }
    let mut trailing: Option<bool> = None;
    if b + 1 < len {
        if is_punct(&tokens[b + 1], ',') || is_punct(&tokens[b + 1], ';') {
            let t = is_punct(&tokens[b + 1], ',');
            if let Some(u) = sep_used {
                if u != t {
                    return Err(Error::SyntaxError("Mixing \",\" and \";\" as separators is not allowed".to_string(), span));
                }
            }
            if b + 2 != len {
                return Err(Error::SyntaxError(
                    "Expected optional loops, an optional alias specification and a block".to_string(),
                    span,
                ));
            }
            trailing = Some(t);
        } else {
            return Err(Error::SyntaxError(
                "Expected optional loops, an optional alias specification and a block".to_string(),
                span,
            ));
        }
    }
    let block = copy_token(&tokens[b]);
    Ok(RawAst { loops, spec, block, trailing })
}

/// The outcome of reading the arguments of an item attribute.
pub enum ComposeForm {
    /// The arguments read: where the loops end, and what the alias
    /// specification reads as, if there is one.
    Accepted { loops_end: int, spec: Option<SpecScan> },
    /// Loops without an alias specification are followed by a separator.
    TrailingAfterLoops,
    /// The separators of the alias specification differ.
    Mixing,
    /// The arguments do not read.
    Invalid,
}

/// How the arguments of an item attribute read: optional loops and an
/// optional alias specification, which may be followed by one `,` or `;`,
/// with nothing after.
pub open spec fn compose_form(tv: Seq<TokenView>, funcs: Seq<Seq<char>>) -> ComposeForm {
    let le = loops_end(tv, 0, funcs);
    if le < 0 {
        ComposeForm::Invalid
    } else {
        let found = if le < tv.len() && alias_token(tv[le]) {
            Some(spec_scan(tv, le, None, funcs))
        } else {
            None
        };
        let b = match found {
            Some(sc) => sc.end,
            None => le,
        };
        if b == -2 {
            ComposeForm::Mixing
        } else if b < 0 {
            ComposeForm::Invalid
        } else if b == tv.len() {
            ComposeForm::Accepted { loops_end: le, spec: found }
        } else if punct_token(tv[b], ',') || punct_token(tv[b], ';') {
            if found is Some {
                if b + 1 == tv.len() {
                    ComposeForm::Accepted { loops_end: le, spec: found }
                } else {
                    ComposeForm::Invalid
                }
            } else if le > 0 {
                ComposeForm::TrailingAfterLoops
            } else {
                ComposeForm::Invalid
            }
        } else {
            ComposeForm::Invalid
        }
    }
}

/// The message of the error for a separator after loops alone.
pub open spec fn trailing_after_loops_message() -> Seq<char> {
    "Trailing separator after loops is not allowed in #[compose_item]."@
}

/// The message of the error for item attribute arguments that do not read.
pub open spec fn item_syntax_message() -> Seq<char> {
    "Expected optional loops and an optional alias specification"@
}

/// Reads the arguments of an item attribute: optional `for` loops and an
/// optional alias specification, which may be followed by one `,` or `;`.
/// Loops alone take no separator after them.
pub fn parse_compose_item_spec(
    tokens: &Vec<TokenTree>,
    funcs: &Vec<String>,
    next_id: &mut u64,
    span: proc_macro2::Span,
) -> (r: Result<(Vec<LoopSpecItem>, Option<AliasSpec>), Error>)
    ensures
        ({
            let tv = tokens_view(tokens@);
            match compose_form(tv, names_view(funcs@)) {
                ComposeForm::Accepted { loops_end, spec } => r matches Ok((loops, s)) && 4 * loops@.len() == loops_end
                    && loops_read(loops@, tv, names_view(funcs@), span) && match spec {
                    Some(sc) => s matches Some(a) && items_read(a.items@, sc, tv, names_view(funcs@), span),
                    None => s is None,
                },
                ComposeForm::TrailingAfterLoops => r matches Err(e) && e@ == ErrorView::Syntax(
                    trailing_after_loops_message(),
                    span,
                ),
                ComposeForm::Mixing => r matches Err(e) && e@ == ErrorView::Syntax(mixing_message(), span),
                ComposeForm::Invalid => r matches Err(e) && e@ == ErrorView::Syntax(item_syntax_message(), span),
            }
        }),
{
    let ghost tv = tokens_view(tokens@);
    let ghost names = names_view(funcs@);
    proof {
        lemma_tokens_view(tokens@);
        reveal_strlit("Mixing \",\" and \";\" as separators is not allowed");
        reveal_strlit("Trailing separator after loops is not allowed in #[compose_item].");
        reveal_strlit("Expected optional loops and an optional alias specification");
    }
    let len = tokens.len();
    let (loops, le) = match parse_loops(tokens, funcs, next_id, span) {
        Some(x) => x,
        None => {
            return Err(Error::SyntaxError("Expected optional loops and an optional alias specification".to_string(), span));
        },
    };
    let mut spec: Option<AliasSpec> = None;
    let mut b = le;
    if le < len && is_alias_token(&tokens[le]) {
        match parse_alias_spec(tokens, le, funcs, next_id, span) {
            Ok((items, e, _)) => {
                let id = fresh_id(next_id);
                spec = Some(AliasSpec { id, items });
                b = e;
            },
            Err(mixed) => {
                if mixed {
                    return Err(Error::SyntaxError("Mixing \",\" and \";\" as separators is not allowed".to_string(), span));
                }
                return Err(Error::SyntaxError("Expected optional loops and an optional alias specification".to_string(), span));
            },
        }
    }
    if b < len {
        if is_punct(&tokens[b], ',') || is_punct(&tokens[b], ';') {
            if spec.is_none() && le > 0 {
                return Err(Error::SyntaxError(
                    "Trailing separator after loops is not allowed in #[compose_item].".to_string(),
                    span,
                ));
            }
            if spec.is_none() || b + 1 != len {
                return Err(Error::SyntaxError("Expected optional loops and an optional alias specification".to_string(), span));
            }
        } else {
            return Err(Error::SyntaxError("Expected optional loops and an optional alias specification".to_string(), span));
        }
    }
    proof {
        assert(b < len ==> tv[b as int] == token_view(tokens@[b as int]));
        assert(le < len ==> tv[le as int] == token_view(tokens@[le as int]));
    }
    Ok((loops, spec))
}

/// How one token prints.
fn print_prefix_one(t: &TokenTree) -> (r: String)
    ensures
        r@ == printed(seq![token_view(*t)]),
{
    let mut v: Vec<TokenTree> = Vec::new();
    v.push(copy_token(t));
    let r = print_prefix(&v, 1);
    proof {
        lemma_tokens_view(v@);
        assert(tokens_view(v@).take(1) =~= seq![token_view(*t)]);
    }
    r
}

} // verus!
