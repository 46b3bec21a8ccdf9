//! A token-tree model of Rust source code.

use vstd::prelude::*;

verus! {

/// Delimiter of a group of tokens.
#[derive(Debug, Clone, Copy, PartialEq, Eq, Structural)]
pub enum Delimiter {
    Parenthesis,
    Brace,
    Bracket,
    /// An invisible delimiter (`Delimiter::None` of `proc_macro2`).
    Invisible,
}

/// A token or a delimited group of tokens.
#[derive(Debug)]
pub enum TokenTree {
    /// An identifier, by name.
    Ident(String, proc_macro2::Span),
    /// A punctuation character, and whether it is joined to the next one.
    Punct(char, bool, proc_macro2::Span),
    /// A literal, as written.
    Literal(String, proc_macro2::Span),
    /// A string literal, given by its contents.
    StrLit(String, proc_macro2::Span),
    /// A delimited group.
    Group(Delimiter, Vec<TokenTree>, proc_macro2::Span),
}

impl TokenTree {
    /// Whether the token is a comma.
    pub fn is_comma(&self) -> (r: bool)
        ensures
            r == (token_view(*self) matches TokenView::Punct(',', _, _)),
    {
        match self {
            TokenTree::Punct(c, _, _) => *c == ',',
            _ => false,
        }
    }

    /// Whether the token is a punctuation character joined to the next one.
    pub fn is_joint(&self) -> (r: bool)
        ensures
            r == is_joint(token_view(*self)),
    {
        match self {
            TokenTree::Punct(_, j, _) => *j,
            _ => false,
        }
    }

    /// Whether the token is a delimited group.
    pub fn is_group(&self) -> (r: bool)
        ensures
            r == (*self is Group),
    {
        match self {
            TokenTree::Group(_, _, _) => true,
            _ => false,
        }
    }
}

/// The mathematical content of a [`TokenTree`].
#[verifier::ext_equal]
pub enum TokenView {
    Ident(Seq<char>, proc_macro2::Span),
    Punct(char, bool, proc_macro2::Span),
    Literal(Seq<char>, proc_macro2::Span),
    StrLit(Seq<char>, proc_macro2::Span),
    Group(Delimiter, Seq<TokenView>, proc_macro2::Span),
}

/// The view of a token.
pub open spec fn token_view(t: TokenTree) -> TokenView
    decreases t, 0int,
{
    match t {
        TokenTree::Ident(s, sp) => TokenView::Ident(s@, sp),
        TokenTree::Punct(c, j, sp) => TokenView::Punct(c, j, sp),
        TokenTree::Literal(s, sp) => TokenView::Literal(s@, sp),
        TokenTree::StrLit(s, sp) => TokenView::StrLit(s@, sp),
        TokenTree::Group(d, inner, sp) => TokenView::Group(d, tokens_view_upto(inner@, inner@.len() as int), sp),
    }
}

/// The views of the first `n` tokens of `s`.
pub open spec fn tokens_view_upto(s: Seq<TokenTree>, n: int) -> Seq<TokenView>
    decreases s, n,
{
    if n <= 0 || n > s.len() {
        Seq::empty()
    } else {
        tokens_view_upto(s, n - 1).push(token_view(s[n - 1]))
    }
}

/// The views of the tokens of `s`.
pub open spec fn tokens_view(s: Seq<TokenTree>) -> Seq<TokenView> {
    tokens_view_upto(s, s.len() as int)
}

proof fn lemma_tokens_view_upto(s: Seq<TokenTree>, n: int)
    requires
        0 <= n <= s.len(),
    ensures
        tokens_view_upto(s, n).len() == n,
        forall|k: int| 0 <= k < n ==> #[trigger] tokens_view_upto(s, n)[k] == token_view(s[k]),
    decreases n,
{
    if n > 0 {
        lemma_tokens_view_upto(s, n - 1);
    }
}

/// The views of a sequence of tokens, element by element.
pub proof fn lemma_tokens_view(s: Seq<TokenTree>)
    ensures
        tokens_view(s).len() == s.len(),
        forall|k: int| 0 <= k < s.len() ==> #[trigger] tokens_view(s)[k] == token_view(s[k]),
{
    lemma_tokens_view_upto(s, s.len() as int);
}

/// Weight of a token: one for a leaf, two plus the weight of the contents for
/// a group. Traversals of token trees decrease it.
pub open spec fn token_weight(t: TokenView) -> nat
    decreases t, 0int,
{
    match t {
        TokenView::Group(_, inner, _) => 2 + tokens_weight_upto(inner, inner.len() as int),
        _ => 1,
    }
}

/// Weight of the first `n` tokens of `s`.
pub open spec fn tokens_weight_upto(s: Seq<TokenView>, n: int) -> nat
    decreases s, n,
{
    if n <= 0 || n > s.len() {
        0
    } else {
        tokens_weight_upto(s, n - 1) + token_weight(s[n - 1])
    }
}

/// Weight of a sequence of tokens.
pub open spec fn tokens_weight(s: Seq<TokenView>) -> nat {
    tokens_weight_upto(s, s.len() as int)
}

/// A token among the first `n` weighs no more than they do together.
pub proof fn lemma_weight_upto_bound(s: Seq<TokenView>, n: int, i: int)
    requires
        0 <= i < n <= s.len(),
    ensures
        token_weight(s[i]) <= tokens_weight_upto(s, n),
    decreases n,
{
    if i < n - 1 {
        lemma_weight_upto_bound(s, n - 1, i);
    }
}

/// A token of a group weighs less than the group.
pub proof fn lemma_inner_lighter(d: Delimiter, inner: Seq<TokenView>, sp: proc_macro2::Span, i: int)
    requires
        0 <= i < inner.len(),
    ensures
        token_weight(inner[i]) < token_weight(TokenView::Group(d, inner, sp)),
{
    lemma_weight_upto_bound(inner, inner.len() as int, i);
}

/// The weight of a concatenation is the sum of the weights.
pub proof fn lemma_weight_concat(a: Seq<TokenView>, b: Seq<TokenView>)
    ensures
        tokens_weight(a + b) == tokens_weight(a) + tokens_weight(b),
    decreases b.len(),
{
    if b.len() > 0 {
        lemma_weight_concat(a, b.drop_last());
        assert((a + b).drop_last() =~= a + b.drop_last());
        lemma_weight_prefix(a + b);
        lemma_weight_prefix(b);
    } else {
        assert(a + b =~= a);
    }
}

/// The weight of a sequence is that of its prefix plus that of its last token.
pub proof fn lemma_weight_prefix(s: Seq<TokenView>)
    requires
        s.len() > 0,
    ensures
        tokens_weight(s) == tokens_weight(s.drop_last()) + token_weight(s.last()),
{
    lemma_weight_upto_same(s, s.drop_last(), s.len() - 1);
}

proof fn lemma_weight_upto_same(s: Seq<TokenView>, t: Seq<TokenView>, n: int)
    requires
        0 <= n <= s.len(),
        n <= t.len(),
        forall|k: int| 0 <= k < n ==> s[k] == t[k],
    ensures
        tokens_weight_upto(s, n) == tokens_weight_upto(t, n),
    decreases n,
{
    if n > 0 {
        lemma_weight_upto_same(s, t, n - 1);
    }
}

/// Copies a token.
pub fn copy_token(t: &TokenTree) -> (r: TokenTree)
    ensures
        token_view(r) == token_view(*t),
    decreases token_weight(token_view(*t)),
{
    match t {
        TokenTree::Ident(s, sp) => TokenTree::Ident(s.clone(), *sp),
        TokenTree::Punct(c, j, sp) => TokenTree::Punct(*c, *j, *sp),
        TokenTree::Literal(s, sp) => TokenTree::Literal(s.clone(), *sp),
        TokenTree::StrLit(s, sp) => TokenTree::StrLit(s.clone(), *sp),
        TokenTree::Group(d, inner, sp) => {
            let mut out: Vec<TokenTree> = Vec::new();
            let mut i: usize = 0;
            proof {
                lemma_tokens_view(inner@);
            }
            while i < inner.len()
                invariant
                    i <= inner@.len(),
                    *t == TokenTree::Group(*d, *inner, *sp),
                    tokens_view(inner@).len() == inner@.len(),
                    forall|k: int| 0 <= k < inner@.len() ==> #[trigger] tokens_view(inner@)[k] == token_view(inner@[k]),
                    out@.len() == i,
                    forall|k: int| 0 <= k < i ==> token_view(#[trigger] out@[k]) == token_view(inner@[k]),
                decreases inner.len() - i,
            {
                proof {
                    lemma_inner_lighter(*d, tokens_view(inner@), *sp, i as int);
                }
                out.push(copy_token(&inner[i]));
                i = i + 1;
            }
            proof {
                lemma_tokens_view(out@);
                assert(tokens_view(out@) =~= tokens_view(inner@));
            }
            TokenTree::Group(*d, out, *sp)
        },
    }
}

/// Copies a sequence of tokens.
pub fn copy_tokens(v: &Vec<TokenTree>) -> (r: Vec<TokenTree>)
    ensures
        tokens_view(r@) == tokens_view(v@),
{
    let mut out: Vec<TokenTree> = Vec::new();
    let mut i: usize = 0;
    while i < v.len()
        invariant
            i <= v@.len(),
            out@.len() == i,
            forall|k: int| 0 <= k < i ==> token_view(#[trigger] out@[k]) == token_view(v@[k]),
        decreases v.len() - i,
    {
        out.push(copy_token(&v[i]));
        i = i + 1;
    }
    proof {
        lemma_tokens_view(out@);
        lemma_tokens_view(v@);
        assert(tokens_view(out@) =~= tokens_view(v@));
    }
    out
}

/// Views distribute over concatenation.
pub proof fn lemma_view_concat(a: Seq<TokenTree>, b: Seq<TokenTree>)
    ensures
        tokens_view(a + b) == tokens_view(a) + tokens_view(b),
{
    lemma_tokens_view(a + b);
    lemma_tokens_view(a);
    lemma_tokens_view(b);
    assert(tokens_view(a + b) =~= tokens_view(a) + tokens_view(b));
}

/// Views commute with taking a prefix or dropping one.
pub proof fn lemma_view_take_skip(s: Seq<TokenTree>, i: int)
    requires
        0 <= i <= s.len(),
    ensures
        tokens_view(s.take(i)) == tokens_view(s).take(i),
        tokens_view(s.skip(i)) == tokens_view(s).skip(i),
{
    lemma_tokens_view(s);
    lemma_tokens_view(s.take(i));
    lemma_tokens_view(s.skip(i));
    assert(tokens_view(s.take(i)) =~= tokens_view(s).take(i));
    assert(tokens_view(s.skip(i)) =~= tokens_view(s).skip(i));
}

/// Views commute with replacing one token.
pub proof fn lemma_view_update(s: Seq<TokenTree>, i: int, t: TokenTree)
    requires
        0 <= i < s.len(),
    ensures
        tokens_view(s.update(i, t)) == tokens_view(s).update(i, token_view(t)),
{
    lemma_tokens_view(s);
    lemma_tokens_view(s.update(i, t));
    assert(tokens_view(s.update(i, t)) =~= tokens_view(s).update(i, token_view(t)));
}

/// The opening text of a group with delimiter `d`.
pub open spec fn open_text(d: Delimiter) -> Seq<char> {
    match d {
        Delimiter::Parenthesis => seq!['('],
        Delimiter::Brace => seq!['{', ' '],
        Delimiter::Bracket => seq!['['],
        Delimiter::Invisible => Seq::empty(),
    }
}

/// The closing text of a group with delimiter `d`.
pub open spec fn close_text(d: Delimiter) -> Seq<char> {
    match d {
        Delimiter::Parenthesis => seq![')'],
        Delimiter::Brace => seq!['}'],
        Delimiter::Bracket => seq![']'],
        Delimiter::Invisible => Seq::empty(),
    }
}

/// Whether a token is a punctuation character joined to the next token.
pub open spec fn is_joint(t: TokenView) -> bool {
    t matches TokenView::Punct(_, true, _)
}

/// How a token prints: a group prints its delimiters around its contents,
/// a brace group with a space inside each brace when it is not empty.
pub open spec fn printed_token(t: TokenView) -> Seq<char>
    decreases t, 0int,
{
    match t {
        TokenView::Ident(s, _) => s,
        TokenView::Punct(c, _, _) => seq![c],
        TokenView::Literal(s, _) => s,
        TokenView::StrLit(s, _) => quoted(s),
        TokenView::Group(d, inner, _) => open_text(d) + printed_upto(inner, inner.len() as int) + (if d
            == Delimiter::Brace && inner.len() > 0 {
            seq![' ']
        } else {
            Seq::empty()
        }) + close_text(d),
    }
}

/// How a character is written inside a string literal: a quote, a backslash
/// and a carriage return are escaped, anything else stands as it is.
pub open spec fn escaped_char(c: char) -> Seq<char> {
    if c == '"' {
        seq!['\\', '"']
    } else if c == '\\' {
        seq!['\\', '\\']
    } else if c == '\r' {
        seq!['\\', 'r']
    } else {
        seq![c]
    }
}

/// The first `n` characters of `s`, each written as inside a string literal.
pub open spec fn escaped_upto(s: Seq<char>, n: int) -> Seq<char>
    decreases n,
{
    if n <= 0 || n > s.len() {
        Seq::empty()
    } else {
        escaped_upto(s, n - 1) + escaped_char(s[n - 1])
    }
}

/// A string literal with contents `s`.
pub open spec fn quoted(s: Seq<char>) -> Seq<char> {
    seq!['"'] + escaped_upto(s, s.len() as int) + seq!['"']
}

/// Appends a string literal with contents `s` to `out`.
pub fn print_quoted(s: &String, out: &mut String)
    ensures
        final(out)@ == old(out)@ + quoted(s@),
{
    let ghost before = out@;
    crate::format_string::push_char(out, '"');
    let n = s.unicode_len();
    let mut i: usize = 0;
    while i < n
        invariant
            n == s@.len(),
            i <= n,
            out@ == before + seq!['"'] + escaped_upto(s@, i as int),
        decreases n - i,
    {
        let c = s.get_char(i);
        if c == '"' {
            crate::format_string::push_char(out, '\\');
            crate::format_string::push_char(out, '"');
        } else if c == '\\' {
            crate::format_string::push_char(out, '\\');
            crate::format_string::push_char(out, '\\');
        } else if c == '\r' {
            crate::format_string::push_char(out, '\\');
            crate::format_string::push_char(out, 'r');
        } else {
            crate::format_string::push_char(out, c);
        }
        proof {
            assert(out@ =~= before + seq!['"'] + escaped_upto(s@, i + 1));
        }
        i = i + 1;
    }
    crate::format_string::push_char(out, '"');
    proof {
        assert(out@ =~= before + quoted(s@));
    }
}

/// How the first `n` tokens of `s` print: separated by a space, except after
/// a punctuation character joined to the next token.
pub open spec fn printed_upto(s: Seq<TokenView>, n: int) -> Seq<char>
    decreases s, n,
{
    if n <= 0 || n > s.len() {
        Seq::empty()
    } else if n == 1 || is_joint(s[n - 2]) {
        printed_upto(s, n - 1) + printed_token(s[n - 1])
    } else {
        printed_upto(s, n - 1) + seq![' '] + printed_token(s[n - 1])
    }
}

/// How a token stream prints.
pub open spec fn printed(s: Seq<TokenView>) -> Seq<char> {
    printed_upto(s, s.len() as int)
}

/// Appends how a token prints to `out`.
pub fn print_token(t: &TokenTree, out: &mut String)
    ensures
        final(out)@ == old(out)@ + printed_token(token_view(*t)),
    decreases token_weight(token_view(*t)),
{
    match t {
        TokenTree::Ident(s, _) => {
            out.append(s.as_str());
        },
        TokenTree::Punct(c, _, _) => {
            crate::format_string::push_char(out, *c);
        },
        TokenTree::Literal(s, _) => {
            out.append(s.as_str());
        },
        TokenTree::StrLit(s, _) => {
            print_quoted(s, out);
        },
        TokenTree::Group(d, inner, sp) => {
            let ghost before = out@;
            let ghost iv = tokens_view(inner@);
            match d {
                Delimiter::Parenthesis => crate::format_string::push_char(out, '('),
                Delimiter::Brace => {
                    crate::format_string::push_char(out, '{');
                    crate::format_string::push_char(out, ' ');
                },
                Delimiter::Bracket => crate::format_string::push_char(out, '['),
                Delimiter::Invisible => {},
            }
            proof {
                assert(out@ =~= before + open_text(*d));
                lemma_tokens_view(inner@);
            }
            let ghost mid = out@;
            let mut i: usize = 0;
            while i < inner.len()
                invariant
                    i <= inner@.len(),
                    *t == TokenTree::Group(*d, *inner, *sp),
                    iv == tokens_view(inner@),
                    iv.len() == inner@.len(),
                    forall|k: int| 0 <= k < inner@.len() ==> #[trigger] iv[k] == token_view(inner@[k]),
                    out@ == mid + printed_upto(iv, i as int),
                decreases inner.len() - i,
            {
                proof {
                    lemma_inner_lighter(*d, iv, *sp, i as int);
                }
                if i > 0 && inner[i - 1].is_joint() {
                } else if i > 0 {
                    crate::format_string::push_char(out, ' ');
                }
                print_token(&inner[i], out);
                proof {
                    assert(out@ =~= mid + printed_upto(iv, i + 1));
                }
                i = i + 1;
            }
            let ghost after = out@;
            if *d == Delimiter::Brace && inner.len() > 0 {
                crate::format_string::push_char(out, ' ');
            }
            match d {
                Delimiter::Parenthesis => crate::format_string::push_char(out, ')'),
                Delimiter::Brace => crate::format_string::push_char(out, '}'),
                Delimiter::Bracket => crate::format_string::push_char(out, ']'),
                Delimiter::Invisible => {},
            }
            proof {
                assert(out@ =~= before + printed_token(token_view(*t)));
            }
        },
    }
}

/// How the first `n` tokens of `v` print.
pub fn print_prefix(v: &Vec<TokenTree>, n: usize) -> (r: String)
    requires
        n <= v@.len(),
    ensures
        r@ == printed(tokens_view(v@).take(n as int)),
{
    let ghost tv = tokens_view(v@);
    proof {
        lemma_tokens_view(v@);
    }
    let mut out = String::new();
    let mut i: usize = 0;
    while i < n
        invariant
            n <= v@.len(),
            i <= n,
            tv == tokens_view(v@),
            tv.len() == v@.len(),
            forall|k: int| 0 <= k < v@.len() ==> #[trigger] tv[k] == token_view(v@[k]),
            out@ == printed_upto(tv, i as int),
        decreases n - i,
    {
        if i > 0 && v[i - 1].is_joint() {
        } else if i > 0 {
            crate::format_string::push_char(&mut out, ' ');
        }
        print_token(&v[i], &mut out);
        proof {
            assert(out@ =~= printed_upto(tv, i + 1));
        }
        i = i + 1;
    }
    proof {
        lemma_printed_upto_take(tv, n as int, n as int);
    }
    out
}

proof fn lemma_printed_upto_take(s: Seq<TokenView>, n: int, m: int)
    requires
        0 <= m <= n <= s.len(),
    ensures
        printed_upto(s.take(n), m) == printed_upto(s, m),
    decreases m,
{
    if m > 0 {
        lemma_printed_upto_take(s, n, m - 1);
        assert(s.take(n)[m - 1] == s[m - 1]);
        if m >= 2 {
            assert(s.take(n)[m - 2] == s[m - 2]);
        }
    }
}

} // verus!
