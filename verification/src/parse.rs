//! Decisions of the parser of the alias language.
//!
//! A value can often be read in more than one syntactic category: `foo` is an
//! identifier, a path, a type and an expression. The parser tries each
//! category in a fixed order and keeps the reading that consumes the most
//! tokens; on a tie the category tried first wins.

use vstd::prelude::*;
use crate::substitute::{lit_str_value, string_literal_value};
use crate::token::{copy_token, lemma_tokens_view, print_prefix, printed, token_view, tokens_view, TokenTree, TokenView};
use crate::value::{NodeId, Value, ValueKind};

verus! {

/// Whether reading `k` is the one kept among readings that consumed
/// `consumed[j]` tokens (`None` for a reading that failed): it succeeded,
/// no reading consumed more, and every earlier reading consumed less.
pub open spec fn is_longest_parse(consumed: Seq<Option<usize>>, k: int) -> bool {
    &&& 0 <= k < consumed.len()
    &&& consumed[k] is Some
    &&& forall|j: int|
        #![trigger consumed[j]]
        0 <= j < consumed.len() && consumed[j] is Some ==> consumed[j]->Some_0 <= consumed[k]->Some_0
    &&& forall|j: int|
        #![trigger consumed[j]]
        0 <= j < k && consumed[j] is Some ==> consumed[j]->Some_0 < consumed[k]->Some_0
}

/// Picks the reading that consumed the most tokens, the earliest on a tie;
/// `None` when every reading failed.
pub fn longest_parse(consumed: &Vec<Option<usize>>) -> (r: Option<usize>)
    ensures
        match r {
            Some(k) => is_longest_parse(consumed@, k as int),
            None => forall|j: int| 0 <= j < consumed@.len() ==> #[trigger] consumed@[j] is None,
        },
{
    let mut best: Option<usize> = None;
    let mut i: usize = 0;
    while i < consumed.len()
        invariant
            i <= consumed@.len(),
            match best {
                Some(k) => k < i && is_longest_parse(consumed@.take(i as int), k as int),
                None => forall|j: int| 0 <= j < i ==> #[trigger] consumed@[j] is None,
            },
        decreases consumed.len() - i,
    {
        let ghost prefix = consumed@.take(i as int);
        let ghost next = consumed@.take(i + 1);
        proof {
            assert(forall|j: int| 0 <= j < i ==> prefix[j] == #[trigger] next[j]);
        }
        match consumed[i] {
            Some(n) => {
                let better = match best {
                    None => true,
                    Some(k) => match consumed[k] {
                        Some(m) => n > m,
                        None => true,
                    },
                };
                if better {
                    best = Some(i);
                    proof {
                        assert forall|j: int| 0 <= j < next.len() && next[j] is Some implies #[trigger] next[j]->Some_0
                            <= next[i as int]->Some_0 by {
                            if j < i {
                                assert(prefix[j] == next[j]);
                            }
                        }
                    }
                } else {
                    proof {
                        let k = best->Some_0;
                        assert(prefix[k as int] == next[k as int]);
                        assert forall|j: int| 0 <= j < next.len() && next[j] is Some implies #[trigger] next[j]->Some_0
                            <= next[k as int]->Some_0 by {
                            if j < i {
                                assert(prefix[j] == next[j]);
                            }
                        }
                        assert forall|j: int| 0 <= j < k && next[j] is Some implies #[trigger] next[j]->Some_0
                            < next[k as int]->Some_0 by {
                            assert(prefix[j] == next[j]);
                        }
                    }
                }
            },
            None => {
                proof {
                    if best is Some {
                        let k = best->Some_0;
                        assert(prefix[k as int] == next[k as int]);
                        assert forall|j: int| 0 <= j < next.len() && next[j] is Some implies #[trigger] next[j]->Some_0
                            <= next[k as int]->Some_0 by {
                            if j < i {
                                assert(prefix[j] == next[j]);
                            }
                        }
                        assert forall|j: int| 0 <= j < k && next[j] is Some implies #[trigger] next[j]->Some_0
                            < next[k as int]->Some_0 by {
                            assert(prefix[j] == next[j]);
                        }
                    }
                }
            },
        }
        i = i + 1;
    }
    proof {
        assert(consumed@.take(consumed@.len() as int) =~= consumed@);
    }
    best
}

/// Whether `syn` reads all of `text` as an integer literal.
pub uninterp spec fn lit_int_syntax(text: Seq<char>) -> bool;

/// Whether `syn` reads all of `text` as a string literal.
pub uninterp spec fn lit_str_syntax(text: Seq<char>) -> bool;

/// Whether `syn` reads all of `text` as the `_` token.
pub uninterp spec fn underscore_syntax(text: Seq<char>) -> bool;

/// Whether `syn` reads all of `text` as an identifier.
pub uninterp spec fn ident_syntax(text: Seq<char>) -> bool;

/// Whether `syn` reads all of `text` as a path.
pub uninterp spec fn path_syntax(text: Seq<char>) -> bool;

/// Whether `syn` reads all of `text` as a type.
pub uninterp spec fn type_syntax(text: Seq<char>) -> bool;

/// Whether `syn` reads all of `text` as an expression.
pub uninterp spec fn expr_syntax(text: Seq<char>) -> bool;

/// The names of the segments of the path that `syn` reads `text` as.
pub uninterp spec fn path_segment_names(text: Seq<char>) -> Option<Seq<Seq<char>>>;

/// Trusted: `syn::parse_str::<syn::LitInt>`, which succeeds exactly when the
/// whole text lexes as one integer literal; the result tells whether it did.
#[verifier::external_body]
fn lit_int_reads(text: &String) -> (r: bool)
    ensures
        r == lit_int_syntax(text@),
{
    syn::parse_str::<syn::LitInt>(text).is_ok()
}

/// Trusted: `syn::parse_str::<syn::LitStr>`, which succeeds exactly when the
/// whole text lexes as one string literal; the result tells whether it did.
#[verifier::external_body]
fn lit_str_reads(text: &String) -> (r: bool)
    ensures
        r == lit_str_syntax(text@),
{
    syn::parse_str::<syn::LitStr>(text).is_ok()
}

/// Trusted: `syn::parse_str::<syn::token::Underscore>`; the result tells
/// whether the whole text reads as `_`.
#[verifier::external_body]
fn underscore_reads(text: &String) -> (r: bool)
    ensures
        r == underscore_syntax(text@),
{
    syn::parse_str::<syn::token::Underscore>(text).is_ok()
}

/// Trusted: `syn::parse_str::<syn::Ident>`; the result tells whether the whole
/// text reads as an identifier (keywords and `_` do not).
#[verifier::external_body]
pub(crate) fn ident_reads(text: &String) -> (r: bool)
    ensures
        r == ident_syntax(text@),
{
    syn::parse_str::<syn::Ident>(text).is_ok()
}

/// Trusted: `syn::parse_str::<syn::Path>`; the result tells whether the whole
/// text reads as a path.
#[verifier::external_body]
fn path_reads(text: &String) -> (r: bool)
    ensures
        r == path_syntax(text@),
{
    syn::parse_str::<syn::Path>(text).is_ok()
}

/// Trusted: `syn::parse_str::<syn::Type>`; the result tells whether the whole
/// text reads as a type.
#[verifier::external_body]
fn type_reads(text: &String) -> (r: bool)
    ensures
        r == type_syntax(text@),
{
    syn::parse_str::<syn::Type>(text).is_ok()
}

/// Trusted: `syn::parse_str::<syn::Expr>`; the result tells whether the whole
/// text reads as an expression.
#[verifier::external_body]
fn expr_reads(text: &String) -> (r: bool)
    ensures
        r == expr_syntax(text@),
{
    syn::parse_str::<syn::Expr>(text).is_ok()
}

/// Trusted: `syn::parse_str::<syn::Path>`, then the identifier of each of the
/// path's segments, printed. `None` when the text is no path.
#[verifier::external_body]
fn path_segments(text: &String) -> (r: Option<Vec<String>>)
    ensures
        match r {
            Some(v) => path_segment_names(text@) == Some(v@.map_values(|s: String| s@)),
            None => path_segment_names(text@) is None,
        },
{
    syn::parse_str::<syn::Path>(text).ok().map(|p| p.segments.iter().map(|s| s.ident.to_string()).collect())
}

/// The number of categories a value is read in.
pub open spec fn num_categories() -> int {
    7
}

/// Whether `text` reads in category `k`: an integer literal, a string
/// literal, `_`, an identifier, a path, a type, an expression, in this order.
pub open spec fn reads_in(k: int, text: Seq<char>) -> bool {
    if k == 0 {
        lit_int_syntax(text)
    } else if k == 1 {
        lit_str_syntax(text)
    } else if k == 2 {
        underscore_syntax(text)
    } else if k == 3 {
        ident_syntax(text)
    } else if k == 4 {
        path_syntax(text)
    } else if k == 5 {
        type_syntax(text)
    } else {
        expr_syntax(text)
    }
}

/// Whether a token is a comma.
pub open spec fn is_comma(t: TokenView) -> bool {
    t matches TokenView::Punct(',', _, _)
}

/// Whether the first `n` tokens read in category `k`, with the input ending
/// after them or a comma following.
pub open spec fn reading_at(tv: Seq<TokenView>, k: int, n: int) -> bool {
    &&& 1 <= n <= tv.len()
    &&& (n == tv.len() || is_comma(tv[n]))
    &&& reads_in(k, printed(tv.take(n)))
}

/// Whether `n` is the shortest reading in category `k`.
pub open spec fn shortest_reading(tv: Seq<TokenView>, k: int, n: int) -> bool {
    reading_at(tv, k, n) && forall|m: int| 1 <= m < n ==> !#[trigger] reading_at(tv, k, m)
}

/// How many tokens category `k` reads: its shortest reading, if any.
pub open spec fn reading_of(tv: Seq<TokenView>, k: int) -> Option<usize> {
    if exists|n: int| shortest_reading(tv, k, n) {
        Some((choose|n: int| shortest_reading(tv, k, n)) as usize)
    } else {
        None
    }
}

/// The readings of `tv` in all categories, in order.
pub open spec fn readings(tv: Seq<TokenView>) -> Seq<Option<usize>> {
    Seq::new(7, |k: int| reading_of(tv, k))
}

/// The category whose reading is kept, if any reading succeeded.
pub open spec fn chosen_reading(rs: Seq<Option<usize>>) -> Option<int> {
    if exists|k: int| is_longest_parse(rs, k) {
        Some(choose|k: int| is_longest_parse(rs, k))
    } else {
        None
    }
}

/// Where the raw-token fallback stops: at the first comma, or at the end.
pub open spec fn first_comma(tv: Seq<TokenView>) -> int {
    if exists|n: int| 0 <= n < tv.len() && is_comma(tv[n]) && forall|m: int| 0 <= m < n ==> !is_comma(#[trigger] tv[m]) {
        choose|n: int| 0 <= n < tv.len() && is_comma(tv[n]) && forall|m: int| 0 <= m < n ==> !is_comma(#[trigger] tv[m])
    } else {
        tv.len() as int
    }
}

/// Whether `kind` is what category `k` makes of the text `text`.
pub open spec fn kind_of_reading(k: int, kind: ValueKind, text: Seq<char>) -> bool {
    match kind {
        ValueKind::LitInt(s) => k == 0 && s@ == text,
        ValueKind::LitStr(s) => k == 1 && s@ == match string_literal_value(text) {
            Some(v) => v,
            None => text,
        },
        ValueKind::Ident(s) => (k == 2 || k == 3) && s@ == text,
        ValueKind::Path(segs) => k == 4 && segs@.map_values(|x: String| x@) == match path_segment_names(text) {
            Some(p) => p,
            None => Seq::empty(),
        },
        ValueKind::Type(s) => k == 5 && s@ == text,
        ValueKind::Expr(s) => k == 6 && s@ == text,
        _ => false,
    }
}

proof fn lemma_longest_unique(rs: Seq<Option<usize>>, a: int, b: int)
    requires
        is_longest_parse(rs, a),
        is_longest_parse(rs, b),
    ensures
        a == b,
{
    if a < b {
        assert(rs[a]->Some_0 < rs[b]->Some_0);
        assert(rs[a]->Some_0 <= rs[b]->Some_0);
        assert(rs[b]->Some_0 <= rs[a]->Some_0);
    } else if b < a {
        assert(rs[b]->Some_0 < rs[a]->Some_0);
        assert(rs[a]->Some_0 <= rs[b]->Some_0);
    }
}

/// Whether `text` reads in category `k`.
fn read_in(k: usize, text: &String) -> (r: bool)
    ensures
        r == reads_in(k as int, text@),
{
    if k == 0 {
        lit_int_reads(text)
    } else if k == 1 {
        lit_str_reads(text)
    } else if k == 2 {
        underscore_reads(text)
    } else if k == 3 {
        ident_reads(text)
    } else if k == 4 {
        path_reads(text)
    } else if k == 5 {
        type_reads(text)
    } else {
        expr_reads(text)
    }
}

/// How many tokens category `k` reads from the start of `tokens`.
pub fn reading_length(tokens: &Vec<TokenTree>, k: usize) -> (r: Option<usize>)
    ensures
        r == reading_of(tokens_view(tokens@), k as int),
{
    let ghost tv = tokens_view(tokens@);
    proof {
        lemma_tokens_view(tokens@);
    }
    let len = tokens.len();
    let mut m: usize = 0;
    while m < len
        invariant
            len == tokens@.len(),
            tv == tokens_view(tokens@),
            tv.len() == len,
            forall|j: int| 0 <= j < len ==> #[trigger] tv[j] == token_view(tokens@[j]),
            m <= len,
            forall|i: int| 1 <= i <= m ==> !#[trigger] reading_at(tv, k as int, i),
        decreases len - m,
    {
        let n = m + 1;
        let ends = n == len || tokens[n].is_comma();
        if ends {
            let text = print_prefix(tokens, n);
            if read_in(k, &text) {
                proof {
                    assert(reading_at(tv, k as int, n as int));
                    assert(shortest_reading(tv, k as int, n as int));
                    let c = choose|c: int| shortest_reading(tv, k as int, c);
                    if c < n {
                        assert(!reading_at(tv, k as int, c));
                    } else if c > n {
                        assert(!reading_at(tv, k as int, n as int));
                    }
                }
                return Some(n);
            }
        }
        proof {
            assert(!reading_at(tv, k as int, n as int));
        }
        m = n;
    }
    proof {
        assert forall|c: int| !shortest_reading(tv, k as int, c) by {
            if 1 <= c <= len {
                assert(!reading_at(tv, k as int, c));
            }
        }
    }
    None
}

/// Copies the first `n` tokens of `v`.
fn copy_prefix(v: &Vec<TokenTree>, n: usize) -> (r: Vec<TokenTree>)
    requires
        n <= v@.len(),
    ensures
        tokens_view(r@) == tokens_view(v@).take(n as int),
{
    let mut out: Vec<TokenTree> = Vec::new();
    let mut i: usize = 0;
    while i < n
        invariant
            n <= v@.len(),
            i <= n,
            out@.len() == i,
            forall|k: int| 0 <= k < i ==> token_view(#[trigger] out@[k]) == token_view(v@[k]),
        decreases n - i,
    {
        out.push(copy_token(&v[i]));
        i = i + 1;
    }
    proof {
        lemma_tokens_view(out@);
        lemma_tokens_view(v@);
        assert(tokens_view(out@) =~= tokens_view(v@).take(n as int));
    }
    out
}

/// Reads a value from the start of `tokens`, up to a comma or the end.
///
/// The value is read in each category in turn (integer literal, string
/// literal, `_`, identifier, path, type, expression); the reading that takes
/// the most tokens is kept, the earlier category on a tie. When no category
/// reads, the value is the raw tokens up to the first comma. Returns the value
/// and the number of tokens it took; a comma that ends it is not taken.
pub fn parse_terminated_value(tokens: &Vec<TokenTree>, id: NodeId, span: proc_macro2::Span) -> (r: (Value, usize))
    ensures
        ({
            let tv = tokens_view(tokens@);
            let n = r.1 as int;
            &&& n <= tv.len()
            &&& tokens_view(r.0.tokens@) == tv.take(n)
            &&& r.0.text@ == printed(tv.take(n))
            &&& r.0.id == id
            &&& r.0.span == span
            &&& match chosen_reading(readings(tv)) {
                Some(k) => r.1 == readings(tv)[k]->Some_0 && kind_of_reading(k, r.0.kind, printed(tv.take(n))),
                None => n == first_comma(tv) && (r.0.kind matches ValueKind::Tokens(s) && s@ == printed(tv.take(n))),
            }
        }),
{
    let ghost tv = tokens_view(tokens@);
    let mut consumed: Vec<Option<usize>> = Vec::new();
    let mut k: usize = 0;
    while k < 7
        invariant
            k <= 7,
            tv == tokens_view(tokens@),
            consumed@ == readings(tv).take(k as int),
        decreases 7 - k,
    {
        let r = reading_length(tokens, k);
        consumed.push(r);
        proof {
            assert(consumed@ =~= readings(tv).take(k + 1));
        }
        k = k + 1;
    }
    proof {
        assert(consumed@ =~= readings(tv));
        lemma_tokens_view(tokens@);
    }
    match longest_parse(&consumed) {
        Some(c) => {
            let n = match consumed[c] {
                Some(n) => n,
                None => 0,
            };
            proof {
                let ch = choose|j: int| is_longest_parse(readings(tv), j);
                lemma_longest_unique(readings(tv), c as int, ch);
                let m = n as int;
                let cands = choose|j: int| shortest_reading(tv, c as int, j);
                assert(shortest_reading(tv, c as int, cands));
            }
            let text = print_prefix(tokens, n);
            let kind = if c == 0 {
                ValueKind::LitInt(text.clone())
            } else if c == 1 {
                match lit_str_value(&text) {
                    Some(v) => ValueKind::LitStr(v),
                    None => ValueKind::LitStr(text.clone()),
                }
            } else if c == 2 || c == 3 {
                ValueKind::Ident(text.clone())
            } else if c == 4 {
                match path_segments(&text) {
                    Some(segs) => ValueKind::Path(segs),
                    None => {
                        let empty: Vec<String> = Vec::new();
                        proof {
                            assert(empty@.map_values(|x: String| x@) =~= Seq::<Seq<char>>::empty());
                        }
                        ValueKind::Path(empty)
                    },
                }
            } else if c == 5 {
                ValueKind::Type(text.clone())
            } else {
                ValueKind::Expr(text.clone())
            };
            let value = Value { id, kind, tokens: copy_prefix(tokens, n), text, span };
            (value, n)
        },
        None => {
            let len = tokens.len();
            let mut n: usize = 0;
            while n < len && !tokens[n].is_comma()
                invariant
                    len == tokens@.len(),
                    tv == tokens_view(tokens@),
                    n <= len,
                    forall|j: int| 0 <= j < len ==> #[trigger] tv[j] == token_view(tokens@[j]),
                    forall|m: int| 0 <= m < n ==> !is_comma(#[trigger] tv[m]),
                decreases len - n,
            {
                n = n + 1;
            }
            proof {
                if n < len {
                    assert(is_comma(tv[n as int]));
                    let f = choose|f: int| 0 <= f < tv.len() && is_comma(tv[f]) && forall|m: int| 0 <= m < f ==> !is_comma(#[trigger] tv[m]);
                    if f < n {
                        assert(!is_comma(tv[f]));
                    } else if f > n {
                        assert(!is_comma(tv[n as int]));
                    }
                } else {
                    assert(!exists|f: int| 0 <= f < tv.len() && is_comma(tv[f]) && forall|m: int| 0 <= m < f ==> !is_comma(#[trigger] tv[m]));
                }
            }
            let text = print_prefix(tokens, n);
            let value = Value { id, kind: ValueKind::Tokens(text.clone()), tokens: copy_prefix(tokens, n), text, span };
            (value, n)
        },
    }
}

} // verus!
