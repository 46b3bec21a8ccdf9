//! Expansion of `% alias %` placeholders inside string literals.

use vstd::prelude::*;
use crate::substitutions::Substitutions;
use crate::value::{join_path, value_text, Value, ValueKind};

verus! {

/// Appends a character to a string.
///
/// Trusted: `String::push`, which the standard library documents as appending
/// the given character to the end of the string.
#[verifier::external_body]
pub(crate) fn push_char(s: &mut String, c: char)
    ensures
        final(s)@ == old(s)@.push(c),
{
    s.push(c);
}

/// Whether a character has the Unicode `White_Space` property: tab, line
/// feed, vertical tab, form feed, carriage return, space, next line, no-break
/// space, ogham space mark, the spaces from en quad to hair space, line and
/// paragraph separators, narrow no-break space, medium mathematical space and
/// ideographic space.
pub open spec fn unicode_white_space(c: char) -> bool {
    let u = c as u32;
    ||| 0x09 <= u <= 0x0D
    ||| u == 0x20
    ||| u == 0x85
    ||| u == 0xA0
    ||| u == 0x1680
    ||| 0x2000 <= u <= 0x200A
    ||| u == 0x2028
    ||| u == 0x2029
    ||| u == 0x202F
    ||| u == 0x205F
    ||| u == 0x3000
}

/// Whether a character is whitespace, as `char::is_whitespace` decides it.
pub fn is_whitespace(c: char) -> (r: bool)
    ensures
        r == unicode_white_space(c),
{
    let u = c as u32;
    (0x09 <= u && u <= 0x0D) || u == 0x20 || u == 0x85 || u == 0xA0 || u == 0x1680 || (0x2000 <= u && u
        <= 0x200A) || u == 0x2028 || u == 0x2029 || u == 0x202F || u == 0x205F || u == 0x3000
}

/// The state of the placeholder scanner after a prefix of the input.
pub struct FormatState {
    /// Output produced so far.
    pub formatted: Seq<char>,
    /// Name read inside the open placeholder, whitespace left out.
    pub placeholder: Seq<char>,
    /// Text of the open placeholder as written, from its opening `%`.
    pub text: Seq<char>,
    /// Whether a placeholder is open.
    pub in_placeholder: bool,
    /// The last character read.
    pub prev: Option<char>,
}

/// The scanner's state before any character is read.
pub open spec fn initial_format_state() -> FormatState {
    FormatState {
        formatted: Seq::empty(),
        placeholder: Seq::empty(),
        text: Seq::empty(),
        in_placeholder: false,
        prev: None,
    }
}

/// One step of the scanner on character `c`.
///
/// - `%` right after `%` writes a single `%` and closes any open placeholder.
/// - `%` inside a placeholder closes it: a bound name is replaced by the text
///   of its value, an unbound one is written back as it was, with its `%`s.
/// - `%` outside a placeholder opens one.
/// - Inside a placeholder whitespace is kept only in the written-back text,
///   other characters extend the name.
/// - Outside a placeholder characters are copied.
pub open spec fn format_step(st: FormatState, c: char, subs: Map<Seq<char>, Value>) -> FormatState {
    if c == '%' && st.prev == Some('%') {
        FormatState {
            formatted: st.formatted.push('%'),
            placeholder: Seq::empty(),
            text: Seq::empty(),
            in_placeholder: false,
            prev: Some(c),
        }
    } else if c == '%' && st.in_placeholder {
        FormatState {
            formatted: if subs.contains_key(st.placeholder) {
                st.formatted + value_text(subs[st.placeholder].kind)
            } else {
                st.formatted + st.text.push('%')
            },
            placeholder: Seq::empty(),
            text: Seq::empty(),
            in_placeholder: false,
            prev: Some(c),
        }
    } else if c == '%' {
        FormatState {
            formatted: st.formatted,
            placeholder: st.placeholder,
            text: st.text.push(c),
            in_placeholder: true,
            prev: Some(c),
        }
    } else if st.in_placeholder && unicode_white_space(c) {
        FormatState {
            formatted: st.formatted,
            placeholder: st.placeholder,
            text: st.text.push(c),
            in_placeholder: true,
            prev: Some(c),
        }
    } else if st.in_placeholder {
        FormatState {
            formatted: st.formatted,
            placeholder: st.placeholder.push(c),
            text: st.text.push(c),
            in_placeholder: true,
            prev: Some(c),
        }
    } else {
        FormatState {
            formatted: st.formatted.push(c),
            placeholder: st.placeholder,
            text: st.text,
            in_placeholder: false,
            prev: Some(c),
        }
    }
}

/// The scanner's state after reading all of `s`.
pub open spec fn format_run(s: Seq<char>, subs: Map<Seq<char>, Value>) -> FormatState
    decreases s.len(),
{
    if s.len() == 0 {
        initial_format_state()
    } else {
        format_step(format_run(s.drop_last(), subs), s.last(), subs)
    }
}

/// The formatted form of `s`: an unterminated placeholder is written back as it was.
pub open spec fn formatted(s: Seq<char>, subs: Map<Seq<char>, Value>) -> Seq<char> {
    let st = format_run(s, subs);
    if st.in_placeholder {
        st.formatted + st.text
    } else {
        st.formatted
    }
}

/// Whether `s` holds two `%` in a row.
pub open spec fn has_double_percent(s: Seq<char>) -> bool {
    exists|i: int| 0 <= i && i + 1 < s.len() && #[trigger] s[i] == '%' && s[i + 1] == '%'
}

proof fn lemma_run_without_percent(s: Seq<char>, subs: Map<Seq<char>, Value>)
    requires
        !s.contains('%'),
    ensures
        format_run(s, subs) == (FormatState {
            formatted: s,
            placeholder: Seq::empty(),
            text: Seq::empty(),
            in_placeholder: false,
            prev: if s.len() == 0 { None } else { Some(s.last()) },
        }),
    decreases s.len(),
{
    if s.len() > 0 {
        let p = s.drop_last();
        assert(!p.contains('%')) by {
            if p.contains('%') {
                let k = choose|k: int| 0 <= k < p.len() && p[k] == '%';
                assert(s[k] == '%');
            }
        }
        lemma_run_without_percent(p, subs);
        assert(s.last() != '%') by {
            assert(s[s.len() - 1] == s.last());
        }
        assert(p.push(s.last()) =~= s);
    } else {
        assert(s =~= Seq::<char>::empty());
    }
}

/// A string without `%` is left unchanged, whatever the bindings.
pub proof fn law_format_without_percent(s: Seq<char>, subs: Map<Seq<char>, Value>)
    requires
        !s.contains('%'),
    ensures
        formatted(s, subs) == s,
{
    lemma_run_without_percent(s, subs);
}

proof fn lemma_run_unbound(s: Seq<char>)
    requires
        !has_double_percent(s),
    ensures
        ({
            let st = format_run(s, Map::empty());
            &&& st.formatted + st.text == s
            &&& !st.in_placeholder ==> st.text == Seq::<char>::empty()
            &&& st.prev == if s.len() == 0 { None } else { Some(s.last()) }
        }),
    decreases s.len(),
{
    if s.len() > 0 {
        let p = s.drop_last();
        assert(!has_double_percent(p)) by {
            if has_double_percent(p) {
                let k = choose|k: int| 0 <= k && k + 1 < p.len() && #[trigger] p[k] == '%' && p[k + 1] == '%';
                assert(s[k] == '%' && s[k + 1] == '%');
            }
        }
        lemma_run_unbound(p);
        let c = s.last();
        if p.len() > 0 && c == '%' {
            assert(s[s.len() - 2] == p.last());
            assert(s[s.len() - 2] == '%' ==> has_double_percent(s));
        }
        let st = format_run(p, Map::empty());
        if c == '%' && st.in_placeholder {
            assert(st.formatted + st.text.push('%') =~= (st.formatted + st.text).push('%'));
        } else if c == '%' {
            assert(st.formatted + st.text.push(c) =~= (st.formatted + st.text).push(c));
        } else if st.in_placeholder {
            assert(st.formatted + st.text.push(c) =~= (st.formatted + st.text).push(c));
        } else {
            assert(st.formatted.push(c) + st.text =~= (st.formatted + st.text).push(c));
        }
        assert(p.push(c) =~= s);
    }
}

/// With no aliases bound, every placeholder is kept as written: a string
/// without `%%` comes out unchanged.
pub proof fn law_format_unbound_is_identity(s: Seq<char>)
    requires
        !has_double_percent(s),
    ensures
        formatted(s, Map::empty()) == s,
{
    lemma_run_unbound(s);
}

proof fn lemma_run_append_plain(p: Seq<char>, q: Seq<char>, subs: Map<Seq<char>, Value>)
    requires
        !q.contains('%'),
        !format_run(p, subs).in_placeholder,
    ensures
        format_run(p + q, subs).formatted == format_run(p, subs).formatted + q,
        !format_run(p + q, subs).in_placeholder,
        format_run(p + q, subs).prev == if q.len() == 0 { format_run(p, subs).prev } else { Some(q.last()) },
        format_run(p + q, subs).placeholder == format_run(p, subs).placeholder,
        format_run(p + q, subs).text == format_run(p, subs).text,
    decreases q.len(),
{
    if q.len() == 0 {
        assert(p + q =~= p);
        assert(format_run(p, subs).formatted + q =~= format_run(p, subs).formatted);
    } else {
        let r = q.drop_last();
        assert(!r.contains('%')) by {
            if r.contains('%') {
                let k = choose|k: int| 0 <= k < r.len() && r[k] == '%';
                assert(q[k] == '%');
            }
        }
        lemma_run_append_plain(p, r, subs);
        assert((p + q).drop_last() =~= p + r);
        assert((p + q).last() == q.last());
        assert(q[q.len() - 1] == q.last());
        assert(q.last() != '%');
        assert((format_run(p, subs).formatted + r).push(q.last()) =~= format_run(p, subs).formatted + q);
    }
}

/// `%%` stands for a single `%`: in a string whose only `%`s are two in a
/// row, they come out as one and the rest is kept.
pub proof fn law_format_escaped_percent(a: Seq<char>, b: Seq<char>, subs: Map<Seq<char>, Value>)
    requires
        !a.contains('%'),
        !b.contains('%'),
    ensures
        formatted(a + seq!['%', '%'] + b, subs) == a + seq!['%'] + b,
{
    lemma_run_without_percent(a, subs);
    let a1 = a.push('%');
    let a2 = a1.push('%');
    assert(a1.drop_last() =~= a);
    assert(a2.drop_last() =~= a1);
    if a.len() > 0 {
        assert(a[a.len() - 1] == a.last());
    }
    assert(format_run(a1, subs).in_placeholder);
    assert(format_run(a2, subs).formatted == a.push('%'));
    lemma_run_append_plain(a2, b, subs);
    assert(a + seq!['%', '%'] + b =~= a2 + b);
    assert(a.push('%') + b =~= a + seq!['%'] + b);
}

/// The characters of `s` that are not whitespace, in order.
pub open spec fn strip_white_space(s: Seq<char>) -> Seq<char>
    decreases s.len(),
{
    if s.len() == 0 {
        Seq::empty()
    } else if unicode_white_space(s.last()) {
        strip_white_space(s.drop_last())
    } else {
        strip_white_space(s.drop_last()).push(s.last())
    }
}

proof fn lemma_run_open_placeholder(body: Seq<char>, subs: Map<Seq<char>, Value>)
    requires
        !body.contains('%'),
    ensures
        format_run(seq!['%'] + body, subs) == (FormatState {
            formatted: Seq::empty(),
            placeholder: strip_white_space(body),
            text: seq!['%'] + body,
            in_placeholder: true,
            prev: if body.len() == 0 { Some('%') } else { Some(body.last()) },
        }),
    decreases body.len(),
{
    let s = seq!['%'] + body;
    if body.len() == 0 {
        assert(s =~= seq!['%']);
        assert(body =~= Seq::<char>::empty());
        assert(s.drop_last() =~= Seq::<char>::empty());
        assert(format_run(s.drop_last(), subs) == initial_format_state());
        assert(Seq::<char>::empty().push('%') =~= seq!['%']);
    } else {
        let p = body.drop_last();
        assert(!p.contains('%')) by {
            if p.contains('%') {
                let k = choose|k: int| 0 <= k < p.len() && p[k] == '%';
                assert(body[k] == '%');
            }
        }
        lemma_run_open_placeholder(p, subs);
        assert(s.drop_last() =~= seq!['%'] + p);
        assert(body[body.len() - 1] == body.last());
        assert(s.last() == body.last());
        assert(body.last() != '%');
        assert(p.push(body.last()) =~= body);
        assert((seq!['%'] + p).push(body.last()) =~= s);
        if p.len() > 0 {
            assert(body[p.len() - 1] == p.last());
        }
    }
}

/// A string that is one placeholder `%body%` comes out as the text of the
/// alias that the body names, whitespace in it ignored, when that alias is
/// bound, and unchanged when it is not.
pub proof fn law_format_placeholder(body: Seq<char>, subs: Map<Seq<char>, Value>)
    requires
        body.len() > 0,
        !body.contains('%'),
    ensures
        formatted(seq!['%'] + body + seq!['%'], subs) == if subs.contains_key(strip_white_space(body)) {
            value_text(subs[strip_white_space(body)].kind)
        } else {
            seq!['%'] + body + seq!['%']
        },
{
    lemma_run_open_placeholder(body, subs);
    let s = seq!['%'] + body + seq!['%'];
    assert(s.drop_last() =~= seq!['%'] + body);
    assert(body[body.len() - 1] == body.last());
    assert(s.last() == '%');
    let name = strip_white_space(body);
    if subs.contains_key(name) {
        assert(Seq::<char>::empty() + value_text(subs[name].kind) =~= value_text(subs[name].kind));
    } else {
        assert(Seq::<char>::empty() + (seq!['%'] + body).push('%') =~= s);
    }
}

/// Whether the scanner stands outside any placeholder with nothing pending,
/// and the last character read is no `%`.
pub open spec fn settled(st: FormatState) -> bool {
    &&& !st.in_placeholder
    &&& st.placeholder == Seq::<char>::empty()
    &&& st.text == Seq::<char>::empty()
    &&& st.prev != Some('%')
}

proof fn lemma_run_open_after(p: Seq<char>, body: Seq<char>, subs: Map<Seq<char>, Value>)
    requires
        settled(format_run(p, subs)),
        !body.contains('%'),
    ensures
        format_run(p + seq!['%'] + body, subs) == (FormatState {
            formatted: format_run(p, subs).formatted,
            placeholder: strip_white_space(body),
            text: seq!['%'] + body,
            in_placeholder: true,
            prev: if body.len() == 0 { Some('%') } else { Some(body.last()) },
        }),
    decreases body.len(),
{
    let s = p + seq!['%'] + body;
    if body.len() == 0 {
        assert(s =~= p.push('%'));
        assert(s.drop_last() =~= p);
        assert(Seq::<char>::empty().push('%') =~= seq!['%']);
        assert(seq!['%'] + body =~= seq!['%']);
    } else {
        let b = body.drop_last();
        assert(!b.contains('%')) by {
            if b.contains('%') {
                let k = choose|k: int| 0 <= k < b.len() && b[k] == '%';
                assert(body[k] == '%');
            }
        }
        lemma_run_open_after(p, b, subs);
        assert(s.drop_last() =~= p + seq!['%'] + b);
        assert(body[body.len() - 1] == body.last());
        assert(s.last() == body.last());
        assert(body.last() != '%');
        assert(b.push(body.last()) =~= body);
        assert((seq!['%'] + b).push(body.last()) =~= seq!['%'] + body);
        if b.len() > 0 {
            assert(body[b.len() - 1] == b.last());
        }
    }
}

proof fn lemma_run_close_after(p: Seq<char>, body: Seq<char>, subs: Map<Seq<char>, Value>)
    requires
        settled(format_run(p, subs)),
        body.len() > 0,
        !body.contains('%'),
    ensures
        format_run(p + (seq!['%'] + body + seq!['%']), subs) == (FormatState {
            formatted: format_run(p, subs).formatted + formatted(seq!['%'] + body + seq!['%'], subs),
            placeholder: Seq::empty(),
            text: Seq::empty(),
            in_placeholder: false,
            prev: Some('%'),
        }),
{
    lemma_run_open_after(p, body, subs);
    law_format_placeholder(body, subs);
    let s = p + (seq!['%'] + body + seq!['%']);
    assert(s.drop_last() =~= p + seq!['%'] + body);
    assert(s.last() == '%');
    assert(body[body.len() - 1] == body.last());
    let f = format_run(p, subs).formatted;
    let name = strip_white_space(body);
    if !subs.contains_key(name) {
        assert(f + (seq!['%'] + body).push('%') =~= f + (seq!['%'] + body + seq!['%']));
    }
}

/// Formatting distributes over text joined to closed placeholders: two
/// placeholders separated by text without `%` come out as the first one
/// formatted alone, the separating text, and the second one formatted alone.
/// So a closed placeholder leaves nothing behind that changes how the next
/// one reads.
pub proof fn law_format_placeholders_in_sequence(
    x: Seq<char>,
    m: Seq<char>,
    y: Seq<char>,
    subs: Map<Seq<char>, Value>,
)
    requires
        x.len() > 0,
        !x.contains('%'),
        m.len() > 0,
        !m.contains('%'),
        y.len() > 0,
        !y.contains('%'),
    ensures
        formatted(seq!['%'] + x + seq!['%'] + m + seq!['%'] + y + seq!['%'], subs) == formatted(
            seq!['%'] + x + seq!['%'],
            subs,
        ) + m + formatted(seq!['%'] + y + seq!['%'], subs),
{
    let e = Seq::<char>::empty();
    assert(format_run(e, subs) == initial_format_state());
    lemma_run_close_after(e, x, subs);
    let a = seq!['%'] + x + seq!['%'];
    assert(e + a =~= a);
    lemma_run_append_plain(a, m, subs);
    assert(m[m.len() - 1] == m.last());
    assert(m.last() != '%');
    let am = a + m;
    lemma_run_close_after(am, y, subs);
    let b = seq!['%'] + y + seq!['%'];
    let s = seq!['%'] + x + seq!['%'] + m + seq!['%'] + y + seq!['%'];
    assert(am + b =~= s);
    assert(Seq::<char>::empty() + formatted(a, subs) =~= formatted(a, subs));
}

/// A placeholder naming a bound alias comes out as the text that the alias's
/// value holds: the name of an identifier, the text of a type, an expression,
/// an integer literal, raw or other tokens, the contents of a string literal,
/// and for a path its segments' names joined by `::`.
pub proof fn law_format_placeholder_value(body: Seq<char>, subs: Map<Seq<char>, Value>)
    requires
        body.len() > 0,
        !body.contains('%'),
        subs.contains_key(strip_white_space(body)),
    ensures
        ({
            let out = formatted(seq!['%'] + body + seq!['%'], subs);
            match subs[strip_white_space(body)].kind {
                ValueKind::Ident(s) => out == s@,
                ValueKind::Path(segs) => out == join_path(segs@.map_values(|t: String| t@)),
                ValueKind::Type(s) => out == s@,
                ValueKind::Expr(s) => out == s@,
                ValueKind::LitStr(s) => out == s@,
                ValueKind::LitInt(s) => out == s@,
                ValueKind::Tokens(s) => out == s@,
                ValueKind::Raw(s) => out == s@,
            }
        }),
{
    law_format_placeholder(body, subs);
}

/// Formats a [`Value`] as the text it stands for inside strings: an identifier
/// by its name, a path by its segments' names joined with `::`, a string
/// literal by its contents, and other values by their printed tokens.
pub fn format_value(value: &Value) -> (s: String)
    ensures
        s@ == value_text(value.kind),
{
    match &value.kind {
        ValueKind::Ident(s) => s.clone(),
        ValueKind::Path(segments) => {
            let ghost names = segments@.map_values(|s: String| s@);
            let mut out = String::new();
            let mut i: usize = 0;
            while i < segments.len()
                invariant
                    i <= segments.len(),
                    names == segments@.map_values(|s: String| s@),
                    out@ == join_path(names.take(i as int)),
                decreases segments.len() - i,
            {
                proof {
                    assert(names.take(i + 1).drop_last() =~= names.take(i as int));
                    reveal_strlit("::");
                }
                if i > 0 {
                    out.append("::");
                }
                out.append(segments[i].as_str());
                i = i + 1;
            }
            proof {
                assert(names.take(segments.len() as int) =~= names);
            }
            out
        },
        ValueKind::Type(s) => s.clone(),
        ValueKind::Expr(s) => s.clone(),
        ValueKind::LitStr(s) => s.clone(),
        ValueKind::LitInt(s) => s.clone(),
        ValueKind::Tokens(s) => s.clone(),
        ValueKind::Raw(s) => s.clone(),
    }
}

/// Substitutes `% alias %`-style placeholders in a string.
///
/// A placeholder is the text between two `%`; whitespace in it is ignored.
/// A placeholder naming a bound alias is replaced by the text of its value;
/// any other placeholder, and one left open at the end, is kept as written.
/// `%%` stands for a single `%`.
pub fn format_string(value: &str, substitutions: &Substitutions) -> (r: String)
    ensures
        r@ == formatted(value@, substitutions@),
{
    let ghost subs = substitutions@;
    let mut formatted = String::new();
    let mut placeholder = String::new();
    let mut placeholder_text = String::new();
    let mut in_placeholder = false;
    let mut prev_c: Option<char> = None;

    let n = value.unicode_len();
    let mut i: usize = 0;
    while i < n
        invariant
            n == value@.len(),
            i <= n,
            subs == substitutions@,
            format_run(value@.take(i as int), subs) == (FormatState {
                formatted: formatted@,
                placeholder: placeholder@,
                text: placeholder_text@,
                in_placeholder,
                prev: prev_c,
            }),
        decreases n - i,
    {
        let c = value.get_char(i);
        proof {
            assert(value@.take(i + 1).drop_last() =~= value@.take(i as int));
        }
        if c == '%' && prev_c == Some('%') {
            push_char(&mut formatted, '%');
            in_placeholder = false;
            placeholder = String::new();
            placeholder_text = String::new();
        } else if c == '%' && in_placeholder {
            match substitutions.get(placeholder.as_str()) {
                Some(sub) => {
                    let text = format_value(sub);
                    formatted.append(text.as_str());
                },
                None => {
                    formatted.append(placeholder_text.as_str());
                    push_char(&mut formatted, '%');
                },
            }
            in_placeholder = false;
            placeholder = String::new();
            placeholder_text = String::new();
        } else if c == '%' {
            in_placeholder = true;
            push_char(&mut placeholder_text, c);
        } else if in_placeholder && is_whitespace(c) {
            push_char(&mut placeholder_text, c);
        } else if in_placeholder {
            push_char(&mut placeholder, c);
            push_char(&mut placeholder_text, c);
        } else {
            push_char(&mut formatted, c);
        }
        prev_c = Some(c);
        i = i + 1;
    }
    proof {
        assert(value@.take(n as int) =~= value@);
    }
    if in_placeholder {
        formatted.append(placeholder_text.as_str());
    }
    formatted
}

} // verus!
