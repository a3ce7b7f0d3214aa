use vstd::prelude::*;
use crate::lexer::{
    bare_end, body_end, code_tokens, drop_comments, is_bare, is_comment, is_separator,
    is_single, lex, lex_at, token_end,
};
use crate::printer::{decimal_nat, digit_char, print_form, print_items};
use crate::reader::{
    all_digits, atom, digit_value, digits_value, int_of, is_digit, looks_numeric, read_at,
    read_items, unsigned_part,
};
use crate::types::{Form, LexerError, Mal};

verus! {

broadcast use vstd::seq::group_seq_axioms;

/// A symbol name that reads back as the same symbol: a run of bare characters that does not
/// start like another token, like an integer, or spell one of the literals.
pub open spec fn is_symbol_name(s: Seq<char>) -> bool {
    &&& s.len() > 0
    &&& !is_single(s[0])
    &&& forall|j: int| 0 <= j < s.len() ==> is_bare(#[trigger] s[j])
    &&& !looks_numeric(s)
    &&& s != seq!['t', 'r', 'u', 'e']
    &&& s != seq!['f', 'a', 'l', 's', 'e']
    &&& s != seq!['n', 'i', 'l']
}

/// A form whose text reads back as itself: integers within `i32`, string contents that are a
/// well-formed literal body (every quote escaped, no dangling backslash), symbol names as above.
pub open spec fn readable(f: Form) -> bool
    decreases f, 0int,
{
    match f {
        Form::Int(n) => i32::MIN <= n <= i32::MAX,
        Form::Str(s) => body_end(s, 0) == s.len(),
        Form::Symbol(s) => is_symbol_name(s),
        Form::List(items) => readable_items(items),
        _ => true,
    }
}

pub open spec fn readable_items(items: Seq<Form>) -> bool
    decreases items, 1int,
{
    if items.len() == 0 {
        true
    } else {
        readable_items(items.subrange(0, items.len() - 1)) && readable(items[items.len() - 1])
    }
}

/// The tokens of the text of a form.
pub open spec fn form_tokens(f: Form) -> Seq<Seq<char>>
    decreases f, 0int,
{
    match f {
        Form::List(items) => seq![seq!['(']] + items_tokens(items) + seq![seq![')']],
        _ => seq![print_form(f)],
    }
}

pub open spec fn items_tokens(items: Seq<Form>) -> Seq<Seq<char>>
    decreases items, 1int,
{
    if items.len() == 0 {
        Seq::empty()
    } else {
        items_tokens(items.subrange(0, items.len() - 1)) + form_tokens(items[items.len() - 1])
    }
}

/// Where a token may end: at the end of the text, a separator or a closing parenthesis.
pub open spec fn ends_token(s: Seq<char>, e: int) -> bool {
    e == s.len() || is_separator(s[e]) || s[e] == ')'
}

pub open spec fn no_comments(ts: Seq<Seq<char>>) -> bool {
    forall|k: int| 0 <= k < ts.len() ==> #[trigger] ts[k].len() > 0 && ts[k][0] != ';'
}

proof fn lemma_split<A>(s: Seq<A>, i: int, a: Seq<A>, b: Seq<A>)
    requires
        0 <= i,
        i + a.len() + b.len() <= s.len(),
        s.subrange(i, i + a.len() + b.len()) == a + b,
    ensures
        s.subrange(i, i + a.len()) == a,
        s.subrange(i + a.len(), i + a.len() + b.len()) == b,
{
    assert forall|k: int| 0 <= k < a.len() implies s.subrange(i, i + a.len())[k] == a[k] by {
        assert(s[i + k] == (a + b)[k]);
    }
    assert forall|k: int| 0 <= k < b.len() implies s.subrange(
        i + a.len(),
        i + a.len() + b.len(),
    )[k] == b[k] by {
        assert(s[i + a.len() + k] == (a + b)[a.len() + k]);
    }
    assert(s.subrange(i, i + a.len()) =~= a);
    assert(s.subrange(i + a.len(), i + a.len() + b.len()) =~= b);
}

proof fn lemma_bare_run(s: Seq<char>, k: int, e: int)
    requires
        0 <= k <= e <= s.len(),
        forall|j: int| k <= j < e ==> is_bare(#[trigger] s[j]),
        e == s.len() || !is_bare(s[e]),
    ensures
        bare_end(s, k) == e,
    decreases e - k,
{
    if k < e {
        lemma_bare_run(s, k + 1, e);
    }
}

/// A body that scans to its own end scans the same way inside a longer text.
proof fn lemma_body_in_context(s: Seq<char>, o: int, q: Seq<char>, k: int)
    requires
        0 <= o,
        o + q.len() <= s.len(),
        s.subrange(o, o + q.len()) == q,
        0 <= k <= q.len(),
        body_end(q, k) == q.len(),
    ensures
        body_end(s, o + k) == body_end(s, o + q.len()),
    decreases q.len() - k,
{
    if k < q.len() {
        assert(s[o + k] == q[k]);
        if q[k] == '\\' {
            assert(s[o + k + 1] == q[k + 1]);
            lemma_body_in_context(s, o, q, k + 2);
        } else {
            lemma_body_in_context(s, o, q, k + 1);
        }
    }
}

proof fn lemma_digit_char(d: int)
    requires
        0 <= d < 10,
    ensures
        is_digit(digit_char(d)),
        digit_value(digit_char(d)) == d,
{
}

proof fn lemma_decimal_nat(n: nat)
    ensures
        decimal_nat(n).len() > 0,
        all_digits(decimal_nat(n)),
        digits_value(decimal_nat(n)) == n,
    decreases n,
{
    lemma_digit_char((n % 10) as int);
    if n >= 10 {
        lemma_decimal_nat(n / 10);
        let d = decimal_nat(n);
        assert(d.drop_last() =~= decimal_nat(n / 10));
        assert(d.last() == digit_char((n % 10) as int));
        vstd::arithmetic::div_mod::lemma_fundamental_div_mod(n as int, 10);
        assert(digits_value(d) == digits_value(d.drop_last()) * 10 + digit_value(d.last()));
        assert(digit_value(d.last()) == n % 10);
        assert(digits_value(d.drop_last()) == n / 10);
        assert(all_digits(d)) by {
            assert forall|i: int| 0 <= i < d.len() implies is_digit(#[trigger] d[i]) by {
                if i < d.len() - 1 {
                    assert(d[i] == decimal_nat(n / 10)[i]);
                }
            }
        }
    } else {
        lemma_digit_char(n as int);
        let d = decimal_nat(n);
        assert(d.drop_last() =~= Seq::<char>::empty());
        assert(digits_value(d) == digits_value(d.drop_last()) * 10 + digit_value(d.last()));
        assert(d.last() == digit_char(n as int));
    }
}

/// The text of a bare atom (not a string, not a list) is one token of bare characters.
proof fn lemma_bare_atom(f: Form)
    requires
        readable(f),
        !(f is Str),
        !(f is List),
    ensures
        print_form(f).len() > 0,
        !is_single(print_form(f)[0]),
        forall|j: int| 0 <= j < print_form(f).len() ==> is_bare(#[trigger] print_form(f)[j]),
        atom(print_form(f)) == Ok::<Form, LexerError>(f),
{
    let p = print_form(f);
    match f {
        Form::Int(n) => {
            let m: nat = if n < 0 {
                (-n) as nat
            } else {
                n as nat
            };
            lemma_decimal_nat(m);
            let d = decimal_nat(m);
            assert(forall|j: int| 0 <= j < d.len() ==> is_bare(#[trigger] d[j])) by {
                assert forall|j: int| 0 <= j < d.len() implies is_bare(#[trigger] d[j]) by {
                    assert(is_digit(d[j]));
                }
            }
            if n < 0 {
                assert(p =~= seq!['-'] + d);
                assert(p[0] == '-');
                assert(forall|j: int| 0 <= j < p.len() ==> is_bare(#[trigger] p[j])) by {
                    assert forall|j: int| 0 <= j < p.len() implies is_bare(#[trigger] p[j]) by {
                        if j > 0 {
                            assert(p[j] == d[j - 1]);
                        }
                    }
                }
                assert(unsigned_part(p) =~= d);
                assert(is_digit(d[0]));
                assert(p[1] == d[0]);
            } else {
                assert(p == d);
                assert(is_digit(d[0]));
                assert(unsigned_part(p) =~= d);
            }
            assert(p != seq!['t', 'r', 'u', 'e']);
            assert(p != seq!['f', 'a', 'l', 's', 'e']);
            assert(p != seq!['n', 'i', 'l']);
            assert(int_of(p) == Some(n));
        },
        Form::Nil => {
            assert(p =~= seq!['n', 'i', 'l']);
        },
        Form::True => {
            assert(p =~= seq!['t', 'r', 'u', 'e']);
        },
        Form::False => {
            assert(p =~= seq!['f', 'a', 'l', 's', 'e']);
        },
        _ => {},
    }
}

/// Lexing the text of a form, wherever it stands in a text and followed by a place where a
/// token may end, yields the form's tokens and goes on after it.
proof fn lemma_lex_form(s: Seq<char>, i: int, f: Form)
    requires
        readable(f),
        0 <= i,
        i + print_form(f).len() <= s.len(),
        s.subrange(i, i + print_form(f).len()) == print_form(f),
        ends_token(s, i + print_form(f).len()),
    ensures
        lex_at(s, i) == form_tokens(f) + lex_at(s, i + print_form(f).len()),
        no_comments(form_tokens(f)),
    decreases f, 0int,
{
    let p = print_form(f);
    let e = i + p.len();
    match f {
        Form::List(items) => {
            let pi = print_items(items);
            assert(p =~= seq!['('] + (pi + seq![')']));
            lemma_split(s, i, seq!['('], pi + seq![')']);
            lemma_split(s, i + 1, pi, seq![')']);
            assert(token_end(s, i) == i + 1);
            assert(s.subrange(i, i + 1) =~= seq!['(']);
            assert(s[i + 1 + pi.len()] == s.subrange(i + 1 + pi.len(), i + 2 + pi.len())[0]);
            assert(s[i] == s.subrange(i, i + 1)[0]);
            lemma_lex_items(s, i + 1, items);
            let j = i + 1 + pi.len();
            assert(token_end(s, j) == j + 1);
            assert(s.subrange(j, j + 1) =~= seq![')']);
            assert(lex_at(s, j) == seq![seq![')']] + lex_at(s, j + 1));
            assert(lex_at(s, i) == seq![seq!['(']] + lex_at(s, i + 1));
            assert(lex_at(s, i) =~= form_tokens(f) + lex_at(s, e));
            let ft = form_tokens(f);
            let it = items_tokens(items);
            assert forall|k: int| 0 <= k < ft.len() implies #[trigger] ft[k].len() > 0 && ft[k][0]
                != ';' by {
                if 0 < k < ft.len() - 1 {
                    assert(ft[k] == it[k - 1]);
                }
            }
        },
        Form::Str(q) => {
            assert(p =~= seq!['"'] + (q + seq!['"']));
            lemma_split(s, i, seq!['"'], q + seq!['"']);
            lemma_split(s, i + 1, q, seq!['"']);
            assert(s[i] == s.subrange(i, i + 1)[0]);
            assert(s[i + 1 + q.len()] == s.subrange(i + 1 + q.len(), i + 2 + q.len())[0]);
            lemma_body_in_context(s, i + 1, q, 0);
            assert(body_end(s, i + 1) == i + 1 + q.len());
            assert(token_end(s, i) == e);
            assert(lex_at(s, i) =~= form_tokens(f) + lex_at(s, e));
        },
        _ => {
            lemma_bare_atom(f);
            assert(s[i] == p[0]);
            assert forall|j: int| i <= j < e implies is_bare(#[trigger] s[j]) by {
                assert(s[j] == p[j - i]);
            }
            lemma_bare_run(s, i, e);
            assert(!is_separator(s[i]));
            assert(token_end(s, i) == e);
            assert(lex_at(s, i) =~= form_tokens(f) + lex_at(s, e));
        },
    }
}

proof fn lemma_lex_items(s: Seq<char>, i: int, items: Seq<Form>)
    requires
        readable_items(items),
        0 <= i,
        i + print_items(items).len() <= s.len(),
        s.subrange(i, i + print_items(items).len()) == print_items(items),
        ends_token(s, i + print_items(items).len()),
    ensures
        lex_at(s, i) == items_tokens(items) + lex_at(s, i + print_items(items).len()),
        no_comments(items_tokens(items)),
    decreases items, 1int,
{
    let n = items.len();
    if n == 0 {
        assert(items_tokens(items) =~= Seq::<Seq<char>>::empty());
    } else {
        let init = items.subrange(0, n - 1);
        let last = items[n - 1];
        if n == 1 {
            assert(init =~= Seq::<Form>::empty());
            assert(items_tokens(init) =~= Seq::<Seq<char>>::empty());
            lemma_lex_form(s, i, last);
            assert(items_tokens(items) =~= form_tokens(last));
        } else {
            let a = print_items(init);
            let b = print_form(last);
            assert(print_items(items) =~= a + (seq![' '] + b));
            lemma_split(s, i, a, seq![' '] + b);
            lemma_split(s, i + a.len(), seq![' '], b);
            assert(s[i + a.len()] == s.subrange(i + a.len(), i + a.len() + 1)[0]);
            lemma_lex_items(s, i, init);
            lemma_lex_form(s, i + a.len() + 1, last);
            assert(lex_at(s, i + a.len()) == lex_at(s, i + a.len() + 1));
            assert(lex_at(s, i) =~= items_tokens(items) + lex_at(
                s,
                i + print_items(items).len(),
            ));
            let ts = items_tokens(items);
            let ti = items_tokens(init);
            assert forall|k: int| 0 <= k < ts.len() implies #[trigger] ts[k].len() > 0 && ts[k][0]
                != ';' by {
                if k < ti.len() {
                    assert(ts[k] == ti[k]);
                } else {
                    assert(ts[k] == form_tokens(last)[k - ti.len()]);
                }
            }
        }
    }
}

/// The first token of a form never closes a list.
proof fn lemma_first_token(f: Form)
    requires
        readable(f),
    ensures
        form_tokens(f).len() > 0,
        form_tokens(f)[0] != seq![')'],
{
    let ft = form_tokens(f);
    match f {
        Form::List(items) => {
            assert(ft[0] == seq!['(']);
            assert(seq!['('][0] != seq![')'][0]);
        },
        Form::Str(q) => {
            assert(ft[0][0] == '"');
            assert(seq![')'][0] == ')');
        },
        _ => {
            lemma_bare_atom(f);
            assert(ft[0] == print_form(f));
            assert(is_bare(ft[0][0]));
            assert(seq![')'][0] == ')');
        },
    }
}

/// Reading from the first of a form's tokens gives back the form and moves past its tokens.
proof fn lemma_read_form(toks: Seq<Seq<char>>, pos: int, f: Form)
    requires
        readable(f),
        0 <= pos,
        pos + form_tokens(f).len() <= toks.len(),
        toks.subrange(pos, pos + form_tokens(f).len()) == form_tokens(f),
    ensures
        read_at(toks, pos) == Ok::<(Form, int), LexerError>((f, pos + form_tokens(f).len())),
    decreases f, 0int,
{
    let ft = form_tokens(f);
    let p = print_form(f);
    match f {
        Form::List(items) => {
            let it = items_tokens(items);
            assert(ft =~= seq![seq!['(']] + (it + seq![seq![')']]));
            lemma_split(toks, pos, seq![seq!['(']], it + seq![seq![')']]);
            lemma_split(toks, pos + 1, it, seq![seq![')']]);
            assert(toks[pos] == toks.subrange(pos, pos + 1)[0]);
            let e = pos + 1 + it.len();
            assert(toks[e] == toks.subrange(e, e + 1)[0]);
            lemma_read_items(toks, pos + 1, items, Seq::empty());
            assert(Seq::<Form>::empty() + items =~= items);
        },
        Form::Str(q) => {
            assert(toks[pos] == toks.subrange(pos, pos + 1)[0]);
            assert(toks[pos] == p);
            assert(p =~= seq!['"'] + (q + seq!['"']));
            assert(p.subrange(0, p.len() as int) =~= p);
            lemma_split(p, 0, seq!['"'], q + seq!['"']);
            lemma_split(p, 1, q, seq!['"']);
            lemma_body_in_context(p, 1, q, 0);
            assert(p[1 + q.len() as int] == '"');
            assert(body_end(p, 1) == p.len() - 1);
            assert(p[0] == '"');
            assert(p != seq!['('] && p != seq!['t', 'r', 'u', 'e'] && p != seq![
                'f',
                'a',
                'l',
                's',
                'e',
            ] && p != seq!['n', 'i', 'l']) by {
                assert(seq!['('][0] == '(');
                assert(seq!['t', 'r', 'u', 'e'][0] == 't');
                assert(seq!['f', 'a', 'l', 's', 'e'][0] == 'f');
                assert(seq!['n', 'i', 'l'][0] == 'n');
            }
            assert(p.subrange(1, p.len() - 1) =~= q);
        },
        _ => {
            assert(toks[pos] == toks.subrange(pos, pos + 1)[0]);
            assert(toks[pos] == p);
            lemma_bare_atom(f);
            assert(p != seq!['(']) by {
                assert(seq!['('][0] == '(');
            }
        },
    }
}

proof fn lemma_read_items(toks: Seq<Seq<char>>, pos: int, items: Seq<Form>, acc: Seq<Form>)
    requires
        readable_items(items),
        0 <= pos,
        pos + items_tokens(items).len() <= toks.len(),
        toks.subrange(pos, pos + items_tokens(items).len()) == items_tokens(items),
    ensures
        read_items(toks, pos, acc) == read_items(toks, pos + items_tokens(items).len(), acc + items),
    decreases items, 1int,
{
    let n = items.len();
    if n == 0 {
        assert(acc + items =~= acc);
    } else {
        let init = items.subrange(0, n - 1);
        let last = items[n - 1];
        let ti = items_tokens(init);
        let ft = form_tokens(last);
        lemma_split(toks, pos, ti, ft);
        lemma_read_items(toks, pos, init, acc);
        let q = pos + ti.len();
        lemma_first_token(last);
        lemma_read_form(toks, q, last);
        assert(toks[q] == toks.subrange(q, q + ft.len())[0]);
        assert((acc + init).push(last) =~= acc + items);
    }
}

proof fn lemma_drop_no_comments(ts: Seq<Seq<char>>)
    requires
        no_comments(ts),
    ensures
        drop_comments(ts) == ts,
    decreases ts.len(),
{
    if ts.len() > 0 {
        let init = ts.drop_last();
        assert(no_comments(init)) by {
            assert forall|k: int| 0 <= k < init.len() implies #[trigger] init[k].len() > 0
                && init[k][0] != ';' by {
                assert(init[k] == ts[k]);
            }
        }
        lemma_drop_no_comments(init);
        assert(ts[ts.len() - 1].len() > 0);
        assert(!is_comment(ts.last()));
        assert(init.push(ts.last()) =~= ts);
    }
}

proof fn lemma_skip_separators(s: Seq<char>, i: int, e: int)
    requires
        0 <= i <= e <= s.len(),
        forall|j: int| i <= j < e ==> is_separator(#[trigger] s[j]),
    ensures
        lex_at(s, i) == lex_at(s, e),
    decreases e - i,
{
    if i < e {
        lemma_skip_separators(s, i + 1, e);
    }
}

/// The text of a readable form lexes into the form's tokens, none of them a comment.
proof fn lemma_lex_printed(f: Form)
    requires
        readable(f),
    ensures
        lex(print_form(f)) == form_tokens(f),
        code_tokens(print_form(f)) == form_tokens(f),
{
    let p = print_form(f);
    assert(p.subrange(0, p.len() as int) =~= p);
    lemma_lex_form(p, 0, f);
    assert(form_tokens(f) + lex_at(p, p.len() as int) =~= form_tokens(f));
    lemma_drop_no_comments(form_tokens(f));
}

/// Printing a tree and reading the text back gives the same tree, and consumes every token of
/// the text. A tree qualifies when each of its integers fits in `i32`, each string holds a
/// well-formed literal body, and each symbol name is one that reads as a symbol.
pub proof fn lemma_print_read_round_trip(v: Mal)
    requires
        readable(v@),
    ensures
        read_at(code_tokens(print_form(v@)), 0) == Ok::<(Form, int), LexerError>(
            (v@, code_tokens(print_form(v@)).len() as int),
        ),
{
    let f = v@;
    lemma_lex_printed(f);
    let ft = form_tokens(f);
    assert(ft.subrange(0, ft.len() as int) =~= ft);
    lemma_read_form(ft, 0, f);
}

/// Separators (white space and commas) before and after the text of a readable form leave its
/// tokens, and so their number, as they are.
pub proof fn lemma_surrounding_separators(v: Mal, before: Seq<char>, after: Seq<char>)
    requires
        readable(v@),
        forall|j: int| 0 <= j < before.len() ==> is_separator(#[trigger] before[j]),
        forall|j: int| 0 <= j < after.len() ==> is_separator(#[trigger] after[j]),
    ensures
        lex(before + print_form(v@) + after) == lex(print_form(v@)),
        lex(before + print_form(v@) + after).len() == lex(print_form(v@)).len(),
{
    let f = v@;
    let p = print_form(f);
    let s = before + p + after;
    let b = before.len() as int;
    let e = b + p.len();
    assert forall|j: int| 0 <= j < b implies is_separator(#[trigger] s[j]) by {
        assert(s[j] == before[j]);
    }
    assert forall|j: int| e <= j < s.len() implies is_separator(#[trigger] s[j]) by {
        assert(s[j] == after[j - e]);
    }
    lemma_skip_separators(s, 0, b);
    lemma_skip_separators(s, e, s.len() as int);
    assert(s.subrange(b, e) =~= p);
    lemma_lex_form(s, b, f);
    lemma_lex_printed(f);
    assert(lex_at(s, s.len() as int) == Seq::<Seq<char>>::empty());
    assert(form_tokens(f) + lex_at(s, e) =~= form_tokens(f));
}

pub open spec fn all_separators(g: Seq<char>) -> bool {
    forall|j: int| 0 <= j < g.len() ==> is_separator(#[trigger] g[j])
}

/// The text of a form laid out with `pad` after each opening and before each closing
/// parenthesis, and `sep` between the items of a list.
pub open spec fn spaced_form(f: Form, pad: Seq<char>, sep: Seq<char>) -> Seq<char>
    decreases f, 0int,
{
    match f {
        Form::List(items) => seq!['('] + pad + spaced_items(items, pad, sep) + pad + seq![')'],
        _ => print_form(f),
    }
}

pub open spec fn spaced_items(items: Seq<Form>, pad: Seq<char>, sep: Seq<char>) -> Seq<char>
    decreases items, 1int,
{
    if items.len() == 0 {
        Seq::empty()
    } else if items.len() == 1 {
        spaced_form(items[0], pad, sep)
    } else {
        spaced_items(items.subrange(0, items.len() - 1), pad, sep) + sep + spaced_form(
            items[items.len() - 1],
            pad,
            sep,
        )
    }
}

/// The canonical text is the layout with no padding and one space between items.
pub proof fn lemma_print_is_spaced(f: Form)
    ensures
        print_form(f) == spaced_form(f, Seq::empty(), seq![' ']),
    decreases f, 0int,
{
    if let Form::List(items) = f {
        lemma_print_items_spaced(items);
        assert(print_form(f) =~= spaced_form(f, Seq::empty(), seq![' ']));
    }
}

proof fn lemma_print_items_spaced(items: Seq<Form>)
    ensures
        print_items(items) == spaced_items(items, Seq::empty(), seq![' ']),
    decreases items, 1int,
{
    let n = items.len();
    if n == 1 {
        lemma_print_is_spaced(items[0]);
    } else if n > 1 {
        lemma_print_items_spaced(items.subrange(0, n - 1));
        lemma_print_is_spaced(items[n - 1]);
    }
}

proof fn lemma_lex_spaced(s: Seq<char>, i: int, f: Form, pad: Seq<char>, sep: Seq<char>)
    requires
        readable(f),
        all_separators(pad),
        all_separators(sep),
        sep.len() > 0,
        0 <= i,
        i + spaced_form(f, pad, sep).len() <= s.len(),
        s.subrange(i, i + spaced_form(f, pad, sep).len()) == spaced_form(f, pad, sep),
        ends_token(s, i + spaced_form(f, pad, sep).len()),
    ensures
        lex_at(s, i) == form_tokens(f) + lex_at(s, i + spaced_form(f, pad, sep).len()),
    decreases f, 0int,
{
    let p = spaced_form(f, pad, sep);
    let e = i + p.len();
    match f {
        Form::List(items) => {
            let pi = spaced_items(items, pad, sep);
            assert(p =~= seq!['('] + (pad + (pi + (pad + seq![')']))));
            lemma_split(s, i, seq!['('], pad + (pi + (pad + seq![')'])));
            lemma_split(s, i + 1, pad, pi + (pad + seq![')']));
            lemma_split(s, i + 1 + pad.len(), pi, pad + seq![')']);
            let j = i + 1 + pad.len() + pi.len();
            lemma_split(s, j, pad, seq![')']);
            assert(s[i] == s.subrange(i, i + 1)[0]);
            assert(token_end(s, i) == i + 1);
            assert(s.subrange(i, i + 1) =~= seq!['(']);
            assert(lex_at(s, i) == seq![seq!['(']] + lex_at(s, i + 1));
            assert forall|k: int| i + 1 <= k < i + 1 + pad.len() implies is_separator(
                #[trigger] s[k],
            ) by {
                assert(s[k] == s.subrange(i + 1, i + 1 + pad.len())[k - i - 1]);
            }
            lemma_skip_separators(s, i + 1, i + 1 + pad.len());
            let c = j + pad.len();
            assert(s[c] == s.subrange(c, c + 1)[0]);
            if pad.len() > 0 {
                assert(s[j] == s.subrange(j, j + pad.len())[0]);
            }
            lemma_lex_spaced_items(s, i + 1 + pad.len(), items, pad, sep);
            assert forall|k: int| j <= k < c implies is_separator(#[trigger] s[k]) by {
                assert(s[k] == s.subrange(j, j + pad.len())[k - j]);
            }
            lemma_skip_separators(s, j, c);
            assert(token_end(s, c) == c + 1);
            assert(s.subrange(c, c + 1) =~= seq![')']);
            assert(lex_at(s, c) == seq![seq![')']] + lex_at(s, c + 1));
            assert(lex_at(s, i) =~= form_tokens(f) + lex_at(s, e));
        },
        _ => {
            lemma_lex_form(s, i, f);
        },
    }
}

proof fn lemma_lex_spaced_items(
    s: Seq<char>,
    i: int,
    items: Seq<Form>,
    pad: Seq<char>,
    sep: Seq<char>,
)
    requires
        readable_items(items),
        all_separators(pad),
        all_separators(sep),
        sep.len() > 0,
        0 <= i,
        i + spaced_items(items, pad, sep).len() <= s.len(),
        s.subrange(i, i + spaced_items(items, pad, sep).len()) == spaced_items(items, pad, sep),
        ends_token(s, i + spaced_items(items, pad, sep).len()),
    ensures
        lex_at(s, i) == items_tokens(items) + lex_at(s, i + spaced_items(items, pad, sep).len()),
    decreases items, 1int,
{
    let n = items.len();
    if n == 0 {
        assert(items_tokens(items) =~= Seq::<Seq<char>>::empty());
    } else {
        let init = items.subrange(0, n - 1);
        let last = items[n - 1];
        if n == 1 {
            assert(init =~= Seq::<Form>::empty());
            assert(items_tokens(init) =~= Seq::<Seq<char>>::empty());
            lemma_lex_spaced(s, i, last, pad, sep);
            assert(items_tokens(items) =~= form_tokens(last));
        } else {
            let a = spaced_items(init, pad, sep);
            let b = spaced_form(last, pad, sep);
            assert(spaced_items(items, pad, sep) =~= a + (sep + b));
            lemma_split(s, i, a, sep + b);
            lemma_split(s, i + a.len(), sep, b);
            let j = i + a.len();
            assert(s[j] == s.subrange(j, j + sep.len())[0]);
            lemma_lex_spaced_items(s, i, init, pad, sep);
            assert forall|k: int| j <= k < j + sep.len() implies is_separator(#[trigger] s[k]) by {
                assert(s[k] == s.subrange(j, j + sep.len())[k - j]);
            }
            lemma_skip_separators(s, j, j + sep.len());
            lemma_lex_spaced(s, j + sep.len(), last, pad, sep);
            assert(lex_at(s, i) =~= items_tokens(items) + lex_at(
                s,
                i + spaced_items(items, pad, sep).len(),
            ));
        }
    }
}

/// Laying out the text of a readable form with other runs of separators (white space and
/// commas) between the items of its lists, after their opening and before their closing
/// parentheses, leaves its tokens, and so their number, as they are.
pub proof fn lemma_spacing_keeps_tokens(v: Mal, pad: Seq<char>, sep: Seq<char>)
    requires
        readable(v@),
        all_separators(pad),
        all_separators(sep),
        sep.len() > 0,
    ensures
        lex(spaced_form(v@, pad, sep)) == lex(print_form(v@)),
        lex(spaced_form(v@, pad, sep)).len() == lex(print_form(v@)).len(),
{
    let f = v@;
    let p = spaced_form(f, pad, sep);
    assert(p.subrange(0, p.len() as int) =~= p);
    lemma_lex_spaced(p, 0, f, pad, sep);
    assert(form_tokens(f) + lex_at(p, p.len() as int) =~= form_tokens(f));
    lemma_lex_printed(f);
}

} // verus!
