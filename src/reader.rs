use vstd::prelude::*;
use crate::lexer::{
    body_end, chars_of, code_tokens, drop_comments, lex, push_char, scan_body, strings_view,
};
pub use crate::lexer::tokenize;
pub use crate::types::{Form, LexerError, Mal};

verus! {

broadcast use vstd::seq::group_seq_axioms, vstd::std_specs::vec::group_vec_axioms;

pub open spec fn is_digit(c: char) -> bool {
    '0' <= c && c <= '9'
}

pub open spec fn digit_value(c: char) -> int {
    c as int - '0' as int
}

pub open spec fn all_digits(d: Seq<char>) -> bool {
    forall|i: int| 0 <= i < d.len() ==> is_digit(#[trigger] d[i])
}

/// The value of a run of decimal digits.
pub open spec fn digits_value(d: Seq<char>) -> int
    decreases d.len(),
{
    if d.len() == 0 {
        0
    } else {
        digits_value(d.drop_last()) * 10 + digit_value(d.last())
    }
}

/// A token that starts like an integer: a digit, or a sign followed by a digit.
pub open spec fn looks_numeric(t: Seq<char>) -> bool {
    t.len() > 0 && (is_digit(t[0]) || ((t[0] == '-' || t[0] == '+') && t.len() > 1 && is_digit(
        t[1],
    )))
}

/// The digits of an integer token, after an optional sign.
pub open spec fn unsigned_part(t: Seq<char>) -> Seq<char> {
    if t.len() > 0 && (t[0] == '-' || t[0] == '+') {
        t.skip(1)
    } else {
        t
    }
}

/// The value of a token made of an optional sign and at least one decimal digit, if that value
/// fits in `i32`.
pub open spec fn int_of(t: Seq<char>) -> Option<int> {
    let d = unsigned_part(t);
    let v = if t.len() > 0 && t[0] == '-' {
        -digits_value(d)
    } else {
        digits_value(d)
    };
    if d.len() > 0 && all_digits(d) && i32::MIN <= v <= i32::MAX {
        Some(v)
    } else {
        None
    }
}

/// A token of the shape of a string literal.
pub open spec fn is_string_shape(t: Seq<char>) -> bool {
    t.len() > 0 && t[0] == '"'
}

/// A complete string literal: an opening quote, a body of plain characters and escapes, and a
/// closing quote.
pub open spec fn is_closed_string(t: Seq<char>) -> bool {
    t.len() >= 2 && t[0] == '"' && t[t.len() - 1] == '"' && body_end(t, 1) == t.len() - 1
}

/// What `lex_string` makes of a token.
pub open spec fn string_atom(t: Seq<char>) -> Result<Form, LexerError> {
    if is_closed_string(t) {
        Ok(Form::Str(t.subrange(1, t.len() - 1)))
    } else {
        Err(LexerError::UnbalancedString)
    }
}

/// What `lex_int` makes of a token.
pub open spec fn int_atom(t: Seq<char>) -> Result<Form, LexerError> {
    match int_of(t) {
        Some(v) => Ok(Form::Int(v)),
        None => Err(LexerError::NotANumber),
    }
}

/// The form of a token that does not open a list.
pub open spec fn atom(t: Seq<char>) -> Result<Form, LexerError> {
    if t == seq!['t', 'r', 'u', 'e'] {
        Ok(Form::True)
    } else if t == seq!['f', 'a', 'l', 's', 'e'] {
        Ok(Form::False)
    } else if t == seq!['n', 'i', 'l'] {
        Ok(Form::Nil)
    } else if is_string_shape(t) {
        string_atom(t)
    } else if looks_numeric(t) {
        int_atom(t)
    } else {
        Ok(Form::Symbol(t))
    }
}

/// Reads one form from the tokens at `pos`: the form and the position after it.
pub open spec fn read_at(toks: Seq<Seq<char>>, pos: int) -> Result<(Form, int), LexerError>
    decreases toks.len() - pos, 1int,
{
    if pos < 0 || pos >= toks.len() {
        Err(LexerError::UnsupportedSyntax)
    } else if toks[pos] == seq!['('] {
        read_items(toks, pos + 1, Seq::empty())
    } else {
        match atom(toks[pos]) {
            Ok(f) => Ok((f, pos + 1)),
            Err(e) => Err(e),
        }
    }
}

/// Reads the rest of a list whose items so far are `acc`, from `pos`. A list that is still
/// open when the tokens run out ends there.
pub open spec fn read_items(toks: Seq<Seq<char>>, pos: int, acc: Seq<Form>) -> Result<
    (Form, int),
    LexerError,
>
    decreases toks.len() - pos, 2int,
{
    if pos < 0 || pos >= toks.len() {
        Ok((Form::List(acc), pos))
    } else if toks[pos] == seq![')'] {
        Ok((Form::List(acc), pos + 1))
    } else {
        match read_at(toks, pos) {
            Ok((f, p)) => if pos < p <= toks.len() {
                read_items(toks, p, acc.push(f))
            } else {
                Err(LexerError::UnsupportedSyntax)
            },
            Err(e) => Err(e),
        }
    }
}

/// A successful read consumes at least one token and stays within the tokens.
pub proof fn lemma_read_at_advances(toks: Seq<Seq<char>>, pos: int)
    ensures
        read_at(toks, pos) matches Ok((f, p)) ==> pos < p <= toks.len(),
    decreases toks.len() - pos, 1int,
{
    if 0 <= pos < toks.len() && toks[pos] == seq!['('] {
        lemma_read_items_advances(toks, pos + 1, Seq::empty());
    }
}

pub proof fn lemma_read_items_advances(toks: Seq<Seq<char>>, pos: int, acc: Seq<Form>)
    requires
        0 <= pos <= toks.len(),
    ensures
        read_items(toks, pos, acc) matches Ok((f, p)) ==> pos <= p <= toks.len(),
    decreases toks.len() - pos, 2int,
{
    if 0 <= pos < toks.len() && toks[pos] != seq![')'] {
        lemma_read_at_advances(toks, pos);
        if let Ok((f, p)) = read_at(toks, pos) {
            if pos < p <= toks.len() {
                lemma_read_items_advances(toks, p, acc.push(f));
            }
        }
    }
}

/// A cursor over the tokens of a text.
#[derive(Debug)]
pub struct Reader {
    tokens: Vec<String>,
    position: usize,
}

impl Reader {
    /// The tokens the reader walks over.
    pub closed spec fn tokens_view(&self) -> Seq<Seq<char>> {
        strings_view(self.tokens@)
    }

    /// The position of the next token.
    pub closed spec fn position_view(&self) -> int {
        self.position as int
    }

    /// A reader at the first token of a text. Comments are left out of its tokens.
    pub fn read_str(string: &str) -> (r: Reader)
        ensures
            r.tokens_view() == code_tokens(string@),
            r.position_view() == 0,
    {
        let all = tokenize(string);
        let mut tokens: Vec<String> = Vec::new();
        let mut i: usize = 0;
        while i < all.len()
            invariant
                i <= all@.len(),
                strings_view(all@) == lex(string@),
                strings_view(tokens@) == drop_comments(strings_view(all@).subrange(0, i as int)),
            decreases all.len() - i,
        {
            let t = &all[i];
            let cs = chars_of(t.as_str());
            let ghost pre = strings_view(all@).subrange(0, i as int);
            let ghost next = strings_view(all@).subrange(0, i + 1);
            assert(next.drop_last() =~= pre);
            assert(next.last() == t@);
            if !(cs.len() > 0 && cs[0] == ';') {
                let c = t.clone();
                assert(strings_view(tokens@.push(c)) =~= strings_view(tokens@).push(t@));
                tokens.push(c);
            }
            i = i + 1;
        }
        assert(strings_view(all@).subrange(0, all@.len() as int) =~= strings_view(all@));
        Reader { tokens, position: 0 }
    }

    /// Hands out the token at the cursor, `None` at the end, and moves the cursor forward by
    /// one either way.
    pub fn next(&mut self) -> (r: Option<&String>)
        requires
            old(self).position_view() < usize::MAX,
        ensures
            final(self).tokens_view() == old(self).tokens_view(),
            final(self).position_view() == old(self).position_view() + 1,
            old(self).position_view() < old(self).tokens_view().len() ==> (r matches Some(t) && t@
                == old(self).tokens_view()[old(self).position_view()]),
            old(self).position_view() >= old(self).tokens_view().len() ==> r is None,
    {
        let p = self.position;
        self.position = p + 1;
        if p < self.tokens.len() {
            Some(&self.tokens[p])
        } else {
            None
        }
    }

    /// The token at the cursor, if any, without moving.
    pub fn peek(&self) -> (r: Option<&String>)
        ensures
            self.position_view() < self.tokens_view().len() ==> (r matches Some(t) && t@
                == self.tokens_view()[self.position_view()]),
            self.position_view() >= self.tokens_view().len() ==> r is None,
    {
        if self.position < self.tokens.len() {
            Some(&self.tokens[self.position])
        } else {
            None
        }
    }

    /// Reads the form that starts at the cursor and moves the cursor past it. A list whose
    /// closing parenthesis never comes ends with the tokens.
    pub fn read_form(&mut self) -> (r: Result<Mal, LexerError>)
        ensures
            final(self).tokens_view() == old(self).tokens_view(),
            match read_at(old(self).tokens_view(), old(self).position_view()) {
                Ok((f, p)) => r matches Ok(m) && m@ == f && final(self).position_view() == p,
                Err(e) => r == Err::<Mal, LexerError>(e),
            },
        decreases old(self).tokens_view().len() - old(self).position_view(), 1int,
    {
        let ghost toks = self.tokens_view();
        let ghost pos = self.position_view();
        if self.position >= self.tokens.len() {
            return Err(LexerError::UnsupportedSyntax);
        }
        let cs = chars_of(self.tokens[self.position].as_str());
        assert(cs@ == toks[pos]);
        if cs.len() == 1 && cs[0] == '(' {
            assert(cs@ =~= seq!['(']);
            self.position = self.position + 1;
            self.read_list()
        } else {
            assert(cs@ != seq!['('] ==> !(cs@.len() == 1 && cs@[0] == '('));
            let r = self.read_atom();
            if r.is_ok() {
                self.position = self.position + 1;
            }
            r
        }
    }

    /// Reads list items up to and past the closing parenthesis, or to the end of the tokens.
    fn read_list(&mut self) -> (r: Result<Mal, LexerError>)
        requires
            old(self).position_view() <= old(self).tokens_view().len(),
        ensures
            final(self).tokens_view() == old(self).tokens_view(),
            match read_items(old(self).tokens_view(), old(self).position_view(), Seq::empty()) {
                Ok((f, p)) => r matches Ok(m) && m@ == f && final(self).position_view() == p,
                Err(e) => r == Err::<Mal, LexerError>(e),
            },
        decreases old(self).tokens_view().len() - old(self).position_view(), 2int,
    {
        let ghost toks = self.tokens_view();
        let ghost pos0 = self.position_view();
        let mut items: Vec<Mal> = Vec::new();
        assert(items@.map_values(|m: Mal| m@) =~= Seq::<Form>::empty());
        loop
            invariant
                toks == old(self).tokens_view(),
                pos0 == old(self).position_view(),
                self.tokens_view() == toks,
                pos0 <= self.position_view() <= toks.len(),
                read_items(toks, pos0, Seq::empty()) == read_items(
                    toks,
                    self.position_view(),
                    items@.map_values(|m: Mal| m@),
                ),
            decreases toks.len() - self.position_view(),
        {
            let ghost acc = items@.map_values(|m: Mal| m@);
            if self.position >= self.tokens.len() {
                assert(Mal::List(items)@ == Form::List(acc)) by {
                    assert(Mal::List(items)@->List_0 =~= acc);
                }
                return Ok(Mal::List(items));
            }
            let cs = chars_of(self.tokens[self.position].as_str());
            if cs.len() == 1 && cs[0] == ')' {
                assert(cs@ =~= seq![')']);
                self.position = self.position + 1;
                assert(Mal::List(items)@ == Form::List(acc)) by {
                    assert(Mal::List(items)@->List_0 =~= acc);
                }
                return Ok(Mal::List(items));
            }
            assert(cs@ != seq![')'] ==> !(cs@.len() == 1 && cs@[0] == ')'));
            proof {
                lemma_read_at_advances(toks, self.position_view());
            }
            match self.read_form() {
                Ok(m) => {
                    proof {
                        assert(items@.push(m).map_values(|m: Mal| m@) =~= acc.push(m@));
                    }
                    items.push(m);
                },
                Err(e) => {
                    return Err(e);
                },
            }
        }
    }

    /// Reads the atom at the cursor without moving; `UnsupportedSyntax` when no token is left.
    fn read_atom(&self) -> (r: Result<Mal, LexerError>)
        ensures
            self.position_view() >= self.tokens_view().len() ==> r == Err::<Mal, LexerError>(
                LexerError::UnsupportedSyntax,
            ),
            self.position_view() < self.tokens_view().len() ==> match atom(
                self.tokens_view()[self.position_view()],
            ) {
                Ok(f) => r matches Ok(m) && m@ == f,
                Err(e) => r == Err::<Mal, LexerError>(e),
            },
    {
        if self.position >= self.tokens.len() {
            return Err(LexerError::UnsupportedSyntax);
        }
        let token = &self.tokens[self.position];
        let cs = chars_of(token.as_str());
        let ghost t = self.tokens_view()[self.position_view()];
        assert(cs@ == t);
        proof {
            reveal_strlit("true");
            reveal_strlit("false");
            reveal_strlit("nil");
        }
        assert("true"@ =~= seq!['t', 'r', 'u', 'e']);
        assert("false"@ =~= seq!['f', 'a', 'l', 's', 'e']);
        assert("nil"@ =~= seq!['n', 'i', 'l']);
        if same_chars(&cs, "true") {
            Ok(Mal::True)
        } else if same_chars(&cs, "false") {
            Ok(Mal::False)
        } else if same_chars(&cs, "nil") {
            Ok(Mal::Nil)
        } else if is_string_token(token) {
            lex_string(token)
        } else if cs.len() > 0 && (is_digit_char(cs[0]) || ((cs[0] == '-' || cs[0] == '+')
            && cs.len() > 1 && is_digit_char(cs[1]))) {
            lex_int(token)
        } else {
            lex_symbol(token)
        }
    }
}

fn is_digit_char(c: char) -> (r: bool)
    ensures
        r == is_digit(c),
{
    '0' <= c && c <= '9'
}

/// Whether the characters spell out a literal.
fn same_chars(cs: &Vec<char>, lit: &str) -> (r: bool)
    ensures
        r == (cs@ == lit@),
{
    let l = chars_of(lit);
    if cs.len() != l.len() {
        assert(cs@.len() != l@.len());
        return false;
    }
    let mut i: usize = 0;
    while i < cs.len()
        invariant
            l@ == lit@,
            cs@.len() == l@.len(),
            i <= cs@.len(),
            cs@.subrange(0, i as int) == l@.subrange(0, i as int),
        decreases cs.len() - i,
    {
        if cs[i] != l[i] {
            assert(cs@[i as int] != l@[i as int]);
            return false;
        }
        assert(cs@.subrange(0, i + 1) =~= cs@.subrange(0, i as int).push(cs@[i as int]));
        assert(l@.subrange(0, i + 1) =~= l@.subrange(0, i as int).push(l@[i as int]));
        i = i + 1;
    }
    assert(cs@ =~= cs@.subrange(0, i as int));
    assert(l@ =~= l@.subrange(0, i as int));
    true
}

/// Whether a token has the shape of a string literal (it starts with a quote).
pub fn is_string_token(token: &String) -> (r: bool)
    ensures
        r == is_string_shape(token@),
{
    let cs = chars_of(token.as_str());
    cs.len() > 0 && cs[0] == '"'
}

/// The contents of a closed string literal, between its quotes, escapes kept as written.
pub fn lex_string(string: &String) -> (r: Result<Mal, LexerError>)
    ensures
        match string_atom(string@) {
            Ok(f) => r matches Ok(m) && m@ == f,
            Err(e) => r == Err::<Mal, LexerError>(e),
        },
{
    let cs = chars_of(string.as_str());
    let n = cs.len();
    if n >= 2 && cs[0] == '"' && cs[n - 1] == '"' && scan_body(&cs, 1) == n - 1 {
        let mut out = String::new();
        let mut k: usize = 1;
        while k < n - 1
            invariant
                n == cs@.len(),
                n >= 2,
                1 <= k <= n - 1,
                out@ == cs@.subrange(1, k as int),
            decreases n - 1 - k,
        {
            push_char(&mut out, cs[k]);
            k = k + 1;
        }
        Ok(Mal::Str(out))
    } else {
        Err(LexerError::UnbalancedString)
    }
}

/// A symbol named by the token, as written.
pub fn lex_symbol(string: &String) -> (r: Result<Mal, LexerError>)
    ensures
        r matches Ok(m) && m@ == Form::Symbol(string@),
{
    Ok(Mal::Symbol(string.clone()))
}

proof fn lemma_digits_value_grows(d: Seq<char>, k: int)
    requires
        all_digits(d),
        0 <= k <= d.len(),
    ensures
        0 <= digits_value(d.subrange(0, k)) <= digits_value(d),
    decreases d.len() - k,
{
    if k < d.len() {
        lemma_digits_value_grows(d, k + 1);
        let s = d.subrange(0, k + 1);
        assert(s.drop_last() =~= d.subrange(0, k));
    } else {
        assert(d.subrange(0, k) =~= d);
    }
    lemma_digits_value_nonneg(d.subrange(0, k));
}

proof fn lemma_digits_value_nonneg(d: Seq<char>)
    requires
        all_digits(d),
    ensures
        0 <= digits_value(d),
    decreases d.len(),
{
    if d.len() > 0 {
        assert(all_digits(d.drop_last()));
        lemma_digits_value_nonneg(d.drop_last());
    }
}

/// The integer that the token writes in decimal, with an optional sign.
pub fn lex_int(string: &String) -> (r: Result<Mal, LexerError>)
    ensures
        match int_atom(string@) {
            Ok(f) => r matches Ok(m) && m@ == f,
            Err(e) => r == Err::<Mal, LexerError>(e),
        },
{
    let cs = chars_of(string.as_str());
    let n = cs.len();
    let neg = n > 0 && cs[0] == '-';
    let start: usize = if n > 0 && (cs[0] == '-' || cs[0] == '+') {
        1
    } else {
        0
    };
    let ghost d = unsigned_part(string@);
    assert(d =~= cs@.subrange(start as int, n as int));
    if start >= n {
        assert(d.len() == 0);
        return Err(LexerError::NotANumber);
    }
    let limit: i64 = 2147483648;
    let mut acc: i64 = 0;
    let mut k: usize = start;
    while k < n
        invariant
            n == cs@.len(),
            cs@ == string@,
            d == unsigned_part(string@),
            start <= k <= n,
            d == cs@.subrange(start as int, n as int),
            all_digits(d.subrange(0, k - start)),
            acc == digits_value(d.subrange(0, k - start)),
            0 <= acc <= limit,
            limit == 2147483648,
        decreases n - k,
    {
        let c = cs[k];
        if !is_digit_char(c) {
            assert(d[k - start] == c);
            assert(!all_digits(d));
            return Err(LexerError::NotANumber);
        }
        let v = (c as u32 - '0' as u32) as i64;
        let ghost pre = d.subrange(0, k - start);
        let ghost nxt = d.subrange(0, k + 1 - start);
        assert(nxt.drop_last() =~= pre);
        assert(all_digits(nxt));
        assert(digits_value(nxt) == acc * 10 + v);
        if acc > (limit - v) / 10 {
            assert(acc * 10 + v > limit) by (nonlinear_arith)
                requires
                    acc > (limit - v) / 10,
                    0 <= v <= 9,
                    limit == 2147483648,
            ;
            proof {
                if all_digits(d) {
                    lemma_digits_value_grows(d, k + 1 - start);
                    assert(digits_value(d) > limit);
                }
            }
            return Err(LexerError::NotANumber);
        }
        assert(acc * 10 + v <= limit) by (nonlinear_arith)
            requires
                acc <= (limit - v) / 10,
                0 <= v <= 9,
                limit == 2147483648,
        ;
        acc = acc * 10 + v;
        k = k + 1;
    }
    assert(d.subrange(0, n - start) =~= d);
    let value: i64 = if neg {
        -acc
    } else {
        acc
    };
    if value > 2147483647 {
        return Err(LexerError::NotANumber);
    }
    Ok(Mal::Int(value as i32))
}

} // verus!
