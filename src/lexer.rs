use vstd::prelude::*;

verus! {

broadcast use vstd::seq::group_seq_axioms;

/// Unicode white space, as `char::is_whitespace` defines it.
pub open spec fn is_blank(c: char) -> bool {
    let n = c as u32;
    (9 <= n && n <= 13) || n == 32 || n == 0x85 || n == 0xA0 || n == 0x1680 || (0x2000 <= n
        && n <= 0x200A) || n == 0x2028 || n == 0x2029 || n == 0x202F || n == 0x205F || n == 0x3000
}

/// Characters that only separate tokens: white space and commas.
pub open spec fn is_separator(c: char) -> bool {
    is_blank(c) || c == ','
}

/// Characters that form a token of their own.
pub open spec fn is_single(c: char) -> bool {
    c == '[' || c == ']' || c == '{' || c == '}' || c == '(' || c == ')' || c == '\'' || c == '`'
        || c == '~' || c == '^' || c == '@'
}

/// Characters that may stand in a bare token (a number or a symbol).
pub open spec fn is_bare(c: char) -> bool {
    !is_blank(c) && !(c == '[' || c == ']' || c == '{' || c == '}' || c == '(' || c == ')' || c
        == '\'' || c == '"' || c == '`' || c == ',' || c == ';')
}

/// Where the body of a string literal that starts at `k` ends: at the first quote that is not
/// escaped, at a backslash that escapes nothing (end of input or a newline), or at the end.
pub open spec fn body_end(s: Seq<char>, k: int) -> int
    decreases s.len() - k,
{
    if k >= s.len() {
        s.len() as int
    } else if s[k] == '\\' {
        if k + 1 < s.len() && s[k + 1] != '\n' {
            body_end(s, k + 2)
        } else {
            k
        }
    } else if s[k] == '"' {
        k
    } else {
        body_end(s, k + 1)
    }
}

/// The first newline at or after `k`, or the end.
pub open spec fn line_end(s: Seq<char>, k: int) -> int
    decreases s.len() - k,
{
    if k >= s.len() {
        s.len() as int
    } else if s[k] == '\n' {
        k
    } else {
        line_end(s, k + 1)
    }
}

/// The first character at or after `k` that cannot stand in a bare token, or the end.
pub open spec fn bare_end(s: Seq<char>, k: int) -> int
    decreases s.len() - k,
{
    if k >= s.len() {
        s.len() as int
    } else if !is_bare(s[k]) {
        k
    } else {
        bare_end(s, k + 1)
    }
}

/// Where the token that starts at `i` ends. The alternatives are tried in this order: `~@`,
/// a single delimiter or reader-macro character, a string literal (closed or not), a comment
/// up to the end of the line, and a maximal run of bare characters.
pub open spec fn token_end(s: Seq<char>, i: int) -> int {
    if s[i] == '~' && i + 1 < s.len() && s[i + 1] == '@' {
        i + 2
    } else if is_single(s[i]) {
        i + 1
    } else if s[i] == '"' {
        let k = body_end(s, i + 1);
        if k < s.len() && s[k] == '"' {
            k + 1
        } else {
            k
        }
    } else if s[i] == ';' {
        line_end(s, i + 1)
    } else {
        bare_end(s, i)
    }
}

/// The tokens of `s` from position `i` on, in order.
pub open spec fn lex_at(s: Seq<char>, i: int) -> Seq<Seq<char>>
    decreases s.len() - i,
{
    if i < 0 || i >= s.len() {
        Seq::empty()
    } else if is_separator(s[i]) {
        lex_at(s, i + 1)
    } else {
        let j = token_end(s, i);
        if i < j <= s.len() {
            seq![s.subrange(i, j)] + lex_at(s, j)
        } else {
            Seq::empty()
        }
    }
}

/// The tokens of a text.
pub open spec fn lex(s: Seq<char>) -> Seq<Seq<char>> {
    lex_at(s, 0)
}

pub open spec fn is_comment(t: Seq<char>) -> bool {
    t.len() > 0 && t[0] == ';'
}

/// The tokens with the comments left out.
pub open spec fn drop_comments(ts: Seq<Seq<char>>) -> Seq<Seq<char>>
    decreases ts.len(),
{
    if ts.len() == 0 {
        Seq::empty()
    } else if is_comment(ts.last()) {
        drop_comments(ts.drop_last())
    } else {
        drop_comments(ts.drop_last()).push(ts.last())
    }
}

/// The tokens of a text that the reader consumes.
pub open spec fn code_tokens(s: Seq<char>) -> Seq<Seq<char>> {
    drop_comments(lex(s))
}

pub open spec fn strings_view(v: Seq<String>) -> Seq<Seq<char>> {
    v.map_values(|t: String| t@)
}

pub proof fn lemma_body_end_bounds(s: Seq<char>, k: int)
    requires
        0 <= k,
    ensures
        k <= s.len() ==> k <= body_end(s, k) <= s.len(),
        body_end(s, k) < s.len() ==> s[body_end(s, k)] == '"' || s[body_end(s, k)] == '\\',
    decreases s.len() - k,
{
    if k < s.len() && s[k] == '\\' && k + 1 < s.len() && s[k + 1] != '\n' {
        lemma_body_end_bounds(s, k + 2);
    } else if k < s.len() && s[k] != '\\' && s[k] != '"' {
        lemma_body_end_bounds(s, k + 1);
    }
}

pub proof fn lemma_line_end_bounds(s: Seq<char>, k: int)
    requires
        0 <= k <= s.len(),
    ensures
        k <= line_end(s, k) <= s.len(),
    decreases s.len() - k,
{
    if k < s.len() && s[k] != '\n' {
        lemma_line_end_bounds(s, k + 1);
    }
}

pub proof fn lemma_bare_end_bounds(s: Seq<char>, k: int)
    requires
        0 <= k <= s.len(),
    ensures
        k <= bare_end(s, k) <= s.len(),
        k < s.len() && is_bare(s[k]) ==> k < bare_end(s, k),
    decreases s.len() - k,
{
    if k < s.len() && is_bare(s[k]) {
        lemma_bare_end_bounds(s, k + 1);
    }
}

/// A token is never empty and never runs past the end.
pub proof fn lemma_token_end_bounds(s: Seq<char>, i: int)
    requires
        0 <= i < s.len(),
        !is_separator(s[i]),
    ensures
        i < token_end(s, i) <= s.len(),
{
    lemma_body_end_bounds(s, i + 1);
    lemma_line_end_bounds(s, i + 1);
    lemma_bare_end_bounds(s, i);
}

fn blank(c: char) -> (r: bool)
    ensures
        r == is_blank(c),
{
    let n = c as u32;
    (9 <= n && n <= 13) || n == 32 || n == 0x85 || n == 0xA0 || n == 0x1680 || (0x2000 <= n
        && n <= 0x200A) || n == 0x2028 || n == 0x2029 || n == 0x202F || n == 0x205F || n == 0x3000
}

fn separator(c: char) -> (r: bool)
    ensures
        r == is_separator(c),
{
    blank(c) || c == ','
}

fn single(c: char) -> (r: bool)
    ensures
        r == is_single(c),
{
    c == '[' || c == ']' || c == '{' || c == '}' || c == '(' || c == ')' || c == '\'' || c == '`'
        || c == '~' || c == '^' || c == '@'
}

fn bare(c: char) -> (r: bool)
    ensures
        r == is_bare(c),
{
    !blank(c) && !(c == '[' || c == ']' || c == '{' || c == '}' || c == '(' || c == ')' || c
        == '\'' || c == '"' || c == '`' || c == ',' || c == ';')
}

/// The characters of a text, in order.
pub(crate) fn chars_of(s: &str) -> (r: Vec<char>)
    ensures
        r@ == s@,
{
    let n = s.unicode_len();
    let mut out: Vec<char> = Vec::new();
    let mut i: usize = 0;
    while i < n
        invariant
            n == s@.len(),
            i <= n,
            out@ == s@.subrange(0, i as int),
        decreases n - i,
    {
        out.push(s.get_char(i));
        i = i + 1;
    }
    assert(out@ =~= s@);
    out
}

pub(crate) fn scan_body(cs: &Vec<char>, k: usize) -> (r: usize)
    requires
        k <= cs@.len(),
    ensures
        r == body_end(cs@, k as int),
{
    let n = cs.len();
    let mut j = k;
    while j < n
        invariant
            n == cs@.len(),
            k <= j <= n,
            body_end(cs@, k as int) == body_end(cs@, j as int),
        decreases n - j,
    {
        if cs[j] == '\\' {
            if j + 1 < n && cs[j + 1] != '\n' {
                j = j + 2;
            } else {
                return j;
            }
        } else if cs[j] == '"' {
            return j;
        } else {
            j = j + 1;
        }
    }
    j
}

fn scan_line(cs: &Vec<char>, k: usize) -> (r: usize)
    requires
        k <= cs@.len(),
    ensures
        r == line_end(cs@, k as int),
{
    let n = cs.len();
    let mut j = k;
    while j < n && cs[j] != '\n'
        invariant
            n == cs@.len(),
            k <= j <= n,
            line_end(cs@, k as int) == line_end(cs@, j as int),
        decreases n - j,
    {
        j = j + 1;
    }
    j
}

fn scan_bare(cs: &Vec<char>, k: usize) -> (r: usize)
    requires
        k <= cs@.len(),
    ensures
        r == bare_end(cs@, k as int),
{
    let n = cs.len();
    let mut j = k;
    while j < n && bare(cs[j])
        invariant
            n == cs@.len(),
            k <= j <= n,
            bare_end(cs@, k as int) == bare_end(cs@, j as int),
        decreases n - j,
    {
        j = j + 1;
    }
    j
}

fn scan_token(cs: &Vec<char>, i: usize) -> (r: usize)
    requires
        i < cs@.len(),
        !is_separator(cs@[i as int]),
    ensures
        r == token_end(cs@, i as int),
{
    proof {
        lemma_token_end_bounds(cs@, i as int);
        lemma_body_end_bounds(cs@, i + 1);
    }
    let n = cs.len();
    let c = cs[i];
    if c == '~' && i + 1 < n && cs[i + 1] == '@' {
        i + 2
    } else if single(c) {
        i + 1
    } else if c == '"' {
        let k = scan_body(cs, i + 1);
        if k < n && cs[k] == '"' {
            k + 1
        } else {
            k
        }
    } else if c == ';' {
        scan_line(cs, i + 1)
    } else {
        scan_bare(cs, i)
    }
}

/// The characters `cs[i..j]` as a string.
fn string_of(cs: &Vec<char>, i: usize, j: usize) -> (r: String)
    requires
        i <= j <= cs@.len(),
    ensures
        r@ == cs@.subrange(i as int, j as int),
{
    let mut out = String::new();
    let mut k = i;
    while k < j
        invariant
            i <= k <= j <= cs@.len(),
            out@ == cs@.subrange(i as int, k as int),
        decreases j - k,
    {
        push_char(&mut out, cs[k]);
        k = k + 1;
    }
    out
}

/// Relies on String::push: the character is appended at the end.
#[verifier::external_body]
pub(crate) fn push_char(s: &mut String, c: char)
    ensures
        final(s)@ == old(s)@.push(c),
{
    s.push(c);
}

/// Splits a text into its tokens, in order of appearance. Separators (white space and commas)
/// are skipped; every other character belongs to exactly one token. Comments are kept.
pub fn tokenize(string: &str) -> (r: Vec<String>)
    ensures
        strings_view(r@) == lex(string@),
{
    let cs = chars_of(string);
    let n = cs.len();
    let mut out: Vec<String> = Vec::new();
    let mut i: usize = 0;
    while i < n
        invariant
            n == cs@.len(),
            cs@ == string@,
            i <= n,
            strings_view(out@) + lex_at(cs@, i as int) == lex(string@),
        decreases n - i,
    {
        if separator(cs[i]) {
            i = i + 1;
        } else {
            let j = scan_token(&cs, i);
            proof {
                lemma_token_end_bounds(cs@, i as int);
            }
            let t = string_of(&cs, i, j);
            proof {
                let ghost old_out = strings_view(out@);
                assert(strings_view(out@.push(t)) =~= old_out.push(t@));
                assert(old_out + lex_at(cs@, i as int) =~= old_out.push(t@) + lex_at(cs@, j as int));
            }
            out.push(t);
            i = j;
        }
    }
    assert(strings_view(out@) =~= lex(string@));
    out
}

} // verus!
