use vstd::prelude::*;
use crate::lexer::push_char;
use crate::types::{Form, Mal};

verus! {

broadcast use vstd::seq::group_seq_axioms, vstd::std_specs::vec::group_vec_axioms;

pub open spec fn digit_char(d: int) -> char {
    if d == 0 {
        '0'
    } else if d == 1 {
        '1'
    } else if d == 2 {
        '2'
    } else if d == 3 {
        '3'
    } else if d == 4 {
        '4'
    } else if d == 5 {
        '5'
    } else if d == 6 {
        '6'
    } else if d == 7 {
        '7'
    } else if d == 8 {
        '8'
    } else {
        '9'
    }
}

/// The decimal digits of a natural number, without leading zeros.
pub open spec fn decimal_nat(n: nat) -> Seq<char>
    decreases n,
{
    if n < 10 {
        seq![digit_char(n as int)]
    } else {
        decimal_nat(n / 10).push(digit_char((n % 10) as int))
    }
}

/// An integer in decimal, with a minus sign when it is negative.
pub open spec fn decimal(n: int) -> Seq<char> {
    if n < 0 {
        seq!['-'] + decimal_nat((-n) as nat)
    } else {
        decimal_nat(n as nat)
    }
}

/// The canonical text of a form.
pub open spec fn print_form(f: Form) -> Seq<char>
    decreases f, 0int,
{
    match f {
        Form::Int(n) => decimal(n),
        Form::Str(s) => seq!['"'] + s + seq!['"'],
        Form::Nil => seq!['n', 'i', 'l'],
        Form::True => seq!['t', 'r', 'u', 'e'],
        Form::False => seq!['f', 'a', 'l', 's', 'e'],
        Form::Symbol(s) => s,
        Form::List(items) => seq!['('] + print_items(items) + seq![')'],
    }
}

/// The texts of the forms, one space between each two.
pub open spec fn print_items(items: Seq<Form>) -> Seq<char>
    decreases items, 1int,
{
    if items.len() == 0 {
        Seq::empty()
    } else if items.len() == 1 {
        print_form(items[0])
    } else {
        print_items(items.subrange(0, items.len() - 1)) + seq![' '] + print_form(
            items[items.len() - 1],
        )
    }
}

fn digit(d: u64) -> (c: char)
    requires
        d < 10,
    ensures
        c == digit_char(d as int),
{
    if d == 0 {
        '0'
    } else if d == 1 {
        '1'
    } else if d == 2 {
        '2'
    } else if d == 3 {
        '3'
    } else if d == 4 {
        '4'
    } else if d == 5 {
        '5'
    } else if d == 6 {
        '6'
    } else if d == 7 {
        '7'
    } else if d == 8 {
        '8'
    } else {
        '9'
    }
}

fn push_digits(out: &mut String, n: u64)
    ensures
        final(out)@ == old(out)@ + decimal_nat(n as nat),
    decreases n,
{
    if n >= 10 {
        push_digits(out, n / 10);
    }
    push_char(out, digit(n % 10));
    assert(final(out)@ =~= old(out)@ + decimal_nat(n as nat));
}

fn push_str(out: &mut String, s: &String)
    ensures
        final(out)@ == old(out)@ + s@,
{
    out.append(s.as_str());
}

fn print_into(mal: &Mal, out: &mut String)
    ensures
        final(out)@ == old(out)@ + print_form(mal@),
    decreases mal,
{
    match mal {
        Mal::Int(i) => {
            let v = *i as i64;
            if v < 0 {
                push_char(out, '-');
                push_digits(out, (-v) as u64);
            } else {
                push_digits(out, v as u64);
            }
            assert(final(out)@ =~= old(out)@ + print_form(mal@));
        },
        Mal::Str(s) => {
            push_char(out, '"');
            push_str(out, s);
            push_char(out, '"');
            assert(final(out)@ =~= old(out)@ + print_form(mal@));
        },
        Mal::Nil => {
            push_char(out, 'n');
            push_char(out, 'i');
            push_char(out, 'l');
            assert(final(out)@ =~= old(out)@ + print_form(mal@));
        },
        Mal::True => {
            push_char(out, 't');
            push_char(out, 'r');
            push_char(out, 'u');
            push_char(out, 'e');
            assert(final(out)@ =~= old(out)@ + print_form(mal@));
        },
        Mal::False => {
            push_char(out, 'f');
            push_char(out, 'a');
            push_char(out, 'l');
            push_char(out, 's');
            push_char(out, 'e');
            assert(final(out)@ =~= old(out)@ + print_form(mal@));
        },
        Mal::Symbol(s) => {
            push_str(out, s);
        },
        Mal::List(items) => {
            let ghost start = out@;
            let ghost fs = mal@->List_0;
            assert(fs.len() == items@.len());
            push_char(out, '(');
            let mut i: usize = 0;
            while i < items.len()
                invariant
                    i <= items@.len(),
                    fs == mal@->List_0,
                    fs.len() == items@.len(),
                    *mal == Mal::List(*items),
                    out@ == start + seq!['('] + print_items(fs.subrange(0, i as int)),
                decreases items.len() - i,
            {
                let ghost before = out@;
                if i > 0 {
                    push_char(out, ' ');
                }
                print_into(&items[i], out);
                proof {
                    let pre = fs.subrange(0, i as int);
                    let nxt = fs.subrange(0, i + 1);
                    assert(nxt.subrange(0, i as int) =~= pre);
                    assert(nxt[i as int] == items@[i as int]@);
                    if i == 0 {
                        assert(pre =~= Seq::<Form>::empty());
                    }
                    assert(out@ =~= start + seq!['('] + print_items(nxt));
                }
                i = i + 1;
            }
            push_char(out, ')');
            assert(fs.subrange(0, items@.len() as int) =~= fs);
            assert(final(out)@ =~= old(out)@ + print_form(mal@));
        },
    }
}

/// The canonical text of a form: integers in decimal, strings between quotes as read, the
/// literals and symbols as written, and lists between parentheses with one space between
/// items.
pub fn print_str(mal: &Mal) -> (r: String)
    ensures
        r@ == print_form(mal@),
{
    let mut out = String::new();
    print_into(mal, &mut out);
    assert(out@ =~= print_form(mal@));
    out
}

} // verus!
