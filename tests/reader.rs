use mal_rs::printer::print_str;
use mal_rs::repl::{eval, rep};
use mal_rs::reader::{is_string_token, lex_int, lex_string, tokenize, LexerError, Mal, Reader};

#[test]
fn reader_returns_mal_int() -> Result<(), LexerError> {
    let mut reader = Reader::read_str("123");
    let mal_int = reader.read_form()?;
    if let Mal::Int(i) = mal_int {
        assert_eq!(123, i);
    } else {
        panic!("Did not generate correct AST");
    }

    let mut reader = Reader::read_str("123  ");
    let mal_int = reader.read_form()?;
    if let Mal::Int(i) = mal_int {
        assert_eq!(123, i);
        Ok(())
    } else {
        panic!("Did not generate correct AST");
    }
}

#[test]
fn reader_returns_mal_true() -> Result<(), LexerError> {
    let mut reader = Reader::read_str("true");
    let mal_true = reader.read_form()?;
    if let Mal::True = mal_true {
        Ok(())
    } else {
        panic!("true isn't true?");
    }
}

#[test]
fn reader_returns_mal_false() -> Result<(), LexerError> {
    let mut reader = Reader::read_str("false");
    let mal_false = reader.read_form()?;
    if let Mal::False = mal_false {
        Ok(())
    } else {
        panic!("false isn't false?");
    }
}

#[test]
fn reader_returns_mal_nil() -> Result<(), LexerError> {
    let mut reader = Reader::read_str("nil");
    let mal_nil = reader.read_form()?;
    if let Mal::Nil = mal_nil {
        Ok(())
    } else {
        panic!("nil isn't nil");
    }
}

#[test]
fn reader_returns_mal_symbol() -> Result<(), LexerError> {
    let mut reader = Reader::read_str("+");
    let mal_symbol = reader.read_form()?;
    if let Mal::Symbol(symbol) = mal_symbol {
        assert!(symbol.eq("+"));
        Ok(())
    } else {
        panic!("Could not parse symbol from +")
    }
}

#[test]
fn reader_returns_mal_string() -> Result<(), LexerError> {
    let mut reader = Reader::read_str("\"This is a string\"");
    let mal_string = reader.read_form()?;
    if let Mal::Str(string) = mal_string {
        assert!(string.eq("This is a string"));
        Ok(())
    } else {
        panic!("Could not parse string from \"This is a string\"");
    }
}

#[test]
fn reader_returns_simple_mal_list() -> Result<(), LexerError> {
    let mut reader = Reader::read_str("( 123 456 789 )");
    let mal_list = reader.read_form()?;
    if let Mal::List(list) = mal_list {
        let mut vec: Vec<i32> = vec![];
        for elem in &list {
            if let Mal::Int(i) = elem {
                vec.push(*i);
            }
        }
        assert_eq!(vec[0], 123);
        assert_eq!(vec[1], 456);
        assert_eq!(vec[2], 789);
        // The closing parenthesis ends the list: no item stands for it.
        assert_eq!(list.len(), 3);
        Ok(())
    } else {
        panic!("Could not parse list from (123 123 123)");
    }
}

#[test]
fn reader_returns_nested_mal_list() -> Result<(), LexerError> {
    let mut reader = Reader::read_str("( + 2 (* 3 4) )");
    let mal_list = reader.read_form()?;
    if let Mal::List(list) = mal_list {
        assert_eq!(list.len(), 3);

        if let Mal::Symbol(sym) = &list[0] {
            assert!(sym.eq("+"));
        } else {
            panic!("Element 0 was not +");
        }

        if let Mal::Int(i) = &list[1] {
            assert_eq!(2, *i);
        } else {
            panic!("Element 1 was not 2");
        }

        if let Mal::List(list) = &list[2] {
            assert_eq!(list.len(), 3);

            if let Mal::Symbol(sym) = &list[0] {
                assert!(sym.eq("*"));
            } else {
                panic!("Inner List Element 0 was not *");
            }

            if let Mal::Int(i) = &list[1] {
                assert_eq!(3, *i);
            } else {
                panic!("Inner List Element 1 was not 3");
            }

            if let Mal::Int(i) = &list[2] {
                assert_eq!(4, *i);
            } else {
                panic!("Inner List Element 2 was not 4")
            }
        } else {
            panic!("Element 2 was not (* 3 4)");
        }
        Ok(())
    } else {
        panic!("Could not parse list from ( + 2 (* 3 4) )");
    }
}

#[test]
fn captures_single_special_characters() {
    let vec = tokenize("    (  ) ~@[]{}'`~^    ,   @");
    assert_eq!(vec, ["(", ")", "~@", "[", "]", "{", "}", "'", "`", "~", "^", "@"]);
}

#[test]
fn captures_string() {
    let vec = tokenize("\"This is a string\"");
    assert_eq!(vec, ["\"This is a string\""]);
}

#[test]
fn string_regex_finds_string() {
    let string = String::from("\"This is a string\"");
    assert!(is_string_token(&string));
}

#[test]
fn string_regex_finds_unbalanced_string() {
    let string = String::from("\"This is a string");
    assert!(is_string_token(&string));
}

#[test]
fn symbol_regex_captures_symbols() {
    let symbol_string = "+ - * /";
    assert_eq!(tokenize(symbol_string).len(), 4);
}

#[test]
fn lex_string_strips_quotes() -> Result<(), LexerError> {
    let string = String::from("\"This is a string\"");
    let string = lex_string(&string)?;

    if let Mal::Str(string) = string {
        assert!(string.eq("This is a string"));
    } else {
        panic!("No match");
    }

    Ok(())
}

#[test]
fn lex_string_keeps_inner_escaped_quotes() -> Result<(), LexerError> {
    let string = String::from("\"This is a \\\"fancy\\\" string\"");
    let string = lex_string(&string)?;

    if let Mal::Str(string) = string {
        assert!(string.eq(r#"This is a \"fancy\" string"#));
    } else {
        panic!("No Match");
    }

    Ok(())
}

#[test]
fn lex_int_parses_succesfully() -> Result<(), LexerError> {
    let int = String::from("312");
    let int = lex_int(&int)?;

    if let Mal::Int(int) = int {
        assert_eq!(int, 312);
    } else {
        panic!("Did not properly parse int of value 312");
    }

    Ok(())
}

fn read_print(text: &str) -> Result<String, LexerError> {
    let mut reader = Reader::read_str(text);
    let mal = reader.read_form()?;
    Ok(print_str(&mal))
}

#[test]
fn prints_literal_scenarios() {
    assert_eq!(read_print("123").unwrap(), "123");
    assert_eq!(read_print("true").unwrap(), "true");
    assert_eq!(read_print("( 123 456 789 )").unwrap(), "(123 456 789)");
    assert_eq!(read_print("( + 2 (* 3 4) )").unwrap(), "(+ 2 (* 3 4))");
    assert_eq!(read_print("\"This is a string\"").unwrap(), "\"This is a string\"");
}

#[test]
fn unterminated_string_is_unbalanced() {
    assert_eq!(read_print("\"unterminated").unwrap_err(), LexerError::UnbalancedString);
    assert_eq!(read_print("\"").unwrap_err(), LexerError::UnbalancedString);
    assert_eq!(read_print("\"ends in an escape\\\"").unwrap_err(), LexerError::UnbalancedString);
}

#[test]
fn empty_list_reads_and_prints() {
    let mut reader = Reader::read_str("()");
    let mal = reader.read_form().unwrap();
    assert!(matches!(&mal, Mal::List(items) if items.is_empty()));
    assert_eq!(print_str(&mal), "()");
}

#[test]
fn empty_input_is_unsupported_syntax() {
    assert_eq!(read_print("").unwrap_err(), LexerError::UnsupportedSyntax);
    assert_eq!(read_print("  , \t").unwrap_err(), LexerError::UnsupportedSyntax);
    assert_eq!(read_print("; only a comment").unwrap_err(), LexerError::UnsupportedSyntax);
}

#[test]
fn numeric_looking_tokens() {
    assert_eq!(read_print("12abc").unwrap_err(), LexerError::NotANumber);
    assert_eq!(read_print("2147483648").unwrap_err(), LexerError::NotANumber);
    assert_eq!(read_print("-2147483648").unwrap(), "-2147483648");
    assert_eq!(read_print("2147483647").unwrap(), "2147483647");
    assert_eq!(read_print("+17").unwrap(), "17");
    assert_eq!(read_print("-007").unwrap(), "-7");
    assert_eq!(read_print("-").unwrap(), "-");
    assert_eq!(read_print("-abc").unwrap(), "-abc");
    assert_eq!(lex_int(&String::from("1x")).unwrap_err(), LexerError::NotANumber);
}

#[test]
fn unclosed_list_ends_with_the_input() {
    assert_eq!(read_print("(1 (2 3").unwrap(), "(1 (2 3))");
}

#[test]
fn child_error_aborts_the_list() {
    assert_eq!(read_print("(1 \"open").unwrap_err(), LexerError::UnbalancedString);
}

#[test]
fn nil_inside_a_list_is_printed() {
    assert_eq!(read_print("(nil true false)").unwrap(), "(nil true false)");
}

#[test]
fn comments_are_tokens_but_not_read() {
    assert_eq!(tokenize("1 ; note\n2"), ["1", "; note", "2"]);
    let mut reader = Reader::read_str("; note\n(a ; inner\n b)");
    assert_eq!(print_str(&reader.read_form().unwrap()), "(a b)");
}

#[test]
fn tokenizer_keeps_string_escapes_and_bare_runs() {
    assert_eq!(tokenize("(a\"b \\\" c\"d)"), ["(", "a", "\"b \\\" c\"", "d", ")"]);
    assert_eq!(tokenize("\"open"), ["\"open"]);
    assert_eq!(tokenize("x~y ~a"), ["x~y", "~", "a"]);
}

#[test]
fn cursor_reads_forms_in_turn() {
    let mut reader = Reader::read_str("1 (2) x");
    assert_eq!(reader.peek().unwrap(), "1");
    assert_eq!(print_str(&reader.read_form().unwrap()), "1");
    assert_eq!(print_str(&reader.read_form().unwrap()), "(2)");
    assert_eq!(reader.next().unwrap(), "x");
    assert!(reader.next().is_none());
    assert!(reader.peek().is_none());
    assert_eq!(reader.read_form().unwrap_err(), LexerError::UnsupportedSyntax);
}

#[test]
fn surrounding_whitespace_keeps_the_token_count() {
    assert_eq!(tokenize("(+ 2 (* 3 4))").len(), 9);
    assert_eq!(tokenize(" \n (+ 2 (* 3 4))\t  ").len(), 9);
}

#[test]
fn printed_tree_reads_back() {
    let tree = Mal::List(vec![
        Mal::Symbol(String::from("f")),
        Mal::Int(-5),
        Mal::Str(String::from("a \\\" b")),
        Mal::List(vec![]),
        Mal::Nil,
    ]);
    let text = print_str(&tree);
    assert_eq!(text, "(f -5 \"a \\\" b\" () nil)");
    assert_eq!(read_print(&text).unwrap(), text);
}

#[test]
fn rep_reads_the_first_form_and_prints_it() {
    assert_eq!(rep("( + 2 (* 3 4) ) ignored").unwrap(), "(+ 2 (* 3 4))");
    assert_eq!(rep("").unwrap_err(), LexerError::UnsupportedSyntax);
    let tree = Mal::True;
    assert!(std::ptr::eq(eval(&tree, ""), &tree));
}

#[test]
fn next_keeps_stepping_past_the_end() {
    let mut reader = Reader::read_str("a");
    assert_eq!(reader.next().unwrap(), "a");
    assert!(reader.next().is_none());
    assert!(reader.next().is_none());
    assert!(reader.peek().is_none());
    assert_eq!(reader.read_form().unwrap_err(), LexerError::UnsupportedSyntax);
}

#[test]
fn commas_around_the_text_keep_the_tokens() {
    assert_eq!(tokenize(", (a 1) ,,"), tokenize("(a 1)"));
}

#[test]
fn spacing_between_tokens_keeps_the_tokens() {
    let plain = tokenize("(+ 2 (* 3 4))");
    assert_eq!(tokenize("( \t+ ,\n2 ,\n( \t* ,\n3 ,\n4 \t) \t)"), plain);
    assert_eq!(tokenize("(+,2,(*,3,4))"), plain);
    assert_eq!(plain.len(), 9);
}
