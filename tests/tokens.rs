use tokens::{ErrorKind, Token, TokenCategory};

#[test]
fn token_from_simple() {
    let alphabet = "abcdefghijklmnopqrstuvwxyz";
    let token = Token::from(alphabet).unwrap();
    assert_eq!(token.string, alphabet);
    assert_eq!(token.buffer, alphabet);
    assert_eq!(token.get_line(), alphabet);
    assert_eq!(token.row, 0);
    assert_eq!(token.col, 0);
    assert_eq!(token.index, 0);
}

#[test]
fn token_from_lines() {
    let lines = "abc\ndef\nghi";
    let token = Token::from(lines).unwrap();
    assert_eq!(token.string, lines);
    assert_eq!(token.row, 0);
    assert_eq!(token.col, 0);
    assert_eq!(token.index, 0);
}

#[test]
fn split_simple() {
    let rest = Token::from("ab").unwrap();
    let (a, b) = rest.split_at(1).unwrap();
    assert_eq!("a", a.string);
    assert_eq!("b", b.unwrap().string);
}

#[test]
fn split_end() {
    let rest = Token::from(";").unwrap();
    let (a, b) = rest.split_at(1).unwrap();
    assert_eq!(";", a.string);
    match b {
        Some(_) => {
            panic!();
        }
        None => {}
    };
}

#[test]
fn get_strings_simple() {
    let v = Token::from("bundle agent main\n{reports:any::'Hello, world';}\n").unwrap()
        .get_strings()
        .unwrap();
    assert_eq!(
        v,
        [
            "bundle",
            "agent",
            "main",
            "{",
            "reports",
            ":",
            "any",
            "::",
            "'Hello, world'",
            ";",
            "}",
        ]
    );
}

#[test]
fn get_strings_sequences() {
    let buffer = "\"promise name\"->{} attribute=>{'words','more words'};";
    let initial_token = Token::from(buffer).unwrap();
    let v = initial_token.get_strings().unwrap();
    assert_eq!(
        v,
        [
            "\"promise name\"",
            "->",
            "{",
            "}",
            "attribute",
            "=>",
            "{",
            "'words'",
            ",",
            "'more words'",
            "}",
            ";",
        ]
    );
}

#[test]
fn next_simple() {
    let buffer = "age = 40;";
    let remaining = Token::from(buffer).unwrap();
    let (word, remaining) = remaining.next_pair().unwrap();
    assert_eq!(word.string, "age");
    let remaining = remaining.unwrap();
    let (space, remaining) = remaining.next_pair().unwrap();
    assert_eq!(space.string, " ");
    let remaining = remaining.unwrap();
    let (equals, remaining) = remaining.next_pair().unwrap();
    assert_eq!(equals.string, "=");
    let remaining = remaining.unwrap();
    let (space, remaining) = remaining.next_pair().unwrap();
    assert_eq!(space.string, " ");
    let remaining = remaining.unwrap();
    let (number, remaining) = remaining.next_pair().unwrap();
    assert_eq!(number.string, "40");
    let remaining = remaining.unwrap();
    let (semicolon, remaining) = remaining.next_pair().unwrap();
    assert_eq!(semicolon.string, ";");
    match remaining {
        Some(_) => {
            panic!();
        }
        None => {}
    };
}

#[test]
fn split_abc_1() {
    let whole = Token::from("abc").unwrap();
    let offset = 1;
    let (a, bc) = whole.split_at(offset).unwrap();
    let bc = bc.unwrap();
    assert_eq!("a", a.string);
    assert_eq!("bc", bc.string);
    assert_eq!(a.get_line(), "abc");
    assert_eq!(bc.get_line(), "abc");
    assert_eq!(a.row, bc.row);
    assert_eq!(a.col + offset, bc.col);
    assert_eq!(a.index, 0);
    assert_eq!(bc.index, offset);
}

#[test]
fn split_abc_2() {
    let whole = Token::from("abc").unwrap();
    let offset = 2;
    let (ab, c) = whole.split_at(offset).unwrap();
    let c = c.unwrap();
    assert_eq!("ab", ab.string);
    assert_eq!("c", c.string);
    assert_eq!(ab.get_line(), "abc");
    assert_eq!(c.get_line(), "abc");
    assert_eq!(ab.row, c.row);
    assert_eq!(ab.col + offset, c.col);
    assert_eq!(ab.index, 0);
    assert_eq!(c.index, offset);
}

#[test]
fn split_lines() {
    let buffer = "def main():\n    a=0\n    return\n";
    let whole = Token::from(buffer).unwrap();

    let (def, rest) = whole.split_at("def".len()).unwrap();
    let rest = rest.unwrap();
    assert_eq!(def.string, "def");
    assert_eq!(def.row, 0);
    assert_eq!(def.col, 0);

    let (space, rest) = rest.split_at(" ".len()).unwrap();
    let rest = rest.unwrap();
    assert_eq!(space.string, " ");
    assert_eq!(space.row, 0);
    assert_eq!(space.col, "def".len());

    let (main, rest) = rest.split_at("main".len()).unwrap();
    let rest = rest.unwrap();
    assert_eq!(main.string, "main");
    assert_eq!(main.row, 0);
    assert_eq!(main.col, "def ".len());

    let (open, rest) = rest.split_at("(".len()).unwrap();
    let rest = rest.unwrap();
    assert_eq!(open.string, "(");
    assert_eq!(open.row, 0);
    assert_eq!(open.col, "def main".len());

    let (close, rest) = rest.split_at(")".len()).unwrap();
    let rest = rest.unwrap();
    assert_eq!(close.string, ")");
    assert_eq!(close.row, 0);
    assert_eq!(close.col, "def main(".len());

    let (colon, rest) = rest.split_at(":".len()).unwrap();
    let rest = rest.unwrap();
    assert_eq!(colon.string, ":");
    assert_eq!(colon.row, 0);
    assert_eq!(colon.col, "def main()".len());

    let (newline, rest) = rest.split_at("\n".len()).unwrap();
    let rest = rest.unwrap();
    assert_eq!(newline.string, "\n");
    assert_eq!(newline.row, 0);
    assert_eq!(newline.col, "def main():".len());

    let (indentation, rest) = rest.split_at(4).unwrap();
    let rest = rest.unwrap();
    assert_eq!(indentation.string, "    ");
    assert_eq!(indentation.row, 1);
    assert_eq!(indentation.col, 0);

    let (a, rest) = rest.split_at("a".len()).unwrap();
    let rest = rest.unwrap();
    assert_eq!(a.string, "a");
    assert_eq!(a.row, 1);
    assert_eq!(a.col, 4);

    let (equals, rest) = rest.split_at("=".len()).unwrap();
    let rest = rest.unwrap();
    assert_eq!(equals.string, "=");
    assert_eq!(equals.row, 1);
    assert_eq!(equals.col, "    a".len());

    let (zero, rest) = rest.split_at("0".len()).unwrap();
    let rest = rest.unwrap();
    assert_eq!(zero.string, "0");
    assert_eq!(zero.row, 1);
    assert_eq!(zero.col, "    a=".len());

    let (newline, rest) = rest.split_at("\n".len()).unwrap();
    let rest = rest.unwrap();
    assert_eq!(newline.string, "\n");
    assert_eq!(newline.row, 1);
    assert_eq!(newline.col, "    a=0".len());

    let (indentation, rest) = rest.split_at(4).unwrap();
    let rest = rest.unwrap();
    assert_eq!(indentation.string, "    ");
    assert_eq!(indentation.row, 2);
    assert_eq!(indentation.col, 0);

    let (ret, final_newline) = rest.split_at("return".len()).unwrap();
    let final_newline = final_newline.unwrap();
    assert_eq!(ret.string, "return");
    assert_eq!(ret.row, 2);
    assert_eq!(ret.col, 4);

    assert_eq!(final_newline.string, "\n");
    assert_eq!(final_newline.row, 2);
    assert_eq!(final_newline.col, "    return".len());
    assert_eq!(final_newline.buffer, buffer);
    assert_eq!(final_newline.index, final_newline.buffer.len() - 1);
    assert_eq!(final_newline.get_line(), "    return");
}

#[test]
fn including_whitespace_covers_buffer() {
    let buffer = "bundle agent main\n{reports:any::'Hello, world';}\n";
    let tokens = Token::from(buffer).unwrap().get_tokens_including_whitespace().unwrap();
    let joined: String = tokens.iter().map(|t| t.string).collect();
    assert_eq!(joined, buffer);
    for t in tokens.iter() {
        assert!(!t.string.is_empty());
    }
    let strings = Token::from(buffer).unwrap()
        .get_strings_including_whitespace()
        .unwrap();
    assert_eq!(
        strings,
        [
            "bundle", " ", "agent", " ", "main", "\n", "{", "reports", ":", "any", "::",
            "'Hello, world'", ";", "}", "\n",
        ]
    );
}

#[test]
fn rescan_gives_same_tokens() {
    let buffer = "x => 'a b';\n\n  y::z != 3\n";
    let first = Token::from(buffer).unwrap().get_tokens_including_whitespace().unwrap();
    let joined: String = first.iter().map(|t| t.string).collect();
    let second = Token::from(joined.as_str()).unwrap()
        .get_tokens_including_whitespace()
        .unwrap();
    assert_eq!(first.len(), second.len());
    for (a, b) in first.iter().zip(second.iter()) {
        assert_eq!(a.string, b.string);
        assert_eq!(a.category, b.category);
        assert_eq!(a.index, b.index);
        assert_eq!(a.row, b.row);
        assert_eq!(a.col, b.col);
        assert_eq!(a.line_start, b.line_start);
    }
}

#[test]
fn positions_increase_along_scan() {
    let buffer = "a\n\n  bc = 'q'\nd";
    let tokens = Token::from(buffer).unwrap().get_tokens_including_whitespace().unwrap();
    for pair in tokens.windows(2) {
        assert!(pair[0].index < pair[1].index);
        assert!(pair[0].row <= pair[1].row);
    }
    for t in tokens.iter() {
        assert_eq!(t.line_start + t.col, t.index);
    }
    let d = tokens.last().unwrap();
    assert_eq!(d.string, "d");
    assert_eq!(d.row, 3);
    assert_eq!(d.col, 0);
    assert_eq!(d.line_start, 14);
    let nl = &tokens[1];
    assert_eq!(nl.string, "\n\n");
    assert_eq!(nl.category, TokenCategory::Whitespace);
    let bc = &tokens[3];
    assert_eq!(bc.string, "bc");
    assert_eq!(bc.row, 2);
    assert_eq!(bc.col, 2);
    assert_eq!(bc.get_line(), "  bc = 'q'");
}

#[test]
fn split_keeps_alphanumeric_category() {
    let token = Token::from("abc;").unwrap();
    let (abc, _) = token.next_pair().unwrap();
    assert_eq!(abc.category, TokenCategory::Alphanumeric);
    let (ab, c) = abc.split_at(2).unwrap();
    assert_eq!(ab.string, "ab");
    assert_eq!(ab.category, TokenCategory::Alphanumeric);
    assert_eq!(TokenCategory::from(ab.string), Ok(TokenCategory::Alphanumeric));
    let c = c.unwrap();
    assert_eq!(c.category, TokenCategory::Alphanumeric);
    let (ab, semi) = Token::from("ab;").unwrap().split_at(2).unwrap();
    assert_eq!(ab.category, TokenCategory::Alphanumeric);
    assert_eq!(semi.unwrap().category, TokenCategory::Symbol);
}

#[test]
fn split_reclassifies_remainder() {
    let token = Token::from("   x").unwrap();
    let (spaces, rest) = token.split_at(2).unwrap();
    assert_eq!(spaces.category, TokenCategory::Whitespace);
    let rest = rest.unwrap();
    assert_eq!(rest.string, " x");
    assert_eq!(rest.category, TokenCategory::Whitespace);
    let (_, x) = rest.split_at(1).unwrap();
    let x = x.unwrap();
    assert_eq!(x.category, TokenCategory::Alphanumeric);
    assert_eq!(x.col, 3);

    let arrow = Token::from("->").unwrap();
    assert_eq!(arrow.category, TokenCategory::Sequence);
    let (dash, gt) = arrow.split_at(1).unwrap();
    assert_eq!(dash.category, TokenCategory::Sequence);
    assert_eq!(gt.unwrap().category, TokenCategory::Symbol);
}

#[test]
fn split_across_newlines() {
    let token = Token::from("\n\n\nab").unwrap();
    let (nl, rest) = token.split_at(3).unwrap();
    assert_eq!(nl.string, "\n\n\n");
    let rest = rest.unwrap();
    assert_eq!(rest.row, 3);
    assert_eq!(rest.col, 0);
    assert_eq!(rest.line_start, 3);
    assert_eq!(rest.index, 3);
    let (_, b) = Token::from("x\nyz").unwrap().split_at(3).unwrap();
    let b = b.unwrap();
    assert_eq!(b.string, "z");
    assert_eq!(b.row, 1);
    assert_eq!(b.col, 1);
    assert_eq!(b.line_start, 2);
    assert_eq!(b.get_line(), "yz");
}

#[test]
fn categories_of_each_rule() {
    assert_eq!(TokenCategory::from("===x"), Ok(TokenCategory::Sequence));
    assert_eq!(TokenCategory::from("Ab9_"), Ok(TokenCategory::Alphanumeric));
    assert_eq!(TokenCategory::from("#x"), Ok(TokenCategory::Symbol));
    assert_eq!(TokenCategory::from("\t\t "), Ok(TokenCategory::Whitespace));
    assert_eq!(TokenCategory::from("'a'"), Ok(TokenCategory::StringLiteral));
    assert_eq!(TokenCategory::from("^"), Err(ErrorKind::UnrecognizedCharacter));
    assert_eq!(TokenCategory::from("'abc"), Err(ErrorKind::UnterminatedStringLiteral));
    assert_eq!(TokenCategory::from(""), Err(ErrorKind::UnrecognizedCharacter));
}

#[test]
fn from_rejects_unclassifiable_start() {
    let e = Token::from("^ab").unwrap_err();
    assert_eq!(e.kind, ErrorKind::UnrecognizedCharacter);
    assert_eq!((e.index, e.row, e.col), (0, 0, 0));
    let e = Token::from("'ab").unwrap_err();
    assert_eq!(e.kind, ErrorKind::UnterminatedStringLiteral);
    assert_eq!(e.index, 0);
}

#[test]
fn next_pair_rejects_unclassifiable_rest() {
    let e = Token::from("ab~").unwrap().next_pair().unwrap_err();
    assert_eq!(e.kind, ErrorKind::UnrecognizedCharacter);
    assert_eq!(e.index, 2);
    assert_eq!(e.row, 0);
    assert_eq!(e.col, 2);
}

#[test]
fn split_at_rejects_unclassifiable_rest() {
    let e = Token::from("a\nb 'c").unwrap().split_at(4).unwrap_err();
    assert_eq!(e.kind, ErrorKind::UnterminatedStringLiteral);
    assert_eq!(e.index, 4);
    assert_eq!(e.row, 1);
    assert_eq!(e.col, 2);
    let e = Token::from("ab~").unwrap().split_at(2).unwrap_err();
    assert_eq!(e.kind, ErrorKind::UnrecognizedCharacter);
    assert_eq!(e.index, 2);
    let (whole, rest) = Token::from("ab~").unwrap().split_at(3).unwrap();
    assert_eq!(whole.string, "ab~");
    assert!(rest.is_none());
}

#[test]
fn sequence_table_order() {
    let v = Token::from("a===b==c<=d>=e!=f*=g+=h/=i%=j::k").unwrap()
        .get_strings()
        .unwrap();
    assert_eq!(
        v,
        [
            "a", "===", "b", "==", "c", "<=", "d", ">=", "e", "!=", "f", "*=", "g", "+=", "h",
            "/=", "i", "%=", "j", "::", "k",
        ]
    );
}

#[test]
fn whitespace_runs_do_not_mix() {
    let v = Token::from(" \t\t  \n").unwrap()
        .get_strings_including_whitespace()
        .unwrap();
    assert_eq!(v, [" ", "\t\t", "  ", "\n"]);
    assert_eq!(Token::from(" \t").unwrap().get_strings().unwrap().len(), 0);
}

#[test]
fn string_literal_measures_to_matching_quote() {
    let v = Token::from("\"it's\" 'say \"hi\"'").unwrap().get_strings().unwrap();
    assert_eq!(v, ["\"it's\"", "'say \"hi\"'"]);
}

#[test]
fn unrecognized_character_error() {
    let e = Token::from("ab\n  c ^ d").unwrap().get_tokens().unwrap_err();
    assert_eq!(e.kind, ErrorKind::UnrecognizedCharacter);
    assert_eq!(e.index, 7);
    assert_eq!(e.row, 1);
    assert_eq!(e.col, 4);
    let e = Token::from("~").unwrap_err();
    assert_eq!(e.kind, ErrorKind::UnrecognizedCharacter);
    assert_eq!(e.index, 0);
}

#[test]
fn unterminated_string_literal_error() {
    let e = Token::from("x = 'open").unwrap()
        .get_strings_including_whitespace()
        .unwrap_err();
    assert_eq!(e.kind, ErrorKind::UnterminatedStringLiteral);
    assert_eq!(e.index, 4);
    assert_eq!(e.row, 0);
    assert_eq!(e.col, 4);
    let e = Token::from("\"").unwrap_err();
    assert_eq!(e.kind, ErrorKind::UnterminatedStringLiteral);
}

#[test]
fn non_ascii_is_unrecognized_after_word() {
    let e = Token::from("ab\u{e9}").unwrap().get_tokens().unwrap_err();
    assert_eq!(e.kind, ErrorKind::UnrecognizedCharacter);
    assert_eq!(e.index, 2);
    let v = Token::from("'\u{e9}t\u{e9}' x").unwrap().get_strings().unwrap();
    assert_eq!(v, ["'\u{e9}t\u{e9}'", "x"]);
}

#[test]
fn get_line_of_last_line() {
    let token = Token::from("ab\n").unwrap();
    assert_eq!(token.get_line(), "ab");
    let (_, b) = Token::from("abc\ndef\nghi").unwrap().split_at(4).unwrap();
    let b = b.unwrap();
    assert_eq!(b.string, "def\nghi");
    assert_eq!(b.get_line(), "def");
    let (_, c) = b.split_at(4).unwrap();
    assert_eq!(c.unwrap().get_line(), "ghi");
}

#[test]
fn single_character_buffer() {
    let v = Token::from(";").unwrap().get_tokens_including_whitespace().unwrap();
    assert_eq!(v.len(), 1);
    assert_eq!(v[0].string, ";");
    assert_eq!(v[0].category, TokenCategory::Symbol);
    let (a, b) = Token::from(";").unwrap().next_pair().unwrap();
    assert_eq!(a.string, ";");
    assert!(b.is_none());
}
