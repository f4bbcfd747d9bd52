use bbtidy::{AssignmentOperator, Token, get_line_col};

fn lex_tokens(text: &str) -> Vec<(Token, String)> {
    let mut lexer = Token::lexer(text);
    let mut tokens = Vec::new();
    while let Some(result) = lexer.next() {
        let token = result.unwrap_or_else(|_| {
            panic!(
                "unexpected lexer error at {:?}: {:?}",
                lexer.span(),
                lexer.slice()
            )
        });
        if token != Token::Whitespace {
            tokens.push((token, lexer.slice().to_owned()));
        }
    }
    tokens
}

#[test]
fn test_get_line_col() {
    let text = "line1\nline2\nline3";
    assert_eq!(get_line_col(text, 0), (1, 1));
    assert_eq!(get_line_col(text, 5), (1, 6)); // newline char
    assert_eq!(get_line_col(text, 6), (2, 1));
    assert_eq!(get_line_col(text, 11), (2, 6)); // newline char
    assert_eq!(get_line_col(text, 12), (3, 1));

    let utf8 = "éx\nå β";
    assert_eq!(get_line_col(utf8, utf8.find('β').unwrap()), (2, 3));
}

#[test]
fn test_token_lexer() {
    let text = r#"
        include file
        VAR = "value"
        ${PN}
    "#;
    let mut lex = Token::lexer(text);

    assert_eq!(lex.next(), Some(Ok(Token::Whitespace)));
    assert_eq!(lex.next(), Some(Ok(Token::IncludeKw)));
    assert_eq!(lex.next(), Some(Ok(Token::Whitespace)));
    assert_eq!(lex.next(), Some(Ok(Token::Ident))); // file
    assert_eq!(lex.slice(), "file");
    assert_eq!(lex.next(), Some(Ok(Token::Whitespace)));
    assert_eq!(lex.next(), Some(Ok(Token::Ident))); // VAR
    assert_eq!(lex.slice(), "VAR");
    assert_eq!(lex.next(), Some(Ok(Token::Whitespace)));
    assert_eq!(lex.next(), Some(Ok(Token::Assign)));
    assert_eq!(lex.next(), Some(Ok(Token::Whitespace)));
    assert_eq!(lex.next(), Some(Ok(Token::DqString)));
    assert_eq!(lex.slice(), "\"value\"");
    assert_eq!(lex.next(), Some(Ok(Token::Whitespace)));
    assert_eq!(lex.next(), Some(Ok(Token::VarRef)));
    assert_eq!(lex.slice(), "${PN}");
    assert_eq!(lex.next(), Some(Ok(Token::Whitespace)));
}

#[test]
fn test_simple_tokens() {
    let mut lex = Token::lexer("VAR = \"val\"");
    assert_eq!(lex.next(), Some(Ok(Token::Ident)));
    assert_eq!(lex.slice(), "VAR");
    assert_eq!(lex.next(), Some(Ok(Token::Whitespace)));
    assert_eq!(lex.next(), Some(Ok(Token::Assign)));
    assert_eq!(lex.next(), Some(Ok(Token::Whitespace)));
    assert_eq!(lex.next(), Some(Ok(Token::DqString)));
    assert_eq!(lex.slice(), "\"val\"");
}

#[test]
fn test_keywords() {
    let tokens = lex_tokens(
        "include include_all require inherit inherit_defer addfragments \
         export unset addtask deltask addhandler addpylib EXPORT_FUNCTIONS \
         before after python fakeroot",
    );
    let actual: Vec<Token> = tokens.into_iter().map(|(token, _)| token).collect();
    let expected = vec![
        Token::IncludeKw,
        Token::IncludeAllKw,
        Token::RequireKw,
        Token::InheritKw,
        Token::InheritDeferKw,
        Token::AddFragmentsKw,
        Token::ExportKw,
        Token::UnsetKw,
        Token::AddtaskKw,
        Token::DeltaskKw,
        Token::AddHandlerKw,
        Token::AddPyLibKw,
        Token::ExportFunctionsKw,
        Token::BeforeKw,
        Token::AfterKw,
        Token::PythonKw,
        Token::FakerootKw,
    ];

    assert_eq!(actual, expected);
}

#[test]
fn test_assignment_operator_tokens_and_semantics() {
    let tokens = lex_tokens("= := ?= ??= += =+ .= =.");
    let actual: Vec<(Token, AssignmentOperator, String)> = tokens
        .into_iter()
        .map(|(token, slice)| {
            let operator = token.assignment_operator().unwrap();
            (token, operator, slice)
        })
        .collect();
    let expected = vec![
        (Token::Assign, AssignmentOperator::Assign, "=".into()),
        (
            Token::ImmediateAssign,
            AssignmentOperator::Immediate,
            ":=".into(),
        ),
        (
            Token::DefaultAssign,
            AssignmentOperator::Default,
            "?=".into(),
        ),
        (
            Token::WeakDefaultAssign,
            AssignmentOperator::WeakDefault,
            "??=".into(),
        ),
        (
            Token::AppendAssign,
            AssignmentOperator::AppendWithSpace,
            "+=".into(),
        ),
        (
            Token::PrependAssign,
            AssignmentOperator::PrependWithSpace,
            "=+".into(),
        ),
        (
            Token::AppendNoSpaceAssign,
            AssignmentOperator::AppendWithoutSpace,
            ".=".into(),
        ),
        (
            Token::PrependNoSpaceAssign,
            AssignmentOperator::PrependWithoutSpace,
            "=.".into(),
        ),
    ];

    assert_eq!(actual, expected);
    for (_, operator, slice) in actual {
        assert_eq!(operator.lexeme(), slice);
    }
}

#[test]
fn test_override_key_expansion_and_varflag_tokens() {
    let tokens = lex_tokens(
        "RDEPENDS:${PN}:class-native += \"foo\"\n\
         do_fetch[network] = \"1\"\n\
         RDEPENDS_${PN} += \"legacy\"",
    );
    let actual: Vec<(Token, &str)> = tokens
        .iter()
        .map(|(token, slice)| (*token, slice.as_str()))
        .collect();
    let expected = vec![
        (Token::Ident, "RDEPENDS"),
        (Token::Colon, ":"),
        (Token::VarRef, "${PN}"),
        (Token::Colon, ":"),
        (Token::Ident, "class-native"),
        (Token::AppendAssign, "+="),
        (Token::DqString, "\"foo\""),
        (Token::Ident, "do_fetch"),
        (Token::LBracket, "["),
        (Token::Ident, "network"),
        (Token::RBracket, "]"),
        (Token::Assign, "="),
        (Token::DqString, "\"1\""),
        (Token::Ident, "RDEPENDS_"),
        (Token::VarRef, "${PN}"),
        (Token::AppendAssign, "+="),
        (Token::DqString, "\"legacy\""),
    ];

    assert_eq!(actual, expected);
}

#[test]
fn test_directive_paths_and_multiline_values_lex_without_errors() {
    let input: &str = &[
        "include_all conf/distro/include/maintainers.inc\n",
        "inherit_defer ${VARNAME}\n",
        "addpylib ${LAYERDIR}/lib oeqa\n",
        "SRC_URI = \" \\\n",
        "    file://one.patch \\\n",
        "    file://two.patch \\\n",
        "\"\n",
    ].concat();
    let tokens = lex_tokens(input);

    assert!(tokens.contains(&(Token::IncludeAllKw, "include_all".into())));
    assert!(tokens.contains(&(Token::InheritDeferKw, "inherit_defer".into())));
    assert!(tokens.contains(&(Token::AddPyLibKw, "addpylib".into())));
    assert!(
        tokens
            .iter()
            .filter(|(token, _)| *token == Token::Slash)
            .count()
            >= 4
    );
    assert!(tokens.iter().any(|(token, slice)| {
        *token == Token::DqString
            && slice.contains("file://one.patch")
            && slice.contains("file://two.patch")
    }));
}

#[test]
fn test_new_syntax() {
    let text = r#"
        VAR ??= "val"
        VAR[flag] = "val"
        do_foo() {
            return 0
        }
    "#;
    let mut lex = Token::lexer(text);

    // VAR ??= "val"
    assert_eq!(lex.next(), Some(Ok(Token::Whitespace)));
    assert_eq!(lex.next(), Some(Ok(Token::Ident)));
    assert_eq!(lex.slice(), "VAR");
    assert_eq!(lex.next(), Some(Ok(Token::Whitespace)));
    assert_eq!(lex.next(), Some(Ok(Token::WeakDefaultAssign)));
    assert_eq!(lex.next(), Some(Ok(Token::Whitespace)));
    assert_eq!(lex.next(), Some(Ok(Token::DqString)));

    // VAR[flag] = "val"
    assert_eq!(lex.next(), Some(Ok(Token::Whitespace)));
    assert_eq!(lex.next(), Some(Ok(Token::Ident)));
    assert_eq!(lex.slice(), "VAR");
    assert_eq!(lex.next(), Some(Ok(Token::LBracket)));
    assert_eq!(lex.next(), Some(Ok(Token::Ident)));
    assert_eq!(lex.slice(), "flag");
    assert_eq!(lex.next(), Some(Ok(Token::RBracket)));
    assert_eq!(lex.next(), Some(Ok(Token::Whitespace)));
    assert_eq!(lex.next(), Some(Ok(Token::Assign)));
    assert_eq!(lex.next(), Some(Ok(Token::Whitespace)));
    assert_eq!(lex.next(), Some(Ok(Token::DqString)));

    // do_foo() {
    assert_eq!(lex.next(), Some(Ok(Token::Whitespace)));
    assert_eq!(lex.next(), Some(Ok(Token::Ident)));
    assert_eq!(lex.slice(), "do_foo");
    assert_eq!(lex.next(), Some(Ok(Token::LParen)));
    assert_eq!(lex.next(), Some(Ok(Token::RParen)));
    assert_eq!(lex.next(), Some(Ok(Token::Whitespace)));
    assert_eq!(lex.next(), Some(Ok(Token::LBrace)));

    // return 0
    assert_eq!(lex.next(), Some(Ok(Token::Whitespace)));
    assert_eq!(lex.next(), Some(Ok(Token::Ident)));
    assert_eq!(lex.slice(), "return");
    assert_eq!(lex.next(), Some(Ok(Token::Whitespace)));
    assert_eq!(lex.next(), Some(Ok(Token::Ident))); // 0 is parsed as Ident for now
    assert_eq!(lex.slice(), "0");

    // }
    assert_eq!(lex.next(), Some(Ok(Token::Whitespace)));
    assert_eq!(lex.next(), Some(Ok(Token::RBrace)));
    assert_eq!(lex.next(), Some(Ok(Token::Whitespace)));
}
