use iryfful::tokenizer::filter::Filter;
use iryfful::tokenizer::filter::TokenFilter;
use iryfful::tokenizer::whitespace_tokenizer::WhiteSpaceTokenizer;
use iryfful::tokenizer::Token;
use iryfful::tokenizer::Tokenizer;

#[test]
fn whitespace_tokenizer_splits_on_whitespace() {
    let white_space_tokenizer = WhiteSpaceTokenizer::new();

    let mut iter = white_space_tokenizer.tokenize(" aaa\nbbb   ccc    ").into_iter();

    let next_token = iter.next();
    assert_eq!(next_token, Some(Token { token: String::from("aaa"), position: 1 }));

    let next_token = iter.next();
    assert_eq!(next_token, Some(Token { token: String::from("bbb"), position: 2 }));

    let next_token = iter.next();
    assert_eq!(next_token, Some(Token { token: String::from("ccc"), position: 3 }));

    let next_token = iter.next();
    assert_eq!(next_token, None);
}

#[test]
fn whitespace_tokenizer_reuse_tokenizer() {
    let white_space_tokenizer = WhiteSpaceTokenizer::new();

    let mut iter = white_space_tokenizer.tokenize("aaa bbb").into_iter();

    let next_token = iter.next();
    assert_eq!(next_token, Some(Token { token: String::from("aaa"), position: 1 }));

    let next_token = iter.next();
    assert_eq!(next_token, Some(Token { token: String::from("bbb"), position: 2 }));

    let next_token = iter.next();
    assert_eq!(next_token, None);

    let mut iter = white_space_tokenizer.tokenize("ccc ddd").into_iter();

    let next_token = iter.next();
    assert_eq!(next_token, Some(Token { token: String::from("ccc"), position: 1 }));

    let next_token = iter.next();
    assert_eq!(next_token, Some(Token { token: String::from("ddd"), position: 2 }));

    let next_token = iter.next();
    assert_eq!(next_token, None);
}

#[test]
fn to_lowercase_filter() {
    let mut white_space_tokenizer = WhiteSpaceTokenizer::new();

    white_space_tokenizer.add_filter(TokenFilter::LowerCase);

    let mut iter = white_space_tokenizer.tokenize("aaa BBB cCc").into_iter();

    let next_token = iter.next();
    assert_eq!(next_token, Some(Token { token: String::from("aaa"), position: 1 }));

    let next_token = iter.next();
    assert_eq!(next_token, Some(Token { token: String::from("bbb"), position: 2 }));

    let next_token = iter.next();
    assert_eq!(next_token, Some(Token { token: String::from("ccc"), position: 3 }));

    let next_token = iter.next();
    assert_eq!(next_token, None);
}

#[test]
fn tokenizer_edge_cases() {
    let tok = WhiteSpaceTokenizer::new();
    assert_eq!(tok.tokenize("").len(), 0);
    assert_eq!(tok.tokenize(" \t\n ").len(), 0);
    // Unicode whitespace: no-break space and ideographic space separate tokens
    let tokens = tok.tokenize("a\u{a0}b\u{3000}c");
    assert_eq!(tokens.len(), 3);
    assert_eq!(tokens[2], Token { token: String::from("c"), position: 3 });
    let splits = tok.splits("  x  yy ");
    assert_eq!(splits, vec![String::from("x"), String::from("yy")]);
    assert_eq!(tok.get_filters().len(), 0);
}

#[test]
fn filter_applies_in_place() {
    let mut token = Token { position: 4, token: String::from("ÀbC") };
    TokenFilter::LowerCase.apply(&mut token);
    assert_eq!(token, Token { position: 4, token: String::from("àbc") });
}
