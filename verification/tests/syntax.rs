use pepper::buffer_position::{BufferPosition, BufferRange};
use pepper::syntax::{HighlightResult, HighlightedBuffer, LineParseState, Syntax, Token, TokenKind};

fn assert_token(slice: &str, kind: TokenKind, line: &str, token: &Token) {
    assert_eq!(kind, token.kind);
    assert_eq!(slice, &line[token.range.clone()]);
}

fn highlighted_tokens(highlighted: &HighlightedBuffer) -> Vec<Token> {
    let mut tokens = Vec::new();
    for line in &highlighted.lines()[..highlighted.highlighted_len()] {
        for token in &line.tokens {
            tokens.push(token.clone());
        }
    }
    tokens
}

fn token(kind: TokenKind, range: std::ops::Range<usize>) -> Token {
    Token { kind, range }
}

fn lines_of(text: &str) -> Vec<String> {
    text.split('\n').map(String::from).collect()
}

#[test]
fn no_syntax() {
    let syntax = Syntax::new();
    let mut tokens = Vec::new();
    let line = " fn main() ;  ";
    let parse_state = syntax.parse_line(line, LineParseState::Finished, &mut tokens);

    assert_eq!(LineParseState::Finished, parse_state);
    assert_eq!(6, tokens.len());
    assert_token(" fn", TokenKind::Text, line, &tokens[0]);
    assert_token(" main", TokenKind::Text, line, &tokens[1]);
    assert_token("(", TokenKind::Text, line, &tokens[2]);
    assert_token(")", TokenKind::Text, line, &tokens[3]);
    assert_token(" ;", TokenKind::Text, line, &tokens[4]);
    assert_token("  ", TokenKind::Text, line, &tokens[5]);
}

#[test]
fn one_rule_syntax() {
    let mut syntax = Syntax::new();
    syntax.set_rule(TokenKind::Symbol, ";").unwrap();

    let mut tokens = Vec::new();
    let line = " fn main() ;  ";
    let parse_state = syntax.parse_line(line, LineParseState::Finished, &mut tokens);

    assert_eq!(LineParseState::Finished, parse_state);
    assert_eq!(6, tokens.len());
    assert_token(" fn", TokenKind::Text, line, &tokens[0]);
    assert_token(" main", TokenKind::Text, line, &tokens[1]);
    assert_token("(", TokenKind::Text, line, &tokens[2]);
    assert_token(")", TokenKind::Text, line, &tokens[3]);
    assert_token(" ;", TokenKind::Symbol, line, &tokens[4]);
    assert_token("  ", TokenKind::Text, line, &tokens[5]);
}

#[test]
fn simple_syntax() {
    let mut syntax = Syntax::new();
    syntax.set_rule(TokenKind::Keyword, "fn").unwrap();
    syntax.set_rule(TokenKind::Symbol, "%(|%)").unwrap();

    let mut tokens = Vec::new();
    let line = " fn main() ;  ";
    let parse_state = syntax.parse_line(line, LineParseState::Finished, &mut tokens);

    assert_eq!(LineParseState::Finished, parse_state);
    assert_eq!(6, tokens.len());
    assert_token(" fn", TokenKind::Keyword, line, &tokens[0]);
    assert_token(" main", TokenKind::Text, line, &tokens[1]);
    assert_token("(", TokenKind::Symbol, line, &tokens[2]);
    assert_token(")", TokenKind::Symbol, line, &tokens[3]);
    assert_token(" ;", TokenKind::Text, line, &tokens[4]);
    assert_token("  ", TokenKind::Text, line, &tokens[5]);
}

#[test]
fn multiline_syntax() {
    let mut syntax = Syntax::new();
    syntax.set_rule(TokenKind::Comment, "/*{!(*/).$}").unwrap();

    let mut tokens = Vec::new();
    let line0 = "before /* comment";
    let line1 = "only comment";
    let line2 = "still comment */ after";

    let line0_kind = syntax.parse_line(line0, LineParseState::Finished, &mut tokens);
    match line0_kind {
        LineParseState::Unfinished(i, _) => assert_eq!(TokenKind::Comment, i),
        _ => panic!("{:?}", line0_kind),
    }
    assert_eq!(2, tokens.len());
    assert_token("before", TokenKind::Text, line0, &tokens[0]);
    assert_token(" /* comment", TokenKind::Comment, line0, &tokens[1]);

    let line1_kind = syntax.parse_line(line1, line0_kind, &mut tokens);
    match line1_kind {
        LineParseState::Unfinished(i, _) => assert_eq!(TokenKind::Comment, i),
        _ => panic!("{:?}", line1_kind),
    }
    assert_eq!(1, tokens.len());
    assert_token("only comment", TokenKind::Comment, line1, &tokens[0]);

    let line2_kind = syntax.parse_line(line2, line1_kind, &mut tokens);
    assert_eq!(LineParseState::Finished, line2_kind);
    assert_eq!(2, tokens.len());
    assert_token("still comment */", TokenKind::Comment, line2, &tokens[0]);
    assert_token(" after", TokenKind::Text, line2, &tokens[1]);
}

#[test]
fn editing_highlighted_buffer() {
    let mut syntax = Syntax::new();
    syntax.set_rule(TokenKind::Comment, "/*{!(*/).$}").unwrap();
    syntax.set_rule(TokenKind::String, "'{!'.$}").unwrap();

    let mut highlighted = HighlightedBuffer::new();

    let buffer = lines_of("/*\n*/");
    let range = BufferRange::between(BufferPosition::line_col(0, 0), BufferPosition::line_col(1, 2));
    highlighted.on_insert(range);
    highlighted.highlight_dirty_lines(&syntax, &buffer);
    assert_eq!(buffer.len(), highlighted.lines().len());

    {
        let tokens = highlighted_tokens(&highlighted);
        assert_eq!(vec![token(TokenKind::Comment, 0..2), token(TokenKind::Comment, 0..2)], tokens);
    }

    let buffer = lines_of("/*\n'*/");
    let range = BufferRange::between(BufferPosition::line_col(1, 0), BufferPosition::line_col(1, 1));
    highlighted.on_insert(range);
    highlighted.highlight_dirty_lines(&syntax, &buffer);

    {
        let tokens = highlighted_tokens(&highlighted);
        assert_eq!(vec![token(TokenKind::Comment, 0..2), token(TokenKind::Comment, 0..3)], tokens);
    }
}

#[test]
fn highlight_range_after_unfinished_line() {
    let mut syntax = Syntax::new();
    syntax.set_rule(TokenKind::Comment, "/*{!(*/).$}").unwrap();

    let mut highlighted = HighlightedBuffer::new();

    let buffer = lines_of("/*\n\n\n*/");
    let range = BufferRange::between(BufferPosition::line_col(0, 0), BufferPosition::line_col(3, 2));
    highlighted.on_insert(range);
    highlighted.highlight_dirty_lines(&syntax, &buffer);
    assert_eq!(buffer.len(), highlighted.lines().len());

    let tokens = highlighted_tokens(&highlighted);
    assert_eq!(
        vec![
            token(TokenKind::Comment, 0..2),
            token(TokenKind::Comment, 0..0),
            token(TokenKind::Comment, 0..0),
            token(TokenKind::Comment, 0..2),
        ],
        tokens
    );
}

#[test]
fn highlight_lines_after_unfinished_to_finished() {
    let mut syntax = Syntax::new();
    syntax.set_rule(TokenKind::Comment, "/*{!(*/).$}").unwrap();

    let mut highlighted = HighlightedBuffer::new();

    let buffer = lines_of("/*\n* /\n*/");
    let range = BufferRange::between(BufferPosition::line_col(0, 0), BufferPosition::line_col(2, 2));
    highlighted.on_insert(range);
    highlighted.highlight_dirty_lines(&syntax, &buffer);

    let range = BufferRange::between(BufferPosition::line_col(1, 1), BufferPosition::line_col(1, 2));
    let buffer = lines_of("/*\n*/\n*/");
    highlighted.on_delete(range);
    highlighted.highlight_dirty_lines(&syntax, &buffer);

    let parse_states: Vec<LineParseState> = highlighted.lines()[..highlighted.highlighted_len()]
        .iter()
        .map(|l| l.parse_state)
        .collect();
    assert_eq!(3, parse_states.len());
    assert!(matches!(parse_states[0], LineParseState::Unfinished(_, _)));
    assert_eq!(LineParseState::Finished, parse_states[1]);
    assert_eq!(LineParseState::Finished, parse_states[2]);

    let tokens = highlighted_tokens(&highlighted);
    assert_eq!(
        vec![
            token(TokenKind::Comment, 0..2),
            token(TokenKind::Comment, 0..2),
            token(TokenKind::Text, 0..1),
            token(TokenKind::Text, 1..2),
        ],
        tokens
    );
}

#[test]
fn highlight_lines_after_became_unfinished() {
    let mut syntax = Syntax::new();
    syntax.set_rule(TokenKind::Comment, "/*{!(*/).$}").unwrap();

    let mut highlighted = HighlightedBuffer::new();

    let buffer = lines_of("/ *\na\n*/");
    let range = BufferRange::between(BufferPosition::line_col(0, 0), BufferPosition::line_col(2, 2));
    highlighted.on_insert(range);
    highlighted.highlight_dirty_lines(&syntax, &buffer);

    let range = BufferRange::between(BufferPosition::line_col(0, 1), BufferPosition::line_col(0, 2));
    let buffer = lines_of("/*\na\n*/");
    highlighted.on_delete(range);
    highlighted.highlight_dirty_lines(&syntax, &buffer);

    let tokens = highlighted_tokens(&highlighted);
    assert_eq!(
        vec![
            token(TokenKind::Comment, 0..2),
            token(TokenKind::Comment, 0..1),
            token(TokenKind::Comment, 0..2),
        ],
        tokens
    );
}

#[test]
fn highlight_unfinished_lines_on_multiline_delete() {
    let mut syntax = Syntax::new();
    syntax.set_rule(TokenKind::Comment, "/*{!(*/).$}").unwrap();

    let mut highlighted = HighlightedBuffer::new();

    let buffer = lines_of("a\n/*\nb\nc*/");
    let range = BufferRange::between(BufferPosition::line_col(0, 0), BufferPosition::line_col(3, 3));
    highlighted.on_insert(range);
    highlighted.highlight_dirty_lines(&syntax, &buffer);
    assert_eq!(buffer.len(), highlighted.highlighted_len());

    {
        let tokens = highlighted_tokens(&highlighted);
        assert_eq!(
            vec![
                token(TokenKind::Text, 0..1),
                token(TokenKind::Comment, 0..2),
                token(TokenKind::Comment, 0..1),
                token(TokenKind::Comment, 0..3),
            ],
            tokens
        );
    }

    let range = BufferRange::between(BufferPosition::line_col(0, 0), BufferPosition::line_col(1, 1));
    let buffer = lines_of("*\nb\nc*/");
    highlighted.on_delete(range);
    highlighted.highlight_dirty_lines(&syntax, &buffer);
    assert_eq!(buffer.len(), highlighted.highlighted_len());

    {
        let tokens = highlighted_tokens(&highlighted);
        assert_eq!(
            vec![
                token(TokenKind::Text, 0..1),
                token(TokenKind::Text, 0..1),
                token(TokenKind::Text, 0..1),
                token(TokenKind::Text, 1..2),
                token(TokenKind::Text, 2..3),
            ],
            tokens
        );
    }
}

#[test]
fn find_token_kind_at_positions() {
    let mut syntax = Syntax::new();
    syntax.set_rule(TokenKind::Keyword, "fn").unwrap();

    let mut highlighted = HighlightedBuffer::new();
    let buffer = lines_of("fn x");
    highlighted.on_insert(BufferRange::between(BufferPosition::line_col(0, 0), BufferPosition::line_col(0, 4)));
    assert!(matches!(highlighted.highlight_dirty_lines(&syntax, &buffer), HighlightResult::Complete));

    assert_eq!(TokenKind::Keyword, highlighted.find_token_kind_at(0, 0));
    assert_eq!(TokenKind::Keyword, highlighted.find_token_kind_at(0, 1));
    assert_eq!(TokenKind::Text, highlighted.find_token_kind_at(0, 3));
    assert_eq!(TokenKind::Text, highlighted.find_token_kind_at(0, 10));
    assert_eq!(TokenKind::Text, highlighted.find_token_kind_at(5, 0));
}

#[test]
fn tokens_cover_non_ascii_chars() {
    let syntax = Syntax::new();
    let mut tokens = Vec::new();
    let line = "é+";
    let state = syntax.parse_line(line, LineParseState::Finished, &mut tokens);
    assert_eq!(LineParseState::Finished, state);
    assert_eq!(vec![token(TokenKind::Text, 0..2), token(TokenKind::Text, 2..3)], tokens);
}

#[test]
fn long_dirty_runs_are_highlighted_in_steps() {
    let mut syntax = Syntax::new();
    syntax.set_rule(TokenKind::Comment, "/*{!(*/).$}").unwrap();
    let mut text = String::from("/*");
    for _ in 0..2999 {
        text.push_str("\nx");
    }
    let buffer = lines_of(&text);
    let mut highlighted = HighlightedBuffer::new();
    highlighted.on_insert(BufferRange::between(BufferPosition::line_col(0, 0), BufferPosition::line_col(2999, 1)));
    assert!(matches!(highlighted.highlight_dirty_lines(&syntax, &buffer), HighlightResult::Pending));
    assert!(matches!(highlighted.highlight_dirty_lines(&syntax, &buffer), HighlightResult::Complete));
    assert_eq!(TokenKind::Comment, highlighted.find_token_kind_at(2999, 0));
}
