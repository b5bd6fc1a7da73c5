use pgn_lexer::lexer::{Lexer, Token};

/// Scans `input` until the first `EndOfInput`, returning every token
/// produced, the terminal one included.
fn tokenize(input: &str) -> Vec<Token> {
    let mut lex = Lexer::new(input.to_string());
    let mut out = Vec::new();
    loop {
        let t = lex.next_token();
        let done = t == Token::EndOfInput;
        out.push(t);
        if done {
            return out;
        }
        assert!(out.len() < 10_000, "scanner failed to reach end of input");
    }
}

#[test]
fn move_number_and_squares() {
    assert_eq!(
        tokenize("1. e4 e5"),
        vec![
            Token::MoveMarker("1.".to_string()),
            Token::File(b'e'),
            Token::Rank(b'4'),
            Token::File(b'e'),
            Token::Rank(b'5'),
            Token::EndOfInput,
        ]
    );
}

#[test]
fn tag_pair() {
    assert_eq!(
        tokenize("[Event \"Test\"]"),
        vec![
            Token::TagPair("Event".to_string(), "Test".to_string()),
            Token::EndOfInput,
        ]
    );
}

#[test]
fn short_castle() {
    assert_eq!(tokenize("O-O"), vec![Token::ShortCastle, Token::EndOfInput]);
}

#[test]
fn long_castle() {
    assert_eq!(tokenize("O-O-O"), vec![Token::LongCastle, Token::EndOfInput]);
}

#[test]
fn draw_marker() {
    assert_eq!(tokenize("1/2-1/2"), vec![Token::Draw, Token::EndOfInput]);
}

#[test]
fn white_win_marker() {
    assert_eq!(tokenize("1-0"), vec![Token::WhiteWin, Token::EndOfInput]);
}

#[test]
fn black_win_marker() {
    assert_eq!(tokenize("0-1"), vec![Token::BlackWin, Token::EndOfInput]);
}

#[test]
fn comment() {
    assert_eq!(
        tokenize("{good move}"),
        vec![Token::Comment("good move".to_string()), Token::EndOfInput]
    );
}

#[test]
fn unterminated_tag_value() {
    assert_eq!(
        tokenize("[Event \"Test]"),
        vec![
            Token::Illegal("tag pair contains unterminated string literal".to_string()),
            Token::EndOfInput,
        ]
    );
}

#[test]
fn multi_digit_move_number() {
    assert_eq!(
        tokenize("127."),
        vec![Token::MoveMarker("127.".to_string()), Token::EndOfInput]
    );
}

#[test]
fn end_of_input_is_idempotent() {
    let mut lex = Lexer::new("e4".to_string());
    assert_eq!(lex.next_token(), Token::File(b'e'));
    assert_eq!(lex.next_token(), Token::Rank(b'4'));
    assert_eq!(lex.next_token(), Token::EndOfInput);
    assert_eq!(lex.next_token(), Token::EndOfInput);
    assert_eq!(lex.next_token(), Token::EndOfInput);
}

#[test]
fn empty_input() {
    assert_eq!(tokenize(""), vec![Token::EndOfInput]);
    assert_eq!(tokenize("  \t\r\n "), vec![Token::EndOfInput]);
}

#[test]
fn move_marker_literals_round_trip() {
    // One, two and four digits; one and three trailing periods: the literal
    // reproduces the consumed run verbatim.
    for run in ["1.", "12.", "1234.", "1...", "127...", "3528...."] {
        assert_eq!(
            tokenize(run),
            vec![Token::MoveMarker(run.to_string()), Token::EndOfInput],
            "literal must reproduce {run}"
        );
    }
}

#[test]
fn ellipsis_continuation_after_comment() {
    assert_eq!(
        tokenize("12. e4 {solid} 12... c5"),
        vec![
            Token::MoveMarker("12.".to_string()),
            Token::File(b'e'),
            Token::Rank(b'4'),
            Token::Comment("solid".to_string()),
            Token::MoveMarker("12...".to_string()),
            Token::File(b'c'),
            Token::Rank(b'5'),
            Token::EndOfInput,
        ]
    );
}

#[test]
fn pieces_and_symbols() {
    assert_eq!(
        tokenize("K Q R B N x + # = ( ) *"),
        vec![
            Token::King,
            Token::Queen,
            Token::Rook,
            Token::Bishop,
            Token::Knight,
            Token::Takes,
            Token::Check,
            Token::Mate,
            Token::Promote,
            Token::Lparen,
            Token::Rparen,
            Token::Star,
            Token::EndOfInput,
        ]
    );
}

#[test]
fn capture_with_check() {
    assert_eq!(
        tokenize("Nxe4 +"),
        vec![
            Token::Knight,
            Token::Takes,
            Token::File(b'e'),
            Token::Rank(b'4'),
            Token::Check,
            Token::EndOfInput,
        ]
    );
}

#[test]
fn rank_lookahead_byte_is_dropped() {
    // After a digit, one byte of lookahead decides the branch; in the rank
    // case that byte has been consumed and is dropped, not re-offered.
    assert_eq!(tokenize("4e"), vec![Token::Rank(b'4'), Token::EndOfInput]);
    assert_eq!(
        tokenize("Nf3#"),
        vec![
            Token::Knight,
            Token::File(b'f'),
            Token::Rank(b'3'),
            Token::EndOfInput,
        ]
    );
    // The dropped byte costs the token that would have followed a rank: the
    // check symbol after "e4" here is the byte the rank branch discards.
    assert_eq!(
        tokenize("Nxe4+"),
        vec![
            Token::Knight,
            Token::Takes,
            Token::File(b'e'),
            Token::Rank(b'4'),
            Token::EndOfInput,
        ]
    );
}

#[test]
fn only_the_format_whitespace_is_skipped() {
    // Space, tab, newline and carriage return are whitespace; any other
    // control byte falls through to the unrecognized-character error.
    assert_eq!(
        tokenize("\u{c}")[0],
        Token::Illegal("unrecognized character \u{c}".to_string())
    );
}

#[test]
fn slash_after_other_digit_is_a_rank() {
    // Only "1" opens a draw marker; after any other digit the slash is the
    // dropped lookahead byte of a rank.
    assert_eq!(
        tokenize("3/4"),
        vec![Token::Rank(b'3'), Token::Rank(b'4'), Token::EndOfInput]
    );
}

#[test]
fn malformed_draw() {
    assert_eq!(
        tokenize("1/3"),
        vec![
            Token::Illegal("malformed draw".to_string()),
            Token::Rank(b'3'),
            Token::EndOfInput,
        ]
    );
}

#[test]
fn malformed_white_victory() {
    let toks = tokenize("1-2");
    assert_eq!(toks[0], Token::Illegal("malformed white victory".to_string()));
}

#[test]
fn malformed_black_victory() {
    let toks = tokenize("0-2");
    assert_eq!(toks[0], Token::Illegal("malformed black victory".to_string()));
}

#[test]
fn malformed_castle() {
    let toks = tokenize("Ox");
    assert_eq!(toks[0], Token::Illegal("malformed castle".to_string()));
}

#[test]
fn failed_castle_extension_restores_cursor() {
    // "O-O" scans as a short castle; the failed "-O" extension restores the
    // cursor, so the hyphen and what follows stay for the next calls.
    assert_eq!(
        tokenize("O-O-x"),
        vec![
            Token::ShortCastle,
            Token::Illegal("unrecognized character -".to_string()),
            Token::Takes,
            Token::EndOfInput,
        ]
    );
}

#[test]
fn multi_digit_number_hits_end_of_input() {
    assert_eq!(
        tokenize("12"),
        vec![
            Token::Illegal("multi-digit formation did not terminate before eof".to_string()),
            Token::EndOfInput,
        ]
    );
}

#[test]
fn unterminated_comment() {
    assert_eq!(
        tokenize("{never closed"),
        vec![
            Token::Illegal("unterminated comment".to_string()),
            Token::EndOfInput,
        ]
    );
}

#[test]
fn malformed_tag_pairs() {
    // A bracket before any whitespace: the key has no value.
    assert_eq!(
        tokenize("[Event]")[0],
        Token::Illegal("malformed tag pair".to_string())
    );
    // The value is not quoted.
    assert_eq!(
        tokenize("[Event Test]")[0],
        Token::Illegal("malformed tag pair".to_string())
    );
    // End of input while scanning the key.
    assert_eq!(
        tokenize("[Event")[0],
        Token::Illegal("malformed tag pair".to_string())
    );
    // The closing bracket is missing after the value.
    assert_eq!(
        tokenize("[Event \"Test\" x")[0],
        Token::Illegal("malformed tag pair".to_string())
    );
}

#[test]
fn file_letter_boundaries() {
    assert_eq!(tokenize("a h"), vec![Token::File(b'a'), Token::File(b'h'), Token::EndOfInput]);
    assert_eq!(
        tokenize("i")[0],
        Token::Illegal("unrecognized character i".to_string())
    );
}

#[test]
fn bare_rank_digits_outside_moves() {
    assert_eq!(tokenize("9 "), vec![Token::Rank(b'9'), Token::EndOfInput]);
    assert_eq!(tokenize("0 "), vec![Token::Rank(b'0'), Token::EndOfInput]);
}

#[test]
fn unrecognized_character() {
    assert_eq!(
        tokenize("?")[0],
        Token::Illegal("unrecognized character ?".to_string())
    );
}

#[test]
fn tokens_partition_a_full_game_header() {
    // Every non-whitespace character of a valid document is accounted for by
    // exactly one token, in document order.
    assert_eq!(
        tokenize("[Site \"Belgrade\"]\n1. e4 e5 (1... c5 ) {open} 2. Nf3 1/2-1/2 *"),
        vec![
            Token::TagPair("Site".to_string(), "Belgrade".to_string()),
            Token::MoveMarker("1.".to_string()),
            Token::File(b'e'),
            Token::Rank(b'4'),
            Token::File(b'e'),
            Token::Rank(b'5'),
            Token::Lparen,
            Token::MoveMarker("1...".to_string()),
            Token::File(b'c'),
            Token::Rank(b'5'),
            Token::Rparen,
            Token::Comment("open".to_string()),
            Token::MoveMarker("2.".to_string()),
            Token::Knight,
            Token::File(b'f'),
            Token::Rank(b'3'),
            Token::Draw,
            Token::Star,
            Token::EndOfInput,
        ]
    );
}

#[test]
fn embedded_zero_byte_reads_as_end_of_input() {
    // The scanner uses the zero byte as its end-of-input sentinel, so an
    // embedded one ends the stream early for that call only.
    let mut lex = Lexer::new("a\0b".to_string());
    assert_eq!(lex.next_token(), Token::File(b'a'));
    assert_eq!(lex.next_token(), Token::EndOfInput);
    assert_eq!(lex.next_token(), Token::File(b'b'));
    assert_eq!(lex.next_token(), Token::EndOfInput);
}

#[test]
fn describe_renders_each_kind() {
    assert_eq!(
        Token::TagPair("Event".to_string(), "Test".to_string()).describe(),
        "Tag Pair: [Event \"Test\"]"
    );
    assert_eq!(
        Token::Illegal("malformed draw".to_string()).describe(),
        "Illegal: malformed draw"
    );
    assert_eq!(Token::EndOfInput.describe(), "EOF");
    assert_eq!(
        Token::MoveMarker("12...".to_string()).describe(),
        "Move: 12..."
    );
    assert_eq!(Token::Comment("sharp".to_string()).describe(), "Comment: sharp");
    assert_eq!(Token::King.describe(), "King");
    assert_eq!(Token::Queen.describe(), "Queen");
    assert_eq!(Token::Rook.describe(), "Rook");
    assert_eq!(Token::Bishop.describe(), "Bishop");
    assert_eq!(Token::Knight.describe(), "Knight");
    assert_eq!(Token::Rank(b'4').describe(), "Rank: 4");
    assert_eq!(Token::File(b'e').describe(), "File: e");
    assert_eq!(Token::WhiteWin.describe(), "White Wins");
    assert_eq!(Token::BlackWin.describe(), "Black Wins");
    assert_eq!(Token::Draw.describe(), "Draw");
    assert_eq!(Token::Takes.describe(), "Takes");
    assert_eq!(Token::Check.describe(), "Check");
    assert_eq!(Token::Mate.describe(), "Checkmate");
    assert_eq!(Token::Promote.describe(), "Promote");
    assert_eq!(Token::LongCastle.describe(), "Castle Queenside");
    assert_eq!(Token::ShortCastle.describe(), "Castle Kingside");
    assert_eq!(Token::Star.describe(), "Asterisk");
    assert_eq!(Token::Lparen.describe(), "Left paren");
    assert_eq!(Token::Rparen.describe(), "Right paren");
}
