//! The executable scanner.

use vstd::prelude::*;

use crate::scan::{byte_at, chars_of, is_ws, match_lit, step, ws_end};
use crate::scan::{comment_end, dot_end, dot_start, key_end, val_end};
use crate::scan::{lemma_chars_of_snoc, lemma_token_partition};
use crate::scan::{spec_castle, spec_comment, spec_next_token, spec_number, spec_tag_pair};
use crate::scan::TokenModel;
use vstd::string::{StrSliceExecFns, StringExecFns};

verus! {

/// One token of a PGN document.
#[derive(Debug, PartialEq, Eq)]
pub enum Token {
    Illegal(String),
    EndOfInput,
    MoveMarker(String),
    TagPair(String, String),
    Comment(String),
    King,
    Queen,
    Rook,
    Bishop,
    Knight,
    Rank(u8),
    File(u8),
    WhiteWin,
    BlackWin,
    Draw,
    Takes,
    Check,
    Mate,
    Promote,
    LongCastle,
    ShortCastle,
    Star,
    Lparen,
    Rparen,
}

impl View for Token {
    type V = TokenModel;

    open spec fn view(&self) -> TokenModel {
        match self {
            Token::Illegal(m) => TokenModel::Illegal(m@),
            Token::EndOfInput => TokenModel::EndOfInput,
            Token::MoveMarker(t) => TokenModel::MoveMarker(t@),
            Token::TagPair(k, v) => TokenModel::TagPair(k@, v@),
            Token::Comment(t) => TokenModel::Comment(t@),
            Token::King => TokenModel::King,
            Token::Queen => TokenModel::Queen,
            Token::Rook => TokenModel::Rook,
            Token::Bishop => TokenModel::Bishop,
            Token::Knight => TokenModel::Knight,
            Token::Rank(d) => TokenModel::Rank(*d),
            Token::File(l) => TokenModel::File(*l),
            Token::WhiteWin => TokenModel::WhiteWin,
            Token::BlackWin => TokenModel::BlackWin,
            Token::Draw => TokenModel::Draw,
            Token::Takes => TokenModel::Takes,
            Token::Check => TokenModel::Check,
            Token::Mate => TokenModel::Mate,
            Token::Promote => TokenModel::Promote,
            Token::LongCastle => TokenModel::LongCastle,
            Token::ShortCastle => TokenModel::ShortCastle,
            Token::Star => TokenModel::Star,
            Token::Lparen => TokenModel::Lparen,
            Token::Rparen => TokenModel::Rparen,
        }
    }
}

/// The descriptive text of each token shape: a fixed name, with the payload
/// interpolated where the token carries one.
pub open spec fn spec_describe(t: TokenModel) -> Seq<char> {
    match t {
        TokenModel::Illegal(m) => "Illegal: "@ + m,
        TokenModel::EndOfInput => "EOF"@,
        TokenModel::MoveMarker(x) => "Move: "@ + x,
        TokenModel::TagPair(k, v) => "Tag Pair: ["@ + k + " \""@ + v + "\"]"@,
        TokenModel::Comment(x) => "Comment: "@ + x,
        TokenModel::King => "King"@,
        TokenModel::Queen => "Queen"@,
        TokenModel::Rook => "Rook"@,
        TokenModel::Bishop => "Bishop"@,
        TokenModel::Knight => "Knight"@,
        TokenModel::Rank(d) => "Rank: "@.push(d as char),
        TokenModel::File(l) => "File: "@.push(l as char),
        TokenModel::WhiteWin => "White Wins"@,
        TokenModel::BlackWin => "Black Wins"@,
        TokenModel::Draw => "Draw"@,
        TokenModel::Takes => "Takes"@,
        TokenModel::Check => "Check"@,
        TokenModel::Mate => "Checkmate"@,
        TokenModel::Promote => "Promote"@,
        TokenModel::LongCastle => "Castle Queenside"@,
        TokenModel::ShortCastle => "Castle Kingside"@,
        TokenModel::Star => "Asterisk"@,
        TokenModel::Lparen => "Left paren"@,
        TokenModel::Rparen => "Right paren"@,
    }
}

impl Token {
    /// A human-readable rendering of the token, decoupled from scanning so
    /// that other output formats can sit beside it.
    pub fn describe(&self) -> (r: String)
        ensures
            r@ == spec_describe(self@),
    {
        match self {
            Token::Illegal(x) => "Illegal: ".to_owned().concat(x.as_str()),
            Token::EndOfInput => "EOF".to_owned(),
            Token::MoveMarker(x) => "Move: ".to_owned().concat(x.as_str()),
            Token::TagPair(k, v) => "Tag Pair: [".to_owned().concat(k.as_str()).concat(
                " \"",
            ).concat(v.as_str()).concat("\"]"),
            Token::Comment(x) => "Comment: ".to_owned().concat(x.as_str()),
            Token::King => "King".to_owned(),
            Token::Queen => "Queen".to_owned(),
            Token::Rook => "Rook".to_owned(),
            Token::Bishop => "Bishop".to_owned(),
            Token::Knight => "Knight".to_owned(),
            Token::Rank(d) => {
                let mut s = "Rank: ".to_owned();
                push_char(&mut s, *d as char);
                proof {
                    assert(s@ =~= spec_describe(self@));
                }
                s
            },
            Token::File(l) => {
                let mut s = "File: ".to_owned();
                push_char(&mut s, *l as char);
                proof {
                    assert(s@ =~= spec_describe(self@));
                }
                s
            },
            Token::WhiteWin => "White Wins".to_owned(),
            Token::BlackWin => "Black Wins".to_owned(),
            Token::Draw => "Draw".to_owned(),
            Token::Takes => "Takes".to_owned(),
            Token::Check => "Check".to_owned(),
            Token::Mate => "Checkmate".to_owned(),
            Token::Promote => "Promote".to_owned(),
            Token::LongCastle => "Castle Queenside".to_owned(),
            Token::ShortCastle => "Castle Kingside".to_owned(),
            Token::Star => "Asterisk".to_owned(),
            Token::Lparen => "Left paren".to_owned(),
            Token::Rparen => "Right paren".to_owned(),
        }
    }
}

/// Appends one character to a string.
///
/// Relies on `String::push`: it appends the given character to the end of
/// the string.
#[verifier::external_body]
fn push_char(s: &mut String, c: char)
    ensures
        final(s)@ == old(s)@ + seq![c],
{
    s.push(c);
}

/// Whether `b` is one of the whitespace bytes the format ignores.
fn is_whitespace(b: u8) -> (r: bool)
    ensures
        r == is_ws(b),
{
    b == ' ' as u8 || b == '\t' as u8 || b == '\n' as u8 || b == '\r' as u8
}

/// The scanner. It owns the document's bytes and a pair of cursors that move
/// monotonically forward; each call of [`Lexer::next_token`] starts exactly
/// where the previous one left off.
pub struct Lexer {
    position: usize,
    read_position: usize,
    input: Vec<u8>,
}

impl Lexer {
    /// The document being scanned.
    pub closed spec fn bytes(self) -> Seq<u8> {
        self.input@
    }

    /// The lookahead cursor: the position of the next byte to be read.
    pub closed spec fn cursor(self) -> int {
        self.read_position as int
    }

    #[verifier::type_invariant]
    spec fn wf(self) -> bool {
        self.read_position <= self.input@.len()
    }

    /// Makes a scanner over the UTF-8 bytes of `input`, with the cursor at
    /// the start of the document.
    pub fn new(input: String) -> (r: Lexer)
        ensures
            r.bytes() == vstd::utf8::encode_utf8(input@),
            r.cursor() == 0,
    {
        Lexer { position: 0, read_position: 0, input: input.as_str().as_bytes_vec() }
    }

    /// The byte at the lookahead cursor, or the sentinel `0` past the end of
    /// the input; the cursor does not move.
    fn peek(&self) -> (r: u8)
        ensures
            r == byte_at(self.bytes(), self.cursor()),
    {
        if self.read_position < self.input.len() {
            self.input[self.read_position]
        } else {
            0
        }
    }

    /// Reads the byte at the lookahead cursor and moves both cursors forward,
    /// clamped at the end of the input.
    fn advance(&mut self) -> (r: u8)
        ensures
            final(self).bytes() == old(self).bytes(),
            r == byte_at(old(self).bytes(), old(self).cursor()),
            final(self).cursor() == step(old(self).bytes(), old(self).cursor()),
    {
        proof {
            use_type_invariant(&*self);
        }
        let result = self.peek();
        self.position = self.read_position;
        if self.read_position < self.input.len() {
            self.read_position = self.read_position + 1;
        }
        result
    }

    /// Moves the cursor past the run of whitespace at the cursor; whitespace
    /// is never part of a token.
    fn skip_whitespace(&mut self)
        ensures
            final(self).bytes() == old(self).bytes(),
            final(self).cursor() == ws_end(old(self).bytes(), old(self).cursor()),
    {
        while is_whitespace(self.peek())
            invariant
                self.bytes() == old(self).bytes(),
                ws_end(self.bytes(), self.cursor()) == ws_end(old(self).bytes(), old(self).cursor()),
            decreases self.bytes().len() - self.cursor(),
        {
            self.advance();
        }
    }

    /// Matches the literal `lit` byte for byte at the cursor. On a full match
    /// the cursor stands past the literal and `t` is returned; on the first
    /// mismatch the cursor stops at the mismatching byte, which stays for the
    /// next call, and an `Illegal` token carrying `msg` is returned.
    fn consume(&mut self, lit: &Vec<u8>, msg: &str, t: Token) -> (r: Token)
        ensures
            final(self).bytes() == old(self).bytes(),
            ({
                let (m, nc) = match_lit(old(self).bytes(), old(self).cursor(), lit@);
                &&& final(self).cursor() == nc
                &&& (m ==> r == t)
                &&& (!m ==> r@ == TokenModel::Illegal(msg@))
            }),
    {
        proof {
            assert(lit@.subrange(0, lit@.len() as int) =~= lit@);
        }
        let mut k: usize = 0;
        while k < lit.len()
            invariant
                k <= lit.len(),
                self.bytes() == old(self).bytes(),
                match_lit(self.bytes(), self.cursor(), lit@.subrange(k as int, lit@.len() as int))
                    == match_lit(old(self).bytes(), old(self).cursor(), lit@),
            decreases lit.len() - k,
        {
            let expected = lit[k];
            if self.peek() != expected {
                proof {
                    assert(lit@.subrange(k as int, lit@.len() as int)[0] == expected);
                }
                return Token::Illegal(msg.to_owned());
            }
            self.advance();
            proof {
                assert(lit@.subrange(k as int, lit@.len() as int).subrange(
                    1,
                    lit@.subrange(k as int, lit@.len() as int).len() as int,
                ) =~= lit@.subrange(k as int + 1, lit@.len() as int));
            }
            k = k + 1;
        }
        proof {
            assert(lit@.subrange(lit@.len() as int, lit@.len() as int).len() == 0);
        }
        t
    }

    /// Scans the body of a comment, entered with the cursor just past the
    /// opening brace: everything up to the first closing brace is the
    /// comment's text; reaching the end of the input first is an error.
    fn process_comment(&mut self) -> (r: Token)
        ensures
            final(self).bytes() == old(self).bytes(),
            ({
                let (t, np) = spec_comment(old(self).bytes(), old(self).cursor());
                r@ == t && final(self).cursor() == np
            }),
    {
        proof {
            use_type_invariant(&*self);
        }
        let mut literal = String::new();
        while self.peek() != '}' as u8 && self.peek() != 0
            invariant
                self.bytes() == old(self).bytes(),
                old(self).cursor() <= self.cursor() <= self.bytes().len(),
                comment_end(self.bytes(), self.cursor()) == comment_end(
                    self.bytes(),
                    old(self).cursor(),
                ),
                literal@ == chars_of(self.bytes().subrange(old(self).cursor(), self.cursor())),
            decreases self.bytes().len() - self.cursor(),
        {
            let c = self.advance();
            push_char(&mut literal, c as char);
            proof {
                lemma_chars_of_snoc(self.bytes(), old(self).cursor(), self.cursor() - 1);
            }
        }
        let closer = self.advance();
        if closer == '}' as u8 {
            Token::Comment(literal)
        } else {
            Token::Illegal("unterminated comment".to_owned())
        }
    }

    /// Scans a tag pair, entered with the cursor just past the opening
    /// bracket: a key up to the first whitespace, then a quoted value, then
    /// the closing bracket. A bracket before the key ends, a missing quote,
    /// an unterminated value and a missing closing bracket are errors.
    fn process_tag_pair(&mut self) -> (r: Token)
        ensures
            final(self).bytes() == old(self).bytes(),
            ({
                let (t, np) = spec_tag_pair(old(self).bytes(), old(self).cursor());
                r@ == t && final(self).cursor() == np
            }),
    {
        proof {
            use_type_invariant(&*self);
        }
        let mut key_literal = String::new();
        while self.peek() != ']' as u8 && self.peek() != 0 && !is_whitespace(self.peek())
            invariant
                self.bytes() == old(self).bytes(),
                old(self).cursor() <= self.cursor() <= self.bytes().len(),
                key_end(self.bytes(), self.cursor()) == key_end(self.bytes(), old(self).cursor()),
                key_literal@ == chars_of(self.bytes().subrange(old(self).cursor(), self.cursor())),
            decreases self.bytes().len() - self.cursor(),
        {
            let c = self.advance();
            push_char(&mut key_literal, c as char);
            proof {
                lemma_chars_of_snoc(self.bytes(), old(self).cursor(), self.cursor() - 1);
            }
        }
        let stop = self.advance();
        if stop == ']' as u8 || stop == 0 {
            return Token::Illegal("malformed tag pair".to_owned());
        }
        let quote = self.advance();
        if quote != '"' as u8 {
            return Token::Illegal("malformed tag pair".to_owned());
        }
        let ghost v0: int = self.cursor();
        let mut val_literal = String::new();
        while self.peek() != '"' as u8 && self.peek() != 0
            invariant
                self.bytes() == old(self).bytes(),
                0 <= v0,
                v0 <= self.cursor() <= self.bytes().len(),
                val_end(self.bytes(), self.cursor()) == val_end(self.bytes(), v0),
                val_literal@ == chars_of(self.bytes().subrange(v0, self.cursor())),
            decreases self.bytes().len() - self.cursor(),
        {
            let c = self.advance();
            push_char(&mut val_literal, c as char);
            proof {
                lemma_chars_of_snoc(self.bytes(), v0, self.cursor() - 1);
            }
        }
        let vstop = self.advance();
        if vstop != '"' as u8 {
            return Token::Illegal("tag pair contains unterminated string literal".to_owned());
        }
        let closer = self.advance();
        if closer != ']' as u8 {
            return Token::Illegal("malformed tag pair".to_owned());
        }
        Token::TagPair(key_literal, val_literal)
    }

    /// Classifies a token that began with the digit `c`, which the caller has
    /// already consumed: a game-result marker, a move marker of one or more
    /// digits and one or more periods, or a bare rank digit. In the rank case
    /// the byte after the digit has already been read as lookahead and is
    /// dropped, not re-offered to the next call.
    fn process_number(&mut self, c: u8) -> (r: Token)
        requires
            1 <= old(self).cursor(),
            byte_at(old(self).bytes(), old(self).cursor() - 1) == c,
            '0' as u8 <= c <= '9' as u8,
        ensures
            final(self).bytes() == old(self).bytes(),
            ({
                let (t, np) = spec_number(old(self).bytes(), old(self).cursor() - 1);
                r@ == t && final(self).cursor() == np
            }),
    {
        proof {
            use_type_invariant(&*self);
        }
        let ghost i: int = old(self).cursor() - 1;
        let y = self.advance();
        if c == '1' as u8 && y == '/' as u8 {
            let mut lit: Vec<u8> = Vec::new();
            lit.push('2' as u8);
            lit.push('-' as u8);
            lit.push('1' as u8);
            lit.push('/' as u8);
            lit.push('2' as u8);
            proof {
                assert(lit@ =~= seq!['2' as u8, '-' as u8, '1' as u8, '/' as u8, '2' as u8]);
            }
            self.consume(&lit, "malformed draw", Token::Draw)
        } else if c == '1' as u8 && y == '-' as u8 {
            let mut lit: Vec<u8> = Vec::new();
            lit.push('0' as u8);
            proof {
                assert(lit@ =~= seq!['0' as u8]);
            }
            self.consume(&lit, "malformed white victory", Token::WhiteWin)
        } else if c == '0' as u8 && y == '-' as u8 {
            let mut lit: Vec<u8> = Vec::new();
            lit.push('1' as u8);
            proof {
                assert(lit@ =~= seq!['1' as u8]);
            }
            self.consume(&lit, "malformed black victory", Token::BlackWin)
        } else if y == '.' as u8 {
            let mut literal = String::new();
            push_char(&mut literal, c as char);
            push_char(&mut literal, '.');
            proof {
                assert(literal@ =~= chars_of(self.bytes().subrange(i, self.cursor())));
            }
            while self.peek() == '.' as u8
                invariant
                    self.bytes() == old(self).bytes(),
                    0 <= i,
                    i + 2 <= self.cursor() <= self.bytes().len(),
                    dot_end(self.bytes(), self.cursor()) == dot_end(self.bytes(), i + 2),
                    literal@ == chars_of(self.bytes().subrange(i, self.cursor())),
                decreases self.bytes().len() - self.cursor(),
            {
                let d = self.advance();
                push_char(&mut literal, d as char);
                proof {
                    lemma_chars_of_snoc(self.bytes(), i, self.cursor() - 1);
                }
            }
            Token::MoveMarker(literal)
        } else if '0' as u8 <= y && y <= '9' as u8 {
            let mut literal = String::new();
            push_char(&mut literal, c as char);
            push_char(&mut literal, y as char);
            proof {
                assert(literal@ =~= chars_of(self.bytes().subrange(i, self.cursor())));
            }
            while self.peek() != '.' as u8 && self.peek() != 0
                invariant
                    self.bytes() == old(self).bytes(),
                    0 <= i,
                    i + 2 <= self.cursor() <= self.bytes().len(),
                    dot_start(self.bytes(), self.cursor()) == dot_start(self.bytes(), i + 2),
                    literal@ == chars_of(self.bytes().subrange(i, self.cursor())),
                decreases self.bytes().len() - self.cursor(),
            {
                let d = self.advance();
                push_char(&mut literal, d as char);
                proof {
                    lemma_chars_of_snoc(self.bytes(), i, self.cursor() - 1);
                }
            }
            if self.peek() == 0 {
                self.advance();
                return Token::Illegal(
                    "multi-digit formation did not terminate before eof".to_owned(),
                );
            }
            let ghost m: int = self.cursor();
            let d = self.advance();
            push_char(&mut literal, d as char);
            proof {
                lemma_chars_of_snoc(self.bytes(), i, self.cursor() - 1);
            }
            while self.peek() == '.' as u8
                invariant
                    self.bytes() == old(self).bytes(),
                    m + 1 <= self.cursor() <= self.bytes().len(),
                    0 <= i <= m,
                    dot_end(self.bytes(), self.cursor()) == dot_end(self.bytes(), m + 1),
                    literal@ == chars_of(self.bytes().subrange(i, self.cursor())),
                decreases self.bytes().len() - self.cursor(),
            {
                let d2 = self.advance();
                push_char(&mut literal, d2 as char);
                proof {
                    lemma_chars_of_snoc(self.bytes(), i, self.cursor() - 1);
                }
            }
            Token::MoveMarker(literal)
        } else {
            Token::Rank(c)
        }
    }

    /// Scans a castle token, entered with the cursor just past the leading
    /// castle letter. One hyphen-letter continuation must follow (else the
    /// token is illegal); a second continuation extends the short castle to a
    /// long one, and a failed extension restores the cursor so that the bytes
    /// after the short castle stay for the next call.
    fn process_castle(&mut self) -> (r: Token)
        ensures
            final(self).bytes() == old(self).bytes(),
            ({
                let (t, np) = spec_castle(old(self).bytes(), old(self).cursor());
                r@ == t && final(self).cursor() == np
            }),
    {
        let mut lit: Vec<u8> = Vec::new();
        lit.push('-' as u8);
        lit.push('O' as u8);
        proof {
            assert(lit@ =~= seq!['-' as u8, 'O' as u8]);
        }
        let first = self.consume(&lit, "malformed castle", Token::ShortCastle);
        match first {
            Token::Illegal(m) => {
                return Token::Illegal(m);
            },
            _ => {},
        }
        proof {
            use_type_invariant(&*self);
        }
        let save_position: usize = self.position;
        let save_read: usize = self.read_position;
        let ext = self.consume(&lit, "malformed castle", Token::LongCastle);
        match ext {
            Token::Illegal(_) => {
                proof {
                    use_type_invariant(&*self);
                }
                self.position = save_position;
                self.read_position = save_read;
                Token::ShortCastle
            },
            _ => Token::LongCastle,
        }
    }

    /// Produces the next token: skips leading whitespace, reads one byte and
    /// dispatches on it. The cursor moves monotonically forward; each call
    /// starts exactly where the previous one left off, and once the end of
    /// the input is reached every further call returns `EndOfInput`.
    pub fn next_token(&mut self) -> (r: Token)
        ensures
            final(self).bytes() == old(self).bytes(),
            old(self).cursor() <= final(self).cursor() <= final(self).bytes().len(),
            ({
                let (t, np) = spec_next_token(old(self).bytes(), old(self).cursor());
                r@ == t && final(self).cursor() == np
            }),
    {
        proof {
            use_type_invariant(&*self);
            lemma_token_partition(self.bytes(), self.cursor());
        }
        self.skip_whitespace();
        let c = self.advance();
        if c == 'K' as u8 {
            Token::King
        } else if c == 'Q' as u8 {
            Token::Queen
        } else if c == 'R' as u8 {
            Token::Rook
        } else if c == 'B' as u8 {
            Token::Bishop
        } else if c == 'N' as u8 {
            Token::Knight
        } else if 'a' as u8 <= c && c <= 'h' as u8 {
            Token::File(c)
        } else if c == 'x' as u8 {
            Token::Takes
        } else if c == '+' as u8 {
            Token::Check
        } else if c == '#' as u8 {
            Token::Mate
        } else if c == '=' as u8 {
            Token::Promote
        } else if c == '(' as u8 {
            Token::Lparen
        } else if c == ')' as u8 {
            Token::Rparen
        } else if c == '*' as u8 {
            Token::Star
        } else if '0' as u8 <= c && c <= '9' as u8 {
            self.process_number(c)
        } else if c == '[' as u8 {
            self.process_tag_pair()
        } else if c == '{' as u8 {
            self.process_comment()
        } else if c == 'O' as u8 {
            self.process_castle()
        } else if c == 0 {
            Token::EndOfInput
        } else {
            let mut msg = "unrecognized character ".to_owned();
            push_char(&mut msg, c as char);
            proof {
                assert(msg@ =~= "unrecognized character "@.push(c as char));
            }
            Token::Illegal(msg)
        }
    }
}

} // verus!
