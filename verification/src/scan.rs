//! The mathematical model of the scanner.
//!
//! Positions are byte offsets into the input. A position past the end of the
//! input reads as the sentinel byte `0`, mirroring the executable scanner's
//! lookahead. `spec_next_token` says, for any input and position, which token
//! a call of the scanner produces and at which position the next call starts.

use vstd::prelude::*;

verus! {

/// The byte at position `i`, or the sentinel `0` past the end of the input.
pub open spec fn byte_at(input: Seq<u8>, i: int) -> u8 {
    if 0 <= i < input.len() {
        input[i]
    } else {
        0
    }
}

/// ASCII whitespace as the format defines it: space, tab, newline,
/// carriage return.
pub open spec fn is_ws(b: u8) -> bool {
    b == ' ' as u8 || b == '\t' as u8 || b == '\n' as u8 || b == '\r' as u8
}

/// The position one step past `i`, clamped to the end of the input:
/// advancing past the end stays at the end.
pub open spec fn step(input: Seq<u8>, i: int) -> int {
    if i < input.len() {
        i + 1
    } else {
        input.len() as int
    }
}

/// The first position at or after `i` whose byte is not whitespace.
pub open spec fn ws_end(input: Seq<u8>, i: int) -> int
    decreases input.len() - i,
{
    if i < input.len() && is_ws(input[i]) {
        ws_end(input, i + 1)
    } else {
        i
    }
}

/// Each byte read as the character with the same code.
pub open spec fn chars_of(bytes: Seq<u8>) -> Seq<char> {
    bytes.map_values(|b: u8| b as char)
}

/// What a scanner call yields, at the level of the model: the token's shape
/// with its textual payloads as character sequences.
#[verifier::ext_equal]
pub enum TokenModel {
    Illegal(Seq<char>),
    EndOfInput,
    MoveMarker(Seq<char>),
    TagPair(Seq<char>, Seq<char>),
    Comment(Seq<char>),
    King,
    Queen,
    Rook,
    Bishop,
    Knight,
    Rank(u8),
    File(u8),
    WhiteWin,
    BlackWin,
    Draw,
    Takes,
    Check,
    Mate,
    Promote,
    LongCastle,
    ShortCastle,
    Star,
    Lparen,
    Rparen,
}

/// Matching the literal `lit` byte for byte from position `i`: the result is
/// whether the whole literal matched, and the position after the bytes that
/// were compared successfully (a mismatching byte is not consumed).
pub open spec fn match_lit(input: Seq<u8>, i: int, lit: Seq<u8>) -> (bool, int)
    decreases lit.len(),
{
    if lit.len() == 0 {
        (true, i)
    } else if byte_at(input, i) == lit[0] {
        match_lit(input, step(input, i), lit.subrange(1, lit.len() as int))
    } else {
        (false, i)
    }
}

/// The first position at or after `i` whose byte is a period or the sentinel.
pub open spec fn dot_start(input: Seq<u8>, i: int) -> int
    decreases input.len() - i,
{
    if i < input.len() && input[i] != '.' as u8 && input[i] != 0 {
        dot_start(input, i + 1)
    } else {
        i
    }
}

/// The first position at or after `i` whose byte is not a period.
pub open spec fn dot_end(input: Seq<u8>, i: int) -> int
    decreases input.len() - i,
{
    if i < input.len() && input[i] == '.' as u8 {
        dot_end(input, i + 1)
    } else {
        i
    }
}

/// The first position at or after `i` whose byte ends a tag-pair key:
/// a closing bracket, whitespace, or the sentinel.
pub open spec fn key_end(input: Seq<u8>, i: int) -> int
    decreases input.len() - i,
{
    if i < input.len() && input[i] != ']' as u8 && !is_ws(input[i]) && input[i] != 0 {
        key_end(input, i + 1)
    } else {
        i
    }
}

/// The first position at or after `i` whose byte ends a tag-pair value:
/// a double quote or the sentinel.
pub open spec fn val_end(input: Seq<u8>, i: int) -> int
    decreases input.len() - i,
{
    if i < input.len() && input[i] != '"' as u8 && input[i] != 0 {
        val_end(input, i + 1)
    } else {
        i
    }
}

/// The first position at or after `i` whose byte ends a comment:
/// a closing brace or the sentinel.
pub open spec fn comment_end(input: Seq<u8>, i: int) -> int
    decreases input.len() - i,
{
    if i < input.len() && input[i] != '}' as u8 && input[i] != 0 {
        comment_end(input, i + 1)
    } else {
        i
    }
}

/// The token that starts with the digit at position `i`, and the position
/// after it. The byte after the digit decides the branch: a move marker
/// (digits then periods), a game-result marker, or a bare rank digit. In the
/// rank case the byte after the digit has already been read as lookahead and
/// is dropped, not re-offered to the next call.
pub open spec fn spec_number(input: Seq<u8>, i: int) -> (TokenModel, int) {
    let d = byte_at(input, i);
    let y = byte_at(input, i + 1);
    let j = step(input, i + 1);
    if d == '1' as u8 && y == '/' as u8 {
        let (m, nc) = match_lit(input, j, seq!['2' as u8, '-' as u8, '1' as u8, '/' as u8, '2' as u8]);
        if m {
            (TokenModel::Draw, nc)
        } else {
            (TokenModel::Illegal("malformed draw"@), nc)
        }
    } else if d == '1' as u8 && y == '-' as u8 {
        let (m, nc) = match_lit(input, j, seq!['0' as u8]);
        if m {
            (TokenModel::WhiteWin, nc)
        } else {
            (TokenModel::Illegal("malformed white victory"@), nc)
        }
    } else if d == '0' as u8 && y == '-' as u8 {
        let (m, nc) = match_lit(input, j, seq!['1' as u8]);
        if m {
            (TokenModel::BlackWin, nc)
        } else {
            (TokenModel::Illegal("malformed black victory"@), nc)
        }
    } else if y == '.' as u8 {
        let k = dot_end(input, j);
        (TokenModel::MoveMarker(chars_of(input.subrange(i, k))), k)
    } else if '0' as u8 <= y <= '9' as u8 {
        let m = dot_start(input, j);
        if byte_at(input, m) == '.' as u8 {
            let k = dot_end(input, m + 1);
            (TokenModel::MoveMarker(chars_of(input.subrange(i, k))), k)
        } else {
            (
                TokenModel::Illegal("multi-digit formation did not terminate before eof"@),
                step(input, m),
            )
        }
    } else {
        (TokenModel::Rank(d), j)
    }
}

/// The token scanned after an opening bracket, with `i` the position just
/// past the bracket, and the position after the token.
pub open spec fn spec_tag_pair(input: Seq<u8>, i: int) -> (TokenModel, int) {
    let ke = key_end(input, i);
    let cke = step(input, ke);
    if byte_at(input, ke) == ']' as u8 || byte_at(input, ke) == 0 {
        (TokenModel::Illegal("malformed tag pair"@), cke)
    } else {
        let q = byte_at(input, cke);
        let cq = step(input, cke);
        if q != '"' as u8 {
            (TokenModel::Illegal("malformed tag pair"@), cq)
        } else {
            let ve = val_end(input, cq);
            let cve = step(input, ve);
            if byte_at(input, ve) == 0 {
                (TokenModel::Illegal("tag pair contains unterminated string literal"@), cve)
            } else {
                let r = byte_at(input, cve);
                let cr = step(input, cve);
                if r != ']' as u8 {
                    (TokenModel::Illegal("malformed tag pair"@), cr)
                } else {
                    (
                        TokenModel::TagPair(
                            chars_of(input.subrange(i, ke)),
                            chars_of(input.subrange(cq, ve)),
                        ),
                        cr,
                    )
                }
            }
        }
    }
}

/// The token scanned after an opening brace, with `i` the position just past
/// the brace, and the position after the token.
pub open spec fn spec_comment(input: Seq<u8>, i: int) -> (TokenModel, int) {
    let ce = comment_end(input, i);
    let cc = step(input, ce);
    if byte_at(input, ce) == '}' as u8 {
        (TokenModel::Comment(chars_of(input.subrange(i, ce))), cc)
    } else {
        (TokenModel::Illegal("unterminated comment"@), cc)
    }
}

/// The token scanned after a leading castle letter, with `i` the position
/// just past it, and the position after the token. A failed attempt to extend
/// a short castle to a long one restores the position, so the bytes after the
/// short castle stay for the next call.
pub open spec fn spec_castle(input: Seq<u8>, i: int) -> (TokenModel, int) {
    let (m1, c1) = match_lit(input, i, seq!['-' as u8, 'O' as u8]);
    if !m1 {
        (TokenModel::Illegal("malformed castle"@), c1)
    } else {
        let (m2, c2) = match_lit(input, c1, seq!['-' as u8, 'O' as u8]);
        if m2 {
            (TokenModel::LongCastle, c2)
        } else {
            (TokenModel::ShortCastle, c1)
        }
    }
}

/// The token a scanner call starting at position `pos` produces, and the
/// position at which the following call starts: skip whitespace, read one
/// byte, and dispatch on it.
pub open spec fn spec_next_token(input: Seq<u8>, pos: int) -> (TokenModel, int) {
    let i = ws_end(input, pos);
    let c = byte_at(input, i);
    let j = step(input, i);
    if c == 'K' as u8 {
        (TokenModel::King, j)
    } else if c == 'Q' as u8 {
        (TokenModel::Queen, j)
    } else if c == 'R' as u8 {
        (TokenModel::Rook, j)
    } else if c == 'B' as u8 {
        (TokenModel::Bishop, j)
    } else if c == 'N' as u8 {
        (TokenModel::Knight, j)
    } else if 'a' as u8 <= c <= 'h' as u8 {
        (TokenModel::File(c), j)
    } else if c == 'x' as u8 {
        (TokenModel::Takes, j)
    } else if c == '+' as u8 {
        (TokenModel::Check, j)
    } else if c == '#' as u8 {
        (TokenModel::Mate, j)
    } else if c == '=' as u8 {
        (TokenModel::Promote, j)
    } else if c == '(' as u8 {
        (TokenModel::Lparen, j)
    } else if c == ')' as u8 {
        (TokenModel::Rparen, j)
    } else if c == '*' as u8 {
        (TokenModel::Star, j)
    } else if '0' as u8 <= c <= '9' as u8 {
        spec_number(input, i)
    } else if c == '[' as u8 {
        spec_tag_pair(input, j)
    } else if c == '{' as u8 {
        spec_comment(input, j)
    } else if c == 'O' as u8 {
        spec_castle(input, j)
    } else if c == 0 {
        (TokenModel::EndOfInput, j)
    } else {
        (TokenModel::Illegal("unrecognized character "@.push(c as char)), j)
    }
}

/// Bounds for `ws_end`: skipping whitespace moves the position forward over
/// whitespace bytes only, never past the end, and stops at a byte that is not
/// whitespace.
pub proof fn lemma_ws_end(input: Seq<u8>, i: int)
    requires
        0 <= i <= input.len(),
    ensures
        i <= ws_end(input, i) <= input.len(),
        forall|k: int| i <= k < ws_end(input, i) ==> is_ws(input[k]),
        !is_ws(byte_at(input, ws_end(input, i))),
    decreases input.len() - i,
{
    if i < input.len() && is_ws(input[i]) {
        lemma_ws_end(input, i + 1);
    }
}

/// Bounds for `dot_start`.
pub proof fn lemma_dot_start(input: Seq<u8>, i: int)
    requires
        0 <= i <= input.len(),
    ensures
        i <= dot_start(input, i) <= input.len(),
    decreases input.len() - i,
{
    if i < input.len() && input[i] != '.' as u8 && input[i] != 0 {
        lemma_dot_start(input, i + 1);
    }
}

/// Bounds for `dot_end`.
pub proof fn lemma_dot_end(input: Seq<u8>, i: int)
    requires
        0 <= i <= input.len(),
    ensures
        i <= dot_end(input, i) <= input.len(),
    decreases input.len() - i,
{
    if i < input.len() && input[i] == '.' as u8 {
        lemma_dot_end(input, i + 1);
    }
}

/// Bounds for `key_end`.
pub proof fn lemma_key_end(input: Seq<u8>, i: int)
    requires
        0 <= i <= input.len(),
    ensures
        i <= key_end(input, i) <= input.len(),
    decreases input.len() - i,
{
    if i < input.len() && input[i] != ']' as u8 && !is_ws(input[i]) && input[i] != 0 {
        lemma_key_end(input, i + 1);
    }
}

/// Bounds for `val_end`.
pub proof fn lemma_val_end(input: Seq<u8>, i: int)
    requires
        0 <= i <= input.len(),
    ensures
        i <= val_end(input, i) <= input.len(),
    decreases input.len() - i,
{
    if i < input.len() && input[i] != '"' as u8 && input[i] != 0 {
        lemma_val_end(input, i + 1);
    }
}

/// Bounds for `comment_end`.
pub proof fn lemma_comment_end(input: Seq<u8>, i: int)
    requires
        0 <= i <= input.len(),
    ensures
        i <= comment_end(input, i) <= input.len(),
    decreases input.len() - i,
{
    if i < input.len() && input[i] != '}' as u8 && input[i] != 0 {
        lemma_comment_end(input, i + 1);
    }
}

/// Bounds for `match_lit`: matching never moves the position backwards or
/// past the end of the input.
pub proof fn lemma_match_lit(input: Seq<u8>, i: int, lit: Seq<u8>)
    requires
        0 <= i <= input.len(),
    ensures
        i <= match_lit(input, i, lit).1 <= input.len(),
    decreases lit.len(),
{
    if lit.len() != 0 && byte_at(input, i) == lit[0] {
        lemma_match_lit(input, step(input, i), lit.subrange(1, lit.len() as int));
    }
}

/// Extending the byte range of a literal by one byte appends the matching
/// character.
pub proof fn lemma_chars_of_snoc(bytes: Seq<u8>, i: int, j: int)
    requires
        0 <= i <= j < bytes.len(),
    ensures
        chars_of(bytes.subrange(i, j + 1)) == chars_of(bytes.subrange(i, j)) + seq![
            bytes[j] as char,
        ],
{
    assert(chars_of(bytes.subrange(i, j + 1)) =~= chars_of(bytes.subrange(i, j)) + seq![
        bytes[j] as char,
    ]);
}

/// Token spans partition the document. The call that starts at position
/// `pos` skips whitespace bytes only, up to the token's start; it consumes a
/// contiguous span that never reaches back before `pos` or past the end of
/// the input; and unless it reports the end of the input it consumes at least
/// one byte beyond the whitespace. Successive calls therefore tile the
/// document left to right, and every non-whitespace byte is accounted for by
/// exactly one emitted token.
pub proof fn lemma_token_partition(input: Seq<u8>, pos: int)
    requires
        0 <= pos <= input.len(),
    ensures
        ({
            let (t, end) = spec_next_token(input, pos);
            let start = ws_end(input, pos);
            &&& pos <= start <= end <= input.len()
            &&& (forall|k: int| pos <= k < start ==> is_ws(input[k]))
            &&& (t != TokenModel::EndOfInput ==> start < end)
        }),
{
    lemma_ws_end(input, pos);
    let start = ws_end(input, pos);
    let c = byte_at(input, start);
    let j = step(input, start);
    if '0' as u8 <= c <= '9' as u8 {
        let y = byte_at(input, start + 1);
        let j2 = step(input, start + 1);
        if c == '1' as u8 && y == '/' as u8 {
            lemma_match_lit(input, j2, seq!['2' as u8, '-' as u8, '1' as u8, '/' as u8, '2' as u8]);
        } else if c == '1' as u8 && y == '-' as u8 {
            lemma_match_lit(input, j2, seq!['0' as u8]);
        } else if c == '0' as u8 && y == '-' as u8 {
            lemma_match_lit(input, j2, seq!['1' as u8]);
        } else if y == '.' as u8 {
            lemma_dot_end(input, j2);
        } else if '0' as u8 <= y <= '9' as u8 {
            lemma_dot_start(input, j2);
            let m = dot_start(input, j2);
            if byte_at(input, m) == '.' as u8 {
                lemma_dot_end(input, m + 1);
            }
        }
    } else if c == '[' as u8 {
        lemma_key_end(input, j);
        let ke = key_end(input, j);
        let cke = step(input, ke);
        if !(byte_at(input, ke) == ']' as u8 || byte_at(input, ke) == 0) {
            let cq = step(input, cke);
            if byte_at(input, cke) == '"' as u8 {
                lemma_val_end(input, cq);
                let ve = val_end(input, cq);
                if byte_at(input, ve) != 0 {
                    assert(step(input, step(input, ve)) <= input.len());
                }
            }
        }
    } else if c == '{' as u8 {
        lemma_comment_end(input, j);
    } else if c == 'O' as u8 {
        lemma_match_lit(input, j, seq!['-' as u8, 'O' as u8]);
        let (m1, c1) = match_lit(input, j, seq!['-' as u8, 'O' as u8]);
        if m1 {
            lemma_match_lit(input, c1, seq!['-' as u8, 'O' as u8]);
        }
    }
}

/// The terminal state is idempotent: once a call reports the end of the
/// input, every later call reports it again, from the same position. This
/// holds of documents without an embedded zero byte; the scanner reads that
/// byte as its end-of-input sentinel and cannot tell the two apart.
pub proof fn lemma_end_of_input_idempotent(input: Seq<u8>, pos: int)
    requires
        0 <= pos <= input.len(),
        forall|k: int| 0 <= k < input.len() ==> input[k] != 0,
        spec_next_token(input, pos).0 == TokenModel::EndOfInput,
    ensures
        spec_next_token(input, pos).1 == input.len(),
        spec_next_token(input, input.len() as int) == (
            TokenModel::EndOfInput,
            input.len() as int,
        ),
{
    lemma_ws_end(input, pos);
    let start = ws_end(input, pos);
    assert(byte_at(input, start) == 0);
    assert(start == input.len());
}

/// Round trip for move markers: the captured literal is exactly the text of
/// the span the call consumed, so re-concatenating an emitted literal
/// reproduces the document's digit-and-period run verbatim, whatever the
/// number of digits and of trailing periods.
pub proof fn lemma_move_marker_round_trip(input: Seq<u8>, pos: int)
    requires
        0 <= pos <= input.len(),
        spec_next_token(input, pos).0 is MoveMarker,
    ensures
        ({
            let (t, end) = spec_next_token(input, pos);
            t == TokenModel::MoveMarker(chars_of(input.subrange(ws_end(input, pos), end)))
        }),
{
    // A move marker arises only in the two marker branches of `spec_number`,
    // and both define the literal as exactly the span they consume.
}

} // verus!
