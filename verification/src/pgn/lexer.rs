//! Tokenizer for movetext: moves in short algebraic notation, variation
//! delimiters, move numbers, and the comments, tags, results and annotation
//! glyphs that stand between them.
//!
//! The grammar is given as specification functions over the bytes of the
//! input; the executable scanner is proved to compute exactly them.

use vstd::prelude::*;
use vstd::slice::slice_subrange;

verus! {

/// One token, with the text it spans borrowed from the input.
#[derive(Clone, Copy, Debug, PartialEq, Eq)]
pub enum Token<'source> {
    /// `(`
    StartVariation,
    /// `)`
    EndVariation,
    /// A move, with its check and mate marks.
    SanMove(&'source [u8]),
    /// A move number that no move follows.
    MoveNr,
    /// The rest of a line after `;` or `%`.
    EscapeComment(&'source [u8]),
    /// `1-0`, `0-1`, `1/2-1/2` or `*`.
    GameResult(&'source [u8]),
    /// The name of a tag, after `[`.
    TagSymbol(&'source [u8]),
    /// The quoted value of a tag, without its quotes.
    TagString(&'source [u8]),
    /// The text between `{` and `}`.
    Commentary(&'source [u8]),
    /// The digits of a numeric annotation glyph, after `$`.
    Nag(&'source [u8]),
    /// A run of `!` and `?`.
    MoveAnnotation(&'source [u8]),
}

/// A token as the contracts see it: its spans are sequences of bytes.
pub enum Lexeme {
    StartVariation,
    EndVariation,
    SanMove(Seq<u8>),
    MoveNr,
    EscapeComment(Seq<u8>),
    GameResult(Seq<u8>),
    TagSymbol(Seq<u8>),
    TagString(Seq<u8>),
    Commentary(Seq<u8>),
    Nag(Seq<u8>),
    MoveAnnotation(Seq<u8>),
}

impl<'source> View for Token<'source> {
    type V = Lexeme;

    open spec fn view(&self) -> Lexeme {
        match *self {
            Token::StartVariation => Lexeme::StartVariation,
            Token::EndVariation => Lexeme::EndVariation,
            Token::SanMove(span) => Lexeme::SanMove(span@),
            Token::MoveNr => Lexeme::MoveNr,
            Token::EscapeComment(span) => Lexeme::EscapeComment(span@),
            Token::GameResult(span) => Lexeme::GameResult(span@),
            Token::TagSymbol(span) => Lexeme::TagSymbol(span@),
            Token::TagString(span) => Lexeme::TagString(span@),
            Token::Commentary(span) => Lexeme::Commentary(span@),
            Token::Nag(span) => Lexeme::Nag(span@),
            Token::MoveAnnotation(span) => Lexeme::MoveAnnotation(span@),
        }
    }
}

/// The classes of bytes of which the grammar takes whole runs.
#[derive(Clone, Copy, Debug)]
pub enum Class {
    /// Space, tab, line feed, form feed, carriage return.
    Space,
    /// `0` to `9`.
    Digit,
    /// `.`
    Dot,
    /// Letters, digits and `_`: the bytes of a tag's name.
    Symbol,
    /// `!` and `?`.
    Glyph,
    /// `+` and `#`.
    Suffix,
}

/// The byte at `i`, or -1 past either end of the input.
pub open spec fn byte_at(s: Seq<u8>, i: int) -> int {
    if 0 <= i < s.len() {
        s[i] as int
    } else {
        -1
    }
}

/// Space, tab, line feed, form feed or carriage return.
pub open spec fn is_space(c: int) -> bool {
    c == ' ' || c == '\t' || c == '\n' || c == '\x0c' || c == '\r'
}

/// `0` to `9`.
pub open spec fn is_digit(c: int) -> bool {
    '0' <= c <= '9'
}

/// `A` to `Z` or `a` to `z`.
pub open spec fn is_letter(c: int) -> bool {
    'A' <= c <= 'Z' || 'a' <= c <= 'z'
}

/// `a` to `h`.
pub open spec fn is_file(c: int) -> bool {
    'a' <= c <= 'h'
}

/// `1` to `8`.
pub open spec fn is_rank(c: int) -> bool {
    '1' <= c <= '8'
}

/// `N`, `B`, `R`, `Q` or `K`.
pub open spec fn is_piece(c: int) -> bool {
    c == 'N' || c == 'B' || c == 'R' || c == 'Q' || c == 'K'
}

/// The byte `c` belongs to the class.
pub open spec fn in_class(class: Class, c: int) -> bool {
    match class {
        Class::Space => is_space(c),
        Class::Digit => is_digit(c),
        Class::Dot => c == '.',
        Class::Symbol => is_letter(c) || is_digit(c) || c == '_',
        Class::Glyph => c == '!' || c == '?',
        Class::Suffix => c == '+' || c == '#',
    }
}

/// Where the run of bytes of `class` that starts at `i` ends: the first
/// position from `i` on that holds no byte of the class.
pub open spec fn run_end(s: Seq<u8>, i: int, class: Class) -> int
    decreases s.len() - i,
{
    if 0 <= i < s.len() && in_class(class, s[i] as int) {
        run_end(s, i + 1, class)
    } else {
        i
    }
}

/// The first position from `i` on that holds `byte`, or the length of the
/// input if none does.
pub open spec fn find_byte(s: Seq<u8>, i: int, byte: u8) -> int
    decreases s.len() - i,
{
    if 0 <= i < s.len() && s[i] != byte {
        find_byte(s, i + 1, byte)
    } else {
        i
    }
}

/// A file letter and a rank digit stand at `i`.
pub open spec fn square_at(s: Seq<u8>, i: int) -> bool {
    is_file(byte_at(s, i)) && is_rank(byte_at(s, i + 1))
}

/// The end of a destination at `i`: a square, or `x` and a square.
pub open spec fn target_end(s: Seq<u8>, i: int) -> Option<int> {
    if byte_at(s, i) == 'x' && square_at(s, i + 1) {
        Some(i + 3)
    } else if square_at(s, i) {
        Some(i + 2)
    } else {
        None
    }
}

/// The end of a pawn move whose file letter stands at `i`: the file and a
/// rank, or the file, `x` and a square; then `=` and a piece letter, if both
/// are there.
pub open spec fn pawn_end(s: Seq<u8>, i: int) -> Option<int> {
    let body = if is_rank(byte_at(s, i + 1)) {
        Some(i + 2)
    } else if byte_at(s, i + 1) == 'x' && square_at(s, i + 2) {
        Some(i + 4)
    } else {
        None
    };
    match body {
        None => None,
        Some(e) => if byte_at(s, e) == '=' && is_piece(byte_at(s, e + 1)) {
            Some(e + 2)
        } else {
            Some(e)
        },
    }
}

/// The end of a piece move whose piece letter stands at `i`. After the letter
/// comes the destination, which the origin's square, file or rank may precede;
/// the longest of these readings that fits is taken.
pub open spec fn piece_end(s: Seq<u8>, i: int) -> Option<int> {
    if square_at(s, i + 1) && target_end(s, i + 3) is Some {
        target_end(s, i + 3)
    } else if (is_file(byte_at(s, i + 1)) || is_rank(byte_at(s, i + 1))) && target_end(s, i + 2)
        is Some {
        target_end(s, i + 2)
    } else {
        target_end(s, i + 1)
    }
}

/// The end of `O-O-O` or `O-O` at `i`.
pub open spec fn castle_end(s: Seq<u8>, i: int) -> Option<int> {
    if byte_at(s, i) == 'O' && byte_at(s, i + 1) == '-' && byte_at(s, i + 2) == 'O' {
        if byte_at(s, i + 3) == '-' && byte_at(s, i + 4) == 'O' {
            Some(i + 5)
        } else {
            Some(i + 3)
        }
    } else {
        None
    }
}

/// The end of a null move, `--` or `Z0`, at `i`.
pub open spec fn null_end(s: Seq<u8>, i: int) -> Option<int> {
    if (byte_at(s, i) == '-' && byte_at(s, i + 1) == '-') || (byte_at(s, i) == 'Z' && byte_at(
        s,
        i + 1,
    ) == '0') {
        Some(i + 2)
    } else {
        None
    }
}

/// The end of the move that starts at `i`, its check and mate marks included.
/// The first byte decides which kind of move is tried.
pub open spec fn move_end(s: Seq<u8>, i: int) -> Option<int> {
    let c = byte_at(s, i);
    let body = if is_file(c) {
        pawn_end(s, i)
    } else if is_piece(c) {
        piece_end(s, i)
    } else if c == 'O' {
        castle_end(s, i)
    } else {
        null_end(s, i)
    };
    match body {
        None => None,
        Some(e) => Some(run_end(s, e, Class::Suffix)),
    }
}

/// The end of a result marker at `i`.
pub open spec fn result_end(s: Seq<u8>, i: int) -> Option<int> {
    if byte_at(s, i) == '*' {
        Some(i + 1)
    } else if byte_at(s, i) == '1' && byte_at(s, i + 1) == '-' && byte_at(s, i + 2) == '0' {
        Some(i + 3)
    } else if byte_at(s, i) == '0' && byte_at(s, i + 1) == '-' && byte_at(s, i + 2) == '1' {
        Some(i + 3)
    } else if byte_at(s, i) == '1' && byte_at(s, i + 1) == '/' && byte_at(s, i + 2) == '2'
        && byte_at(s, i + 3) == '-' && byte_at(s, i + 4) == '1' && byte_at(s, i + 5) == '/'
        && byte_at(s, i + 6) == '2' {
        Some(i + 7)
    } else {
        None
    }
}

/// The end of a move number at `i`: digits, then one dot or more.
pub open spec fn number_end(s: Seq<u8>, i: int) -> Option<int> {
    let digits = run_end(s, i, Class::Digit);
    let dots = run_end(s, digits, Class::Dot);
    if digits > i && dots > digits {
        Some(dots)
    } else {
        None
    }
}

/// A token and the position behind it.
pub struct Scanned {
    pub token: Lexeme,
    pub end: int,
}

/// The rest of a line after `;` or `%`.
pub open spec fn escape_comment_at(s: Seq<u8>, i: int) -> Option<Scanned> {
    if byte_at(s, i) == ';' || byte_at(s, i) == '%' {
        let end = find_byte(s, i + 1, '\n' as u8);
        Some(Scanned { token: Lexeme::EscapeComment(s.subrange(i + 1, end)), end })
    } else {
        None
    }
}

/// A result marker.
pub open spec fn game_result_at(s: Seq<u8>, i: int) -> Option<Scanned> {
    match result_end(s, i) {
        Some(end) => Some(Scanned { token: Lexeme::GameResult(s.subrange(i, end)), end }),
        None => None,
    }
}

/// A move number, then the move behind it, which is the token.
pub open spec fn numbered_move_at(s: Seq<u8>, i: int) -> Option<Scanned> {
    match number_end(s, i) {
        Some(dots) => {
            let start = run_end(s, dots, Class::Space);
            match move_end(s, start) {
                Some(end) => Some(Scanned { token: Lexeme::SanMove(s.subrange(start, end)), end }),
                None => None,
            }
        },
        None => None,
    }
}

/// `[` and the name of a tag.
pub open spec fn tag_symbol_at(s: Seq<u8>, i: int) -> Option<Scanned> {
    let start = run_end(s, i + 1, Class::Space);
    let end = run_end(s, start, Class::Symbol);
    if byte_at(s, i) == '[' && end > start {
        Some(Scanned { token: Lexeme::TagSymbol(s.subrange(start, end)), end })
    } else {
        None
    }
}

/// The quoted value of a tag, and the `]` behind it if there is one.
pub open spec fn tag_string_at(s: Seq<u8>, i: int) -> Option<Scanned> {
    let close = find_byte(s, i + 1, '"' as u8);
    let bracket = run_end(s, close + 1, Class::Space);
    if byte_at(s, i) == '"' && close < s.len() {
        Some(
            Scanned {
                token: Lexeme::TagString(s.subrange(i + 1, close)),
                end: if byte_at(s, bracket) == ']' {
                    bracket + 1
                } else {
                    close + 1
                },
            },
        )
    } else {
        None
    }
}

/// `(` or `)`.
pub open spec fn delimiter_at(s: Seq<u8>, i: int) -> Option<Scanned> {
    if byte_at(s, i) == '(' {
        Some(Scanned { token: Lexeme::StartVariation, end: i + 1 })
    } else if byte_at(s, i) == ')' {
        Some(Scanned { token: Lexeme::EndVariation, end: i + 1 })
    } else {
        None
    }
}

/// `{`, text, and the first `}` behind it.
pub open spec fn commentary_at(s: Seq<u8>, i: int) -> Option<Scanned> {
    let close = find_byte(s, i + 1, '}' as u8);
    if byte_at(s, i) == '{' && close < s.len() {
        Some(Scanned { token: Lexeme::Commentary(s.subrange(i + 1, close)), end: close + 1 })
    } else {
        None
    }
}

/// `$` and digits.
pub open spec fn nag_at(s: Seq<u8>, i: int) -> Option<Scanned> {
    let end = run_end(s, i + 1, Class::Digit);
    if byte_at(s, i) == '$' && end > i + 1 {
        Some(Scanned { token: Lexeme::Nag(s.subrange(i + 1, end)), end })
    } else {
        None
    }
}

/// A run of `!` and `?`.
pub open spec fn annotation_at(s: Seq<u8>, i: int) -> Option<Scanned> {
    let end = run_end(s, i, Class::Glyph);
    if end > i {
        Some(Scanned { token: Lexeme::MoveAnnotation(s.subrange(i, end)), end })
    } else {
        None
    }
}

/// A move with no number before it.
pub open spec fn bare_move_at(s: Seq<u8>, i: int) -> Option<Scanned> {
    match move_end(s, i) {
        Some(end) => Some(Scanned { token: Lexeme::SanMove(s.subrange(i, end)), end }),
        None => None,
    }
}

/// A move number by itself.
pub open spec fn move_number_at(s: Seq<u8>, i: int) -> Option<Scanned> {
    match number_end(s, i) {
        Some(end) => Some(Scanned { token: Lexeme::MoveNr, end }),
        None => None,
    }
}

/// The first of two readings that is there.
pub open spec fn or_else(first: Option<Scanned>, second: Option<Scanned>) -> Option<Scanned> {
    if first is Some {
        first
    } else {
        second
    }
}

/// The token that starts at `i`. The rules are tried in a fixed order and the
/// first that fits wins: comment to the end of the line, result, numbered
/// move, tag name, tag value, variation delimiter, commentary, numeric
/// glyph, annotation glyphs, bare move, and last a move number by itself.
pub open spec fn token_at(s: Seq<u8>, i: int) -> Option<Scanned> {
    or_else(
        escape_comment_at(s, i),
        or_else(
            game_result_at(s, i),
            or_else(
                numbered_move_at(s, i),
                or_else(
                    tag_symbol_at(s, i),
                    or_else(
                        tag_string_at(s, i),
                        or_else(
                            delimiter_at(s, i),
                            or_else(
                                commentary_at(s, i),
                                or_else(
                                    nag_at(s, i),
                                    or_else(
                                        annotation_at(s, i),
                                        or_else(bare_move_at(s, i), move_number_at(s, i)),
                                    ),
                                ),
                            ),
                        ),
                    ),
                ),
            ),
        ),
    )
}

/// The first token of `s`, after its leading whitespace. There is none at the
/// end of the input, nor where no rule fits.
pub open spec fn first_token(s: Seq<u8>) -> Option<Scanned> {
    token_at(s, run_end(s, 0, Class::Space))
}

/// A run ends at or behind its start, and within the input.
pub proof fn lemma_run_end_bounds(s: Seq<u8>, i: int, class: Class)
    requires
        0 <= i <= s.len(),
    ensures
        i <= run_end(s, i, class) <= s.len(),
    decreases s.len() - i,
{
    if i < s.len() && in_class(class, s[i] as int) {
        lemma_run_end_bounds(s, i + 1, class);
    }
}

/// Where the first token is `(`, the text holds the byte `(`.
pub proof fn lemma_start_is_a_bracket(s: Seq<u8>)
    requires
        first_token(s) matches Some(scanned) && scanned.token is StartVariation,
    ensures
        exists|i: int| 0 <= i < s.len() && #[trigger] s[i] == '(' as u8,
{
    let at = run_end(s, 0, Class::Space);
    assert(byte_at(s, at) == '(');
    assert(s[at] == '(' as u8);
}

/// `found` is the position `end`, or neither is there.
pub open spec fn same_end(found: Option<usize>, end: Option<int>) -> bool {
    match found {
        Some(e) => end == Some(e as int),
        None => end is None,
    }
}

/// `found` is the token `scanned` and the position behind it, or neither is there.
pub open spec fn same_token(found: Option<(Token<'_>, usize)>, scanned: Option<Scanned>) -> bool {
    match found {
        Some((token, end)) => scanned == Some(Scanned { token: token@, end: end as int }),
        None => scanned is None,
    }
}

/// The byte at `off` places behind `i`, if the input reaches so far.
fn at(src: &[u8], i: usize, off: usize) -> (byte: Option<u8>)
    requires
        i <= src@.len(),
        off <= 8,
    ensures
        src@.len() <= usize::MAX,
        match byte {
            Some(found) => i + off < src@.len() && byte_at(src@, i + off) == found,
            None => byte_at(src@, i + off) == -1,
        },
{
    if off < src.len() - i {
        Some(src[i + off])
    } else {
        None
    }
}

fn is(src: &[u8], i: usize, off: usize, c: char) -> (r: bool)
    requires
        i <= src@.len(),
        off <= 8,
    ensures
        r == (byte_at(src@, i + off) == c),
        r ==> i + off < src@.len(),
        src@.len() <= usize::MAX,
{
    match at(src, i, off) {
        Some(found) => found as char == c,
        None => false,
    }
}

fn file_at(src: &[u8], i: usize, off: usize) -> (r: bool)
    requires
        i <= src@.len(),
        off <= 8,
    ensures
        r == is_file(byte_at(src@, i + off)),
        r ==> i + off < src@.len(),
        src@.len() <= usize::MAX,
{
    match at(src, i, off) {
        Some(found) => 'a' <= found as char && found as char <= 'h',
        None => false,
    }
}

fn rank_at(src: &[u8], i: usize, off: usize) -> (r: bool)
    requires
        i <= src@.len(),
        off <= 8,
    ensures
        r == is_rank(byte_at(src@, i + off)),
        r ==> i + off < src@.len(),
        src@.len() <= usize::MAX,
{
    match at(src, i, off) {
        Some(found) => '1' <= found as char && found as char <= '8',
        None => false,
    }
}

fn piece_at(src: &[u8], i: usize, off: usize) -> (r: bool)
    requires
        i <= src@.len(),
        off <= 8,
    ensures
        r == is_piece(byte_at(src@, i + off)),
        r ==> i + off < src@.len(),
        src@.len() <= usize::MAX,
{
    match at(src, i, off) {
        Some(found) => {
            let c = found as char;
            c == 'N' || c == 'B' || c == 'R' || c == 'Q' || c == 'K'
        },
        None => false,
    }
}

fn of_class(class: Class, byte: u8) -> (r: bool)
    ensures
        r == in_class(class, byte as int),
{
    let c = byte as char;
    match class {
        Class::Space => c == ' ' || c == '\t' || c == '\n' || c == '\x0c' || c == '\r',
        Class::Digit => '0' <= c && c <= '9',
        Class::Dot => c == '.',
        Class::Symbol => ('A' <= c && c <= 'Z') || ('a' <= c && c <= 'z') || ('0' <= c && c
            <= '9') || c == '_',
        Class::Glyph => c == '!' || c == '?',
        Class::Suffix => c == '+' || c == '#',
    }
}

fn scan_run(src: &[u8], start: usize, class: Class) -> (end: usize)
    requires
        start <= src@.len(),
    ensures
        end == run_end(src@, start as int, class),
        start <= end <= src@.len(),
{
    let mut i = start;
    while i < src.len() && of_class(class, src[i])
        invariant
            start <= i <= src@.len(),
            run_end(src@, i as int, class) == run_end(src@, start as int, class),
        decreases src@.len() - i,
    {
        i = i + 1;
    }
    i
}

fn scan_to(src: &[u8], start: usize, c: char) -> (end: usize)
    requires
        start <= src@.len(),
        c < 128,
    ensures
        end == find_byte(src@, start as int, c as u8),
        start <= end <= src@.len(),
{
    let byte = c as u8;
    let mut i = start;
    while i < src.len() && src[i] != byte
        invariant
            start <= i <= src@.len(),
            find_byte(src@, i as int, byte) == find_byte(src@, start as int, byte),
        decreases src@.len() - i,
    {
        i = i + 1;
    }
    i
}

fn scan_square(src: &[u8], i: usize, off: usize) -> (r: bool)
    requires
        i <= src@.len(),
        off <= 7,
    ensures
        r == square_at(src@, i + off),
        r ==> i + off + 2 <= src@.len(),
{
    file_at(src, i, off) && rank_at(src, i, off + 1)
}

fn scan_target(src: &[u8], i: usize, off: usize) -> (r: Option<usize>)
    requires
        i <= src@.len(),
        off <= 6,
    ensures
        same_end(r, target_end(src@, i + off)),
        r matches Some(e) ==> i + off < e <= src@.len(),
{
    if is(src, i, off, 'x') && scan_square(src, i, off + 1) {
        Some(i + off + 3)
    } else if scan_square(src, i, off) {
        Some(i + off + 2)
    } else {
        None
    }
}

fn scan_pawn(src: &[u8], i: usize) -> (r: Option<usize>)
    requires
        i < src@.len(),
    ensures
        same_end(r, pawn_end(src@, i as int)),
        r matches Some(e) ==> i < e <= src@.len(),
{
    let body = if rank_at(src, i, 1) {
        i + 2
    } else if is(src, i, 1, 'x') && scan_square(src, i, 2) {
        i + 4
    } else {
        return None;
    };
    if is(src, body, 0, '=') && piece_at(src, body, 1) {
        Some(body + 2)
    } else {
        Some(body)
    }
}

fn scan_piece(src: &[u8], i: usize) -> (r: Option<usize>)
    requires
        i < src@.len(),
    ensures
        same_end(r, piece_end(src@, i as int)),
        r matches Some(e) ==> i < e <= src@.len(),
{
    if scan_square(src, i, 1) {
        let longest = scan_target(src, i, 3);
        if longest.is_some() {
            return longest;
        }
    }
    if file_at(src, i, 1) || rank_at(src, i, 1) {
        let longer = scan_target(src, i, 2);
        if longer.is_some() {
            return longer;
        }
    }
    scan_target(src, i, 1)
}

fn scan_castle(src: &[u8], i: usize) -> (r: Option<usize>)
    requires
        i < src@.len(),
    ensures
        same_end(r, castle_end(src@, i as int)),
        r matches Some(e) ==> i < e <= src@.len(),
{
    if is(src, i, 0, 'O') && is(src, i, 1, '-') && is(src, i, 2, 'O') {
        if is(src, i, 3, '-') && is(src, i, 4, 'O') {
            Some(i + 5)
        } else {
            Some(i + 3)
        }
    } else {
        None
    }
}

fn scan_null(src: &[u8], i: usize) -> (r: Option<usize>)
    requires
        i <= src@.len(),
    ensures
        same_end(r, null_end(src@, i as int)),
        r matches Some(e) ==> i < e <= src@.len(),
{
    if (is(src, i, 0, '-') && is(src, i, 1, '-')) || (is(src, i, 0, 'Z') && is(src, i, 1, '0')) {
        Some(i + 2)
    } else {
        None
    }
}

fn scan_move(src: &[u8], i: usize) -> (r: Option<usize>)
    requires
        i <= src@.len(),
    ensures
        same_end(r, move_end(src@, i as int)),
        r matches Some(e) ==> i < e <= src@.len(),
{
    let body = if file_at(src, i, 0) {
        scan_pawn(src, i)
    } else if piece_at(src, i, 0) {
        scan_piece(src, i)
    } else if is(src, i, 0, 'O') {
        scan_castle(src, i)
    } else {
        scan_null(src, i)
    };
    match body {
        None => None,
        Some(e) => Some(scan_run(src, e, Class::Suffix)),
    }
}

fn scan_result(src: &[u8], i: usize) -> (r: Option<usize>)
    requires
        i <= src@.len(),
    ensures
        same_end(r, result_end(src@, i as int)),
        r matches Some(e) ==> i < e <= src@.len(),
{
    if is(src, i, 0, '*') {
        Some(i + 1)
    } else if is(src, i, 0, '1') && is(src, i, 1, '-') && is(src, i, 2, '0') {
        Some(i + 3)
    } else if is(src, i, 0, '0') && is(src, i, 1, '-') && is(src, i, 2, '1') {
        Some(i + 3)
    } else if is(src, i, 0, '1') && is(src, i, 1, '/') && is(src, i, 2, '2') && is(src, i, 3, '-')
        && is(src, i, 4, '1') && is(src, i, 5, '/') && is(src, i, 6, '2') {
        Some(i + 7)
    } else {
        None
    }
}

fn scan_number(src: &[u8], i: usize) -> (r: Option<usize>)
    requires
        i <= src@.len(),
    ensures
        same_end(r, number_end(src@, i as int)),
        r matches Some(e) ==> i < e <= src@.len(),
{
    let digits = scan_run(src, i, Class::Digit);
    let dots = scan_run(src, digits, Class::Dot);
    if digits > i && dots > digits {
        Some(dots)
    } else {
        None
    }
}

fn scan_token<'source>(src: &'source [u8], i: usize) -> (r: Option<(Token<'source>, usize)>)
    requires
        i < src@.len(),
    ensures
        same_token(r, token_at(src@, i as int)),
        r matches Some((_, e)) ==> i < e <= src@.len(),
{
    let c = src[i] as char;
    if c == ';' || c == '%' {
        let end = scan_to(src, i + 1, '\n');
        return Some((Token::EscapeComment(slice_subrange(src, i + 1, end)), end));
    }
    if let Some(end) = scan_result(src, i) {
        return Some((Token::GameResult(slice_subrange(src, i, end)), end));
    }
    let number = scan_number(src, i);
    if let Some(dots) = number {
        let start = scan_run(src, dots, Class::Space);
        if let Some(end) = scan_move(src, start) {
            return Some((Token::SanMove(slice_subrange(src, start, end)), end));
        }
    }
    if c == '[' {
        let start = scan_run(src, i + 1, Class::Space);
        let end = scan_run(src, start, Class::Symbol);
        if end > start {
            return Some((Token::TagSymbol(slice_subrange(src, start, end)), end));
        }
    }
    if c == '"' {
        let close = scan_to(src, i + 1, '"');
        if close < src.len() {
            let bracket = scan_run(src, close + 1, Class::Space);
            let end = if is(src, bracket, 0, ']') {
                bracket + 1
            } else {
                close + 1
            };
            return Some((Token::TagString(slice_subrange(src, i + 1, close)), end));
        }
    }
    if c == '(' {
        return Some((Token::StartVariation, i + 1));
    }
    if c == ')' {
        return Some((Token::EndVariation, i + 1));
    }
    if c == '{' {
        let close = scan_to(src, i + 1, '}');
        if close < src.len() {
            return Some((Token::Commentary(slice_subrange(src, i + 1, close)), close + 1));
        }
    }
    if c == '$' {
        let end = scan_run(src, i + 1, Class::Digit);
        if end > i + 1 {
            return Some((Token::Nag(slice_subrange(src, i + 1, end)), end));
        }
    }
    let glyphs = scan_run(src, i, Class::Glyph);
    if glyphs > i {
        return Some((Token::MoveAnnotation(slice_subrange(src, i, glyphs)), glyphs));
    }
    if let Some(end) = scan_move(src, i) {
        return Some((Token::SanMove(slice_subrange(src, i, end)), end));
    }
    match number {
        Some(end) => Some((Token::MoveNr, end)),
        None => None,
    }
}

/// A cursor over the input that hands out one token at a time.
pub struct TokenIterator<'source> {
    rest: &'source [u8],
}

impl<'source> View for TokenIterator<'source> {
    type V = Seq<u8>;

    /// The input that has not been read yet.
    closed spec fn view(&self) -> Seq<u8> {
        self.rest@
    }
}

impl<'source> TokenIterator<'source> {
    /// A cursor at the start of `source`.
    pub fn new(source: &'source [u8]) -> (iter: Self)
        ensures
            iter@ == source@,
    {
        TokenIterator { rest: source }
    }

    /// The next token, read past it; `None` at the end of the input and where
    /// no rule fits, and then only the leading whitespace is read past.
    pub fn next(&mut self) -> (token: Option<Token<'source>>)
        ensures
            final(self)@.len() <= old(self)@.len(),
            match first_token(old(self)@) {
                Some(scanned) => {
                    &&& token matches Some(t)
                    &&& t@ == scanned.token
                    &&& 0 < scanned.end <= old(self)@.len()
                    &&& final(self)@ == old(self)@.skip(scanned.end)
                },
                None => {
                    &&& token is None
                    &&& final(self)@ == old(self)@.skip(run_end(old(self)@, 0, Class::Space))
                },
            },
    {
        let src = self.rest;
        let start = scan_run(src, 0, Class::Space);
        if start >= src.len() {
            self.rest = slice_subrange(src, start, src.len());
            proof {
                assert(self.rest@ =~= src@.skip(start as int));
            }
            return None;
        }
        match scan_token(src, start) {
            Some((token, end)) => {
                self.rest = slice_subrange(src, end, src.len());
                proof {
                    assert(self.rest@ =~= src@.skip(end as int));
                }
                Some(token)
            },
            None => {
                self.rest = slice_subrange(src, start, src.len());
                proof {
                    assert(self.rest@ =~= src@.skip(start as int));
                }
                None
            },
        }
    }
}

} // verus!
