use vstd::prelude::*;
use vstd::string::StrSliceExecFns;
use vstd::string::StringSliceAdditionalSpecFns;

use crate::token::Token;
use crate::token::TokenModel;
use crate::token::spec_lookup_ident;

verus! {

/// The bytes the scanner treats as whitespace: space, tab, newline and
/// carriage return.
pub open spec fn is_ws_byte(b: u8) -> bool {
    b == 32 || b == 9 || b == 10 || b == 13
}

/// The bytes that may form an identifier: ASCII letters and the underscore.
pub open spec fn is_letter_byte(b: u8) -> bool {
    (97 <= b && b <= 122) || (65 <= b && b <= 90) || b == 95
}

/// The bytes that may form an integer literal: ASCII decimal digits.
pub open spec fn is_digit_byte(b: u8) -> bool {
    48 <= b && b <= 57
}

/// A byte sequence read as characters, one character per byte.
pub open spec fn chars_of(bs: Seq<u8>) -> Seq<char> {
    bs.map(|i: int, b: u8| b as char)
}

fn is_letter(c: u8) -> (r: bool)
    ensures
        r == is_letter_byte(c),
{
    (97 <= c && c <= 122) || (65 <= c && c <= 90) || c == 95
}

fn is_digit(c: u8) -> (r: bool)
    ensures
        r == is_digit_byte(c),
{
    48 <= c && c <= 57
}

/// The index of the first byte at or after `pos` that is not whitespace, or
/// the end of the input.
pub open spec fn skip_ws_end(input: Seq<u8>, pos: int) -> int
    decreases input.len() - pos,
{
    if pos < 0 || pos >= input.len() {
        input.len() as int
    } else if is_ws_byte(input[pos]) {
        skip_ws_end(input, pos + 1)
    } else {
        pos
    }
}

/// The end of the maximal letter/underscore run starting at `pos`.
pub open spec fn letter_run_end(input: Seq<u8>, pos: int) -> int
    decreases input.len() - pos,
{
    if pos < 0 || pos >= input.len() {
        input.len() as int
    } else if is_letter_byte(input[pos]) {
        letter_run_end(input, pos + 1)
    } else {
        pos
    }
}

/// The end of the maximal digit run starting at `pos`.
pub open spec fn digit_run_end(input: Seq<u8>, pos: int) -> int
    decreases input.len() - pos,
{
    if pos < 0 || pos >= input.len() {
        input.len() as int
    } else if is_digit_byte(input[pos]) {
        digit_run_end(input, pos + 1)
    } else {
        pos
    }
}

/// Where whitespace skipping stops: between `pos` and the end, every byte
/// before the stop is whitespace, and the stop is not (unless it is the end).
pub proof fn lemma_skip_ws_bounds(input: Seq<u8>, pos: int)
    requires
        0 <= pos <= input.len(),
    ensures
        pos <= skip_ws_end(input, pos) <= input.len(),
        forall|i: int| pos <= i < skip_ws_end(input, pos) ==> is_ws_byte(input[i]),
        skip_ws_end(input, pos) < input.len() ==> !is_ws_byte(input[skip_ws_end(input, pos)]),
    decreases input.len() - pos,
{
    if pos < input.len() && is_ws_byte(input[pos]) {
        lemma_skip_ws_bounds(input, pos + 1);
    }
}

/// Where a letter run stops: every byte of the run is a letter, and the
/// first byte past it is not (unless the run reaches the end).
pub proof fn lemma_letter_run_bounds(input: Seq<u8>, pos: int)
    requires
        0 <= pos <= input.len(),
    ensures
        pos <= letter_run_end(input, pos) <= input.len(),
        forall|i: int| pos <= i < letter_run_end(input, pos) ==> is_letter_byte(input[i]),
        letter_run_end(input, pos) < input.len() ==> !is_letter_byte(
            input[letter_run_end(input, pos)],
        ),
    decreases input.len() - pos,
{
    if pos < input.len() && is_letter_byte(input[pos]) {
        lemma_letter_run_bounds(input, pos + 1);
    }
}

/// Where a digit run stops: every byte of the run is a digit, and the first
/// byte past it is not (unless the run reaches the end).
pub proof fn lemma_digit_run_bounds(input: Seq<u8>, pos: int)
    requires
        0 <= pos <= input.len(),
    ensures
        pos <= digit_run_end(input, pos) <= input.len(),
        forall|i: int| pos <= i < digit_run_end(input, pos) ==> is_digit_byte(input[i]),
        digit_run_end(input, pos) < input.len() ==> !is_digit_byte(
            input[digit_run_end(input, pos)],
        ),
    decreases input.len() - pos,
{
    if pos < input.len() && is_digit_byte(input[pos]) {
        lemma_digit_run_bounds(input, pos + 1);
    }
}

/// The token found at `pos` (no whitespace skipped here) and the position
/// just past its last byte. Past the end of the input there is no token.
pub open spec fn token_at(input: Seq<u8>, pos: int) -> (Option<TokenModel>, int) {
    if pos < 0 || pos >= input.len() {
        (None, input.len() as int)
    } else {
        let b = input[pos];
        if b == 61 {  // '='
            if pos + 1 < input.len() && input[pos + 1] == 61 {
                (Some(TokenModel::Eq), pos + 2)
            } else {
                (Some(TokenModel::Assign), pos + 1)
            }
        } else if b == 33 {  // '!'
            if pos + 1 < input.len() && input[pos + 1] == 61 {
                (Some(TokenModel::NotEq), pos + 2)
            } else {
                (Some(TokenModel::Bang), pos + 1)
            }
        } else if b == 43 {  // '+'
            (Some(TokenModel::Plus), pos + 1)
        } else if b == 45 {  // '-'
            (Some(TokenModel::Minus), pos + 1)
        } else if b == 47 {  // '/'
            (Some(TokenModel::Slash), pos + 1)
        } else if b == 42 {  // '*'
            (Some(TokenModel::Asterisk), pos + 1)
        } else if b == 60 {  // '<'
            (Some(TokenModel::LT), pos + 1)
        } else if b == 62 {  // '>'
            (Some(TokenModel::GT), pos + 1)
        } else if b == 59 {  // ';'
            (Some(TokenModel::Semicolon), pos + 1)
        } else if b == 44 {  // ','
            (Some(TokenModel::Comma), pos + 1)
        } else if b == 40 {  // '('
            (Some(TokenModel::LParen), pos + 1)
        } else if b == 41 {  // ')'
            (Some(TokenModel::RParen), pos + 1)
        } else if b == 123 {  // '{'
            (Some(TokenModel::LBrace), pos + 1)
        } else if b == 125 {  // '}'
            (Some(TokenModel::RBrace), pos + 1)
        } else if is_letter_byte(b) {
            let e = letter_run_end(input, pos);
            (Some(spec_lookup_ident(chars_of(input.subrange(pos, e)))), e)
        } else if is_digit_byte(b) {
            let e = digit_run_end(input, pos);
            (Some(TokenModel::Int(chars_of(input.subrange(pos, e)))), e)
        } else {
            (Some(TokenModel::Illegal), pos + 1)
        }
    }
}

/// What one `next_token` call yields from position `pos`: the token after any
/// leading whitespace, and the position at which the next call starts.
pub open spec fn spec_next_token(input: Seq<u8>, pos: int) -> (Option<TokenModel>, int) {
    token_at(input, skip_ws_end(input, pos))
}

/// Relies on `String::from_utf8`: bytes below 128 are valid UTF-8 and decode
/// to one character per byte, each with the same code value as its byte.
#[verifier::external_body]
fn ascii_to_string(bytes: Vec<u8>) -> (r: String)
    requires
        forall|i: int| 0 <= i < bytes@.len() ==> bytes@[i] < 128,
    ensures
        r@ == chars_of(bytes@),
{
    match String::from_utf8(bytes) {
        Ok(s) => s,
        Err(_) => String::new(),
    }
}

/// Every position inside the buffer yields a token, and the token ends past
/// where it starts and within the buffer.
pub proof fn lemma_token_at_bounds(input: Seq<u8>, pos: int)
    requires
        0 <= pos < input.len(),
    ensures
        token_at(input, pos).0 is Some,
        pos < token_at(input, pos).1 <= input.len(),
{
    lemma_letter_run_bounds(input, pos);
    lemma_digit_run_bounds(input, pos);
}

/// Termination and forward progress: a call never moves the cursor backwards
/// or out of the buffer; a call that yields a token consumes at least one
/// byte; a call yields no token exactly when only whitespace is left, and
/// then parks the cursor at the end.
pub proof fn lemma_next_token_progress(input: Seq<u8>, pos: int)
    requires
        0 <= pos <= input.len(),
    ensures
        pos <= spec_next_token(input, pos).1 <= input.len(),
        spec_next_token(input, pos).0 is Some ==> spec_next_token(input, pos).1 > pos,
        spec_next_token(input, pos).0 is None ==> spec_next_token(input, pos).1 == input.len(),
        spec_next_token(input, pos).0 is Some <==> skip_ws_end(input, pos) < input.len(),
{
    lemma_skip_ws_bounds(input, pos);
    let w = skip_ws_end(input, pos);
    if w < input.len() {
        lemma_token_at_bounds(input, w);
    }
}

/// Exhaustion is sticky: once the cursor stands at the end of the buffer,
/// every further call yields no token and leaves the cursor there.
pub proof fn lemma_exhaustion_sticky(input: Seq<u8>)
    ensures
        spec_next_token(input, input.len() as int) == (None::<TokenModel>, input.len() as int),
{
}

/// The whole token sequence that draining the scanner from `pos` yields,
/// one token per `next_token` call, in order.
pub open spec fn spec_tokens(input: Seq<u8>, pos: int) -> Seq<TokenModel>
    decreases input.len() - pos,
        when 0 <= pos <= input.len()
        via spec_tokens_decreases
{
    match spec_next_token(input, pos).0 {
        None => Seq::empty(),
        Some(t) => seq![t] + spec_tokens(input, spec_next_token(input, pos).1),
    }
}

#[via_fn]
proof fn spec_tokens_decreases(input: Seq<u8>, pos: int) {
    lemma_next_token_progress(input, pos);
}

/// Termination, whole-run form: a finite buffer holds finitely many tokens,
/// no more than it has bytes left, so draining it takes finitely many calls.
pub proof fn lemma_tokens_finite(input: Seq<u8>, pos: int)
    requires
        0 <= pos <= input.len(),
    ensures
        spec_tokens(input, pos).len() <= input.len() - pos,
    decreases input.len() - pos,
{
    lemma_next_token_progress(input, pos);
    if spec_next_token(input, pos).0 is Some {
        lemma_tokens_finite(input, spec_next_token(input, pos).1);
    }
}

/// Total coverage: one call consumes the bytes from `pos` up to where the
/// next call starts, and each of them exactly once — a run of whitespace,
/// each byte of which is whitespace and which stops at the first byte that
/// is not, followed by the bytes of the yielded token (at least one byte
/// whenever a token comes out, none only at exhaustion).
pub proof fn lemma_next_token_coverage(input: Seq<u8>, pos: int)
    requires
        0 <= pos <= input.len(),
    ensures
        pos <= skip_ws_end(input, pos) <= spec_next_token(input, pos).1 <= input.len(),
        forall|i: int| pos <= i < skip_ws_end(input, pos) ==> is_ws_byte(input[i]),
        skip_ws_end(input, pos) < input.len() ==> !is_ws_byte(input[skip_ws_end(input, pos)]),
        spec_next_token(input, pos).0 is Some ==> skip_ws_end(input, pos) < spec_next_token(
            input,
            pos,
        ).1,
        spec_next_token(input, pos).0 is None ==> skip_ws_end(input, pos) == spec_next_token(
            input,
            pos,
        ).1 == input.len(),
{
    lemma_skip_ws_bounds(input, pos);
    lemma_next_token_progress(input, pos);
    let w = skip_ws_end(input, pos);
    if w < input.len() {
        lemma_token_at_bounds(input, w);
    }
}

/// Identifier and integer tokens carry exactly the consumed run: an
/// identifier's text holds letters and underscores only — never a digit, so
/// a digit ends an identifier — and an integer literal's text holds digits
/// only; each run is nonempty and maximal, the byte after it being of
/// another class whenever one remains.
pub proof fn lemma_run_payloads(input: Seq<u8>, pos: int)
    requires
        0 <= pos <= input.len(),
    ensures
        ({
            let w = skip_ws_end(input, pos);
            let r = spec_next_token(input, pos);
            &&& (r.0 matches Some(TokenModel::Ident(s)) ==> s == chars_of(
                input.subrange(w, r.1),
            ) && w < r.1 && (forall|k: int| w <= k < r.1 ==> is_letter_byte(input[k])) && (r.1
                < input.len() ==> !is_letter_byte(input[r.1])))
            &&& (r.0 matches Some(TokenModel::Int(s)) ==> s == chars_of(input.subrange(w, r.1))
                && w < r.1 && (forall|k: int| w <= k < r.1 ==> is_digit_byte(input[k])) && (r.1
                < input.len() ==> !is_digit_byte(input[r.1])))
        }),
{
    lemma_skip_ws_bounds(input, pos);
    let w = skip_ws_end(input, pos);
    if w < input.len() {
        lemma_letter_run_bounds(input, w);
        lemma_digit_run_bounds(input, w);
    }
}

/// Whitespace skipping is local: in a concatenation it behaves, from any
/// position inside the second part, as in that part alone, offset by the
/// first part's length.
proof fn lemma_skip_ws_shift(x: Seq<u8>, y: Seq<u8>, q: int)
    requires
        0 <= q <= y.len(),
    ensures
        skip_ws_end(x + y, x.len() + q) == x.len() + skip_ws_end(y, q),
    decreases y.len() - q,
{
    if q < y.len() {
        assert((x + y)[x.len() + q] == y[q]);
        if is_ws_byte(y[q]) {
            lemma_skip_ws_shift(x, y, q + 1);
        }
    }
}

/// Letter runs are local in the same way.
proof fn lemma_letter_run_shift(x: Seq<u8>, y: Seq<u8>, q: int)
    requires
        0 <= q <= y.len(),
    ensures
        letter_run_end(x + y, x.len() + q) == x.len() + letter_run_end(y, q),
    decreases y.len() - q,
{
    if q < y.len() {
        assert((x + y)[x.len() + q] == y[q]);
        if is_letter_byte(y[q]) {
            lemma_letter_run_shift(x, y, q + 1);
        }
    }
}

/// Digit runs are local in the same way.
proof fn lemma_digit_run_shift(x: Seq<u8>, y: Seq<u8>, q: int)
    requires
        0 <= q <= y.len(),
    ensures
        digit_run_end(x + y, x.len() + q) == x.len() + digit_run_end(y, q),
    decreases y.len() - q,
{
    if q < y.len() {
        assert((x + y)[x.len() + q] == y[q]);
        if is_digit_byte(y[q]) {
            lemma_digit_run_shift(x, y, q + 1);
        }
    }
}

/// Token classification is local: at a position inside the second part of a
/// concatenation it finds the token that part holds, offset accordingly.
proof fn lemma_token_at_shift(x: Seq<u8>, y: Seq<u8>, q: int)
    requires
        0 <= q <= y.len(),
    ensures
        token_at(x + y, x.len() + q).0 == token_at(y, q).0,
        token_at(x + y, x.len() + q).1 == x.len() + token_at(y, q).1,
{
    let z = x + y;
    if q < y.len() {
        assert(z[x.len() + q] == y[q]);
        if q + 1 < y.len() {
            assert(z[x.len() + q + 1] == y[q + 1]);
        }
        lemma_letter_run_shift(x, y, q);
        lemma_digit_run_shift(x, y, q);
        lemma_letter_run_bounds(y, q);
        lemma_digit_run_bounds(y, q);
        let le = letter_run_end(y, q);
        assert(z.subrange(x.len() + q, x.len() + le) =~= y.subrange(q, le));
        let de = digit_run_end(y, q);
        assert(z.subrange(x.len() + q, x.len() + de) =~= y.subrange(q, de));
    }
}

/// The whole token sequence is local in the same way.
proof fn lemma_tokens_shift(x: Seq<u8>, y: Seq<u8>, q: int)
    requires
        0 <= q <= y.len(),
    ensures
        spec_tokens(x + y, x.len() + q) == spec_tokens(y, q),
    decreases y.len() - q,
{
    lemma_skip_ws_bounds(y, q);
    lemma_skip_ws_shift(x, y, q);
    let w = skip_ws_end(y, q);
    lemma_token_at_shift(x, y, w);
    lemma_next_token_progress(y, q);
    if spec_next_token(y, q).0 is Some {
        lemma_tokens_shift(x, y, spec_next_token(y, q).1);
    }
}

/// A letter run inside the first part of a concatenation does not grow when
/// something that starts with a non-letter follows.
proof fn lemma_letter_run_concat(a: Seq<u8>, c: Seq<u8>, p: int)
    requires
        0 <= p <= a.len(),
        c.len() > 0 ==> !is_letter_byte(c[0]),
    ensures
        letter_run_end(a + c, p) == letter_run_end(a, p),
    decreases a.len() - p,
{
    let z = a + c;
    if p < a.len() {
        assert(z[p] == a[p]);
        if is_letter_byte(a[p]) {
            lemma_letter_run_concat(a, c, p + 1);
        }
    } else {
        if c.len() == 0 {
            assert(z =~= a);
        } else {
            assert(z[p] == c[0]);
        }
    }
}

/// A digit run inside the first part of a concatenation does not grow when
/// something that starts with a non-digit follows.
proof fn lemma_digit_run_concat(a: Seq<u8>, c: Seq<u8>, p: int)
    requires
        0 <= p <= a.len(),
        c.len() > 0 ==> !is_digit_byte(c[0]),
    ensures
        digit_run_end(a + c, p) == digit_run_end(a, p),
    decreases a.len() - p,
{
    let z = a + c;
    if p < a.len() {
        assert(z[p] == a[p]);
        if is_digit_byte(a[p]) {
            lemma_digit_run_concat(a, c, p + 1);
        }
    } else {
        if c.len() == 0 {
            assert(z =~= a);
        } else {
            assert(z[p] == c[0]);
        }
    }
}

/// Skipping whitespace from anywhere inside an all-whitespace prefix runs
/// through it and stops where it stops in what follows.
proof fn lemma_skip_ws_through(ws: Seq<u8>, b: Seq<u8>, k: int)
    requires
        0 <= k <= ws.len(),
        forall|i: int| 0 <= i < ws.len() ==> is_ws_byte(ws[i]),
    ensures
        skip_ws_end(ws + b, k) == ws.len() + skip_ws_end(b, 0),
    decreases ws.len() - k,
{
    if k < ws.len() {
        assert((ws + b)[k] == ws[k]);
        lemma_skip_ws_through(ws, b, k + 1);
    } else {
        lemma_skip_ws_shift(ws, b, 0);
    }
}

/// Skipping whitespace in `a ++ ws ++ b` from a position inside `a`: it
/// stops where it stops in `a` alone, unless only whitespace is left of `a`,
/// in which case it runs through `ws` and on to where it stops in `b`.
proof fn lemma_skip_ws_concat(a: Seq<u8>, ws: Seq<u8>, b: Seq<u8>, p: int)
    requires
        0 <= p <= a.len(),
        forall|i: int| 0 <= i < ws.len() ==> is_ws_byte(ws[i]),
    ensures
        skip_ws_end(a, p) < a.len() ==> skip_ws_end(a + ws + b, p) == skip_ws_end(a, p),
        skip_ws_end(a, p) == a.len() ==> skip_ws_end(a + ws + b, p) == a.len() + ws.len()
            + skip_ws_end(b, 0),
    decreases a.len() - p,
{
    let z = a + ws + b;
    lemma_skip_ws_bounds(a, p);
    if p < a.len() {
        assert(z[p] == a[p]);
        if is_ws_byte(a[p]) {
            lemma_skip_ws_concat(a, ws, b, p + 1);
        }
    } else {
        assert(a + ws + b =~= a + (ws + b));
        lemma_skip_ws_shift(a, ws + b, 0);
        lemma_skip_ws_through(ws, b, 0);
    }
}

/// The token found inside `a` is untouched by appending whitespace and more
/// input: one character of lookahead only ever meets whitespace at the seam.
proof fn lemma_token_at_concat(a: Seq<u8>, ws: Seq<u8>, b: Seq<u8>, p: int)
    requires
        0 <= p < a.len(),
        ws.len() > 0,
        forall|i: int| 0 <= i < ws.len() ==> is_ws_byte(ws[i]),
    ensures
        token_at(a + ws + b, p) == token_at(a, p),
{
    let z = a + ws + b;
    assert(z[p] == a[p]);
    if p + 1 < a.len() {
        assert(z[p + 1] == a[p + 1]);
    } else {
        assert(z[p + 1] == ws[0]);
        assert(is_ws_byte(ws[0]));
    }
    assert(a + ws + b =~= a + (ws + b));
    assert((ws + b)[0] == ws[0]);
    lemma_letter_run_concat(a, ws + b, p);
    lemma_digit_run_concat(a, ws + b, p);
    lemma_letter_run_bounds(a, p);
    lemma_digit_run_bounds(a, p);
    let le = letter_run_end(a, p);
    assert(z.subrange(p, le) =~= a.subrange(p, le));
    let de = digit_run_end(a, p);
    assert(z.subrange(p, de) =~= a.subrange(p, de));
}

/// The separation theorem, generalised over the scan position inside `a` so
/// that it goes through by induction, one token at a time.
proof fn lemma_ws_separation_from(a: Seq<u8>, ws: Seq<u8>, b: Seq<u8>, p: int)
    requires
        0 <= p <= a.len(),
        ws.len() > 0,
        forall|i: int| 0 <= i < ws.len() ==> is_ws_byte(ws[i]),
    ensures
        spec_tokens(a + ws + b, p) == spec_tokens(a, p) + spec_tokens(b, 0),
    decreases a.len() - p,
{
    let z = a + ws + b;
    lemma_skip_ws_bounds(a, p);
    lemma_skip_ws_concat(a, ws, b, p);
    lemma_next_token_progress(a, p);
    lemma_next_token_progress(b, 0);
    let w = skip_ws_end(a, p);
    if w == a.len() {
        assert(spec_tokens(a, p) =~= Seq::<TokenModel>::empty());
        assert(z =~= (a + ws) + b);
        let wb = skip_ws_end(b, 0);
        lemma_skip_ws_bounds(b, 0);
        lemma_token_at_shift(a + ws, b, wb);
        assert(skip_ws_end(z, p) == (a + ws).len() + wb);
        if spec_next_token(b, 0).0 is Some {
            lemma_tokens_shift(a + ws, b, spec_next_token(b, 0).1);
        }
        assert(spec_tokens(z, p) =~= spec_tokens(a, p) + spec_tokens(b, 0));
    } else {
        lemma_token_at_concat(a, ws, b, w);
        lemma_token_at_bounds(a, w);
        let p2 = token_at(a, w).1;
        lemma_ws_separation_from(a, ws, b, p2);
        assert(spec_tokens(z, p) =~= spec_tokens(a, p) + spec_tokens(b, 0));
    }
}

/// Whitespace separates and never changes tokens: with at least one
/// whitespace byte standing between them, two pieces of input scan to the
/// tokens of the one followed by the tokens of the other — however much
/// whitespace stands there, and wherever whitespace already sits inside the
/// pieces.
pub proof fn lemma_ws_separation(a: Seq<u8>, ws: Seq<u8>, b: Seq<u8>)
    requires
        ws.len() > 0,
        forall|i: int| 0 <= i < ws.len() ==> is_ws_byte(ws[i]),
    ensures
        spec_tokens(a + ws + b, 0) == spec_tokens(a, 0) + spec_tokens(b, 0),
{
    lemma_ws_separation_from(a, ws, b, 0);
}

/// Whitespace idempotence: replacing the whitespace run between two pieces
/// of input by any other nonempty whitespace run leaves the token sequence
/// identical.
pub proof fn lemma_ws_idempotent(a: Seq<u8>, u: Seq<u8>, v: Seq<u8>, b: Seq<u8>)
    requires
        u.len() > 0,
        v.len() > 0,
        forall|i: int| 0 <= i < u.len() ==> is_ws_byte(u[i]),
        forall|i: int| 0 <= i < v.len() ==> is_ws_byte(v[i]),
    ensures
        spec_tokens(a + u + b, 0) == spec_tokens(a + v + b, 0),
{
    lemma_ws_separation(a, u, b);
    lemma_ws_separation(a, v, b);
}

/// Whitespace-only input yields no tokens at all.
pub proof fn lemma_ws_only(ws: Seq<u8>)
    requires
        forall|i: int| 0 <= i < ws.len() ==> is_ws_byte(ws[i]),
    ensures
        spec_tokens(ws, 0) == Seq::<TokenModel>::empty(),
{
    lemma_skip_ws_bounds(ws, 0);
}

/// Leading or trailing whitespace produces no extra tokens.
pub proof fn lemma_outer_ws(ws: Seq<u8>, m: Seq<u8>)
    requires
        ws.len() > 0,
        forall|i: int| 0 <= i < ws.len() ==> is_ws_byte(ws[i]),
    ensures
        spec_tokens(ws + m, 0) == spec_tokens(m, 0),
        spec_tokens(m + ws, 0) == spec_tokens(m, 0),
{
    let e = Seq::<u8>::empty();
    lemma_ws_separation(e, ws, m);
    assert(e + ws + m =~= ws + m);
    assert(spec_tokens(e, 0) =~= Seq::<TokenModel>::empty());
    lemma_ws_separation(m, ws, e);
    assert(m + ws + e =~= m + ws);
    assert(spec_tokens(e, 0) + Seq::<TokenModel>::empty() =~= Seq::<TokenModel>::empty());
    assert(spec_tokens(m, 0) + Seq::<TokenModel>::empty() =~= spec_tokens(m, 0));
}

/// The scanner: a cursor over an immutable byte buffer, pre-loaded with the
/// current byte, advanced one token per `next_token` call.
pub struct Lexer {
    input: Vec<u8>,
    position: usize,
    read_position: usize,
    ch: Option<u8>,
}

impl Lexer {
    /// The buffer being scanned.
    pub closed spec fn bytes(&self) -> Seq<u8> {
        self.input@
    }

    /// The index of the current byte.
    pub closed spec fn pos(&self) -> int {
        self.position as int
    }

    /// Cursor well-formedness: the lookahead index is one past the current
    /// one, the current index never leaves the buffer's bounds, and `ch`
    /// holds exactly the byte under the cursor (absent once exhausted).
    pub closed spec fn wf(&self) -> bool {
        &&& self.input@.len() < usize::MAX
        &&& self.position <= self.input@.len()
        &&& self.read_position == self.position + 1
        &&& self.ch == (if self.position < self.input@.len() {
            Some(self.input@[self.position as int])
        } else {
            None::<u8>
        })
    }

    /// Construct a scanner over `input`, with the first byte pre-loaded.
    /// The one machine limit: the byte length and one more must fit in
    /// `usize`, so that the lookahead index can always be stored.
    pub fn new(input: &str) -> (l: Lexer)
        requires
            input.spec_bytes().len() < usize::MAX,
        ensures
            l.wf(),
            l.bytes() == input.spec_bytes(),
            l.pos() == 0,
    {
        let input = input.as_bytes_vec();
        let mut l = Lexer { input, position: 0, read_position: 0, ch: None };
        l.read_char();
        l
    }

    /// Skip leading whitespace, then classify and consume exactly one token:
    /// a two-character operator where one character of lookahead matches, a
    /// single-character operator, a maximal letter or digit run, or one
    /// illegal byte. An exhausted buffer yields no token, leaves the cursor
    /// where it is, and keeps doing so on every later call.
    pub fn next_token(&mut self) -> (tok: Option<Token>)
        requires
            old(self).wf(),
        ensures
            final(self).wf(),
            final(self).bytes() == old(self).bytes(),
            (match tok {
                Some(t) => Some(t@),
                None => None::<TokenModel>,
            }) == spec_next_token(old(self).bytes(), old(self).pos()).0,
            final(self).pos() == spec_next_token(old(self).bytes(), old(self).pos()).1,
    {
        self.skip_whitespace();

        let c = match self.ch {
            Some(c) => c,
            None => {
                return None;
            },
        };
        let tok = match c {
            61u8 => {  // '='
                if self.peek_char() == Some(61u8) {
                    self.read_char();
                    Token::Eq
                } else {
                    Token::Assign
                }
            },
            43u8 => Token::Plus,  // '+'
            45u8 => Token::Minus,  // '-'
            33u8 => {  // '!'
                if self.peek_char() == Some(61u8) {
                    self.read_char();
                    Token::NotEq
                } else {
                    Token::Bang
                }
            },
            47u8 => Token::Slash,  // '/'
            42u8 => Token::Asterisk,  // '*'
            60u8 => Token::LT,  // '<'
            62u8 => Token::GT,  // '>'
            59u8 => Token::Semicolon,  // ';'
            44u8 => Token::Comma,  // ','
            40u8 => Token::LParen,  // '('
            41u8 => Token::RParen,  // ')'
            123u8 => Token::LBrace,  // '{'
            125u8 => Token::RBrace,  // '}'
            _ => {
                if is_letter(c) {
                    let literal = self.read_identifier();
                    return Some(Token::lookup_ident(literal));
                } else if is_digit(c) {
                    return Some(Token::Int(self.read_number()));
                } else {
                    Token::Illegal
                }
            },
        };
        self.read_char();
        Some(tok)
    }

    /// Load the byte at `read_position` (absent past the end) and advance
    /// both indices.
    fn read_char(&mut self)
        requires
            old(self).input@.len() < usize::MAX,
            old(self).read_position <= old(self).input@.len(),
        ensures
            final(self).input@ == old(self).input@,
            final(self).position == old(self).read_position,
            final(self).read_position == old(self).read_position + 1,
            final(self).ch == (if old(self).read_position < old(self).input@.len() {
                Some(old(self).input@[old(self).read_position as int])
            } else {
                None::<u8>
            }),
    {
        self.ch = if self.read_position < self.input.len() {
            Some(self.input[self.read_position])
        } else {
            None
        };
        self.position = self.read_position;
        self.read_position = self.read_position + 1;
    }

    /// The byte after the current one, without advancing.
    fn peek_char(&self) -> (r: Option<u8>)
        requires
            self.wf(),
        ensures
            r == (if self.position + 1 < self.input@.len() {
                Some(self.input@[self.position + 1])
            } else {
                None::<u8>
            }),
    {
        if self.read_position < self.input.len() {
            Some(self.input[self.read_position])
        } else {
            None
        }
    }

    /// Consume bytes while `p` accepts them, collecting the run. `keep` is
    /// `p`'s decision as a predicate, and `end` the index where the run
    /// stops: the first index at or after the cursor whose byte `keep`
    /// rejects, or the end of the buffer.
    fn read_while<P: Fn(u8) -> bool>(
        &mut self,
        p: P,
        Ghost(keep): Ghost<spec_fn(u8) -> bool>,
        Ghost(end): Ghost<int>,
    ) -> (run: Vec<u8>)
        requires
            old(self).wf(),
            forall|b: u8| #[trigger] call_requires(p, (b,)),
            forall|b: u8, r: bool| #[trigger] call_ensures(p, (b,), r) ==> r == keep(b),
            old(self).pos() <= end <= old(self).bytes().len(),
            forall|i: int| old(self).pos() <= i < end ==> keep(old(self).bytes()[i]),
            end < old(self).bytes().len() ==> !keep(old(self).bytes()[end]),
        ensures
            final(self).wf(),
            final(self).bytes() == old(self).bytes(),
            final(self).pos() == end,
            run@ == old(self).bytes().subrange(old(self).pos(), end),
    {
        let mut run: Vec<u8> = Vec::new();
        loop
            invariant
                self.wf(),
                self.bytes() == old(self).bytes(),
                old(self).pos() <= self.pos() <= end <= self.bytes().len(),
                run@ == self.bytes().subrange(old(self).pos(), self.pos()),
                forall|b: u8| #[trigger] call_requires(p, (b,)),
                forall|b: u8, r: bool| #[trigger] call_ensures(p, (b,), r) ==> r == keep(b),
                forall|i: int| old(self).pos() <= i < end ==> keep(self.bytes()[i]),
                end < self.bytes().len() ==> !keep(self.bytes()[end]),
            ensures
                self.wf(),
                self.bytes() == old(self).bytes(),
                self.pos() == end,
                run@ == self.bytes().subrange(old(self).pos(), self.pos()),
            decreases self.bytes().len() - self.pos(),
        {
            let c = match self.ch {
                Some(c) => c,
                None => { break; },
            };
            if !p(c) {
                break;
            }
            proof {
                assert(run@.push(c) =~= self.bytes().subrange(old(self).pos(), self.pos() + 1));
            }
            run.push(c);
            self.read_char();
        }
        run
    }

    /// Consume the maximal letter/underscore run at the cursor and hand it
    /// back as text.
    fn read_identifier(&mut self) -> (r: String)
        requires
            old(self).wf(),
        ensures
            final(self).wf(),
            final(self).bytes() == old(self).bytes(),
            final(self).pos() == letter_run_end(old(self).bytes(), old(self).pos()),
            r@ == chars_of(old(self).bytes().subrange(old(self).pos(), final(self).pos())),
    {
        proof {
            lemma_letter_run_bounds(self.bytes(), self.pos());
        }
        let run = self.read_while(
            is_letter,
            Ghost(|b: u8| is_letter_byte(b)),
            Ghost(letter_run_end(self.bytes(), self.pos())),
        );
        ascii_to_string(run)
    }

    /// Consume the maximal digit run at the cursor and hand it back as text.
    fn read_number(&mut self) -> (r: String)
        requires
            old(self).wf(),
        ensures
            final(self).wf(),
            final(self).bytes() == old(self).bytes(),
            final(self).pos() == digit_run_end(old(self).bytes(), old(self).pos()),
            r@ == chars_of(old(self).bytes().subrange(old(self).pos(), final(self).pos())),
    {
        proof {
            lemma_digit_run_bounds(self.bytes(), self.pos());
        }
        let run = self.read_while(
            is_digit,
            Ghost(|b: u8| is_digit_byte(b)),
            Ghost(digit_run_end(self.bytes(), self.pos())),
        );
        ascii_to_string(run)
    }

    /// Advance the cursor past any run of whitespace bytes.
    fn skip_whitespace(&mut self)
        requires
            old(self).wf(),
        ensures
            final(self).wf(),
            final(self).bytes() == old(self).bytes(),
            final(self).pos() == skip_ws_end(old(self).bytes(), old(self).pos()),
    {
        while self.ch == Some(32u8) || self.ch == Some(9u8) || self.ch == Some(10u8)
            || self.ch == Some(13u8)
            invariant
                self.wf(),
                self.bytes() == old(self).bytes(),
                skip_ws_end(self.bytes(), self.pos()) == skip_ws_end(old(self).bytes(), old(self).pos()),
            decreases self.input@.len() - self.position,
        {
            self.read_char();
        }
    }
}

} // verus!
