//! The request decisions of the HTTP transport: the wire shapes it reads and writes,
//! and how query text becomes symbols and book depths.

use vstd::prelude::*;
use vstd::string::{StringExecFns, StringSliceAdditionalSpecFns};

use crate::domain::{Order, Symbol};
use crate::matching::PriceLevelView;
use crate::service::{BookDepth, BookView, ServiceError};
use crate::matching::report::book_error_text;
use crate::text::{ascii_chars, decimal_text, usize_text};

verus! {

/// Query of a book read: the symbol and an optional depth (`top`, `full` or a count).
#[derive(Debug)]
pub struct BookQuery {
    pub symbol: String,
    pub depth: Option<String>,
}

/// Query naming a symbol.
#[derive(Debug)]
pub struct SymbolQuery {
    pub symbol: String,
}

/// Body of an order submission: the symbol and the order.
#[derive(Debug)]
pub struct SubmitRequest {
    pub symbol: String,
    pub order: Order,
}

/// Body of a book read: the symbol, the depth label and the levels, best first.
#[derive(Debug)]
pub struct BookResponse {
    pub symbol: String,
    pub depth: String,
    pub bids: Vec<PriceLevelView>,
    pub asks: Vec<PriceLevelView>,
}

/// Why a request was answered with an error.
#[derive(Debug)]
pub enum ApiError {
    BadRequest(String),
    Overloaded,
    Unavailable,
}

/// Whether `b` is an ASCII decimal digit.
pub open spec fn is_digit(b: u8) -> bool {
    0x30 <= b && b <= 0x39
}

/// The value of a run of decimal digits, most significant first.
pub open spec fn decimal_value(digits: Seq<u8>) -> nat
    decreases digits.len(),
{
    if digits.len() == 0 {
        0
    } else {
        decimal_value(digits.drop_last()) * 10 + (digits.last() - 0x30) as nat
    }
}

/// Whether every byte of `s` is a decimal digit.
pub open spec fn all_digits(s: Seq<u8>) -> bool {
    forall|i: int| 0 <= i < s.len() ==> is_digit(#[trigger] s[i])
}

/// The text after an optional leading `+`.
pub open spec fn unsigned_digits(text: Seq<u8>) -> Seq<u8> {
    if text.len() > 0 && text[0] == 0x2b {
        text.drop_first()
    } else {
        text
    }
}

/// How an unsigned integer is read from text: an optional `+`, then at least one
/// decimal digit and nothing else, with a value that fits in `usize`.
pub open spec fn parsed_usize(text: Seq<u8>) -> Option<usize> {
    let digits = unsigned_digits(text);
    if digits.len() > 0 && all_digits(digits) && decimal_value(digits) <= usize::MAX {
        Some(decimal_value(digits) as usize)
    } else {
        None
    }
}

/// The depth a query text asks for: `top`, `full`, or a count of levels.
pub open spec fn depth_from_text(text: Seq<u8>) -> Option<BookDepth> {
    if text == seq![0x74u8, 0x6fu8, 0x70u8] {
        Some(BookDepth::Top)
    } else if text == seq![0x66u8, 0x75u8, 0x6cu8, 0x6cu8] {
        Some(BookDepth::Full)
    } else {
        match parsed_usize(text) {
            Some(n) => Some(BookDepth::Levels(n)),
            None => None,
        }
    }
}

/// The label of a depth: `top`, `full`, or the count in decimal.
pub open spec fn depth_label_text(depth: BookDepth) -> Seq<char> {
    match depth {
        BookDepth::Top => seq!['t', 'o', 'p'],
        BookDepth::Full => seq!['f', 'u', 'l', 'l'],
        BookDepth::Levels(n) => decimal_text(n as nat),
    }
}

proof fn lemma_decimal_value_grows(digits: Seq<u8>, k: int)
    requires
        0 <= k <= digits.len(),
        forall|i: int| 0 <= i < digits.len() ==> is_digit(#[trigger] digits[i]),
    ensures
        decimal_value(digits.subrange(0, k)) <= decimal_value(digits),
    decreases digits.len() - k,
{
    if k < digits.len() {
        let next = digits.subrange(0, k + 1);
        assert(next.drop_last() == digits.subrange(0, k));
        assert(is_digit(digits[k]));
        lemma_decimal_value_grows(digits, k + 1);
    } else {
        assert(digits.subrange(0, k) == digits);
    }
}

proof fn lemma_too_large(text: Seq<u8>, start: int, i: int)
    requires
        (start == 1) == (text.len() > 0 && text[0] == 0x2b),
        start == 0 || start == 1,
        start <= i < text.len(),
        forall|j: int| start <= j < i ==> is_digit(#[trigger] text[j]),
        is_digit(text[i]),
        decimal_value(text.subrange(start, i)) * 10 + (text[i] - 0x30) > usize::MAX,
    ensures
        parsed_usize(text) is None,
{
    let digits = text.subrange(start, text.len() as int);
    if start == 1 {
        assert(digits == text.drop_first());
    } else {
        assert(digits == text);
    }
    if all_digits(digits) {
        lemma_decimal_value_grows(digits, i - start + 1);
        let prefix = digits.subrange(0, i - start + 1);
        assert(prefix.drop_last() == text.subrange(start, i));
        assert(prefix.last() == text[i]);
        assert(decimal_value(prefix) == decimal_value(text.subrange(start, i)) * 10 + (text[i] - 0x30) as nat);
        assert(decimal_value(digits) > usize::MAX);
    } else {
        let j = choose|j: int| 0 <= j < digits.len() && !is_digit(#[trigger] digits[j]);
        assert(!is_digit(digits[j]));
    }
}

/// Reads an unsigned integer as `usize`'s `FromStr` does.
pub fn parse_usize(bytes: &[u8]) -> (r: Option<usize>)
    ensures
        r == parsed_usize(bytes@),
{
    let n = bytes.len();
    let start: usize = if n > 0 && bytes[0] == 0x2b {
        1
    } else {
        0
    };
    let ghost digits = unsigned_digits(bytes@);
    proof {
        assert(digits == bytes@.subrange(start as int, n as int));
    }
    if start >= n {
        return None;
    }
    let mut value: usize = 0;
    let mut i: usize = start;
    while i < n
        invariant
            n == bytes@.len(),
            (start == 1) == (n > 0 && bytes@[0] == 0x2b),
            start == 0 || start == 1,
            start <= i <= n,
            digits == bytes@.subrange(start as int, n as int),
            forall|j: int| start <= j < i ==> is_digit(#[trigger] bytes@[j]),
            value == decimal_value(bytes@.subrange(start as int, i as int)),
        decreases n - i,
    {
        let b = bytes[i];
        if !(0x30 <= b && b <= 0x39) {
            proof {
                assert(!is_digit(digits[i - start]));
                assert(!all_digits(digits));
            }
            return None;
        }
        proof {
            assert(bytes@.subrange(start as int, i + 1).drop_last() == bytes@.subrange(
                start as int,
                i as int,
            ));
        }
        let scaled = match value.checked_mul(10) {
            Some(v) => v,
            None => {
                proof {
                    lemma_too_large(bytes@, start as int, i as int);
                }
                return None;
            },
        };
        let next = match scaled.checked_add((b - 0x30) as usize) {
            Some(v) => v,
            None => {
                proof {
                    lemma_too_large(bytes@, start as int, i as int);
                }
                return None;
            },
        };
        value = next;
        i = i + 1;
    }
    proof {
        assert(bytes@.subrange(start as int, n as int) == digits);
    }
    Some(value)
}


/// Parses a symbol from query text, answering a bad request when it is not one.
pub fn parse_symbol(value: &str) -> (r: Result<Symbol, ApiError>)
    ensures
        crate::domain::symbol::is_symbol_text(value.spec_bytes()) ==> (r matches Ok(symbol)
            && symbol.text() == value.spec_bytes()),
        !crate::domain::symbol::is_symbol_text(value.spec_bytes()) ==> (r matches Err(
            ApiError::BadRequest(message),
        ) && message@ == "invalid symbol"@),
{
    match Symbol::parse(value) {
        Ok(symbol) => Ok(symbol),
        Err(_) => Err(ApiError::BadRequest("invalid symbol".to_string())),
    }
}

/// Parses a book depth: `top`, `full`, or a count of levels.
pub fn parse_depth(value: &str) -> (r: Result<BookDepth, ApiError>)
    ensures
        depth_from_text(value.spec_bytes()) matches Some(depth) ==> r matches Ok(d) && d == depth,
        depth_from_text(value.spec_bytes()) is None ==> (r matches Err(ApiError::BadRequest(message))
            && message@ == "depth must be top, full, or a non-negative integer"@),
{
    let bytes = value.as_bytes();
    let n = bytes.len();
    if n == 3 && bytes[0] == 0x74 && bytes[1] == 0x6f && bytes[2] == 0x70 {
        proof {
            assert(bytes@ == seq![0x74u8, 0x6fu8, 0x70u8]);
        }
        return Ok(BookDepth::Top);
    }
    if n == 4 && bytes[0] == 0x66 && bytes[1] == 0x75 && bytes[2] == 0x6c && bytes[3] == 0x6c {
        proof {
            assert(bytes@ == seq![0x66u8, 0x75u8, 0x6cu8, 0x6cu8]);
        }
        return Ok(BookDepth::Full);
    }
    proof {
        if bytes@ == seq![0x74u8, 0x6fu8, 0x70u8] {
            assert(bytes@[0] == 0x74 && bytes@[1] == 0x6f && bytes@[2] == 0x70);
        }
        if bytes@ == seq![0x66u8, 0x75u8, 0x6cu8, 0x6cu8] {
            assert(bytes@[0] == 0x66 && bytes@[1] == 0x75 && bytes@[2] == 0x6c && bytes@[3] == 0x6c);
        }
    }
    match parse_usize(bytes) {
        Some(levels) => Ok(BookDepth::Levels(levels)),
        None => Err(
            ApiError::BadRequest("depth must be top, full, or a non-negative integer".to_string()),
        ),
    }
}

/// The label a book response carries for its depth.
pub fn depth_label(depth: BookDepth) -> (r: String)
    ensures
        r@ == depth_label_text(depth),
{
    match depth {
        BookDepth::Top => {
            let r = "top".to_string();
            proof {
                reveal_strlit("top");
            }
            r
        },
        BookDepth::Levels(levels) => usize_text(levels),
        BookDepth::Full => {
            let r = "full".to_string();
            proof {
                reveal_strlit("full");
            }
            r
        },
    }
}

impl BookResponse {
    /// A response for `symbol` at the labelled depth: the top of book gives at most one
    /// level per side; a snapshot gives its levels as they are.
    pub fn from_view(symbol: String, depth: String, view: BookView) -> (r: Self)
        ensures
            r.symbol == symbol,
            r.depth == depth,
            match view {
                BookView::Top(top) => r.bids@ == (match top.bid {
                    Some(level) => seq![level],
                    None => Seq::empty(),
                }) && r.asks@ == (match top.ask {
                    Some(level) => seq![level],
                    None => Seq::empty(),
                }),
                BookView::Snapshot(snapshot) => r.bids@ == snapshot.bids@ && r.asks@ == snapshot.asks@,
            },
    {
        let (bids, asks) = match view {
            BookView::Top(top) => {
                let mut bids: Vec<PriceLevelView> = Vec::new();
                match top.bid {
                    Some(level) => bids.push(level),
                    None => {},
                }
                let mut asks: Vec<PriceLevelView> = Vec::new();
                match top.ask {
                    Some(level) => asks.push(level),
                    None => {},
                }
                proof {
                    assert(top.bid is Some ==> bids@ == seq![top.bid->0]);
                    assert(top.ask is Some ==> asks@ == seq![top.ask->0]);
                }
                (bids, asks)
            },
            BookView::Snapshot(snapshot) => (snapshot.bids, snapshot.asks),
        };
        BookResponse { symbol, depth, bids, asks }
    }
}
impl ApiError {
    /// The answer a service failure gets: an unknown symbol is a bad request naming it,
    /// a refused command a bad request with the book's message; a full ring is an
    /// overload and a stopped engine an unavailability.
    pub fn from_service_error(error: ServiceError) -> (r: ApiError)
        ensures
            match error {
                ServiceError::UnknownSymbol(symbol) => r matches ApiError::BadRequest(message)
                    && message@ == "unknown symbol: "@ + ascii_chars(symbol.text()),
                ServiceError::Overloaded => r is Overloaded,
                ServiceError::Unavailable => r is Unavailable,
                ServiceError::Book(e) => r matches ApiError::BadRequest(message) && message@
                    == book_error_text(e),
            },
    {
        match error {
            ServiceError::UnknownSymbol(symbol) => {
                let mut message = "unknown symbol: ".to_string();
                let text = symbol.to_text();
                message.append(text.as_str());
                ApiError::BadRequest(message)
            },
            ServiceError::Overloaded => ApiError::Overloaded,
            ServiceError::Unavailable => ApiError::Unavailable,
            ServiceError::Book(e) => ApiError::BadRequest(e.message()),
        }
    }

    /// The HTTP status the error is answered with: 400 for a bad request, 503 when the
    /// engine is overloaded or unavailable.
    pub fn status(&self) -> (r: u16)
        ensures
            r == (if self is BadRequest {
                400u16
            } else {
                503u16
            }),
    {
        match self {
            ApiError::BadRequest(_) => 400,
            ApiError::Overloaded => 503,
            ApiError::Unavailable => 503,
        }
    }

    /// The message the error is answered with.
    pub fn message(&self) -> (r: String)
        ensures
            match self {
                ApiError::BadRequest(message) => r@ == message@,
                ApiError::Overloaded => r@ == "matching engine ring is full"@,
                ApiError::Unavailable => r@ == "matching engine is unavailable"@,
            },
    {
        match self {
            ApiError::BadRequest(message) => message.clone(),
            ApiError::Overloaded => "matching engine ring is full".to_string(),
            ApiError::Unavailable => "matching engine is unavailable".to_string(),
        }
    }
}

} // verus!
