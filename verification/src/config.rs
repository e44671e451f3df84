//! The checks that configuration text must pass: a value that may not be blank, and
//! a comma-separated list of symbols.

use vstd::prelude::*;
use vstd::string::StringExecFns;

use crate::domain::symbol::{is_symbol_text, Symbol};

verus! {

/// A configuration variable that is present but fails to parse or validate: its
/// name, its value and why it was refused.
#[derive(Debug, PartialEq, Eq)]
pub struct ConfigError {
    name: &'static str,
    value: String,
    reason: String,
}

impl ConfigError {
    /// The name of the refused variable.
    pub closed spec fn name_spec(&self) -> &'static str {
        self.name
    }

    /// The refused value.
    pub closed spec fn value_spec(&self) -> Seq<char> {
        self.value@
    }

    /// Why the value was refused.
    pub closed spec fn reason_spec(&self) -> Seq<char> {
        self.reason@
    }

    /// The refusal of `value` for the variable `name`, for `reason`.
    pub fn new(name: &'static str, value: String, reason: String) -> (r: ConfigError)
        ensures
            r.name_spec() == name,
            r.value_spec() == value@,
            r.reason_spec() == reason@,
    {
        ConfigError { name, value, reason }
    }

    /// The name of the refused variable.
    pub fn name(&self) -> (r: &'static str)
        ensures
            r == self.name_spec(),
    {
        self.name
    }

    /// The refused value.
    pub fn value(&self) -> (r: &str)
        ensures
            r@ == self.value_spec(),
    {
        self.value.as_str()
    }

    /// Why the value was refused.
    pub fn reason(&self) -> (r: &str)
        ensures
            r@ == self.reason_spec(),
    {
        self.reason.as_str()
    }

    /// The message the error is reported with: the variable, its value quoted, and the
    /// reason.
    pub fn message(&self) -> (r: String)
        ensures
            r@ == "environment variable "@ + self.name_spec()@ + "="@ + debug_quoted(
                self.value_spec(),
            ) + " is invalid: "@ + self.reason_spec(),
    {
        let mut text = "environment variable ".to_string();
        text.append(self.name);
        text.append("=");
        let value = chars_of(self.value.as_str());
        let quoted_value = quoted(value.as_slice());
        text.append(quoted_value.as_str());
        text.append(" is invalid: ");
        text.append(self.reason.as_str());
        text
    }
}

/// Whether `c` has the Unicode `White_Space` property.
pub open spec fn is_white_space(c: char) -> bool {
    let u = c as u32;
    ||| 0x09 <= u <= 0x0d
    ||| u == 0x20
    ||| u == 0x85
    ||| u == 0xa0
    ||| u == 0x1680
    ||| 0x2000 <= u <= 0x200a
    ||| u == 0x2028
    ||| u == 0x2029
    ||| u == 0x202f
    ||| u == 0x205f
    ||| u == 0x3000
}

/// Whether `text` holds nothing but white space.
pub open spec fn is_blank(text: Seq<char>) -> bool {
    forall|i: int| 0 <= i < text.len() ==> is_white_space(#[trigger] text[i])
}

/// `text` without its leading white space.
pub open spec fn trim_start(text: Seq<char>) -> Seq<char>
    decreases text.len(),
{
    if text.len() > 0 && is_white_space(text[0]) {
        trim_start(text.drop_first())
    } else {
        text
    }
}

/// `text` without its trailing white space.
pub open spec fn trim_end(text: Seq<char>) -> Seq<char>
    decreases text.len(),
{
    if text.len() > 0 && is_white_space(text.last()) {
        trim_end(text.drop_last())
    } else {
        text
    }
}

/// `text` without white space at either end.
pub open spec fn trimmed(text: Seq<char>) -> Seq<char> {
    trim_end(trim_start(text))
}

/// The pieces of `text` between its commas, in order; a text without a comma is one
/// piece, and the empty text is one empty piece.
pub open spec fn fields(text: Seq<char>) -> Seq<Seq<char>>
    decreases text.len(),
{
    if text.len() == 0 {
        seq![Seq::empty()]
    } else {
        let before = fields(text.drop_last());
        if text.last() == ',' {
            before.push(Seq::empty())
        } else {
            before.update(before.len() - 1, before.last().push(text.last()))
        }
    }
}

/// The trimmed pieces that are not empty, in order.
pub open spec fn tokens(pieces: Seq<Seq<char>>) -> Seq<Seq<char>>
    decreases pieces.len(),
{
    if pieces.len() == 0 {
        Seq::empty()
    } else {
        let rest = tokens(pieces.drop_last());
        let token = trimmed(pieces.last());
        if token.len() == 0 {
            rest
        } else {
            rest.push(token)
        }
    }
}

/// The entries of a comma-separated list: its pieces trimmed, empty ones left out.
pub open spec fn list_entries(text: Seq<char>) -> Seq<Seq<char>> {
    tokens(fields(text))
}

/// Whether `c` may appear in a symbol: an ASCII upper-case letter, a digit, `-`, `_`,
/// `.` or `/`.
pub open spec fn is_symbol_char(c: char) -> bool {
    let u = c as u32;
    (0x41 <= u <= 0x5a) || (0x30 <= u <= 0x39) || u == 0x2d || u == 0x5f || u == 0x2e || u
        == 0x2f
}

/// Whether `text` spells a symbol.
pub open spec fn is_symbol_entry(text: Seq<char>) -> bool {
    &&& 1 <= text.len() <= crate::domain::symbol::MAX_SYMBOL_LEN
    &&& forall|i: int| 0 <= i < text.len() ==> is_symbol_char(#[trigger] text[i])
}

/// Whether every one of `entries` spells a symbol.
pub open spec fn all_symbol_entries(entries: Seq<Seq<char>>) -> bool {
    forall|i: int| 0 <= i < entries.len() ==> is_symbol_entry(#[trigger] entries[i])
}

/// The bytes of a text of ASCII characters.
pub open spec fn ascii_bytes(text: Seq<char>) -> Seq<u8> {
    text.map_values(|c: char| (c as u32) as u8)
}

/// What `str`'s `Debug` formatting gives for a text: the text between double quotes,
/// with quotes, backslashes and unprintable characters escaped.
pub uninterp spec fn debug_quoted(text: Seq<char>) -> Seq<char>;

/// `str`'s `Debug` formatting of the text made of `text`'s characters. Claimed: the
/// result is `debug_quoted` of those characters, a function of them alone.
#[verifier::external_body]
fn quoted(text: &[char]) -> (r: String)
    ensures
        r@ == debug_quoted(text@),
{
    let text: String = text.iter().collect();
    format!("{text:?}")
}

/// Whether `c` has the Unicode `White_Space` property.
fn white_space(c: char) -> (r: bool)
    ensures
        r == is_white_space(c),
{
    let u = c as u32;
    (0x09 <= u && u <= 0x0d) || u == 0x20 || u == 0x85 || u == 0xa0 || u == 0x1680 || (0x2000
        <= u && u <= 0x200a) || u == 0x2028 || u == 0x2029 || u == 0x202f || u == 0x205f || u
        == 0x3000
}

/// The characters of `text`, in order.
fn chars_of(text: &str) -> (r: Vec<char>)
    ensures
        r@ == text@,
{
    let mut out: Vec<char> = Vec::new();
    for c in it: text.chars()
        invariant
            out@ == it.seq().take(it.index()),
    {
        out.push(c);
    }
    out
}

proof fn lemma_trim_start(text: Seq<char>, n: int)
    requires
        0 <= n <= text.len(),
        forall|k: int| 0 <= k < n ==> is_white_space(#[trigger] text[k]),
        n == text.len() || !is_white_space(text[n]),
    ensures
        trim_start(text) == text.subrange(n, text.len() as int),
    decreases n,
{
    if n == 0 {
        assert(text.subrange(0, text.len() as int) == text);
    } else {
        let rest = text.drop_first();
        assert(is_white_space(text[0]));
        assert forall|k: int| 0 <= k < n - 1 implies is_white_space(#[trigger] rest[k]) by {
            assert(rest[k] == text[k + 1]);
        }
        if n < text.len() {
            assert(rest[n - 1] == text[n]);
        }
        lemma_trim_start(rest, n - 1);
        assert(rest.subrange(n - 1, rest.len() as int) == text.subrange(n, text.len() as int));
    }
}

proof fn lemma_trim_end(text: Seq<char>, n: int)
    requires
        0 <= n <= text.len(),
        forall|k: int| n <= k < text.len() ==> is_white_space(#[trigger] text[k]),
        n == 0 || !is_white_space(text[n - 1]),
    ensures
        trim_end(text) == text.subrange(0, n),
    decreases text.len() - n,
{
    if n == text.len() {
        assert(text.subrange(0, n) == text);
    } else {
        let rest = text.drop_last();
        assert(is_white_space(text[text.len() - 1]));
        assert forall|k: int| n <= k < rest.len() implies is_white_space(#[trigger] rest[k]) by {
            assert(rest[k] == text[k]);
        }
        if n > 0 {
            assert(rest[n - 1] == text[n - 1]);
        }
        lemma_trim_end(rest, n);
        assert(rest.subrange(0, n) == text.subrange(0, n));
    }
}

/// The bounds of `chars[lo..hi]` with the white space at both ends left out.
fn trim_bounds(chars: &Vec<char>, lo: usize, hi: usize) -> (r: (usize, usize))
    requires
        lo <= hi <= chars.len(),
    ensures
        lo <= r.0 <= r.1 <= hi,
        trimmed(chars@.subrange(lo as int, hi as int)) == chars@.subrange(r.0 as int, r.1 as int),
{
    let mut a = lo;
    while a < hi && white_space(chars[a])
        invariant
            lo <= a <= hi <= chars.len(),
            forall|k: int| lo <= k < a ==> is_white_space(#[trigger] chars@[k]),
        decreases hi - a,
    {
        a = a + 1;
    }
    let mut b = hi;
    while b > a && white_space(chars[b - 1])
        invariant
            lo <= a <= b <= hi <= chars.len(),
            forall|k: int| b <= k < hi ==> is_white_space(#[trigger] chars@[k]),
        decreases b - a,
    {
        b = b - 1;
    }
    proof {
        let text = chars@.subrange(lo as int, hi as int);
        assert forall|k: int| 0 <= k < a - lo implies is_white_space(#[trigger] text[k]) by {
            assert(text[k] == chars@[lo + k]);
        }
        if a < hi {
            assert(text[a - lo] == chars@[a as int]);
        }
        lemma_trim_start(text, a - lo);
        let start = text.subrange(a - lo, text.len() as int);
        assert(start == chars@.subrange(a as int, hi as int));
        assert forall|k: int| b - a <= k < start.len() implies is_white_space(#[trigger] start[k]) by {
            assert(start[k] == chars@[a + k]);
        }
        if b > a {
            assert(start[b - a - 1] == chars@[b - 1]);
        }
        lemma_trim_end(start, b - a);
        assert(start.subrange(0, b - a) == chars@.subrange(a as int, b as int));
    }
    (a, b)
}

proof fn lemma_ascii_symbol_char(c: char)
    requires
        (c as u32) < 0x80,
    ensures
        crate::domain::symbol::is_symbol_byte((c as u32) as u8) == is_symbol_char(c),
{
}

/// Whether `out` and `refusal` are what reading a list with `entries` gives: the
/// symbols of all entries while they all spell one, else the refusal of the first that
/// does not.
pub open spec fn list_progress(entries: Seq<Seq<char>>, out: Seq<Symbol>, refusal: Option<
    String,
>) -> bool {
    &&& refusal is None ==> {
        &&& all_symbol_entries(entries)
        &&& out.len() == entries.len()
        &&& forall|i: int|
            0 <= i < out.len() ==> (#[trigger] out[i]).text() == ascii_bytes(entries[i])
                && out[i].valid()
    }
    &&& refusal matches Some(reason) ==> exists|i: int|
        0 <= i < entries.len() && !is_symbol_entry(#[trigger] entries[i]) && all_symbol_entries(
            entries.take(i),
        ) && reason@ == debug_quoted(entries[i]) + " is not a valid symbol"@
}

/// Reads the piece `chars[lo..hi]` of a symbol list: a blank piece adds nothing, one
/// that spells a symbol adds that symbol to `out`, and any other gives the reason it is
/// refused and adds nothing.
fn read_piece(chars: &Vec<char>, lo: usize, hi: usize, out: &mut Vec<Symbol>) -> (r: Option<
    String,
>)
    requires
        lo <= hi <= chars.len(),
    ensures
        ({
            let entry = trimmed(chars@.subrange(lo as int, hi as int));
            if entry.len() == 0 {
                r is None && final(out)@ == old(out)@
            } else if is_symbol_entry(entry) {
                &&& r is None
                &&& final(out)@ == old(out)@.push(final(out)@.last())
                &&& final(out)@.last().text() == ascii_bytes(entry)
                &&& final(out)@.last().valid()
            } else {
                &&& r matches Some(reason)
                &&& reason@ == debug_quoted(entry) + " is not a valid symbol"@
                &&& final(out)@ == old(out)@
            }
        }),
{
    let (a, b) = trim_bounds(chars, lo, hi);
    if a == b {
        return None;
    }
    let ghost entry = chars@.subrange(a as int, b as int);
    let mut token: Vec<char> = Vec::new();
    let mut bytes: Vec<u8> = Vec::new();
    let mut ascii = true;
    let mut j = a;
    while j < b
        invariant
            a <= j <= b <= chars.len(),
            entry == chars@.subrange(a as int, b as int),
            token@ == chars@.subrange(a as int, j as int),
            ascii ==> bytes@ == ascii_bytes(token@) && forall|k: int|
                0 <= k < token@.len() ==> ((#[trigger] token@[k]) as u32) < 0x80,
            !ascii ==> exists|k: int| 0 <= k < token@.len() && ((#[trigger] token@[k]) as u32) >= 0x80,
        decreases b - j,
    {
        let c = chars[j];
        let ghost before = token@;
        token.push(c);
        let u = c as u32;
        if u < 0x80 {
            if ascii {
                bytes.push(u as u8);
                proof {
                    assert(ascii_bytes(token@) == ascii_bytes(before).push(u as u8));
                    assert forall|k: int| 0 <= k < token@.len() implies ((#[trigger] token@[k]) as u32)
                        < 0x80 by {
                        if k < before.len() {
                            assert(token@[k] == before[k]);
                        }
                    }
                }
            }
        } else {
            ascii = false;
        }
        proof {
            assert(token@ == before.push(c));
            assert(chars@.subrange(a as int, j + 1) == chars@.subrange(a as int, j as int).push(
                chars@[j as int],
            ));
            if !ascii && u < 0x80 {
                let k = choose|k: int| 0 <= k < before.len() && ((#[trigger] before[k]) as u32) >= 0x80;
                assert(token@[k] == before[k]);
            }
            if !ascii && u >= 0x80 {
                assert(token@[before.len() as int] == c);
            }
        }
        j = j + 1;
    }
    proof {
        assert(token@ == entry);
    }
    if ascii {
        proof {
            assert forall|k: int| 0 <= k < entry.len() implies crate::domain::symbol::is_symbol_byte(
                #[trigger] bytes@[k],
            ) == is_symbol_char(entry[k]) by {
                lemma_ascii_symbol_char(entry[k]);
            }
            if is_symbol_entry(entry) {
                assert forall|k: int| 0 <= k < bytes@.len() implies crate::domain::symbol::is_symbol_byte(
                    #[trigger] bytes@[k],
                ) by {
                    assert(is_symbol_char(entry[k]));
                }
            }
        }
        match Symbol::parse_bytes(bytes.as_slice()) {
            Ok(symbol) => {
                proof {
                    assert forall|k: int| 0 <= k < entry.len() implies is_symbol_char(
                        #[trigger] entry[k],
                    ) by {
                        assert(crate::domain::symbol::is_symbol_byte(bytes@[k]));
                    }
                }
                out.push(symbol);
                return None;
            },
            Err(_) => {},
        }
    } else {
        proof {
            let k = choose|k: int| 0 <= k < token@.len() && ((#[trigger] token@[k]) as u32) >= 0x80;
            assert(!is_symbol_char(entry[k]));
        }
    }
    let mut reason = quoted(token.as_slice());
    reason.append(" is not a valid symbol");
    Some(reason)
}

/// Reads the piece `chars[lo..hi]` that follows the pieces `done`, unless an earlier
/// piece was refused.
fn take_piece(
    chars: &Vec<char>,
    lo: usize,
    hi: usize,
    out: &mut Vec<Symbol>,
    refusal: &mut Option<String>,
    Ghost(done): Ghost<Seq<Seq<char>>>,
)
    requires
        lo <= hi <= chars.len(),
        list_progress(tokens(done), old(out)@, *old(refusal)),
    ensures
        list_progress(
            tokens(done.push(chars@.subrange(lo as int, hi as int))),
            final(out)@,
            *final(refusal),
        ),
{
    let ghost piece = chars@.subrange(lo as int, hi as int);
    let ghost entries = tokens(done);
    let ghost entry = trimmed(piece);
    proof {
        assert(done.push(piece).drop_last() == done);
        assert(done.push(piece).last() == piece);
    }
    let ghost next = tokens(done.push(piece));
    assert(next == if entry.len() == 0 {
        entries
    } else {
        entries.push(entry)
    });
    if refusal.is_none() {
        let read = read_piece(chars, lo, hi, out);
        *refusal = read;
        proof {
            if entry.len() > 0 {
                assert(next.take(entries.len() as int) == entries);
                assert(next[entries.len() as int] == entry);
                if is_symbol_entry(entry) {
                    assert forall|i: int| 0 <= i < out@.len() implies (#[trigger] out@[i]).text()
                        == ascii_bytes(next[i]) && out@[i].valid() by {
                        if i < entries.len() {
                            assert(out@[i] == old(out)@[i]);
                            assert(next[i] == entries[i]);
                        }
                    }
                    assert forall|i: int| 0 <= i < next.len() implies is_symbol_entry(
                        #[trigger] next[i],
                    ) by {
                        if i < entries.len() {
                            assert(next[i] == entries[i]);
                        }
                    }
                }
            }
        }
    } else {
        proof {
            let i = choose|i: int|
                0 <= i < entries.len() && !is_symbol_entry(#[trigger] entries[i])
                    && all_symbol_entries(entries.take(i)) && refusal->0@ == debug_quoted(entries[i])
                    + " is not a valid symbol"@;
            if entry.len() > 0 {
                assert(next[i] == entries[i]);
                assert(next.take(i) == entries.take(i));
            }
        }
    }
}

/// Accepts a value that is not blank; a value of nothing but white space is refused
/// with the reason `must not be empty`.
pub fn non_empty(name: &'static str, value: String) -> (r: Result<String, ConfigError>)
    ensures
        r is Err <==> is_blank(value@),
        r matches Ok(v) ==> v@ == value@,
        r matches Err(e) ==> e.name_spec() == name && e.value_spec() == value@ && e.reason_spec()
            == "must not be empty"@,
{
    let chars = chars_of(value.as_str());
    let mut k: usize = 0;
    while k < chars.len()
        invariant
            chars@ == value@,
            k <= chars.len(),
            forall|i: int| 0 <= i < k ==> is_white_space(#[trigger] chars@[i]),
        decreases chars.len() - k,
    {
        if !white_space(chars[k]) {
            return Ok(value);
        }
        k = k + 1;
    }
    Err(ConfigError { name, value, reason: "must not be empty".to_string() })
}

/// Reads a comma-separated list of symbols. Each piece between commas is trimmed of
/// white space and left out when nothing remains; every other piece must spell a
/// symbol. The first piece that does not is refused by name; a list with no entry at
/// all is refused with the reason `must list at least one symbol`.
pub fn symbols(name: &'static str, value: String) -> (r: Result<Vec<Symbol>, ConfigError>)
    ensures
        ({
            let entries = list_entries(value@);
            &&& r is Ok <==> entries.len() > 0 && all_symbol_entries(entries)
            &&& r matches Ok(list) ==> {
                &&& list@.len() == entries.len()
                &&& forall|i: int|
                    0 <= i < entries.len() ==> (#[trigger] list@[i]).text() == ascii_bytes(
                        entries[i],
                    ) && list@[i].valid()
            }
            &&& r matches Err(e) ==> {
                &&& e.name_spec() == name
                &&& e.value_spec() == value@
                &&& if all_symbol_entries(entries) {
                    e.reason_spec() == "must list at least one symbol"@
                } else {
                    exists|i: int|
                        0 <= i < entries.len() && !is_symbol_entry(#[trigger] entries[i])
                            && all_symbol_entries(entries.take(i)) && e.reason_spec()
                            == debug_quoted(entries[i]) + " is not a valid symbol"@
                }
            }
        }),
{
    let chars = chars_of(value.as_str());
    let n = chars.len();
    let mut out: Vec<Symbol> = Vec::new();
    let mut refusal: Option<String> = None;
    let mut start: usize = 0;
    let mut k: usize = 0;
    let ghost mut done: Seq<Seq<char>> = Seq::empty();
    proof {
        assert(chars@.subrange(0, 0) == Seq::<char>::empty());
        assert(fields(Seq::<char>::empty()) == done.push(Seq::<char>::empty()));
    }
    while k < n
        invariant
            chars@ == value@,
            n == chars.len(),
            start <= k <= n,
            fields(chars@.subrange(0, k as int)) == done.push(chars@.subrange(start as int, k as int)),
            list_progress(tokens(done), out@, refusal),
        decreases n - k,
    {
        let ghost prefix = chars@.subrange(0, k + 1);
        let ghost piece = chars@.subrange(start as int, k as int);
        proof {
            assert(prefix.drop_last() == chars@.subrange(0, k as int));
            assert(prefix.last() == chars@[k as int]);
        }
        if chars[k] == ',' {
            take_piece(&chars, start, k, &mut out, &mut refusal, Ghost(done));
            proof {
                done = done.push(piece);
                assert(chars@.subrange(k + 1, k + 1) == Seq::<char>::empty());
            }
            start = k + 1;
        } else {
            proof {
                assert(chars@.subrange(start as int, k + 1) == piece.push(chars@[k as int]));
                assert(done.push(piece).update(done.len() as int, piece.push(chars@[k as int]))
                    == done.push(piece.push(chars@[k as int])));
            }
        }
        k = k + 1;
    }
    take_piece(&chars, start, n, &mut out, &mut refusal, Ghost(done));
    proof {
        assert(chars@.subrange(0, n as int) == chars@);
        done = done.push(chars@.subrange(start as int, n as int));
        assert(done == fields(value@));
    }
    match refusal {
        Some(reason) => Err(ConfigError { name, value, reason }),
        None => {
            if out.len() == 0 {
                Err(
                    ConfigError {
                        name,
                        value,
                        reason: "must list at least one symbol".to_string(),
                    },
                )
            } else {
                Ok(out)
            }
        },
    }
}

} // verus!
