use vstd::prelude::*;
use vstd::string::StringSliceAdditionalSpecFns;

verus! {

/// The most bytes a symbol may hold.
pub const MAX_SYMBOL_LEN: usize = 16;

/// A tradable symbol such as `BTC-USD`: one to sixteen bytes, each an ASCII upper-case
/// letter, a digit, or one of `-`, `_`, `.`, `/`.
///
/// The bytes are packed big-endian into one integer, so a symbol is `Copy` and
/// compares and hashes as that integer.
#[derive(Debug, Clone, Copy, PartialEq, Eq, Hash, PartialOrd, Ord, Structural)]
pub struct Symbol {
    code: u128,
}

/// Why a text is not a symbol.
#[derive(Debug, Clone, Copy, PartialEq, Eq, Structural)]
pub enum SymbolError {
    /// The text is empty.
    Empty,
    /// The text is longer than sixteen bytes.
    TooLong,
    /// A byte is not an upper-case letter, a digit, `-`, `_`, `.` or `/`.
    InvalidCharacter,
}

/// Whether `b` may appear in a symbol.
pub open spec fn is_symbol_byte(b: u8) -> bool {
    (0x41 <= b && b <= 0x5a) || (0x30 <= b && b <= 0x39) || b == 0x2d || b == 0x5f || b == 0x2e
        || b == 0x2f
}

/// Whether `bytes` spell a symbol.
pub open spec fn is_symbol_text(bytes: Seq<u8>) -> bool {
    &&& 1 <= bytes.len() <= MAX_SYMBOL_LEN
    &&& forall|i: int| 0 <= i < bytes.len() ==> is_symbol_byte(#[trigger] bytes[i])
}

/// Big-endian base-256 value of `bytes`.
pub open spec fn pack(bytes: Seq<u8>) -> nat
    decreases bytes.len(),
{
    if bytes.len() == 0 {
        0
    } else {
        pack(bytes.drop_last()) * 256 + bytes.last() as nat
    }
}

/// The base-256 digits of `code`, most significant first, without leading zeros.
pub open spec fn unpack(code: nat) -> Seq<u8>
    decreases code,
{
    if code == 0 {
        Seq::empty()
    } else {
        unpack(code / 256).push((code % 256) as u8)
    }
}

/// 256 to the power `n`.
pub open spec fn pow256(n: nat) -> nat
    decreases n,
{
    if n == 0 {
        1
    } else {
        256 * pow256((n - 1) as nat)
    }
}

/// What parsing `bytes` gives: the symbol they spell, or why they spell none.
pub open spec fn parsed_symbol(bytes: Seq<u8>) -> Result<Symbol, SymbolError> {
    if bytes.len() == 0 {
        Err(SymbolError::Empty)
    } else if bytes.len() > MAX_SYMBOL_LEN {
        Err(SymbolError::TooLong)
    } else if !is_symbol_text(bytes) {
        Err(SymbolError::InvalidCharacter)
    } else {
        Ok(Symbol::with_code(pack(bytes) as u128))
    }
}

proof fn lemma_pack_bound(bytes: Seq<u8>)
    ensures
        pack(bytes) < pow256(bytes.len()),
    decreases bytes.len(),
{
    if bytes.len() > 0 {
        let rest = bytes.drop_last();
        lemma_pack_bound(rest);
        let p = pack(rest);
        let b = pow256(rest.len());
        assert(pack(bytes) == p * 256 + bytes.last());
        assert(pow256(bytes.len()) == 256 * b);
        assert(p * 256 + bytes.last() < 256 * b) by (nonlinear_arith)
            requires
                p < b,
                bytes.last() < 256,
        ;
    }
}

proof fn lemma_pow256_monotone(a: nat, b: nat)
    requires
        a <= b,
    ensures
        pow256(a) <= pow256(b),
    decreases b,
{
    if a < b {
        lemma_pow256_monotone(a, (b - 1) as nat);
    }
}

proof fn lemma_pow256_15()
    ensures
        pow256(15) == 0x100_0000_0000_0000_0000_0000_0000_0000,
{
    assert(pow256(0) == 1);
    assert(pow256(1) == 0x100);
    assert(pow256(2) == 0x1_0000);
    assert(pow256(3) == 0x100_0000);
    assert(pow256(4) == 0x1_0000_0000);
    assert(pow256(5) == 0x100_0000_0000);
    assert(pow256(6) == 0x1_0000_0000_0000);
    assert(pow256(7) == 0x100_0000_0000_0000);
    assert(pow256(8) == 0x1_0000_0000_0000_0000);
    assert(pow256(9) == 0x100_0000_0000_0000_0000);
    assert(pow256(10) == 0x1_0000_0000_0000_0000_0000);
    assert(pow256(11) == 0x100_0000_0000_0000_0000_0000);
    assert(pow256(12) == 0x1_0000_0000_0000_0000_0000_0000);
    assert(pow256(13) == 0x100_0000_0000_0000_0000_0000_0000);
    assert(pow256(14) == 0x1_0000_0000_0000_0000_0000_0000_0000);
    assert(pow256(15) == 0x100_0000_0000_0000_0000_0000_0000_0000);
}

/// Unpacking the packed value of bytes that are never zero gives those bytes back.
pub proof fn lemma_unpack_pack(bytes: Seq<u8>)
    requires
        forall|i: int| 0 <= i < bytes.len() ==> #[trigger] bytes[i] != 0,
    ensures
        unpack(pack(bytes)) == bytes,
    decreases bytes.len(),
{
    if bytes.len() > 0 {
        let rest = bytes.drop_last();
        assert forall|i: int| 0 <= i < rest.len() implies #[trigger] rest[i] != 0 by {
            assert(rest[i] == bytes[i]);
        }
        lemma_unpack_pack(rest);
        let p = pack(rest);
        let last = bytes.last();
        let c = pack(bytes);
        assert(c == p * 256 + last);
        assert(last != 0) by {
            assert(bytes[bytes.len() - 1] != 0);
        }
        assert(c / 256 == p && c % 256 == last) by (nonlinear_arith)
            requires
                c == p * 256 + last,
                0 <= last < 256,
        ;
        assert(c != 0);
        assert(unpack(c) == unpack(c / 256).push((c % 256) as u8));
        assert(bytes == rest.push(last));
    }
}

/// Two symbol texts pack to the same value only if they are the same text.
pub proof fn lemma_pack_injective(a: Seq<u8>, b: Seq<u8>)
    requires
        is_symbol_text(a),
        is_symbol_text(b),
        pack(a) == pack(b),
    ensures
        a == b,
{
    assert forall|i: int| 0 <= i < a.len() implies #[trigger] a[i] != 0 by {
        assert(is_symbol_byte(a[i]));
    }
    assert forall|i: int| 0 <= i < b.len() implies #[trigger] b[i] != 0 by {
        assert(is_symbol_byte(b[i]));
    }
    lemma_unpack_pack(a);
    lemma_unpack_pack(b);
}

impl Symbol {
    /// The packed value that identifies the symbol.
    pub closed spec fn code_spec(&self) -> u128 {
        self.code
    }

    /// The symbol whose packed value is `code`.
    pub closed spec fn with_code(code: u128) -> Symbol {
        Symbol { code }
    }

    /// The bytes of the symbol's text.
    pub open spec fn text(self) -> Seq<u8> {
        unpack(self.code_spec() as nat)
    }

    /// Whether the symbol holds the packed value of a symbol text.
    pub open spec fn valid(self) -> bool {
        is_symbol_text(self.text()) && pack(self.text()) == self.code_spec()
    }

    /// Every symbol holds the packed value of a symbol text.
    #[verifier::type_invariant]
    pub open spec fn packs_symbol_text(self) -> bool {
        self.valid()
    }

    /// The packed value that identifies the symbol.
    #[verifier::when_used_as_spec(code_spec)]
    pub fn code(&self) -> (r: u128)
        ensures
            r == self.code_spec(),
    {
        self.code
    }

    /// Parses a symbol from its text.
    pub fn parse(value: &str) -> (r: Result<Symbol, SymbolError>)
        ensures
            r == parsed_symbol(value.spec_bytes()),
            r matches Ok(symbol) ==> symbol.text() == value.spec_bytes() && symbol.valid(),
    {
        Self::parse_bytes(value.as_bytes())
    }

    /// Parses a symbol from the bytes of its text.
    pub(crate) fn parse_bytes(bytes: &[u8]) -> (r: Result<Symbol, SymbolError>)
        ensures
            r == parsed_symbol(bytes@),
            r matches Ok(symbol) ==> symbol.text() == bytes@ && symbol.valid(),
    {
        let n = bytes.len();
        if n == 0 {
            return Err(SymbolError::Empty);
        }
        if n > MAX_SYMBOL_LEN {
            return Err(SymbolError::TooLong);
        }
        let mut code: u128 = 0;
        let mut i: usize = 0;
        while i < n
            invariant
                n == bytes@.len(),
                1 <= n <= MAX_SYMBOL_LEN,
                0 <= i <= n,
                code == pack(bytes@.subrange(0, i as int)),
                forall|j: int| 0 <= j < i ==> is_symbol_byte(#[trigger] bytes@[j]),
            decreases n - i,
        {
            let b = bytes[i];
            let ok = (0x41 <= b && b <= 0x5a) || (0x30 <= b && b <= 0x39) || b == 0x2d || b
                == 0x2d || b == 0x5f || b == 0x2e || b == 0x2f;
            if !ok {
                proof {
                    assert(!is_symbol_byte(bytes@[i as int]));
                }
                return Err(SymbolError::InvalidCharacter);
            }
            proof {
                let pre = bytes@.subrange(0, i as int);
                let post = bytes@.subrange(0, i + 1);
                assert(post.drop_last() == pre);
                lemma_pack_bound(pre);
                lemma_pow256_monotone(pre.len(), 15);
                lemma_pow256_15();
                assert(code * 256 + b < 0x1_0000_0000_0000_0000_0000_0000_0000_0000) by (
                nonlinear_arith)
                    requires
                        code < 0x100_0000_0000_0000_0000_0000_0000_0000,
                        b < 256,
                ;
            }
            code = code * 256 + b as u128;
            i = i + 1;
        }
        proof {
            assert(bytes@.subrange(0, n as int) == bytes@);
            assert forall|j: int| 0 <= j < bytes@.len() implies #[trigger] bytes@[j] != 0 by {
                assert(is_symbol_byte(bytes@[j]));
            }
            lemma_unpack_pack(bytes@);
        }
        Ok(Symbol { code })
    }

    /// The symbol whose packed value is `code`, which packs a symbol text.
    pub(crate) fn from_code(code: u128) -> (r: Symbol)
        requires
            is_symbol_text(unpack(code as nat)),
            pack(unpack(code as nat)) == code,
        ensures
            r.code_spec() == code,
            r.valid(),
    {
        Symbol { code }
    }

    /// The symbol's text.
    pub fn to_text(&self) -> (r: String)
        ensures
            r@ == crate::text::ascii_chars(self.text()),
    {
        proof {
            use_type_invariant(self);
        }
        let bytes = self.to_bytes();
        proof {
            assert forall|i: int| 0 <= i < bytes@.len() implies #[trigger] bytes@[i] < 0x80 by {
                assert(is_symbol_byte(self.text()[i]));
            }
        }
        crate::text::ascii_string(bytes.as_slice())
    }

    /// The bytes of the symbol's text.
    pub fn to_bytes(&self) -> (r: Vec<u8>)
        ensures
            r@ == self.text(),
    {
        let mut digits: Vec<u8> = Vec::new();
        let mut rest: u128 = self.code;
        while rest > 0
            invariant
                unpack(self.code as nat) == unpack(rest as nat) + digits@.reverse(),
            decreases rest,
        {
            let d = (rest % 256) as u8;
            proof {
                assert(unpack(rest as nat) == unpack((rest / 256) as nat).push(d));
                assert(digits@.push(d).reverse() == seq![d] + digits@.reverse());
                assert(unpack((rest / 256) as nat).push(d) + digits@.reverse() == unpack(
                    (rest / 256) as nat,
                ) + (seq![d] + digits@.reverse()));
            }
            digits.push(d);
            rest = rest / 256;
        }
        proof {
            assert(unpack(0) == Seq::<u8>::empty());
            assert(unpack(self.code as nat) == digits@.reverse());
        }
        let mut out: Vec<u8> = Vec::new();
        let mut k: usize = digits.len();
        while k > 0
            invariant
                k <= digits.len(),
                out@ == digits@.reverse().subrange(0, (digits.len() - k) as int),
            decreases k,
        {
            k = k - 1;
            proof {
                assert(digits@.reverse().subrange(0, (digits.len() - k) as int) == digits@.reverse().subrange(
                    0,
                    (digits.len() - k - 1) as int,
                ).push(digits@[k as int]));
            }
            out.push(digits[k]);
        }
        proof {
            assert(out@ == digits@.reverse());
        }
        out
    }
}

} // verus!
