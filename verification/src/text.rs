//! Numbers and ASCII bytes as text.

use vstd::prelude::*;
use vstd::string::StringExecFns;

verus! {

/// The decimal digits of `n`, most significant first, as text.
pub open spec fn decimal_text(n: nat) -> Seq<char>
    decreases n,
{
    if n < 10 {
        seq![(n + 0x30) as char]
    } else {
        decimal_text(n / 10).push(((n % 10) + 0x30) as char)
    }
}

/// The characters with the values of `bytes`.
pub open spec fn ascii_chars(bytes: Seq<u8>) -> Seq<char> {
    bytes.map_values(|b: u8| b as char)
}

/// The one-character text of the decimal digit `d`.
fn digit_text(d: u64) -> (r: String)
    requires
        d < 10,
    ensures
        r@ == seq![(d + 0x30) as char],
{
    match d {
        0 => {
            proof {
                reveal_strlit("0");
            }
            "0".to_string()
        },
        1 => {
            proof {
                reveal_strlit("1");
            }
            "1".to_string()
        },
        2 => {
            proof {
                reveal_strlit("2");
            }
            "2".to_string()
        },
        3 => {
            proof {
                reveal_strlit("3");
            }
            "3".to_string()
        },
        4 => {
            proof {
                reveal_strlit("4");
            }
            "4".to_string()
        },
        5 => {
            proof {
                reveal_strlit("5");
            }
            "5".to_string()
        },
        6 => {
            proof {
                reveal_strlit("6");
            }
            "6".to_string()
        },
        7 => {
            proof {
                reveal_strlit("7");
            }
            "7".to_string()
        },
        8 => {
            proof {
                reveal_strlit("8");
            }
            "8".to_string()
        },
        _ => {
            proof {
                reveal_strlit("9");
            }
            "9".to_string()
        },
    }
}

/// The decimal representation of `n`: its digits, most significant first, with no
/// sign, padding or leading zeros.
pub fn u64_text(n: u64) -> (r: String)
    ensures
        r@ == decimal_text(n as nat),
    decreases n,
{
    if n < 10 {
        digit_text(n)
    } else {
        let mut text = u64_text(n / 10);
        let last = digit_text(n % 10);
        text.append(last.as_str());
        text
    }
}

/// The decimal representation of `n`: its digits, most significant first, with no
/// sign, padding or leading zeros.
pub fn usize_text(n: usize) -> (r: String)
    ensures
        r@ == decimal_text(n as nat),
{
    u64_text(n as u64)
}

/// `String::from_utf8_lossy` on ASCII bytes, made an owned `String`. Claimed: every
/// byte becomes the character of the same value, since UTF-8 encodes ASCII byte for
/// byte and nothing is replaced.
#[verifier::external_body]
pub(crate) fn ascii_string(bytes: &[u8]) -> (r: String)
    requires
        forall|i: int| 0 <= i < bytes@.len() ==> #[trigger] bytes@[i] < 0x80,
    ensures
        r@ == ascii_chars(bytes@),
{
    String::from_utf8_lossy(bytes).into_owned()
}

} // verus!
