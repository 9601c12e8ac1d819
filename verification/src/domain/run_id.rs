//! Run identifiers.

use crate::text;
use uuid::Uuid;
use vstd::prelude::*;

verus! {

/// The identifier of a run: the 128 bits of a UUID.
#[derive(Debug, Clone, Copy, PartialEq, Eq, Hash, PartialOrd, Ord, Structural)]
pub struct RunId(pub u128);

/// The lowercase hexadecimal digit of a value below sixteen.
pub open spec fn hex_digit(n: nat) -> char {
    if n < 10 {
        (48 + n) as u8 as char
    } else {
        (87 + n) as u8 as char
    }
}

/// The last `count` hexadecimal digits of a number, the most significant
/// first.
pub open spec fn hex(n: nat, count: nat) -> Seq<char>
    decreases count,
{
    if count == 0 {
        Seq::empty()
    } else {
        hex(n / 16, (count - 1) as nat).push(hex_digit(n % 16))
    }
}

/// There are as many digits as asked for.
proof fn lemma_hex_len(n: nat, count: nat)
    ensures
        hex(n, count).len() == count,
    decreases count,
{
    if count > 0 {
        lemma_hex_len(n / 16, (count - 1) as nat);
    }
}

impl RunId {
    /// The identifier of no run.
    pub fn nil() -> (r: Self)
        ensures
            r == RunId(0),
    {
        RunId(0)
    }

    /// The identifier as 32 hexadecimal digits.
    pub fn simple(self) -> (r: String)
        ensures
            r@ == hex(self.0 as nat, 32),
    {
        simple_text(self.0)
    }

    /// The identifier in groups of 8, 4, 4, 4 and 12 hexadecimal digits.
    pub open spec fn hyphenated_text(self) -> Seq<char> {
        let h = hex(self.0 as nat, 32);
        h.subrange(0, 8) + seq!['-'] + h.subrange(8, 12) + seq!['-'] + h.subrange(12, 16) + seq!['-']
            + h.subrange(16, 20) + seq!['-'] + h.subrange(20, 32)
    }

    /// The identifier in groups of 8, 4, 4, 4 and 12 hexadecimal digits.
    pub fn hyphenated(self) -> (r: String)
        ensures
            r@ == self.hyphenated_text(),
    {
        let h = text::to_chars(&self.simple());
        proof {
            lemma_hex_len(self.0 as nat, 32);
        }
        let mut out = text::slice_of(&h, 0, 8);
        out.push('-');
        text::push_chars(&mut out, &text::slice_of(&h, 8, 12));
        out.push('-');
        text::push_chars(&mut out, &text::slice_of(&h, 12, 16));
        out.push('-');
        text::push_chars(&mut out, &text::slice_of(&h, 16, 20));
        out.push('-');
        text::push_chars(&mut out, &text::slice_of(&h, 20, 32));
        proof {
            assert(out@ =~= self.hyphenated_text());
        }
        text::to_text(&out)
    }

    /// A new identifier.
    pub fn fresh() -> RunId {
        RunId(random_id())
    }
}

/// Calls `Uuid::new_v4`. The bits are random, so nothing is claimed of them.
#[verifier::external_body]
fn random_id() -> u128 {
    Uuid::new_v4().as_u128()
}

/// Formats with `Uuid::simple`, which writes the 128 bits as 32 lowercase
/// hexadecimal digits, the most significant first.
#[verifier::external_body]
fn simple_text(id: u128) -> (r: String)
    ensures
        r@ == hex(id as nat, 32),
{
    Uuid::from_u128(id).simple().to_string()
}

} // verus!
