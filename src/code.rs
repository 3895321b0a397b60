//! Proof codes: `"{company id}-{random segment}-{sequence number}"`.

use vstd::prelude::*;
use crate::text::{
    decimal, is_digit, lemma_decimal_digits, lemma_decimal_injective, push_decimal, string_of_chars,
};

verus! {

/// Number of symbols in the random segment of a proof code.
pub const SEGMENT_LEN: usize = 10;

/// Number of symbols in the code alphabet.
pub const ALPHABET_LEN: u64 = 57;

/// Letters and digits, without the look-alikes `0`, `O`, `1`, `I` and `l`.
pub open spec fn alphabet() -> Seq<char> {
    "ABCDEFGHJKLMNPQRSTUVWXYZabcdefghijkmnopqrstuvwxyz23456789"@
}

/// The segment symbol that the random byte `b` selects.
pub open spec fn symbol_of(b: u8) -> char {
    alphabet()[(b as int) % (ALPHABET_LEN as int)]
}

/// The random segment drawn from the first `SEGMENT_LEN` bytes of `bytes`.
pub open spec fn segment_of(bytes: Seq<u8>) -> Seq<char> {
    Seq::new(SEGMENT_LEN as nat, |i: int| symbol_of(bytes[i]))
}

/// The text of the code for a company, a random segment and a sequence number.
pub open spec fn code_text(company_id: u64, segment: Seq<char>, sequence: u64) -> Seq<char> {
    decimal(company_id as nat) + seq!['-'] + segment + seq!['-'] + decimal(sequence as nat)
}

/// A code text determines its company and its sequence number, whatever
/// its segments, as long as they have one length.
pub proof fn lemma_code_text_injective(
    c1: u64,
    g1: Seq<char>,
    s1: u64,
    c2: u64,
    g2: Seq<char>,
    s2: u64,
)
    requires
        g1.len() == g2.len(),
        code_text(c1, g1, s1) == code_text(c2, g2, s2),
    ensures
        c1 == c2,
        s1 == s2,
{
    let a = decimal(c1 as nat);
    let b = decimal(c2 as nat);
    let x = code_text(c1, g1, s1);
    lemma_decimal_digits(c1 as nat);
    lemma_decimal_digits(c2 as nat);
    assert(x[a.len() as int] == '-');
    assert(x[b.len() as int] == '-');
    if a.len() < b.len() {
        assert(x[a.len() as int] == b[a.len() as int]);
        assert(is_digit(b[a.len() as int]));
    } else if b.len() < a.len() {
        assert(x[b.len() as int] == a[b.len() as int]);
        assert(is_digit(a[b.len() as int]));
    }
    assert(a.len() == b.len());
    assert(a =~= x.subrange(0, a.len() as int));
    assert(b =~= x.subrange(0, b.len() as int));
    lemma_decimal_injective(c1 as nat, c2 as nat);
    let start = a.len() + 1 + g1.len() + 1;
    assert(decimal(s1 as nat) =~= x.subrange(start as int, x.len() as int));
    assert(decimal(s2 as nat) =~= x.subrange(start as int, x.len() as int));
    lemma_decimal_injective(s1 as nat, s2 as nat);
}

/// Draws the random segment of a code from a buffer of secure random bytes.
/// A buffer shorter than the segment cannot give it, and the draw fails:
/// there is no fallback to a weaker source.
pub fn generate_random_code(random_bytes: &Vec<u8>) -> (r: Option<Vec<char>>)
    ensures
        random_bytes@.len() < SEGMENT_LEN ==> r is None,
        random_bytes@.len() >= SEGMENT_LEN ==> (r matches Some(s) && s@ == segment_of(
            random_bytes@,
        )),
{
    if random_bytes.len() < SEGMENT_LEN {
        return None;
    }
    let symbols = "ABCDEFGHJKLMNPQRSTUVWXYZabcdefghijkmnopqrstuvwxyz23456789";
    proof {
        reveal_strlit("ABCDEFGHJKLMNPQRSTUVWXYZabcdefghijkmnopqrstuvwxyz23456789");
    }
    let mut out: Vec<char> = Vec::new();
    let mut i: usize = 0;
    while i < SEGMENT_LEN
        invariant
            i <= SEGMENT_LEN,
            random_bytes@.len() >= SEGMENT_LEN,
            symbols@ == alphabet(),
            alphabet().len() == ALPHABET_LEN,
            out@.len() == i,
            forall|k: int| 0 <= k < i ==> out@[k] == symbol_of(#[trigger] random_bytes@[k]),
        decreases SEGMENT_LEN - i,
    {
        let k = (random_bytes[i] as u64) % ALPHABET_LEN;
        out.push(symbols.get_char(k as usize));
        i = i + 1;
    }
    assert(out@ =~= segment_of(random_bytes@));
    Some(out)
}

/// Builds the code text from a company, a random segment and a sequence number.
pub fn mint_code(company_id: u64, segment: &Vec<char>, sequence: u64) -> (r: String)
    ensures
        r@ == code_text(company_id, segment@, sequence),
{
    let mut out: Vec<char> = Vec::new();
    push_decimal(company_id, &mut out);
    out.push('-');
    let mut i: usize = 0;
    while i < segment.len()
        invariant
            i <= segment@.len(),
            out@ == decimal(company_id as nat) + seq!['-'] + segment@.subrange(0, i as int),
        decreases segment@.len() - i,
    {
        out.push(segment[i]);
        i = i + 1;
        assert(out@ =~= decimal(company_id as nat) + seq!['-'] + segment@.subrange(0, i as int));
    }
    assert(segment@.subrange(0, segment@.len() as int) =~= segment@);
    out.push('-');
    push_decimal(sequence, &mut out);
    assert(out@ =~= code_text(company_id, segment@, sequence));
    string_of_chars(&out)
}

} // verus!
