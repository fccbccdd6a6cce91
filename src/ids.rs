//! Identities of catalog entities, content-derived or numbered.
use vstd::prelude::*;
use vstd::string::*;
use vstd::utf8::encode_utf8;
use vstd::arithmetic::power::pow;
use vstd::arithmetic::div_mod::lemma_div_denominator;
use crate::text::push_char;

verus! {

/// The MD5 digest of `bytes`, its sixteen bytes read as one big-endian number.
pub uninterp spec fn md5_of(bytes: Seq<u8>) -> u128;

/// Relies on `md5::compute`: the digest depends on the bytes alone.
#[verifier::external_body]
fn md5_digest(bytes: &[u8]) -> (r: u128)
    ensures
        r == md5_of(bytes@),
{
    u128::from_be_bytes(md5::compute(bytes).0)
}

/// The identity of a catalog entity: a digest of the data it was derived
/// from, a number handed out in order, or none.
#[derive(Clone, Copy, Debug, PartialEq, Eq, Structural)]
pub enum Id {
    Digest(u128),
    Number(u64),
    Unresolved,
}

/// The UTF-8 bytes of a string.
pub fn bytes_of(s: &str) -> (r: Vec<u8>)
    ensures
        r@ == s.spec_bytes(),
{
    let b = s.as_bytes();
    let mut out: Vec<u8> = Vec::new();
    let mut i: usize = 0;
    while i < b.len()
        invariant
            b@ == s.spec_bytes(),
            i <= b@.len(),
            out@ == b@.take(i as int),
        decreases b@.len() - i,
    {
        out.push(b[i]);
        assert(out@ =~= b@.take(i + 1));
        i = i + 1;
    }
    assert(b@.take(b@.len() as int) =~= b@);
    out
}

/// Hands out numbered identities, one higher each time.
pub struct IdStore {
    pub current: u64,
}

impl IdStore {
    pub fn new() -> (r: IdStore)
        ensures
            r.current == 0,
    {
        IdStore { current: 0 }
    }

    /// The next number, or `Unresolved` once every number is taken.
    pub fn next(&mut self) -> (r: Id)
        ensures
            old(self).current < u64::MAX ==> final(self).current == old(self).current + 1 && r
                == Id::Number((old(self).current + 1) as u64),
            old(self).current == u64::MAX ==> final(self).current == old(self).current && r
                == Id::Unresolved,
    {
        if self.current < u64::MAX {
            self.current = self.current + 1;
            Id::Number(self.current)
        } else {
            Id::Unresolved
        }
    }

    /// The identity derived from `data`: its MD5 digest.
    pub fn digest(&self, data: &[u8]) -> (r: Id)
        ensures
            r == Id::Digest(md5_of(data@)),
    {
        Id::Digest(md5_digest(data))
    }
}

/// The lower-case hexadecimal digit of `d` (below 16).
pub open spec fn hex_char(d: int) -> char {
    if d == 0 {
        '0'
    } else if d == 1 {
        '1'
    } else if d == 2 {
        '2'
    } else if d == 3 {
        '3'
    } else if d == 4 {
        '4'
    } else if d == 5 {
        '5'
    } else if d == 6 {
        '6'
    } else if d == 7 {
        '7'
    } else if d == 8 {
        '8'
    } else if d == 9 {
        '9'
    } else if d == 10 {
        'a'
    } else if d == 11 {
        'b'
    } else if d == 12 {
        'c'
    } else if d == 13 {
        'd'
    } else if d == 14 {
        'e'
    } else {
        'f'
    }
}

/// The lower-case hexadecimal digit of `d` (below 16).
fn hex_digit(d: u128) -> (c: char)
    requires
        d < 16,
    ensures
        c == hex_char(d as int),
{
    if d == 0 {
        '0'
    } else if d == 1 {
        '1'
    } else if d == 2 {
        '2'
    } else if d == 3 {
        '3'
    } else if d == 4 {
        '4'
    } else if d == 5 {
        '5'
    } else if d == 6 {
        '6'
    } else if d == 7 {
        '7'
    } else if d == 8 {
        '8'
    } else if d == 9 {
        '9'
    } else if d == 10 {
        'a'
    } else if d == 11 {
        'b'
    } else if d == 12 {
        'c'
    } else if d == 13 {
        'd'
    } else if d == 14 {
        'e'
    } else {
        'f'
    }
}

/// The 32 lower-case hexadecimal digits of `x`, most significant first.
pub open spec fn hex_of(x: u128) -> Seq<char> {
    Seq::new(32, |j: int| hex_char((x as int / pow(16, (31 - j) as nat)) % 16))
}

/// The 32 lower-case hexadecimal digits of `x`, most significant first.
pub fn hex_digits(x: u128) -> (r: String)
    ensures
        r@ == hex_of(x),
{
    let mut rev: Vec<char> = Vec::new();
    let mut v: u128 = x;
    let mut k: usize = 0;
    proof {
        reveal(pow);
        assert(pow(16, 0) == 1);
    }
    while k < 32
        invariant
            k <= 32,
            rev@.len() == k,
            v as int == x as int / pow(16, k as nat),
            forall|i: int| 0 <= i < k ==> #[trigger] rev@[i] == hex_char((x as int / pow(16, i as nat)) % 16),
        decreases 32 - k,
    {
        let ch = hex_digit(v % 16);
        proof {
            reveal(pow);
            vstd::arithmetic::power::lemma_pow_positive(16, k as nat);
            lemma_div_denominator(x as int, pow(16, k as nat), 16);
            assert(pow(16, (k + 1) as nat) == 16 * pow(16, k as nat));
            assert(pow(16, k as nat) * 16 == pow(16, (k + 1) as nat));
        }
        rev.push(ch);
        v = v / 16;
        k = k + 1;
    }
    let mut out = String::new();
    let mut j: usize = 0;
    while j < 32
        invariant
            j <= 32,
            rev@.len() == 32,
            out@.len() == j,
            forall|i: int| 0 <= i < j ==> #[trigger] out@[i] == rev@[31 - i],
            forall|i: int| 0 <= i < 32 ==> #[trigger] rev@[i] == hex_char((x as int / pow(16, i as nat)) % 16),
        decreases 32 - j,
    {
        push_char(&mut out, rev[31 - j]);
        j = j + 1;
    }
    assert(out@ =~= hex_of(x));
    out
}

/// The identity of the song stored at `path`.
pub open spec fn song_id_of(path: Seq<char>) -> Id {
    Id::Digest(md5_of(encode_utf8(path)))
}

} // verus!
