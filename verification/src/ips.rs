//! IPv4 address blocks in `address/prefix` notation.
//!
//! Everything here works on the bytes of a string. Parsing is lenient: a
//! malformed address or prefix never fails, it degrades to a default.

use vstd::prelude::*;
use vstd::slice::slice_subrange;
use vstd::string::*;

verus! {

/// The byte `.`, which separates the octets of an address.
pub const DOT: u8 = 46;

/// The byte `/`, which separates the address of a block from its prefix length.
pub const SLASH: u8 = 47;

/// The byte `+`, the only sign a decimal number may carry.
pub const PLUS: u8 = 43;

/// The index of the first `sep` at or after `start`, or the length of `s`
/// when there is none.
pub open spec fn token_end(s: Seq<u8>, sep: u8, start: int) -> int
    decreases s.len() - start,
{
    if start < 0 || start >= s.len() {
        s.len() as int
    } else if s[start] == sep {
        start
    } else {
        token_end(s, sep, start + 1)
    }
}

/// Where the token after the one at `pos` starts: behind the separator that
/// ends it, if one does.
pub open spec fn next_start(s: Seq<u8>, sep: u8, pos: Option<int>) -> Option<int> {
    match pos {
        Some(p) => {
            let e = token_end(s, sep, p);
            if e < s.len() {
                Some(e + 1)
            } else {
                None
            }
        },
        None => None,
    }
}

/// Where the `k`-th token of `s` starts, when `s` is split at every `sep`.
/// `None` when `s` has `k` tokens or fewer.
pub open spec fn token_start(s: Seq<u8>, sep: u8, k: nat) -> Option<int>
    decreases k,
{
    if k == 0 {
        Some(0)
    } else {
        next_start(s, sep, token_start(s, sep, (k - 1) as nat))
    }
}

/// The token that starts at `pos`.
pub open spec fn token_at(s: Seq<u8>, sep: u8, pos: Option<int>) -> Option<Seq<u8>> {
    match pos {
        Some(p) => Some(s.subrange(p, token_end(s, sep, p))),
        None => None,
    }
}

/// The `k`-th token of `s`, counted from zero, when `s` is split at every
/// `sep`. A string without separator is its own token number zero.
pub open spec fn token(s: Seq<u8>, sep: u8, k: nat) -> Option<Seq<u8>> {
    token_at(s, sep, token_start(s, sep, k))
}

/// Whether the byte is one of the ASCII digits `0` to `9`.
pub open spec fn is_digit(b: u8) -> bool {
    48 <= b <= 57
}

/// Whether every byte is an ASCII digit.
pub open spec fn all_digits(d: Seq<u8>) -> bool {
    forall|i: int| 0 <= i < d.len() ==> is_digit(#[trigger] d[i])
}

/// The number that a sequence of decimal digits denotes.
pub open spec fn digits_value(d: Seq<u8>) -> nat
    decreases d.len(),
{
    if d.len() == 0 {
        0
    } else {
        digits_value(d.drop_last()) * 10 + (d.last() - 48) as nat
    }
}

/// A number's digits: the token without its one optional leading `+`.
pub open spec fn unsigned_digits(t: Seq<u8>) -> Seq<u8> {
    if t.len() > 0 && t[0] == PLUS {
        t.skip(1)
    } else {
        t
    }
}

/// What a token denotes as an unsigned 8-bit decimal number: an optional
/// `+`, then one or more ASCII digits (leading zeros allowed) whose value is
/// at most 255. Anything else (an empty token, white space, a `-`, a value
/// out of range) denotes nothing.
pub open spec fn decimal_u8(t: Seq<u8>) -> Option<u8> {
    let d = unsigned_digits(t);
    if d.len() > 0 && all_digits(d) && digits_value(d) <= 255 {
        Some(digits_value(d) as u8)
    } else {
        None
    }
}

/// The octet that the token at `pos` stands for: its value, or zero when
/// there is no such token or it is no number up to 255.
pub open spec fn octet_at(s: Seq<u8>, pos: Option<int>) -> u8 {
    match token_at(s, DOT, pos) {
        Some(t) => match decimal_u8(t) {
            Some(v) => v,
            None => 0,
        },
        None => 0,
    }
}

/// The `k`-th octet of a dotted-quad address.
pub open spec fn octet(s: Seq<u8>, k: nat) -> u8 {
    octet_at(s, token_start(s, DOT, k))
}

/// The 32-bit address that a dotted-quad string denotes, the first octet in
/// the highest byte. Only the first four tokens count, and a token that is
/// missing or malformed counts as zero.
pub open spec fn address_of(s: Seq<u8>) -> u32 {
    (octet(s, 0) * 0x100_0000 + octet(s, 1) * 0x1_0000 + octet(s, 2) * 0x100 + octet(s, 3)) as u32
}

/// The network mask with the `prefix` highest bits set.
pub open spec fn prefix_mask(prefix: nat) -> u32 {
    if prefix == 0 {
        0u32
    } else if prefix >= 32 {
        0xffff_ffffu32
    } else {
        (0xffff_ffffu32 >> ((32 - prefix) as u32)) << ((32 - prefix) as u32)
    }
}

/// The prefix length that a block is written with: the number between the first
/// and the second `/`, or 32 when it is missing, malformed or above 32.
pub open spec fn block_prefix(s: Seq<u8>) -> nat {
    match token(s, SLASH, 1) {
        Some(t) => match decimal_u8(t) {
            Some(p) => if p <= 32 {
                p as nat
            } else {
                32
            },
            None => 32,
        },
        None => 32,
    }
}

/// The address that a block is written with: what stands before the first `/`.
pub open spec fn block_address(s: Seq<u8>) -> u32 {
    address_of(s.subrange(0, token_end(s, SLASH, 0)))
}

/// Whether the address written in `ip` lies in the block written in `block`.
pub open spec fn block_matches(block: Seq<u8>, ip: Seq<u8>) -> bool {
    let mask = prefix_mask(block_prefix(block));
    (address_of(ip) & mask) == (block_address(block) & mask)
}

/// A token ends within the string, at a separator or at the end of the
/// string, and holds no separator.
pub proof fn lemma_token_end_bounds(s: Seq<u8>, sep: u8, start: int)
    requires
        0 <= start <= s.len(),
    ensures
        start <= token_end(s, sep, start) <= s.len(),
        token_end(s, sep, start) < s.len() ==> s[token_end(s, sep, start)] == sep,
        forall|i: int| start <= i < token_end(s, sep, start) ==> s[i] != sep,
    decreases s.len() - start,
{
    if start < s.len() && s[start] != sep {
        lemma_token_end_bounds(s, sep, start + 1);
    }
}

/// Reading more digits never makes the number smaller.
proof fn lemma_digits_prefix(d: Seq<u8>, k: int)
    requires
        all_digits(d),
        0 <= k <= d.len(),
    ensures
        digits_value(d.take(k)) <= digits_value(d),
    decreases d.len(),
{
    if k == d.len() {
        assert(d.take(k) =~= d);
    } else {
        assert(is_digit(d.last()));
        assert(d.drop_last().take(k) =~= d.take(k));
        lemma_digits_prefix(d.drop_last(), k);
    }
}

fn scan_token(bytes: &[u8], sep: u8, start: usize) -> (end: usize)
    requires
        start <= bytes@.len(),
    ensures
        end == token_end(bytes@, sep, start as int),
        start <= end <= bytes@.len(),
{
    let n: usize = bytes.len();
    let mut i: usize = start;
    while i < n && bytes[i] != sep
        invariant
            n == bytes@.len(),
            start <= i <= n,
            token_end(bytes@, sep, start as int) == token_end(bytes@, sep, i as int),
        decreases n - i,
    {
        i = i + 1;
    }
    i
}

fn parse_octet(t: &[u8]) -> (res: Option<u8>)
    ensures
        res == decimal_u8(t@),
{
    let n: usize = t.len();
    let first: usize = if n > 0 && t[0] == PLUS {
        1
    } else {
        0
    };
    if first == n {
        return None;
    }
    let ghost d: Seq<u8> = unsigned_digits(t@);
    assert(d =~= t@.skip(first as int));
    let mut i: usize = first;
    let mut acc: u32 = 0;
    while i < n
        invariant
            n == t@.len(),
            first <= i <= n,
            d == t@.skip(first as int),
            d == unsigned_digits(t@),
            all_digits(d.take(i - first)),
            acc == digits_value(d.take(i - first)),
            acc <= 255,
        decreases n - i,
    {
        let b: u8 = t[i];
        if b < 48 || b > 57 {
            assert(!is_digit(d[i - first]));
            return None;
        }
        let next: u32 = acc * 10 + (b - 48) as u32;
        proof {
            let longer: Seq<u8> = d.take(i + 1 - first);
            assert(longer.drop_last() =~= d.take(i - first));
            assert(longer.last() == b);
            assert(all_digits(longer)) by {
                assert forall|j: int| 0 <= j < longer.len() implies is_digit(
                    #[trigger] longer[j],
                ) by {
                    if j < i - first {
                        assert(longer[j] == d.take(i - first)[j]);
                    }
                }
            }
            assert(next == digits_value(longer));
        }
        if next > 255 {
            proof {
                if all_digits(d) {
                    lemma_digits_prefix(d, i + 1 - first);
                }
            }
            return None;
        }
        acc = next;
        i = i + 1;
    }
    assert(d.take(n - first) =~= d);
    Some(acc as u8)
}

spec fn as_position(pos: Option<usize>) -> Option<int> {
    match pos {
        Some(p) => Some(p as int),
        None => None,
    }
}

/// Reads the octet of the token at `pos` and finds where the next one starts.
fn read_octet(bytes: &[u8], pos: Option<usize>) -> (r: (u8, Option<usize>))
    requires
        pos matches Some(p) ==> p <= bytes@.len(),
    ensures
        r.0 == octet_at(bytes@, as_position(pos)),
        as_position(r.1) == next_start(bytes@, DOT, as_position(pos)),
        r.1 matches Some(p) ==> p <= bytes@.len(),
{
    match pos {
        Some(p) => {
            let e: usize = scan_token(bytes, DOT, p);
            let value: u8 = match parse_octet(slice_subrange(bytes, p, e)) {
                Some(v) => v,
                None => 0,
            };
            let next: Option<usize> = if e < bytes.len() {
                Some(e + 1)
            } else {
                None
            };
            (value, next)
        },
        None => (0, None),
    }
}

fn parse_address(bytes: &[u8]) -> (a: u32)
    ensures
        a == address_of(bytes@),
{
    let (o0, p1) = read_octet(bytes, Some(0));
    let (o1, p2) = read_octet(bytes, p1);
    let (o2, p3) = read_octet(bytes, p2);
    let (o3, _p4) = read_octet(bytes, p3);
    proof {
        reveal_with_fuel(token_start, 4);
    }
    ((o0 as u32 * 256 + o1 as u32) * 256 + o2 as u32) * 256 + o3 as u32
}

fn mask_of(prefix: u8) -> (mask: u32)
    requires
        prefix <= 32,
    ensures
        mask == prefix_mask(prefix as nat),
{
    if prefix == 0 {
        0
    } else if prefix == 32 {
        0xffff_ffff
    } else {
        let bits: u32 = 32 - prefix as u32;
        (0xffff_ffffu32 >> bits) << bits
    }
}

/// A block of IPv4 addresses: those that agree with a network address on the
/// bits of a mask.
pub struct IpBlock {
    netmask: u32,
    network: u32,
}

impl IpBlock {
    /// The mask of the block.
    pub closed spec fn mask(&self) -> u32 {
        self.netmask
    }

    /// The network address of the block, already masked.
    pub closed spec fn net(&self) -> u32 {
        self.network
    }

    /// The address that a dotted-quad string denotes.
    pub fn parse(ip: &str) -> (a: u32)
        ensures
            a == address_of(ip.spec_bytes()),
    {
        parse_address(ip.as_bytes())
    }

    /// The block that `address/prefix` denotes. Without a usable prefix
    /// length the block is the one address.
    pub fn new(range: &str) -> (b: Self)
        ensures
            b.mask() == prefix_mask(block_prefix(range.spec_bytes())),
            b.net() == block_address(range.spec_bytes()) & b.mask(),
    {
        let bytes = range.as_bytes();
        let n: usize = bytes.len();
        let e0: usize = scan_token(bytes, SLASH, 0);
        let ip: u32 = parse_address(slice_subrange(bytes, 0, e0));
        let prefix: u8 = if e0 < n {
            let e1: usize = scan_token(bytes, SLASH, e0 + 1);
            match parse_octet(slice_subrange(bytes, e0 + 1, e1)) {
                Some(p) => if p <= 32 {
                    p
                } else {
                    32
                },
                None => 32,
            }
        } else {
            32
        };
        proof {
            reveal_with_fuel(token_start, 2);
        }
        let netmask: u32 = mask_of(prefix);
        IpBlock { netmask, network: ip & netmask }
    }

    /// Whether the address written in `ip` lies in the block.
    pub fn matches(&self, ip: &str) -> (m: bool)
        ensures
            m == ((address_of(ip.spec_bytes()) & self.mask()) == self.net()),
    {
        let ip: u32 = Self::parse(ip);
        (ip & self.netmask) == self.network
    }
}

/// Two addresses agree under the mask of a prefix length exactly when they
/// agree on their `prefix` highest bits. A prefix length of zero masks
/// every bit away.
pub proof fn lemma_mask_compares_high_bits(a: u32, b: u32, prefix: nat)
    requires
        prefix <= 32,
    ensures
        ((a & prefix_mask(prefix)) == (b & prefix_mask(prefix))) <==> (prefix == 0 || (a >> ((32
            - prefix) as u32)) == (b >> ((32 - prefix) as u32))),
{
    let m: u32 = prefix_mask(prefix);
    let low: u32 = (32 - prefix) as u32;
    if prefix == 0 {
        assert(a & 0u32 == b & 0u32) by (bit_vector);
    } else if prefix == 32 {
        assert(a & 0xffff_ffffu32 == a) by (bit_vector);
        assert(b & 0xffff_ffffu32 == b) by (bit_vector);
        assert(a >> 0u32 == a) by (bit_vector);
        assert(b >> 0u32 == b) by (bit_vector);
    } else {
        assert(((a & ((0xffff_ffffu32 >> low) << low)) == (b & ((0xffff_ffffu32 >> low) << low)))
            <==> ((a >> low) == (b >> low))) by (bit_vector)
            requires
                0 < low < 32,
        ;
    }
}

/// A block with prefix length 32 holds its own address and no other.
pub proof fn lemma_host_route_matches_itself_only(block: Seq<u8>, ip: Seq<u8>)
    requires
        block_prefix(block) == 32,
    ensures
        block_matches(block, ip) <==> address_of(ip) == block_address(block),
{
    let a: u32 = address_of(ip);
    let b: u32 = block_address(block);
    assert(a & 0xffff_ffffu32 == a) by (bit_vector);
    assert(b & 0xffff_ffffu32 == b) by (bit_vector);
}

/// An address lies in a block exactly when it agrees with the block's
/// address on the bits that the prefix length covers.
pub proof fn lemma_block_matches_high_bits(block: Seq<u8>, ip: Seq<u8>)
    ensures
        block_prefix(block) <= 32,
        block_matches(block, ip) <==> (block_prefix(block) == 0 || (address_of(ip) >> ((32
            - block_prefix(block)) as u32)) == (block_address(block) >> ((32 - block_prefix(
            block,
        )) as u32))),
{
    lemma_mask_compares_high_bits(address_of(ip), block_address(block), block_prefix(block));
}

/// Masking twice is masking once: the network address of a block is its
/// own network address.
pub proof fn lemma_mask_idempotent(a: u32, prefix: nat)
    requires
        prefix <= 32,
    ensures
        (a & prefix_mask(prefix)) & prefix_mask(prefix) == a & prefix_mask(prefix),
{
    let m: u32 = prefix_mask(prefix);
    assert((a & m) & m == a & m) by (bit_vector);
}

} // verus!
