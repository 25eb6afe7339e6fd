//! The canonical byte encoding: fixed-width little-endian integers,
//! length-prefixed strings, one-byte option tags and raw fixed-size byte
//! strings. Hashes and wire payloads are computed over these bytes.

use vstd::prelude::*;

verus! {

/// The `n` low-order base-256 digits of `x`, least significant first.
pub open spec fn le_bytes(x: nat, n: nat) -> Seq<u8>
    decreases n,
{
    if n == 0 {
        Seq::empty()
    } else {
        seq![(x % 256) as u8] + le_bytes(x / 256, (n - 1) as nat)
    }
}

/// The number whose base-256 digits, least significant first, are `bytes`.
pub open spec fn le_value(bytes: Seq<u8>) -> nat
    decreases bytes.len(),
{
    if bytes.len() == 0 {
        0
    } else {
        bytes[0] as nat + 256 * le_value(bytes.drop_first())
    }
}

/// 256 to the power `n`.
pub open spec fn pow256(n: nat) -> nat
    decreases n,
{
    if n == 0 {
        1
    } else {
        256 * pow256((n - 1) as nat)
    }
}

/// `p` stands at the start of `s`.
pub open spec fn is_prefix(p: Seq<u8>, s: Seq<u8>) -> bool {
    p.len() <= s.len() && s.subrange(0, p.len() as int) == p
}

/// The array whose first `k` places hold the first `k` of `bytes`, and
/// whose other places hold zero.
pub open spec fn filled<const N: usize>(bytes: Seq<u8>, k: nat) -> [u8; N]
    decreases k,
{
    if k == 0 {
        vstd::array::spec_array_fill_for_copy_type::<u8, N>(0u8)
    } else {
        vstd::array::spec_array_update(filled::<N>(bytes, (k - 1) as nat), k - 1, bytes[k - 1])
    }
}

/// The array that holds `bytes`.
pub open spec fn array_of<const N: usize>(bytes: Seq<u8>) -> [u8; N]
    recommends
        bytes.len() == N,
{
    filled::<N>(bytes, N as nat)
}

/// The encoding of a `u64`: eight bytes, least significant first.
pub open spec fn u64_encoding(x: u64) -> Seq<u8> {
    le_bytes(x as nat, 8)
}

/// The encoding of a variant's discriminant: four bytes, least significant
/// first.
pub open spec fn tag_encoding(tag: u32) -> Seq<u8> {
    le_bytes(tag as nat, 4)
}

/// The encoding of an `i32`: the four bytes of its two's complement, least
/// significant first.
pub open spec fn i32_encoding(x: i32) -> Seq<u8> {
    le_bytes(
        if x >= 0 {
            x as nat
        } else {
            (x + 0x1_0000_0000) as nat
        },
        4,
    )
}

/// The encoding of a string: the length of its UTF-8 bytes as a `u64`, then
/// the bytes.
pub open spec fn string_encoding(text: Seq<char>) -> Seq<u8> {
    u64_encoding(vstd::utf8::encode_utf8(text).len() as u64) + vstd::utf8::encode_utf8(text)
}

/// The encoding of an optional digest: a zero byte for none, a one byte and
/// the 32 raw bytes for some.
pub open spec fn option_digest_encoding(digest: Option<[u8; 32]>) -> Seq<u8> {
    match digest {
        None => seq![0u8],
        Some(d) => seq![1u8] + d@,
    }
}

/// The first `k` places of an array filled up to `k` hold the bytes it was
/// filled with.
pub proof fn lemma_filled<const N: usize>(bytes: Seq<u8>, k: nat)
    requires
        k <= N,
        bytes.len() == N,
    ensures
        forall|j: int| 0 <= j < k ==> filled::<N>(bytes, k)@[j] == bytes[j],
    decreases k,
{
    if k > 0 {
        lemma_filled::<N>(bytes, (k - 1) as nat);
    }
}

/// The array of as many bytes as it has places holds those bytes.
pub proof fn lemma_array_of<const N: usize>(bytes: Seq<u8>)
    requires
        bytes.len() == N,
    ensures
        array_of::<N>(bytes)@ == bytes,
{
    lemma_filled::<N>(bytes, N as nat);
    assert(array_of::<N>(bytes)@ =~= bytes);
}

/// Little-endian digits have the length that was asked for.
pub proof fn lemma_le_bytes_len(x: nat, n: nat)
    ensures
        le_bytes(x, n).len() == n,
    decreases n,
{
    if n > 0 {
        lemma_le_bytes_len(x / 256, (n - 1) as nat);
    }
}

/// The powers of 256 that bound the fixed-width integers.
pub proof fn lemma_pow256_values()
    ensures
        pow256(0) == 1,
        pow256(4) == 0x1_0000_0000,
        pow256(8) == 0x1_0000_0000_0000_0000,
{
    reveal_with_fuel(pow256, 9);
}

/// Powers of 256 grow with the exponent.
pub proof fn lemma_pow256_monotone(a: nat, b: nat)
    requires
        a <= b,
    ensures
        pow256(a) <= pow256(b),
        pow256(a) >= 1,
    decreases b,
{
    if a < b {
        lemma_pow256_monotone(a, (b - 1) as nat);
    } else if a > 0 {
        lemma_pow256_monotone((a - 1) as nat, (a - 1) as nat);
    }
}

/// A number below `256^n` is the value of its `n` little-endian digits.
pub proof fn lemma_value_of_le_bytes(x: nat, n: nat)
    requires
        x < pow256(n),
    ensures
        le_value(le_bytes(x, n)) == x,
    decreases n,
{
    if n > 0 {
        let rest = le_bytes(x / 256, (n - 1) as nat);
        lemma_value_of_le_bytes(x / 256, (n - 1) as nat);
        assert(le_bytes(x, n).drop_first() =~= rest);
    }
}

/// Digits are the little-endian digits of their value, which is below
/// `256` to the power of their number.
pub proof fn lemma_le_bytes_of_value(bytes: Seq<u8>)
    ensures
        le_bytes(le_value(bytes), bytes.len()) == bytes,
        le_value(bytes) < pow256(bytes.len()),
    decreases bytes.len(),
{
    if bytes.len() > 0 {
        let rest = bytes.drop_first();
        lemma_le_bytes_of_value(rest);
        let v = le_value(bytes);
        assert(v % 256 == bytes[0] as nat);
        assert(v / 256 == le_value(rest));
        assert(le_bytes(v, bytes.len()) =~= bytes);
    } else {
        assert(le_bytes(0, 0) =~= bytes);
    }
}

/// Two sequences that start the same sequence and have the same length are
/// the same.
pub proof fn lemma_prefixes_of_same_length(p: Seq<u8>, q: Seq<u8>, s: Seq<u8>)
    requires
        is_prefix(p, s),
        is_prefix(q, s),
        p.len() == q.len(),
    ensures
        p == q,
{
}

/// A concatenation that starts a sequence splits: its first part starts the
/// sequence and its second part starts what follows.
pub proof fn lemma_prefix_split(a: Seq<u8>, b: Seq<u8>, s: Seq<u8>)
    requires
        is_prefix(a + b, s),
    ensures
        is_prefix(a, s),
        is_prefix(b, s.skip(a.len() as int)),
{
    let whole = a + b;
    assert(s.subrange(0, a.len() as int) =~= whole.subrange(0, a.len() as int));
    assert(whole.subrange(0, a.len() as int) =~= a);
    assert(s.skip(a.len() as int).subrange(0, b.len() as int) =~= whole.subrange(
        a.len() as int,
        whole.len() as int,
    ));
    assert(whole.subrange(a.len() as int, whole.len() as int) =~= b);
}

/// Two `u64` whose encodings start the same sequence are equal.
pub proof fn lemma_u64_prefix_unique(x: u64, y: u64, s: Seq<u8>)
    requires
        is_prefix(u64_encoding(x), s),
        is_prefix(u64_encoding(y), s),
    ensures
        x == y,
{
    lemma_le_bytes_len(x as nat, 8);
    lemma_le_bytes_len(y as nat, 8);
    lemma_prefixes_of_same_length(u64_encoding(x), u64_encoding(y), s);
    lemma_pow256_values();
    lemma_value_of_le_bytes(x as nat, 8);
    lemma_value_of_le_bytes(y as nat, 8);
}

/// Two `i32` whose encodings start the same sequence are equal.
pub proof fn lemma_i32_prefix_unique(x: i32, y: i32, s: Seq<u8>)
    requires
        is_prefix(i32_encoding(x), s),
        is_prefix(i32_encoding(y), s),
    ensures
        x == y,
{
    let ux: nat = if x >= 0 {
        x as nat
    } else {
        (x + 0x1_0000_0000) as nat
    };
    let uy: nat = if y >= 0 {
        y as nat
    } else {
        (y + 0x1_0000_0000) as nat
    };
    lemma_le_bytes_len(ux, 4);
    lemma_le_bytes_len(uy, 4);
    lemma_prefixes_of_same_length(i32_encoding(x), i32_encoding(y), s);
    lemma_pow256_values();
    lemma_value_of_le_bytes(ux, 4);
    lemma_value_of_le_bytes(uy, 4);
}

/// Two strings whose encodings start the same sequence are equal, provided
/// that the length of each fits the length prefix.
pub proof fn lemma_string_prefix_unique(a: Seq<char>, b: Seq<char>, s: Seq<u8>)
    requires
        vstd::utf8::encode_utf8(a).len() <= u64::MAX,
        vstd::utf8::encode_utf8(b).len() <= u64::MAX,
        is_prefix(string_encoding(a), s),
        is_prefix(string_encoding(b), s),
    ensures
        a == b,
{
    let ea = vstd::utf8::encode_utf8(a);
    let eb = vstd::utf8::encode_utf8(b);
    lemma_le_bytes_len(ea.len() as u64 as nat, 8);
    lemma_le_bytes_len(eb.len() as u64 as nat, 8);
    lemma_prefix_split(u64_encoding(ea.len() as u64), ea, s);
    lemma_prefix_split(u64_encoding(eb.len() as u64), eb, s);
    lemma_u64_prefix_unique(ea.len() as u64, eb.len() as u64, s);
    lemma_prefixes_of_same_length(ea, eb, s.skip(8));
    vstd::utf8::encode_utf8_decode_utf8(a);
    vstd::utf8::encode_utf8_decode_utf8(b);
}

/// Two optional digests whose encodings start the same sequence are equal.
pub proof fn lemma_option_digest_prefix_unique(
    a: Option<[u8; 32]>,
    b: Option<[u8; 32]>,
    s: Seq<u8>,
)
    requires
        is_prefix(option_digest_encoding(a), s),
        is_prefix(option_digest_encoding(b), s),
    ensures
        a == b,
{
    let ea = option_digest_encoding(a);
    let eb = option_digest_encoding(b);
    assert(s[0] == ea[0]) by {
        assert(s.subrange(0, ea.len() as int)[0] == ea[0]);
    }
    assert(s[0] == eb[0]) by {
        assert(s.subrange(0, eb.len() as int)[0] == eb[0]);
    }
    match (a, b) {
        (Some(x), Some(y)) => {
            lemma_prefixes_of_same_length(ea, eb, s);
            assert(x@ =~= ea.subrange(1, 33));
            assert(y@ =~= eb.subrange(1, 33));
            assert(x =~= y);
        },
        _ => {},
    }
}

/// Appends `bytes` to `out`.
pub fn push_bytes(out: &mut Vec<u8>, bytes: &[u8])
    ensures
        final(out)@ == old(out)@ + bytes@,
{
    let n = bytes.len();
    let mut i: usize = 0;
    while i < n
        invariant
            n == bytes@.len(),
            i <= n,
            out@ == old(out)@ + bytes@.subrange(0, i as int),
        decreases n - i,
    {
        out.push(bytes[i]);
        assert(bytes@.subrange(0, i + 1) =~= bytes@.subrange(0, i as int).push(bytes@[i as int]));
        i = i + 1;
    }
    assert(bytes@.subrange(0, n as int) =~= bytes@);
}

/// Appends the `n` low-order bytes of `x` to `out`, least significant
/// first.
pub fn push_le(out: &mut Vec<u8>, x: u64, n: usize)
    ensures
        final(out)@ == old(out)@ + le_bytes(x as nat, n as nat),
{
    let mut rest: u64 = x;
    let mut i: usize = 0;
    while i < n
        invariant
            i <= n,
            out@ + le_bytes(rest as nat, (n - i) as nat) == old(out)@ + le_bytes(
                x as nat,
                n as nat,
            ),
        decreases n - i,
    {
        let ghost before = out@;
        out.push((rest % 256) as u8);
        proof {
            assert(le_bytes(rest as nat, (n - i) as nat) == seq![(rest % 256) as u8] + le_bytes(
                (rest / 256) as nat,
                (n - i - 1) as nat,
            ));
            assert(out@ + le_bytes((rest / 256) as nat, (n - i - 1) as nat) == before + le_bytes(
                rest as nat,
                (n - i) as nat,
            ));
        }
        rest = rest / 256;
        i = i + 1;
    }
    assert(le_bytes(rest as nat, 0) == Seq::<u8>::empty());
}

/// Appends the encoding of a `u64` to `out`.
pub fn push_u64(out: &mut Vec<u8>, x: u64)
    ensures
        final(out)@ == old(out)@ + u64_encoding(x),
{
    push_le(out, x, 8);
}

/// Appends the encoding of a discriminant to `out`.
pub fn push_tag(out: &mut Vec<u8>, tag: u32)
    ensures
        final(out)@ == old(out)@ + tag_encoding(tag),
{
    push_le(out, tag as u64, 4);
}

/// Appends the encoding of an `i32` to `out`.
pub fn push_i32(out: &mut Vec<u8>, x: i32)
    ensures
        final(out)@ == old(out)@ + i32_encoding(x),
{
    let unsigned: u64 = if x >= 0 {
        x as u64
    } else {
        (x as i64 + 0x1_0000_0000) as u64
    };
    push_le(out, unsigned, 4);
}

/// Appends the encoding of a string to `out`.
pub fn push_string(out: &mut Vec<u8>, text: &str)
    ensures
        final(out)@ == old(out)@ + string_encoding(text@),
{
    let bytes = text.as_bytes();
    push_u64(out, bytes.len() as u64);
    push_bytes(out, bytes);
    assert(out@ =~= old(out)@ + string_encoding(text@));
}

/// Appends the encoding of an optional digest to `out`.
pub fn push_option_digest(out: &mut Vec<u8>, digest: &Option<[u8; 32]>)
    ensures
        final(out)@ == old(out)@ + option_digest_encoding(*digest),
{
    match digest {
        None => {
            out.push(0u8);
            assert(out@ =~= old(out)@ + seq![0u8]);
        },
        Some(d) => {
            out.push(1u8);
            push_bytes(out, d.as_slice());
            assert(out@ =~= old(out)@ + (seq![1u8] + d@));
        },
    }
}

/// Calls `String::from_utf8`. Believed: it accepts exactly the byte
/// strings that are valid UTF-8, and the text it returns is what they
/// decode to.
#[verifier::external_body]
fn string_from_utf8(bytes: Vec<u8>) -> (text: Option<String>)
    ensures
        text is Some <==> vstd::utf8::valid_utf8(bytes@),
        text matches Some(t) ==> t@ == vstd::utf8::decode_utf8(bytes@),
{
    String::from_utf8(bytes).ok()
}

/// Reads the number whose `n` little-endian digits stand at `pos`. There
/// is none exactly when the digits are more than eight or reach beyond the
/// end.
pub fn read_le(bytes: &[u8], pos: usize, n: usize) -> (value: Option<u64>)
    ensures
        value is Some <==> n <= 8 && pos + n <= bytes@.len(),
        value matches Some(x) ==> x == le_value(bytes@.subrange(pos as int, pos + n)),
{
    if n > 8 || pos > bytes.len() || bytes.len() - pos < n {
        return None;
    }
    let mut x: u64 = 0;
    let mut i: usize = 0;
    proof {
        lemma_pow256_values();
        assert(bytes@.subrange(pos + n, pos + n) =~= Seq::<u8>::empty());
    }
    while i < n
        invariant
            n <= 8,
            pos + n <= bytes@.len() <= usize::MAX,
            i <= n,
            x == le_value(bytes@.subrange(pos + n - i, pos + n)),
            x < pow256(i as nat),
        decreases n - i,
    {
        let ghost old_slice = bytes@.subrange(pos + n - i, pos + n);
        let ghost new_slice = bytes@.subrange(pos + n - i - 1, pos + n);
        proof {
            assert(new_slice.drop_first() =~= old_slice);
            lemma_pow256_monotone((i + 1) as nat, 8);
            lemma_pow256_values();
        }
        x = bytes[pos + n - i - 1] as u64 + 256 * x;
        i = i + 1;
    }
    Some(x)
}

/// Reads the `u64` that stands at `pos`. There is none exactly when fewer
/// than eight bytes follow `pos`.
pub fn read_u64(bytes: &[u8], pos: usize) -> (value: Option<u64>)
    ensures
        value is Some <==> pos + 8 <= bytes@.len(),
        value matches Some(x) ==> u64_encoding(x) == bytes@.subrange(pos as int, pos + 8),
{
    let value = read_le(bytes, pos, 8);
    proof {
        if value is Some {
            lemma_le_bytes_of_value(bytes@.subrange(pos as int, pos + 8));
        }
    }
    value
}

/// Reads the discriminant that stands at `pos`. There is none exactly when
/// fewer than four bytes follow `pos`.
pub fn read_tag(bytes: &[u8], pos: usize) -> (value: Option<u32>)
    ensures
        value is Some <==> pos + 4 <= bytes@.len(),
        value matches Some(x) ==> tag_encoding(x) == bytes@.subrange(pos as int, pos + 4),
{
    match read_le(bytes, pos, 4) {
        Some(x) => {
            proof {
                lemma_le_bytes_of_value(bytes@.subrange(pos as int, pos + 4));
                lemma_pow256_values();
            }
            Some(x as u32)
        },
        None => None,
    }
}

/// Reads the `i32` that stands at `pos`. There is none exactly when fewer
/// than four bytes follow `pos`.
pub fn read_i32(bytes: &[u8], pos: usize) -> (value: Option<i32>)
    ensures
        value is Some <==> pos + 4 <= bytes@.len(),
        value matches Some(x) ==> i32_encoding(x) == bytes@.subrange(pos as int, pos + 4),
{
    match read_le(bytes, pos, 4) {
        Some(x) => {
            proof {
                lemma_le_bytes_of_value(bytes@.subrange(pos as int, pos + 4));
                lemma_pow256_values();
            }
            if x < 0x8000_0000 {
                Some(x as i32)
            } else {
                Some((x as i64 - 0x1_0000_0000) as i32)
            }
        },
        None => None,
    }
}

/// Copies the 20 bytes that stand at `pos`. There are none exactly when
/// fewer than 20 bytes follow `pos`.
pub fn read_bytes20(bytes: &[u8], pos: usize) -> (value: Option<[u8; 20]>)
    ensures
        value is Some <==> pos + 20 <= bytes@.len(),
        value matches Some(x) ==> x@ == bytes@.subrange(pos as int, pos + 20),
{
    if pos > bytes.len() || bytes.len() - pos < 20 {
        return None;
    }
    let mut out = [0u8; 20];
    let mut i: usize = 0;
    while i < 20
        invariant
            pos + 20 <= bytes@.len() <= usize::MAX,
            i <= 20,
            forall|j: int| 0 <= j < i ==> out[j] == bytes@[pos + j],
        decreases 20 - i,
    {
        out[i] = bytes[pos + i];
        i = i + 1;
    }
    assert(out@ =~= bytes@.subrange(pos as int, pos + 20));
    Some(out)
}

/// Copies the 32 bytes that stand at `pos`. There are none exactly when
/// fewer than 32 bytes follow `pos`.
pub fn read_bytes32(bytes: &[u8], pos: usize) -> (value: Option<[u8; 32]>)
    ensures
        value is Some <==> pos + 32 <= bytes@.len(),
        value matches Some(x) ==> x@ == bytes@.subrange(pos as int, pos + 32),
{
    if pos > bytes.len() || bytes.len() - pos < 32 {
        return None;
    }
    let mut out = [0u8; 32];
    let mut i: usize = 0;
    while i < 32
        invariant
            pos + 32 <= bytes@.len() <= usize::MAX,
            i <= 32,
            forall|j: int| 0 <= j < i ==> out[j] == bytes@[pos + j],
        decreases 32 - i,
    {
        out[i] = bytes[pos + i];
        i = i + 1;
    }
    assert(out@ =~= bytes@.subrange(pos as int, pos + 32));
    Some(out)
}

/// Reads the optional digest that stands at `pos`, and says where it ends.
/// There is none exactly when no encoding of an optional digest stands at
/// `pos`.
pub fn read_option_digest(bytes: &[u8], pos: usize) -> (value: Option<(Option<[u8; 32]>, usize)>)
    ensures
        value matches Some((digest, next)) ==> pos <= next <= bytes@.len() && bytes@.subrange(
            pos as int,
            next as int,
        ) == option_digest_encoding(digest),
        value is None ==> pos > bytes@.len() || forall|digest: Option<[u8; 32]>|
            !is_prefix(#[trigger] option_digest_encoding(digest), bytes@.skip(pos as int)),
{
    if pos >= bytes.len() {
        proof {
            if pos == bytes@.len() {
                assert forall|digest: Option<[u8; 32]>|
                    !is_prefix(
                        #[trigger] option_digest_encoding(digest),
                        bytes@.skip(pos as int),
                    ) by {
                    assert(option_digest_encoding(digest).len() >= 1);
                }
            }
        }
        return None;
    }
    let tag = bytes[pos];
    let ghost rest = bytes@.skip(pos as int);
    if tag == 0 {
        assert(bytes@.subrange(pos as int, pos + 1) =~= seq![0u8]);
        Some((None, pos + 1))
    } else if tag == 1 {
        match read_bytes32(bytes, pos + 1) {
            Some(digest) => {
                assert(bytes@.subrange(pos as int, pos + 33) =~= seq![1u8] + digest@);
                Some((Some(digest), pos + 33))
            },
            None => {
                proof {
                    assert forall|digest: Option<[u8; 32]>|
                        !is_prefix(#[trigger] option_digest_encoding(digest), rest) by {
                        let e = option_digest_encoding(digest);
                        if is_prefix(e, rest) {
                            assert(rest.subrange(0, e.len() as int)[0] == e[0]);
                            assert(rest[0] == tag);
                        }
                    }
                }
                None
            },
        }
    } else {
        proof {
            assert forall|digest: Option<[u8; 32]>|
                !is_prefix(#[trigger] option_digest_encoding(digest), rest) by {
                let e = option_digest_encoding(digest);
                if is_prefix(e, rest) {
                    assert(rest.subrange(0, e.len() as int)[0] == e[0]);
                    assert(rest[0] == tag);
                }
            }
        }
        None
    }
}

/// Reads the string that stands at `pos`, and says where it ends. There is
/// none exactly when no encoding of a string stands at `pos`.
pub fn read_string(bytes: &[u8], pos: usize) -> (value: Option<(String, usize)>)
    ensures
        value matches Some((text, next)) ==> pos <= next <= bytes@.len() && bytes@.subrange(
            pos as int,
            next as int,
        ) == string_encoding(text@) && vstd::utf8::encode_utf8(text@).len() <= u64::MAX,
        value is None ==> pos > bytes@.len() || forall|text: Seq<char>|
            vstd::utf8::encode_utf8(text).len() <= u64::MAX ==> !is_prefix(
                #[trigger] string_encoding(text),
                bytes@.skip(pos as int),
            ),
{
    let ghost rest = bytes@.skip(pos as int);
    let length = match read_u64(bytes, pos) {
        Some(length) => length,
        None => {
            proof {
                if pos <= bytes@.len() {
                    assert forall|text: Seq<char>|
                        vstd::utf8::encode_utf8(text).len() <= u64::MAX implies !is_prefix(
                        #[trigger] string_encoding(text),
                        rest,
                    ) by {
                        lemma_le_bytes_len(vstd::utf8::encode_utf8(text).len() as u64 as nat, 8);
                    }
                }
            }
            return None;
        },
    };
    let total = bytes.len();
    let start = pos + 8;
    proof {
        lemma_le_bytes_len(length as nat, 8);
        assert(rest.subrange(0, 8) =~= bytes@.subrange(pos as int, pos + 8));
        assert(is_prefix(u64_encoding(length), rest));
    }
    if length > (total - start) as u64 {
        proof {
            assert forall|text: Seq<char>|
                vstd::utf8::encode_utf8(text).len() <= u64::MAX implies !is_prefix(
                #[trigger] string_encoding(text),
                rest,
            ) by {
                let e = vstd::utf8::encode_utf8(text);
                if is_prefix(string_encoding(text), rest) {
                    lemma_le_bytes_len(e.len() as u64 as nat, 8);
                    lemma_prefix_split(u64_encoding(e.len() as u64), e, rest);
                    lemma_u64_prefix_unique(e.len() as u64, length, rest);
                }
            }
        }
        return None;
    }
    let end = start + length as usize;
    let slice = vstd::slice::slice_subrange(bytes, start, end);
    let raw = vstd::slice::slice_to_vec(slice);
    match string_from_utf8(raw) {
        Some(text) => {
            proof {
                vstd::utf8::decode_utf8_encode_utf8(slice@);
                assert(bytes@.subrange(pos as int, end as int) =~= u64_encoding(length) + slice@);
            }
            Some((text, end))
        },
        None => {
            proof {
                assert forall|text: Seq<char>|
                    vstd::utf8::encode_utf8(text).len() <= u64::MAX implies !is_prefix(
                    #[trigger] string_encoding(text),
                    rest,
                ) by {
                    let e = vstd::utf8::encode_utf8(text);
                    if is_prefix(string_encoding(text), rest) {
                        lemma_le_bytes_len(e.len() as u64 as nat, 8);
                        lemma_prefix_split(u64_encoding(e.len() as u64), e, rest);
                        lemma_u64_prefix_unique(e.len() as u64, length, rest);
                        assert(rest.skip(8).subrange(0, e.len() as int) =~= slice@);
                        vstd::utf8::encode_utf8_valid_utf8(text);
                    }
                }
            }
            None
        },
    }
}

} // verus!
