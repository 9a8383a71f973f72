use vstd::prelude::*;
use vstd::std_specs::cmp::PartialEqSpecImpl;
use crypto::digest::Digest;

verus! {

/// Length of key in bytes
pub const KEY_LEN: usize = 20;

/// Byte-wise exclusive or of two byte strings of the same length.
pub open spec fn xor_bytes(a: Seq<u8>, b: Seq<u8>) -> Seq<u8> {
    Seq::new(a.len(), |i: int| a[i] ^ b[i])
}

/// Lexicographic order on byte strings: the order in which keys and distances
/// are compared (for strings of one length it is the order of the big-endian
/// numbers they spell).
pub open spec fn lex_lt(a: Seq<u8>, b: Seq<u8>) -> bool
    decreases a.len(),
{
    if a.len() == 0 || b.len() == 0 {
        a.len() < b.len()
    } else if a[0] != b[0] {
        a[0] < b[0]
    } else {
        lex_lt(a.drop_first(), b.drop_first())
    }
}

/// The ASCII code of the lower-case hexadecimal digit for `n` (`n < 16`).
pub open spec fn hex_digit(n: u8) -> u8 {
    if n < 10 { (48 + n) as u8 } else { (87 + n) as u8 }
}

/// Whether a byte is the ASCII code of a lower-case hexadecimal digit.
pub open spec fn is_hex_digit(b: u8) -> bool {
    (48 <= b <= 57) || (97 <= b <= 102)
}

/// Lower-case hexadecimal text (as ASCII bytes) of a byte string:
/// two digits per byte, the high nibble first.
pub open spec fn lower_hex(data: Seq<u8>) -> Seq<u8> {
    Seq::new(
        2 * data.len(),
        |i: int|
            if i % 2 == 0 {
                hex_digit(data[i / 2] >> 4)
            } else {
                hex_digit(data[i / 2] & 0xf)
            },
    )
}

/// The first `KEY_LEN` bytes of `s`, padded with zero bytes when `s` is shorter.
pub open spec fn key_prefix(s: Seq<u8>) -> Seq<u8> {
    Seq::new(KEY_LEN as nat, |i: int| if i < s.len() { s[i] } else { 0u8 })
}

/// The SHA-1 digest of the UTF-8 encoding of a text.
pub uninterp spec fn sha1_digest(text: Seq<char>) -> Seq<u8>;

/// The bytes of the key that `Key::hash` gives for a text.
pub open spec fn hashed_key(text: Seq<char>) -> Seq<u8> {
    key_prefix(lower_hex(sha1_digest(text)))
}

/// Number of the bucket a distance falls into, as `Distance::zeroes_in_prefix`
/// computes it: its bit scan visits no bit, so every distance gives the last
/// bucket index.
pub open spec fn prefix_zeroes(d: Seq<u8>) -> nat {
    (KEY_LEN * 8 - 1) as nat
}

/// Lower-case hexadecimal text of a byte string, as characters.
pub open spec fn hex_text(data: Seq<u8>) -> Seq<char> {
    lower_hex(data).map_values(|b: u8| b as char)
}

/// Appends `c` at the end of `s` (`String::push`, which its documentation
/// describes as appending the given char to the end of the string).
#[verifier::external_body]
fn push_char(s: &mut String, c: char)
    ensures
        final(s)@ == old(s)@.push(c),
{
    s.push(c);
}

/// The lower-case hexadecimal digit for `n`.
fn hex_char(n: u8) -> (c: char)
    requires
        n < 16,
    ensures
        c == hex_digit(n) as char,
{
    let b: u8 = if n < 10 { 48 + n } else { 87 + n };
    b as char
}

/// The lower-case hexadecimal text of `KEY_LEN` bytes: two digits per byte,
/// the high nibble first.
fn hex_of(bytes: &[u8; KEY_LEN]) -> (h: String)
    ensures
        h@ == hex_text(bytes@),
{
    let mut h = String::new();
    for i in 0usize..KEY_LEN
        invariant
            bytes@.len() == KEY_LEN,
            h@ == hex_text(bytes@.take(i as int)),
    {
        let b = bytes[i];
        assert(b >> 4 < 16) by (bit_vector);
        assert(b & 0xf < 16) by (bit_vector);
        let hi = hex_char(b >> 4);
        push_char(&mut h, hi);
        let lo = hex_char(b & 0xf);
        push_char(&mut h, lo);
        proof {
            let t0 = bytes@.take(i as int);
            let t1 = bytes@.take(i + 1);
            assert(t1 =~= t0.push(b));
            assert(hex_text(t1) =~= hex_text(t0).push(hex_digit(b >> 4) as char).push(
                hex_digit(b & 0xf) as char,
            ));
        }
    }
    assert(bytes@.take(KEY_LEN as int) =~= bytes@);
    h
}

/// One random byte from `rand::random::<u8>()` (thread-local generator).
/// Nothing is claimed of the value.
#[verifier::external_body]
fn random_byte() -> u8 {
    rand::random::<u8>()
}

/// Hashes `text` with rust-crypto's `Sha1` (`input_str`, then `result_str`) and
/// returns the bytes of the hexadecimal text that `result_str` gives. Claimed:
/// that text is the lower-case hexadecimal encoding (two digits per byte, high
/// nibble first, as rustc-serialize's `ToHex` writes it) of the 20-byte SHA-1
/// digest, which is named `sha1_digest`.
#[verifier::external_body]
fn sha1_hex(text: &str) -> (hex: Vec<u8>)
    ensures
        hex@ == lower_hex(sha1_digest(text@)),
        hex@.len() == 40,
{
    let mut hasher = crypto::sha1::Sha1::new();
    hasher.input_str(text);
    hasher.result_str().into_bytes()
}

/// A node identifier or a hashed key: `KEY_LEN` bytes.
#[derive(Hash, Eq, PartialOrd, Ord, Clone, Copy)]
pub struct Key(pub [u8; KEY_LEN]);

impl View for Key {
    type V = Seq<u8>;

    open spec fn view(&self) -> Seq<u8> {
        self.0@
    }
}

impl PartialEq for Key {
    fn eq(&self, other: &Key) -> (r: bool) {
        bytes_equal(&self.0, &other.0)
    }
}

impl PartialEqSpecImpl for Key {
    open spec fn obeys_eq_spec() -> bool {
        true
    }

    open spec fn eq_spec(&self, other: &Key) -> bool {
        self.0@ == other.0@
    }
}

/// Compares two `KEY_LEN`-byte arrays byte by byte.
fn bytes_equal(a: &[u8; KEY_LEN], b: &[u8; KEY_LEN]) -> (r: bool)
    ensures
        r == (a@ == b@),
{
    let mut i: usize = 0;
    while i < KEY_LEN
        invariant
            0 <= i <= KEY_LEN,
            a@.len() == KEY_LEN,
            b@.len() == KEY_LEN,
            forall|j: int| 0 <= j < i ==> a@[j] == b@[j],
        decreases KEY_LEN - i,
    {
        if a[i] != b[i] {
            return false;
        }
        i = i + 1;
    }
    assert(a@ =~= b@);
    true
}

impl Key {
    /// Returns a random, KEY_LEN long byte string.
    pub fn random() -> (k: Key)
        ensures
            k@.len() == KEY_LEN,
    {
        let mut res = [0u8; KEY_LEN];
        for i in 0usize..KEY_LEN
            invariant
                res@.len() == KEY_LEN,
        {
            res[i] = random_byte();
        }
        Key(res)
    }

    /// Returns the hashed Key of data.
    pub fn hash(data: String) -> (k: Key)
        ensures
            k@ == hashed_key(data@),
            sha1_digest(data@).len() == 20,
            k@ == lower_hex(sha1_digest(data@)).take(KEY_LEN as int),
            forall|i: int| 0 <= i < KEY_LEN ==> is_hex_digit(#[trigger] k@[i]),
    {
        let hex = sha1_hex(data.as_str());
        let k = Key::from_hex_digest(&hex);
        proof {
            let d = sha1_digest(data@);
            assert(lower_hex(d).len() == 2 * d.len());
            assert(k@ =~= lower_hex(d).take(KEY_LEN as int));
            assert forall|i: int| 0 <= i < KEY_LEN implies is_hex_digit(#[trigger] k@[i]) by {
                let x = d[i / 2];
                assert(x >> 4 < 16) by (bit_vector);
                assert(x & 0xf < 16) by (bit_vector);
                assert(k@[i] == lower_hex(d)[i]);
            }
        }
        k
    }

    /// The key made of the first `KEY_LEN` bytes of a hexadecimal digest text,
    /// padded with zero bytes if the text is shorter.
    pub fn from_hex_digest(hex: &Vec<u8>) -> (k: Key)
        ensures
            k@ == key_prefix(hex@),
    {
        let mut hash = [0u8; KEY_LEN];
        let n: usize = if hex.len() < KEY_LEN { hex.len() } else { KEY_LEN };
        for i in 0usize..n
            invariant
                n <= KEY_LEN,
                n <= hex@.len(),
                n == hex@.len() || n == KEY_LEN,
                hash@.len() == KEY_LEN,
                forall|j: int| 0 <= j < i ==> hash@[j] == hex@[j],
                forall|j: int| i <= j < KEY_LEN ==> hash@[j] == 0u8,
        {
            hash[i] = hex[i];
        }
        assert(hash@ =~= key_prefix(hex@));
        Key(hash)
    }

    /// The key as lower-case hexadecimal text (how keys are printed).
    pub fn to_hex(&self) -> (h: String)
        ensures
            h@ == hex_text(self@),
    {
        hex_of(&self.0)
    }

    /// XORs two Keys
    pub fn dist(&self, y: Key) -> (d: Distance)
        ensures
            d@ == xor_bytes(self@, y@),
    {
        let mut res = [0u8; KEY_LEN];
        for i in 0usize..KEY_LEN
            invariant
                res@.len() == KEY_LEN,
                self@.len() == KEY_LEN,
                y@.len() == KEY_LEN,
                forall|j: int| 0 <= j < i ==> res@[j] == self@[j] ^ y@[j],
        {
            res[i] = self.0[i] ^ y.0[i];
        }
        assert(res@ =~= xor_bytes(self@, y@));
        Distance(res)
    }
}

/// The XOR distance between two keys.
#[derive(Hash, Eq, PartialOrd, Ord, Clone, Copy)]
pub struct Distance(pub [u8; KEY_LEN]);

impl View for Distance {
    type V = Seq<u8>;

    open spec fn view(&self) -> Seq<u8> {
        self.0@
    }
}

impl PartialEq for Distance {
    fn eq(&self, other: &Distance) -> (r: bool) {
        bytes_equal(&self.0, &other.0)
    }
}

impl PartialEqSpecImpl for Distance {
    open spec fn obeys_eq_spec() -> bool {
        true
    }

    open spec fn eq_spec(&self, other: &Distance) -> bool {
        self.0@ == other.0@
    }
}

impl Distance {
    /// The distance as lower-case hexadecimal text (how distances are printed).
    pub fn to_hex(&self) -> (h: String)
        ensures
            h@ == hex_text(self@),
    {
        hex_of(&self.0)
    }

    /// Index of the bucket of this distance.
    pub fn zeroes_in_prefix(&self) -> (n: usize)
        ensures
            n == prefix_zeroes(self@),
    {
        for i in 0..KEY_LEN {
            // The bit scan covers the range `8..0`, which holds no index.
            let bit_start: usize = 8;
            let bit_end: usize = 0;
            let mut j: usize = bit_start;
            while j < bit_end
                invariant
                    bit_end == 0,
                    i < KEY_LEN,
                decreases bit_end - j,
            {
                if (self.0[i] >> (7 - j)) & 0x1 != 0 {
                    return i * 8 + j;
                }
                j = j + 1;
            }
        }
        KEY_LEN * 8 - 1
    }

    /// Whether this distance comes strictly before `other` in the order of
    /// distances (lexicographic on the bytes).
    pub fn less_than(&self, other: &Distance) -> (r: bool)
        ensures
            r == lex_lt(self@, other@),
    {
        let mut i: usize = 0;
        assert(self@.skip(0) =~= self@);
        assert(other@.skip(0) =~= other@);
        while i < KEY_LEN
            invariant
                0 <= i <= KEY_LEN,
                self@.len() == KEY_LEN,
                other@.len() == KEY_LEN,
                lex_lt(self@, other@) == lex_lt(self@.skip(i as int), other@.skip(i as int)),
            decreases KEY_LEN - i,
        {
            if self.0[i] != other.0[i] {
                return self.0[i] < other.0[i];
            }
            assert(self@.skip(i as int).drop_first() =~= self@.skip(i + 1));
            assert(other@.skip(i as int).drop_first() =~= other@.skip(i + 1));
            i = i + 1;
        }
        false
    }
}

/// No byte string comes before itself.
pub proof fn lemma_lex_irreflexive(a: Seq<u8>)
    ensures
        !lex_lt(a, a),
    decreases a.len(),
{
    if a.len() > 0 {
        lemma_lex_irreflexive(a.drop_first());
    }
}

/// Of two byte strings, at most one comes before the other.
pub proof fn lemma_lex_asymmetric(a: Seq<u8>, b: Seq<u8>)
    requires
        lex_lt(a, b),
    ensures
        !lex_lt(b, a),
    decreases a.len(),
{
    if a.len() > 0 && b.len() > 0 && a[0] == b[0] {
        lemma_lex_asymmetric(a.drop_first(), b.drop_first());
    }
}

/// The order of byte strings is transitive.
pub proof fn lemma_lex_transitive(a: Seq<u8>, b: Seq<u8>, c: Seq<u8>)
    requires
        lex_lt(a, b),
        lex_lt(b, c),
    ensures
        lex_lt(a, c),
    decreases a.len(),
{
    if a.len() > 0 && b.len() > 0 && c.len() > 0 && a[0] == b[0] && b[0] == c[0] {
        lemma_lex_transitive(a.drop_first(), b.drop_first(), c.drop_first());
    }
}

/// Two different byte strings of one length are ordered one way or the other.
pub proof fn lemma_lex_total(a: Seq<u8>, b: Seq<u8>)
    requires
        a.len() == b.len(),
        a != b,
    ensures
        lex_lt(a, b) || lex_lt(b, a),
    decreases a.len(),
{
    if a.len() == 0 {
        assert(a =~= b);
    } else if a[0] == b[0] {
        if a.drop_first() == b.drop_first() {
            assert(a =~= b.drop_first().insert(0, b[0]));
            assert(b =~= b.drop_first().insert(0, b[0]));
        }
        lemma_lex_total(a.drop_first(), b.drop_first());
    }
}

/// XOR with a fixed key is one-to-one: different keys lie at different
/// distances from any target.
pub proof fn lemma_xor_injective(a: Seq<u8>, b: Seq<u8>, t: Seq<u8>)
    requires
        a.len() == t.len(),
        b.len() == t.len(),
        xor_bytes(a, t) == xor_bytes(b, t),
    ensures
        a == b,
{
    assert forall|i: int| 0 <= i < a.len() implies a[i] == b[i] by {
        let x = a[i];
        let y = b[i];
        let z = t[i];
        assert(xor_bytes(a, t)[i] == xor_bytes(b, t)[i]);
        assert(xor_bytes(a, t)[i] == x ^ z);
        assert(xor_bytes(b, t)[i] == y ^ z);
        assert(x == y) by (bit_vector)
            requires
                x ^ z == y ^ z,
        ;
    }
    assert(a =~= b);
}

/// The distance between two keys does not depend on their order.
pub proof fn law_distance_symmetric(a: Seq<u8>, b: Seq<u8>)
    requires
        a.len() == b.len(),
    ensures
        xor_bytes(a, b) == xor_bytes(b, a),
{
    assert forall|i: int| 0 <= i < a.len() implies xor_bytes(a, b)[i] == xor_bytes(b, a)[i] by {
        let x = a[i];
        let y = b[i];
        assert(x ^ y == y ^ x) by (bit_vector);
    }
    assert(xor_bytes(a, b) =~= xor_bytes(b, a));
}

/// A key is at distance zero from itself, and only from itself.
pub proof fn law_distance_zero_iff_same(a: Seq<u8>, b: Seq<u8>)
    requires
        a.len() == b.len(),
    ensures
        (xor_bytes(a, b) == Seq::new(a.len(), |i: int| 0u8)) <==> a == b,
{
    let z = Seq::new(a.len(), |i: int| 0u8);
    if a == b {
        assert forall|i: int| 0 <= i < a.len() implies xor_bytes(a, b)[i] == z[i] by {
            let x = a[i];
            assert(x ^ x == 0) by (bit_vector);
        }
        assert(xor_bytes(a, b) =~= z);
    }
    if xor_bytes(a, b) == z {
        assert forall|i: int| 0 <= i < a.len() implies a[i] == b[i] by {
            let x = a[i];
            let y = b[i];
            assert(xor_bytes(a, b)[i] == z[i]);
            assert(x == y) by (bit_vector)
                requires
                    x ^ y == 0,
            ;
        }
        assert(a =~= b);
    }
}

/// Distances are ordered by their bytes read as unsigned numbers, first byte
/// first: of two byte strings of one length that agree before index `i` and
/// differ at `i`, the one with the smaller byte at `i` comes first.
pub proof fn law_lex_order_is_unsigned_big_endian(a: Seq<u8>, b: Seq<u8>, i: int)
    requires
        a.len() == b.len(),
        0 <= i < a.len(),
        forall|j: int| 0 <= j < i ==> a[j] == b[j],
        a[i] != b[i],
    ensures
        lex_lt(a, b) <==> (a[i] as int) < (b[i] as int),
        lex_lt(b, a) <==> (b[i] as int) < (a[i] as int),
    decreases i,
{
    if i > 0 {
        assert(a[0] == b[0]);
        law_lex_order_is_unsigned_big_endian(a.drop_first(), b.drop_first(), i - 1);
    }
}

/// The number a lower-case hexadecimal digit stands for.
pub open spec fn digit_value(c: u8) -> int {
    if c <= 57 { c - 48 } else { c - 87 }
}

/// The hexadecimal text of a byte string spells its bytes: two lower-case
/// digits per byte, the high one first, which read back give the byte.
pub proof fn law_lower_hex_spells_bytes(data: Seq<u8>)
    ensures
        lower_hex(data).len() == 2 * data.len(),
        forall|i: int| 0 <= i < lower_hex(data).len() ==> is_hex_digit(#[trigger] lower_hex(data)[i]),
        forall|i: int|
            0 <= i < data.len() ==> 16 * digit_value(#[trigger] lower_hex(data)[2 * i]) + digit_value(
                lower_hex(data)[2 * i + 1],
            ) == data[i],
{
    assert forall|i: int| 0 <= i < lower_hex(data).len() implies is_hex_digit(
        #[trigger] lower_hex(data)[i],
    ) by {
        let x = data[i / 2];
        assert(x >> 4 < 16) by (bit_vector);
        assert(x & 0xf < 16) by (bit_vector);
    }
    assert forall|i: int| 0 <= i < data.len() implies 16 * digit_value(
        #[trigger] lower_hex(data)[2 * i],
    ) + digit_value(lower_hex(data)[2 * i + 1]) == data[i] by {
        let x = data[i];
        assert((2 * i) / 2 == i);
        assert((2 * i + 1) / 2 == i);
        assert((2 * i) % 2 == 0);
        assert((2 * i + 1) % 2 == 1);
        assert(x >> 4 < 16) by (bit_vector);
        assert(x & 0xf < 16) by (bit_vector);
        assert(16 * (x >> 4) + (x & 0xf) == x) by (bit_vector);
    }
}

} // verus!
