use vstd::prelude::*;
use vstd::arithmetic::div_mod::{lemma_mod_mod, lemma_mod_sub_multiples_vanish, lemma_small_mod};
use vstd::string::StringSliceAdditionalSpecFns;
use vstd::utf8::{
    char_is_scalar, char_u32_cast, encode_scalar, encode_utf8, has_width_1_encoding, is_ascii_chars, is_ascii_chars_encode_utf8,
};

verus! {

/// The byte `b` after ASCII upper-casing (only `a`..=`z` change).
pub open spec fn upper_byte(b: u8) -> int {
    if 97 <= b && b <= 122 {
        b - 32
    } else {
        b as int
    }
}

/// Every character is an upper-case ASCII letter.
pub open spec fn all_upper_letters(s: Seq<char>) -> bool {
    forall|i: int| 0 <= i < s.len() ==> 65 <= #[trigger] s[i] as int && s[i] as int <= 90
}

/// The key repeated cyclically to length `n`; empty when the key is empty.
pub open spec fn cycled(key: Seq<char>, n: nat) -> Seq<char> {
    if key.len() == 0 {
        Seq::empty()
    } else {
        Seq::new(n, |i: int| key[i % key.len() as int])
    }
}

pub open spec fn is_ascii_alpha(c: char) -> bool {
    (65 <= c as int && c as int <= 90) || (97 <= c as int && c as int <= 122)
}

/// The alphabet row: `A` shifted by `n` places, wrapping after `Z`.
pub open spec fn letter_code(n: int) -> int {
    65 + n % 26
}

/// `out` is the Vigenère encryption of the UTF-8 bytes `text` under `key`:
/// byte `i` of the upper-cased text is shifted by byte `i` of the encoding of
/// the key repeated to as many characters as `text` has bytes.
pub open spec fn is_encryption(text: Seq<u8>, key: Seq<char>, out: Seq<char>) -> bool {
    let k = encode_utf8(cycled(key, text.len()));
    &&& out.len() == if key.len() == 0 {
        0
    } else {
        text.len()
    }
    &&& forall|i: int|
        0 <= i < out.len() ==> #[trigger] out[i] as int == letter_code(
            (upper_byte(text[i]) - 65) + (k[i] as int - 65),
        )
}

/// `out` is the Vigenère decryption of the letters of `text` under `key`.
pub open spec fn is_decryption(text: Seq<char>, key: Seq<char>, out: Seq<char>) -> bool {
    let letters = text.filter(|x: char| is_ascii_alpha(x));
    let k = cycled(key, letters.len());
    &&& out.len() == k.len()
    &&& forall|i: int|
        0 <= i < out.len() ==> #[trigger] out[i] as int == letter_code(
            (letters[i] as int - 65) + 26 - (k[i] as int - 65),
        )
}

/// Every character has a code of at least `A` (65).
pub open spec fn chars_at_least_a(s: Seq<char>) -> bool {
    forall|i: int| 0 <= i < s.len() ==> 65 <= #[trigger] s[i] as u32
}

proof fn lemma_or_high_bit(x: u8)
    ensures
        (0x80u8 | x) >= 0x80u8,
        (0xC0u8 | x) >= 0x80u8,
        (0xE0u8 | x) >= 0x80u8,
        (0xF0u8 | x) >= 0x80u8,
{
    assert((0x80u8 | x) >= 0x80u8) by (bit_vector);
    assert((0xC0u8 | x) >= 0x80u8) by (bit_vector);
    assert((0xE0u8 | x) >= 0x80u8) by (bit_vector);
    assert((0xF0u8 | x) >= 0x80u8) by (bit_vector);
}

proof fn lemma_low_byte(v: u32)
    requires
        v <= 0x7F,
    ensures
        (v & 0x7F) as u8 == v,
{
    assert((v & 0x7F) == v) by (bit_vector)
        requires
            v <= 0x7F,
    ;
}

/// The UTF-8 encoding of characters of code at least `A` has at least one
/// byte per character, and every byte is at least 65.
proof fn lemma_encoding_at_least_a(s: Seq<char>)
    requires
        chars_at_least_a(s),
    ensures
        encode_utf8(s).len() >= s.len(),
        forall|i: int| 0 <= i < encode_utf8(s).len() ==> #[trigger] encode_utf8(s)[i] >= 65,
    decreases s.len(),
{
    if s.len() > 0 {
        let rest = s.drop_first();
        assert forall|i: int| 0 <= i < rest.len() implies 65 <= #[trigger] rest[i] as u32 by {
            assert(rest[i] == s[i + 1]);
        }
        lemma_encoding_at_least_a(rest);
        let v = s[0] as u32;
        char_is_scalar(s[0]);
        let head = encode_scalar(v);
        if has_width_1_encoding(v) {
            lemma_low_byte(v);
        } else {
            lemma_or_high_bit(((v >> 6) & 0x1F) as u8);
            lemma_or_high_bit(((v >> 12) & 0x0F) as u8);
            lemma_or_high_bit(((v >> 18) & 0x7) as u8);
            lemma_or_high_bit((v & 0x3F) as u8);
            lemma_or_high_bit(((v >> 6) & 0x3F) as u8);
            lemma_or_high_bit(((v >> 12) & 0x3F) as u8);
        }
        assert(head.len() >= 1);
        assert(forall|i: int| 0 <= i < head.len() ==> #[trigger] head[i] >= 65);
        let all = encode_utf8(s);
        assert(all == head + encode_utf8(rest));
        assert forall|i: int| 0 <= i < all.len() implies #[trigger] all[i] >= 65 by {
            if i < head.len() {
                assert(all[i] == head[i]);
            } else {
                assert(all[i] == encode_utf8(rest)[i - head.len()]);
            }
        }
    }
}

/// Every character of an encryption is an upper-case letter.
pub proof fn lemma_encryption_is_letters(text: Seq<u8>, key: Seq<char>, out: Seq<char>)
    requires
        is_encryption(text, key, out),
    ensures
        all_upper_letters(out),
{
}

/// Every character of a decryption is an upper-case letter.
pub proof fn lemma_decryption_is_letters(text: Seq<char>, key: Seq<char>, out: Seq<char>)
    requires
        is_decryption(text, key, out),
    ensures
        all_upper_letters(out),
{
}

proof fn lemma_same_code_same_char(a: char, b: char)
    requires
        a as int == b as int,
    ensures
        a == b,
{
    char_u32_cast(a, a as u32);
    char_u32_cast(b, b as u32);
}

/// A text and key have one encryption: encrypting twice gives the same string.
pub proof fn lemma_encryption_unique(text: Seq<u8>, key: Seq<char>, first: Seq<char>, second: Seq<char>)
    requires
        is_encryption(text, key, first),
        is_encryption(text, key, second),
    ensures
        first == second,
{
    assert forall|i: int| 0 <= i < first.len() implies first[i] == second[i] by {
        lemma_same_code_same_char(first[i], second[i]);
    }
    assert(first =~= second);
}

/// A text and key have one decryption: decrypting twice gives the same string.
pub proof fn lemma_decryption_unique(text: Seq<char>, key: Seq<char>, first: Seq<char>, second: Seq<char>)
    requires
        is_decryption(text, key, first),
        is_decryption(text, key, second),
    ensures
        first == second,
{
    assert forall|i: int| 0 <= i < first.len() implies first[i] == second[i] by {
        lemma_same_code_same_char(first[i], second[i]);
    }
    assert(first =~= second);
}

/// The case of ASCII letters in the text does not change its encryption.
pub proof fn lemma_encryption_ignores_case(
    text: Seq<u8>,
    upper: Seq<u8>,
    key: Seq<char>,
    first: Seq<char>,
    second: Seq<char>,
)
    requires
        upper.len() == text.len(),
        forall|i: int| 0 <= i < text.len() ==> upper_byte(#[trigger] upper[i]) == upper_byte(text[i]),
        is_encryption(text, key, first),
        is_encryption(upper, key, second),
    ensures
        first == second,
{
    assert forall|i: int| 0 <= i < first.len() implies first[i] == second[i] by {
        assert(upper_byte(upper[i]) == upper_byte(text[i]));
        lemma_same_code_same_char(first[i], second[i]);
    }
    assert(first =~= second);
}

/// Repeating the key twice over leaves its cyclic extension unchanged.
pub proof fn lemma_cycled_doubled_key(key: Seq<char>, n: nat)
    ensures
        cycled(key + key, n) == cycled(key, n),
{
    if key.len() > 0 {
        let l = key.len() as int;
        assert forall|i: int| 0 <= i < n implies #[trigger] cycled(key + key, n)[i] == cycled(key, n)[i] by {
            lemma_mod_mod(i, l, 2);
            assert(l * 2 == (key + key).len());
            let j = i % (l * 2);
            assert(0 <= j < l * 2);
            if j < l {
                lemma_small_mod(j as nat, l as nat);
            } else {
                assert((j - l) % l == j % l) by {
                    lemma_mod_sub_multiples_vanish(j, l);
                }
                lemma_small_mod((j - l) as nat, l as nat);
            }
        }
        assert(cycled(key + key, n) =~= cycled(key, n));
    }
}

/// Encrypting under a key written out twice gives the same as under the key.
pub proof fn lemma_encryption_doubled_key(text: Seq<u8>, key: Seq<char>, out: Seq<char>)
    ensures
        is_encryption(text, key + key, out) == is_encryption(text, key, out),
{
    lemma_cycled_doubled_key(key, text.len());
}

/// The tabula recta's alphabet `A`..=`Z`.
pub struct Vigenere {
    table: Vec<u8>,
}

impl Vigenere {
    pub closed spec fn wf(&self) -> bool {
        &&& self.table@.len() == 26
        &&& forall|i: int| 0 <= i < 26 ==> #[trigger] self.table@[i] == 65 + i
    }

    pub fn new() -> (r: Self)
        ensures
            r.wf(),
    {
        let mut table: Vec<u8> = Vec::new();
        let mut b: u8 = 65;
        while b <= 90
            invariant
                65 <= b <= 91,
                table@.len() == b - 65,
                forall|i: int| 0 <= i < table@.len() ==> #[trigger] table@[i] == 65 + i,
            decreases 91 - b,
        {
            table.push(b);
            b = b + 1;
        }
        Vigenere { table }
    }

    /// The letter `idx` places after letter number `start`.
    pub fn get_encrypted(&self, start: usize, idx: usize) -> (r: u8)
        requires
            self.wf(),
            start + idx <= usize::MAX,
        ensures
            r as int == letter_code(start + idx),
    {
        self.table[(start + idx) % 26]
    }

    /// The letter `k` places before letter number `c`.
    pub fn get_decrypted(&self, c: usize, k: usize) -> (r: u8)
        requires
            self.wf(),
            k <= c + 26,
            c + 26 <= usize::MAX,
        ensures
            r as int == letter_code(c + 26 - k),
    {
        self.table[(c + 26 - k) % 26]
    }
}

/// Relies on String::push: appends one character.
#[verifier::external_body]
fn push_char(s: &mut String, c: char)
    ensures
        final(s)@ == old(s)@.push(c),
{
    s.push(c)
}

/// The key repeated (or cut) to as many characters as `text` has bytes.
pub fn key_to_same_length(text: &str, key: &str) -> (r: String)
    ensures
        r@ == cycled(key@, text.len() as nat),
{
    let n = text.len();
    let klen = key.unicode_len();
    let mut r = String::new();
    if klen == 0 {
        return r;
    }
    let mut i: usize = 0;
    while i < n
        invariant
            klen == key@.len(),
            klen > 0,
            i <= n,
            r@ =~= cycled(key@, n as nat).subrange(0, i as int),
        decreases n - i,
    {
        let c = key.get_char(i % klen);
        push_char(&mut r, c);
        i = i + 1;
    }
    r
}

/// Vigenère encryption: each byte of the upper-cased text is shifted along the
/// alphabet by the matching byte of the cyclically repeated key.
pub fn encrypt(plaintext: &str, key: &str) -> (r: String)
    requires
        chars_at_least_a(key@),
        key@.len() > 0 ==> forall|i: int|
            0 <= i < plaintext.spec_bytes().len() ==> #[trigger] plaintext.spec_bytes()[i] >= 65,
    ensures
        is_encryption(plaintext.spec_bytes(), key@, r@),
{
    let pb = plaintext.as_bytes();
    let n = pb.len();
    let ks = key_to_same_length(plaintext, key);
    let ks_str = ks.as_str();
    let kb = ks_str.as_bytes();
    proof {
        assert forall|i: int| 0 <= i < ks@.len() implies 65 <= #[trigger] ks@[i] as u32 by {
            let m = i % key@.len() as int;
            assert(0 <= m < key@.len());
            assert(ks@[i] == key@[m]);
        }
        lemma_encoding_at_least_a(ks@);
    }
    let m = if kb.len() < n {
        kb.len()
    } else {
        n
    };
    let table = Vigenere::new();
    let mut r = String::new();
    let mut i: usize = 0;
    while i < m
        invariant
            table.wf(),
            pb@ == plaintext.spec_bytes(),
            n == pb@.len(),
            ks@ == cycled(key@, n as nat),
            kb@ == encode_utf8(ks@),
            m == if key@.len() == 0 {
                0
            } else {
                n
            },
            m <= kb@.len(),
            forall|x: int| 0 <= x < kb@.len() ==> #[trigger] kb@[x] >= 65,
            key@.len() > 0 ==> forall|x: int| 0 <= x < pb@.len() ==> #[trigger] pb@[x] >= 65,
            i <= m,
            r@.len() == i,
            forall|j: int|
                0 <= j < i ==> #[trigger] r@[j] as int == letter_code(
                    (upper_byte(pb@[j]) - 65) + (kb@[j] as int - 65),
                ),
        decreases m - i,
    {
        let mut t: u8 = pb[i];
        if 97 <= t && t <= 122 {
            t = t - 32;
        }
        let k = kb[i];
        let e = table.get_encrypted((t - 65) as usize, (k - 65) as usize);
        push_char(&mut r, e as char);
        i = i + 1;
    }
    r
}

/// Vigenère decryption: characters that are not ASCII letters are dropped, and
/// each remaining one is shifted back by the matching letter of the repeated key.
pub fn decrypt(ciphertext: &str, key: &str) -> (r: String)
    requires
        ciphertext@.filter(|x: char| is_ascii_alpha(x)).len() > 0 ==> all_upper_letters(key@),
    ensures
        is_decryption(ciphertext@, key@, r@),
{
    let total = ciphertext.unicode_len();
    let mut letters = String::new();
    let mut j: usize = 0;
    while j < total
        invariant
            total == ciphertext@.len(),
            j <= total,
            letters@ == ciphertext@.subrange(0, j as int).filter(|x: char| is_ascii_alpha(x)),
            forall|x: int| 0 <= x < letters@.len() ==> is_ascii_alpha(#[trigger] letters@[x]),
        decreases total - j,
    {
        let c = ciphertext.get_char(j);
        let ghost before = ciphertext@.subrange(0, j as int);
        let ghost after = ciphertext@.subrange(0, j + 1);
        proof {
            reveal(Seq::filter);
            assert(after.drop_last() =~= before);
            assert(after.last() == c);
            assert(after.filter(|x: char| is_ascii_alpha(x)) == if is_ascii_alpha(c) {
                before.filter(|x: char| is_ascii_alpha(x)).push(c)
            } else {
                before.filter(|x: char| is_ascii_alpha(x))
            });
        }
        let v: u32 = c as u32;
        if (65 <= v && v <= 90) || (97 <= v && v <= 122) {
            push_char(&mut letters, c);
        }
        j = j + 1;
    }
    assert(ciphertext@.subrange(0, total as int) =~= ciphertext@);
    let letters_str = letters.as_str();
    let n_letters = letters_str.unicode_len();
    proof {
        assert(is_ascii_chars(letters@));
        is_ascii_chars_encode_utf8(letters@);
        assert(letters_str.spec_bytes() == encode_utf8(letters@));
    }
    assert(letters_str.len() == n_letters);
    let ks = key_to_same_length(letters_str, key);
    let table = Vigenere::new();
    let n = ks.as_str().unicode_len();
    let ghost k = ks@;
    let mut r = String::new();
    let mut i: usize = 0;
    while i < n
        invariant
            table.wf(),
            k == ks@,
            n == k.len(),
            k == cycled(key@, letters@.len()),
            letters_str@ == letters@,
            n > 0 ==> all_upper_letters(key@),
            forall|x: int| 0 <= x < letters@.len() ==> is_ascii_alpha(#[trigger] letters@[x]),
            i <= n,
            r@.len() == i,
            forall|x: int|
                0 <= x < i ==> #[trigger] r@[x] as int == letter_code(
                    (letters@[x] as int - 65) + 26 - (k[x] as int - 65),
                ),
        decreases n - i,
    {
        let c = letters_str.get_char(i);
        let kc = ks.as_str().get_char(i);
        proof {
            if key@.len() > 0 {
                let m = i as int % key@.len() as int;
                assert(0 <= m < key@.len());
                assert(kc == key@[m]);
            }
        }
        let cv: u32 = c as u32;
        let kv: u32 = kc as u32;
        let d = table.get_decrypted((cv - 65) as usize, (kv - 65) as usize);
        push_char(&mut r, d as char);
        i = i + 1;
    }
    r
}

} // verus!
