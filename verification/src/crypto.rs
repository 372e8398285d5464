//! The [`Key`] type for encrypted V3 MEGA files, and the AES-128-CBC block arithmetic around it.

use aes::cipher::block_padding::NoPadding;
use aes::cipher::{BlockDecryptMut, BlockEncryptMut, KeyIvInit};
use vstd::prelude::*;
use vstd::string::StringExecFns;

verus! {

/// AES 128 key and initial vector used to encrypt and decrypt V3 MEGA files.
pub struct Key {
    /// 128 bit AES key.
    key: [u8; 16],
    /// Initial vector used for CBC chaining.
    iv: [u8; 16],
}

impl View for Key {
    /// The key bytes and the initial vector bytes.
    type V = (Seq<u8>, Seq<u8>);

    closed spec fn view(&self) -> (Seq<u8>, Seq<u8>) {
        (self.key@, self.iv@)
    }
}

impl Clone for Key {
    fn clone(&self) -> (r: Self)
        ensures
            r@ == self@,
    {
        Key { key: self.key, iv: self.iv }
    }
}

impl Key {
    /// Create a new key from the key bytes and initial vector.
    pub fn new(key: [u8; 16], iv: [u8; 16]) -> (r: Self)
        ensures
            r@ == (key@, iv@),
    {
        Key { key, iv }
    }

    /// Both halves of a key are 16 bytes long.
    pub proof fn lemma_lengths(&self)
        ensures
            self@.0.len() == 16,
            self@.1.len() == 16,
    {
    }

    /// The debug text of the key: `Key { key: <HEX>, iv: <HEX> }`, each half written as 32
    /// upper-case hex digits, most significant nibble of each byte first.
    pub fn debug_string(&self) -> (r: String)
        ensures
            r@ == spec_key_debug_text(self@),
    {
        let mut out = String::new();
        proof {
            reveal_strlit("Key { key: ");
            reveal_strlit(", iv: ");
            reveal_strlit(" }");
        }
        out.append("Key { key: ");
        append_hex(&mut out, &self.key);
        out.append(", iv: ");
        append_hex(&mut out, &self.iv);
        out.append(" }");
        out
    }
}

/// The upper-case hex digit of a nibble.
pub open spec fn spec_hex_digit(n: int) -> char {
    if n < 10 {
        (48 + n) as char
    } else {
        (55 + n) as char
    }
}

/// Each byte as two upper-case hex digits, high nibble first.
pub open spec fn spec_hex_text(s: Seq<u8>) -> Seq<char>
    decreases s.len(),
{
    if s.len() == 0 {
        Seq::empty()
    } else {
        let b = s.last();
        spec_hex_text(s.drop_last()) + seq![spec_hex_digit(b as int / 16), spec_hex_digit(b as int % 16)]
    }
}

/// The debug text of a key viewed as its key bytes and initial vector bytes.
pub open spec fn spec_key_debug_text(k: (Seq<u8>, Seq<u8>)) -> Seq<char> {
    "Key { key: "@ + spec_hex_text(k.0) + ", iv: "@ + spec_hex_text(k.1) + " }"@
}

/// The one-character text of a nibble's hex digit.
fn hex_digit_str(n: u8) -> (r: &'static str)
    requires
        n < 16,
    ensures
        r@ == seq![spec_hex_digit(n as int)],
{
    proof {
        reveal_strlit("0");
        reveal_strlit("1");
        reveal_strlit("2");
        reveal_strlit("3");
        reveal_strlit("4");
        reveal_strlit("5");
        reveal_strlit("6");
        reveal_strlit("7");
        reveal_strlit("8");
        reveal_strlit("9");
        reveal_strlit("A");
        reveal_strlit("B");
        reveal_strlit("C");
        reveal_strlit("D");
        reveal_strlit("E");
        reveal_strlit("F");
    }
    let r = match n {
        0 => "0",
        1 => "1",
        2 => "2",
        3 => "3",
        4 => "4",
        5 => "5",
        6 => "6",
        7 => "7",
        8 => "8",
        9 => "9",
        10 => "A",
        11 => "B",
        12 => "C",
        13 => "D",
        14 => "E",
        _ => "F",
    };
    assert(r@ =~= seq![spec_hex_digit(n as int)]);
    r
}

/// Appends the hex digits of `bytes` to `out`.
fn append_hex(out: &mut String, bytes: &[u8; 16])
    ensures
        final(out)@ == old(out)@ + spec_hex_text(bytes@),
{
    let ghost start = out@;
    let mut i: usize = 0;
    while i < 16
        invariant
            0 <= i <= 16,
            bytes@.len() == 16,
            out@ == start + spec_hex_text(bytes@.take(i as int)),
        decreases 16 - i,
    {
        let b = bytes[i];
        out.append(hex_digit_str(b / 16));
        out.append(hex_digit_str(b % 16));
        proof {
            let t = bytes@.take(i + 1);
            assert(t.drop_last() =~= bytes@.take(i as int));
            assert(t.last() == b);
        }
        i = i + 1;
    }
    assert(bytes@.take(16) =~= bytes@);
}

/// 128 bit AES block size.
pub const BLOCK_SIZE: usize = 16;

/// `n` rounded up to the next multiple of the block size.
pub open spec fn spec_round_up_to_block(n: int) -> int {
    if n % 16 == 0 {
        n
    } else {
        n - n % 16 + 16
    }
}

/// `n` rounded down to a multiple of the block size.
pub open spec fn spec_round_down_to_block(n: int) -> int {
    n - n % 16
}

/// Rounds the given value up to the next multiple of the block size.
pub fn round_up_to_block(n: u64) -> (r: u64)
    requires
        n <= u64::MAX - 15,
    ensures
        r == spec_round_up_to_block(n as int),
        r % 16 == 0,
        n <= r < n + 16,
{
    if n % 16 == 0 {
        n
    } else {
        n - n % 16 + 16
    }
}

/// Rounds the number down to a multiple of the block size.
pub fn round_down_to_block(n: usize) -> (r: usize)
    ensures
        r == spec_round_down_to_block(n as int),
        r % 16 == 0,
        r <= n < r + 16,
{
    n - n % 16
}

/// `data` padded to a whole number of blocks. Data that already fills whole blocks is unchanged;
/// otherwise `k` bytes of value `k` are appended, `k` being the distance to the next block end.
pub open spec fn pad_to_block(data: Seq<u8>) -> Seq<u8> {
    let r = data.len() % 16;
    if r == 0 {
        data
    } else {
        data + Seq::new((16 - r) as nat, |i: int| (16 - r) as u8)
    }
}

/// Pads the buffer out to a whole number of blocks.
pub fn pad(buf: &mut Vec<u8>)
    ensures
        final(buf)@ == pad_to_block(old(buf)@),
        final(buf)@.len() % 16 == 0,
        final(buf)@.len() == spec_round_up_to_block(old(buf)@.len() as int),
{
    let rem = buf.len() % BLOCK_SIZE;
    if rem == 0 {
        return ;
    }
    let needed_fill = BLOCK_SIZE - rem;
    let ghost start = buf@;
    let mut i: usize = 0;
    while i < needed_fill
        invariant
            needed_fill == 16 - start.len() % 16,
            0 < needed_fill < 16,
            0 <= i <= needed_fill,
            buf@ =~= start + Seq::new(i as nat, |j: int| needed_fill as u8),
        decreases needed_fill - i,
    {
        buf.push(needed_fill as u8);
        i = i + 1;
    }
    assert(buf@ =~= pad_to_block(start));
}

/// What AES-128 in CBC mode yields when decrypting `data` under `key` and initial vector `iv`,
/// without any unpadding.
pub uninterp spec fn aes128_cbc_decrypt(key: Seq<u8>, iv: Seq<u8>, data: Seq<u8>) -> Seq<u8>;

/// What AES-128 in CBC mode yields when encrypting `data`, a whole number of blocks, under `key`
/// and initial vector `iv`, without adding padding.
pub uninterp spec fn aes128_cbc_encrypt(key: Seq<u8>, iv: Seq<u8>, data: Seq<u8>) -> Seq<u8>;

/// Decrypts whole blocks with `cbc::Decryptor<aes::Aes128>`, through
/// `BlockDecryptMut::decrypt_padded_mut::<NoPadding>`.
///
/// Claimed: the plaintext is `aes128_cbc_decrypt` of the key, the initial vector and the data, and
/// has the length of the data. With `NoPadding`, unpadding only fails on a length that is not a
/// multiple of the block size, which `requires` rules out.
#[verifier::external_body]
pub(crate) fn cbc_decrypt(key: &Key, data: &[u8]) -> (r: Vec<u8>)
    requires
        data@.len() % 16 == 0,
    ensures
        r@ == aes128_cbc_decrypt(key@.0, key@.1, data@),
        r@.len() == data@.len(),
{
    let mut buf = data.to_vec();
    let dec = cbc::Decryptor::<aes::Aes128>::new((&key.key).into(), (&key.iv).into());
    match dec.decrypt_padded_mut::<NoPadding>(&mut buf) {
        Ok(plain) => plain.to_vec(),
        Err(_) => Vec::new(),
    }
}

/// Encrypts whole blocks with `cbc::Encryptor<aes::Aes128>`, through
/// `BlockEncryptMut::encrypt_padded_mut::<NoPadding>`.
///
/// Claimed: the ciphertext is `aes128_cbc_encrypt` of the key, the initial vector and the data,
/// has the length of the data, and decrypts under the same key and initial vector to the data
/// (CBC decryption inverts CBC encryption). `NoPadding` accepts a message filling whole blocks.
#[verifier::external_body]
pub(crate) fn cbc_encrypt(key: &Key, data: &[u8]) -> (r: Vec<u8>)
    requires
        data@.len() % 16 == 0,
    ensures
        r@ == aes128_cbc_encrypt(key@.0, key@.1, data@),
        r@.len() == data@.len(),
        aes128_cbc_decrypt(key@.0, key@.1, r@) == data@,
{
    let mut buf = data.to_vec();
    let len = buf.len();
    let enc = cbc::Encryptor::<aes::Aes128>::new((&key.key).into(), (&key.iv).into());
    match enc.encrypt_padded_mut::<NoPadding>(&mut buf, len) {
        Ok(cipher) => cipher.to_vec(),
        Err(_) => Vec::new(),
    }
}

/// Encrypting `data` under `key` gives as many bytes, which decrypt to `data`. The encryption
/// wrapper states this of every block-aligned input it encrypts.
pub open spec fn cipher_roundtrips(key: (Seq<u8>, Seq<u8>), data: Seq<u8>) -> bool {
    &&& aes128_cbc_encrypt(key.0, key.1, data).len() == data.len()
    &&& aes128_cbc_decrypt(key.0, key.1, aes128_cbc_encrypt(key.0, key.1, data)) == data
}

/// The bytes stored for `data` in an encrypted section: the data padded to whole blocks, then
/// encrypted.
pub open spec fn spec_encrypt_section(key: (Seq<u8>, Seq<u8>), data: Seq<u8>) -> Seq<u8> {
    aes128_cbc_encrypt(key.0, key.1, pad_to_block(data))
}

/// Pads `data` to whole blocks and encrypts it.
pub fn encrypt_section(key: &Key, data: &[u8]) -> (r: Vec<u8>)
    ensures
        r@ == spec_encrypt_section(key@, data@),
        r@.len() == spec_round_up_to_block(data@.len() as int),
        aes128_cbc_decrypt(key@.0, key@.1, r@) == pad_to_block(data@),
        cipher_roundtrips(key@, pad_to_block(data@)),
{
    let mut buf = vstd::slice::slice_to_vec(data);
    pad(&mut buf);
    cbc_encrypt(key, buf.as_slice())
}

} // verus!
