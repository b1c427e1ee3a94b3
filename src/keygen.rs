use vstd::prelude::*;

verus! {

/// What std's `DefaultHasher` (built by `new`) yields for a string.
pub uninterp spec fn default_hash_of(text: Seq<char>) -> u64;

/// What base64's URL-safe, unpadded engine yields for a byte string.
pub uninterp spec fn url_safe_base64_of(bytes: Seq<u8>) -> Seq<char>;

/// A character of the URL-safe base64 alphabet.
pub open spec fn url_safe_char(c: char) -> bool {
    ('A' <= c && c <= 'Z') || ('a' <= c && c <= 'z') || ('0' <= c && c <= '9') || c == '-' || c == '_'
}

/// The first `n` bytes of `x` in little-endian order.
pub open spec fn le_bytes_of(x: nat, n: nat) -> Seq<u8>
    decreases n,
{
    if n == 0 {
        Seq::empty()
    } else {
        seq![(x % 256) as u8] + le_bytes_of(x / 256, (n - 1) as nat)
    }
}

/// The text from which aliases for `link` are cut: its 64-bit hash,
/// as eight little-endian bytes, in URL-safe unpadded base64.
pub open spec fn hash_code_of(link: Seq<char>) -> Seq<char> {
    url_safe_base64_of(le_bytes_of(default_hash_of(link) as nat, 8))
}

proof fn lemma_le_bytes_len(x: nat, n: nat)
    ensures
        le_bytes_of(x, n).len() == n,
    decreases n,
{
    if n > 0 {
        lemma_le_bytes_len(x / 256, (n - 1) as nat);
    }
}

/// Relies on std's `DefaultHasher::new`, fed with `str`'s `Hash` impl and read
/// with `finish`. Every hasher that `new` builds is the same one, with no
/// per-process seed, so the result depends on the text alone (std keeps the
/// right to change the algorithm between its releases).
#[verifier::external_body]
fn hash_text(text: &str) -> (r: u64)
    ensures
        r == default_hash_of(text@),
{
    let mut hasher = std::hash::DefaultHasher::new();
    std::hash::Hash::hash(text, &mut hasher);
    std::hash::Hasher::finish(&hasher)
}

/// Relies on base64's `Engine::encode` with the `BASE64_URL_SAFE_NO_PAD`
/// engine: the encoding depends on the bytes alone, is `encoded_len(n, false)`
/// characters long (four per three bytes, two or three for a remainder of one
/// or two), and uses the `URL_SAFE` alphabet. It panics only where that length
/// does not fit in `usize`.
#[verifier::external_body]
fn encode_url_safe(bytes: &[u8]) -> (r: String)
    requires
        bytes@.len() * 4 <= usize::MAX,
    ensures
        r@ == url_safe_base64_of(bytes@),
        r@.len() == (4 * bytes@.len() + 2) / 3,
        forall|i: int| 0 <= i < r@.len() ==> url_safe_char(#[trigger] r@[i]),
{
    base64::Engine::encode(&base64::prelude::BASE64_URL_SAFE_NO_PAD, bytes)
}

/// The eight bytes of `x`, least significant first.
pub fn le_bytes(x: u64) -> (r: Vec<u8>)
    ensures
        r@ == le_bytes_of(x as nat, 8),
{
    let mut out: Vec<u8> = Vec::new();
    let mut v: u64 = x;
    let mut i: usize = 0;
    while i < 8
        invariant
            i <= 8,
            out@ + le_bytes_of(v as nat, (8 - i) as nat) == le_bytes_of(x as nat, 8),
        decreases 8 - i,
    {
        let ghost rest = le_bytes_of(v as nat, (8 - i) as nat);
        let b: u8 = (v % 256) as u8;
        assert(rest == seq![b] + le_bytes_of((v / 256) as nat, (8 - i - 1) as nat));
        assert(out@.push(b) + le_bytes_of((v / 256) as nat, (8 - i - 1) as nat) =~= out@ + rest);
        out.push(b);
        v = v / 256;
        i = i + 1;
    }
    assert(out@ + le_bytes_of(v as nat, 0) =~= out@);
    out
}

/// The hash code of `link`, from which its generated aliases are cut:
/// eleven characters of the URL-safe alphabet.
pub fn link_hash_code(link: &str) -> (r: String)
    ensures
        r@ == hash_code_of(link@),
        r@.len() == 11,
        forall|i: int| 0 <= i < r@.len() ==> url_safe_char(#[trigger] r@[i]),
{
    let h = hash_text(link);
    let bytes = le_bytes(h);
    proof {
        lemma_le_bytes_len(h as nat, 8);
    }
    encode_url_safe(bytes.as_slice())
}

} // verus!
