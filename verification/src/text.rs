use vstd::prelude::*;
use vstd::utf8::{decode_utf8, valid_utf8};

verus! {

/// What `String::from_utf8_lossy` makes of bytes that are not valid UTF-8.
pub uninterp spec fn utf8_lossy(bytes: Seq<u8>) -> Seq<char>;

/// The text that lossy UTF-8 decoding gives for `bytes`: the decoded characters
/// when the bytes are valid UTF-8, the replacement-character form otherwise.
pub open spec fn lossy_text(bytes: Seq<u8>) -> Seq<char> {
    if valid_utf8(bytes) {
        decode_utf8(bytes)
    } else {
        utf8_lossy(bytes)
    }
}

/// Calls `String::from_utf8_lossy`. Its documentation promises that valid UTF-8
/// comes back as the same text; for other input the result is named, and what
/// replacement characters stand where is left unsaid.
#[verifier::external_body]
pub(crate) fn from_utf8_lossy(bytes: &[u8]) -> (s: String)
    ensures
        valid_utf8(bytes@) ==> s@ == decode_utf8(bytes@),
        !valid_utf8(bytes@) ==> s@ == utf8_lossy(bytes@),
{
    String::from_utf8_lossy(bytes).into_owned()
}

/// `s` without the NUL characters at its end.
pub open spec fn trim_trailing_nul(s: Seq<char>) -> Seq<char>
    decreases s.len(),
{
    if s.len() > 0 && s.last() == '\0' {
        trim_trailing_nul(s.drop_last())
    } else {
        s
    }
}

proof fn lemma_trim_prefix(s: Seq<char>, k: int)
    requires
        0 < k <= s.len(),
        s[k - 1] == '\0',
        trim_trailing_nul(s) == trim_trailing_nul(s.take(k)),
    ensures
        trim_trailing_nul(s) == trim_trailing_nul(s.take(k - 1)),
{
    assert(s.take(k).drop_last() == s.take(k - 1));
}

/// Removes the NUL characters at the end of `s`.
pub fn trim_nul_end(s: &str) -> (r: String)
    ensures
        r@ == trim_trailing_nul(s@),
{
    let n = s.unicode_len();
    let mut k = n;
    assert(s@.take(n as int) == s@);
    while k > 0 && s.get_char(k - 1) == '\0'
        invariant
            n == s@.len(),
            k <= n,
            trim_trailing_nul(s@) == trim_trailing_nul(s@.take(k as int)),
        decreases k,
    {
        proof {
            lemma_trim_prefix(s@, k as int);
        }
        k = k - 1;
    }
    proof {
        if k > 0 {
            assert(s@.take(k as int).last() == s@[k - 1]);
        }
    }
    s.substring_char(0, k).to_owned()
}

/// Calls `String::push`, which appends one character.
#[verifier::external_body]
pub(crate) fn push_char(s: &mut String, c: char)
    ensures
        final(s)@ == old(s)@.push(c),
{
    s.push(c)
}

/// `s` with every backslash turned into a forward slash.
pub open spec fn forward_slashes(s: Seq<char>) -> Seq<char> {
    s.map_values(|c: char| if c == '\\' { '/' } else { c })
}

/// The name under which a file found at relative path `rel` is stored: path
/// separators are written as forward slashes whatever the platform.
pub fn archive_entry_name(rel: &str) -> (r: String)
    ensures
        r@ == forward_slashes(rel@),
        r@.len() == rel@.len(),
        forall|i: int|
            0 <= i < rel@.len() ==> #[trigger] r@[i] == if rel@[i] == '\\' {
                '/'
            } else {
                rel@[i]
            },
{
    let n = rel.unicode_len();
    let mut out = String::new();
    let mut i: usize = 0;
    while i < n
        invariant
            n == rel@.len(),
            i <= n,
            out@ == forward_slashes(rel@.take(i as int)),
        decreases n - i,
    {
        let c = rel.get_char(i);
        if c == '\\' {
            push_char(&mut out, '/');
        } else {
            push_char(&mut out, c);
        }
        assert(rel@.take(i + 1) == rel@.take(i as int).push(c));
        i = i + 1;
    }
    assert(rel@.take(n as int) == rel@);
    out
}

} // verus!
