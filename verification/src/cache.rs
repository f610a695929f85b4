//! Framing of the parsed-book cache file: an 8-byte tag, the book file's
//! modification time and size (little-endian `u64`s), then the encoded book.
//! A cache whose recorded time or size differs from the book file is stale.

use vstd::prelude::*;
use vstd::bytes::{
    lemma_auto_spec_u64_to_from_le_bytes, spec_u64_from_le_bytes, spec_u64_to_le_bytes,
    u64_from_le_bytes, u64_to_le_bytes,
};
use vstd::slice::slice_subrange;
use crate::path::{after_last_separator, after_last_slash, has_portable_file_name, is_any_separator, last_dot};
use crate::text::has_suffix;

verus! {

/// Number of bytes before the encoded book: tag, time, size.
pub const CACHE_HEADER_LEN: usize = 24;

/// The tag that opens every cache file (`RERPC001` in ASCII).
pub open spec fn cache_magic() -> Seq<u8> {
    seq![0x52u8, 0x45u8, 0x52u8, 0x50u8, 0x43u8, 0x30u8, 0x30u8, 0x31u8]
}

/// The bytes of a cache file for a book file with the given modification time
/// (seconds since the Unix epoch) and size, holding `payload`.
pub open spec fn cache_frame(mtime: u64, size: u64, payload: Seq<u8>) -> Seq<u8> {
    cache_magic() + spec_u64_to_le_bytes(mtime) + spec_u64_to_le_bytes(size) + payload
}

/// What a cache file yields for a book file with the given time and size: the
/// payload when the file is long enough, carries the tag, and records that
/// same time and size; nothing otherwise.
pub open spec fn cache_payload(data: Seq<u8>, mtime: u64, size: u64) -> Option<Seq<u8>> {
    if data.len() < 24 || data.take(8) != cache_magic() {
        None
    } else if spec_u64_from_le_bytes(data.subrange(8, 16)) != mtime
        || spec_u64_from_le_bytes(data.subrange(16, 24)) != size {
        None
    } else {
        Some(data.skip(24))
    }
}

/// The cache tag.
pub fn cache_magic_bytes() -> (m: Vec<u8>)
    ensures
        m@ == cache_magic(),
{
    let mut m: Vec<u8> = Vec::new();
    m.push(0x52u8);
    m.push(0x45u8);
    m.push(0x52u8);
    m.push(0x50u8);
    m.push(0x43u8);
    m.push(0x30u8);
    m.push(0x30u8);
    m.push(0x31u8);
    assert(m@ =~= cache_magic());
    m
}

/// Appends the bytes of `src` to `dst`.
fn append_bytes(dst: &mut Vec<u8>, src: &[u8])
    ensures
        final(dst)@ == old(dst)@ + src@,
{
    let ghost start = dst@;
    let mut i: usize = 0;
    while i < src.len()
        invariant
            i <= src.len(),
            dst@ == start + src@.take(i as int),
        decreases src.len() - i,
    {
        dst.push(src[i]);
        i += 1;
        assert(start + src@.take(i as int) =~= (start + src@.take(i - 1)).push(src@[i - 1]));
    }
    assert(src@.take(src.len() as int) =~= src@);
}

/// Builds the cache file for a book file with the given time and size.
pub fn frame_cache(mtime: u64, size: u64, payload: &[u8]) -> (out: Vec<u8>)
    ensures
        out@ == cache_frame(mtime, size, payload@),
{
    let mut out = cache_magic_bytes();
    let t = u64_to_le_bytes(mtime);
    append_bytes(&mut out, t.as_slice());
    let s = u64_to_le_bytes(size);
    append_bytes(&mut out, s.as_slice());
    append_bytes(&mut out, payload);
    out
}

/// The payload of a cache file, or `None` when the file is too short, lacks
/// the tag, or was written for a book file of another time or size.
pub fn cached_payload(data: &[u8], mtime: u64, size: u64) -> (r: Option<&[u8]>)
    ensures
        r matches Some(p) ==> cache_payload(data@, mtime, size) == Some(p@),
        r is None ==> cache_payload(data@, mtime, size) is None,
{
    if data.len() < CACHE_HEADER_LEN {
        return None;
    }
    let magic = cache_magic_bytes();
    let mut i: usize = 0;
    while i < 8
        invariant
            data@.len() >= 24,
            magic@ == cache_magic(),
            i <= 8,
            forall|j: int| 0 <= j < i ==> data@[j] == magic@[j],
        decreases 8 - i,
    {
        if data[i] != magic[i] {
            assert(data@.take(8)[i as int] != cache_magic()[i as int]);
            return None;
        }
        i += 1;
    }
    assert(data@.take(8) =~= cache_magic());
    let stored_mtime = u64_from_le_bytes(slice_subrange(data, 8, 16));
    let stored_size = u64_from_le_bytes(slice_subrange(data, 16, 24));
    if stored_mtime != mtime || stored_size != size {
        return None;
    }
    let p = slice_subrange(data, 24, data.len());
    assert(p@ =~= data@.skip(24));
    Some(p)
}

/// Reading back a freshly written cache file, for the same book time and
/// size, yields exactly the payload that was written.
pub proof fn law_cache_roundtrip(mtime: u64, size: u64, payload: Seq<u8>)
    ensures
        cache_payload(cache_frame(mtime, size, payload), mtime, size) == Some(payload),
{
    lemma_auto_spec_u64_to_from_le_bytes();
    let d = cache_frame(mtime, size, payload);
    assert(d.take(8) =~= cache_magic());
    assert(d.subrange(8, 16) =~= spec_u64_to_le_bytes(mtime));
    assert(d.subrange(16, 24) =~= spec_u64_to_le_bytes(size));
    assert(d.skip(24) =~= payload);
}

/// A cache file written for one book time and size is rejected as stale for
/// any other time or size.
pub proof fn law_cache_stale_rejected(mtime: u64, size: u64, payload: Seq<u8>, mtime2: u64, size2: u64)
    requires
        mtime != mtime2 || size != size2,
    ensures
        cache_payload(cache_frame(mtime, size, payload), mtime2, size2) is None,
{
    lemma_auto_spec_u64_to_from_le_bytes();
    let d = cache_frame(mtime, size, payload);
    assert(d.take(8) =~= cache_magic());
    assert(d.subrange(8, 16) =~= spec_u64_to_le_bytes(mtime));
    assert(d.subrange(16, 24) =~= spec_u64_to_le_bytes(size));
}

/// A cache file that is accepted is exactly the frame of what it yields: no two
/// different files yield the same payload for the same book time and size.
pub proof fn law_cache_accepted_is_frame(data: Seq<u8>, mtime: u64, size: u64)
    ensures
        cache_payload(data, mtime, size) matches Some(p) ==> data == cache_frame(mtime, size, p),
{
    lemma_auto_spec_u64_to_from_le_bytes();
    if let Some(p) = cache_payload(data, mtime, size) {
        let a = data.subrange(8, 16);
        let b = data.subrange(16, 24);
        assert(spec_u64_to_le_bytes(spec_u64_from_le_bytes(a)) == a);
        assert(spec_u64_to_le_bytes(spec_u64_from_le_bytes(b)) == b);
        assert(data =~= cache_frame(mtime, size, p));
    }
}

/// The path with its file extension set to `extension`.
///
/// Trusted: wraps `std::path::Path::with_extension`. Its documentation (see
/// `PathBuf::set_extension`) says the path is returned unchanged when it has no
/// file name, and otherwise cut after its file stem and given `.` and the new
/// extension; it panics when the extension holds a path separator, which the
/// `requires` rules out. The contract claims that general shape for every
/// path, and the exact result where the path ends in a file name that every
/// platform reads alike (`extension_settles`): cut at the last `.` of that
/// name when it has one after its first character, otherwise extended. For
/// other paths (a network or drive prefix in the last piece, a trailing
/// separator, `.` or `..`) where the stem ends depends on the platform's path
/// syntax, and that is left unsaid.
#[verifier::external_body]
fn path_with_extension(path: &str, extension: &str) -> (r: String)
    requires
        extension@.len() > 0,
        forall|i: int| 0 <= i < extension@.len() ==> #[trigger] extension@[i] != '/' && extension@[i] != '\\',
    ensures
        r@ == path@ || exists|k: int| 0 <= k <= path@.len() && r@ == path@.take(k) + seq!['.'] + extension@,
        path@.len() == 0 ==> r@ == path@,
        extension_settles(path@) ==> r@ == with_extension_spec(path@, extension@),
{
    std::path::Path::new(path).with_extension(extension).to_string_lossy().into_owned()
}

/// The path ends in a file name that every platform reads alike and whose
/// stem every platform cuts at the same place: the final piece after `/` or
/// `\` is portable (`has_portable_file_name`), and either it has a `.` after
/// its first character, or neither it nor the text after the last `/` has one.
pub open spec fn extension_settles(path: Seq<char>) -> bool {
    &&& has_portable_file_name(path)
    &&& (last_dot(after_last_separator(path)) > 0 || last_dot(after_last_slash(path)) <= 0)
}

/// A path whose extension settles, given `extension`: cut at its last `.` when
/// its file name has a `.` after its first character, otherwise extended, and
/// then followed by `.` and `extension`.
pub open spec fn with_extension_spec(path: Seq<char>, extension: Seq<char>) -> Seq<char> {
    if last_dot(after_last_separator(path)) > 0 {
        path.take(last_dot(path)) + seq!['.'] + extension
    } else {
        path + seq!['.'] + extension
    }
}

/// The extension given to the cache file kept beside a book file.
pub open spec fn cache_extension() -> Seq<char> {
    "parse.bin"@
}

/// The path of the cache file kept beside the book file at `epub_path`: the
/// same path with the extension `parse.bin`. Where the path ends in a file
/// name that every platform reads alike, that is the path cut at the name's
/// last inner `.` (or all of it when there is none) followed by `.parse.bin`,
/// so `/books/novel.epub` gives `/books/novel.parse.bin` and
/// `C:\books\novel.epub` gives `C:\books\novel.parse.bin`; an empty path stays
/// empty.
pub fn sibling_cache_path(epub_path: &str) -> (r: String)
    ensures
        r@ == epub_path@ || exists|k: int|
            0 <= k <= epub_path@.len() && r@ == epub_path@.take(k) + seq!['.'] + cache_extension(),
        epub_path@.len() == 0 ==> r@ == epub_path@,
        extension_settles(epub_path@) ==> r@ == with_extension_spec(epub_path@, cache_extension()),
        extension_settles(epub_path@) ==> r@ != epub_path@ && has_suffix(r@, seq!['.'] + cache_extension()),
{
    proof {
        reveal_strlit("parse.bin");
    }
    let r = path_with_extension(epub_path, "parse.bin");
    proof {
        if extension_settles(epub_path@) {
            law_cache_path_is_another_file(epub_path@);
        }
    }
    r
}

proof fn lemma_last_dot(s: Seq<char>)
    ensures
        -1 <= last_dot(s) < s.len(),
        last_dot(s) == -1 ==> forall|i: int| 0 <= i < s.len() ==> s[i] != '.',
        last_dot(s) >= 0 ==> s[last_dot(s)] == '.',
        forall|i: int| last_dot(s) < i < s.len() ==> s[i] != '.',
    decreases s.len(),
{
    if s.len() > 0 {
        lemma_last_dot(s.drop_last());
        assert forall|i: int| 0 <= i < s.len() - 1 implies s.drop_last()[i] == s[i] by {}
    }
}

proof fn lemma_after_last_separator_suffix(s: Seq<char>)
    ensures
        after_last_separator(s).len() <= s.len(),
        after_last_separator(s) == s.skip(s.len() - after_last_separator(s).len()),
    decreases s.len(),
{
    if s.len() > 0 {
        lemma_after_last_separator_suffix(s.drop_last());
        let n = after_last_separator(s);
        if is_any_separator(s.last()) {
            assert(s.skip(s.len() as int) =~= n);
        } else {
            let m = after_last_separator(s.drop_last());
            assert(s.drop_last().skip(s.len() - 1 - m.len()).push(s.last()) =~= s.skip(s.len() - n.len()));
        }
    }
}

/// The cache file of a book whose path ends in a file name that every platform
/// reads alike is never the book file itself, and its name ends in
/// `.parse.bin`: saving the cache cannot overwrite the book.
pub proof fn law_cache_path_is_another_file(p: Seq<char>)
    requires
        extension_settles(p),
    ensures
        with_extension_spec(p, cache_extension()) != p,
        has_suffix(with_extension_spec(p, cache_extension()), seq!['.'] + cache_extension()),
{
    reveal_strlit("parse.bin");
    let e = cache_extension();
    let r = with_extension_spec(p, e);
    let name = after_last_separator(p);
    lemma_last_dot(p);
    lemma_last_dot(name);
    lemma_after_last_separator_suffix(p);
    if last_dot(name) > 0 {
        let j = last_dot(name);
        assert(p[p.len() - name.len() + j] == name[j]);
        let k = last_dot(p);
        assert(k >= 0);
        assert(r == p.take(k) + seq!['.'] + e);
        if r == p {
            assert(r.len() == k + 10);
            assert(r[k + 6] == e[5]);
            assert(p[k + 6] == '.');
        }
        assert(r.skip(r.len() - 10) =~= seq!['.'] + e);
    } else {
        assert(r == p + seq!['.'] + e);
        assert(r.len() == p.len() + 10);
        assert(r.skip(r.len() - 10) =~= seq!['.'] + e);
    }
}

} // verus!
