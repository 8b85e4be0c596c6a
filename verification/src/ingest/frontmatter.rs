//! Raw blobs: how they are named after their content, how a name leads back to
//! the blob, and the frontmatter they carry.

use vstd::prelude::*;
use vstd::utf8::encode_utf8;

use crate::manifest::model::{path_among, Manifest};
use crate::paths::{
    file_name, file_name_of, file_stem, file_stem_of, join_path, lemma_pieces, path_from, pieces,
    pieces_of,
};
use crate::search::query::{raw_title, raw_title_and_body};
use crate::text::{
    alnum, byte_len, byte_prefix, chars_of, copy_texts, find_from, has_part, has_prefix, has_suffix,
    is_alnum, is_white, lemma_ascii_bytes, lemma_find_from, lower, lowered, occurs_at, opt_view,
    split_at_first, split_once, starts_with, strip_prefix, strip_suffix, text_eq, text_slice,
    to_lower, trim, trimmed, views,
};
use crate::vault::okf_schema::OKF_SCHEMA_VERSION;
use crate::vault::vault_resolver::{sandbox_steps, sandboxed, SandboxError};

verus! {

// ---------------------------------------------------------------------------
// Hashes and raw ids
// ---------------------------------------------------------------------------

/// The SHA-256 digest of a sequence of bytes.
pub uninterp spec fn sha256_digest(bytes: Seq<u8>) -> Seq<u8>;

/// Calls `sha2::Sha256::digest`. Its result is a function of the bytes alone and
/// is 32 bytes long.
#[verifier::external_body]
fn sha256(bytes: &[u8]) -> (r: Vec<u8>)
    ensures
        r@ == sha256_digest(bytes@),
        r@.len() == 32,
{
    <sha2::Sha256 as sha2::Digest>::digest(bytes).to_vec()
}

/// The lower-case hexadecimal digit for a value below sixteen.
pub open spec fn hex_digit(d: nat) -> char {
    if d < 10 {
        ('0' as nat + d) as char
    } else {
        ('a' as nat + (d - 10)) as char
    }
}

/// The bytes in hexadecimal, two digits each.
pub open spec fn hex(bytes: Seq<u8>) -> Seq<char>
    decreases bytes.len(),
{
    if bytes.len() == 0 {
        seq![]
    } else {
        hex(bytes.drop_last()) + seq![
            hex_digit(bytes.last() as nat / 16),
            hex_digit(bytes.last() as nat % 16),
        ]
    }
}

fn hex_char(d: u8) -> (r: char)
    requires
        d < 16,
    ensures
        r == hex_digit(d as nat),
{
    match d {
        0 => '0',
        1 => '1',
        2 => '2',
        3 => '3',
        4 => '4',
        5 => '5',
        6 => '6',
        7 => '7',
        8 => '8',
        9 => '9',
        10 => 'a',
        11 => 'b',
        12 => 'c',
        13 => 'd',
        14 => 'e',
        _ => 'f',
    }
}

/// The bytes in hexadecimal, two digits each.
pub fn hex_text(bytes: &Vec<u8>) -> (r: String)
    ensures
        r@ == hex(bytes@),
{
    let mut out = String::new();
    let mut i: usize = 0;
    while i < bytes.len()
        invariant
            i <= bytes@.len(),
            out@ == hex(bytes@.take(i as int)),
        decreases bytes@.len() - i,
    {
        assert(bytes@.take(i + 1).drop_last() =~= bytes@.take(i as int));
        out.push(hex_char(bytes[i] / 16));
        out.push(hex_char(bytes[i] % 16));
        assert(out@ =~= hex(bytes@.take(i + 1)));
        i += 1;
    }
    assert(bytes@.take(bytes@.len() as int) =~= bytes@);
    out
}

/// The checksum of a text: `sha256:` and the digest of its bytes in hexadecimal.
pub open spec fn content_hash(content: Seq<char>) -> Seq<char> {
    "sha256:"@ + hex(sha256_digest(encode_utf8(content)))
}

/// The checksum of `content`.
pub fn hash_content(content: &str) -> (r: String)
    ensures
        r@ == content_hash(content@),
        has_prefix(r@, "sha256:"@),
        r@.len() == 71,
{
    let digest = sha256(content.as_bytes());
    let mut out = "sha256:".to_string();
    let digits = hex_text(&digest);
    out.append(digits.as_str());
    proof {
        lemma_hex(digest@);
        reveal_strlit("sha256:");
        assert(out@.subrange(0, 7) =~= "sha256:"@);
    }
    out
}

/// A digest in hexadecimal has two digits for each byte, all of them digits or
/// small letters.
pub proof fn lemma_hex(bytes: Seq<u8>)
    ensures
        hex(bytes).len() == 2 * bytes.len(),
        forall|i: int|
            0 <= i < hex(bytes).len() ==> '0' <= #[trigger] hex(bytes)[i] <= '9' || 'a' <= hex(
                bytes,
            )[i] <= 'f',
    decreases bytes.len(),
{
    if bytes.len() > 0 {
        lemma_hex(bytes.drop_last());
        let d = bytes.last() as nat;
        assert(d / 16 < 16 && d % 16 < 16);
        let front = hex(bytes.drop_last());
        assert forall|i: int| 0 <= i < hex(bytes).len() implies '0' <= #[trigger] hex(bytes)[i]
            <= '9' || 'a' <= hex(bytes)[i] <= 'f' by {
            if i < front.len() {
                assert(hex(bytes)[i] == front[i]);
            }
        }
    }
}

/// A hash without the `sha256:` in front of it.
pub open spec fn hash_digits(hash: Seq<char>) -> Seq<char> {
    if has_prefix(hash, "sha256:"@) {
        hash.skip("sha256:"@.len() as int)
    } else {
        hash
    }
}

/// Whether ten bytes into `digits` a character ends, or there are fewer.
pub open spec fn ten_bytes_at(digits: Seq<char>, k: int) -> bool {
    0 <= k <= digits.len() && byte_len(digits.take(k)) == (if byte_len(digits) < 10 {
        byte_len(digits)
    } else {
        10
    })
}

/// The raw id for content with this hash: `raw_` and the first ten bytes of its
/// digits.
pub fn raw_id_for(hash: &str) -> (r: String)
    requires
        exists|k: int| #[trigger] ten_bytes_at(hash_digits(hash@), k),
    ensures
        exists|k: int| #[trigger]
            ten_bytes_at(hash_digits(hash@), k) && r@ == "raw_"@ + hash_digits(hash@).take(k),
{
    let digits: String = match strip_prefix(hash, "sha256:") {
        Some(rest) => rest,
        None => hash.to_string(),
    };
    assert(digits@ == hash_digits(hash@));
    proof {
        let k = choose|k: int| #[trigger] ten_bytes_at(hash_digits(hash@), k);
        assert(byte_len(digits@.take(k)) == (if byte_len(digits@) < 10 {
            byte_len(digits@)
        } else {
            10
        }));
    }
    let front = byte_prefix(digits.as_str(), 10);
    proof {
        let k = choose|k: int|
            0 <= k <= digits@.len() && front@ == (#[trigger] digits@.take(k)) && byte_len(front@)
                == (if byte_len(digits@) < 10 {
                byte_len(digits@)
            } else {
                10
            });
        assert(ten_bytes_at(hash_digits(hash@), k));
    }
    let mut out = "raw_".to_string();
    out.append(front.as_str());
    out
}

/// Whether `source` is a web address rather than a path.
pub open spec fn web_address(source: Seq<char>) -> bool {
    has_prefix(source, "http://"@) || has_prefix(source, "https://"@)
}

/// Whether `source` is a web address rather than a path.
pub fn is_url(source: &str) -> (r: bool)
    ensures
        r == web_address(source@),
{
    starts_with(source, "http://") || starts_with(source, "https://")
}

// ---------------------------------------------------------------------------
// From a path to the raw id it names
// ---------------------------------------------------------------------------

/// What follows the last slash or backslash.
pub open spec fn basename(s: Seq<char>) -> Seq<char>
    decreases s.len(),
{
    if s.len() == 0 || s.last() == '/' || s.last() == '\\' {
        seq![]
    } else {
        basename(s.drop_last()).push(s.last())
    }
}

/// What follows the last slash or backslash.
pub fn basename_of(s: &str) -> (r: String)
    ensures
        r@ == basename(s@),
{
    let cs = chars_of(s);
    let n: usize = cs.len();
    let mut k: usize = n;
    assert(cs@.take(k as int) =~= s@);
    assert(cs@.subrange(k as int, n as int) =~= seq![]);
    assert(basename(cs@.take(k as int)) + cs@.subrange(k as int, n as int) =~= basename(s@));
    while k > 0 && cs[k - 1] != '/' && cs[k - 1] != '\\'
        invariant
            k <= n == cs@.len(),
            cs@ == s@,
            basename(cs@.take(k as int)) + cs@.subrange(k as int, n as int) == basename(s@),
        decreases k,
    {
        proof {
            assert(cs@.take(k as int).drop_last() =~= cs@.take(k - 1));
            assert(basename(cs@.take(k as int)) + cs@.subrange(k as int, n as int) =~= basename(
                cs@.take(k - 1),
            ) + cs@.subrange(k - 1, n as int));
        }
        k -= 1;
    }
    assert(basename(cs@.take(k as int)) =~= seq![]);
    assert(cs@.subrange(k as int, n as int) =~= basename(s@));
    text_slice(&cs, k, n)
}

/// A file name without a `.md` at its end.
pub open spec fn without_md(name: Seq<char>) -> Seq<char> {
    if has_suffix(name, ".md"@) {
        name.take(name.len() - ".md"@.len())
    } else {
        name
    }
}

/// What precedes the first `--`, or all of it.
pub open spec fn before_slug(stem: Seq<char>) -> Seq<char> {
    match split_once(stem, "--"@) {
        Some((id, slug)) => id,
        None => stem,
    }
}

/// The raw id that a resource names: its last step, without a `.md` at the end and
/// without what follows the first `--`. Nothing if nothing is left.
pub open spec fn raw_identity(resource: Seq<char>) -> Option<Seq<char>> {
    let id = trim(before_slug(without_md(basename(trim(resource)))));
    if id.len() == 0 {
        None
    } else {
        Some(id)
    }
}

/// The raw id that a page's `sources:` entry names. Entries are written by people
/// and models, so any text is taken; whether a blob with that id exists is for
/// `resolve_raw_path` to say.
pub fn raw_id_from_resource(resource: &str) -> (r: Option<String>)
    ensures
        opt_view(r) == raw_identity(resource@),
{
    let whole = trimmed(resource);
    let base = basename_of(whole.as_str());
    let stem: String = match strip_suffix(base.as_str(), ".md") {
        Some(s) => s,
        None => base,
    };
    let id: String = match split_at_first(stem.as_str(), "--") {
        Some((id, _)) => id,
        None => stem,
    };
    let id = trimmed(id.as_str());
    if id.as_str().is_empty() {
        None
    } else {
        Some(id)
    }
}

/// The raw id that the name of a file under `raw/` carries.
pub open spec fn filename_identity(path: Seq<char>) -> Option<Seq<char>> {
    match file_name(path) {
        Some(name) => raw_identity(name),
        None => None,
    }
}

/// The raw id that the name of a file under `raw/` carries.
pub fn raw_id_from_filename(path: &str) -> (r: Option<String>)
    ensures
        opt_view(r) == filename_identity(path@),
{
    match file_name_of(path) {
        Some(name) => raw_id_from_resource(name.as_str()),
        None => None,
    }
}

// ---------------------------------------------------------------------------
// From a raw id to its file
// ---------------------------------------------------------------------------

/// Something that stands on disk in a vault.
#[derive(Debug)]
pub struct RawFile {
    /// The vault-relative path.
    pub path: String,
    /// Whether it is a plain file.
    pub is_file: bool,
    /// What it holds, or why it cannot be read as text.
    pub content: Result<String, String>,
}

/// What reading a text came to: the text, or why it could not be read.
pub open spec fn read_view(r: Result<String, String>) -> Result<Seq<char>, Seq<char>> {
    match r {
        Ok(text) => Ok(text@),
        Err(e) => Err(e@),
    }
}

/// Whether a vault-relative path is that of an entry of `raw/`.
pub open spec fn is_raw_entry(path: Seq<char>) -> bool {
    pieces(path, '/').len() == 2 && pieces(path, '/')[0] == "raw"@
}

/// Whether a vault-relative path is that of an entry of `raw/`.
pub(crate) fn raw_entry(path: &str) -> (r: bool)
    ensures
        r == is_raw_entry(path@),
{
    let parts = pieces_of(path, '/');
    if parts.len() != 2 {
        return false;
    }
    assert(views(parts@)[0] == parts@[0]@);
    text_eq(parts[0].as_str(), "raw")
}

/// Whether `path` is that of a plain file.
pub open spec fn is_present(files: Seq<RawFile>, path: Seq<char>) -> bool {
    exists|i: int|
        0 <= i < files.len() && (#[trigger] files[i]).path@ == path && files[i].is_file
}

fn present(files: &Vec<RawFile>, path: &str) -> (r: bool)
    ensures
        r == is_present(files@, path@),
{
    let mut i: usize = 0;
    while i < files.len()
        invariant
            i <= files@.len(),
            forall|j: int|
                0 <= j < i ==> !((#[trigger] files@[j]).path@ == path@ && files@[j].is_file),
        decreases files@.len() - i,
    {
        if files[i].is_file && text_eq(files[i].path.as_str(), path) {
            return true;
        }
        i += 1;
    }
    false
}

/// Whether `file` is an entry of `raw/` whose name carries `raw_id`.
pub open spec fn carries(file: RawFile, raw_id: Seq<char>) -> bool {
    is_raw_entry(file.path@) && filename_identity(file.path@) == Some(raw_id)
}

/// The first entry of `raw/`, from position `from` on, whose name carries
/// `raw_id`.
pub open spec fn scan(files: Seq<RawFile>, raw_id: Seq<char>, from: int) -> Option<Seq<char>>
    decreases files.len() - from,
{
    if from < 0 || from >= files.len() {
        None
    } else if carries(files[from], raw_id) {
        Some(files[from].path@)
    } else {
        scan(files, raw_id, from + 1)
    }
}

/// Where the blob `raw_id` stands: at the path the manifest has for it, if that
/// path stays inside the vault and a file is there, else at the first entry of
/// `raw/` that is named after it.
pub open spec fn raw_path(manifest: Manifest, files: Seq<RawFile>, raw_id: Seq<char>) -> Option<
    Seq<char>,
> {
    match path_among(manifest.listing(), raw_id) {
        Some(path) => if sandboxed(path) is Ok && is_present(files, path) {
            Some(path)
        } else {
            scan(files, raw_id, 0)
        },
        None => scan(files, raw_id, 0),
    }
}

/// Where the blob `raw_id` stands in the vault, as a vault-relative path.
pub fn find_raw_path(manifest: &Manifest, files: &Vec<RawFile>, raw_id: &str) -> (r: Option<
    String,
>)
    ensures
        opt_view(r) == raw_path(*manifest, files@, raw_id@),
{
    match manifest.raw_path_for(raw_id) {
        Some(path) => {
            if sandbox_steps(path).is_ok() && present(files, path) {
                return Some(path.to_string());
            }
        },
        None => {},
    }
    let mut i: usize = 0;
    while i < files.len()
        invariant
            i <= files@.len(),
            raw_path(*manifest, files@, raw_id@) == scan(files@, raw_id@, i as int),
        decreases files@.len() - i,
    {
        if raw_entry(files[i].path.as_str()) {
            match raw_id_from_filename(files[i].path.as_str()) {
                Some(id) => {
                    if text_eq(id.as_str(), raw_id) {
                        return Some(files[i].path.clone());
                    }
                },
                None => {},
            }
        }
        i += 1;
    }
    None
}

/// What is said of a blob that is not found in the vault at `root`.
pub open spec fn no_raw_file(root: Seq<char>, raw_id: Seq<char>) -> Seq<char> {
    "no raw file found for '"@ + raw_id + "' under '"@ + root + "'"@
}

/// What is said of a blob that is not found in the vault at `root`.
pub fn no_raw_file_text(root: &str, raw_id: &str) -> (r: String)
    ensures
        r@ == no_raw_file(root@, raw_id@),
{
    let mut s = "no raw file found for '".to_string();
    s.append(raw_id);
    s.append("' under '");
    s.append(root);
    s.append("'");
    s
}

/// The file of the blob `raw_id` of the vault at `root`.
pub fn resolve_raw_path(
    root: &str,
    manifest: &Manifest,
    files: &Vec<RawFile>,
    raw_id: &str,
) -> (r: Result<String, String>)
    ensures
        match raw_path(*manifest, files@, raw_id@) {
            Some(path) => r is Ok && r->Ok_0@ == path_from(root@, path),
            None => r is Err && r->Err_0@ == no_raw_file(root@, raw_id@),
        },
{
    match find_raw_path(manifest, files, raw_id) {
        Some(path) => Ok(join_path(root, path.as_str())),
        None => Err(no_raw_file_text(root, raw_id)),
    }
}

// ---------------------------------------------------------------------------
// Slugs
// ---------------------------------------------------------------------------

/// The most characters that a slug may have.
pub const MAX_SLUG_LEN: usize = 60;

/// The ASCII letters and digits of `s`, the letters small, with one dash for every
/// run of other characters between them.
pub open spec fn dashed(s: Seq<char>) -> Seq<char>
    decreases s.len(),
{
    if s.len() == 0 {
        seq![]
    } else {
        let front = dashed(s.drop_last());
        if is_alnum(s.last()) {
            front.push(lower(s.last()))
        } else if front.len() == 0 || front.last() == '-' {
            front
        } else {
            front.push('-')
        }
    }
}

/// `s` without a dash at its end.
pub open spec fn without_dash(s: Seq<char>) -> Seq<char> {
    if s.len() > 0 && s.last() == '-' {
        s.drop_last()
    } else {
        s
    }
}

/// The slug of a text: at most `MAX_SLUG_LEN` characters of `dashed`, without a
/// dash at the end. Nothing where no ASCII letter or digit is left.
pub open spec fn slug(s: Seq<char>) -> Option<Seq<char>> {
    let all = dashed(s);
    let short = without_dash(
        if all.len() <= MAX_SLUG_LEN {
            all
        } else {
            all.take(MAX_SLUG_LEN as int)
        },
    );
    if short.len() == 0 {
        None
    } else {
        Some(short)
    }
}

/// Reading on only appends to `dashed`.
proof fn lemma_dashed_grows(s: Seq<char>, k: int)
    requires
        0 <= k <= s.len(),
    ensures
        dashed(s.take(k)).len() <= dashed(s).len(),
        dashed(s).take(dashed(s.take(k)).len() as int) == dashed(s.take(k)),
    decreases s.len() - k,
{
    if k == s.len() {
        assert(s.take(k) =~= s);
        assert(dashed(s).take(dashed(s).len() as int) =~= dashed(s));
    } else {
        lemma_dashed_grows(s, k + 1);
        assert(s.take(k + 1).drop_last() =~= s.take(k));
        let a = dashed(s.take(k));
        let b = dashed(s.take(k + 1));
        assert(b.take(a.len() as int) =~= a);
        assert(dashed(s).take(a.len() as int) =~= dashed(s).take(b.len() as int).take(
            a.len() as int,
        ));
    }
}

/// What `dashed` is made of: small ASCII letters, digits, and single dashes that
/// do not come first.
pub proof fn lemma_dashed(s: Seq<char>)
    ensures
        dashed(s).len() > 0 ==> dashed(s)[0] != '-',
        forall|i: int|
            0 <= i < dashed(s).len() ==> #[trigger] dashed(s)[i] == '-' || 'a' <= dashed(s)[i]
                <= 'z' || '0' <= dashed(s)[i] <= '9',
        forall|i: int|
            0 < i < dashed(s).len() && #[trigger] dashed(s)[i] == '-' ==> dashed(s)[i - 1] != '-',
    decreases s.len(),
{
    if s.len() > 0 {
        let front = dashed(s.drop_last());
        lemma_dashed(s.drop_last());
        let d = dashed(s);
        assert forall|i: int| 0 <= i < d.len() implies #[trigger] d[i] == '-' || 'a' <= d[i] <= 'z'
            || '0' <= d[i] <= '9' by {
            if i < front.len() {
                assert(d[i] == front[i]);
            }
        }
        assert forall|i: int| 0 < i < d.len() && #[trigger] d[i] == '-' implies d[i - 1] != '-' by {
            if i < front.len() {
                assert(d[i] == front[i]);
                assert(d[i - 1] == front[i - 1]);
            } else if i == front.len() {
                assert(d[i - 1] == front.last());
            }
        }
        if front.len() > 0 {
            assert(d[0] == front[0]);
        }
    }
}

/// The slug of `text`: its ASCII letters and digits, the letters small, one dash
/// for every run of other characters between them, and no more than
/// `MAX_SLUG_LEN` characters.
pub fn slugify(text: &str) -> (r: Option<String>)
    ensures
        opt_view(r) == slug(text@),
{
    let cs = chars_of(text);
    let mut out: Vec<char> = Vec::new();
    let mut i: usize = 0;
    assert(cs@.take(0) =~= seq![]);
    while i < cs.len() && out.len() < MAX_SLUG_LEN
        invariant
            i <= cs@.len(),
            cs@ == text@,
            out@ == dashed(text@.take(i as int)),
            out@.len() <= MAX_SLUG_LEN,
        decreases cs@.len() - i,
    {
        assert(text@.take(i + 1).drop_last() =~= text@.take(i as int));
        let c = cs[i];
        if alnum(c) {
            out.push(to_lower(c));
        } else if out.len() > 0 && out[out.len() - 1] != '-' {
            out.push('-');
        }
        i += 1;
    }
    proof {
        lemma_dashed_grows(text@, i as int);
        lemma_dashed(text@);
        if i == cs@.len() {
            assert(text@.take(i as int) =~= text@);
        }
        let all = dashed(text@);
        if all.len() <= MAX_SLUG_LEN {
            assert(out@ =~= all);
        } else {
            assert(out@ =~= all.take(MAX_SLUG_LEN as int));
        }
    }
    let mut n: usize = out.len();
    if n > 0 && out[n - 1] == '-' {
        n = n - 1;
    }
    let short = text_slice(&out, 0, n);
    assert(short@ =~= without_dash(out@));
    if n == 0 {
        None
    } else {
        Some(short)
    }
}

/// A slug has between one and `MAX_SLUG_LEN` characters, all of them small ASCII
/// letters, digits or dashes; it neither begins nor ends with a dash, and holds no
/// two dashes in a row.
pub proof fn law_slug_shape(s: Seq<char>)
    requires
        slug(s) is Some,
    ensures
        ({
            let t = slug(s)->0;
            &&& 0 < t.len() <= MAX_SLUG_LEN
            &&& t[0] != '-' && t.last() != '-'
            &&& forall|i: int|
                0 <= i < t.len() ==> #[trigger] t[i] == '-' || 'a' <= t[i] <= 'z' || '0' <= t[i]
                    <= '9'
            &&& !has_part(t, "--"@)
        }),
{
    lemma_dashed(s);
    let all = dashed(s);
    let t = slug(s)->0;
    assert(forall|i: int| 0 <= i < t.len() ==> t[i] == all[i]);
    if t.last() == '-' {
        assert(all[t.len() - 1] == '-');
        assert(all[t.len() as int] == '-');
    }
    reveal_strlit("--");
    assert forall|i: int| !occurs_at(t, "--"@, i) by {
        if occurs_at(t, "--"@, i) {
            assert(t.subrange(i, i + 2)[0] == '-');
            assert(t.subrange(i, i + 2)[1] == '-');
            assert(all[i + 1] == '-');
        }
    }
}

/// The path and the host of a web address, where it can be read as one.
pub uninterp spec fn url_parts(source: Seq<char>) -> Option<(Seq<char>, Option<Seq<char>>)>;

/// Calls `url::Url::parse` and reads the path (`Url::path`) and the host
/// (`Url::host_str`) of what it returns. Both are functions of the text alone.
#[verifier::external_body]
fn parse_url(source: &str) -> (r: Option<(String, Option<String>)>)
    ensures
        (match r {
            Some((path, host)) => Some((path@, opt_view(host))),
            None => None,
        }) == url_parts(source@),
{
    url::Url::parse(source).ok().map(
        |u| (u.path().to_string(), u.host_str().map(str::to_string)),
    )
}

/// The last of `parts` that is not empty, or nothing.
pub open spec fn last_nonempty(parts: Seq<Seq<char>>) -> Seq<char>
    decreases parts.len(),
{
    if parts.len() == 0 {
        seq![]
    } else if parts.last().len() > 0 {
        parts.last()
    } else {
        last_nonempty(parts.drop_last())
    }
}

/// The last segment of an address's path that is not empty.
pub open spec fn last_segment(path: Seq<char>) -> Seq<char> {
    if path.len() > 0 && path[0] == '/' {
        last_nonempty(pieces(path.skip(1), '/'))
    } else {
        seq![]
    }
}

/// The slug for an address with this path and host: that of the last segment of
/// the path, else that of the host.
pub open spec fn url_slug(path: Seq<char>, host: Option<Seq<char>>) -> Option<Seq<char>> {
    match slug(last_segment(path)) {
        Some(s) => Some(s),
        None => match host {
            Some(h) => slug(h),
            None => None,
        },
    }
}

fn last_segment_of(path: &str) -> (r: String)
    ensures
        r@ == last_segment(path@),
{
    let rest: String = match strip_prefix(path, "/") {
        Some(rest) => rest,
        None => {
            proof {
                reveal_strlit("/");
                if path@.len() > 0 && path@[0] == '/' {
                    assert(path@.subrange(0, 1) =~= "/"@);
                }
            }
            return String::new();
        },
    };
    proof {
        reveal_strlit("/");
        assert(path@.subrange(0, 1)[0] == '/');
    }
    let mut parts = pieces_of(rest.as_str(), '/');
    let ghost all = views(parts@);
    while parts.len() > 0
        invariant
            last_nonempty(all) == last_nonempty(views(parts@)),
            all == pieces(rest@, '/'),
            last_segment(path@) == last_nonempty(all),
        decreases parts@.len(),
    {
        let ghost was = views(parts@);
        match parts.pop() {
            Some(last) => {
                assert(was.last() == last@);
                assert(views(parts@) =~= was.drop_last());
                if !last.as_str().is_empty() {
                    return last;
                }
            },
            None => {},
        }
    }
    String::new()
}

/// The slug for an address with this path and host.
pub fn slug_from_url(path: &str, host: &Option<String>) -> (r: Option<String>)
    ensures
        opt_view(r) == url_slug(path@, opt_view(*host)),
{
    let segment = last_segment_of(path);
    match slugify(segment.as_str()) {
        Some(s) => Some(s),
        None => match host {
            Some(h) => slugify(h.as_str()),
            None => None,
        },
    }
}

/// The slug for a raw blob: that of its first heading; else, for a local file,
/// that of the file's stem, and for a web address that of its path or host.
pub open spec fn blob_slug(source: Seq<char>, content: Seq<char>) -> Option<Seq<char>> {
    match slug(raw_title(content)) {
        Some(s) => Some(s),
        None => if has_prefix(source, "file://"@) {
            slug(file_stem(source.skip("file://"@.len() as int)))
        } else if web_address(source) {
            match url_parts(source) {
                Some((path, host)) => url_slug(path, host),
                None => None,
            }
        } else {
            None
        },
    }
}

/// The slug for a raw blob, if there is one.
pub fn derive_slug(source: &str, content: &str) -> (r: Option<String>)
    ensures
        opt_view(r) == blob_slug(source@, content@),
{
    let (title, _) = raw_title_and_body(content);
    match slugify(title.as_str()) {
        Some(s) => {
            return Some(s);
        },
        None => {},
    }
    match strip_prefix(source, "file://") {
        Some(path) => {
            let stem = file_stem_of(path.as_str());
            return slugify(stem.as_str());
        },
        None => {},
    }
    if !is_url(source) {
        return None;
    }
    match parse_url(source) {
        Some((path, host)) => slug_from_url(path.as_str(), &host),
        None => None,
    }
}

// ---------------------------------------------------------------------------
// Writing a blob
// ---------------------------------------------------------------------------

/// The frontmatter of a raw blob.
#[derive(Debug, Clone)]
pub struct RawFrontmatter {
    pub okf_version: String,
    /// The blob's `type:`.
    pub blob_type: String,
    pub id: String,
    pub source_url: Option<String>,
    pub checksum: String,
    pub ingested_at: String,
    /// Left out of the YAML altogether where there are none.
    pub tags: Vec<String>,
}

/// What is to be done to have a raw blob on disk.
#[derive(Debug)]
pub enum RawWrite {
    /// A file for this raw id is there already and stays as it is.
    Reuse { path: String },
    /// A new file has to be written.
    Create { path: String, frontmatter: RawFrontmatter },
}

/// The name of the file for a raw blob: its raw id, and its slug if it has one.
pub open spec fn blob_name(raw_id: Seq<char>, slug: Option<Seq<char>>) -> Seq<char> {
    match slug {
        Some(s) => raw_id + "--"@ + s + ".md"@,
        None => raw_id + ".md"@,
    }
}

/// The name of the file for a raw blob.
pub fn blob_file_name(raw_id: &str, slug: &Option<String>) -> (r: String)
    ensures
        r@ == blob_name(raw_id@, opt_view(*slug)),
{
    let mut out = raw_id.to_string();
    match slug {
        Some(s) => {
            out.append("--");
            out.append(s.as_str());
        },
        None => {},
    }
    out.append(".md");
    out
}

/// The frontmatter of a raw blob. `source` is a web address or a `file://` URI and
/// is kept as it is.
pub fn raw_frontmatter(
    raw_id: &str,
    source: &str,
    tags: &Vec<String>,
    checksum: &str,
    ingested_at: &str,
) -> (r: RawFrontmatter)
    ensures
        r.okf_version@ == OKF_SCHEMA_VERSION@,
        r.blob_type@ == "raw_source"@,
        r.id@ == raw_id@,
        opt_view(r.source_url) == Some(source@),
        r.checksum@ == checksum@,
        r.ingested_at@ == ingested_at@,
        r.tags@ == tags@,
{
    RawFrontmatter {
        okf_version: OKF_SCHEMA_VERSION.to_string(),
        blob_type: "raw_source".to_string(),
        id: raw_id.to_string(),
        source_url: Some(source.to_string()),
        checksum: checksum.to_string(),
        ingested_at: ingested_at.to_string(),
        tags: copy_texts(tags),
    }
}

/// Whether `r` is how the blob `raw_id` comes to be on disk.
pub open spec fn is_raw_write(
    existing: Option<Seq<char>>,
    raw_id: Seq<char>,
    source: Seq<char>,
    tags: Seq<String>,
    checksum: Seq<char>,
    ingested_at: Seq<char>,
    content: Seq<char>,
    r: Result<RawWrite, SandboxError>,
) -> bool {
    let wanted = "raw/"@ + blob_name(raw_id, blob_slug(source, content));
    match r {
        Err(e) => existing is None && sandboxed(wanted) == Err::<Seq<Seq<char>>, SandboxError>(e),
        Ok(RawWrite::Reuse { path }) => existing == Some(path@),
        Ok(RawWrite::Create { path, frontmatter }) => {
            &&& existing is None
            &&& sandboxed(wanted) is Ok
            &&& path@ == wanted
            &&& frontmatter.okf_version@ == OKF_SCHEMA_VERSION@
            &&& frontmatter.blob_type@ == "raw_source"@
            &&& frontmatter.id@ == raw_id
            &&& opt_view(frontmatter.source_url) == Some(source)
            &&& frontmatter.checksum@ == checksum
            &&& frontmatter.ingested_at@ == ingested_at
            &&& frontmatter.tags@ == tags
        },
    }
}

/// Decides how the blob `raw_id` comes to be on disk. `existing` is where a file
/// for it stands already (see `find_raw_path`): one raw id never gets a second
/// file. Otherwise a new file is named after the raw id and the slug; a name that
/// would lead out of the vault is refused.
pub fn write_raw_blob(
    existing: Option<String>,
    raw_id: &str,
    source: &str,
    tags: &Vec<String>,
    checksum: &str,
    ingested_at: &str,
    content: &str,
) -> (r: Result<RawWrite, SandboxError>)
    ensures
        is_raw_write(
            opt_view(existing),
            raw_id@,
            source@,
            tags@,
            checksum@,
            ingested_at@,
            content@,
            r,
        ),
{
    match existing {
        Some(path) => {
            return Ok(RawWrite::Reuse { path });
        },
        None => {},
    }
    let slug = derive_slug(source, content);
    let name = blob_file_name(raw_id, &slug);
    let mut path = "raw/".to_string();
    path.append(name.as_str());
    match sandbox_steps(path.as_str()) {
        Err(e) => Err(e),
        Ok(_) => Ok(
            RawWrite::Create {
                path,
                frontmatter: raw_frontmatter(raw_id, source, tags, checksum, ingested_at),
            },
        ),
    }
}

/// The text of a raw blob: its frontmatter as YAML, then its content.
pub fn raw_document(yaml: &str, content: &str) -> (r: String)
    ensures
        r@ == "---\n"@ + yaml@ + "---\n\n"@ + content@,
{
    let mut out = "---\n".to_string();
    out.append(yaml);
    out.append("---\n\n");
    out.append(content);
    out
}

// ---------------------------------------------------------------------------
// A name leads back to its raw id
// ---------------------------------------------------------------------------

/// Whether a text can be a raw id: ASCII letters, digits and underscores.
pub open spec fn id_shaped(s: Seq<char>) -> bool {
    s.len() > 0 && forall|i: int| 0 <= i < s.len() ==> is_alnum(#[trigger] s[i]) || s[i] == '_'
}

proof fn lemma_basename_is_all(s: Seq<char>)
    requires
        forall|i: int| 0 <= i < s.len() ==> #[trigger] s[i] != '/' && s[i] != '\\',
    ensures
        basename(s) == s,
    decreases s.len(),
{
    if s.len() > 0 {
        assert(forall|i: int| 0 <= i < s.len() - 1 ==> s.drop_last()[i] == s[i]);
        lemma_basename_is_all(s.drop_last());
        assert(s =~= s.drop_last().push(s.last()));
    } else {
        assert(basename(s) =~= s);
    }
}

/// The name that a blob's file is given carries the blob's raw id, with a slug or
/// without one.
pub proof fn law_blob_name_carries_its_raw_id(raw_id: Seq<char>, text: Seq<char>)
    requires
        id_shaped(raw_id),
    ensures
        raw_identity(blob_name(raw_id, slug(text))) == Some(raw_id),
        raw_identity(blob_name(raw_id, None)) == Some(raw_id),
{
    lemma_bare_name(raw_id);
    match slug(text) {
        None => {},
        Some(s) => {
            law_slug_shape(text);
            let stem = raw_id + "--"@ + s;
            let name = stem + ".md"@;
            reveal_strlit("--");
            reveal_strlit(".md");
            assert(blob_name(raw_id, Some(s)) =~= name);
            assert forall|i: int| 0 <= i < name.len() implies #[trigger] name[i] != '/' && name[i]
                != '\\' && !is_white(name[i]) by {
                if i < raw_id.len() {
                    assert(name[i] == raw_id[i]);
                } else if i < raw_id.len() + 2 {
                    assert(name[i] == '-');
                } else if i < stem.len() {
                    assert(name[i] == s[i - raw_id.len() - 2]);
                }
            }
            lemma_basename_is_all(name);
            assert(trim(name) == name);
            assert(name.subrange(name.len() - 3, name.len() as int) =~= ".md"@);
            assert(name.take(name.len() - 3) =~= stem);
            lemma_find_from(stem, "--"@, 0);
            let n = raw_id.len() as int;
            assert(stem.subrange(n, n + 2) =~= "--"@);
            assert(occurs_at(stem, "--"@, n));
            assert forall|j: int| 0 <= j < n implies !occurs_at(stem, "--"@, j) by {
                if occurs_at(stem, "--"@, j) {
                    assert(stem.subrange(j, j + 2)[0] == '-');
                    assert(stem[j] == raw_id[j]);
                }
            }
            assert(find_from(stem, "--"@, 0) == Some(n));
            assert(stem.take(n) =~= raw_id);
            assert(is_alnum(raw_id[0]) || raw_id[0] == '_');
            assert(is_alnum(raw_id[n - 1]) || raw_id[n - 1] == '_');
            assert(trim(raw_id) == raw_id);
        },
    }
}

proof fn lemma_bare_name(raw_id: Seq<char>)
    requires
        id_shaped(raw_id),
    ensures
        raw_identity(blob_name(raw_id, None)) == Some(raw_id),
{
    let n = raw_id.len() as int;
    let name = raw_id + ".md"@;
    reveal_strlit("--");
    reveal_strlit(".md");
    assert forall|i: int| 0 <= i < name.len() implies #[trigger] name[i] != '/' && name[i] != '\\'
        && !is_white(name[i]) by {
        if i < n {
            assert(name[i] == raw_id[i]);
        }
    }
    lemma_basename_is_all(name);
    assert(trim(name) == name);
    assert(name.subrange(name.len() - 3, name.len() as int) =~= ".md"@);
    assert(name.take(name.len() - 3) =~= raw_id);
    lemma_find_from(raw_id, "--"@, 0);
    assert forall|j: int| 0 <= j implies !occurs_at(raw_id, "--"@, j) by {
        if occurs_at(raw_id, "--"@, j) {
            assert(raw_id.subrange(j, j + 2)[0] == '-');
            assert(raw_id[j] == '-');
        }
    }
    assert(find_from(raw_id, "--"@, 0) is None);
    assert(is_alnum(raw_id[0]) || raw_id[0] == '_');
    assert(is_alnum(raw_id[n - 1]) || raw_id[n - 1] == '_');
    assert(trim(raw_id) == raw_id);
}

/// Content that hashes alike gets the same raw id, `raw_` and the first ten digits
/// of its digest, and that id is fit to name a file.
pub proof fn law_raw_id_of_content(content: Seq<char>, digest: Seq<u8>)
    requires
        digest == sha256_digest(encode_utf8(content)),
        digest.len() == 32,
    ensures
        hash_digits(content_hash(content)) == hex(digest),
        ten_bytes_at(hex(digest), 10),
        forall|k: int| ten_bytes_at(hex(digest), k) ==> k == 10,
        id_shaped("raw_"@ + hex(digest).take(10)),
{
    let digits = hex(digest);
    let hash = content_hash(content);
    lemma_hex(digest);
    reveal_strlit("sha256:");
    reveal_strlit("raw_");
    assert(hash.subrange(0, 7) =~= "sha256:"@);
    assert(hash.skip(7) =~= digits);
    lemma_ascii_bytes(digits);
    assert forall|k: int| 0 <= k <= digits.len() implies byte_len(#[trigger] digits.take(k))
        == k by {
        assert(forall|i: int| 0 <= i < k ==> digits.take(k)[i] == digits[i]);
        lemma_ascii_bytes(digits.take(k));
    }
    assert(byte_len(digits.take(10)) == 10);
    let id = "raw_"@ + digits.take(10);
    assert forall|i: int| 0 <= i < id.len() implies is_alnum(#[trigger] id[i]) || id[i] == '_' by {
        if i >= 4 {
            assert(id[i] == digits[i - 4]);
        }
    }
}

proof fn lemma_scan(files: Seq<RawFile>, raw_id: Seq<char>, from: int)
    requires
        0 <= from,
    ensures
        match scan(files, raw_id, from) {
            Some(path) => exists|i: int|
                from <= i < files.len() && (#[trigger] files[i]).path@ == path && carries(
                    files[i],
                    raw_id,
                ) && forall|j: int| from <= j < i ==> !carries(#[trigger] files[j], raw_id),
            None => forall|j: int| from <= j < files.len() ==> !carries(#[trigger] files[j], raw_id),
        },
    decreases files.len() - from,
{
    if from < files.len() {
        if carries(files[from], raw_id) {
            assert(files[from].path@ == scan(files, raw_id, from)->0);
        } else {
            lemma_scan(files, raw_id, from + 1);
            if scan(files, raw_id, from + 1) is Some {
                let path = scan(files, raw_id, from + 1)->0;
                let i = choose|i: int|
                    from + 1 <= i < files.len() && (#[trigger] files[i]).path@ == path && carries(
                        files[i],
                        raw_id,
                    ) && forall|j: int|
                        from + 1 <= j < i ==> !carries(#[trigger] files[j], raw_id);
                assert(files[i].path@ == path);
            }
        }
    }
}

/// A blob is found where the manifest has a path for it at which a plain file of the vault
/// stands. Where there is no such file it is found exactly if the name of some entry of
/// `raw/` carries its raw id, and then at the first such entry.
pub proof fn law_a_blob_is_found_by_its_path_or_its_name(
    manifest: Manifest,
    files: Seq<RawFile>,
    raw_id: Seq<char>,
)
    ensures
        ({
            let known = path_among(manifest.listing(), raw_id);
            let usable = known is Some && sandboxed(known->0) is Ok && exists|i: int|
                0 <= i < files.len() && (#[trigger] files[i]).path@ == known->0
                    && files[i].is_file;
            &&& usable ==> raw_path(manifest, files, raw_id) == known
            &&& !usable ==> (raw_path(manifest, files, raw_id) is Some <==> exists|i: int|
                0 <= i < files.len() && is_raw_entry((#[trigger] files[i]).path@)
                    && filename_identity(files[i].path@) == Some(raw_id))
            &&& !usable && raw_path(manifest, files, raw_id) is Some ==> exists|i: int|
                0 <= i < files.len() && is_raw_entry((#[trigger] files[i]).path@)
                    && filename_identity(files[i].path@) == Some(raw_id) && raw_path(
                    manifest,
                    files,
                    raw_id,
                ) == Some(files[i].path@) && forall|j: int|
                    0 <= j < i ==> !(is_raw_entry((#[trigger] files[j]).path@)
                        && filename_identity(files[j].path@) == Some(raw_id))
        }),
{
    lemma_scan(files, raw_id, 0);
    if scan(files, raw_id, 0) is Some {
        let path = scan(files, raw_id, 0)->0;
        let i = choose|i: int|
            0 <= i < files.len() && (#[trigger] files[i]).path@ == path && carries(
                files[i],
                raw_id,
            ) && forall|j: int| 0 <= j < i ==> !carries(#[trigger] files[j], raw_id);
        assert(is_raw_entry(files[i].path@));
        assert forall|j: int| 0 <= j < i implies !(is_raw_entry((#[trigger] files[j]).path@)
            && filename_identity(files[j].path@) == Some(raw_id)) by {
            assert(!carries(files[j], raw_id));
        }
    } else {
        assert forall|j: int| 0 <= j < files.len() implies !(is_raw_entry(
            (#[trigger] files[j]).path@,
        ) && filename_identity(files[j].path@) == Some(raw_id)) by {
            assert(!carries(files[j], raw_id));
        }
    }
}

proof fn lemma_basename_of_path(dir: Seq<char>, name: Seq<char>)
    requires
        forall|i: int| 0 <= i < name.len() ==> #[trigger] name[i] != '/' && name[i] != '\\',
    ensures
        basename(dir + "/"@ + name) == name,
    decreases name.len(),
{
    reveal_strlit("/");
    let whole = dir + "/"@ + name;
    if name.len() == 0 {
        assert(whole.last() == '/');
        assert(basename(whole) =~= name);
    } else {
        let front = name.drop_last();
        assert forall|i: int| 0 <= i < front.len() implies #[trigger] front[i] != '/' && front[i]
            != '\\' by {
            assert(name[i] != '/');
        }
        lemma_basename_of_path(dir, front);
        assert(whole.drop_last() =~= dir + "/"@ + front);
        assert(name[name.len() - 1] == name.last());
        assert(whole.last() == name.last());
        assert(basename(whole) =~= name);
    }
}

/// Whatever path to a blob's file a page gives as its source, it names the blob's raw id: the
/// directories do not matter, nor does what the name says behind the id.
pub proof fn law_a_path_to_a_blob_names_its_raw_id(
    dir: Seq<char>,
    raw_id: Seq<char>,
    text: Seq<char>,
)
    requires
        id_shaped(raw_id),
        dir.len() > 0 ==> !is_white(dir[0]),
    ensures
        raw_identity(dir + "/"@ + blob_name(raw_id, slug(text))) == Some(raw_id),
        raw_identity(dir + "/"@ + blob_name(raw_id, None)) == Some(raw_id),
{
    lemma_path_names(dir, raw_id, slug(text), text);
    lemma_path_names(dir, raw_id, None, text);
}

proof fn lemma_path_names(
    dir: Seq<char>,
    raw_id: Seq<char>,
    part: Option<Seq<char>>,
    text: Seq<char>,
)
    requires
        id_shaped(raw_id),
        dir.len() > 0 ==> !is_white(dir[0]),
        part is None || part == slug(text),
    ensures
        raw_identity(dir + "/"@ + blob_name(raw_id, part)) == Some(raw_id),
{
    let name = blob_name(raw_id, part);
    let whole = dir + "/"@ + name;
    reveal_strlit("/");
    reveal_strlit("--");
    reveal_strlit(".md");
    law_blob_name_carries_its_raw_id(raw_id, text);
    if part is Some {
        law_slug_shape(text);
    }
    assert forall|i: int| 0 <= i < name.len() implies #[trigger] name[i] != '/' && name[i] != '\\'
        && !is_white(name[i]) by {
        if i < raw_id.len() {
            assert(name[i] == raw_id[i]);
        } else if part is Some && i < raw_id.len() + 2 {
            assert(name[i] == '-');
        } else if part is Some && i < raw_id.len() + 2 + part->0.len() {
            assert(name[i] == part->0[i - raw_id.len() - 2]);
        }
    }
    lemma_basename_of_path(dir, name);
    lemma_basename_is_all(name);
    assert(name[0] == raw_id[0]);
    assert(whole[0] == (if dir.len() > 0 { dir[0] } else { '/' }));
    assert(whole.last() == name[name.len() - 1]);
    assert(trim(whole) == whole);
    assert(trim(name) == name);
}

/// The letters and digits of a text are in what a slug is cut from, all of them and in
/// order, the letters small; all that is added are dashes.
pub proof fn law_slugs_keep_letters_and_digits(s: Seq<char>)
    ensures
        dashed(s).filter(|c: char| c != '-') == s.filter(|c: char| is_alnum(c)).map_values(
            |c: char| lower(c),
        ),
    decreases s.len(),
{
    let f = |c: char| c != '-';
    let g = |c: char| is_alnum(c);
    let h = |c: char| lower(c);
    reveal(Seq::filter);
    if s.len() > 0 {
        let t = s.drop_last();
        let front = dashed(t);
        law_slugs_keep_letters_and_digits(t);
        let x = s.last();
        if is_alnum(x) {
            assert(lower(x) != '-');
            assert(front.push(lower(x)).drop_last() =~= front);
            assert(t.filter(g).push(x).map_values(h) =~= t.filter(g).map_values(h).push(lower(x)));
        } else {
            assert(front.push('-').drop_last() =~= front);
        }
    } else {
        assert(dashed(s).filter(f) =~= s.filter(g).map_values(h));
    }
}

proof fn lemma_word(front: Seq<char>, word: Seq<char>)
    requires
        forall|i: int| 0 <= i < word.len() ==> is_alnum(#[trigger] word[i]),
    ensures
        dashed(front + word) == dashed(front) + lowered(word),
    decreases word.len(),
{
    if word.len() == 0 {
        assert(front + word =~= front);
        assert(dashed(front) + lowered(word) =~= dashed(front));
    } else {
        let w = word.drop_last();
        assert forall|i: int| 0 <= i < w.len() implies is_alnum(#[trigger] w[i]) by {
            assert(is_alnum(word[i]));
        }
        lemma_word(front, w);
        assert((front + word).drop_last() =~= front + w);
        assert(is_alnum(word[word.len() - 1]));
        assert(dashed(front + word) =~= dashed(front) + lowered(word));
    }
}

proof fn lemma_gap(front: Seq<char>, gap: Seq<char>)
    requires
        gap.len() > 0,
        forall|i: int| 0 <= i < gap.len() ==> !is_alnum(#[trigger] gap[i]),
    ensures
        dashed(front + gap) == (if dashed(front).len() == 0 || dashed(front).last() == '-' {
            dashed(front)
        } else {
            dashed(front).push('-')
        }),
    decreases gap.len(),
{
    let w = gap.drop_last();
    assert((front + gap).drop_last() =~= front + w);
    assert(!is_alnum(gap[gap.len() - 1]));
    if w.len() == 0 {
        assert(front + w =~= front);
    } else {
        assert forall|i: int| 0 <= i < w.len() implies !is_alnum(#[trigger] w[i]) by {
            assert(!is_alnum(gap[i]));
        }
        lemma_gap(front, w);
    }
}

/// Words are joined by one dash, whatever stands between them; what precedes the first word
/// and follows the last one leaves no trace. A text has a slug exactly if it has a letter or
/// a digit.
pub proof fn law_slugs_join_words_by_dashes(
    before: Seq<char>,
    first: Seq<char>,
    gap: Seq<char>,
    second: Seq<char>,
    after: Seq<char>,
)
    requires
        first.len() > 0 && second.len() > 0 && gap.len() > 0,
        first.len() + second.len() + 1 <= 60,
        forall|i: int| 0 <= i < first.len() ==> is_alnum(#[trigger] first[i]),
        forall|i: int| 0 <= i < second.len() ==> is_alnum(#[trigger] second[i]),
        forall|i: int| 0 <= i < before.len() ==> !is_alnum(#[trigger] before[i]),
        forall|i: int| 0 <= i < gap.len() ==> !is_alnum(#[trigger] gap[i]),
        forall|i: int| 0 <= i < after.len() ==> !is_alnum(#[trigger] after[i]),
    ensures
        slug(before + first + gap + second + after) == Some(
            lowered(first) + seq!['-'] + lowered(second),
        ),
        slug(before) is None,
{
    let none = Seq::<char>::empty();
    assert(none + before =~= before);
    assert(dashed(none) =~= none);
    if before.len() > 0 {
        lemma_gap(none, before);
    } else {
        assert(before =~= none);
    }
    assert(dashed(before) =~= none);
    lemma_word(before, first);
    let one = before + first;
    assert(dashed(one) =~= lowered(first));
    assert(is_alnum(first[first.len() - 1]));
    assert(lowered(first).last() == lower(first.last()));
    lemma_gap(one, gap);
    let two = one + gap;
    lemma_word(two, second);
    let three = two + second;
    let wanted = lowered(first) + seq!['-'] + lowered(second);
    assert(dashed(three) =~= wanted);
    assert(is_alnum(second[second.len() - 1]));
    assert(wanted.last() == lower(second.last()));
    if after.len() > 0 {
        lemma_gap(three, after);
        assert(wanted.push('-').drop_last() =~= wanted);
        if wanted.push('-').len() > 60 {
            assert(wanted.push('-').take(60) =~= wanted);
        }
    } else {
        assert(three + after =~= three);
    }
    assert(before + first + gap + second + after =~= three + after);
}

/// A slug is the front of what it is cut from: all of it, but for a dash at the end, unless
/// that is longer than a slug may be.
pub proof fn law_a_slug_is_cut_only_where_it_is_too_long(s: Seq<char>)
    ensures
        slug(s) is Some ==> has_prefix(dashed(s), slug(s)->0),
        slug(s) is Some && dashed(s).len() <= 60 ==> dashed(s) == slug(s)->0 || dashed(s)
            == slug(s)->0.push('-'),
        slug(s) is Some && dashed(s).len() > 60 ==> slug(s)->0.len() == 60 || slug(s)->0.len()
            == 59,
        slug(s) is None <==> dashed(s).len() == 0,
{
    lemma_dashed(s);
    let all = dashed(s);
    if slug(s) is Some {
        let t = slug(s)->0;
        assert(all.subrange(0, t.len() as int) =~= t);
        if all.len() <= 60 && t.len() < all.len() {
            assert(all =~= t.push('-'));
        }
    }
}

/// The last segment of the path of an address is what follows its last slash; slashes at the
/// end do not count.
pub proof fn law_the_last_segment_names_an_address(
    path: Seq<char>,
    segment: Seq<char>,
)
    requires
        segment.len() > 0,
        !segment.contains('/'),
    ensures
        last_segment(seq!['/'] + segment) == segment,
        last_segment(seq!['/'] + path + seq!['/'] + segment) == segment,
        last_segment(seq!['/'] + path + seq!['/']) == last_segment(seq!['/'] + path),
{
    let one = seq!['/'] + segment;
    assert(one.skip(1) =~= segment);
    lemma_no_cut(segment);
    assert(pieces(segment, '/').last() == segment);
    let two = seq!['/'] + path + seq!['/'] + segment;
    assert(two.skip(1) =~= path + seq!['/'] + segment);
    lemma_last_piece(path, segment);
    let three = seq!['/'] + path + seq!['/'];
    let rest = path + seq!['/'];
    assert(three.skip(1) =~= rest);
    assert(rest.drop_last() =~= path);
    assert(rest.last() == '/');
    assert(pieces(rest, '/').drop_last() =~= pieces(path, '/'));
    assert((seq!['/'] + path).skip(1) =~= path);
}

proof fn lemma_no_cut(s: Seq<char>)
    requires
        !s.contains('/'),
    ensures
        pieces(s, '/') == seq![s],
    decreases s.len(),
{
    if s.len() > 0 {
        let t = s.drop_last();
        assert(s.contains(s.last()));
        assert(!t.contains('/')) by {
            if t.contains('/') {
                let k = choose|k: int| 0 <= k < t.len() && t[k] == '/';
                assert(s[k] == '/');
            }
        }
        lemma_no_cut(t);
        assert(t.push(s.last()) =~= s);
        assert(pieces(s, '/') =~= seq![s]);
    } else {
        assert(s =~= seq![]);
        assert(pieces(s, '/') =~= seq![s]);
    }
}

proof fn lemma_last_piece(path: Seq<char>, segment: Seq<char>)
    requires
        !segment.contains('/'),
    ensures
        pieces(path + seq!['/'] + segment, '/').len() > 0,
        pieces(path + seq!['/'] + segment, '/').last() == segment,
    decreases segment.len(),
{
    let s = path + seq!['/'] + segment;
    lemma_pieces(s, '/');
    if segment.len() == 0 {
        assert(s.last() == '/');
        assert(segment =~= seq![]);
    } else {
        let t = segment.drop_last();
        assert(segment.contains(segment.last()));
        assert(!t.contains('/')) by {
            if t.contains('/') {
                let k = choose|k: int| 0 <= k < t.len() && t[k] == '/';
                assert(segment[k] == '/');
            }
        }
        lemma_last_piece(path, t);
        assert(s.drop_last() =~= path + seq!['/'] + t);
        assert(s.last() == segment.last());
        assert(t.push(segment.last()) =~= segment);
    }
}

/// Where a document has a heading that makes a slug, its blob is called after that, wherever
/// it comes from; else a local file's is called after the file, in whatever directory.
pub proof fn law_a_blob_is_called_after_its_heading(
    source: Seq<char>,
    other: Seq<char>,
    content: Seq<char>,
    path: Seq<char>,
)
    ensures
        slug(raw_title(content)) is Some ==> blob_slug(source, content) == slug(raw_title(content))
            && blob_slug(other, content) == slug(raw_title(content)),
        slug(raw_title(content)) is None ==> blob_slug("file://"@ + path, content) == slug(
            file_stem(path),
        ),
{
    reveal_strlit("file://");
    let uri = "file://"@ + path;
    assert(uri.subrange(0, 7) =~= "file://"@);
    assert(uri.skip(7) =~= path);
}

/// The value of a hexadecimal digit.
pub open spec fn hex_value(c: char) -> int {
    if '0' <= c <= '9' {
        c as int - '0' as int
    } else {
        c as int - 'a' as int + 10
    }
}

/// Every byte reads back from its two digits.
pub proof fn law_hexadecimal_reads_back(bytes: Seq<u8>, i: int)
    requires
        0 <= i < bytes.len(),
    ensures
        hex(bytes).len() == 2 * bytes.len(),
        16 * hex_value(hex(bytes)[2 * i]) + hex_value(hex(bytes)[2 * i + 1]) == bytes[i],
    decreases bytes.len(),
{
    lemma_hex(bytes);
    let front = bytes.drop_last();
    lemma_hex(front);
    let d = bytes.last() as nat;
    assert(d / 16 < 16 && d % 16 < 16);
    if i < front.len() {
        law_hexadecimal_reads_back(front, i);
        assert(hex(bytes)[2 * i] == hex(front)[2 * i]);
        assert(hex(bytes)[2 * i + 1] == hex(front)[2 * i + 1]);
    } else {
        assert(hex(bytes)[2 * i] == hex_digit(d / 16));
        assert(hex(bytes)[2 * i + 1] == hex_digit(d % 16));
    }
}

/// A new blob says what it is: its raw id, where it came from, its checksum, when it was taken
/// in and all of its tags, and it stands among the raw sources under a name that begins with
/// its raw id. A blob that is there already is used as it is.
pub proof fn law_a_new_blob_says_where_it_came_from(
    existing: Option<Seq<char>>,
    raw_id: Seq<char>,
    source: Seq<char>,
    tags: Seq<String>,
    checksum: Seq<char>,
    ingested_at: Seq<char>,
    content: Seq<char>,
    r: Result<RawWrite, SandboxError>,
)
    requires
        is_raw_write(existing, raw_id, source, tags, checksum, ingested_at, content, r),
    ensures
        existing is Some ==> r is Ok && r->Ok_0 is Reuse && r->Ok_0->Reuse_path@ == existing->0,
        existing is None && r is Ok ==> {
            let front = r->Ok_0->frontmatter;
            &&& r->Ok_0 is Create
            &&& front.id@ == raw_id
            &&& opt_view(front.source_url) == Some(source)
            &&& front.checksum@ == checksum
            &&& front.ingested_at@ == ingested_at
            &&& front.tags@ == tags
            &&& front.blob_type@ == "raw_source"@
            &&& has_prefix(r->Ok_0->Create_path@, "raw/"@ + raw_id)
        },
{
    if existing is None && r is Ok {
        let path = r->Ok_0->Create_path@;
        let front = "raw/"@ + raw_id;
        assert(path.subrange(0, front.len() as int) =~= front);
    }
}

} // verus!
