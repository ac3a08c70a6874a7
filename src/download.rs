use std::collections::hash_map::DefaultHasher;
use std::hash::Hasher;
use vstd::prelude::*;
use vstd::std_specs::hash::DefaultHasherAdditionalSpecFns;
use vstd::string::StringSliceAdditionalSpecFns;

verus! {

/// The character of a six-bit value in the standard base64 alphabet:
/// `A`-`Z`, `a`-`z`, `0`-`9`, `+`, `/`.
pub open spec fn sextet_char(v: int) -> char {
    if v < 26 {
        (65 + v) as u32 as char
    } else if v < 52 {
        (71 + v) as u32 as char
    } else if v < 62 {
        (v - 4) as u32 as char
    } else if v == 62 {
        '+'
    } else {
        '/'
    }
}

/// Standard base64 with `=` padding: each three bytes become four characters
/// of six bits each; a final one or two bytes are padded to four characters.
pub open spec fn base64_of(b: Seq<u8>) -> Seq<char>
    decreases b.len(),
{
    if b.len() >= 3 {
        let (x, y, z) = (b[0] as int, b[1] as int, b[2] as int);
        seq![sextet_char(x / 4), sextet_char((x % 4) * 16 + y / 16), sextet_char((y % 16) * 4 + z / 64), sextet_char(z % 64)]
            + base64_of(b.subrange(3, b.len() as int))
    } else if b.len() == 2 {
        let (x, y) = (b[0] as int, b[1] as int);
        seq![sextet_char(x / 4), sextet_char((x % 4) * 16 + y / 16), sextet_char((y % 16) * 4), '=']
    } else if b.len() == 1 {
        let x = b[0] as int;
        seq![sextet_char(x / 4), sextet_char((x % 4) * 16), '=', '=']
    } else {
        Seq::empty()
    }
}

proof fn lemma_sextet_char_injective(a: int, b: int)
    requires
        0 <= a < 64,
        0 <= b < 64,
        sextet_char(a) == sextet_char(b),
    ensures
        a == b,
{
    assert(sextet_char(a) as u32 == sextet_char(b) as u32);
}

proof fn lemma_sextet_char_not_pad(a: int)
    requires
        0 <= a < 64,
    ensures
        sextet_char(a) != '=',
{
    assert(sextet_char(a) as u32 != '=' as u32);
}

proof fn lemma_three_bytes_from_sextets(x1: u32, y1: u32, z1: u32, x2: u32, y2: u32, z2: u32)
    requires
        x1 < 256 && y1 < 256 && z1 < 256 && x2 < 256 && y2 < 256 && z2 < 256,
        x1 / 4 == x2 / 4,
        (x1 % 4) * 16 + y1 / 16 == (x2 % 4) * 16 + y2 / 16,
        (y1 % 16) * 4 + z1 / 64 == (y2 % 16) * 4 + z2 / 64,
        z1 % 64 == z2 % 64,
    ensures
        x1 == x2 && y1 == y2 && z1 == z2,
{
    assert(x1 == x2 && y1 == y2 && z1 == z2) by (bit_vector)
        requires
            x1 < 256 && y1 < 256 && z1 < 256 && x2 < 256 && y2 < 256 && z2 < 256,
            x1 / 4 == x2 / 4,
            (x1 % 4) * 16 + y1 / 16 == (x2 % 4) * 16 + y2 / 16,
            (y1 % 16) * 4 + z1 / 64 == (y2 % 16) * 4 + z2 / 64,
            z1 % 64 == z2 % 64;
}

proof fn lemma_sextets_in_range(x: int, y: int, z: int)
    requires
        0 <= x < 256 && 0 <= y < 256 && 0 <= z < 256,
    ensures
        0 <= x / 4 < 64,
        0 <= (x % 4) * 16 + y / 16 < 64,
        0 <= (y % 16) * 4 + z / 64 < 64,
        0 <= z % 64 < 64,
        0 <= (x % 4) * 16 < 64,
        0 <= (y % 16) * 4 < 64,
{
}

/// Different bytes have different base64 encodings.
proof fn lemma_base64_injective(b1: Seq<u8>, b2: Seq<u8>)
    requires
        base64_of(b1) == base64_of(b2),
    ensures
        b1 == b2,
    decreases b1.len(),
{
    let e = base64_of(b1);
    if b1.len() == 0 || b2.len() == 0 {
        assert(b1.len() == 0 && b2.len() == 0) by {
            if b1.len() > 0 {
                assert(base64_of(b1).len() >= 4);
            }
            if b2.len() > 0 {
                assert(base64_of(b2).len() >= 4);
            }
        }
        assert(b1 =~= b2);
        return;
    }
    let (x1, x2) = (b1[0] as int, b2[0] as int);
    let (y1, y2) = (if b1.len() >= 2 { b1[1] as int } else { 0 }, if b2.len() >= 2 { b2[1] as int } else { 0 });
    let (z1, z2) = (if b1.len() >= 3 { b1[2] as int } else { 0 }, if b2.len() >= 3 { b2[2] as int } else { 0 });
    lemma_sextets_in_range(x1, y1, z1);
    lemma_sextets_in_range(x2, y2, z2);
    // the padding tells how many bytes the first block holds
    if b1.len() >= 3 {
        lemma_sextet_char_not_pad(z1 % 64);
        lemma_sextet_char_not_pad((y1 % 16) * 4 + z1 / 64);
    } else if b1.len() == 2 {
        lemma_sextet_char_not_pad((y1 % 16) * 4);
    }
    if b2.len() >= 3 {
        lemma_sextet_char_not_pad(z2 % 64);
        lemma_sextet_char_not_pad((y2 % 16) * 4 + z2 / 64);
    } else if b2.len() == 2 {
        lemma_sextet_char_not_pad((y2 % 16) * 4);
    }
    assert(e[2] == base64_of(b2)[2] && e[3] == base64_of(b2)[3]);
    assert((b1.len() >= 3) == (b2.len() >= 3));
    assert((b1.len() == 2) == (b2.len() == 2));
    let e2 = base64_of(b2);
    assert(e[0] == e2[0] && e[1] == e2[1]);
    if b1.len() >= 3 {
        assert(e[0] == sextet_char(x1 / 4) && e2[0] == sextet_char(x2 / 4));
        assert(e[1] == sextet_char((x1 % 4) * 16 + y1 / 16) && e2[1] == sextet_char((x2 % 4) * 16 + y2 / 16));
        assert(e[2] == sextet_char((y1 % 16) * 4 + z1 / 64) && e2[2] == sextet_char((y2 % 16) * 4 + z2 / 64));
        assert(e[3] == sextet_char(z1 % 64) && e2[3] == sextet_char(z2 % 64));
    } else if b1.len() == 2 {
        assert(e[0] == sextet_char(x1 / 4) && e2[0] == sextet_char(x2 / 4));
        assert(e[1] == sextet_char((x1 % 4) * 16 + y1 / 16) && e2[1] == sextet_char((x2 % 4) * 16 + y2 / 16));
        assert(e[2] == sextet_char((y1 % 16) * 4) && e2[2] == sextet_char((y2 % 16) * 4));
    } else {
        assert(e[0] == sextet_char(x1 / 4) && e2[0] == sextet_char(x2 / 4));
        assert(e[1] == sextet_char((x1 % 4) * 16) && e2[1] == sextet_char((x2 % 4) * 16));
    }
    lemma_sextet_char_injective(x1 / 4, x2 / 4);
    if b1.len() >= 3 {
        lemma_sextet_char_injective((x1 % 4) * 16 + y1 / 16, (x2 % 4) * 16 + y2 / 16);
        lemma_sextet_char_injective((y1 % 16) * 4 + z1 / 64, (y2 % 16) * 4 + z2 / 64);
        lemma_sextet_char_injective(z1 % 64, z2 % 64);
        lemma_three_bytes_from_sextets(x1 as u32, y1 as u32, z1 as u32, x2 as u32, y2 as u32, z2 as u32);
        let r1 = b1.subrange(3, b1.len() as int);
        let r2 = b2.subrange(3, b2.len() as int);
        assert(base64_of(r1) =~= e.subrange(4, e.len() as int));
        assert(base64_of(r2) =~= base64_of(b2).subrange(4, e.len() as int));
        lemma_base64_injective(r1, r2);
        assert(b1 =~= b2) by {
            assert forall|k: int| 0 <= k < b1.len() implies b1[k] == b2[k] by {
                if k >= 3 {
                    assert(b1[k] == r1[k - 3] && b2[k] == r2[k - 3]);
                }
            }
        }
    } else if b1.len() == 2 {
        lemma_sextet_char_injective((x1 % 4) * 16 + y1 / 16, (x2 % 4) * 16 + y2 / 16);
        lemma_sextet_char_injective((y1 % 16) * 4, (y2 % 16) * 4);
        lemma_three_bytes_from_sextets(x1 as u32, y1 as u32, 0, x2 as u32, y2 as u32, 0);
        assert(b1 =~= b2);
    } else {
        lemma_sextet_char_injective((x1 % 4) * 16, (x2 % 4) * 16);
        lemma_three_bytes_from_sextets(x1 as u32, 0, 0, x2 as u32, 0, 0);
        assert(b1 =~= b2);
    }
}

/// Relies on base64::encode (0.13): the standard alphabet, with padding.
#[verifier::external_body]
fn base64_encode(b: &Vec<u8>) -> (r: String)
    ensures
        r@ == base64_of(b@),
{
    base64::encode(b)
}

/// The ASCII decimal digits of `n`, most significant first, without leading zeros.
pub open spec fn decimal_of(n: nat) -> Seq<u8>
    decreases n,
{
    if n < 10 {
        seq![(48 + n) as u8]
    } else {
        decimal_of(n / 10).push((48 + n % 10) as u8)
    }
}

/// The decimal text of `n`, as ASCII bytes.
pub fn decimal_bytes(n: u64) -> (r: Vec<u8>)
    ensures
        r@ == decimal_of(n as nat),
    decreases n,
{
    if n < 10 {
        let mut r: Vec<u8> = Vec::new();
        r.push(48u8 + n as u8);
        r
    } else {
        let mut r = decimal_bytes(n / 10);
        r.push(48u8 + (n % 10) as u8);
        r
    }
}

/// The 64-bit hash of a source address: the process's `DefaultHasher`, fed
/// the address's UTF-8 bytes in one write.
pub open spec fn uri_hash(uri: Seq<u8>) -> u64 {
    DefaultHasher::spec_finish(seq![uri])
}

/// The hash of `uri` (see `uri_hash`).
pub fn hash_uri(uri: &str) -> (r: u64)
    ensures
        r == uri_hash(uri.spec_bytes()),
{
    let mut hasher = DefaultHasher::new();
    hasher.write(uri.as_bytes());
    hasher.finish()
}

/// The file name of a cache entry: `{id}-{base64 of the hash's decimal text}.{ext}`.
pub open spec fn entry_file_name_of(id: Seq<char>, hash: u64, ext: Seq<char>) -> Seq<char> {
    id + "-"@ + base64_of(decimal_of(hash as nat)) + "."@ + ext
}

/// `name` placed in the directory `dir`.
pub open spec fn join_path(dir: Seq<char>, name: Seq<char>) -> Seq<char> {
    if dir.len() == 0 {
        name
    } else if dir.last() == '/' {
        dir + name
    } else {
        dir + "/"@ + name
    }
}

/// What a download for a cache entry has to do.
#[derive(Debug)]
pub struct DownloadStep {
    /// Where the entry lives.
    pub path: String,
    /// Whether the resource must be fetched and written there.
    pub fetch: bool,
}

/// Maps a logical id and a source address to a file in a cache directory, so
/// that one address is fetched at most once for as long as the directory lives.
pub struct CachedDownloader {
    directory: String,
    ext: String,
}

impl CachedDownloader {
    pub closed spec fn directory_view(&self) -> Seq<char> {
        self.directory@
    }

    pub closed spec fn ext_view(&self) -> Seq<char> {
        self.ext@
    }

    /// The path of the entry for `(id, uri)` in this cache.
    pub open spec fn entry_path_of(&self, id: Seq<char>, uri: Seq<u8>) -> Seq<char> {
        join_path(self.directory_view(), entry_file_name_of(id, uri_hash(uri), self.ext_view()))
    }

    pub fn new(directory: String, ext: &str) -> (r: CachedDownloader)
        ensures
            r.directory_view() == directory@,
            r.ext_view() == ext@,
    {
        CachedDownloader { directory, ext: String::from_str(ext) }
    }

    /// The file name of the entry for the hash `hash` of a source address.
    pub fn entry_file_name(&self, id: &str, hash: u64) -> (r: String)
        ensures
            r@ == entry_file_name_of(id@, hash, self.ext_view()),
    {
        let digits = decimal_bytes(hash);
        let encoded = base64_encode(&digits);
        let mut r = String::from_str(id);
        r.append("-");
        r.append(encoded.as_str());
        r.append(".");
        r.append(self.ext.as_str());
        proof {
            assert(r@ =~= entry_file_name_of(id@, hash, self.ext_view()));
        }
        r
    }

    /// The path of the entry for `(id, uri)`.
    pub fn entry_path(&self, id: &str, uri: &str) -> (r: String)
        ensures
            r@ == self.entry_path_of(id@, uri.spec_bytes()),
    {
        let name = self.entry_file_name(id, hash_uri(uri));
        let len = self.directory.as_str().unicode_len();
        if len == 0 {
            name
        } else {
            let mut r = self.directory.clone();
            if self.directory.as_str().get_char(len - 1) != '/' {
                r.append("/");
            }
            r.append(name.as_str());
            proof {
                assert(r@ =~= join_path(self.directory_view(), name@));
            }
            r
        }
    }

    /// Decides a fetch-or-get for `(id, uri)`: the entry's path, and whether
    /// it must be fetched, which is exactly when no file is there yet.
    pub fn plan_download(&self, id: &str, uri: &str, exists: bool) -> (r: DownloadStep)
        ensures
            r.path@ == self.entry_path_of(id@, uri.spec_bytes()),
            r.fetch == !exists,
    {
        DownloadStep { path: self.entry_path(id, uri), fetch: !exists }
    }
}

/// A fetch-or-get must fetch exactly when the cache directory, whose file
/// paths are `files`, lacks the entry's path.
pub open spec fn needs_fetch(files: Set<Seq<char>>, path: Seq<char>) -> bool {
    !files.contains(path)
}

/// Idempotent download: two fetch-or-gets of the same `(id, uri)` name the
/// same file, and since the first leaves that file in place, the two together
/// fetch at most once.
pub proof fn lemma_fetch_or_get_twice(d: CachedDownloader, id: Seq<char>, uri: Seq<u8>, files: Set<Seq<char>>)
    ensures
        ({
            let p = d.entry_path_of(id, uri);
            &&& !needs_fetch(files.insert(p), p)
            &&& (if needs_fetch(files, p) { 1int } else { 0 }) + (if needs_fetch(files.insert(p), p) { 1int } else { 0 }) <= 1
        }),
{
}

proof fn lemma_decimal_injective(n: nat, m: nat)
    requires
        decimal_of(n) == decimal_of(m),
    ensures
        n == m,
    decreases n,
{
    if n >= 10 && m >= 10 {
        assert(decimal_of(n).last() == decimal_of(m).last());
        assert(decimal_of(n).drop_last() =~= decimal_of(n / 10));
        assert(decimal_of(m).drop_last() =~= decimal_of(m / 10));
        lemma_decimal_injective(n / 10, m / 10);
        assert(0 <= n % 10 < 10 && 0 <= m % 10 < 10);
        assert(((48 + n % 10) as u8) as int == 48 + n % 10);
        assert(((48 + m % 10) as u8) as int == 48 + m % 10);
        assert(decimal_of(n).last() == (48 + n % 10) as u8);
        assert(decimal_of(m).last() == (48 + m % 10) as u8);
        assert(n % 10 == m % 10);
        assert(n == 10 * (n / 10) + n % 10);
        assert(m == 10 * (m / 10) + m % 10);
        assert(n == m);
    } else if n >= 10 {
        assert(decimal_of(n).len() >= 2) by {
            lemma_decimal_nonempty((n / 10) as nat);
        }
        assert(decimal_of(m).len() == 1);
    } else if m >= 10 {
        assert(decimal_of(m).len() >= 2) by {
            lemma_decimal_nonempty((m / 10) as nat);
        }
        assert(decimal_of(n).len() == 1);
    } else {
        assert(decimal_of(n) == seq![(48 + n) as u8]);
        assert(decimal_of(m) == seq![(48 + m) as u8]);
        assert(decimal_of(n)[0] == (48 + n) as u8);
        assert(decimal_of(m)[0] == (48 + m) as u8);
        assert(decimal_of(n)[0] == decimal_of(m)[0]);
        assert(((48 + n) as u8) as int == 48 + n);
        assert(((48 + m) as u8) as int == 48 + m);
        assert(((48 + n) as u8) == ((48 + m) as u8));
        assert(n == m);
    }
}

proof fn lemma_decimal_nonempty(n: nat)
    ensures
        decimal_of(n).len() >= 1,
    decreases n,
{
    if n >= 10 {
        lemma_decimal_nonempty(n / 10);
    }
}

/// Two sequences that differ stay different between a common prefix and suffix.
proof fn lemma_framed_differ(p: Seq<char>, a: Seq<char>, b: Seq<char>, q: Seq<char>)
    requires
        a != b,
    ensures
        p + a + q != p + b + q,
{
    if a.len() == b.len() {
        assert(exists|k: int| 0 <= k < a.len() && a[k] != b[k]) by {
            if forall|k: int| 0 <= k < a.len() ==> a[k] == b[k] {
                assert(a =~= b);
            }
        }
        let k = choose|k: int| 0 <= k < a.len() && a[k] != b[k];
        assert((p + a + q)[p.len() + k] == a[k]);
        assert((p + b + q)[p.len() + k] == b[k]);
    } else {
        assert((p + a + q).len() != (p + b + q).len());
    }
}

/// Key sensitivity: for one logical id, two source addresses whose hashes
/// differ are kept in different files, so each is fetched on its own.
/// Addresses whose hashes collide share a file.
pub proof fn lemma_entry_path_follows_uri_hash(d: CachedDownloader, id: Seq<char>, u1: Seq<u8>, u2: Seq<u8>)
    requires
        uri_hash(u1) != uri_hash(u2),
    ensures
        d.entry_path_of(id, u1) != d.entry_path_of(id, u2),
{
    let (h1, h2) = (uri_hash(u1), uri_hash(u2));
    let x1 = base64_of(decimal_of(h1 as nat));
    let x2 = base64_of(decimal_of(h2 as nat));
    if x1 == x2 {
        lemma_base64_injective(decimal_of(h1 as nat), decimal_of(h2 as nat));
        lemma_decimal_injective(h1 as nat, h2 as nat);
    }
    let p = id + "-"@;
    let q = "."@ + d.ext_view();
    lemma_framed_differ(p, x1, x2, q);
    assert(entry_file_name_of(id, h1, d.ext_view()) =~= p + x1 + q);
    assert(entry_file_name_of(id, h2, d.ext_view()) =~= p + x2 + q);
    let n1 = entry_file_name_of(id, h1, d.ext_view());
    let n2 = entry_file_name_of(id, h2, d.ext_view());
    let dir = d.directory_view();
    let pre = if dir.len() == 0 { Seq::<char>::empty() } else if dir.last() == '/' { dir } else { dir + "/"@ };
    lemma_framed_differ(pre, n1, n2, Seq::empty());
    assert(join_path(dir, n1) =~= pre + n1 + Seq::empty());
    assert(join_path(dir, n2) =~= pre + n2 + Seq::empty());
}

} // verus!
