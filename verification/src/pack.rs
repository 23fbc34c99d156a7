//! Deterministic folder <-> blob packing.
//!
//! A save folder is serialized into one byte blob with files in sorted path
//! order and no timestamps, so identical folder content always produces
//! identical bytes (the vault's dedupe and conflict logic relies on this).
//!
//! Format: `b"SVPK1\n"` || u32 file count || for each file:
//! u32 path-len || path (UTF-8, `/`-separated) || u64 data-len || data,
//! all integers little-endian.
//!
//! Reading and writing the folder itself is the application's part; this
//! module orders the files, builds the blob, and takes a blob apart into the
//! files to write.
use vstd::prelude::*;

use crate::chunk::copy_range;
use crate::debug_text::{debug_str, str_debug};
use crate::error::{copy_str, prefixed, SyncError};
use crate::paths::{slashes, to_slashes};
use crate::paths::{split_chars, split_on, lemma_split_on_nonempty, char_views};
use crate::strmap::{seq_lt, order_str, lemma_lt_total, lemma_lt_transitive, lemma_lt_irreflexive};
use crate::text::{chars_of, string_from_chars, chars_eq, utf8_error_text, utf8_to_string};
use vstd::utf8::{encode_utf8, valid_utf8, decode_utf8};

verus! {

/// The header every pack blob starts with: `b"SVPK1\n"`.
pub open spec fn magic() -> Seq<u8> {
    seq![0x53u8, 0x56u8, 0x50u8, 0x4bu8, 0x31u8, 0x0au8]
}

/// `256^k`.
pub open spec fn pow256(k: nat) -> nat
    decreases k,
{
    if k == 0 {
        1
    } else {
        256 * pow256((k - 1) as nat)
    }
}

/// The `k` low bytes of `n`, least significant first (`to_le_bytes` of `n`
/// truncated to `k` bytes).
pub open spec fn le_bytes(n: nat, k: nat) -> Seq<u8>
    decreases k,
{
    if k == 0 {
        seq![]
    } else {
        seq![(n % 256) as u8] + le_bytes(n / 256, (k - 1) as nat)
    }
}

/// The number whose little-endian bytes are `b`.
pub open spec fn le_value(b: Seq<u8>) -> nat
    decreases b.len(),
{
    if b.len() == 0 {
        0
    } else {
        b[0] as nat + 256 * le_value(b.drop_first())
    }
}

/// The bytes of one packed file.
pub open spec fn entry_bytes(path: Seq<char>, data: Seq<u8>) -> Seq<u8> {
    le_bytes(encode_utf8(path).len(), 4) + encode_utf8(path) + le_bytes(data.len(), 8) + data
}

/// The bytes of the packed files, in order.
pub open spec fn entries_bytes(files: Seq<(Seq<char>, Seq<u8>)>) -> Seq<u8>
    decreases files.len(),
{
    if files.len() == 0 {
        seq![]
    } else {
        entry_bytes(files[0].0, files[0].1) + entries_bytes(files.drop_first())
    }
}

/// The blob that packs `files` in the given order.
pub open spec fn pack_bytes(files: Seq<(Seq<char>, Seq<u8>)>) -> Seq<u8> {
    magic() + le_bytes(files.len(), 4) + entries_bytes(files)
}

/// The plain values of a list of (relative path, content) pairs.
pub open spec fn file_views(files: Seq<(String, Vec<u8>)>) -> Seq<(Seq<char>, Seq<u8>)> {
    files.map_values(|f: (String, Vec<u8>)| (f.0@, f.1@))
}

pub proof fn lemma_entries_push(s: Seq<(Seq<char>, Seq<u8>)>, x: (Seq<char>, Seq<u8>))
    ensures
        entries_bytes(s.push(x)) == entries_bytes(s) + entry_bytes(x.0, x.1),
    decreases s.len(),
{
    if s.len() == 0 {
        assert(s.push(x).drop_first() =~= Seq::<(Seq<char>, Seq<u8>)>::empty());
        assert(s.push(x)[0] == x);
        assert(entries_bytes(s.push(x).drop_first()) == Seq::<u8>::empty());
        assert(entries_bytes(s.push(x)) =~= entry_bytes(x.0, x.1));
    } else {
        lemma_entries_push(s.drop_first(), x);
        assert(s.push(x).drop_first() =~= s.drop_first().push(x));
        assert(entries_bytes(s.push(x)) =~= entries_bytes(s) + entry_bytes(x.0, x.1));
    }
}

/// Append the `k` low bytes of `n`, least significant first.
fn push_le(out: &mut Vec<u8>, n: u64, k: usize)
    requires
        k <= 8,
    ensures
        final(out)@ == old(out)@ + le_bytes(n as nat, k as nat),
{
    let ghost start = out@;
    let mut v: u64 = n;
    let mut i: usize = 0;
    while i < k
        invariant
            i <= k <= 8,
            start + le_bytes(n as nat, k as nat) == out@ + le_bytes(v as nat, (k - i) as nat),
        decreases k - i,
    {
        let b = (v % 256) as u8;
        let ghost before = out@;
        out.push(b);
        assert(le_bytes(v as nat, (k - i) as nat) == seq![b] + le_bytes((v / 256) as nat, (k - i - 1) as nat));
        assert(before + le_bytes(v as nat, (k - i) as nat) =~= out@ + le_bytes((v / 256) as nat, (k - i - 1) as nat));
        v = v / 256;
        i = i + 1;
    }
    assert(out@ + le_bytes(v as nat, 0) =~= out@);
}

/// Append all bytes of `b`.
fn push_all(out: &mut Vec<u8>, b: &[u8])
    ensures
        final(out)@ == old(out)@ + b@,
{
    let ghost start = out@;
    let mut j: usize = 0;
    while j < b.len()
        invariant
            j <= b@.len(),
            out@ == start + b@.take(j as int),
        decreases b@.len() - j,
    {
        out.push(b[j]);
        j = j + 1;
        assert(out@ =~= start + b@.take(j as int));
    }
    assert(b@.take(b@.len() as int) =~= b@);
}

/// Build the blob that packs `files` in the given order. Counts and lengths
/// are written as `u32`/`u64` truncations, as the format stores them.
pub fn encode_pack(files: &[(String, Vec<u8>)]) -> (r: Vec<u8>)
    ensures
        r@ == pack_bytes(file_views(files@)),
{
    let ghost fv = file_views(files@);
    let mut out: Vec<u8> = Vec::new();
    out.push(0x53u8);
    out.push(0x56u8);
    out.push(0x50u8);
    out.push(0x4bu8);
    out.push(0x31u8);
    out.push(0x0au8);
    assert(out@ =~= magic());
    push_le(&mut out, files.len() as u64, 4);
    let ghost head = out@;
    assert(fv.take(0) =~= Seq::<(Seq<char>, Seq<u8>)>::empty());
    let mut i: usize = 0;
    while i < files.len()
        invariant
            i <= files@.len(),
            fv == file_views(files@),
            head == magic() + le_bytes(files@.len() as nat, 4),
            out@ == head + entries_bytes(fv.take(i as int)),
        decreases files@.len() - i,
    {
        let path = files[i].0.as_str();
        let data = files[i].1.as_slice();
        let pb = path.as_bytes();
        let ghost before = out@;
        push_le(&mut out, pb.len() as u64, 4);
        push_all(&mut out, pb);
        push_le(&mut out, data.len() as u64, 8);
        push_all(&mut out, data);
        proof {
            assert(fv[i as int] == (path@, data@));
            assert(fv.take(i + 1) =~= fv.take(i as int).push(fv[i as int]));
            lemma_entries_push(fv.take(i as int), fv[i as int]);
            assert(out@ =~= before + entry_bytes(path@, data@));
        }
        i = i + 1;
    }
    assert(fv.take(files@.len() as int) =~= fv);
    out
}

pub proof fn lemma_le_bytes_len(n: nat, k: nat)
    ensures
        le_bytes(n, k).len() == k,
    decreases k,
{
    if k > 0 {
        lemma_le_bytes_len(n / 256, (k - 1) as nat);
    }
}

/// Reading back the bytes written for `n` gives `n`, when `n` fits.
pub proof fn lemma_le_round_trip(n: nat, k: nat)
    requires
        n < pow256(k),
    ensures
        le_value(le_bytes(n, k)) == n,
    decreases k,
{
    if k > 0 {
        lemma_le_bytes_len(n / 256, (k - 1) as nat);
        lemma_le_round_trip(n / 256, (k - 1) as nat);
        let b = le_bytes(n, k);
        assert(b.drop_first() =~= le_bytes(n / 256, (k - 1) as nat));
    }
}

pub proof fn lemma_le_value_bound(b: Seq<u8>)
    ensures
        le_value(b) < pow256(b.len()),
    decreases b.len(),
{
    if b.len() > 0 {
        lemma_le_value_bound(b.drop_first());
    }
}

/// The little-endian number in `data[start..start + k]`.
fn le_read(data: &[u8], start: usize, k: usize) -> (r: u64)
    requires
        k <= 8,
        start + k <= data@.len(),
    ensures
        r == le_value(data@.subrange(start as int, start + k)),
{
    let total = data.len();
    let mut v: u64 = 0;
    let mut j: usize = k;
    assert(pow256(8) == 0x1_0000_0000_0000_0000) by {
        reveal_with_fuel(pow256, 9);
    }
    while j > 0
        invariant
            j <= k <= 8,
            start + k <= data@.len(),
            total == data@.len(),
            pow256(8) == 0x1_0000_0000_0000_0000,
            v == le_value(data@.subrange(start + j, start + k)),
        decreases j,
    {
        let ghost tail = data@.subrange(start + j, start + k);
        let ghost b = data@.subrange(start + j - 1, start + k);
        proof {
            lemma_le_value_bound(tail);
            lemma_pow256_mono(tail.len(), 7);
            assert(b.drop_first() =~= tail);
        }
        let idx: usize = start + j - 1;
        v = v * 256 + data[idx] as u64;
        j = j - 1;
    }
    v
}

pub proof fn lemma_pow256_mono(a: nat, b: nat)
    requires
        a <= b,
    ensures
        pow256(a) <= pow256(b),
    decreases b,
{
    if a < b {
        lemma_pow256_mono(a, (b - 1) as nat);
    }
}

/// Where a field of `len` bytes at `cur` ends, or why it cannot be read.
pub open spec fn field_end(data: Seq<u8>, cur: int, len: int) -> Result<int, Seq<char>> {
    if cur + len > usize::MAX {
        Err("length overflow"@)
    } else if cur + len > data.len() {
        Err("unexpected end of archive"@)
    } else {
        Ok(cur + len)
    }
}

/// A drive prefix such as `C:`: an ASCII letter, then `:`.
pub open spec fn has_drive_prefix(p: Seq<char>) -> bool {
    p.len() >= 2 && p[1] == ':' && (('a' <= p[0] && p[0] <= 'z') || ('A' <= p[0] && p[0] <= 'Z'))
}

/// The part of `p` after any drive prefix, with `\` turned into `/`: where
/// Windows looks for its components.
pub open spec fn after_prefix(p: Seq<char>) -> Seq<char> {
    if has_drive_prefix(p) {
        slashes(p).skip(2)
    } else {
        slashes(p)
    }
}

/// An absolute path: on Unix one that starts with `/`; on Windows one with
/// a prefix and a root, that is a drive prefix followed by a separator
/// (`C:\x`), or a `\\` prefix (`\\server\share`, `\\?\`), which has
/// its root built in.
pub open spec fn is_absolute(p: Seq<char>) -> bool {
    ||| (p.len() > 0 && p[0] == '/')
    ||| (p.len() >= 2 && p[0] == '\\' && p[1] == '\\')
    ||| (has_drive_prefix(p) && p.len() >= 3 && (p[2] == '/' || p[2] == '\\'))
}

/// A path that the archive refuses. Archives travel between members
/// whatever their platform, so a path is refused when `Path::is_absolute`
/// or `Component::ParentDir` would refuse it on Unix or on Windows: absolute
/// on either, or with a `..` component (on Windows `/` and `\` both
/// separate components, after any drive prefix). This is intended: a path
/// such as `a\..\b` or `C:/x`, harmless on Unix, escapes the destination
/// on Windows, and `/x` escapes it on Unix. A drive-relative path such as
/// `C:x`, or a rooted one such as `\x`, is refused on neither, and is
/// accepted.
pub open spec fn unsafe_path(p: Seq<char>) -> bool {
    ||| is_absolute(p)
    ||| exists|i: int|
        0 <= i < split_on(after_prefix(p), '/').len() && #[trigger] split_on(after_prefix(p), '/')[i] == seq!['.', '.']
}

/// The files of a blob, read from `cur` on, with `n` still to read, and the
/// message of the error that stopped the reading, if one did.
pub open spec fn unpack_from(data: Seq<u8>, cur: int, n: nat) -> (
    Seq<(Seq<char>, Seq<u8>)>,
    Option<Seq<char>>,
)
    decreases n,
{
    if n == 0 {
        (seq![], None)
    } else {
        match field_end(data, cur, 4) {
            Err(m) => (seq![], Some(m)),
            Ok(c1) => {
                let plen = le_value(data.subrange(cur, c1));
                match field_end(data, c1, plen as int) {
                    Err(m) => (seq![], Some(m)),
                    Ok(c2) => {
                        let pb = data.subrange(c1, c2);
                        if !valid_utf8(pb) {
                            (seq![], Some(utf8_error_text(pb)))
                        } else {
                            match field_end(data, c2, 8) {
                                Err(m) => (seq![], Some(m)),
                                Ok(c3) => {
                                    let dlen = le_value(data.subrange(c2, c3)) as usize;
                                    match field_end(data, c3, dlen as int) {
                                        Err(m) => (seq![], Some(m)),
                                        Ok(c4) => {
                                            let p = decode_utf8(pb);
                                            if unsafe_path(p) {
                                                (seq![], Some("unsafe path in archive: "@ + str_debug(p)))
                                            } else {
                                                let rest = unpack_from(data, c4, (n - 1) as nat);
                                                (seq![(p, data.subrange(c3, c4))] + rest.0, rest.1)
                                            }
                                        },
                                    }
                                },
                            }
                        }
                    },
                }
            },
        }
    }
}

/// The files of a blob, in order, and the message of the error that stopped
/// the reading, if one did.
pub open spec fn unpack_spec(data: Seq<u8>) -> (Seq<(Seq<char>, Seq<u8>)>, Option<Seq<char>>) {
    if data.len() < 6 || data.take(6) != magic() {
        (seq![], Some("bad magic header"@))
    } else {
        match field_end(data, 6, 4) {
            Err(m) => (seq![], Some(m)),
            Ok(c) => unpack_from(data, c, le_value(data.subrange(6, c))),
        }
    }
}

/// Where a field of `len` bytes at `cur` ends, or why it cannot be read.
fn read_field(data: &[u8], cur: usize, len: usize) -> (r: Result<usize, String>)
    ensures
        r matches Ok(e) ==> field_end(data@, cur as int, len as int) == Ok::<int, Seq<char>>(e as int),
        r matches Err(m) ==> field_end(data@, cur as int, len as int) == Err::<int, Seq<char>>(m@),
{
    if len > usize::MAX - cur {
        return Err(copy_str("length overflow"));
    }
    let end = cur + len;
    if end > data.len() {
        return Err(copy_str("unexpected end of archive"));
    }
    Ok(end)
}

/// Whether `p` is absolute (on Unix or Windows) or has a `..` component.
pub fn is_unsafe_path(p: &str) -> (r: bool)
    ensures
        r == unsafe_path(p@),
{
    let chars = chars_of(p);
    let n = chars.len();
    if n > 0 && chars[0] == '/' {
        return true;
    }
    if n >= 2 && chars[0] == '\\' && chars[1] == '\\' {
        return true;
    }
    let drive = n >= 2 && chars[1] == ':' && (('a' <= chars[0] && chars[0] <= 'z') || ('A' <= chars[0]
        && chars[0] <= 'Z'));
    if drive && n >= 3 && (chars[2] == '/' || chars[2] == '\\') {
        return true;
    }
    let q = to_slashes(chars.as_slice());
    let rest = if drive {
        copy_chars(q.as_slice(), 2)
    } else {
        q
    };
    assert(rest@ == after_prefix(p@));
    let pieces = split_chars(rest.as_slice(), '/');
    let ghost ps = split_on(after_prefix(p@), '/');
    assert(char_views(pieces@) == ps);
    let mut i: usize = 0;
    while i < pieces.len()
        invariant
            i <= pieces@.len(),
            char_views(pieces@) == ps,
            ps == split_on(after_prefix(p@), '/'),
            !is_absolute(p@),
            forall|j: int| 0 <= j < i ==> #[trigger] ps[j] != seq!['.', '.'],
        decreases pieces@.len() - i,
    {
        let piece = &pieces[i];
        assert(ps[i as int] == piece@);
        if piece.len() == 2 && piece[0] == '.' && piece[1] == '.' {
            assert(piece@ =~= seq!['.', '.']);
            assert(split_on(after_prefix(p@), '/')[i as int] == seq!['.', '.']);
            return true;
        }
        i = i + 1;
    }
    false
}

/// The characters of `v` from `from` on.
fn copy_chars(v: &[char], from: usize) -> (r: Vec<char>)
    requires
        from <= v@.len(),
    ensures
        r@ == v@.skip(from as int),
{
    let mut out: Vec<char> = Vec::new();
    let mut k: usize = from;
    while k < v.len()
        invariant
            from <= k <= v@.len(),
            out@ == v@.subrange(from as int, k as int),
        decreases v@.len() - k,
    {
        out.push(v[k]);
        k = k + 1;
        assert(out@ =~= v@.subrange(from as int, k as int));
    }
    assert(out@ =~= v@.skip(from as int));
    out
}

/// The files a pack blob holds, in order, and the error that stopped the
/// reading, if one did. The application writes `files`, in order, under the
/// destination folder, then reports `error`.
pub struct Unpacked {
    pub files: Vec<(String, Vec<u8>)>,
    pub error: Option<SyncError>,
}

/// What reading `data` gives: the files before any error, and that error.
pub open spec fn unpacked_matches(r: Unpacked, data: Seq<u8>) -> bool {
    &&& file_views(r.files@) == unpack_spec(data).0
    &&& match r.error {
        None => unpack_spec(data).1 is None,
        Some(e) => e matches SyncError::Pack(m) && unpack_spec(data).1 == Some(m@),
    }
}

fn stop(files: Vec<(String, Vec<u8>)>, m: String) -> (r: Unpacked)
    ensures
        r.files == files,
        r.error == Some(SyncError::Pack(m)),
{
    Unpacked { files, error: Some(SyncError::Pack(m)) }
}

/// Take a blob produced by [`encode_pack`] apart: the files it holds, with
/// paths checked, up to the first malformed or unsafe entry. Entries with
/// absolute paths or `..` components are rejected (path traversal).
pub fn unpack_entries(data: &[u8]) -> (r: Unpacked)
    ensures
        unpacked_matches(r, data@),
{
    let total = data.len();
    if total < 6 || !(data[0] == 0x53u8 && data[1] == 0x56u8 && data[2] == 0x50u8 && data[3]
        == 0x4bu8 && data[4] == 0x31u8 && data[5] == 0x0au8) {
        proof {
            if data@.len() >= 6 && data@.take(6) == magic() {
                assert(data@.take(6)[0] == data@[0]);
                assert(data@.take(6)[1] == data@[1]);
                assert(data@.take(6)[2] == data@[2]);
                assert(data@.take(6)[3] == data@[3]);
                assert(data@.take(6)[4] == data@[4]);
                assert(data@.take(6)[5] == data@[5]);
            }
        }
        let r = stop(Vec::new(), copy_str("bad magic header"));
        assert(file_views(r.files@) =~= Seq::<(Seq<char>, Seq<u8>)>::empty());
        return r;
    }
    assert(data@.take(6) =~= magic());
    let c = match read_field(data, 6, 4) {
        Err(m) => {
            let r = stop(Vec::new(), m);
            assert(file_views(r.files@) =~= Seq::<(Seq<char>, Seq<u8>)>::empty());
            return r;
        },
        Ok(c) => c,
    };
    let count = le_read(data, 6, 4);
    let ghost goal = unpack_from(data@, c as int, count as nat);
    let mut files: Vec<(String, Vec<u8>)> = Vec::new();
    let mut cur: usize = c;
    let mut left: u64 = count;
    proof {
        lemma_le_value_bound(data@.subrange(6, 10));
        assert(pow256(4) == 0x1_0000_0000) by {
            reveal_with_fuel(pow256, 5);
        }
        assert(file_views(files@) =~= Seq::<(Seq<char>, Seq<u8>)>::empty());
        assert(Seq::<(Seq<char>, Seq<u8>)>::empty() + goal.0 =~= goal.0);
    }
    while left > 0
        invariant
            total == data@.len(),
            pow256(4) == 0x1_0000_0000,
            file_views(files@) + unpack_from(data@, cur as int, left as nat).0 == goal.0,
            unpack_from(data@, cur as int, left as nat).1 == goal.1,
            goal == unpack_spec(data@),
        decreases left,
    {
        let ghost fv = file_views(files@);
        let ghost here = unpack_from(data@, cur as int, left as nat);
        let c1 = match read_field(data, cur, 4) {
            Err(m) => {
                assert(fv + seq![] =~= fv);
                return stop(files, m);
            },
            Ok(e) => e,
        };
        let plen_raw = le_read(data, cur, 4);
        proof {
            lemma_le_value_bound(data@.subrange(cur as int, c1 as int));
        }
        let plen = plen_raw as usize;
        let c2 = match read_field(data, c1, plen) {
            Err(m) => {
                assert(fv + seq![] =~= fv);
                return stop(files, m);
            },
            Ok(e) => e,
        };
        let pbytes = copy_range(data, c1, c2);
        let path = match utf8_to_string(pbytes.as_slice()) {
            Err(m) => {
                assert(fv + seq![] =~= fv);
                return stop(files, m);
            },
            Ok(p) => p,
        };
        let c3 = match read_field(data, c2, 8) {
            Err(m) => {
                assert(fv + seq![] =~= fv);
                return stop(files, m);
            },
            Ok(e) => e,
        };
        let dlen_raw = le_read(data, c2, 8);
        let dlen = dlen_raw as usize;
        let c4 = match read_field(data, c3, dlen) {
            Err(m) => {
                assert(fv + seq![] =~= fv);
                return stop(files, m);
            },
            Ok(e) => e,
        };
        if is_unsafe_path(path.as_str()) {
            let shown = debug_str(path.as_str());
            assert(fv + seq![] =~= fv);
            return stop(files, prefixed("unsafe path in archive: ", shown.as_str()));
        }
        let content = copy_range(data, c3, c4);
        let ghost entry = (path@, content@);
        files.push((path, content));
        proof {
            let rest = unpack_from(data@, c4 as int, (left - 1) as nat);
            assert(here.0 == seq![entry] + rest.0);
            assert(file_views(files@) =~= fv.push(entry));
            assert(file_views(files@) + rest.0 =~= fv + here.0);
        }
        cur = c4;
        left = left - 1;
    }
    assert(file_views(files@) + Seq::<(Seq<char>, Seq<u8>)>::empty() =~= file_views(files@));
    Unpacked { files, error: None }
}

/// `x` placed into path-ordered `t` after every entry whose path is not
/// greater than its own (so entries with equal paths keep their order).
pub open spec fn insert_by_path(t: Seq<(Seq<char>, Seq<u8>)>, x: (Seq<char>, Seq<u8>)) -> Seq<
    (Seq<char>, Seq<u8>),
>
    decreases t.len(),
{
    if t.len() == 0 {
        seq![x]
    } else if seq_lt(x.0, t[0].0) {
        seq![x] + t
    } else {
        seq![t[0]] + insert_by_path(t.drop_first(), x)
    }
}

/// `s` stably sorted by path (byte order of the UTF-8 paths, which is the
/// code-point order of their characters).
pub open spec fn sort_by_path(s: Seq<(Seq<char>, Seq<u8>)>) -> Seq<(Seq<char>, Seq<u8>)>
    decreases s.len(),
{
    if s.len() == 0 {
        s
    } else {
        insert_by_path(sort_by_path(s.drop_last()), s.last())
    }
}

proof fn lemma_insert_at(t: Seq<(Seq<char>, Seq<u8>)>, x: (Seq<char>, Seq<u8>), p: int)
    requires
        0 <= p <= t.len(),
        forall|a: int| 0 <= a < p ==> !seq_lt(x.0, #[trigger] t[a].0),
        p < t.len() ==> seq_lt(x.0, t[p].0),
    ensures
        insert_by_path(t, x) == t.insert(p, x),
    decreases p,
{
    if t.len() == 0 {
        assert(t.insert(p, x) =~= seq![x]);
    } else if p == 0 {
        assert(t.insert(p, x) =~= seq![x] + t);
    } else {
        assert(!seq_lt(x.0, t[0].0));
        let u = t.drop_first();
        assert forall|a: int| 0 <= a < p - 1 implies !seq_lt(x.0, #[trigger] u[a].0) by {
            assert(u[a] == t[a + 1]);
        }
        lemma_insert_at(u, x, p - 1);
        assert(t.insert(p, x) =~= seq![t[0]] + u.insert(p - 1, x));
    }
}

/// Order `files` by path, stably.
pub fn sort_files(files: Vec<(String, Vec<u8>)>) -> (r: Vec<(String, Vec<u8>)>)
    ensures
        file_views(r@) == sort_by_path(file_views(files@)),
{
    let ghost fv = file_views(files@);
    let mut out: Vec<(String, Vec<u8>)> = Vec::new();
    let mut rest = files;
    let n = rest.len();
    let mut i: usize = 0;
    assert(file_views(out@) =~= sort_by_path(fv.take(0)));
    while i < n
        invariant
            i <= n == fv.len(),
            rest@.len() == n - i,
            forall|k: int| 0 <= k < n - i ==> (#[trigger] rest@[k].0)@ == fv[i + k].0 && rest@[k].1@ == fv[i + k].1,
            file_views(out@) == sort_by_path(fv.take(i as int)),
        decreases n - i,
    {
        let ghost r0 = rest@;
        let x = rest.remove(0);
        assert forall|k: int| 0 <= k < n - i - 1 implies (#[trigger] rest@[k].0)@ == fv[i + 1 + k].0 && rest@[k].1@ == fv[i + 1 + k].1 by {
            assert(rest@[k] == r0[k + 1]);
        }
        assert(x.0@ == fv[i as int].0 && x.1@ == fv[i as int].1);
        let mut p: usize = 0;
        while p < out.len() && order_str(x.0.as_str(), out[p].0.as_str()) != -1
            invariant
                p <= out@.len(),
                forall|a: int| 0 <= a < p ==> !seq_lt(x.0@, #[trigger] out@[a].0@),
            decreases out@.len() - p,
        {
            p = p + 1;
        }
        let ghost o = file_views(out@);
        let ghost xv = (x.0@, x.1@);
        proof {
            assert forall|a: int| 0 <= a < p implies !seq_lt(xv.0, #[trigger] o[a].0) by {
                assert(o[a].0 == out@[a].0@);
            }
            if p < o.len() {
                assert(o[p as int].0 == out@[p as int].0@);
            }
            lemma_insert_at(o, xv, p as int);
            assert(fv.take(i + 1).drop_last() =~= fv.take(i as int));
            assert(fv.take(i + 1).last() == xv);
        }
        out.insert(p, x);
        assert(file_views(out@) =~= o.insert(p as int, xv));
        i = i + 1;
    }
    assert(fv.take(n as int) =~= fv);
    out
}

/// Pack files into one deterministic blob: sorted by path, then encoded.
pub fn pack_files(files: Vec<(String, Vec<u8>)>) -> (r: Vec<u8>)
    ensures
        r@ == pack_bytes(sort_by_path(file_views(files@))),
{
    let sorted = sort_files(files);
    encode_pack(sorted.as_slice())
}

/// The files a blob can hold and give back: a safe path whose UTF-8 form has
/// fewer than 2^32 bytes.
pub open spec fn packable(files: Seq<(Seq<char>, Seq<u8>)>) -> bool {
    forall|i: int|
        0 <= i < files.len() ==> encode_utf8(#[trigger] files[i].0).len() < 0x1_0000_0000
            && !unsafe_path(files[i].0)
}

proof fn lemma_entry_fields(data: Seq<u8>, cur: int, p: Seq<char>, d: Seq<u8>, rest: Seq<u8>)
    requires
        0 <= cur,
        cur + entry_bytes(p, d).len() + rest.len() <= data.len() <= usize::MAX,
        data.subrange(cur, cur + entry_bytes(p, d).len() + rest.len()) == entry_bytes(p, d) + rest,
        encode_utf8(p).len() < 0x1_0000_0000,
    ensures
        ({
            let pl = encode_utf8(p).len() as int;
            let c1 = cur + 4;
            let c2 = c1 + pl;
            let c3 = c2 + 8;
            let c4 = c3 + d.len();
            &&& le_value(data.subrange(cur, c1)) == pl
            &&& data.subrange(c1, c2) == encode_utf8(p)
            &&& le_value(data.subrange(c2, c3)) as usize == d.len()
            &&& data.subrange(c3, c4) == d
            &&& c4 == cur + entry_bytes(p, d).len()
            &&& data.subrange(c4, c4 + rest.len()) == rest
        }),
{
    let pb = encode_utf8(p);
    let pl = pb.len() as int;
    let e = entry_bytes(p, d);
    let w = data.subrange(cur, cur + e.len() + rest.len());
    lemma_le_bytes_len(pb.len(), 4);
    lemma_le_bytes_len(d.len(), 8);
    let c1 = cur + 4;
    let c2 = c1 + pl;
    let c3 = c2 + 8;
    let c4 = c3 + d.len();
    assert(e.len() == 4 + pl + 8 + d.len());
    assert(data.subrange(cur, c1) =~= w.subrange(0, 4));
    assert(w.subrange(0, 4) =~= le_bytes(pb.len(), 4));
    assert(pow256(4) == 0x1_0000_0000) by {
        reveal_with_fuel(pow256, 5);
    }
    lemma_le_round_trip(pb.len(), 4);
    assert(data.subrange(c1, c2) =~= w.subrange(4, 4 + pl));
    assert(w.subrange(4, 4 + pl) =~= pb);
    assert(data.subrange(c2, c3) =~= w.subrange(4 + pl, 12 + pl));
    assert(w.subrange(4 + pl, 12 + pl) =~= le_bytes(d.len(), 8));
    assert(pow256(8) == 0x1_0000_0000_0000_0000) by {
        reveal_with_fuel(pow256, 9);
    }
    lemma_le_round_trip(d.len(), 8);
    assert(data.subrange(c3, c4) =~= w.subrange(12 + pl, e.len() as int));
    assert(w.subrange(12 + pl, e.len() as int) =~= d);
    assert(data.subrange(c4, c4 + rest.len()) =~= w.subrange(e.len() as int, w.len() as int));
    assert(w.subrange(e.len() as int, w.len() as int) =~= rest);
}

proof fn lemma_unpack_entries(data: Seq<u8>, cur: int, files: Seq<(Seq<char>, Seq<u8>)>)
    requires
        0 <= cur,
        cur + entries_bytes(files).len() <= data.len() <= usize::MAX,
        data.subrange(cur, cur + entries_bytes(files).len()) == entries_bytes(files),
        packable(files),
    ensures
        unpack_from(data, cur, files.len()) == (files, None::<Seq<char>>),
    decreases files.len(),
{
    if files.len() > 0 {
        let p = files[0].0;
        let d = files[0].1;
        let rest = files.drop_first();
        let rb = entries_bytes(rest);
        assert(encode_utf8(files[0].0).len() < 0x1_0000_0000);
        lemma_entry_fields(data, cur, p, d, rb);
        vstd::utf8::encode_utf8_valid_utf8(p);
        vstd::utf8::encode_utf8_decode_utf8(p);
        let c4 = cur + entry_bytes(p, d).len();
        assert forall|i: int| 0 <= i < rest.len() implies encode_utf8(#[trigger] rest[i].0).len()
            < 0x1_0000_0000 && !unsafe_path(rest[i].0) by {
            assert(rest[i] == files[i + 1]);
        }
        lemma_unpack_entries(data, c4, rest);
        assert(!unsafe_path(p));
        assert(seq![(p, d)] + rest =~= files);
    }
}

/// Unpacking a packed list of files gives back the same files, in the same
/// order, with no error, for files whose paths are safe and whose blob fits
/// in memory.
pub proof fn law_unpack_after_pack(files: Seq<(Seq<char>, Seq<u8>)>)
    requires
        files.len() < 0x1_0000_0000,
        packable(files),
        pack_bytes(files).len() <= usize::MAX,
    ensures
        unpack_spec(pack_bytes(files)) == (files, None::<Seq<char>>),
{
    let data = pack_bytes(files);
    let eb = entries_bytes(files);
    lemma_le_bytes_len(files.len(), 4);
    assert(data.take(6) =~= magic());
    assert(data.subrange(6, 10) =~= le_bytes(files.len(), 4));
    assert(pow256(4) == 0x1_0000_0000) by {
        reveal_with_fuel(pow256, 5);
    }
    lemma_le_round_trip(files.len(), 4);
    assert(data.subrange(10, 10 + eb.len() as int) =~= eb);
    lemma_unpack_entries(data, 10, files);
}

/// Paths in non-decreasing order.
pub open spec fn path_sorted(s: Seq<(Seq<char>, Seq<u8>)>) -> bool {
    forall|i: int, j: int| 0 <= i < j < s.len() ==> !seq_lt(#[trigger] s[j].0, #[trigger] s[i].0)
}

/// No two entries share a path.
pub open spec fn distinct_paths(s: Seq<(Seq<char>, Seq<u8>)>) -> bool {
    forall|i: int, j: int| 0 <= i < j < s.len() ==> #[trigger] s[i].0 != #[trigger] s[j].0
}

proof fn lemma_insert_elements(t: Seq<(Seq<char>, Seq<u8>)>, x: (Seq<char>, Seq<u8>))
    ensures
        insert_by_path(t, x).len() == t.len() + 1,
        forall|k: int|
            0 <= k < insert_by_path(t, x).len() ==> #[trigger] insert_by_path(t, x)[k] == x
                || t.contains(insert_by_path(t, x)[k]),
        insert_by_path(t, x).to_multiset() == t.to_multiset().insert(x),
    decreases t.len(),
{
    broadcast use vstd::seq_lib::group_to_multiset_ensures;
    broadcast use vstd::multiset::group_multiset_axioms;

    let r = insert_by_path(t, x);
    if t.len() == 0 {
        assert(r =~= t.push(x));
    } else if seq_lt(x.0, t[0].0) {
        assert(r.remove(0) =~= t);
        assert(r[0] == x);
        assert forall|k: int| 0 <= k < r.len() implies #[trigger] r[k] == x || t.contains(r[k]) by {
            if k > 0 {
                assert(r[k] == t[k - 1]);
            }
        }
        assert(r.to_multiset().count(x) > 0) by {
            assert(r.contains(x));
        }
        let m = r.to_multiset();
        assert(r.remove(0).to_multiset() == m.remove(r[0]));
        assert(m =~= m.remove(x).insert(x));
    } else {
        let u = t.drop_first();
        lemma_insert_elements(u, x);
        let w = insert_by_path(u, x);
        assert(r == seq![t[0]] + w);
        assert(r.remove(0) =~= w);
        assert(t.remove(0) =~= u);
        assert forall|k: int| 0 <= k < r.len() implies #[trigger] r[k] == x || t.contains(r[k]) by {
            if k == 0 {
                assert(t[0] == r[0]);
            } else {
                assert(r[k] == w[k - 1]);
                if w[k - 1] != x {
                    let m = choose|m: int| 0 <= m < u.len() && u[m] == w[k - 1];
                    assert(t[m + 1] == u[m]);
                }
            }
        }
        assert(r.contains(t[0]));
        assert(t.contains(t[0]));
        let m = r.to_multiset();
        let n = t.to_multiset();
        assert(r.remove(0).to_multiset() == m.remove(r[0]));
        assert(t.remove(0).to_multiset() == n.remove(t[0]));
        assert(m.count(t[0]) > 0 && n.count(t[0]) > 0);
        assert(m =~= m.remove(t[0]).insert(t[0]));
        assert(n =~= n.remove(t[0]).insert(t[0]));
        assert(r.to_multiset() =~= t.to_multiset().insert(x));
    }
}

proof fn lemma_insert_sorted(t: Seq<(Seq<char>, Seq<u8>)>, x: (Seq<char>, Seq<u8>))
    requires
        path_sorted(t),
    ensures
        path_sorted(insert_by_path(t, x)),
    decreases t.len(),
{
    let r = insert_by_path(t, x);
    if t.len() == 0 {
    } else if seq_lt(x.0, t[0].0) {
        assert forall|i: int, j: int| 0 <= i < j < r.len() implies !seq_lt(
            #[trigger] r[j].0,
            #[trigger] r[i].0,
        ) by {
            assert(r[j] == t[j - 1]);
            if i == 0 {
                if seq_lt(t[j - 1].0, x.0) {
                    lemma_lt_transitive(t[j - 1].0, x.0, t[0].0);
                    if j - 1 == 0 {
                        lemma_lt_irreflexive(t[0].0);
                    }
                }
            } else {
                assert(r[i] == t[i - 1]);
            }
        }
    } else {
        let u = t.drop_first();
        lemma_insert_sorted(u, x);
        lemma_insert_elements(u, x);
        let w = insert_by_path(u, x);
        assert forall|i: int, j: int| 0 <= i < j < r.len() implies !seq_lt(
            #[trigger] r[j].0,
            #[trigger] r[i].0,
        ) by {
            assert(r[j] == w[j - 1]);
            if i == 0 {
                assert(r[0] == t[0]);
                if w[j - 1] != x {
                    let m = choose|m: int| 0 <= m < u.len() && u[m] == w[j - 1];
                    assert(u[m] == t[m + 1]);
                }
            } else {
                assert(r[i] == w[i - 1]);
            }
        }
    }
}

proof fn lemma_insert_distinct(t: Seq<(Seq<char>, Seq<u8>)>, x: (Seq<char>, Seq<u8>))
    requires
        distinct_paths(t),
        forall|m: int| 0 <= m < t.len() ==> (#[trigger] t[m]).0 != x.0,
    ensures
        distinct_paths(insert_by_path(t, x)),
    decreases t.len(),
{
    let r = insert_by_path(t, x);
    if t.len() == 0 {
    } else if seq_lt(x.0, t[0].0) {
        assert forall|i: int, j: int| 0 <= i < j < r.len() implies #[trigger] r[i].0 != #[trigger] r[j].0 by {
            assert(r[j] == t[j - 1]);
            if i > 0 {
                assert(r[i] == t[i - 1]);
            }
        }
    } else {
        let u = t.drop_first();
        assert forall|m: int| 0 <= m < u.len() implies (#[trigger] u[m]).0 != x.0 by {
            assert(u[m] == t[m + 1]);
        }
        lemma_insert_distinct(u, x);
        lemma_insert_elements(u, x);
        let w = insert_by_path(u, x);
        assert forall|i: int, j: int| 0 <= i < j < r.len() implies #[trigger] r[i].0 != #[trigger] r[j].0 by {
            assert(r[j] == w[j - 1]);
            if i == 0 {
                assert(r[0] == t[0]);
                if w[j - 1] != x {
                    let m = choose|m: int| 0 <= m < u.len() && u[m] == w[j - 1];
                    assert(u[m] == t[m + 1]);
                }
            } else {
                assert(r[i] == w[i - 1]);
            }
        }
    }
}

proof fn lemma_sort_props(s: Seq<(Seq<char>, Seq<u8>)>)
    ensures
        path_sorted(sort_by_path(s)),
        sort_by_path(s).to_multiset() == s.to_multiset(),
        forall|k: int| 0 <= k < sort_by_path(s).len() ==> s.contains(#[trigger] sort_by_path(s)[k]),
        distinct_paths(s) ==> distinct_paths(sort_by_path(s)),
    decreases s.len(),
{
    broadcast use vstd::seq_lib::group_to_multiset_ensures;

    if s.len() > 0 {
        let p = s.drop_last();
        let x = s.last();
        lemma_sort_props(p);
        let t = sort_by_path(p);
        lemma_insert_sorted(t, x);
        lemma_insert_elements(t, x);
        assert(p.push(x) =~= s);
        let r = sort_by_path(s);
        assert forall|k: int| 0 <= k < r.len() implies s.contains(#[trigger] r[k]) by {
            if r[k] != x {
                let m = choose|m: int| 0 <= m < t.len() && t[m] == r[k];
                let q = choose|q: int| 0 <= q < p.len() && p[q] == t[m];
                assert(s[q] == p[q]);
            } else {
                assert(s[s.len() - 1] == x);
            }
        }
        if distinct_paths(s) {
            assert forall|i: int, j: int| 0 <= i < j < p.len() implies #[trigger] p[i].0 != #[trigger] p[j].0 by {
                assert(p[i] == s[i] && p[j] == s[j]);
            }
            assert forall|m: int| 0 <= m < t.len() implies (#[trigger] t[m]).0 != x.0 by {
                let q = choose|q: int| 0 <= q < p.len() && p[q] == t[m];
                assert(p[q] == s[q]);
            }
            lemma_insert_distinct(t, x);
        }
    }
}

proof fn lemma_sorted_unique(a: Seq<(Seq<char>, Seq<u8>)>, b: Seq<(Seq<char>, Seq<u8>)>)
    requires
        path_sorted(a),
        path_sorted(b),
        distinct_paths(a),
        a.to_multiset() == b.to_multiset(),
    ensures
        a == b,
    decreases a.len(),
{
    broadcast use vstd::seq_lib::group_to_multiset_ensures;

    a.to_multiset_ensures();
    b.to_multiset_ensures();
    assert(a.len() == b.len());
    if a.len() > 0 {
        let x = a[0];
        let y = b[0];
        assert(a.contains(x));
        assert(b.to_multiset().count(x) > 0);
        assert(b.contains(x));
        let j = choose|j: int| 0 <= j < b.len() && b[j] == x;
        assert(b.contains(y));
        assert(a.to_multiset().count(y) > 0);
        let i = choose|i: int| 0 <= i < a.len() && a[i] == y;
        if j > 0 {
            assert(!seq_lt(b[j].0, b[0].0));
        }
        if i > 0 {
            assert(!seq_lt(a[i].0, a[0].0));
        }
        lemma_lt_total(x.0, y.0);
        assert(x.0 == y.0);
        if i > 0 {
            assert(a[0].0 != a[i].0);
        }
        assert(x == y);
        let a1 = a.drop_first();
        let b1 = b.drop_first();
        assert(a.remove(0) =~= a1);
        assert(b.remove(0) =~= b1);
        assert forall|p: int, q: int| 0 <= p < q < a1.len() implies !seq_lt(#[trigger] a1[q].0, #[trigger] a1[p].0) by {
            assert(a1[p] == a[p + 1] && a1[q] == a[q + 1]);
        }
        assert forall|p: int, q: int| 0 <= p < q < b1.len() implies !seq_lt(#[trigger] b1[q].0, #[trigger] b1[p].0) by {
            assert(b1[p] == b[p + 1] && b1[q] == b[q + 1]);
        }
        assert forall|p: int, q: int| 0 <= p < q < a1.len() implies #[trigger] a1[p].0 != #[trigger] a1[q].0 by {
            assert(a1[p] == a[p + 1] && a1[q] == a[q + 1]);
        }
        lemma_sorted_unique(a1, b1);
        assert(a =~= seq![x] + a1);
        assert(b =~= seq![y] + b1);
    }
}

/// The files of a pack are in path order and are exactly the files given.
pub proof fn law_pack_order(files: Seq<(Seq<char>, Seq<u8>)>)
    ensures
        path_sorted(sort_by_path(files)),
        sort_by_path(files).to_multiset() == files.to_multiset(),
{
    lemma_sort_props(files);
}

/// Packing depends only on the folder's content: two lists holding the same
/// files (no path twice), in whatever order, pack to the same bytes.
pub proof fn law_pack_deterministic(a: Seq<(Seq<char>, Seq<u8>)>, b: Seq<(Seq<char>, Seq<u8>)>)
    requires
        a.to_multiset() == b.to_multiset(),
        distinct_paths(a),
    ensures
        pack_bytes(sort_by_path(a)) == pack_bytes(sort_by_path(b)),
{
    lemma_sort_props(a);
    lemma_sort_props(b);
    lemma_sorted_unique(sort_by_path(a), sort_by_path(b));
}

} // verus!
