//! Hashing, relative paths and search scopes.
use vstd::prelude::*;
use vstd::string::StringSliceAdditionalSpecFns;

use crate::paths::{components, has_zg_part, relative_path, relative_to, PartView};
use crate::text::{chars_of, push_char, string_of};
use crate::{other, ZgError};

verus! {

/// The FNV-1a offset basis.
pub const FNV_OFFSET: u64 = 0xcbf29ce484222325;
/// The FNV-1a prime.
pub const FNV_PRIME: u64 = 0x100000001b3;

/// The 64-bit FNV-1a hash of `bytes`.
pub open spec fn fnv(bytes: Seq<u8>) -> u64
    decreases bytes.len(),
{
    if bytes.len() == 0 {
        FNV_OFFSET
    } else {
        vstd::wrapping::u64_specs::wrapping_mul(fnv(bytes.drop_last()) ^ (bytes.last() as u64), FNV_PRIME)
    }
}

/// The 64-bit FNV-1a hash of `bytes`.
pub fn fnv1a64(bytes: &[u8]) -> (r: u64)
    ensures
        r == fnv(bytes@),
{
    let mut hash: u64 = FNV_OFFSET;
    let mut i: usize = 0;
    assert(bytes@.take(0) =~= Seq::<u8>::empty());
    while i < bytes.len()
        invariant
            i <= bytes@.len(),
            hash == fnv(bytes@.take(i as int)),
        decreases bytes@.len() - i,
    {
        assert(bytes@.take(i + 1).drop_last() =~= bytes@.take(i as int));
        hash = hash ^ (bytes[i] as u64);
        hash = hash.wrapping_mul(FNV_PRIME);
        i = i + 1;
    }
    assert(bytes@.take(bytes@.len() as int) =~= bytes@);
    hash
}

/// The lower-case hexadecimal digit for `d < 16`.
pub open spec fn hex_char(d: nat) -> char {
    if d < 10 {
        crate::text::digit_char(d)
    } else if d == 10 { 'a' }
    else if d == 11 { 'b' }
    else if d == 12 { 'c' }
    else if d == 13 { 'd' }
    else if d == 14 { 'e' }
    else { 'f' }
}

/// The last `count` hexadecimal digits of `n`, zero-padded.
pub open spec fn hex_digits(n: nat, count: nat) -> Seq<char>
    decreases count,
{
    if count == 0 {
        Seq::empty()
    } else {
        hex_digits(n / 16, (count - 1) as nat).push(hex_char(n % 16))
    }
}

fn hex_of(d: u64) -> (c: char)
    requires
        d < 16,
    ensures
        c == hex_char(d as nat),
{
    if d == 0 { '0' }
    else if d == 1 { '1' }
    else if d == 2 { '2' }
    else if d == 3 { '3' }
    else if d == 4 { '4' }
    else if d == 5 { '5' }
    else if d == 6 { '6' }
    else if d == 7 { '7' }
    else if d == 8 { '8' }
    else if d == 9 { '9' }
    else if d == 10 { 'a' }
    else if d == 11 { 'b' }
    else if d == 12 { 'c' }
    else if d == 13 { 'd' }
    else if d == 14 { 'e' }
    else { 'f' }
}

/// A content hash: the FNV-1a hash of the bytes as 16 lower-case hexadecimal digits.
pub open spec fn hash_text(bytes: Seq<u8>) -> Seq<char> {
    hex_digits(fnv(bytes) as nat, 16)
}

/// A content hash: the FNV-1a hash of the bytes as 16 lower-case hexadecimal digits.
pub fn stable_hash(bytes: &[u8]) -> (r: String)
    ensures
        r@ == hash_text(bytes@),
{
    let hash = fnv1a64(bytes);
    let mut digits: Vec<char> = Vec::new();
    let mut m: u64 = hash;
    let mut k: usize = 0;
    // digits are produced least significant first
    while k < 16
        invariant
            k <= 16,
            digits@.len() == k,
            hex_digits(hash as nat, 16) == hex_digits(m as nat, (16 - k) as nat) + digits@.reverse(),
        decreases 16 - k,
    {
        let ghost old_digits = digits@;
        let d = m % 16;
        digits.push(hex_of(d));
        assert(digits@.reverse() =~= seq![hex_char(d as nat)] + old_digits.reverse());
        assert(hex_digits(m as nat, (16 - k) as nat) == hex_digits((m / 16) as nat, (16 - k - 1) as nat).push(hex_char((m % 16) as nat)));
        m = m / 16;
        k = k + 1;
    }
    assert(hex_digits(m as nat, 0) =~= Seq::<char>::empty());
    let mut out = String::new();
    let mut i: usize = 16;
    while i > 0
        invariant
            i <= 16,
            digits@.len() == 16,
            out@ == digits@.reverse().take(16 - i),
        decreases i,
    {
        i = i - 1;
        push_char(&mut out, digits[i]);
        assert(out@ =~= digits@.reverse().take(16 - i));
    }
    assert(digits@.reverse().take(16) =~= digits@.reverse());
    out
}

/// The content hash of a text's UTF-8 bytes.
pub fn stable_text_hash(text: &str) -> (r: String)
    ensures
        r@ == hash_text(text.spec_bytes()),
{
    stable_hash(text.as_bytes())
}

/// `s` with every backslash turned into a slash.
pub open spec fn forward_slashes(s: Seq<char>) -> Seq<char> {
    s.map_values(|c: char| if c == '\\' { '/' } else { c })
}

/// Turns every backslash of `s` into a slash.
pub fn to_forward_slashes(s: &str) -> (r: String)
    ensures
        r@ == forward_slashes(s@),
{
    let v = chars_of(s);
    let mut out: Vec<char> = Vec::new();
    let mut i: usize = 0;
    while i < v.len()
        invariant
            i <= v@.len(),
            out@ == forward_slashes(v@.take(i as int)),
        decreases v@.len() - i,
    {
        let c = v[i];
        out.push(if c == '\\' { '/' } else { c });
        assert(out@ =~= forward_slashes(v@.take(i + 1)));
        i = i + 1;
    }
    assert(v@.take(v@.len() as int) =~= v@);
    string_of(out.as_slice())
}

/// `path` relative to `root` with forward slashes; an error when `path` is not under `root`.
pub fn relative_path_string(root: &str, path: &str) -> (r: Result<String, ZgError>)
    ensures
        r matches Ok(rel) ==> is_relative_text(root@, path@, rel@),
        r is Err <==> relative_to(root@, path@) is None,
        r matches Err(e) ==> e.message@ == path@ + " is not under "@ + root@,
{
    match relative_path(root, path) {
        Some(rel) => Ok(to_forward_slashes(rel.as_str())),
        None => {
            let mut message = String::new();
            crate::text::push_str(&mut message, path);
            crate::text::push_str(&mut message, " is not under ");
            crate::text::push_str(&mut message, root);
            Err(other(message))
        },
    }
}

/// Whether `rel` is `path` relative to `root`, with forward slashes.
pub open spec fn is_relative_text(root: Seq<char>, path: Seq<char>, rel: Seq<char>) -> bool {
    match relative_to(root, path) {
        Some(t) => rel == forward_slashes(t),
        None => false,
    }
}

/// Which part of an index a search scope covers.
#[derive(Debug)]
pub enum ScopeKind {
    Root,
    File(String),
    Directory(String, String),
}

/// Classifies a search scope inside an index root: the whole root, one file, or a directory
/// (with the `LIKE` prefix that selects the paths under it).
pub fn scope_kind(root: &str, scope: &str, scope_is_file: bool) -> (r: Result<ScopeKind, ZgError>)
    ensures
        components(scope@) == components(root@) ==> r matches Ok(ScopeKind::Root),
        components(scope@) != components(root@) ==> match r {
            Ok(ScopeKind::Root) => false,
            Ok(ScopeKind::File(rel)) => scope_is_file && is_relative_text(root@, scope@, rel@),
            Ok(ScopeKind::Directory(rel, prefix)) => !scope_is_file && is_relative_text(
                root@,
                scope@,
                rel@,
            ) && prefix@ == rel@ + "/%"@,
            Err(_) => relative_to(root@, scope@) is None,
        },
{
    if same_components(root, scope) {
        return Ok(ScopeKind::Root);
    }
    let rel_path = match relative_path_string(root, scope) {
        Ok(rel) => rel,
        Err(e) => return Err(e),
    };
    if scope_is_file {
        return Ok(ScopeKind::File(rel_path));
    }
    let mut prefix = rel_path.clone();
    crate::text::push_str(&mut prefix, "/%");
    Ok(ScopeKind::Directory(rel_path, prefix))
}

/// Whether two paths have the same components (`Path`'s equality).
pub fn same_components(a: &str, b: &str) -> (r: bool)
    ensures
        r == (components(a@) == components(b@)),
{
    let x = crate::paths::path_parts(a);
    let y = crate::paths::path_parts(b);
    if x.len() != y.len() {
        assert(crate::paths::part_views(x@).len() != crate::paths::part_views(y@).len());
        return false;
    }
    let mut i: usize = 0;
    while i < x.len()
        invariant
            i <= x@.len(),
            x@.len() == y@.len(),
            crate::paths::part_views(x@) == components(a@),
            crate::paths::part_views(y@) == components(b@),
            forall|k: int| 0 <= k < i ==> x@[k]@ == y@[k]@,
        decreases x@.len() - i,
    {
        if !crate::paths::same_part_exec(&x[i], &y[i]) {
            assert(crate::paths::part_views(x@)[i as int] != crate::paths::part_views(y@)[i as int]);
            return false;
        }
        i = i + 1;
    }
    assert(crate::paths::part_views(x@) =~= crate::paths::part_views(y@));
    true
}

} // verus!
