//! What a source's file name decides: how its bytes are decoded, and whether
//! lines without a marker are read.
use vstd::prelude::*;

use crate::number::{eq_ignore_case, word_in};
use crate::text::chars_of;

verus! {

/// How the bytes of a source file are decoded.
#[derive(Clone, Copy, Debug, PartialEq, Eq, Structural)]
pub enum Compression {
    /// Read as they are.
    Plain,
    /// A gzip stream.
    Gzip,
    /// A zstd stream.
    Zstd,
    /// An archive, of which the first entry is read.
    Zip,
}

/// `s` ends in the lowercase `suffix`, ignoring ASCII case.
pub open spec fn ends_with_ignore_case(s: Seq<char>, suffix: Seq<char>) -> bool {
    s.len() >= suffix.len() && eq_ignore_case(s.skip(s.len() - suffix.len()), suffix)
}

pub open spec fn gz_suffix() -> Seq<char> {
    seq!['.', 'g', 'z']
}

pub open spec fn gzip_suffix() -> Seq<char> {
    seq!['.', 'g', 'z', 'i', 'p']
}

pub open spec fn zst_suffix() -> Seq<char> {
    seq!['.', 'z', 's', 't']
}

pub open spec fn zstd_suffix() -> Seq<char> {
    seq!['.', 'z', 's', 't', 'd']
}

pub open spec fn zip_suffix() -> Seq<char> {
    seq!['.', 'z', 'i', 'p']
}

/// The suffix of a file that holds nothing but telemetry lines.
pub open spec fn telemetry_suffix() -> Seq<char> {
    seq!['.', 's', 't', 'r', 'a', 'p']
}

/// The decoding that a path's suffix selects, ignoring ASCII case.
pub open spec fn compression_spec(path: Seq<char>) -> Compression {
    if ends_with_ignore_case(path, gz_suffix()) || ends_with_ignore_case(path, gzip_suffix()) {
        Compression::Gzip
    } else if ends_with_ignore_case(path, zst_suffix()) || ends_with_ignore_case(path, zstd_suffix()) {
        Compression::Zstd
    } else if ends_with_ignore_case(path, zip_suffix()) {
        Compression::Zip
    } else {
        Compression::Plain
    }
}

/// The path without its compression suffix, if it has one.
pub open spec fn without_compression_suffix(path: Seq<char>) -> Seq<char> {
    if ends_with_ignore_case(path, gz_suffix()) {
        path.take(path.len() - 3)
    } else if ends_with_ignore_case(path, gzip_suffix()) || ends_with_ignore_case(path, zstd_suffix()) {
        path.take(path.len() - 5)
    } else if ends_with_ignore_case(path, zst_suffix()) || ends_with_ignore_case(path, zip_suffix()) {
        path.take(path.len() - 4)
    } else {
        path
    }
}

/// A source is read in permissive mode when its name, without a compression
/// suffix, ends in the telemetry suffix.
pub open spec fn permissive_spec(path: Seq<char>) -> bool {
    ends_with_ignore_case(without_compression_suffix(path), telemetry_suffix())
}

fn ends_with(s: &[char], n: usize, suffix: &[char]) -> (r: bool)
    requires
        n <= s.len(),
    ensures
        r == ends_with_ignore_case(s@.take(n as int), suffix@),
{
    if n < suffix.len() {
        return false;
    }
    let r = word_in(s, n - suffix.len(), n, suffix);
    assert(s@.take(n as int).skip(n - suffix.len()) =~= s@.subrange(n - suffix.len(), n as int));
    r
}

/// The decoding that the suffix of `path` selects.
pub fn compression_of(path: &str) -> (r: Compression)
    ensures
        r == compression_spec(path@),
{
    let cs = chars_of(path);
    let n = cs.len();
    assert(cs@.take(n as int) =~= path@);
    let gz = ['.', 'g', 'z'];
    let gzip = ['.', 'g', 'z', 'i', 'p'];
    let zst = ['.', 'z', 's', 't'];
    let zstd = ['.', 'z', 's', 't', 'd'];
    let zip = ['.', 'z', 'i', 'p'];
    assert(gz@ =~= gz_suffix());
    assert(gzip@ =~= gzip_suffix());
    assert(zst@ =~= zst_suffix());
    assert(zstd@ =~= zstd_suffix());
    assert(zip@ =~= zip_suffix());
    if ends_with(&cs, n, &gz) || ends_with(&cs, n, &gzip) {
        Compression::Gzip
    } else if ends_with(&cs, n, &zst) || ends_with(&cs, n, &zstd) {
        Compression::Zstd
    } else if ends_with(&cs, n, &zip) {
        Compression::Zip
    } else {
        Compression::Plain
    }
}

/// Whether lines of `path` without a marker are read: its name, without a
/// compression suffix, ends in `.strap`.
pub fn is_permissive(path: &str) -> (r: bool)
    ensures
        r == permissive_spec(path@),
{
    let cs = chars_of(path);
    let n = cs.len();
    assert(cs@.take(n as int) =~= path@);
    let gz = ['.', 'g', 'z'];
    let gzip = ['.', 'g', 'z', 'i', 'p'];
    let zst = ['.', 'z', 's', 't'];
    let zstd = ['.', 'z', 's', 't', 'd'];
    let zip = ['.', 'z', 'i', 'p'];
    let strap = ['.', 's', 't', 'r', 'a', 'p'];
    assert(gz@ =~= gz_suffix());
    assert(gzip@ =~= gzip_suffix());
    assert(zst@ =~= zst_suffix());
    assert(zstd@ =~= zstd_suffix());
    assert(zip@ =~= zip_suffix());
    assert(strap@ =~= telemetry_suffix());
    let stem: usize = if ends_with(&cs, n, &gz) {
        n - 3
    } else if ends_with(&cs, n, &gzip) || ends_with(&cs, n, &zstd) {
        n - 5
    } else if ends_with(&cs, n, &zst) || ends_with(&cs, n, &zip) {
        n - 4
    } else {
        n
    };
    assert(cs@.take(stem as int) =~= without_compression_suffix(path@));
    ends_with(&cs, stem, &strap)
}

} // verus!
