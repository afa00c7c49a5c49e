//! Folder archives (`HCAR`, version 3). Files are ordered by content group (from the
//! extension, or from leading magic bytes), files of one group and extension form a group,
//! and from level 3 on a group is cut into solid runs that are compressed as one stream.
//!
//! Layout: `"HCAR"`, `[u16 version]`, `[u32 file count]`; a directory with, per file,
//! `[u16 path length] [path] [u64 original size] [u64 stored size]`; then the stored blobs.
//! A blob starts with a marker: `0x00` stored, `0x01` chunked container, `0x07` xz, `0x08` xz
//! of the delta transform, `0x02` the head of a solid run (`[u32 count]`, `[u64 size]` per file,
//! then the run's stream), `0x03` a later member of a solid run. A run's stream starts with
//! `0x04` (xz of the delta transform), `0x05` (xz) or `0x06` (chunked container).
use vstd::prelude::*;
use crate::bytes::{le16, le32, le64, push_u16_le, push_u32_le, push_u64_le, append_bytes, copy_range, u16_at, u32_at, u64_at, read_u16_le, read_u32_le, read_u64_le};
use crate::chunk::region_count;
use crate::compress::{compress, FileProfile, MAX_INPUT};
use crate::decompress::{decompressed, decompress_checked, DecompressError};
use crate::entropy::{self, EntropyBand, codec_decoded, lzma_for_level, lzma_level_encoded};
use crate::format::{CodecType, DataType};
use crate::roundtrip::mismatch;
use crate::transform::delta::{self, delta_encoded, delta_decoded};

verus! {

/// Archive format version written.
pub const ARCHIVE_VERSION: u16 = 3;

/// The four magic bytes, `"HCAR"`.
pub open spec fn archive_magic() -> Seq<u8> {
    seq![72u8, 67u8, 65u8, 82u8]
}

/// Whether `data` starts with the archive magic.
pub fn is_archive(data: &[u8]) -> (r: bool)
    ensures
        r == (data@.len() >= 4 && data@.subrange(0, 4) == archive_magic()),
{
    if data.len() < 4 {
        return false;
    }
    let r = data[0] == 72 && data[1] == 67 && data[2] == 65 && data[3] == 82;
    assert(r ==> data@.subrange(0, 4) =~= archive_magic());
    assert(data@.subrange(0, 4) == archive_magic() ==> data@.subrange(0, 4)[0] == 72u8 && data@.subrange(0, 4)[3] == 82u8);
    r
}

// ---------------------------------------------------------------------------------------------
// Ordering and grouping
// ---------------------------------------------------------------------------------------------

/// The position of the last `.` in `p[0..i]`, or -1.
pub open spec fn last_dot(p: Seq<u8>, i: int) -> int
    decreases i,
{
    if i <= 0 {
        -1
    } else if p[i - 1] == 46 {
        i - 1
    } else {
        last_dot(p, i - 1)
    }
}

/// What follows the last `.` of `p`, or all of `p` when it has none.
pub open spec fn extension(p: Seq<u8>) -> Seq<u8> {
    let k = last_dot(p, p.len() as int);
    if k < 0 { p } else { p.subrange(k + 1, p.len() as int) }
}

/// `b` with ASCII capitals lowered.
pub open spec fn ascii_lower(b: u8) -> u8 {
    if 65 <= b <= 90 { (b + 32) as u8 } else { b }
}

/// `s` with ASCII capitals lowered.
pub open spec fn lowered(s: Seq<u8>) -> Seq<u8> {
    Seq::new(s.len(), |i: int| ascii_lower(s[i]))
}

/// The extensions of content group 0.
pub open spec fn group_0_ext(e: Seq<u8>) -> bool {
    e == seq![116u8, 120u8, 116u8]
        || e == seq![109u8, 100u8]
        || e == seq![108u8, 111u8, 103u8]
        || e == seq![99u8, 115u8, 118u8]
        || e == seq![116u8, 115u8, 118u8]
}

/// The extensions of content group 1.
pub open spec fn group_1_ext(e: Seq<u8>) -> bool {
    e == seq![112u8, 121u8]
        || e == seq![114u8, 115u8]
        || e == seq![106u8, 115u8]
        || e == seq![116u8, 115u8]
        || e == seq![99u8]
        || e == seq![104u8]
        || e == seq![99u8, 112u8, 112u8]
        || e == seq![106u8, 97u8, 118u8, 97u8]
        || e == seq![103u8, 111u8]
}

/// The extensions of content group 2.
pub open spec fn group_2_ext(e: Seq<u8>) -> bool {
    e == seq![106u8, 115u8, 111u8, 110u8]
        || e == seq![121u8, 97u8, 109u8, 108u8]
        || e == seq![121u8, 109u8, 108u8]
        || e == seq![116u8, 111u8, 109u8, 108u8]
        || e == seq![120u8, 109u8, 108u8]
        || e == seq![104u8, 116u8, 109u8, 108u8]
        || e == seq![104u8, 116u8, 109u8]
        || e == seq![99u8, 115u8, 115u8]
}

/// The extensions of content group 3.
pub open spec fn group_3_ext(e: Seq<u8>) -> bool {
    e == seq![101u8, 120u8, 101u8]
        || e == seq![100u8, 108u8, 108u8]
        || e == seq![115u8, 111u8]
        || e == seq![100u8, 121u8, 108u8, 105u8, 98u8]
        || e == seq![111u8]
        || e == seq![111u8, 98u8, 106u8]
}

/// The extensions of content group 4.
pub open spec fn group_4_ext(e: Seq<u8>) -> bool {
    e == seq![115u8, 97u8, 118u8]
        || e == seq![100u8, 97u8, 116u8]
        || e == seq![98u8, 105u8, 110u8]
        || e == seq![117u8, 116u8, 114u8, 97u8, 99u8, 101u8]
}

/// The extensions of content group 5.
pub open spec fn group_5_ext(e: Seq<u8>) -> bool {
    e == seq![119u8, 97u8, 118u8]
        || e == seq![114u8, 97u8, 119u8]
        || e == seq![112u8, 99u8, 109u8]
        || e == seq![97u8, 105u8, 102u8, 102u8]
}

/// The extensions of content group 6.
pub open spec fn group_6_ext(e: Seq<u8>) -> bool {
    e == seq![112u8, 100u8, 102u8]
        || e == seq![100u8, 111u8, 99u8]
        || e == seq![100u8, 111u8, 99u8, 120u8]
        || e == seq![120u8, 108u8, 115u8]
        || e == seq![120u8, 108u8, 115u8, 120u8]
}

/// The extensions of content group 10.
pub open spec fn group_10_ext(e: Seq<u8>) -> bool {
    e == seq![103u8, 122u8]
        || e == seq![98u8, 122u8, 50u8]
        || e == seq![120u8, 122u8]
        || e == seq![122u8, 115u8, 116u8]
        || e == seq![122u8, 105u8, 112u8]
        || e == seq![114u8, 97u8, 114u8]
        || e == seq![55u8, 122u8]
        || e == seq![104u8, 99u8]
}

/// The extensions of content group 11.
pub open spec fn group_11_ext(e: Seq<u8>) -> bool {
    e == seq![106u8, 112u8, 103u8]
        || e == seq![106u8, 112u8, 101u8, 103u8]
        || e == seq![112u8, 110u8, 103u8]
        || e == seq![103u8, 105u8, 102u8]
        || e == seq![119u8, 101u8, 98u8, 112u8]
}

/// The extensions of content group 12.
pub open spec fn group_12_ext(e: Seq<u8>) -> bool {
    e == seq![109u8, 112u8, 51u8]
        || e == seq![97u8, 97u8, 99u8]
        || e == seq![111u8, 103u8, 103u8]
        || e == seq![102u8, 108u8, 97u8, 99u8]
        || e == seq![109u8, 52u8, 97u8]
}

/// The extensions of content group 13.
pub open spec fn group_13_ext(e: Seq<u8>) -> bool {
    e == seq![109u8, 112u8, 52u8]
        || e == seq![109u8, 107u8, 118u8]
        || e == seq![97u8, 118u8, 105u8]
        || e == seq![109u8, 111u8, 118u8]
        || e == seq![119u8, 101u8, 98u8, 109u8]
}

/// The content group of a known extension.
pub open spec fn ext_group(e: Seq<u8>) -> Option<u8> {
    if group_0_ext(e) {
        Some(0u8)
    } else if group_1_ext(e) {
        Some(1u8)
    } else if group_2_ext(e) {
        Some(2u8)
    } else if group_3_ext(e) {
        Some(3u8)
    } else if group_4_ext(e) {
        Some(4u8)
    } else if group_5_ext(e) {
        Some(5u8)
    } else if group_6_ext(e) {
        Some(6u8)
    } else if group_10_ext(e) {
        Some(10u8)
    } else if group_11_ext(e) {
        Some(11u8)
    } else if group_12_ext(e) {
        Some(12u8)
    } else if group_13_ext(e) {
        Some(13u8)
    } else {
        None
    }
}

/// The content group of a file with an unknown extension, from its first bytes: gzip and
/// zip archives 10, PNG and JPEG images 11, else 7.
pub open spec fn magic_group(d: Seq<u8>) -> u8 {
    if d.len() >= 2 && ((d[0] == 0x1F && d[1] == 0x8B) || (d[0] == 0x50 && d[1] == 0x4B)) {
        10
    } else if d.len() >= 2 && ((d[0] == 0x89 && d[1] == 0x50) || (d[0] == 0xFF && d[1] == 0xD8)) {
        11
    } else {
        7
    }
}

/// The sort key of a file: its content group and its lowered extension.
pub open spec fn sort_key(path: Seq<u8>, data: Seq<u8>) -> (u8, Seq<u8>) {
    let e = lowered(extension(path));
    (
        match ext_group(e) {
            Some(g) => g,
            None => magic_group(data),
        },
        e,
    )
}

/// Whether `a` and `b` hold the same bytes.
fn eq_lit(e: &[u8], lit: &[u8]) -> (r: bool)
    ensures
        r == (e@ == lit@),
{
    if e.len() != lit.len() {
        return false;
    }
    let mut i: usize = 0;
    while i < e.len()
        invariant
            e.len() == lit.len(),
            i <= e.len(),
            forall|j: int| 0 <= j < i ==> e@[j] == lit@[j],
        decreases e.len() - i,
    {
        if e[i] != lit[i] {
            return false;
        }
        i = i + 1;
    }
    assert(e@ =~= lit@);
    true
}

fn is_group_0_ext(e: &[u8]) -> (r: bool)
    ensures
        r == group_0_ext(e@),
{
    if eq_lit(e, &[116u8, 120, 116]) {
        assert(e@ == seq![116u8, 120u8, 116u8]);
        return true;
    }
    if eq_lit(e, &[109u8, 100]) {
        assert(e@ == seq![109u8, 100u8]);
        return true;
    }
    if eq_lit(e, &[108u8, 111, 103]) {
        assert(e@ == seq![108u8, 111u8, 103u8]);
        return true;
    }
    if eq_lit(e, &[99u8, 115, 118]) {
        assert(e@ == seq![99u8, 115u8, 118u8]);
        return true;
    }
    if eq_lit(e, &[116u8, 115, 118]) {
        assert(e@ == seq![116u8, 115u8, 118u8]);
        return true;
    }
    false
}

fn is_group_1_ext(e: &[u8]) -> (r: bool)
    ensures
        r == group_1_ext(e@),
{
    if eq_lit(e, &[112u8, 121]) {
        assert(e@ == seq![112u8, 121u8]);
        return true;
    }
    if eq_lit(e, &[114u8, 115]) {
        assert(e@ == seq![114u8, 115u8]);
        return true;
    }
    if eq_lit(e, &[106u8, 115]) {
        assert(e@ == seq![106u8, 115u8]);
        return true;
    }
    if eq_lit(e, &[116u8, 115]) {
        assert(e@ == seq![116u8, 115u8]);
        return true;
    }
    if e.len() == 1 && e[0] == 99 {
        assert(e@ =~= seq![99u8]);
        return true;
    }
    assert(e@ != seq![99u8]) by {
        if e@ == seq![99u8] {
            assert(e@[0] == 99u8);
        }
    }
    if e.len() == 1 && e[0] == 104 {
        assert(e@ =~= seq![104u8]);
        return true;
    }
    assert(e@ != seq![104u8]) by {
        if e@ == seq![104u8] {
            assert(e@[0] == 104u8);
        }
    }
    if eq_lit(e, &[99u8, 112, 112]) {
        assert(e@ == seq![99u8, 112u8, 112u8]);
        return true;
    }
    if eq_lit(e, &[106u8, 97, 118, 97]) {
        assert(e@ == seq![106u8, 97u8, 118u8, 97u8]);
        return true;
    }
    if eq_lit(e, &[103u8, 111]) {
        assert(e@ == seq![103u8, 111u8]);
        return true;
    }
    false
}

fn is_group_2_ext(e: &[u8]) -> (r: bool)
    ensures
        r == group_2_ext(e@),
{
    if eq_lit(e, &[106u8, 115, 111, 110]) {
        assert(e@ == seq![106u8, 115u8, 111u8, 110u8]);
        return true;
    }
    if eq_lit(e, &[121u8, 97, 109, 108]) {
        assert(e@ == seq![121u8, 97u8, 109u8, 108u8]);
        return true;
    }
    if eq_lit(e, &[121u8, 109, 108]) {
        assert(e@ == seq![121u8, 109u8, 108u8]);
        return true;
    }
    if eq_lit(e, &[116u8, 111, 109, 108]) {
        assert(e@ == seq![116u8, 111u8, 109u8, 108u8]);
        return true;
    }
    if eq_lit(e, &[120u8, 109, 108]) {
        assert(e@ == seq![120u8, 109u8, 108u8]);
        return true;
    }
    if eq_lit(e, &[104u8, 116, 109, 108]) {
        assert(e@ == seq![104u8, 116u8, 109u8, 108u8]);
        return true;
    }
    if eq_lit(e, &[104u8, 116, 109]) {
        assert(e@ == seq![104u8, 116u8, 109u8]);
        return true;
    }
    if eq_lit(e, &[99u8, 115, 115]) {
        assert(e@ == seq![99u8, 115u8, 115u8]);
        return true;
    }
    false
}

fn is_group_3_ext(e: &[u8]) -> (r: bool)
    ensures
        r == group_3_ext(e@),
{
    if eq_lit(e, &[101u8, 120, 101]) {
        assert(e@ == seq![101u8, 120u8, 101u8]);
        return true;
    }
    if eq_lit(e, &[100u8, 108, 108]) {
        assert(e@ == seq![100u8, 108u8, 108u8]);
        return true;
    }
    if eq_lit(e, &[115u8, 111]) {
        assert(e@ == seq![115u8, 111u8]);
        return true;
    }
    if eq_lit(e, &[100u8, 121, 108, 105, 98]) {
        assert(e@ == seq![100u8, 121u8, 108u8, 105u8, 98u8]);
        return true;
    }
    if e.len() == 1 && e[0] == 111 {
        assert(e@ =~= seq![111u8]);
        return true;
    }
    assert(e@ != seq![111u8]) by {
        if e@ == seq![111u8] {
            assert(e@[0] == 111u8);
        }
    }
    if eq_lit(e, &[111u8, 98, 106]) {
        assert(e@ == seq![111u8, 98u8, 106u8]);
        return true;
    }
    false
}

fn is_group_4_ext(e: &[u8]) -> (r: bool)
    ensures
        r == group_4_ext(e@),
{
    if eq_lit(e, &[115u8, 97, 118]) {
        assert(e@ == seq![115u8, 97u8, 118u8]);
        return true;
    }
    if eq_lit(e, &[100u8, 97, 116]) {
        assert(e@ == seq![100u8, 97u8, 116u8]);
        return true;
    }
    if eq_lit(e, &[98u8, 105, 110]) {
        assert(e@ == seq![98u8, 105u8, 110u8]);
        return true;
    }
    if eq_lit(e, &[117u8, 116, 114, 97, 99, 101]) {
        assert(e@ == seq![117u8, 116u8, 114u8, 97u8, 99u8, 101u8]);
        return true;
    }
    false
}

fn is_group_5_ext(e: &[u8]) -> (r: bool)
    ensures
        r == group_5_ext(e@),
{
    if eq_lit(e, &[119u8, 97, 118]) {
        assert(e@ == seq![119u8, 97u8, 118u8]);
        return true;
    }
    if eq_lit(e, &[114u8, 97, 119]) {
        assert(e@ == seq![114u8, 97u8, 119u8]);
        return true;
    }
    if eq_lit(e, &[112u8, 99, 109]) {
        assert(e@ == seq![112u8, 99u8, 109u8]);
        return true;
    }
    if eq_lit(e, &[97u8, 105, 102, 102]) {
        assert(e@ == seq![97u8, 105u8, 102u8, 102u8]);
        return true;
    }
    false
}

fn is_group_6_ext(e: &[u8]) -> (r: bool)
    ensures
        r == group_6_ext(e@),
{
    if eq_lit(e, &[112u8, 100, 102]) {
        assert(e@ == seq![112u8, 100u8, 102u8]);
        return true;
    }
    if eq_lit(e, &[100u8, 111, 99]) {
        assert(e@ == seq![100u8, 111u8, 99u8]);
        return true;
    }
    if eq_lit(e, &[100u8, 111, 99, 120]) {
        assert(e@ == seq![100u8, 111u8, 99u8, 120u8]);
        return true;
    }
    if eq_lit(e, &[120u8, 108, 115]) {
        assert(e@ == seq![120u8, 108u8, 115u8]);
        return true;
    }
    if eq_lit(e, &[120u8, 108, 115, 120]) {
        assert(e@ == seq![120u8, 108u8, 115u8, 120u8]);
        return true;
    }
    false
}

fn is_group_10_ext(e: &[u8]) -> (r: bool)
    ensures
        r == group_10_ext(e@),
{
    if eq_lit(e, &[103u8, 122]) {
        assert(e@ == seq![103u8, 122u8]);
        return true;
    }
    if eq_lit(e, &[98u8, 122, 50]) {
        assert(e@ == seq![98u8, 122u8, 50u8]);
        return true;
    }
    if eq_lit(e, &[120u8, 122]) {
        assert(e@ == seq![120u8, 122u8]);
        return true;
    }
    if eq_lit(e, &[122u8, 115, 116]) {
        assert(e@ == seq![122u8, 115u8, 116u8]);
        return true;
    }
    if eq_lit(e, &[122u8, 105, 112]) {
        assert(e@ == seq![122u8, 105u8, 112u8]);
        return true;
    }
    if eq_lit(e, &[114u8, 97, 114]) {
        assert(e@ == seq![114u8, 97u8, 114u8]);
        return true;
    }
    if eq_lit(e, &[55u8, 122]) {
        assert(e@ == seq![55u8, 122u8]);
        return true;
    }
    if eq_lit(e, &[104u8, 99]) {
        assert(e@ == seq![104u8, 99u8]);
        return true;
    }
    false
}

fn is_group_11_ext(e: &[u8]) -> (r: bool)
    ensures
        r == group_11_ext(e@),
{
    if eq_lit(e, &[106u8, 112, 103]) {
        assert(e@ == seq![106u8, 112u8, 103u8]);
        return true;
    }
    if eq_lit(e, &[106u8, 112, 101, 103]) {
        assert(e@ == seq![106u8, 112u8, 101u8, 103u8]);
        return true;
    }
    if eq_lit(e, &[112u8, 110, 103]) {
        assert(e@ == seq![112u8, 110u8, 103u8]);
        return true;
    }
    if eq_lit(e, &[103u8, 105, 102]) {
        assert(e@ == seq![103u8, 105u8, 102u8]);
        return true;
    }
    if eq_lit(e, &[119u8, 101, 98, 112]) {
        assert(e@ == seq![119u8, 101u8, 98u8, 112u8]);
        return true;
    }
    false
}

fn is_group_12_ext(e: &[u8]) -> (r: bool)
    ensures
        r == group_12_ext(e@),
{
    if eq_lit(e, &[109u8, 112, 51]) {
        assert(e@ == seq![109u8, 112u8, 51u8]);
        return true;
    }
    if eq_lit(e, &[97u8, 97, 99]) {
        assert(e@ == seq![97u8, 97u8, 99u8]);
        return true;
    }
    if eq_lit(e, &[111u8, 103, 103]) {
        assert(e@ == seq![111u8, 103u8, 103u8]);
        return true;
    }
    if eq_lit(e, &[102u8, 108, 97, 99]) {
        assert(e@ == seq![102u8, 108u8, 97u8, 99u8]);
        return true;
    }
    if eq_lit(e, &[109u8, 52, 97]) {
        assert(e@ == seq![109u8, 52u8, 97u8]);
        return true;
    }
    false
}

fn is_group_13_ext(e: &[u8]) -> (r: bool)
    ensures
        r == group_13_ext(e@),
{
    if eq_lit(e, &[109u8, 112, 52]) {
        assert(e@ == seq![109u8, 112u8, 52u8]);
        return true;
    }
    if eq_lit(e, &[109u8, 107, 118]) {
        assert(e@ == seq![109u8, 107u8, 118u8]);
        return true;
    }
    if eq_lit(e, &[97u8, 118, 105]) {
        assert(e@ == seq![97u8, 118u8, 105u8]);
        return true;
    }
    if eq_lit(e, &[109u8, 111, 118]) {
        assert(e@ == seq![109u8, 111u8, 118u8]);
        return true;
    }
    if eq_lit(e, &[119u8, 101, 98, 109]) {
        assert(e@ == seq![119u8, 101u8, 98u8, 109u8]);
        return true;
    }
    false
}

fn ext_group_of(e: &[u8]) -> (r: Option<u8>)
    ensures
        r == ext_group(e@),
{
    if is_group_0_ext(e) {
        Some(0)
    } else if is_group_1_ext(e) {
        Some(1)
    } else if is_group_2_ext(e) {
        Some(2)
    } else if is_group_3_ext(e) {
        Some(3)
    } else if is_group_4_ext(e) {
        Some(4)
    } else if is_group_5_ext(e) {
        Some(5)
    } else if is_group_6_ext(e) {
        Some(6)
    } else if is_group_10_ext(e) {
        Some(10)
    } else if is_group_11_ext(e) {
        Some(11)
    } else if is_group_12_ext(e) {
        Some(12)
    } else if is_group_13_ext(e) {
        Some(13)
    } else {
        None
    }
}

/// The content group and lowered extension of a file.
pub fn file_sort_key(path: &[u8], data: &[u8]) -> (r: (u8, Vec<u8>))
    ensures
        r.0 == sort_key(path@, data@).0,
        r.1@ == sort_key(path@, data@).1,
{
    let mut k: usize = path.len();
    while k > 0 && path[k - 1] != 46
        invariant
            k <= path@.len(),
            last_dot(path@, path@.len() as int) == last_dot(path@, k as int),
        decreases k,
    {
        k = k - 1;
    }
    let start: usize = if k == 0 { 0 } else { k };
    proof {
        if k == 0 {
            assert(last_dot(path@, 0) == -1);
        }
    }
    let mut e: Vec<u8> = Vec::new();
    let mut i: usize = start;
    while i < path.len()
        invariant
            start <= i <= path@.len(),
            e@ == lowered(path@.subrange(start as int, i as int)),
        decreases path@.len() - i,
    {
        let b = path[i];
        let l: u8 = if b >= 65 && b <= 90 { b + 32 } else { b };
        e.push(l);
        assert(lowered(path@.subrange(start as int, i + 1)) =~= lowered(path@.subrange(start as int, i as int)).push(l));
        i = i + 1;
    }
    proof {
        if k == 0 {
            assert(path@.subrange(0, path@.len() as int) =~= path@);
        }
    }
    let g = match ext_group_of(e.as_slice()) {
        Some(g) => g,
        None => {
            if data.len() >= 2 && ((data[0] == 0x1F && data[1] == 0x8B) || (data[0] == 0x50 && data[1] == 0x4B)) {
                10
            } else if data.len() >= 2 && ((data[0] == 0x89 && data[1] == 0x50) || (data[0] == 0xFF && data[1] == 0xD8)) {
                11
            } else {
                7
            }
        },
    };
    (g, e)
}

/// Byte-wise lexicographic order.
pub open spec fn bytes_lt(a: Seq<u8>, b: Seq<u8>) -> bool
    decreases a.len(),
{
    if a.len() == 0 {
        b.len() > 0
    } else if b.len() == 0 {
        false
    } else if a[0] != b[0] {
        a[0] < b[0]
    } else {
        bytes_lt(a.drop_first(), b.drop_first())
    }
}

proof fn lemma_bytes_lt_skip(a: Seq<u8>, b: Seq<u8>, k: int)
    requires
        0 <= k < a.len(),
        k < b.len(),
        a[k] == b[k],
    ensures
        bytes_lt(a.skip(k), b.skip(k)) == bytes_lt(a.skip(k + 1), b.skip(k + 1)),
{
    assert(a.skip(k).drop_first() =~= a.skip(k + 1));
    assert(b.skip(k).drop_first() =~= b.skip(k + 1));
}

fn less_bytes(a: &[u8], b: &[u8]) -> (r: bool)
    ensures
        r == bytes_lt(a@, b@),
{
    let mut k: usize = 0;
    assert(a@.skip(0) =~= a@ && b@.skip(0) =~= b@);
    while k < a.len() && k < b.len() && a[k] == b[k]
        invariant
            k <= a@.len(),
            k <= b@.len(),
            bytes_lt(a@, b@) == bytes_lt(a@.skip(k as int), b@.skip(k as int)),
        decreases a@.len() - k,
    {
        proof {
            lemma_bytes_lt_skip(a@, b@, k as int);
        }
        k = k + 1;
    }
    if k == a.len() {
        k < b.len()
    } else if k == b.len() {
        false
    } else {
        a[k] < b[k]
    }
}

/// One file's place in the archive order: group, extension, path.
pub type Rec = (u8, Seq<u8>, Seq<u8>);

/// Whether `a` comes strictly before `b`: by group, then extension, then path.
pub open spec fn rec_before(a: Rec, b: Rec) -> bool {
    a.0 < b.0 || (a.0 == b.0 && (bytes_lt(a.1, b.1) || (a.1 == b.1 && bytes_lt(a.2, b.2))))
}

/// Where file `k` goes in `order`: before the first file it comes strictly before.
pub open spec fn order_pos(recs: Seq<Rec>, order: Seq<usize>, k: int, j: int) -> int
    decreases order.len() - j,
{
    if j < 0 || j >= order.len() {
        order.len() as int
    } else if rec_before(recs[k], recs[order[j] as int]) {
        j
    } else {
        order_pos(recs, order, k, j + 1)
    }
}

/// The indices of `recs[0..n]` in archive order (a stable insertion sort).
pub open spec fn sorted_order(recs: Seq<Rec>, n: int) -> Seq<usize>
    decreases n,
{
    if n <= 0 {
        Seq::empty()
    } else {
        let o = sorted_order(recs, n - 1);
        o.insert(order_pos(recs, o, n - 1, 0), (n - 1) as usize)
    }
}

/// The archive record of file `i`: its group, extension and path.
pub open spec fn recs_of(keys: Seq<(u8, Vec<u8>)>, paths: Seq<Vec<u8>>) -> Seq<Rec> {
    Seq::new(keys.len(), |i: int| (keys[i].0, keys[i].1@, paths[i]@))
}

fn before(keys: &Vec<(u8, Vec<u8>)>, paths: &Vec<Vec<u8>>, a: usize, b: usize) -> (r: bool)
    requires
        keys@.len() == paths@.len(),
        a < keys@.len(),
        b < keys@.len(),
    ensures
        r == rec_before(recs_of(keys@, paths@)[a as int], recs_of(keys@, paths@)[b as int]),
{
    let ka = &keys[a];
    let kb = &keys[b];
    if ka.0 != kb.0 {
        return ka.0 < kb.0;
    }
    if less_bytes(ka.1.as_slice(), kb.1.as_slice()) {
        return true;
    }
    if !eq_lit(ka.1.as_slice(), kb.1.as_slice()) {
        return false;
    }
    less_bytes(paths[a].as_slice(), paths[b].as_slice())
}

proof fn lemma_order_pos_range(recs: Seq<Rec>, order: Seq<usize>, k: int, j: int)
    requires
        0 <= j,
    ensures
        j <= order.len() ==> j <= order_pos(recs, order, k, j),
        0 <= order_pos(recs, order, k, j) <= order.len(),
    decreases order.len() - j,
{
    if j < order.len() && !rec_before(recs[k], recs[order[j] as int]) {
        lemma_order_pos_range(recs, order, k, j + 1);
    }
}

proof fn lemma_sorted_order(recs: Seq<Rec>, n: int)
    requires
        0 <= n,
    ensures
        sorted_order(recs, n).len() == n,
        forall|j: int| 0 <= j < n ==> (#[trigger] sorted_order(recs, n)[j]) < n,
    decreases n,
{
    if n > 0 {
        let o = sorted_order(recs, n - 1);
        lemma_sorted_order(recs, n - 1);
        lemma_order_pos_range(recs, o, n - 1, 0);
        let p = order_pos(recs, o, n - 1, 0);
        o.insert_ensures(p, (n - 1) as usize);
        assert forall|j: int| 0 <= j < n implies (#[trigger] sorted_order(recs, n)[j]) < n by {
            if j < p {
                assert(sorted_order(recs, n)[j] == o[j]);
            } else if j > p {
                assert(sorted_order(recs, n)[j] == o[j - 1]);
            }
        }
    }
}

/// The order in which files are archived: by group, extension, then path.
pub fn archive_order(keys: &Vec<(u8, Vec<u8>)>, paths: &Vec<Vec<u8>>) -> (r: Vec<usize>)
    requires
        keys@.len() == paths@.len(),
    ensures
        r@ == sorted_order(recs_of(keys@, paths@), keys@.len() as int),
{
    let ghost recs = recs_of(keys@, paths@);
    let mut order: Vec<usize> = Vec::new();
    let mut i: usize = 0;
    while i < keys.len()
        invariant
            keys@.len() == paths@.len(),
            recs == recs_of(keys@, paths@),
            i <= keys@.len(),
            order@ == sorted_order(recs, i as int),
        decreases keys@.len() - i,
    {
        proof {
            lemma_sorted_order(recs, i as int);
        }
        let mut j: usize = 0;
        while j < order.len() && !before(keys, paths, i, order[j])
            invariant
                keys@.len() == paths@.len(),
                recs == recs_of(keys@, paths@),
                i < keys@.len(),
                order@ == sorted_order(recs, i as int),
                forall|q: int| 0 <= q < order@.len() ==> (#[trigger] order@[q]) < i,
                j <= order@.len(),
                order_pos(recs, order@, i as int, j as int) == order_pos(recs, order@, i as int, 0),
            decreases order@.len() - j,
        {
            j = j + 1;
        }
        proof {
            lemma_order_pos_range(recs, order@, i as int, 0);
        }
        order.insert(j, i);
        i = i + 1;
    }
    order
}

/// The runs of equal keys among `keys[0..k]`, as lists of positions.
pub open spec fn runs(keys: Seq<(u8, Seq<u8>)>, k: int) -> Seq<Seq<usize>>
    decreases k,
{
    if k <= 0 {
        Seq::empty()
    } else {
        let r = runs(keys, k - 1);
        if k >= 2 && keys[k - 1] == keys[k - 2] {
            r.update(r.len() - 1, r.last().push((k - 1) as usize))
        } else {
            r.push(seq![(k - 1) as usize])
        }
    }
}

proof fn lemma_runs_nonempty(keys: Seq<(u8, Seq<u8>)>, k: int)
    requires
        k >= 1,
    ensures
        runs(keys, k).len() >= 1,
    decreases k,
{
    if k >= 2 {
        lemma_runs_nonempty(keys, k - 1);
    }
}

/// The positions of `keys` grouped into runs of equal keys.
pub fn group_by_type(keys: &Vec<(u8, Vec<u8>)>) -> (r: Vec<Vec<usize>>)
    ensures
        seqs_of(r@) == runs(key_view(keys@), keys@.len() as int),
{
    let ghost kv = key_view(keys@);
    let mut groups: Vec<Vec<usize>> = Vec::new();
    let mut i: usize = 0;
    while i < keys.len()
        invariant
            kv == key_view(keys@),
            i <= keys@.len(),
            seqs_of(groups@) == runs(kv, i as int),
        decreases keys@.len() - i,
    {
        let same = i >= 1 && keys[i].0 == keys[i - 1].0 && eq_lit(keys[i].1.as_slice(), keys[i - 1].1.as_slice());
        assert(same == (i >= 1 && kv[i as int] == kv[i - 1]));
        if same {
            proof {
                lemma_runs_nonempty(kv, i as int);
            }
            let ghost prev = seqs_of(groups@);
            let last = groups.len() - 1;
            let mut g = groups.remove(last);
            assert(g@ == prev.last());
            g.push(i);
            groups.push(g);
            assert(seqs_of(groups@) =~= prev.update(prev.len() - 1, prev.last().push(i)));
        } else {
            let ghost prev = seqs_of(groups@);
            let v: Vec<usize> = vec![i];
            assert(v@ =~= seq![i]);
            groups.push(v);
            assert(seqs_of(groups@) =~= prev.push(seq![i]));
        }
        i = i + 1;
    }
    groups
}

/// The keys' contents.
pub open spec fn key_view(keys: Seq<(u8, Vec<u8>)>) -> Seq<(u8, Seq<u8>)> {
    Seq::new(keys.len(), |i: int| (keys[i].0, keys[i].1@))
}

/// The contents of a list of index lists.
pub open spec fn seqs_of(v: Seq<Vec<usize>>) -> Seq<Seq<usize>> {
    Seq::new(v.len(), |i: int| v[i]@)
}

/// The solid-run size cap of a level: none below 3 (every file alone), then 64 MiB, 128 MiB
/// at 5, 512 MiB at 6 and 2 GiB above.
pub open spec fn solid_cap(level: u32) -> u64 {
    if level <= 2 {
        0
    } else if level <= 4 {
        0x400_0000u64
    } else if level == 5 {
        0x800_0000u64
    } else if level == 6 {
        0x2000_0000u64
    } else {
        0x8000_0000u64
    }
}

/// The solid-run size cap of `level`.
pub fn solid_cap_for_level(level: u32) -> (r: u64)
    ensures
        r == solid_cap(level),
{
    if level <= 2 {
        0
    } else if level <= 4 {
        64 * 1024 * 1024
    } else if level == 5 {
        128 * 1024 * 1024
    } else if level == 6 {
        512 * 1024 * 1024
    } else {
        2 * 1024 * 1024 * 1024
    }
}

/// Cutting `group[0..k]` into runs: the closed runs, the open run and its size. A file joins
/// the open run unless that run is non-empty and would pass `cap`.
pub open spec fn split_fold(group: Seq<usize>, sizes: Seq<int>, cap: int, k: int) -> (Seq<Seq<usize>>, Seq<usize>, int)
    decreases k,
{
    if k <= 0 {
        (Seq::empty(), Seq::empty(), 0)
    } else {
        let (res, cur, cs) = split_fold(group, sizes, cap, k - 1);
        let idx = group[k - 1];
        let f = sizes[idx as int];
        if cur.len() > 0 && cs + f > cap {
            (res.push(cur), seq![idx], f)
        } else {
            (res, cur.push(idx), cs + f)
        }
    }
}

/// The runs `group` is cut into under `cap`.
pub open spec fn solid_runs(group: Seq<usize>, sizes: Seq<int>, cap: int) -> Seq<Seq<usize>> {
    let (res, cur, _) = split_fold(group, sizes, cap, group.len() as int);
    if cur.len() > 0 { res.push(cur) } else { res }
}

/// The sizes, as integers.
pub open spec fn int_sizes(sizes: Seq<u64>) -> Seq<int> {
    Seq::new(sizes.len(), |i: int| sizes[i] as int)
}

proof fn lemma_split_bound(group: Seq<usize>, sizes: Seq<int>, cap: int, k: int)
    requires
        0 <= k <= group.len(),
        forall|i: int| 0 <= i < group.len() ==> 0 <= (#[trigger] group[i]) < sizes.len(),
        forall|i: int| 0 <= i < sizes.len() ==> 0 <= #[trigger] sizes[i] <= u64::MAX,
    ensures
        0 <= split_fold(group, sizes, cap, k).2 <= k * u64::MAX,
    decreases k,
{
    if k > 0 {
        lemma_split_bound(group, sizes, cap, k - 1);
    }
}

/// Cuts `group` into solid runs under `cap`, in order: the runs partition the group, each is
/// a single file or within `cap`, and each cut is forced.
pub fn split_solid_group(group: &Vec<usize>, sizes: &Vec<u64>, cap: u64) -> (r: Vec<Vec<usize>>)
    requires
        forall|i: int| 0 <= i < group@.len() ==> (#[trigger] group@[i]) < sizes@.len(),
    ensures
        seqs_of(r@) == solid_runs(group@, int_sizes(sizes@), cap as int),
        crate::runs::partitions(seqs_of(r@), group@, int_sizes(sizes@), cap as int),
{
    proof {
        crate::runs::lemma_solid_runs_partition(group@, int_sizes(sizes@), cap as int);
    }
    let ghost sz = int_sizes(sizes@);
    let mut result: Vec<Vec<usize>> = Vec::new();
    let mut cur: Vec<usize> = Vec::new();
    let mut cur_size: u128 = 0;
    let mut k: usize = 0;
    while k < group.len()
        invariant
            forall|i: int| 0 <= i < group@.len() ==> (#[trigger] group@[i]) < sizes@.len(),
            sz == int_sizes(sizes@),
            k <= group@.len(),
            (seqs_of(result@), cur@, cur_size as int) == split_fold(group@, sz, cap as int, k as int),
        decreases group@.len() - k,
    {
        proof {
            lemma_split_bound(group@, sz, cap as int, k as int);
            assert(k * u64::MAX <= usize::MAX * u64::MAX) by (nonlinear_arith)
                requires k <= usize::MAX;
        }
        let idx = group[k];
        let f = sizes[idx];
        if cur.len() > 0 && cur_size + (f as u128) > cap as u128 {
            result.push(cur);
            cur = vec![idx];
            cur_size = f as u128;
            assert(seqs_of(result@) =~= split_fold(group@, sz, cap as int, k + 1).0);
            assert(cur@ =~= seq![idx]);
        } else {
            cur.push(idx);
            cur_size = cur_size + f as u128;
            assert(seqs_of(result@) =~= split_fold(group@, sz, cap as int, k + 1).0);
        }
        k = k + 1;
    }
    if cur.len() > 0 {
        result.push(cur);
    }
    assert(seqs_of(result@) =~= solid_runs(group@, sz, cap as int));
    result
}

// ---------------------------------------------------------------------------------------------
// Compressing files and solid runs
// ---------------------------------------------------------------------------------------------

/// At levels 5 and 6 the chunked container `c` decodes back to `d` (or reports a checksum
/// mismatch); nothing is claimed of other levels.
pub open spec fn chunked_ok(d: Seq<u8>, level: u32, c: Seq<u8>) -> bool {
    (level == 5 || level == 6) ==> (decompressed(c) == Some(Ok::<Seq<u8>, DecompressError>(d)) || mismatch(decompressed(c)))
}

/// xz-decoding `dl` and undoing the delta transform gives `d` (followed by anything).
pub open spec fn delta_xz_restores(d: Seq<u8>, dl: Seq<u8>) -> bool {
    match codec_decoded(CodecType::Lzma, dl) {
        Some(dec) => {
            let r = delta_decoded(dec);
            r.len() >= d.len() && r.subrange(0, d.len() as int) == d
        },
        None => false,
    }
}

/// Whether the delta-then-xz stream `dl` of `d` is kept: it decodes back, and at levels above
/// 5 it must be under 70% of `d`.
pub open spec fn delta_kept(d: Seq<u8>, dl: Seq<u8>, level: u32) -> bool {
    delta_xz_restores(d, dl) && (level <= 5 || dl.len() < d.len() * 70 / 100)
}

/// The blob of a large file from level 3 on: delta then xz (marker 8) when it is shorter and
/// kept, else xz (marker 7) when shorter, else the file stored (marker 0).
pub open spec fn single_lzma_blob(d: Seq<u8>, level: u32) -> Seq<u8> {
    let dl = lzma_level_encoded(delta_encoded(d), level);
    let l = lzma_level_encoded(d, level);
    if dl.len() < d.len() && delta_kept(d, dl, level) {
        seq![8u8] + dl
    } else if l.len() < d.len() {
        seq![7u8] + l
    } else {
        seq![0u8] + d
    }
}

/// What the xz decoder makes of the stream `single_lzma_blob` keeps: the delta of `d`, or `d`.
pub open spec fn lzma_blob_reads_back(d: Seq<u8>, level: u32) -> bool {
    let dl = lzma_level_encoded(delta_encoded(d), level);
    let l = lzma_level_encoded(d, level);
    if dl.len() < d.len() && delta_kept(d, dl, level) {
        entropy::xz_decompressed(dl) == Some(delta_encoded(d))
    } else if l.len() < d.len() {
        entropy::xz_decompressed(l) == Some(d)
    } else {
        true
    }
}

/// `blob` is what a file `d` is stored as on its own: the xz forms for files over 4 KiB from
/// level 3 on; else a chunked container (marker 1) when it is shorter, or the file stored.
pub open spec fn single_blob_ok(d: Seq<u8>, level: u32, blob: Seq<u8>) -> bool {
    if level >= 3 && d.len() > 4096 {
        blob == single_lzma_blob(d, level) && lzma_blob_reads_back(d, level)
    } else {
        exists|c: Seq<u8>| #[trigger] chunked_ok(d, level, c) && blob == (if c.len() < d.len() { seq![1u8] + c } else { seq![0u8] + d })
    }
}

/// `st` is the stream of a solid run with bytes `d`: delta then xz (4), xz (5), or a chunked
/// container (6), the first that is shorter (and kept); inputs past `MAX_INPUT` fall back to
/// xz.
pub open spec fn solid_stream_ok(d: Seq<u8>, level: u32, st: Seq<u8>) -> bool {
    let dl = lzma_level_encoded(delta_encoded(d), level);
    let l = lzma_level_encoded(d, level);
    if dl.len() < d.len() && delta_kept(d, dl, level) {
        st == seq![4u8] + dl
    } else if l.len() < d.len() || d.len() > MAX_INPUT {
        st == seq![5u8] + l
            && (entropy::xz_easy_encoded(d, entropy::level_preset(level)) is Some ==> entropy::xz_decompressed(l) == Some(d))
    } else {
        exists|c: Seq<u8>| #[trigger] chunked_ok(d, level, c) && st == seq![6u8] + c
    }
}

/// The bytes of `datas` at the positions of `idx`, one after another.
pub open spec fn concat_of(datas: Seq<Seq<u8>>, idx: Seq<usize>) -> Seq<u8>
    decreases idx.len(),
{
    if idx.len() == 0 {
        Seq::empty()
    } else {
        concat_of(datas, idx.drop_last()) + datas[idx.last() as int]
    }
}

/// The sizes of the files at `idx`, each as 8 little-endian bytes.
pub open spec fn sizes_bytes(datas: Seq<Seq<u8>>, idx: Seq<usize>) -> Seq<u8>
    decreases idx.len(),
{
    if idx.len() == 0 {
        Seq::empty()
    } else {
        sizes_bytes(datas, idx.drop_last()) + le64(datas[idx.last() as int].len() as u64)
    }
}

/// The blobs of a run stored solid: the head (marker 2, the count, the sizes, the stream),
/// then one marker 3 per later file.
pub open spec fn solid_blobs(datas: Seq<Seq<u8>>, idx: Seq<usize>, st: Seq<u8>) -> Seq<Seq<u8>> {
    Seq::new(idx.len(), |j: int| if j == 0 {
        seq![2u8] + le32(idx.len() as u32) + sizes_bytes(datas, idx) + st
    } else {
        seq![3u8]
    })
}

/// `blobs` store the run `idx` (two files or more): solid when the stream with its head is
/// shorter than the first file's own blob times the run length, else file by file.
pub open spec fn run_blobs_ok(datas: Seq<Seq<u8>>, idx: Seq<usize>, level: u32, blobs: Seq<Seq<u8>>) -> bool {
    exists|first: Seq<u8>, st: Seq<u8>| {
        &&& #[trigger] single_blob_ok(datas[idx[0] as int], level, first)
        &&& #[trigger] solid_stream_ok(concat_of(datas, idx), level, st)
        &&& if st.len() + 5 + 8 * idx.len() < first.len() * idx.len() {
            blobs == solid_blobs(datas, idx, st)
        } else {
            &&& blobs.len() == idx.len()
            &&& forall|j: int| 0 <= j < idx.len() ==> single_blob_ok(datas[idx[j] as int], level, #[trigger] blobs[j])
        }
    }
}

/// The analyses every compression of a chunked container asks of the caller.
pub open spec fn analyses_total<T: Fn(&[u8]) -> Vec<bool>, F: Fn(&[u8]) -> DataType, B: Fn(&[u8]) -> EntropyBand, P: Fn(&[u8]) -> FileProfile>(
    trans: &T,
    classify: &F,
    band: &B,
    profile: &P,
) -> bool {
    &&& forall|s: &[u8]| #[trigger] trans.requires((s,))
    &&& forall|s: &[u8]| #[trigger] classify.requires((s,))
    &&& forall|s: &[u8]| #[trigger] band.requires((s,))
    &&& forall|s: &[u8]| #[trigger] profile.requires((s,))
}

/// A chunked container of `data`, with the caller's analyses (transition marks shorter than
/// the region count are taken as no transition).
fn chunked<T: Fn(&[u8]) -> Vec<bool>, F: Fn(&[u8]) -> DataType, B: Fn(&[u8]) -> EntropyBand, P: Fn(&[u8]) -> FileProfile>(
    data: &[u8],
    level: u32,
    trans: &T,
    classify: &F,
    band: &B,
    profile: &P,
) -> (r: Vec<u8>)
    requires
        data@.len() <= MAX_INPUT,
        analyses_total(trans, classify, band, profile),
    ensures
        chunked_ok(data@, level, r@),
{
    let mut t = trans(data);
    let need: usize = data.len() / 4096 + if data.len() % 4096 != 0 { 1usize } else { 0usize };
    assert(need == region_count(data@.len() as int));
    while t.len() < need
        invariant
            need == region_count(data@.len() as int),
        decreases need - t@.len(),
    {
        t.push(false);
    }
    let p = profile(data);
    let (out, _stats) = compress(data, level, t.as_slice(), classify, band, p);
    out
}

/// Whether the delta-then-xz stream `dl` decodes back to `data`.
fn delta_xz_check(data: &[u8], dl: &[u8]) -> (ok: bool)
    ensures
        ok == delta_xz_restores(data@, dl@),
{
    match entropy::decode_checked(dl, CodecType::Lzma) {
        None => false,
        Some(dec) => {
            let restored = delta::decode(dec.as_slice());
            if restored.len() < data.len() {
                return false;
            }
            let head = &restored.as_slice()[0..data.len()];
            assert(head@ =~= restored@.subrange(0, data@.len() as int));
            eq_lit(head, data)
        },
    }
}

fn marked(marker: u8, body: &[u8]) -> (r: Vec<u8>)
    ensures
        r@ == seq![marker] + body@,
{
    let mut out: Vec<u8> = vec![marker];
    append_bytes(&mut out, body);
    out
}

/// The blob of a file stored on its own.
fn compress_single<T: Fn(&[u8]) -> Vec<bool>, F: Fn(&[u8]) -> DataType, B: Fn(&[u8]) -> EntropyBand, P: Fn(&[u8]) -> FileProfile>(
    data: &[u8],
    level: u32,
    trans: &T,
    classify: &F,
    band: &B,
    profile: &P,
) -> (r: Vec<u8>)
    requires
        data@.len() <= MAX_INPUT,
        analyses_total(trans, classify, band, profile),
    ensures
        single_blob_ok(data@, level, r@),
{
    if level >= 3 && data.len() > 4096 {
        return compress_single_lzma(data, level);
    }
    let comp = chunked(data, level, trans, classify, band, profile);
    let r = if comp.len() < data.len() { marked(1, comp.as_slice()) } else { marked(0, data) };
    assert(chunked_ok(data@, level, comp@));
    r
}

fn compress_single_lzma(data: &[u8], level: u32) -> (r: Vec<u8>)
    ensures
        r@ == single_lzma_blob(data@, level),
        lzma_blob_reads_back(data@, level),
{
    let d = delta::encode(data);
    assert(d@.len() >= data@.len());
    let dl = lzma_for_level(d.as_slice(), level);
    if dl.len() < data.len() {
        if delta_xz_check(data, dl.as_slice()) {
            if level <= 5 || (dl.len() as u128) < (data.len() as u128) * 70 / 100 {
                return marked(8, dl.as_slice());
            }
        }
    }
    let l = lzma_for_level(data, level);
    if l.len() < data.len() {
        return marked(7, l.as_slice());
    }
    marked(0, data)
}

/// The stream of a solid run with bytes `data`.
fn solid_lzma<T: Fn(&[u8]) -> Vec<bool>, F: Fn(&[u8]) -> DataType, B: Fn(&[u8]) -> EntropyBand, P: Fn(&[u8]) -> FileProfile>(
    data: &[u8],
    level: u32,
    trans: &T,
    classify: &F,
    band: &B,
    profile: &P,
) -> (r: Vec<u8>)
    requires
        analyses_total(trans, classify, band, profile),
    ensures
        solid_stream_ok(data@, level, r@),
{
    let d = delta::encode(data);
    assert(d@.len() >= data@.len());
    let dl = lzma_for_level(d.as_slice(), level);
    if dl.len() < data.len() {
        if delta_xz_check(data, dl.as_slice()) {
            if level <= 5 || (dl.len() as u128) < (data.len() as u128) * 70 / 100 {
                return marked(4, dl.as_slice());
            }
        }
    }
    let l = lzma_for_level(data, level);
    if l.len() < data.len() || (data.len() as u64) > MAX_INPUT {
        return marked(5, l.as_slice());
    }
    let comp = chunked(data, level, trans, classify, band, profile);
    let r = marked(6, comp.as_slice());
    assert(chunked_ok(data@, level, comp@));
    r
}

/// The contents of a list of files.
pub open spec fn views(v: Seq<Vec<u8>>) -> Seq<Seq<u8>> {
    Seq::new(v.len(), |i: int| v[i]@)
}

proof fn lemma_concat_step(datas: Seq<Seq<u8>>, idx: Seq<usize>, j: int)
    requires
        0 <= j < idx.len(),
    ensures
        concat_of(datas, idx.take(j + 1)) == concat_of(datas, idx.take(j)) + datas[idx[j] as int],
        sizes_bytes(datas, idx.take(j + 1)) == sizes_bytes(datas, idx.take(j)) + le64(datas[idx[j] as int].len() as u64),
{
    assert(idx.take(j + 1).drop_last() =~= idx.take(j));
    assert(idx.take(j + 1).last() == idx[j]);
}

/// The blobs of a run of two files or more.
fn compress_solid_group<T: Fn(&[u8]) -> Vec<bool>, F: Fn(&[u8]) -> DataType, B: Fn(&[u8]) -> EntropyBand, P: Fn(&[u8]) -> FileProfile>(
    datas: &Vec<Vec<u8>>,
    idx: &Vec<usize>,
    level: u32,
    trans: &T,
    classify: &F,
    band: &B,
    profile: &P,
) -> (r: Vec<Vec<u8>>)
    requires
        idx@.len() >= 2,
        forall|j: int| 0 <= j < idx@.len() ==> (#[trigger] idx@[j]) < datas@.len(),
        forall|i: int| 0 <= i < datas@.len() ==> (#[trigger] datas@[i])@.len() <= MAX_INPUT,
        analyses_total(trans, classify, band, profile),
    ensures
        run_blobs_ok(views(datas@), idx@, level, views(r@)),
{
    let ghost dv = views(datas@);
    let mut concat: Vec<u8> = Vec::new();
    let mut head: Vec<u8> = vec![2u8];
    assert(head@ =~= seq![2u8]);
    push_u32_le(&mut head, #[verifier::truncate] (idx.len() as u32));
    let ghost head0 = head@;
    assert(head0 =~= seq![2u8] + le32(idx@.len() as u32));
    let mut j: usize = 0;
    while j < idx.len()
        invariant
            forall|q: int| 0 <= q < idx@.len() ==> (#[trigger] idx@[q]) < datas@.len(),
            dv == views(datas@),
            j <= idx@.len(),
            concat@ == concat_of(dv, idx@.take(j as int)),
            head@ == head0 + sizes_bytes(dv, idx@.take(j as int)),
        decreases idx@.len() - j,
    {
        let d = &datas[idx[j]];
        assert(d@ == dv[idx@[j as int] as int]);
        append_bytes(&mut concat, d.as_slice());
        push_u64_le(&mut head, d.len() as u64);
        proof {
            lemma_concat_step(dv, idx@, j as int);
        }
        assert(head@ =~= head0 + sizes_bytes(dv, idx@.take(j + 1)));
        j = j + 1;
    }
    assert(idx@.take(idx@.len() as int) =~= idx@);
    let st = solid_lzma(concat.as_slice(), level, trans, classify, band, profile);
    let first = compress_single(datas[idx[0]].as_slice(), level, trans, classify, band, profile);
    assert(datas@[idx@[0] as int]@ == dv[idx@[0] as int]);
    let k = idx.len();
    let solid_total: u128 = st.len() as u128 + 5 + 8 * (k as u128);
    assert((first.len() as u128) * (k as u128) <= u128::MAX) by (nonlinear_arith)
        requires first.len() <= usize::MAX, k <= usize::MAX, usize::MAX < 0x1_0000_0000_0000_0000u128;
    let est: u128 = (first.len() as u128) * (k as u128);
    let mut out: Vec<Vec<u8>> = Vec::new();
    if solid_total < est {
        append_bytes(&mut head, st.as_slice());
        assert(head@ =~= solid_blobs(dv, idx@, st@)[0]);
        out.push(head);
        assert(views(out@) =~= solid_blobs(dv, idx@, st@).take(1));
        let mut q: usize = 1;
        while q < k
            invariant
                1 <= q <= k,
                k == idx@.len(),
                out@.len() == q,
                views(out@) == solid_blobs(dv, idx@, st@).take(q as int),
            decreases k - q,
        {
            let three: Vec<u8> = vec![3u8];
            assert(three@ =~= seq![3u8]);
            let ghost before = views(out@);
            let ghost old_out = out@;
            out.push(three);
            assert forall|i: int| 0 <= i < q + 1 implies #[trigger] views(out@)[i] == solid_blobs(dv, idx@, st@)[i] by {
                assert(views(out@)[i] == out@[i]@);
                if i < q {
                    assert(out@[i] == old_out[i]);
                    assert(before[i] == old_out[i]@);
                    assert(before[i] == solid_blobs(dv, idx@, st@).take(q as int)[i]);
                } else {
                    assert(out@[i] == three);
                }
            }
            assert(views(out@) =~= solid_blobs(dv, idx@, st@).take(q + 1));
            q = q + 1;
        }
        assert(views(out@) =~= solid_blobs(dv, idx@, st@));
        assert(single_blob_ok(dv[idx@[0] as int], level, first@) && solid_stream_ok(concat_of(dv, idx@), level, st@));
    } else {
        let mut q: usize = 0;
        while q < k
            invariant
                forall|i: int| 0 <= i < idx@.len() ==> (#[trigger] idx@[i]) < datas@.len(),
                forall|i: int| 0 <= i < datas@.len() ==> (#[trigger] datas@[i])@.len() <= MAX_INPUT,
                analyses_total(trans, classify, band, profile),
                dv == views(datas@),
                0 <= q <= k,
                k == idx@.len(),
                out@.len() == q,
                forall|i: int| 0 <= i < q ==> single_blob_ok(dv[idx@[i] as int], level, #[trigger] views(out@)[i]),
            decreases k - q,
        {
            let b = compress_single(datas[idx[q]].as_slice(), level, trans, classify, band, profile);
            assert(datas@[idx@[q as int] as int]@ == dv[idx@[q as int] as int]);
            let ghost old_out = out@;
            out.push(b);
            assert forall|i: int| 0 <= i < q + 1 implies single_blob_ok(dv[idx@[i] as int], level, #[trigger] views(out@)[i]) by {
                assert(views(out@)[i] == out@[i]@);
                if i < q {
                    assert(out@[i] == old_out[i]);
                    assert(views(old_out)[i] == old_out[i]@);
                } else {
                    assert(out@[i] == b);
                }
            }
            q = q + 1;
        }
        assert(single_blob_ok(dv[idx@[0] as int], level, first@) && solid_stream_ok(concat_of(dv, idx@), level, st@));
    }
    out
}

// ---------------------------------------------------------------------------------------------
// Building an archive
// ---------------------------------------------------------------------------------------------

/// The solid runs of all groups `groups[0..g]`, in order.
pub open spec fn work_runs(groups: Seq<Seq<usize>>, sizes: Seq<int>, cap: int, g: int) -> Seq<Seq<usize>>
    decreases g,
{
    if g <= 0 {
        Seq::empty()
    } else {
        work_runs(groups, sizes, cap, g - 1) + solid_runs(groups[g - 1], sizes, cap)
    }
}

/// A run of positions mapped to the files at those positions of `order`.
pub open spec fn emap(run: Seq<usize>, order: Seq<usize>) -> Seq<usize> {
    Seq::new(run.len(), |j: int| order[run[j] as int])
}

/// The runs of an archive, as lists of file indices: files are ordered by group, extension
/// and path; files with equal group and extension form a group; each group is cut into solid
/// runs under the level's cap.
pub open spec fn archive_plan(pv: Seq<Seq<u8>>, dv: Seq<Seq<u8>>, level: u32) -> Seq<Seq<usize>> {
    let n = pv.len() as int;
    let recs = Seq::new(n as nat, |i: int| (sort_key(pv[i], dv[i]).0, sort_key(pv[i], dv[i]).1, pv[i]));
    let order = sorted_order(recs, n);
    let skeys = Seq::new(n as nat, |p: int| sort_key(pv[order[p] as int], dv[order[p] as int]));
    let ssizes = Seq::new(n as nat, |p: int| dv[order[p] as int].len() as int);
    let groups = runs(skeys, n);
    let wr = work_runs(groups, ssizes, solid_cap(level) as int, groups.len() as int);
    Seq::new(wr.len(), |i: int| emap(wr[i], order))
}

/// `blobs` store the run `r`: one file alone, or a run of several.
pub open spec fn run_ok(dv: Seq<Seq<u8>>, r: Seq<usize>, level: u32, blobs: Seq<Seq<u8>>) -> bool {
    if r.len() == 0 {
        blobs.len() == 0
    } else if r.len() == 1 {
        blobs.len() == 1 && single_blob_ok(dv[r[0] as int], level, blobs[0])
    } else {
        run_blobs_ok(dv, r, level, blobs)
    }
}

/// `pairs` list, run after run, each file of `runs` with a blob that stores its run.
pub open spec fn pairs_match(dv: Seq<Seq<u8>>, runs: Seq<Seq<usize>>, level: u32, pairs: Seq<(usize, Seq<u8>)>) -> bool
    decreases runs.len(),
{
    if runs.len() == 0 {
        pairs.len() == 0
    } else {
        let r = runs.last();
        let k = r.len() as int;
        let head = pairs.take(pairs.len() - k);
        let tail = pairs.skip(pairs.len() - k);
        &&& pairs.len() >= k
        &&& pairs_match(dv, runs.drop_last(), level, head)
        &&& forall|j: int| 0 <= j < k ==> (#[trigger] tail[j]).0 == r[j]
        &&& run_ok(dv, r, level, Seq::new(k as nat, |j: int| tail[j].1))
    }
}

/// The directory record of file `i` stored as `blob`.
pub open spec fn dir_entry(pv: Seq<Seq<u8>>, dv: Seq<Seq<u8>>, p: (usize, Seq<u8>)) -> Seq<u8> {
    le16(pv[p.0 as int].len() as u16) + pv[p.0 as int] + le64(dv[p.0 as int].len() as u64) + le64(p.1.len() as u64)
}

/// The directory of `pairs[0..k]`.
pub open spec fn dir_bytes(pv: Seq<Seq<u8>>, dv: Seq<Seq<u8>>, pairs: Seq<(usize, Seq<u8>)>, k: int) -> Seq<u8>
    decreases k,
{
    if k <= 0 { Seq::empty() } else { dir_bytes(pv, dv, pairs, k - 1) + dir_entry(pv, dv, pairs[k - 1]) }
}

/// The blobs of `pairs[0..k]`, one after another.
pub open spec fn blob_bytes(pairs: Seq<(usize, Seq<u8>)>, k: int) -> Seq<u8>
    decreases k,
{
    if k <= 0 { Seq::empty() } else { blob_bytes(pairs, k - 1) + pairs[k - 1].1 }
}

/// The archive of `pairs`: magic, version, count, directory, blobs.
pub open spec fn archive_bytes(pv: Seq<Seq<u8>>, dv: Seq<Seq<u8>>, pairs: Seq<(usize, Seq<u8>)>) -> Seq<u8> {
    archive_magic() + le16(ARCHIVE_VERSION) + le32(pairs.len() as u32) + dir_bytes(pv, dv, pairs, pairs.len() as int)
        + blob_bytes(pairs, pairs.len() as int)
}

/// The total original size of the files of `pairs[0..k]`.
pub open spec fn orig_total(dv: Seq<Seq<u8>>, pairs: Seq<(usize, Seq<u8>)>, k: int) -> int
    decreases k,
{
    if k <= 0 { 0 } else { orig_total(dv, pairs, k - 1) + dv[pairs[k - 1].0 as int].len() }
}

proof fn lemma_run_blobs_len(dv: Seq<Seq<u8>>, idx: Seq<usize>, level: u32, blobs: Seq<Seq<u8>>)
    requires
        run_blobs_ok(dv, idx, level, blobs),
    ensures
        blobs.len() == idx.len(),
{
    let (first, st) = choose|first: Seq<u8>, st: Seq<u8>| {
        &&& #[trigger] single_blob_ok(dv[idx[0] as int], level, first)
        &&& #[trigger] solid_stream_ok(concat_of(dv, idx), level, st)
        &&& if st.len() + 5 + 8 * idx.len() < first.len() * idx.len() {
            blobs == solid_blobs(dv, idx, st)
        } else {
            &&& blobs.len() == idx.len()
            &&& forall|j: int| 0 <= j < idx.len() ==> single_blob_ok(dv[idx[j] as int], level, #[trigger] blobs[j])
        }
    };
}

/// The contents of a list of (file, blob) pairs.
pub open spec fn pair_views(v: Seq<(usize, Vec<u8>)>) -> Seq<(usize, Seq<u8>)> {
    Seq::new(v.len(), |i: int| (v[i].0, v[i].1@))
}

/// The totals of an archive run.
#[derive(Debug, Clone, Copy, PartialEq, Eq)]
pub struct FolderStats {
    pub file_count: usize,
    pub total_original: u64,
    pub archive_size: u64,
}

proof fn lemma_pairs_push(dv: Seq<Seq<u8>>, runs: Seq<Seq<usize>>, level: u32, pairs: Seq<(usize, Seq<u8>)>, r: Seq<usize>, tail: Seq<(usize, Seq<u8>)>)
    requires
        pairs_match(dv, runs, level, pairs),
        tail.len() == r.len(),
        forall|j: int| 0 <= j < r.len() ==> (#[trigger] tail[j]).0 == r[j],
        run_ok(dv, r, level, Seq::new(r.len(), |j: int| tail[j].1)),
    ensures
        pairs_match(dv, runs.push(r), level, pairs + tail),
{
    let all = pairs + tail;
    assert(runs.push(r).drop_last() =~= runs);
    assert(all.take(all.len() - r.len()) =~= pairs);
    assert(all.skip(all.len() - r.len()) =~= tail);
}

proof fn lemma_runs_bound(kv: Seq<(u8, Seq<u8>)>, k: int)
    requires
        0 <= k,
    ensures
        forall|g: int, j: int| 0 <= g < runs(kv, k).len() && 0 <= j < runs(kv, k)[g].len() ==> (#[trigger] runs(kv, k)[g][j]) < k,
    decreases k,
{
    if k > 0 {
        lemma_runs_bound(kv, k - 1);
        let r = runs(kv, k - 1);
        let x = (k - 1) as usize;
        if k >= 2 && kv[k - 1] == kv[k - 2] {
            lemma_runs_nonempty(kv, k - 1);
            let nr = r.update(r.len() - 1, r.last().push(x));
            assert forall|g: int, j: int| 0 <= g < nr.len() && 0 <= j < nr[g].len() implies #[trigger] nr[g][j] < k by {
                if g < r.len() - 1 {
                    assert(nr[g] == r[g]);
                } else {
                    assert(nr[g] == r.last().push(x));
                    if j < r.last().len() {
                        assert(nr[g][j] == r[g][j]);
                    }
                }
            }
        } else {
            let nr = r.push(seq![x]);
            assert forall|g: int, j: int| 0 <= g < nr.len() && 0 <= j < nr[g].len() implies #[trigger] nr[g][j] < k by {
                if g < r.len() {
                    assert(nr[g] == r[g]);
                } else {
                    assert(nr[g] == seq![x]);
                }
            }
        }
    }
}

proof fn lemma_split_elems(group: Seq<usize>, sizes: Seq<int>, cap: int, k: int, bound: int)
    requires
        0 <= k <= group.len(),
        forall|i: int| 0 <= i < group.len() ==> (#[trigger] group[i]) < bound,
    ensures
        forall|a: int, j: int| 0 <= a < split_fold(group, sizes, cap, k).0.len() && 0 <= j < split_fold(group, sizes, cap, k).0[a].len()
            ==> (#[trigger] split_fold(group, sizes, cap, k).0[a][j]) < bound,
        forall|j: int| 0 <= j < split_fold(group, sizes, cap, k).1.len() ==> (#[trigger] split_fold(group, sizes, cap, k).1[j]) < bound,
    decreases k,
{
    if k > 0 {
        lemma_split_elems(group, sizes, cap, k - 1, bound);
        let (res, cur, cs) = split_fold(group, sizes, cap, k - 1);
        let idx = group[k - 1];
        assert(idx < bound);
        if cur.len() > 0 && cs + sizes[idx as int] > cap {
            let nres = res.push(cur);
            assert forall|a: int, j: int| 0 <= a < nres.len() && 0 <= j < nres[a].len() implies #[trigger] nres[a][j] < bound by {
                if a < res.len() {
                    assert(nres[a] == res[a]);
                } else {
                    assert(nres[a] == cur);
                }
            }
            assert(seq![idx][0] == idx);
        } else {
            let ncur = cur.push(idx);
            assert forall|j: int| 0 <= j < ncur.len() implies #[trigger] ncur[j] < bound by {
                if j < cur.len() {
                    assert(ncur[j] == cur[j]);
                }
            }
        }
    }
}

proof fn lemma_solid_runs_elems(group: Seq<usize>, sizes: Seq<int>, cap: int, bound: int)
    requires
        forall|i: int| 0 <= i < group.len() ==> (#[trigger] group[i]) < bound,
    ensures
        forall|a: int, j: int| 0 <= a < solid_runs(group, sizes, cap).len() && 0 <= j < solid_runs(group, sizes, cap)[a].len()
            ==> (#[trigger] solid_runs(group, sizes, cap)[a][j]) < bound,
{
    lemma_split_elems(group, sizes, cap, group.len() as int, bound);
}

/// The total size of `dv[0..k]`.
pub open spec fn sizes_total(dv: Seq<Seq<u8>>, k: int) -> int
    decreases k,
{
    if k <= 0 { 0 } else { sizes_total(dv, k - 1) + dv[k - 1].len() }
}

proof fn lemma_sizes_mono(dv: Seq<Seq<u8>>, k: int, m: int)
    requires
        0 <= k <= m,
    ensures
        sizes_total(dv, k) <= sizes_total(dv, m),
    decreases m - k,
{
    if k < m {
        lemma_sizes_mono(dv, k, m - 1);
    }
}

/// The files at the positions of `run` in `order`.
fn run_entries(run: &Vec<usize>, order: &Vec<usize>) -> (r: Vec<usize>)
    requires
        forall|j: int| 0 <= j < run@.len() ==> (#[trigger] run@[j]) < order@.len(),
    ensures
        r@ == emap(run@, order@),
{
    let mut r: Vec<usize> = Vec::new();
    let mut j: usize = 0;
    while j < run.len()
        invariant
            forall|q: int| 0 <= q < run@.len() ==> (#[trigger] run@[q]) < order@.len(),
            j <= run@.len(),
            r@ == emap(run@, order@).take(j as int),
        decreases run@.len() - j,
    {
        r.push(order[run[j]]);
        assert(r@ =~= emap(run@, order@).take(j + 1));
        j = j + 1;
    }
    assert(r@ =~= emap(run@, order@));
    r
}

/// The (file, blob) pairs of one run of files `eidx`.
fn compress_run<T: Fn(&[u8]) -> Vec<bool>, F: Fn(&[u8]) -> DataType, B: Fn(&[u8]) -> EntropyBand, P: Fn(&[u8]) -> FileProfile>(
    datas: &Vec<Vec<u8>>,
    eidx: &Vec<usize>,
    level: u32,
    trans: &T,
    classify: &F,
    band: &B,
    profile: &P,
) -> (r: Vec<(usize, Vec<u8>)>)
    requires
        forall|j: int| 0 <= j < eidx@.len() ==> (#[trigger] eidx@[j]) < datas@.len(),
        forall|i: int| 0 <= i < datas@.len() ==> (#[trigger] datas@[i])@.len() <= MAX_INPUT,
        analyses_total(trans, classify, band, profile),
    ensures
        r@.len() == eidx@.len(),
        forall|j: int| 0 <= j < eidx@.len() ==> (#[trigger] pair_views(r@)[j]).0 == eidx@[j],
        run_ok(views(datas@), eidx@, level, Seq::new(eidx@.len(), |j: int| pair_views(r@)[j].1)),
{
    let ghost dv = views(datas@);
    let mut out: Vec<(usize, Vec<u8>)> = Vec::new();
    if eidx.len() == 1 {
        let e = eidx[0];
        let blob = compress_single(datas[e].as_slice(), level, trans, classify, band, profile);
        assert(datas@[e as int]@ == dv[e as int]);
        out.push((e, blob));
        assert(Seq::new(1, |j: int| pair_views(out@)[j].1) =~= seq![blob@]);
    } else if eidx.len() >= 2 {
        let blobs = compress_solid_group(datas, eidx, level, trans, classify, band, profile);
        let ghost bv = views(blobs@);
        proof {
            lemma_run_blobs_len(dv, eidx@, level, bv);
        }
        let mut q: usize = 0;
        while q < eidx.len()
            invariant
                bv == views(blobs@),
                bv.len() == eidx@.len(),
                q <= eidx@.len(),
                out@.len() == q,
                forall|j: int| 0 <= j < q ==> (#[trigger] pair_views(out@)[j]) == (eidx@[j], bv[j]),
            decreases eidx@.len() - q,
        {
            let b = copy_range(blobs[q].as_slice(), 0, blobs[q].len());
            assert(blobs@[q as int]@.subrange(0, blobs@[q as int]@.len() as int) =~= blobs@[q as int]@);
            let ghost before = pair_views(out@);
            out.push((eidx[q], b));
            assert forall|j: int| 0 <= j < q + 1 implies (#[trigger] pair_views(out@)[j]) == (eidx@[j], bv[j]) by {
                if j < q {
                    assert(pair_views(out@)[j] == before[j]);
                }
            }
            q = q + 1;
        }
        assert(Seq::new(eidx@.len(), |j: int| pair_views(out@)[j].1) =~= bv);
    } else {
        assert(Seq::new(0, |j: int| pair_views(out@)[j].1) =~= Seq::<Seq<u8>>::empty());
    }
    out
}

/// The keys and sizes of the files in archive order.
fn ordered_keys(keys: &Vec<(u8, Vec<u8>)>, order: &Vec<usize>, datas: &Vec<Vec<u8>>) -> (r: (Vec<(u8, Vec<u8>)>, Vec<u64>))
    requires
        keys@.len() == datas@.len(),
        order@.len() == keys@.len(),
        forall|q: int| 0 <= q < order@.len() ==> (#[trigger] order@[q]) < keys@.len(),
    ensures
        key_view(r.0@) == Seq::new(order@.len(), |q: int| key_view(keys@)[order@[q] as int]),
        int_sizes(r.1@) == Seq::new(order@.len(), |q: int| datas@[order@[q] as int]@.len() as int),
{
    let n = order.len();
    let mut skeys: Vec<(u8, Vec<u8>)> = Vec::new();
    let mut ssizes: Vec<u64> = Vec::new();
    let mut p: usize = 0;
    while p < n
        invariant
            keys@.len() == datas@.len(),
            n == order@.len() == keys@.len(),
            forall|q: int| 0 <= q < n ==> (#[trigger] order@[q]) < keys@.len(),
            p <= n,
            skeys@.len() == p,
            ssizes@.len() == p,
            key_view(skeys@) == Seq::new(p as nat, |q: int| key_view(keys@)[order@[q] as int]),
            int_sizes(ssizes@) == Seq::new(p as nat, |q: int| datas@[order@[q] as int]@.len() as int),
        decreases n - p,
    {
        let e = order[p];
        let ext = copy_range(keys[e].1.as_slice(), 0, keys[e].1.len());
        assert(keys@[e as int].1@.subrange(0, keys@[e as int].1@.len() as int) =~= keys@[e as int].1@);
        let ghost ok = key_view(skeys@);
        let ghost os = int_sizes(ssizes@);
        let ghost old_keys = skeys@;
        let ghost old_sizes = ssizes@;
        skeys.push((keys[e].0, ext));
        ssizes.push(datas[e].len() as u64);
        assert forall|q: int| 0 <= q < p + 1 implies #[trigger] key_view(skeys@)[q] == key_view(keys@)[order@[q] as int] by {
            if q < p {
                assert(skeys@[q] == old_keys[q]);
                assert(ok[q] == key_view(keys@)[order@[q] as int]);
            }
        }
        assert forall|q: int| 0 <= q < p + 1 implies #[trigger] int_sizes(ssizes@)[q] == datas@[order@[q] as int]@.len() as int by {
            if q < p {
                assert(ssizes@[q] == old_sizes[q]);
                assert(os[q] == datas@[order@[q] as int]@.len() as int);
            }
        }
        assert(key_view(skeys@) =~= Seq::new((p + 1) as nat, |q: int| key_view(keys@)[order@[q] as int]));
        assert(int_sizes(ssizes@) =~= Seq::new((p + 1) as nat, |q: int| datas@[order@[q] as int]@.len() as int));
        p = p + 1;
    }
    (skeys, ssizes)
}

/// The archive bytes of `pairs`.
fn write_archive(paths: &Vec<Vec<u8>>, datas: &Vec<Vec<u8>>, pairs: &Vec<(usize, Vec<u8>)>) -> (r: Vec<u8>)
    requires
        paths@.len() == datas@.len(),
        forall|t: int| 0 <= t < pairs@.len() ==> (#[trigger] pairs@[t]).0 < datas@.len(),
    ensures
        r@ == archive_bytes(views(paths@), views(datas@), pair_views(pairs@)),
{
    let ghost pv = views(paths@);
    let ghost dv = views(datas@);
    let ghost pvs = pair_views(pairs@);
    let mut out: Vec<u8> = vec![72u8, 67, 65, 82];
    assert(out@ =~= archive_magic());
    push_u16_le(&mut out, ARCHIVE_VERSION);
    push_u32_le(&mut out, #[verifier::truncate] (pairs.len() as u32));
    let ghost prefix = out@;
    let mut k: usize = 0;
    while k < pairs.len()
        invariant
            paths@.len() == datas@.len(),
            pv == views(paths@),
            dv == views(datas@),
            pvs == pair_views(pairs@),
            forall|t: int| 0 <= t < pairs@.len() ==> (#[trigger] pairs@[t]).0 < datas@.len(),
            k <= pairs@.len(),
            out@ == prefix + dir_bytes(pv, dv, pvs, k as int),
        decreases pairs@.len() - k,
    {
        let e = pairs[k].0;
        let path = &paths[e];
        assert(path@ == pv[e as int]);
        assert(datas@[e as int]@ == dv[e as int]);
        push_u16_le(&mut out, #[verifier::truncate] (path.len() as u16));
        append_bytes(&mut out, path.as_slice());
        push_u64_le(&mut out, datas[e].len() as u64);
        push_u64_le(&mut out, pairs[k].1.len() as u64);
        assert(out@ =~= prefix + dir_bytes(pv, dv, pvs, k + 1));
        k = k + 1;
    }
    let ghost dirs = out@;
    let mut k2: usize = 0;
    while k2 < pairs.len()
        invariant
            pvs == pair_views(pairs@),
            k2 <= pairs@.len(),
            out@ == dirs + blob_bytes(pvs, k2 as int),
        decreases pairs@.len() - k2,
    {
        append_bytes(&mut out, pairs[k2].1.as_slice());
        assert(out@ =~= dirs + blob_bytes(pvs, k2 + 1));
        k2 = k2 + 1;
    }
    assert(out@ =~= archive_bytes(pv, dv, pvs));
    out
}

/// Builds the archive of the files `datas` named `paths` at `level`, with the caller's
/// analyses for the chunked containers inside it. Runs are compressed one after another.
pub fn build_archive<T: Fn(&[u8]) -> Vec<bool>, F: Fn(&[u8]) -> DataType, B: Fn(&[u8]) -> EntropyBand, P: Fn(&[u8]) -> FileProfile>(
    paths: &Vec<Vec<u8>>,
    datas: &Vec<Vec<u8>>,
    level: u32,
    trans: &T,
    classify: &F,
    band: &B,
    profile: &P,
) -> (r: (Vec<u8>, FolderStats))
    requires
        paths@.len() == datas@.len(),
        datas@.len() <= u32::MAX,
        forall|i: int| 0 <= i < datas@.len() ==> (#[trigger] datas@[i])@.len() <= MAX_INPUT,
        sizes_total(views(datas@), datas@.len() as int) <= u64::MAX,
        analyses_total(trans, classify, band, profile),
    ensures
        exists|pairs: Seq<(usize, Seq<u8>)>| {
            &&& #[trigger] pairs_match(views(datas@), archive_plan(views(paths@), views(datas@), level), level, pairs)
            &&& r.0@ == archive_bytes(views(paths@), views(datas@), pairs)
            &&& r.1.file_count == pairs.len()
            &&& pair_files(pairs) == sorted_order(archive_recs(views(paths@), views(datas@)), datas@.len() as int)
            &&& paths_fit(views(paths@), views(datas@), pairs) && pairs.len() <= u32::MAX
                ==> listed(r.0@) == Ok::<Seq<DirEntry>, ArchiveError>(dir_view(views(paths@), views(datas@), pairs))
            &&& paths_fit(views(paths@), views(datas@), pairs) && pairs.len() <= u32::MAX
                && containers_read_back(views(datas@), archive_plan(views(paths@), views(datas@), level), pairs)
                ==> extracted(r.0@) == Some(Ok::<Seq<(Seq<u8>, u64, Seq<u8>)>, ArchiveError>(files_of(views(paths@), views(datas@), pairs)))
        },
        r.1.total_original == sizes_total(views(datas@), datas@.len() as int),
        r.1.archive_size == r.0@.len(),
{
    let n = datas.len();
    let ghost pv = views(paths@);
    let ghost dv = views(datas@);
    let mut keys: Vec<(u8, Vec<u8>)> = Vec::new();
    let mut total: u64 = 0;
    let mut i: usize = 0;
    while i < n
        invariant
            n == datas@.len() == paths@.len(),
            n <= u32::MAX,
            forall|q: int| 0 <= q < n ==> (#[trigger] datas@[q])@.len() <= MAX_INPUT,
            pv == views(paths@),
            dv == views(datas@),
            i <= n,
            keys@.len() == i,
            forall|q: int| 0 <= q < i ==> (#[trigger] keys@[q]).0 == sort_key(pv[q], dv[q]).0 && keys@[q].1@ == sort_key(pv[q], dv[q]).1,
            total as int == sizes_total(dv, i as int),
            sizes_total(dv, n as int) <= u64::MAX,
        decreases n - i,
    {
        let k = file_sort_key(paths[i].as_slice(), datas[i].as_slice());
        keys.push(k);
        assert(datas@[i as int]@ == dv[i as int]);
        proof { lemma_sizes_mono(dv, i + 1, n as int); }
        total = total + datas[i].len() as u64;
        i = i + 1;
    }
    let ghost recs = Seq::new(n as nat, |q: int| (sort_key(pv[q], dv[q]).0, sort_key(pv[q], dv[q]).1, pv[q]));
    assert(recs_of(keys@, paths@) =~= recs);
    let order = archive_order(&keys, paths);
    proof {
        lemma_sorted_order(recs, n as int);
    }
    let (skeys, ssizes) = ordered_keys(&keys, &order, datas);
    let ghost skv = Seq::new(n as nat, |q: int| sort_key(pv[order@[q] as int], dv[order@[q] as int]));
    let ghost ssz = Seq::new(n as nat, |q: int| dv[order@[q] as int].len() as int);
    assert(key_view(skeys@) =~= skv);
    assert(int_sizes(ssizes@) =~= ssz);
    let groups = group_by_type(&skeys);
    proof {
        lemma_runs_bound(skv, n as int);
    }
    let cap = solid_cap_for_level(level);
    let ghost gv = seqs_of(groups@);
    let mut pairs: Vec<(usize, Vec<u8>)> = Vec::new();
    let ghost mut done: Seq<Seq<usize>> = Seq::empty();
    let mut g: usize = 0;
    while g < groups.len()
        invariant
            n == datas@.len() == paths@.len(),
            forall|q: int| 0 <= q < n ==> (#[trigger] datas@[q])@.len() <= MAX_INPUT,
            analyses_total(trans, classify, band, profile),
            dv == views(datas@),
            order@.len() == n,
            forall|q: int| 0 <= q < n ==> (#[trigger] order@[q]) < n,
            ssizes@.len() == n,
            int_sizes(ssizes@) == ssz,
            gv == seqs_of(groups@),
            gv == runs(skv, n as int),
            forall|a: int, j: int| 0 <= a < gv.len() && 0 <= j < gv[a].len() ==> (#[trigger] gv[a][j]) < n,
            g <= groups@.len(),
            done == Seq::new(work_runs(gv, ssz, cap as int, g as int).len(), |a: int| emap(work_runs(gv, ssz, cap as int, g as int)[a], order@)),
            pairs_match(dv, done, level, pair_views(pairs@)),
            forall|t: int| 0 <= t < pairs@.len() ==> (#[trigger] pairs@[t]).0 < n,
        decreases groups@.len() - g,
    {
        assert forall|j: int| 0 <= j < groups@[g as int]@.len() implies (#[trigger] groups@[g as int]@[j]) < ssizes@.len() by {
            assert(gv[g as int] == groups@[g as int]@);
            assert(gv[g as int][j] < n);
        }
        let subs = split_solid_group(&groups[g], &ssizes, cap);
        let ghost sv = seqs_of(subs@);
        assert(sv == solid_runs(gv[g as int], ssz, cap as int));
        proof {
            assert forall|j: int| 0 <= j < gv[g as int].len() implies (#[trigger] gv[g as int][j]) < n by {}
            lemma_solid_runs_elems(gv[g as int], ssz, cap as int, n as int);
        }
        let ghost done0 = done;
        let mut si: usize = 0;
        while si < subs.len()
            invariant
                n == datas@.len() == paths@.len(),
                forall|q: int| 0 <= q < n ==> (#[trigger] datas@[q])@.len() <= MAX_INPUT,
                analyses_total(trans, classify, band, profile),
                dv == views(datas@),
                order@.len() == n,
                forall|q: int| 0 <= q < n ==> (#[trigger] order@[q]) < n,
                sv == seqs_of(subs@),
                forall|a: int, j: int| 0 <= a < sv.len() && 0 <= j < sv[a].len() ==> (#[trigger] sv[a][j]) < n,
                si <= subs@.len(),
                done == done0 + Seq::new(si as nat, |a: int| emap(sv[a], order@)),
                pairs_match(dv, done, level, pair_views(pairs@)),
                forall|t: int| 0 <= t < pairs@.len() ==> (#[trigger] pairs@[t]).0 < n,
            decreases subs@.len() - si,
        {
            assert(subs@[si as int]@ == sv[si as int]);
            assert forall|j: int| 0 <= j < subs@[si as int]@.len() implies (#[trigger] subs@[si as int]@[j]) < order@.len() by {
                assert(sv[si as int][j] < n);
            }
            let eidx = run_entries(&subs[si], &order);
            let tail = compress_run(datas, &eidx, level, trans, classify, band, profile);
            let ghost before = pair_views(pairs@);
            let ghost tv = pair_views(tail@);
            let mut q: usize = 0;
            let mut tail = tail;
            let ghost tail0 = tail@;
            assert forall|t: int| 0 <= t < tail0.len() implies (#[trigger] tail0[t]).0 < n by {
                assert(pair_views(tail0)[t].0 == eidx@[t]);
                assert(eidx@[t] == order@[subs@[si as int]@[t] as int]);
            }
            while q < tail.len()
                invariant
                    tail@ == tail0,
                    tv == pair_views(tail0),
                    q <= tail0.len(),
                    tv.len() == tail0.len(),
                    pairs@.len() == before.len() + q,
                    pair_views(pairs@) == before + tv.take(q as int),
                    forall|t: int| 0 <= t < tail0.len() ==> (#[trigger] tail0[t]).0 < n,
                    forall|t: int| 0 <= t < pairs@.len() ==> (#[trigger] pairs@[t]).0 < n,
                decreases tail0.len() - q,
            {
                let b = copy_range(tail[q].1.as_slice(), 0, tail[q].1.len());
                assert(tail0[q as int].1@.subrange(0, tail0[q as int].1@.len() as int) =~= tail0[q as int].1@);
                let ghost old_pairs = pairs@;
                pairs.push((tail[q].0, b));
                assert forall|t: int| 0 <= t < pairs@.len() implies #[trigger] pair_views(pairs@)[t] == (before + tv.take(q + 1))[t] by {
                    if t < old_pairs.len() {
                        assert(pairs@[t] == old_pairs[t]);
                        assert(pair_views(old_pairs)[t] == (before + tv.take(q as int))[t]);
                    } else {
                        assert(tv[q as int] == (tail0[q as int].0, tail0[q as int].1@));
                    }
                }
                assert(pair_views(pairs@) =~= before + tv.take(q + 1));
                q = q + 1;
            }
            assert(tv.take(tv.len() as int) =~= tv);
            proof {
                lemma_pairs_push(dv, done, level, before, eidx@, tv);
                done = done.push(eidx@);
            }
            assert(done =~= done0 + Seq::new((si + 1) as nat, |a: int| emap(sv[a], order@)));
            si = si + 1;
        }
        assert(done =~= Seq::new(work_runs(gv, ssz, cap as int, g + 1).len(), |a: int| emap(work_runs(gv, ssz, cap as int, g + 1)[a], order@)));
        g = g + 1;
    }
    assert(done =~= archive_plan(pv, dv, level));
    let out = write_archive(paths, datas, &pairs);
    assert(out@.len() == out.len());
    proof {
        let pvs = pair_views(pairs@);
        lemma_pairs_flat(dv, archive_plan(pv, dv, level), level, pvs);
        lemma_plan_order(pv, dv, level);
        if paths_fit(pv, dv, pvs) && pairs@.len() <= u32::MAX {
            lemma_archive_listing(pv, dv, pvs);
            if containers_read_back(dv, archive_plan(pv, dv, level), pvs) {
                lemma_pairs_read_back(dv, archive_plan(pv, dv, level), level, pvs);
                lemma_archive_roundtrip(pv, dv, archive_plan(pv, dv, level), pvs);
            }
        }
    }
    let size = out.len() as u64;
    (out, FolderStats { file_count: pairs.len(), total_original: total, archive_size: size })
}

// ---------------------------------------------------------------------------------------------
// Reading an archive
// ---------------------------------------------------------------------------------------------

/// Why an archive could not be read.
#[derive(Debug, Clone, Copy, PartialEq, Eq, Structural)]
pub enum ArchiveError {
    /// Under 10 bytes, or no `"HCAR"` magic.
    NotArchive,
    /// A version other than 2 or 3.
    UnsupportedVersion(u16),
}

/// A directory record: path bytes, original size, stored size.
pub type DirEntry = (Seq<u8>, u64, u64);

/// Up to `k` directory records from `pos`, and where reading stopped; a record cut short by
/// the end of `d` ends the directory (after its length field, or after its path).
pub open spec fn parse_dir(d: Seq<u8>, pos: int, k: int) -> (Seq<DirEntry>, int)
    decreases k,
{
    if k <= 0 || pos < 0 || pos + 2 > d.len() {
        (Seq::empty(), pos)
    } else {
        let plen = u16_at(d, pos) as int;
        let p2 = pos + 2;
        if p2 + plen > d.len() {
            (Seq::empty(), p2)
        } else {
            let p3 = p2 + plen;
            if p3 + 16 > d.len() {
                (Seq::empty(), p3)
            } else {
                let rest = parse_dir(d, p3 + 16, k - 1);
                (seq![(d.subrange(p2, p3), u64_at(d, p3), u64_at(d, p3 + 8))] + rest.0, rest.1)
            }
        }
    }
}

/// Whether `d` has an archive header: at least 10 bytes and the magic.
pub open spec fn archive_header_ok(d: Seq<u8>) -> bool {
    d.len() >= 10 && d.subrange(0, 4) == archive_magic()
}

/// The directory of an archive (the version is not checked).
pub open spec fn listed(d: Seq<u8>) -> Result<Seq<DirEntry>, ArchiveError> {
    if !archive_header_ok(d) {
        Err(ArchiveError::NotArchive)
    } else {
        Ok(parse_dir(d, 10, u32_at(d, 6) as int).0)
    }
}

/// A directory record.
#[derive(Debug)]
pub struct ListedFile {
    pub path: Vec<u8>,
    pub original_size: u64,
    pub stored_size: u64,
}

/// The contents of a list of records.
pub open spec fn listed_view(v: Seq<ListedFile>) -> Seq<DirEntry> {
    Seq::new(v.len(), |i: int| (v[i].path@, v[i].original_size, v[i].stored_size))
}

fn read_dir(data: &[u8], count: u32) -> (r: (Vec<ListedFile>, usize))
    requires
        data@.len() >= 10,
    ensures
        listed_view(r.0@) == parse_dir(data@, 10, count as int).0,
        r.1 as int == parse_dir(data@, 10, count as int).1,
        r.1 <= data@.len(),
{
    let mut out: Vec<ListedFile> = Vec::new();
    let mut pos: usize = 10;
    let mut c: u32 = 0;
    let ghost total = parse_dir(data@, 10, count as int);
    while c < count
        invariant_except_break
            10 <= pos <= data@.len(),
            c <= count,
            total == parse_dir(data@, 10, count as int),
            listed_view(out@) + parse_dir(data@, pos as int, (count - c) as int).0 == total.0,
            parse_dir(data@, pos as int, (count - c) as int).1 == total.1,
        ensures
            listed_view(out@) == total.0,
            pos as int == total.1,
            pos <= data@.len(),
        decreases count - c,
    {
        if data.len() - pos < 2 {
            assert(listed_view(out@) + Seq::<DirEntry>::empty() =~= listed_view(out@));
            break;
        }
        let plen = read_u16_le(data, pos) as usize;
        pos = pos + 2;
        if data.len() - pos < plen {
            assert(listed_view(out@) + Seq::<DirEntry>::empty() =~= listed_view(out@));
            break;
        }
        let path = copy_range(data, pos, pos + plen);
        pos = pos + plen;
        if data.len() - pos < 16 {
            assert(listed_view(out@) + Seq::<DirEntry>::empty() =~= listed_view(out@));
            break;
        }
        let orig = read_u64_le(data, pos);
        let comp = read_u64_le(data, pos + 8);
        let ghost before = listed_view(out@);
        let ghost rest = parse_dir(data@, (pos + 16) as int, (count - c - 1) as int);
        out.push(ListedFile { path, original_size: orig, stored_size: comp });
        assert(listed_view(out@) =~= before.push((path@, orig, comp)));
        assert(before + (seq![(path@, orig, comp)] + rest.0) =~= listed_view(out@) + rest.0);
        pos = pos + 16;
        c = c + 1;
    }
    proof {
        if c >= count {
            assert(listed_view(out@) + Seq::<DirEntry>::empty() =~= listed_view(out@));
        }
    }
    (out, pos)
}

/// The directory of an archive.
pub fn list_archive(data: &[u8]) -> (r: Result<Vec<ListedFile>, ArchiveError>)
    ensures
        match r {
            Ok(v) => listed(data@) == Ok::<Seq<DirEntry>, ArchiveError>(listed_view(v@)),
            Err(e) => listed(data@) == Err::<Seq<DirEntry>, ArchiveError>(e),
        },
{
    if data.len() < 10 || !is_archive(data) {
        return Err(ArchiveError::NotArchive);
    }
    let count = read_u32_le(data, 6);
    let (v, _) = read_dir(data, count);
    Ok(v)
}

/// The bytes of a decoded container, nothing for one with an error, `None` where decoding
/// would fail.
pub open spec fn or_empty(r: Option<Result<Seq<u8>, DecompressError>>) -> Option<Seq<u8>> {
    match r {
        None => None,
        Some(Ok(v)) => Some(v),
        Some(Err(_)) => Some(Seq::empty()),
    }
}

/// What the stream of a solid run restores to; `None` where decoding would fail. Streams with
/// an unknown marker are read as containers from their first byte.
pub open spec fn solid_restored(b: Seq<u8>) -> Option<Seq<u8>> {
    if b.len() == 0 {
        Some(Seq::empty())
    } else if b[0] == 4 {
        match codec_decoded(CodecType::Lzma, b.skip(1)) {
            Some(x) => Some(delta_decoded(x)),
            None => None,
        }
    } else if b[0] == 5 {
        codec_decoded(CodecType::Lzma, b.skip(1))
    } else if b[0] == 6 {
        or_empty(decompressed(b.skip(1)))
    } else {
        or_empty(decompressed(b))
    }
}

/// The smaller of `a` and `b`.
pub open spec fn min_int(a: int, b: int) -> int {
    if a < b { a } else { b }
}

/// The bytes blob `cd` of a file of `orig` bytes restores to, with the solid run's bytes and
/// read offset after it; `None` where decoding would fail. The head of a solid run restores
/// the run and gives its first file; later members take their bytes from the run in turn
/// (nothing when the run is too short, or when no run came before).
#[verifier::opaque]
pub open spec fn blob_restored(cd: Seq<u8>, orig: u64, cache: Option<Seq<u8>>, off: int) -> Option<(Seq<u8>, Option<Seq<u8>>, int)> {
    if cd.len() == 0 {
        Some((Seq::empty(), cache, off))
    } else if cd[0] == 0 {
        Some((cd.skip(1), cache, off))
    } else if cd[0] == 1 {
        match decompressed(cd.skip(1)) {
            None => None,
            Some(Ok(v)) => Some((v, cache, off)),
            Some(Err(_)) => Some((cd.skip(1), cache, off)),
        }
    } else if cd[0] == 7 {
        match codec_decoded(CodecType::Lzma, cd.skip(1)) {
            Some(x) => Some((x, cache, off)),
            None => None,
        }
    } else if cd[0] == 8 {
        match codec_decoded(CodecType::Lzma, cd.skip(1)) {
            Some(x) => Some((delta_decoded(x), cache, off)),
            None => None,
        }
    } else if cd[0] == 2 {
        if cd.len() < 5 {
            Some((Seq::empty(), cache, off))
        } else {
            let m = min_int(u32_at(cd, 1) as int, (cd.len() - 5) / 8);
            let sz: int = if m >= 1 { (u64_at(cd, 5) as usize) as int } else { 0 };
            match solid_restored(cd.skip(5 + 8 * m)) {
                None => None,
                Some(full) => Some((full.take(min_int(sz, full.len() as int)), Some(full), sz)),
            }
        }
    } else if cd[0] == 3 {
        match cache {
            Some(full) => {
                let sz = (orig as usize) as int;
                if off + sz > usize::MAX {
                    None
                } else if off + sz <= full.len() {
                    Some((full.subrange(off, off + sz), cache, off + sz))
                } else {
                    Some((Seq::empty(), cache, off + sz))
                }
            },
            None => Some((Seq::empty(), cache, off)),
        }
    } else {
        Some((cd, cache, off))
    }
}

/// The files restored from directory records `dir[i..]`, their blobs starting at `pos`;
/// `None` where decoding would fail. A blob past the end of `d` ends the listing.
#[verifier::opaque]
pub open spec fn extract_from(d: Seq<u8>, dir: Seq<DirEntry>, i: int, pos: int, cache: Option<Seq<u8>>, off: int) -> Option<Seq<(Seq<u8>, u64, Seq<u8>)>>
    decreases dir.len() - i,
{
    if i < 0 || i >= dir.len() {
        Some(Seq::empty())
    } else {
        let e = dir[i];
        let csz = (e.2 as usize) as int;
        if pos + csz > usize::MAX {
            None
        } else if pos + csz > d.len() {
            Some(Seq::empty())
        } else {
            match blob_restored(d.subrange(pos, pos + csz), e.1, cache, off) {
                None => None,
                Some((fd, c2, o2)) => match extract_from(d, dir, i + 1, pos + csz, c2, o2) {
                    None => None,
                    Some(rest) => Some(seq![(e.0, e.1, fd)] + rest),
                },
            }
        }
    }
}

/// What extracting archive `d` gives: each file's path, recorded size and restored bytes;
/// `None` where decoding would fail.
pub open spec fn extracted(d: Seq<u8>) -> Option<Result<Seq<(Seq<u8>, u64, Seq<u8>)>, ArchiveError>> {
    if !archive_header_ok(d) {
        Some(Err(ArchiveError::NotArchive))
    } else if u16_at(d, 4) != 2 && u16_at(d, 4) != 3 {
        Some(Err(ArchiveError::UnsupportedVersion(u16_at(d, 4))))
    } else {
        let (dir, pos) = parse_dir(d, 10, u32_at(d, 6) as int);
        match extract_from(d, dir, 0, pos, None, 0) {
            None => None,
            Some(es) => Some(Ok(es)),
        }
    }
}

/// One file restored from an archive.
#[derive(Debug)]
pub struct ArchiveEntry {
    pub path: Vec<u8>,
    pub size: u64,
    pub data: Vec<u8>,
}

/// The contents of a list of restored files.
pub open spec fn entries_view(v: Seq<ArchiveEntry>) -> Seq<(Seq<u8>, u64, Seq<u8>)> {
    Seq::new(v.len(), |i: int| (v[i].path@, v[i].size, v[i].data@))
}

/// The contents of an optional byte vector.
pub open spec fn opt_view(c: Option<Vec<u8>>) -> Option<Seq<u8>> {
    match c {
        Some(v) => Some(v@),
        None => None,
    }
}

fn or_empty_exec(data: &[u8]) -> (r: Option<Vec<u8>>)
    ensures
        opt_view(r) == or_empty(decompressed(data@)),
{
    match decompress_checked(data) {
        None => None,
        Some(Ok(v)) => Some(v),
        Some(Err(_)) => Some(Vec::new()),
    }
}

fn restore_solid(b: &[u8]) -> (r: Option<Vec<u8>>)
    ensures
        opt_view(r) == solid_restored(b@),
{
    if b.len() == 0 {
        return Some(Vec::new());
    }
    let body = &b[1..b.len()];
    assert(body@ =~= b@.skip(1));
    if b[0] == 4 {
        match entropy::decode_checked(body, CodecType::Lzma) {
            Some(x) => Some(delta::decode(x.as_slice())),
            None => None,
        }
    } else if b[0] == 5 {
        entropy::decode_checked(body, CodecType::Lzma)
    } else if b[0] == 6 {
        or_empty_exec(body)
    } else {
        or_empty_exec(b)
    }
}

fn restore_blob(cd: &[u8], orig: u64, cache: &mut Option<Vec<u8>>, off: &mut usize) -> (r: Option<Vec<u8>>)
    ensures
        match blob_restored(cd@, orig, opt_view(*old(cache)), *old(off) as int) {
            None => r is None,
            Some((fd, c2, o2)) => r is Some && r->0@ == fd && opt_view(*final(cache)) == c2 && *final(off) as int == o2,
        },
{
    reveal(blob_restored);
    if cd.len() == 0 {
        return Some(Vec::new());
    }
    let body = &cd[1..cd.len()];
    assert(body@ =~= cd@.skip(1));
    let m = cd[0];
    if m == 0 {
        Some(copy_range(cd, 1, cd.len()))
    } else if m == 1 {
        match decompress_checked(body) {
            None => None,
            Some(Ok(v)) => Some(v),
            Some(Err(_)) => Some(copy_range(cd, 1, cd.len())),
        }
    } else if m == 7 {
        entropy::decode_checked(body, CodecType::Lzma)
    } else if m == 8 {
        match entropy::decode_checked(body, CodecType::Lzma) {
            Some(x) => Some(delta::decode(x.as_slice())),
            None => None,
        }
    } else if m == 2 {
        if cd.len() < 5 {
            return Some(Vec::new());
        }
        let gc = read_u32_le(cd, 1);
        let mut spos: usize = 5;
        let mut first: u64 = 0;
        let mut c: u32 = 0;
        while c < gc && cd.len() - spos >= 8
            invariant
                5 <= spos <= cd@.len(),
                c <= gc,
                gc == u32_at(cd@, 1),
                spos == 5 + 8 * c,
                c >= 1 ==> first == u64_at(cd@, 5),
            decreases gc - c,
        {
            if c == 0 {
                first = read_u64_le(cd, 5);
            }
            spos = spos + 8;
            c = c + 1;
        }
        assert(c as int == min_int(gc as int, (cd@.len() - 5) / 8));
        let sz: usize = if c >= 1 { first as usize } else { 0 };
        let blob = &cd[spos..cd.len()];
        assert(blob@ =~= cd@.skip(5 + 8 * c));
        match restore_solid(blob) {
            None => None,
            Some(full) => {
                let take: usize = if sz < full.len() { sz } else { full.len() };
                let chunk = copy_range(full.as_slice(), 0, take);
                assert(chunk@ =~= full@.take(take as int));
                *cache = Some(full);
                *off = sz;
                Some(chunk)
            },
        }
    } else if m == 3 {
        match cache {
            Some(full) => {
                let sz = orig as usize;
                if usize::MAX - *off < sz {
                    return None;
                }
                let end = *off + sz;
                let chunk = if end <= full.len() { copy_range(full.as_slice(), *off, end) } else { Vec::new() };
                *off = end;
                Some(chunk)
            },
            None => Some(Vec::new()),
        }
    } else {
        Some(copy_range(cd, 0, cd.len()))
    }
}

/// `pre` followed by the files of `r`, if any.
pub open spec fn then_files(pre: Seq<(Seq<u8>, u64, Seq<u8>)>, r: Option<Seq<(Seq<u8>, u64, Seq<u8>)>>) -> Option<Seq<(Seq<u8>, u64, Seq<u8>)>> {
    match r {
        None => None,
        Some(x) => Some(pre + x),
    }
}

proof fn lemma_then_push(pre: Seq<(Seq<u8>, u64, Seq<u8>)>, x: (Seq<u8>, u64, Seq<u8>), r: Option<Seq<(Seq<u8>, u64, Seq<u8>)>>)
    ensures
        then_files(pre, then_files(seq![x], r)) == then_files(pre.push(x), r),
{
    if r is Some {
        assert(pre + (seq![x] + r->0) =~= pre.push(x) + r->0);
    }
}

proof fn lemma_extract_step(d: Seq<u8>, dir: Seq<DirEntry>, i: int, pos: int, cache: Option<Seq<u8>>, off: int)
    requires
        0 <= i < dir.len(),
        pos + (dir[i].2 as usize) as int <= usize::MAX,
    ensures
        ({
            let e = dir[i];
            let csz = (e.2 as usize) as int;
            &&& pos + csz > d.len() ==> extract_from(d, dir, i, pos, cache, off) == Some(Seq::<(Seq<u8>, u64, Seq<u8>)>::empty())
            &&& pos + csz <= d.len() ==> extract_from(d, dir, i, pos, cache, off) == match blob_restored(d.subrange(pos, pos + csz), e.1, cache, off) {
                None => None,
                Some((fd, c2, o2)) => then_files(seq![(e.0, e.1, fd)], extract_from(d, dir, i + 1, pos + csz, c2, o2)),
            }
        }),
{
    reveal(extract_from);
}

proof fn lemma_extract_end(d: Seq<u8>, dir: Seq<DirEntry>, i: int, pos: int, cache: Option<Seq<u8>>, off: int)
    requires
        i >= dir.len(),
    ensures
        extract_from(d, dir, i, pos, cache, off) == Some(Seq::<(Seq<u8>, u64, Seq<u8>)>::empty()),
{
    reveal(extract_from);
}

proof fn lemma_extract_overflow(d: Seq<u8>, dir: Seq<DirEntry>, i: int, pos: int, cache: Option<Seq<u8>>, off: int)
    requires
        0 <= i < dir.len(),
        pos + (dir[i].2 as usize) as int > usize::MAX,
    ensures
        extract_from(d, dir, i, pos, cache, off) is None,
{
    reveal(extract_from);
}

/// Whether `a` and `b` have the same length and the same bytes at every index from `from` on.
pub open spec fn same_from(a: Seq<u8>, b: Seq<u8>, from: int) -> bool {
    a.len() == b.len() && forall|i: int| from <= i < a.len() ==> a[i] == b[i]
}

proof fn lemma_same_from_subrange(a: Seq<u8>, b: Seq<u8>, from: int, lo: int, hi: int)
    requires
        same_from(a, b, from),
        0 <= from <= lo <= hi <= a.len(),
    ensures
        a.subrange(lo, hi) == b.subrange(lo, hi),
{
    assert forall|k: int| 0 <= k < hi - lo implies a.subrange(lo, hi)[k] == b.subrange(lo, hi)[k] by {
        assert(a[lo + k] == b[lo + k]);
    }
    assert(a.subrange(lo, hi) =~= b.subrange(lo, hi));
}

/// The directory read from `pos` on depends only on the bytes from `pos` on.
proof fn lemma_parse_dir_same(a: Seq<u8>, b: Seq<u8>, pos: int, k: int)
    requires
        0 <= pos,
        same_from(a, b, pos),
    ensures
        parse_dir(a, pos, k) == parse_dir(b, pos, k),
        parse_dir(a, pos, k).1 >= pos,
    decreases k,
{
    if k <= 0 || pos + 2 > a.len() {
    } else {
        lemma_same_from_subrange(a, b, pos, pos, pos + 2);
        let plen = u16_at(a, pos) as int;
        let p2 = pos + 2;
        if p2 + plen > a.len() {
        } else {
            let p3 = p2 + plen;
            if p3 + 16 > a.len() {
            } else {
                lemma_same_from_subrange(a, b, pos, p2, p3);
                lemma_same_from_subrange(a, b, pos, p3, p3 + 8);
                lemma_same_from_subrange(a, b, pos, p3 + 8, p3 + 16);
                lemma_parse_dir_same(a, b, p3 + 16, k - 1);
            }
        }
    }
}

/// The files restored from blobs starting at `pos` depend only on the bytes from `pos` on.
proof fn lemma_extract_from_same(a: Seq<u8>, b: Seq<u8>, dir: Seq<DirEntry>, i: int, pos: int, cache: Option<Seq<u8>>, off: int)
    requires
        0 <= pos,
        same_from(a, b, pos),
    ensures
        extract_from(a, dir, i, pos, cache, off) == extract_from(b, dir, i, pos, cache, off),
    decreases dir.len() - i,
{
    reveal(extract_from);
    if i < 0 || i >= dir.len() {
    } else {
        let csz = (dir[i].2 as usize) as int;
        if pos + csz > usize::MAX || pos + csz > a.len() {
        } else {
            lemma_same_from_subrange(a, b, pos, pos, pos + csz);
            match blob_restored(a.subrange(pos, pos + csz), dir[i].1, cache, off) {
                None => {},
                Some((fd, c2, o2)) => {
                    lemma_extract_from_same(a, b, dir, i + 1, pos + csz, c2, o2);
                },
            }
        }
    }
}

/// Versions 2 and 3 share one layout: two archives that differ only in their version field,
/// each 2 or 3, extract to the same files; and an archive of either version is never refused
/// (its extraction is `None` or `Ok`).
pub proof fn lemma_versions_extract_alike(a: Seq<u8>, b: Seq<u8>)
    requires
        archive_header_ok(a),
        a.subrange(0, 4) == b.subrange(0, 4),
        same_from(a, b, 6),
        u16_at(a, 4) == 2 || u16_at(a, 4) == 3,
        u16_at(b, 4) == 2 || u16_at(b, 4) == 3,
    ensures
        extracted(a) == extracted(b),
        !(extracted(a) matches Some(Err(_))),
{
    lemma_same_from_subrange(a, b, 6, 6, 10);
    assert(archive_header_ok(b));
    lemma_parse_dir_same(a, b, 10, u32_at(a, 6) as int);
    let (dir, pos) = parse_dir(a, 10, u32_at(a, 6) as int);
    lemma_extract_from_same(a, b, dir, 0, pos, None, 0);
}

/// An archive is refused for its version exactly when it has a header and its version field
/// is neither 2 nor 3; the error carries that field.
pub proof fn lemma_version_refusal(d: Seq<u8>, v: u16)
    ensures
        extracted(d) == Some(Err::<Seq<(Seq<u8>, u64, Seq<u8>)>, ArchiveError>(ArchiveError::UnsupportedVersion(v)))
            <==> (archive_header_ok(d) && u16_at(d, 4) == v && v != 2 && v != 3),
{
}

/// Restores the files of an archive, or `None` where decoding a blob would fail (a malformed
/// stream, a size past the address space).
#[verifier::rlimit(30)]
pub fn extract_checked(data: &[u8]) -> (r: Option<Result<Vec<ArchiveEntry>, ArchiveError>>)
    ensures
        match r {
            None => extracted(data@) is None,
            Some(Ok(v)) => extracted(data@) == Some(Ok::<Seq<(Seq<u8>, u64, Seq<u8>)>, ArchiveError>(entries_view(v@))),
            Some(Err(e)) => extracted(data@) == Some(Err::<Seq<(Seq<u8>, u64, Seq<u8>)>, ArchiveError>(e)),
        },
{
    if data.len() < 10 || !is_archive(data) {
        return Some(Err(ArchiveError::NotArchive));
    }
    let version = read_u16_le(data, 4);
    if version != 2 && version != 3 {
        return Some(Err(ArchiveError::UnsupportedVersion(version)));
    }
    let count = read_u32_le(data, 6);
    let (dir, start) = read_dir(data, count);
    let ghost dv = listed_view(dir@);
    let mut out: Vec<ArchiveEntry> = Vec::new();
    let mut cache: Option<Vec<u8>> = None;
    let mut off: usize = 0;
    let mut pos: usize = start;
    let mut i: usize = 0;
    let ghost total = extract_from(data@, dv, 0, start as int, None, 0);
    assert(entries_view(out@) + Seq::<(Seq<u8>, u64, Seq<u8>)>::empty() =~= Seq::<(Seq<u8>, u64, Seq<u8>)>::empty());
    proof {
        lemma_extract_end(data@, dv, dv.len() as int, start as int, None, 0);
        assert(data@.subrange(0, 4) == archive_magic());
        assert(u16_at(data@, 4) == version);
    }
    assert(extracted(data@) == match total {
        None => None,
        Some(es) => Some(Ok::<Seq<(Seq<u8>, u64, Seq<u8>)>, ArchiveError>(es)),
    });
    proof {
        if total is Some {
            assert(Seq::<(Seq<u8>, u64, Seq<u8>)>::empty() + total->0 =~= total->0);
        }
    }
    while i < dir.len()
        invariant_except_break
            dv == listed_view(dir@),
            i <= dir@.len(),
            pos <= data@.len(),
            total == extract_from(data@, dv, 0, start as int, None, 0),
            extracted(data@) == match total {
                None => None,
                Some(es) => Some(Ok::<Seq<(Seq<u8>, u64, Seq<u8>)>, ArchiveError>(es)),
            },
            total == then_files(entries_view(out@), extract_from(data@, dv, i as int, pos as int, opt_view(cache), off as int)),
            extract_from(data@, dv, dir@.len() as int, pos as int, opt_view(cache), off as int) == Some(Seq::<(Seq<u8>, u64, Seq<u8>)>::empty()),
            entries_view(out@) + Seq::<(Seq<u8>, u64, Seq<u8>)>::empty() == entries_view(out@),
        ensures
            total == Some(entries_view(out@)),
        decreases dir@.len() - i,
    {
        let e = &dir[i];
        assert(dv[i as int] == (e.path@, e.original_size, e.stored_size));
        let csz = e.stored_size as usize;
        if usize::MAX - pos < csz {
            proof {
                lemma_extract_overflow(data@, dv, i as int, pos as int, opt_view(cache), off as int);
                assert(total is None);
            }
            return None;
        }
        proof {
            lemma_extract_step(data@, dv, i as int, pos as int, opt_view(cache), off as int);
        }
        if pos + csz > data.len() {
            assert(entries_view(out@) + Seq::<(Seq<u8>, u64, Seq<u8>)>::empty() =~= entries_view(out@));
            break;
        }
        let cd = &data[pos..pos + csz];
        assert(cd@ =~= data@.subrange(pos as int, pos + csz));
        let ghost pre = entries_view(out@);
        match restore_blob(cd, e.original_size, &mut cache, &mut off) {
            None => {
                assert(total is None);
                return None;
            },
            Some(fd) => {
                let path = copy_range(e.path.as_slice(), 0, e.path.len());
                assert(e.path@.subrange(0, e.path@.len() as int) =~= e.path@);
                out.push(ArchiveEntry { path, size: e.original_size, data: fd });
                assert(entries_view(out@) =~= pre.push((e.path@, e.original_size, fd@)));
                proof {
                    lemma_then_push(pre, (e.path@, e.original_size, fd@),
                        extract_from(data@, dv, i + 1, pos + csz, opt_view(cache), off as int));
                }
            },
        }
        pos = pos + csz;
        i = i + 1;
        proof {
            lemma_extract_end(data@, dv, dv.len() as int, pos as int, opt_view(cache), off as int);
            assert(entries_view(out@) + Seq::<(Seq<u8>, u64, Seq<u8>)>::empty() =~= entries_view(out@));
        }
    }
    proof {
        if i >= dir@.len() {
            lemma_extract_end(data@, dv, i as int, pos as int, opt_view(cache), off as int);
            assert(entries_view(out@) + Seq::<(Seq<u8>, u64, Seq<u8>)>::empty() =~= entries_view(out@));
        }
    }
    Some(Ok(out))
}

// ---------------------------------------------------------------------------------------------
// Reading back what `build_archive` writes
// ---------------------------------------------------------------------------------------------

/// The directory records of `pairs`: each file's path, size and stored size.
pub open spec fn dir_view(pv: Seq<Seq<u8>>, dv: Seq<Seq<u8>>, pairs: Seq<(usize, Seq<u8>)>) -> Seq<DirEntry> {
    Seq::new(pairs.len(), |k: int| (pv[pairs[k].0 as int], dv[pairs[k].0 as int].len() as u64, pairs[k].1.len() as u64))
}

/// Every pair names a file, whose path fits a 16-bit length.
pub open spec fn paths_fit(pv: Seq<Seq<u8>>, dv: Seq<Seq<u8>>, pairs: Seq<(usize, Seq<u8>)>) -> bool {
    &&& pv.len() == dv.len()
    &&& forall|k: int| 0 <= k < pairs.len() ==> (#[trigger] pairs[k]).0 < pv.len() && pv[pairs[k].0 as int].len() <= u16::MAX
}

/// The directory of `pairs[j..]`, first record first.
pub open spec fn dir_from(pv: Seq<Seq<u8>>, dv: Seq<Seq<u8>>, pairs: Seq<(usize, Seq<u8>)>, j: int) -> Seq<u8>
    decreases pairs.len() - j,
{
    if j < 0 || j >= pairs.len() { Seq::empty() } else { dir_entry(pv, dv, pairs[j]) + dir_from(pv, dv, pairs, j + 1) }
}

proof fn lemma_dir_from(pv: Seq<Seq<u8>>, dv: Seq<Seq<u8>>, pairs: Seq<(usize, Seq<u8>)>, k: int)
    requires
        0 <= k <= pairs.len(),
    ensures
        dir_bytes(pv, dv, pairs, k) + dir_from(pv, dv, pairs, k) == dir_from(pv, dv, pairs, 0),
    decreases k,
{
    if k > 0 {
        lemma_dir_from(pv, dv, pairs, k - 1);
        assert(dir_bytes(pv, dv, pairs, k) + dir_from(pv, dv, pairs, k)
            =~= dir_bytes(pv, dv, pairs, k - 1) + dir_from(pv, dv, pairs, k - 1));
    } else {
        assert(dir_bytes(pv, dv, pairs, 0) + dir_from(pv, dv, pairs, 0) =~= dir_from(pv, dv, pairs, 0));
    }
}

proof fn lemma_parse_dir_from(d: Seq<u8>, pos: int, pv: Seq<Seq<u8>>, dv: Seq<Seq<u8>>, pairs: Seq<(usize, Seq<u8>)>, j: int)
    requires
        paths_fit(pv, dv, pairs),
        0 <= j <= pairs.len(),
        0 <= pos,
        pos + dir_from(pv, dv, pairs, j).len() <= d.len(),
        d.subrange(pos, pos + dir_from(pv, dv, pairs, j).len()) == dir_from(pv, dv, pairs, j),
    ensures
        parse_dir(d, pos, pairs.len() - j)
            == (dir_view(pv, dv, pairs).subrange(j, pairs.len() as int), pos + dir_from(pv, dv, pairs, j).len()),
    decreases pairs.len() - j,
{
    let n = pairs.len() as int;
    if j == n {
        assert(dir_view(pv, dv, pairs).subrange(j, n) =~= Seq::<DirEntry>::empty());
    } else {
        crate::bytes::lemma_le_lengths();
        let pr = pairs[j];
        let path = pv[pr.0 as int];
        let plen = path.len() as int;
        let h = le16(plen as u16);
        let s1 = le64(dv[pr.0 as int].len() as u64);
        let s2 = le64(pr.1.len() as u64);
        let e = dir_entry(pv, dv, pr);
        let rest = dir_from(pv, dv, pairs, j + 1);
        assert(e == h + path + s1 + s2);
        assert(dir_from(pv, dv, pairs, j) == e + rest);
        let whole = d.subrange(pos, pos + e.len() + rest.len());
        assert(whole == h + path + s1 + s2 + rest);
        crate::bytes::lemma_u16_at(Seq::empty(), plen as u16, path + s1 + s2 + rest);
        assert(Seq::<u8>::empty() + h + (path + s1 + s2 + rest) =~= whole);
        assert(d.subrange(pos, pos + 2) =~= whole.subrange(0, 2));
        assert(u16_at(d, pos) == u16_at(whole, 0));
        assert(u16_at(d, pos) as int == plen);
        let p2 = pos + 2;
        let p3 = p2 + plen;
        assert(d.subrange(p2, p3) =~= whole.subrange(2, 2 + plen));
        assert(whole.subrange(2, 2 + plen) =~= path);
        crate::bytes::lemma_u64_at(h + path, dv[pr.0 as int].len() as u64, s2 + rest);
        assert(h + path + (s1 + (s2 + rest)) =~= whole);
        assert(d.subrange(p3, p3 + 8) =~= whole.subrange(2 + plen, 10 + plen));
        assert(u64_at(d, p3) == u64_at(whole, 2 + plen));
        crate::bytes::lemma_u64_at(h + path + s1, pr.1.len() as u64, rest);
        assert(h + path + s1 + (s2 + rest) =~= whole);
        assert(d.subrange(p3 + 8, p3 + 16) =~= whole.subrange(10 + plen, 18 + plen));
        assert(u64_at(d, p3 + 8) == u64_at(whole, 10 + plen));
        assert(d.subrange(p3 + 16, p3 + 16 + rest.len()) =~= whole.subrange(18 + plen, 18 + plen + rest.len()));
        assert(whole.subrange(18 + plen, 18 + plen + rest.len()) =~= rest);
        lemma_parse_dir_from(d, p3 + 16, pv, dv, pairs, j + 1);
        assert(dir_view(pv, dv, pairs).subrange(j, n)
            =~= seq![(d.subrange(p2, p3), u64_at(d, p3), u64_at(d, p3 + 8))] + dir_view(pv, dv, pairs).subrange(j + 1, n));
    }
}

/// The directory of an archive built from `pairs` lists, in order, each pair's file with its
/// path, size and stored size; the blobs start right after it.
pub proof fn lemma_archive_listing(pv: Seq<Seq<u8>>, dv: Seq<Seq<u8>>, pairs: Seq<(usize, Seq<u8>)>)
    requires
        paths_fit(pv, dv, pairs),
        pairs.len() <= u32::MAX,
    ensures
        archive_header_ok(archive_bytes(pv, dv, pairs)),
        u16_at(archive_bytes(pv, dv, pairs), 4) == ARCHIVE_VERSION,
        parse_dir(archive_bytes(pv, dv, pairs), 10, u32_at(archive_bytes(pv, dv, pairs), 6) as int)
            == (dir_view(pv, dv, pairs), 10int + dir_bytes(pv, dv, pairs, pairs.len() as int).len()),
        listed(archive_bytes(pv, dv, pairs)) == Ok::<Seq<DirEntry>, ArchiveError>(dir_view(pv, dv, pairs)),
{
    crate::bytes::lemma_le_lengths();
    let n = pairs.len() as int;
    let d = archive_bytes(pv, dv, pairs);
    let v = le16(ARCHIVE_VERSION);
    let c = le32(n as u32);
    let db = dir_bytes(pv, dv, pairs, n);
    let bb = blob_bytes(pairs, n);
    assert(d == archive_magic() + v + c + db + bb);
    assert(d.subrange(0, 4) =~= archive_magic());
    crate::bytes::lemma_u16_at(archive_magic(), ARCHIVE_VERSION, c + db + bb);
    assert(archive_magic() + v + (c + db + bb) =~= d);
    crate::bytes::lemma_u32_at(archive_magic() + v, n as u32, db + bb);
    assert(archive_magic() + v + c + (db + bb) =~= d);
    assert(u32_at(d, 6) as int == n);
    lemma_dir_from(pv, dv, pairs, n);
    assert(dir_from(pv, dv, pairs, n) == Seq::<u8>::empty());
    assert(db =~= dir_from(pv, dv, pairs, 0));
    assert(d.subrange(10, 10int + db.len()) =~= db);
    lemma_parse_dir_from(d, 10, pv, dv, pairs, 0);
    assert(dir_view(pv, dv, pairs).subrange(0, n) =~= dir_view(pv, dv, pairs));
}

/// The files that `pairs` store: each file's path, size and bytes.
pub open spec fn files_of(pv: Seq<Seq<u8>>, dv: Seq<Seq<u8>>, pairs: Seq<(usize, Seq<u8>)>) -> Seq<(Seq<u8>, u64, Seq<u8>)> {
    Seq::new(pairs.len(), |k: int| (pv[pairs[k].0 as int], dv[pairs[k].0 as int].len() as u64, dv[pairs[k].0 as int]))
}

/// The directory records from `i` on describe the pairs `seg`.
pub open spec fn dir_matches(dir: Seq<DirEntry>, i: int, pv: Seq<Seq<u8>>, dv: Seq<Seq<u8>>, seg: Seq<(usize, Seq<u8>)>) -> bool {
    &&& 0 <= i
    &&& i + seg.len() <= dir.len()
    &&& forall|j: int| 0 <= j < seg.len() ==> #[trigger] dir[i + j]
        == (pv[seg[j].0 as int], dv[seg[j].0 as int].len() as u64, seg[j].1.len() as u64)
}

proof fn lemma_blob_prefix(pairs: Seq<(usize, Seq<u8>)>, a: int, b: int)
    requires
        0 <= a <= b <= pairs.len(),
    ensures
        blob_bytes(pairs, a).len() <= blob_bytes(pairs, b).len(),
        blob_bytes(pairs, b).subrange(0, blob_bytes(pairs, a).len() as int) == blob_bytes(pairs, a),
    decreases b,
{
    if a < b {
        lemma_blob_prefix(pairs, a, b - 1);
        let x = blob_bytes(pairs, b - 1);
        assert(blob_bytes(pairs, b).subrange(0, x.len() as int) =~= x);
        assert(blob_bytes(pairs, b).subrange(0, blob_bytes(pairs, a).len() as int)
            =~= x.subrange(0, blob_bytes(pairs, a).len() as int));
    } else {
        assert(blob_bytes(pairs, b).subrange(0, blob_bytes(pairs, a).len() as int) =~= blob_bytes(pairs, a));
    }
}

/// Blob `j` of `seg` sits right after the blobs before it.
proof fn lemma_blob_at(d: Seq<u8>, pos: int, seg: Seq<(usize, Seq<u8>)>, j: int)
    requires
        0 <= j < seg.len(),
        0 <= pos,
        pos + blob_bytes(seg, seg.len() as int).len() <= d.len(),
        d.subrange(pos, pos + blob_bytes(seg, seg.len() as int).len()) == blob_bytes(seg, seg.len() as int),
    ensures
        blob_bytes(seg, j + 1).len() == blob_bytes(seg, j).len() + seg[j].1.len(),
        pos + blob_bytes(seg, j + 1).len() <= d.len(),
        d.subrange(pos + blob_bytes(seg, j).len(), pos + blob_bytes(seg, j + 1).len()) == seg[j].1,
{
    let m = seg.len() as int;
    lemma_blob_prefix(seg, j + 1, m);
    let x = blob_bytes(seg, j);
    let y = blob_bytes(seg, j + 1);
    assert(y == x + seg[j].1);
    assert(d.subrange(pos + x.len(), pos + y.len()) =~= blob_bytes(seg, m).subrange(x.len() as int, y.len() as int));
    assert(blob_bytes(seg, m).subrange(x.len() as int, y.len() as int) =~= y.subrange(x.len() as int, y.len() as int));
}

/// A blob read back on its own: whatever run came before, it restores the file `f` and leaves
/// the run untouched.
pub open spec fn single_reads_back(f: Seq<u8>, blob: Seq<u8>) -> bool {
    forall|c: Option<Seq<u8>>, o: int| #[trigger] blob_restored(blob, f.len() as u64, c, o) == Some((f, c, o))
}

/// Files stored blob by blob come back in turn.
proof fn lemma_extract_singles(d: Seq<u8>, dir: Seq<DirEntry>, i: int, pos: int, c: Option<Seq<u8>>, o: int,
    pv: Seq<Seq<u8>>, dv: Seq<Seq<u8>>, seg: Seq<(usize, Seq<u8>)>, j: int)
    requires
        d.len() <= usize::MAX,
        dir_matches(dir, i, pv, dv, seg),
        0 <= j <= seg.len(),
        0 <= pos,
        pos + blob_bytes(seg, seg.len() as int).len() <= d.len(),
        d.subrange(pos, pos + blob_bytes(seg, seg.len() as int).len()) == blob_bytes(seg, seg.len() as int),
        forall|t: int| 0 <= t < seg.len() ==> single_reads_back(dv[(#[trigger] seg[t]).0 as int], seg[t].1),
    ensures
        extract_from(d, dir, i + j, pos + blob_bytes(seg, j).len(), c, o)
            == then_files(files_of(pv, dv, seg).subrange(j, seg.len() as int),
                extract_from(d, dir, i + seg.len(), pos + blob_bytes(seg, seg.len() as int).len(), c, o)),
    decreases seg.len() - j,
{
    let m = seg.len() as int;
    if j == m {
        let r = extract_from(d, dir, i + m, pos + blob_bytes(seg, m).len(), c, o);
        if r is Some {
            assert(files_of(pv, dv, seg).subrange(m, m) + r->0 =~= r->0);
        }
    } else {
        lemma_blob_at(d, pos, seg, j);
        lemma_blob_prefix(seg, j + 1, m);
        let e = dir[i + j];
        let bl = seg[j].1;
        let f = dv[seg[j].0 as int];
        let p = pos + blob_bytes(seg, j).len();
        assert(e == (pv[seg[j].0 as int], f.len() as u64, bl.len() as u64));
        assert((e.2 as usize) as int == bl.len());
        lemma_extract_step(d, dir, i + j, p, c, o);
        assert(d.subrange(p, p + bl.len()) == bl);
        assert(blob_restored(bl, f.len() as u64, c, o) == Some((f, c, o)));
        lemma_extract_singles(d, dir, i, pos, c, o, pv, dv, seg, j + 1);
        let rest = extract_from(d, dir, i + m, pos + blob_bytes(seg, m).len(), c, o);
        let fs = files_of(pv, dv, seg);
        assert(fs[j] == (e.0, e.1, f));
        if rest is Some {
            assert(seq![(e.0, e.1, f)] + (fs.subrange(j + 1, m) + rest->0) =~= fs.subrange(j, m) + rest->0);
        }
    }
}

proof fn lemma_sizes_bytes(datas: Seq<Seq<u8>>, idx: Seq<usize>)
    ensures
        sizes_bytes(datas, idx).len() == 8 * idx.len(),
        idx.len() >= 1 ==> sizes_bytes(datas, idx).subrange(0, 8) == le64(datas[idx[0] as int].len() as u64),
    decreases idx.len(),
{
    crate::bytes::lemma_le_lengths();
    if idx.len() > 0 {
        lemma_sizes_bytes(datas, idx.drop_last());
        let pre = sizes_bytes(datas, idx.drop_last());
        let last = le64(datas[idx.last() as int].len() as u64);
        if idx.len() == 1 {
            assert(pre =~= Seq::<u8>::empty());
            assert((pre + last).subrange(0, 8) =~= last);
        } else {
            assert((pre + last).subrange(0, 8) =~= pre.subrange(0, 8));
            assert(idx.drop_last()[0] == idx[0]);
        }
    }
}

proof fn lemma_concat_prefix(datas: Seq<Seq<u8>>, idx: Seq<usize>, a: int, b: int)
    requires
        0 <= a <= b <= idx.len(),
    ensures
        concat_of(datas, idx.take(a)).len() <= concat_of(datas, idx.take(b)).len(),
        concat_of(datas, idx.take(b)).subrange(0, concat_of(datas, idx.take(a)).len() as int) == concat_of(datas, idx.take(a)),
    decreases b,
{
    if a < b {
        lemma_concat_prefix(datas, idx, a, b - 1);
        lemma_concat_step(datas, idx, b - 1);
        let x = concat_of(datas, idx.take(b - 1));
        let y = concat_of(datas, idx.take(b));
        assert(y.subrange(0, x.len() as int) =~= x);
        assert(y.subrange(0, concat_of(datas, idx.take(a)).len() as int) =~= x.subrange(0, concat_of(datas, idx.take(a)).len() as int));
    } else {
        assert(concat_of(datas, idx.take(b)).subrange(0, concat_of(datas, idx.take(a)).len() as int) =~= concat_of(datas, idx.take(a)));
    }
}

/// A solid run's stream restores to its files' bytes, one after another (followed by anything).
pub open spec fn solid_reads_back(datas: Seq<Seq<u8>>, idx: Seq<usize>, st: Seq<u8>) -> bool {
    &&& concat_of(datas, idx).len() <= usize::MAX
    &&& solid_restored(st) matches Some(full) && full.len() >= concat_of(datas, idx).len()
        && full.subrange(0, concat_of(datas, idx).len() as int) == concat_of(datas, idx)
}

/// The fields of a solid run's head: the count, the first size and the stream.
proof fn lemma_head_fields(datas: Seq<Seq<u8>>, idx: Seq<usize>, st: Seq<u8>)
    requires
        1 <= idx.len() <= u32::MAX,
    ensures
        ({
            let m = idx.len() as int;
            let cd = seq![2u8] + le32(m as u32) + sizes_bytes(datas, idx) + st;
            &&& cd.len() >= 5
            &&& cd[0] == 2
            &&& min_int(u32_at(cd, 1) as int, (cd.len() - 5) / 8) == m
            &&& u64_at(cd, 5) == datas[idx[0] as int].len() as u64
            &&& cd.skip(5 + 8 * m) == st
        }),
{
    crate::bytes::lemma_le_lengths();
    let m = idx.len() as int;
    let sb = sizes_bytes(datas, idx);
    lemma_sizes_bytes(datas, idx);
    let cd = seq![2u8] + le32(m as u32) + sb + st;
    let f0 = datas[idx[0] as int];
    crate::bytes::lemma_u32_at(seq![2u8], m as u32, sb + st);
    assert(seq![2u8] + le32(m as u32) + (sb + st) =~= cd);
    assert(u32_at(cd, 1) as int == m);
    assert((cd.len() - 5) / 8 >= m);
    crate::bytes::lemma_u64_at(seq![2u8] + le32(m as u32), f0.len() as u64, sb.subrange(8, sb.len() as int) + st);
    assert(sb =~= sb.subrange(0, 8) + sb.subrange(8, sb.len() as int));
    assert(seq![2u8] + le32(m as u32) + le64(f0.len() as u64) + (sb.subrange(8, sb.len() as int) + st) =~= cd);
    assert(cd.skip(5 + 8 * m) =~= st);
}

/// The first file of a run is where the run's bytes begin.
proof fn lemma_concat_first(datas: Seq<Seq<u8>>, idx: Seq<usize>)
    requires
        1 <= idx.len(),
    ensures
        datas[idx[0] as int].len() <= concat_of(datas, idx).len(),
        concat_of(datas, idx).subrange(0, datas[idx[0] as int].len() as int) == datas[idx[0] as int],
{
    let m = idx.len() as int;
    lemma_concat_prefix(datas, idx, 1, m);
    lemma_concat_step(datas, idx, 0);
    assert(idx.take(0) =~= Seq::<usize>::empty());
    assert(concat_of(datas, idx.take(1)) =~= datas[idx[0] as int]);
    assert(idx.take(m) =~= idx);
}

/// The head of a solid run restores the run and gives its first file.
proof fn lemma_solid_head(datas: Seq<Seq<u8>>, idx: Seq<usize>, st: Seq<u8>, c: Option<Seq<u8>>, o: int)
    requires
        1 <= idx.len() <= u32::MAX,
        solid_reads_back(datas, idx, st),
    ensures
        blob_restored(seq![2u8] + le32(idx.len() as u32) + sizes_bytes(datas, idx) + st, datas[idx[0] as int].len() as u64, c, o)
            == Some((datas[idx[0] as int], solid_restored(st), datas[idx[0] as int].len() as int)),
{
    lemma_head_fields(datas, idx, st);
    lemma_concat_first(datas, idx);
    let cc = concat_of(datas, idx);
    let f0 = datas[idx[0] as int];
    let full = solid_restored(st)->0;
    assert(full.take(f0.len() as int) =~= full.subrange(0, cc.len() as int).subrange(0, f0.len() as int));
    assert((f0.len() as u64 as usize) as int == f0.len());
    reveal(blob_restored);
}

/// A later member of a solid run takes its bytes from the restored run.
proof fn lemma_solid_follower(datas: Seq<Seq<u8>>, idx: Seq<usize>, full: Seq<u8>, j: int)
    requires
        1 <= j < idx.len(),
        concat_of(datas, idx).len() <= usize::MAX,
        full.len() >= concat_of(datas, idx).len(),
        full.subrange(0, concat_of(datas, idx).len() as int) == concat_of(datas, idx),
    ensures
        blob_restored(seq![3u8], datas[idx[j] as int].len() as u64, Some(full), concat_of(datas, idx.take(j)).len() as int)
            == Some((datas[idx[j] as int], Some(full), concat_of(datas, idx.take(j + 1)).len() as int)),
{
    reveal(blob_restored);
    let m = idx.len() as int;
    lemma_concat_step(datas, idx, j);
    lemma_concat_prefix(datas, idx, j + 1, m);
    assert(idx.take(m) =~= idx);
    let a = concat_of(datas, idx.take(j));
    let b = concat_of(datas, idx.take(j + 1));
    let f = datas[idx[j] as int];
    assert(b == a + f);
    assert(full.subrange(a.len() as int, a.len() + f.len() as int) =~= b.subrange(a.len() as int, b.len() as int));
}

proof fn lemma_extract_followers(d: Seq<u8>, dir: Seq<DirEntry>, i: int, pos: int,
    pv: Seq<Seq<u8>>, dv: Seq<Seq<u8>>, seg: Seq<(usize, Seq<u8>)>, idx: Seq<usize>, full: Seq<u8>, j: int)
    requires
        d.len() <= usize::MAX,
        dir_matches(dir, i, pv, dv, seg),
        idx.len() == seg.len(),
        forall|t: int| 0 <= t < seg.len() ==> (#[trigger] seg[t]).0 == idx[t],
        forall|t: int| 1 <= t < seg.len() ==> (#[trigger] seg[t]).1 == seq![3u8],
        1 <= j <= seg.len(),
        0 <= pos,
        pos + blob_bytes(seg, seg.len() as int).len() <= d.len(),
        d.subrange(pos, pos + blob_bytes(seg, seg.len() as int).len()) == blob_bytes(seg, seg.len() as int),
        concat_of(dv, idx).len() <= usize::MAX,
        full.len() >= concat_of(dv, idx).len(),
        full.subrange(0, concat_of(dv, idx).len() as int) == concat_of(dv, idx),
    ensures
        extract_from(d, dir, i + j, pos + blob_bytes(seg, j).len(), Some(full), concat_of(dv, idx.take(j)).len() as int)
            == then_files(files_of(pv, dv, seg).subrange(j, seg.len() as int),
                extract_from(d, dir, i + seg.len(), pos + blob_bytes(seg, seg.len() as int).len(), Some(full), concat_of(dv, idx).len() as int)),
    decreases seg.len() - j,
{
    let m = seg.len() as int;
    assert(idx.take(m) =~= idx);
    if j == m {
        let r = extract_from(d, dir, i + m, pos + blob_bytes(seg, m).len(), Some(full), concat_of(dv, idx).len() as int);
        if r is Some {
            assert(files_of(pv, dv, seg).subrange(m, m) + r->0 =~= r->0);
        }
    } else {
        lemma_blob_at(d, pos, seg, j);
        let e = dir[i + j];
        let f = dv[seg[j].0 as int];
        let p = pos + blob_bytes(seg, j).len();
        let off = concat_of(dv, idx.take(j)).len() as int;
        assert(e == (pv[seg[j].0 as int], f.len() as u64, 1u64));
        lemma_extract_step(d, dir, i + j, p, Some(full), off);
        lemma_solid_follower(dv, idx, full, j);
        lemma_extract_followers(d, dir, i, pos, pv, dv, seg, idx, full, j + 1);
        let rest = extract_from(d, dir, i + m, pos + blob_bytes(seg, m).len(), Some(full), concat_of(dv, idx).len() as int);
        let fs = files_of(pv, dv, seg);
        if rest is Some {
            assert(seq![(e.0, e.1, f)] + (fs.subrange(j + 1, m) + rest->0) =~= fs.subrange(j, m) + rest->0);
        }
    }
}

/// The blobs of run `r` read back: blob by blob, or as a solid run whose stream restores.
pub open spec fn run_reads_back(dv: Seq<Seq<u8>>, r: Seq<usize>, blobs: Seq<Seq<u8>>) -> bool {
    ||| blobs.len() == r.len() && forall|j: int| 0 <= j < r.len() ==> single_reads_back(dv[r[j] as int], #[trigger] blobs[j])
    ||| r.len() >= 1 && exists|st: Seq<u8>| #[trigger] solid_reads_back(dv, r, st) && blobs == solid_blobs(dv, r, st)
}

/// `pairs` list, run after run, each file of `runs` with a blob, and every run reads back.
pub open spec fn pairs_read_back(dv: Seq<Seq<u8>>, runs: Seq<Seq<usize>>, pairs: Seq<(usize, Seq<u8>)>) -> bool
    decreases runs.len(),
{
    if runs.len() == 0 {
        pairs.len() == 0
    } else {
        let r = runs.last();
        let k = r.len() as int;
        let head = pairs.take(pairs.len() - k);
        let tail = pairs.skip(pairs.len() - k);
        &&& pairs.len() >= k
        &&& pairs_read_back(dv, runs.drop_last(), head)
        &&& forall|j: int| 0 <= j < k ==> (#[trigger] tail[j]).0 == r[j]
        &&& run_reads_back(dv, r, Seq::new(k as nat, |j: int| tail[j].1))
    }
}

proof fn lemma_then_concat(a: Seq<(Seq<u8>, u64, Seq<u8>)>, b: Seq<(Seq<u8>, u64, Seq<u8>)>, x: Option<Seq<(Seq<u8>, u64, Seq<u8>)>>)
    ensures
        then_files(a, then_files(b, x)) == then_files(a + b, x),
{
    if x is Some {
        assert(a + (b + x->0) =~= (a + b) + x->0);
    }
}

proof fn lemma_blob_split(pairs: Seq<(usize, Seq<u8>)>, a: int)
    requires
        0 <= a <= pairs.len(),
    ensures
        blob_bytes(pairs.take(a), a) == blob_bytes(pairs, a),
        blob_bytes(pairs, pairs.len() as int) == blob_bytes(pairs, a) + blob_bytes(pairs.skip(a), pairs.len() - a),
    decreases pairs.len(),
{
    lemma_blob_take(pairs, a, a);
    lemma_blob_skip(pairs, a, pairs.len() as int);
}

proof fn lemma_blob_take(pairs: Seq<(usize, Seq<u8>)>, a: int, k: int)
    requires
        0 <= k <= a <= pairs.len(),
    ensures
        blob_bytes(pairs.take(a), k) == blob_bytes(pairs, k),
    decreases k,
{
    if k > 0 {
        lemma_blob_take(pairs, a, k - 1);
    }
}

proof fn lemma_blob_skip(pairs: Seq<(usize, Seq<u8>)>, a: int, b: int)
    requires
        0 <= a <= b <= pairs.len(),
    ensures
        blob_bytes(pairs, b) == blob_bytes(pairs, a) + blob_bytes(pairs.skip(a), b - a),
    decreases b,
{
    if b > a {
        lemma_blob_skip(pairs, a, b - 1);
        assert(pairs.skip(a)[b - a - 1] == pairs[b - 1]);
        assert(blob_bytes(pairs, b) =~= blob_bytes(pairs, a) + blob_bytes(pairs.skip(a), b - a));
    } else {
        assert(blob_bytes(pairs, b) =~= blob_bytes(pairs, a) + blob_bytes(pairs.skip(a), 0));
    }
}

/// The files of one run come back, and the run leaves a state for the next.
proof fn lemma_extract_run(d: Seq<u8>, dir: Seq<DirEntry>, i: int, pos: int, c: Option<Seq<u8>>, o: int,
    pv: Seq<Seq<u8>>, dv: Seq<Seq<u8>>, seg: Seq<(usize, Seq<u8>)>, r: Seq<usize>) -> (st: (Option<Seq<u8>>, int))
    requires
        d.len() <= usize::MAX,
        dir_matches(dir, i, pv, dv, seg),
        r.len() == seg.len() <= u32::MAX,
        forall|t: int| 0 <= t < seg.len() ==> (#[trigger] seg[t]).0 == r[t],
        run_reads_back(dv, r, Seq::new(seg.len(), |j: int| seg[j].1)),
        0 <= pos,
        pos + blob_bytes(seg, seg.len() as int).len() <= d.len(),
        d.subrange(pos, pos + blob_bytes(seg, seg.len() as int).len()) == blob_bytes(seg, seg.len() as int),
    ensures
        extract_from(d, dir, i, pos, c, o)
            == then_files(files_of(pv, dv, seg), extract_from(d, dir, i + seg.len(), pos + blob_bytes(seg, seg.len() as int).len(), st.0, st.1)),
{
    let m = seg.len() as int;
    let blobs = Seq::new(seg.len(), |j: int| seg[j].1);
    let fs = files_of(pv, dv, seg);
    assert(fs.subrange(0, m) =~= fs);
    if blobs.len() == r.len() && forall|j: int| 0 <= j < r.len() ==> single_reads_back(dv[r[j] as int], #[trigger] blobs[j]) {
        assert forall|t: int| 0 <= t < seg.len() implies single_reads_back(dv[(#[trigger] seg[t]).0 as int], seg[t].1) by {
            assert(blobs[t] == seg[t].1);
        }
        lemma_extract_singles(d, dir, i, pos, c, o, pv, dv, seg, 0);
        (c, o)
    } else {
        let stm = choose|stm: Seq<u8>| #[trigger] solid_reads_back(dv, r, stm) && blobs == solid_blobs(dv, r, stm);
        let full = solid_restored(stm)->0;
        assert(seg[0].1 == blobs[0]);
        assert forall|t: int| 1 <= t < seg.len() implies (#[trigger] seg[t]).1 == seq![3u8] by {
            assert(blobs[t] == seg[t].1);
        }
        lemma_blob_at(d, pos, seg, 0);
        let e = dir[i];
        let f0 = dv[r[0] as int];
        assert(seg[0].0 == r[0]);
        assert(dir[i + 0] == (pv[seg[0].0 as int], dv[seg[0].0 as int].len() as u64, seg[0].1.len() as u64));
        assert(e == (pv[seg[0].0 as int], f0.len() as u64, seg[0].1.len() as u64));
        lemma_extract_step(d, dir, i, pos, c, o);
        lemma_solid_head(dv, r, stm, c, o);
        assert(d.subrange(pos, pos + seg[0].1.len()) == seg[0].1);
        lemma_concat_step(dv, r, 0);
        assert(r.take(0) =~= Seq::<usize>::empty());
        assert(concat_of(dv, r.take(1)) =~= f0);
        lemma_extract_followers(d, dir, i, pos, pv, dv, seg, r, full, 1);
        let rest = extract_from(d, dir, i + m, pos + blob_bytes(seg, m).len(), Some(full), concat_of(dv, r).len() as int);
        if rest is Some {
            assert(seq![(e.0, e.1, f0)] + (fs.subrange(1, m) + rest->0) =~= fs + rest->0);
        }
        (Some(full), concat_of(dv, r).len() as int)
    }
}

/// The files of all runs come back in order.
proof fn lemma_extract_runs(d: Seq<u8>, dir: Seq<DirEntry>, pos: int,
    pv: Seq<Seq<u8>>, dv: Seq<Seq<u8>>, runs: Seq<Seq<usize>>, pairs: Seq<(usize, Seq<u8>)>) -> (st: (Option<Seq<u8>>, int))
    requires
        d.len() <= usize::MAX,
        pairs.len() <= u32::MAX,
        dir_matches(dir, 0, pv, dv, pairs),
        pairs_read_back(dv, runs, pairs),
        0 <= pos,
        pos + blob_bytes(pairs, pairs.len() as int).len() <= d.len(),
        d.subrange(pos, pos + blob_bytes(pairs, pairs.len() as int).len()) == blob_bytes(pairs, pairs.len() as int),
    ensures
        extract_from(d, dir, 0, pos, None, 0)
            == then_files(files_of(pv, dv, pairs), extract_from(d, dir, pairs.len() as int, pos + blob_bytes(pairs, pairs.len() as int).len(), st.0, st.1)),
    decreases runs.len(),
{
    let n = pairs.len() as int;
    if runs.len() == 0 {
        let x = extract_from(d, dir, 0, pos, None::<Seq<u8>>, 0);
        if x is Some {
            assert(files_of(pv, dv, pairs) + x->0 =~= x->0);
        }
        (None, 0)
    } else {
        let r = runs.last();
        let k = r.len() as int;
        let head = pairs.take(n - k);
        let tail = pairs.skip(n - k);
        lemma_blob_split(pairs, n - k);
        let bh = blob_bytes(pairs, n - k);
        let bt = blob_bytes(tail, k);
        assert(d.subrange(pos, pos + bh.len()) =~= d.subrange(pos, pos + blob_bytes(pairs, n).len()).subrange(0, bh.len() as int));
        assert(d.subrange(pos + bh.len(), pos + bh.len() + bt.len()) =~= d.subrange(pos, pos + blob_bytes(pairs, n).len()).subrange(bh.len() as int, bh.len() + bt.len() as int));
        assert(dir_matches(dir, 0, pv, dv, head)) by {
            assert forall|j: int| 0 <= j < head.len() implies #[trigger] dir[0 + j]
                == (pv[head[j].0 as int], dv[head[j].0 as int].len() as u64, head[j].1.len() as u64) by {
                assert(head[j] == pairs[0 + j]);
            }
        }
        assert(dir_matches(dir, n - k, pv, dv, tail)) by {
            assert forall|j: int| 0 <= j < tail.len() implies #[trigger] dir[(n - k) + j]
                == (pv[tail[j].0 as int], dv[tail[j].0 as int].len() as u64, tail[j].1.len() as u64) by {
                assert(tail[j] == pairs[0 + (n - k + j)]);
            }
        }
        assert((bh + bt).subrange(0, bh.len() as int) =~= bh);
        assert((bh + bt).subrange(bh.len() as int, bh.len() + bt.len() as int) =~= bt);
        assert(d.subrange(pos, pos + bh.len()) == bh);
        assert(d.subrange(pos + bh.len(), pos + bh.len() + bt.len()) == bt);
        assert(head.len() == n - k);
        assert(tail.len() == k);
        assert(blob_bytes(head, head.len() as int) == bh);
        assert(blob_bytes(tail, tail.len() as int) == bt);
        let s1 = lemma_extract_runs(d, dir, pos, pv, dv, runs.drop_last(), head);
        let s2 = lemma_extract_run(d, dir, n - k, pos + bh.len(), s1.0, s1.1, pv, dv, tail, r);
        lemma_then_concat(files_of(pv, dv, head), files_of(pv, dv, tail),
            extract_from(d, dir, n, pos + blob_bytes(pairs, n).len(), s2.0, s2.1));
        assert(files_of(pv, dv, head) + files_of(pv, dv, tail) =~= files_of(pv, dv, pairs));
        s2
    }
}

/// Extracting an archive built from `pairs` gives back every file with its path and size, in
/// the order of `pairs`, when every run's blobs read back.
pub proof fn lemma_archive_roundtrip(pv: Seq<Seq<u8>>, dv: Seq<Seq<u8>>, runs: Seq<Seq<usize>>, pairs: Seq<(usize, Seq<u8>)>)
    requires
        paths_fit(pv, dv, pairs),
        pairs.len() <= u32::MAX,
        archive_bytes(pv, dv, pairs).len() <= usize::MAX,
        pairs_read_back(dv, runs, pairs),
    ensures
        extracted(archive_bytes(pv, dv, pairs)) == Some(Ok::<Seq<(Seq<u8>, u64, Seq<u8>)>, ArchiveError>(files_of(pv, dv, pairs))),
{
    let n = pairs.len() as int;
    let d = archive_bytes(pv, dv, pairs);
    lemma_archive_listing(pv, dv, pairs);
    crate::bytes::lemma_le_lengths();
    let dir = dir_view(pv, dv, pairs);
    let db = dir_bytes(pv, dv, pairs, n);
    let bb = blob_bytes(pairs, n);
    let pos: int = 10int + db.len();
    assert(d == archive_magic() + le16(ARCHIVE_VERSION) + le32(n as u32) + db + bb);
    assert(d.subrange(pos, pos + bb.len()) =~= bb);
    assert(dir_matches(dir, 0, pv, dv, pairs));
    let st = lemma_extract_runs(d, dir, pos, pv, dv, runs, pairs);
    lemma_extract_end(d, dir, n, pos + bb.len(), st.0, st.1);
    assert(files_of(pv, dv, pairs) + Seq::<(Seq<u8>, u64, Seq<u8>)>::empty() =~= files_of(pv, dv, pairs));
}

/// A chunked container blob (marker 1) decodes back to the file `d`.
pub open spec fn blob_container_ok(d: Seq<u8>, blob: Seq<u8>) -> bool {
    blob.len() > 0 && blob[0] == 1 ==> decompressed(blob.skip(1)) == Some(Ok::<Seq<u8>, DecompressError>(d))
}

/// A solid stream decodes back to the run's bytes `d` where it is a chunked container
/// (marker 6), and is not the bytes themselves that happen to be an xz stream of something
/// else (marker 5, when xz failed).
pub open spec fn stream_exact(d: Seq<u8>, st: Seq<u8>) -> bool {
    st.len() > 0 ==> {
        &&& st[0] == 6 ==> decompressed(st.skip(1)) == Some(Ok::<Seq<u8>, DecompressError>(d))
        &&& st[0] == 5 && st.skip(1) == d ==> entropy::xz_decompressed(d) is None || entropy::xz_decompressed(d) == Some(d)
    }
}

/// The containers of run `r`'s blobs decode back, and the run's bytes fit the address space.
pub open spec fn run_containers_ok(dv: Seq<Seq<u8>>, r: Seq<usize>, blobs: Seq<Seq<u8>>) -> bool {
    &&& concat_of(dv, r).len() <= usize::MAX
    &&& forall|j: int| 0 <= j < blobs.len() && j < r.len() ==> blob_container_ok(dv[r[j] as int], #[trigger] blobs[j])
    &&& r.len() >= 1 && blobs.len() >= 1 && blobs[0].len() > 0 && blobs[0][0] == 2
        ==> stream_exact(concat_of(dv, r), blobs[0].skip(5int + 8 * r.len()))
}

/// Every run of `pairs` has containers that decode back.
pub open spec fn containers_read_back(dv: Seq<Seq<u8>>, runs: Seq<Seq<usize>>, pairs: Seq<(usize, Seq<u8>)>) -> bool
    decreases runs.len(),
{
    if runs.len() == 0 {
        true
    } else {
        let r = runs.last();
        let k = r.len() as int;
        let tail = pairs.skip(pairs.len() - k);
        &&& containers_read_back(dv, runs.drop_last(), pairs.take(pairs.len() - k))
        &&& run_containers_ok(dv, r, Seq::new(k as nat, |j: int| tail[j].1))
    }
}

proof fn lemma_single_reads_back(d: Seq<u8>, level: u32, blob: Seq<u8>)
    requires
        single_blob_ok(d, level, blob),
        blob_container_ok(d, blob),
    ensures
        single_reads_back(d, blob),
{
    reveal(blob_restored);
    assert((seq![0u8] + d).skip(1) =~= d);
    if level >= 3 && d.len() > 4096 {
        let dl = lzma_level_encoded(delta_encoded(d), level);
        let l = lzma_level_encoded(d, level);
        assert((seq![8u8] + dl).skip(1) =~= dl);
        assert((seq![7u8] + l).skip(1) =~= l);
        delta::lemma_delta_roundtrip(d);
    } else {
        let c = choose|c: Seq<u8>| #[trigger] chunked_ok(d, level, c) && blob == (if c.len() < d.len() { seq![1u8] + c } else { seq![0u8] + d });
        assert((seq![1u8] + c).skip(1) =~= c);
    }
}

#[verifier::spinoff_prover]
#[verifier::rlimit(40)]
proof fn lemma_solid_stream_reads_back(dv: Seq<Seq<u8>>, r: Seq<usize>, level: u32, st: Seq<u8>)
    requires
        solid_stream_ok(concat_of(dv, r), level, st),
        stream_exact(concat_of(dv, r), st),
        concat_of(dv, r).len() <= usize::MAX,
    ensures
        solid_reads_back(dv, r, st),
{
    let d = concat_of(dv, r);
    let dl = lzma_level_encoded(delta_encoded(d), level);
    let l = lzma_level_encoded(d, level);
    assert((seq![4u8] + dl).skip(1) =~= dl);
    assert((seq![5u8] + l).skip(1) =~= l);
    if dl.len() < d.len() && delta_kept(d, dl, level) {
    } else if l.len() < d.len() || d.len() > MAX_INPUT {
        assert(d.subrange(0, d.len() as int) =~= d);
    } else {
        let c = choose|c: Seq<u8>| #[trigger] chunked_ok(d, level, c) && st == seq![6u8] + c;
        assert((seq![6u8] + c).skip(1) =~= c);
        assert(d.subrange(0, d.len() as int) =~= d);
    }
}

proof fn lemma_run_reads_back(dv: Seq<Seq<u8>>, r: Seq<usize>, level: u32, blobs: Seq<Seq<u8>>)
    requires
        run_ok(dv, r, level, blobs),
        run_containers_ok(dv, r, blobs),
        r.len() <= u32::MAX,
    ensures
        run_reads_back(dv, r, blobs),
{
    if r.len() == 0 {
    } else if r.len() == 1 {
        lemma_single_reads_back(dv[r[0] as int], level, blobs[0]);
    } else {
        let (first, st) = choose|first: Seq<u8>, st: Seq<u8>| {
            &&& #[trigger] single_blob_ok(dv[r[0] as int], level, first)
            &&& #[trigger] solid_stream_ok(concat_of(dv, r), level, st)
            &&& if st.len() + 5 + 8 * r.len() < first.len() * r.len() {
                blobs == solid_blobs(dv, r, st)
            } else {
                &&& blobs.len() == r.len()
                &&& forall|j: int| 0 <= j < r.len() ==> single_blob_ok(dv[r[j] as int], level, #[trigger] blobs[j])
            }
        };
        if st.len() + 5 + 8 * r.len() < first.len() * r.len() {
            lemma_head_fields(dv, r, st);
            let head = seq![2u8] + le32(r.len() as u32) + sizes_bytes(dv, r) + st;
            assert(blobs[0] == head);
            lemma_solid_stream_reads_back(dv, r, level, st);
        } else {
            assert forall|j: int| 0 <= j < r.len() implies single_reads_back(dv[r[j] as int], #[trigger] blobs[j]) by {
                lemma_single_reads_back(dv[r[j] as int], level, blobs[j]);
            }
        }
    }
}

proof fn lemma_pairs_read_back(dv: Seq<Seq<u8>>, runs: Seq<Seq<usize>>, level: u32, pairs: Seq<(usize, Seq<u8>)>)
    requires
        pairs_match(dv, runs, level, pairs),
        containers_read_back(dv, runs, pairs),
        pairs.len() <= u32::MAX,
    ensures
        pairs_read_back(dv, runs, pairs),
    decreases runs.len(),
{
    if runs.len() > 0 {
        let r = runs.last();
        let k = r.len() as int;
        let head = pairs.take(pairs.len() - k);
        let tail = pairs.skip(pairs.len() - k);
        lemma_pairs_read_back(dv, runs.drop_last(), level, head);
        lemma_run_reads_back(dv, r, level, Seq::new(k as nat, |j: int| tail[j].1));
    }
}

// ---------------------------------------------------------------------------------------------
// Every file is archived once
// ---------------------------------------------------------------------------------------------

/// The runs one after another.
pub open spec fn flat(rs: Seq<Seq<usize>>) -> Seq<usize>
    decreases rs.len(),
{
    if rs.len() == 0 { Seq::empty() } else { flat(rs.drop_last()) + rs.last() }
}

/// The file index of each pair.
pub open spec fn pair_files(pairs: Seq<(usize, Seq<u8>)>) -> Seq<usize> {
    Seq::new(pairs.len(), |k: int| pairs[k].0)
}

/// The positions `0 .. k`.
pub open spec fn positions(k: int) -> Seq<usize> {
    Seq::new(k as nat, |i: int| i as usize)
}

proof fn lemma_flat_concat(a: Seq<Seq<usize>>, b: Seq<Seq<usize>>)
    ensures
        flat(a + b) == flat(a) + flat(b),
    decreases b.len(),
{
    if b.len() == 0 {
        assert(a + b =~= a);
        assert(flat(a) + flat(b) =~= flat(a));
    } else {
        lemma_flat_concat(a, b.drop_last());
        assert((a + b).drop_last() =~= a + b.drop_last());
        assert(flat(a + b) =~= flat(a) + flat(b));
    }
}

proof fn lemma_flat_runs(keys: Seq<(u8, Seq<u8>)>, k: int)
    requires
        0 <= k,
    ensures
        flat(runs(keys, k)) == positions(k),
    decreases k,
{
    if k > 0 {
        lemma_flat_runs(keys, k - 1);
        let r = runs(keys, k - 1);
        let x = (k - 1) as usize;
        if k >= 2 && keys[k - 1] == keys[k - 2] {
            lemma_runs_nonempty(keys, k - 1);
            let nr = r.update(r.len() - 1, r.last().push(x));
            assert(nr.drop_last() =~= r.drop_last());
            assert(flat(nr) =~= flat(r) + seq![x]);
        } else {
            assert(r.push(seq![x]).drop_last() =~= r);
        }
        assert(positions(k) =~= positions(k - 1) + seq![x]);
    }
}

proof fn lemma_flat_split(group: Seq<usize>, sizes: Seq<int>, cap: int, k: int)
    requires
        0 <= k <= group.len(),
    ensures
        flat(split_fold(group, sizes, cap, k).0) + split_fold(group, sizes, cap, k).1 == group.take(k),
    decreases k,
{
    if k == 0 {
        assert(flat(Seq::<Seq<usize>>::empty()) + Seq::<usize>::empty() =~= group.take(0));
    } else {
        lemma_flat_split(group, sizes, cap, k - 1);
        let (res, cur, cs) = split_fold(group, sizes, cap, k - 1);
        let idx = group[k - 1];
        assert(group.take(k) =~= group.take(k - 1).push(idx));
        if cur.len() > 0 && cs + sizes[idx as int] > cap {
            assert(res.push(cur).drop_last() =~= res);
            assert(flat(res.push(cur)) + seq![idx] =~= group.take(k));
        } else {
            assert(flat(res) + cur.push(idx) =~= group.take(k));
        }
    }
}

proof fn lemma_flat_solid_runs(group: Seq<usize>, sizes: Seq<int>, cap: int)
    ensures
        flat(solid_runs(group, sizes, cap)) == group,
{
    lemma_flat_split(group, sizes, cap, group.len() as int);
    let (res, cur, _) = split_fold(group, sizes, cap, group.len() as int);
    assert(group.take(group.len() as int) =~= group);
    if cur.len() > 0 {
        assert(res.push(cur).drop_last() =~= res);
    } else {
        assert(flat(res) + cur =~= flat(res));
    }
}

proof fn lemma_flat_work_runs(groups: Seq<Seq<usize>>, sizes: Seq<int>, cap: int, g: int)
    requires
        0 <= g <= groups.len(),
    ensures
        flat(work_runs(groups, sizes, cap, g)) == flat(groups.take(g)),
    decreases g,
{
    if g == 0 {
        assert(groups.take(0) =~= Seq::<Seq<usize>>::empty());
    } else {
        lemma_flat_work_runs(groups, sizes, cap, g - 1);
        lemma_flat_concat(work_runs(groups, sizes, cap, g - 1), solid_runs(groups[g - 1], sizes, cap));
        lemma_flat_solid_runs(groups[g - 1], sizes, cap);
        assert(groups.take(g).drop_last() =~= groups.take(g - 1));
    }
}

proof fn lemma_flat_emap(wr: Seq<Seq<usize>>, order: Seq<usize>)
    ensures
        flat(Seq::new(wr.len(), |i: int| emap(wr[i], order)))
            == Seq::new(flat(wr).len(), |t: int| order[flat(wr)[t] as int]),
    decreases wr.len(),
{
    let m = Seq::new(wr.len(), |i: int| emap(wr[i], order));
    if wr.len() > 0 {
        let w0 = wr.drop_last();
        lemma_flat_emap(w0, order);
        assert(m.drop_last() =~= Seq::new(w0.len(), |i: int| emap(w0[i], order)));
        assert(flat(m) =~= Seq::new(flat(wr).len(), |t: int| order[flat(wr)[t] as int]));
    } else {
        assert(flat(m) =~= Seq::new(flat(wr).len(), |t: int| order[flat(wr)[t] as int]));
    }
}

proof fn lemma_pairs_flat(dv: Seq<Seq<u8>>, runs: Seq<Seq<usize>>, level: u32, pairs: Seq<(usize, Seq<u8>)>)
    requires
        pairs_match(dv, runs, level, pairs),
    ensures
        pair_files(pairs) == flat(runs),
    decreases runs.len(),
{
    if runs.len() > 0 {
        let r = runs.last();
        let k = r.len() as int;
        let head = pairs.take(pairs.len() - k);
        let tail = pairs.skip(pairs.len() - k);
        lemma_pairs_flat(dv, runs.drop_last(), level, head);
        assert(pair_files(pairs) =~= pair_files(head) + r) by {
            assert forall|t: int| pairs.len() - k <= t < pairs.len() implies #[trigger] pairs[t].0 == r[t - (pairs.len() - k)] by {
                assert(tail[t - (pairs.len() - k)] == pairs[t]);
            }
        }
    } else {
        assert(pair_files(pairs) =~= Seq::<usize>::empty());
    }
}

/// The archive records of the files `pv`/`dv`.
pub open spec fn archive_recs(pv: Seq<Seq<u8>>, dv: Seq<Seq<u8>>) -> Seq<Rec> {
    Seq::new(pv.len(), |i: int| (sort_key(pv[i], dv[i]).0, sort_key(pv[i], dv[i]).1, pv[i]))
}

/// The plan lists the files in archive order, one after another.
pub proof fn lemma_plan_order(pv: Seq<Seq<u8>>, dv: Seq<Seq<u8>>, level: u32)
    requires
        pv.len() == dv.len(),
        pv.len() <= usize::MAX,
    ensures
        flat(archive_plan(pv, dv, level)) == sorted_order(archive_recs(pv, dv), pv.len() as int),
{
    let n = pv.len() as int;
    let recs = archive_recs(pv, dv);
    let order = sorted_order(recs, n);
    lemma_sorted_order(recs, n);
    let skeys = Seq::new(n as nat, |p: int| sort_key(pv[order[p] as int], dv[order[p] as int]));
    let ssizes = Seq::new(n as nat, |p: int| dv[order[p] as int].len() as int);
    let groups = runs(skeys, n);
    let wr = work_runs(groups, ssizes, solid_cap(level) as int, groups.len() as int);
    assert(recs =~= Seq::new(n as nat, |i: int| (sort_key(pv[i], dv[i]).0, sort_key(pv[i], dv[i]).1, pv[i])));
    lemma_flat_work_runs(groups, ssizes, solid_cap(level) as int, groups.len() as int);
    assert(groups.take(groups.len() as int) =~= groups);
    lemma_flat_runs(skeys, n);
    lemma_flat_emap(wr, order);
    assert(archive_plan(pv, dv, level) == Seq::new(wr.len(), |i: int| emap(wr[i], order)));
    assert(flat(wr) == positions(n));
    assert(Seq::new(flat(wr).len(), |t: int| order[flat(wr)[t] as int]) =~= order);
}

/// The archive order lists each of the `n` files exactly once.
pub proof fn lemma_sorted_order_perm(recs: Seq<Rec>, n: int)
    requires
        0 <= n <= usize::MAX,
    ensures
        sorted_order(recs, n).len() == n,
        forall|j: int| 0 <= j < n ==> (#[trigger] sorted_order(recs, n)[j]) < n,
        forall|a: int, b: int| 0 <= a < b < n ==> #[trigger] sorted_order(recs, n)[a] != #[trigger] sorted_order(recs, n)[b],
        forall|i: int| 0 <= i < n ==> #[trigger] sorted_order(recs, n).contains(i as usize),
    decreases n,
{
    lemma_sorted_order(recs, n);
    if n > 0 {
        let o = sorted_order(recs, n - 1);
        lemma_sorted_order_perm(recs, n - 1);
        lemma_order_pos_range(recs, o, n - 1, 0);
        let p = order_pos(recs, o, n - 1, 0);
        let x = (n - 1) as usize;
        o.insert_ensures(p, x);
        let s = sorted_order(recs, n);
        assert(s == o.insert(p, x));
        assert forall|a: int, b: int| 0 <= a < b < n implies #[trigger] s[a] != #[trigger] s[b] by {
            let ia = if a < p { a } else if a == p { -1 } else { a - 1 };
            let ib = if b < p { b } else if b == p { -1 } else { b - 1 };
            if ia >= 0 {
                assert(s[a] == o[ia]);
                assert(o[ia] < n - 1);
            }
            if ib >= 0 {
                assert(s[b] == o[ib]);
                assert(o[ib] < n - 1);
            }
            if ia >= 0 && ib >= 0 {
                assert(ia < ib);
                assert(o[ia] != o[ib]);
            }
        }
        assert forall|i: int| 0 <= i < n implies #[trigger] s.contains(i as usize) by {
            if i == n - 1 {
                assert(s[p] == x);
            } else {
                assert(o.contains(i as usize));
                let j = choose|j: int| 0 <= j < o.len() && o[j] == i as usize;
                if j < p {
                    assert(s[j] == o[j]);
                } else {
                    assert(s[j + 1] == o[j]);
                }
            }
        }
    }
}

} // verus!
