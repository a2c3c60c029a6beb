//! A TIFF file around fax-encoded image data.

use vstd::prelude::*;

verus! {

/// A 16-bit number, least significant byte first.
pub open spec fn le16(v: int) -> Seq<u8> {
    seq![(v % 256) as u8, (v / 256 % 256) as u8]
}

/// A 32-bit number, least significant byte first.
pub open spec fn le32(v: int) -> Seq<u8> {
    seq![
        (v % 256) as u8,
        (v / 256 % 256) as u8,
        (v / 65536 % 256) as u8,
        (v / 16777216 % 256) as u8,
    ]
}

/// One entry of the image directory: the tag, the type and the number of its
/// values, and the value itself.
pub open spec fn ifd_entry(tag: int, ftype: int, count: int, value: int) -> Seq<u8> {
    le16(tag) + le16(ftype) + le32(count) + le32(value)
}

/// Where the image data begins in the file.
pub const IMAGE_OFFSET: u32 = 122;

/// What the file holds before the image data: the header, that announces the
/// byte order and the directory, and the directory of nine entries.
pub open spec fn tiff_head(
    width: u32,
    height: u32,
    compression: u16,
    photometric: u16,
    byte_count: u32,
) -> Seq<u8> {
    seq![73u8, 73u8] + le16(42) + le32(8) + le16(9)
        + ifd_entry(0x0100, 4, 1, width as int)
        + ifd_entry(0x0101, 4, 1, height as int)
        + ifd_entry(0x0102, 3, 1, 1)
        + ifd_entry(0x0103, 3, 1, compression as int)
        + ifd_entry(0x0106, 3, 1, photometric as int)
        + ifd_entry(0x0111, 4, 1, IMAGE_OFFSET as int)
        + ifd_entry(0x0115, 3, 1, 1)
        + ifd_entry(0x0116, 4, 1, height as int)
        + ifd_entry(0x0117, 4, 1, byte_count as int)
        + le32(0)
}

/// A TIFF file with a single image of one bit per pixel, in a single strip.
pub open spec fn tiff(
    width: u32,
    height: u32,
    compression: u16,
    photometric: u16,
    content: Seq<u8>,
) -> Seq<u8> {
    tiff_head(width, height, compression, photometric, content.len() as u32) + content
}

/// Appends a 16-bit number, least significant byte first.
fn push_u16(buf: &mut Vec<u8>, v: u16)
    ensures
        final(buf)@ == old(buf)@ + le16(v as int),
{
    let ghost before = buf@;
    buf.push((v % 256) as u8);
    buf.push((v / 256) as u8);
    assert(buf@ =~= before + le16(v as int));
}

/// Appends a 32-bit number, least significant byte first.
fn push_u32(buf: &mut Vec<u8>, v: u32)
    ensures
        final(buf)@ == old(buf)@ + le32(v as int),
{
    let ghost before = buf@;
    buf.push((v % 256) as u8);
    buf.push((v / 256 % 256) as u8);
    buf.push((v / 65536 % 256) as u8);
    buf.push((v / 16777216) as u8);
    assert(buf@ =~= before + le32(v as int));
}

/// Appends one entry of the image directory.
pub fn push_ifd_entry(buf: &mut Vec<u8>, tag: u16, ftype: u16, count: u32, value: u32)
    ensures
        final(buf)@ == old(buf)@ + ifd_entry(
            tag as int,
            ftype as int,
            count as int,
            value as int,
        ),
{
    let ghost before = buf@;
    push_u16(buf, tag);
    push_u16(buf, ftype);
    push_u32(buf, count);
    push_u32(buf, value);
    assert(buf@ =~= before + ifd_entry(tag as int, ftype as int, count as int, value as int));
}

/// Makes a TIFF file with a single image of one bit per pixel, in a single strip.
pub fn build_tiff(width: u32, height: u32, compression: u16, photometric: u16, content: &[u8]) -> (r:
    Vec<u8>)
    ensures
        r@ == tiff(width, height, compression, photometric, content@),
{
    let byte_count: u32 = #[verifier::truncate] (content.len() as u32);
    let mut buf: Vec<u8> = Vec::new();
    buf.push(73);
    buf.push(73);
    assert(buf@ =~= seq![73u8, 73u8]);
    push_u16(&mut buf, 42);
    push_u32(&mut buf, 8);
    push_u16(&mut buf, 9);
    push_ifd_entry(&mut buf, 0x0100, 4, 1, width);
    push_ifd_entry(&mut buf, 0x0101, 4, 1, height);
    push_ifd_entry(&mut buf, 0x0102, 3, 1, 1);
    push_ifd_entry(&mut buf, 0x0103, 3, 1, compression as u32);
    push_ifd_entry(&mut buf, 0x0106, 3, 1, photometric as u32);
    push_ifd_entry(&mut buf, 0x0111, 4, 1, IMAGE_OFFSET);
    push_ifd_entry(&mut buf, 0x0115, 3, 1, 1);
    push_ifd_entry(&mut buf, 0x0116, 4, 1, height);
    push_ifd_entry(&mut buf, 0x0117, 4, 1, byte_count);
    push_u32(&mut buf, 0);
    buf.extend_from_slice(content);
    assert(buf@ =~= tiff(width, height, compression, photometric, content@));
    buf
}

/// What is appended leaves the parts before it as they are.
proof fn lemma_part(whole: Seq<u8>, more: Seq<u8>, from: int, to: int)
    requires
        0 <= from <= to <= whole.len(),
    ensures
        (whole + more).subrange(from, to) == whole.subrange(from, to),
        (whole + more).len() == whole.len() + more.len(),
{
    assert((whole + more).subrange(from, to) =~= whole.subrange(from, to));
}

/// What is appended last is the last part.
proof fn lemma_last_part(whole: Seq<u8>, more: Seq<u8>)
    ensures
        (whole + more).subrange(whole.len() as int, (whole.len() + more.len()) as int) == more,
        (whole + more).len() == whole.len() + more.len(),
{
    assert((whole + more).subrange(whole.len() as int, (whole.len() + more.len()) as int) =~= more);
}

/// The image data stands where the directory says that it begins, unchanged, and
/// reaches to the end of the file.
pub proof fn law_tiff_holds_the_data(
    width: u32,
    height: u32,
    compression: u16,
    photometric: u16,
    content: Seq<u8>,
)
    ensures
        ({
            let file = tiff(width, height, compression, photometric, content);
            &&& file.len() == IMAGE_OFFSET + content.len()
            &&& file.subrange(IMAGE_OFFSET as int, file.len() as int) == content
            &&& file.subrange(70, 82) == ifd_entry(0x0111, 4, 1, IMAGE_OFFSET as int)
        }),
{
    let s0 = seq![73u8, 73u8] + le16(42) + le32(8) + le16(9);
    let s1 = s0 + ifd_entry(0x0100, 4, 1, width as int);
    let s2 = s1 + ifd_entry(0x0101, 4, 1, height as int);
    let s3 = s2 + ifd_entry(0x0102, 3, 1, 1);
    let s4 = s3 + ifd_entry(0x0103, 3, 1, compression as int);
    let s5 = s4 + ifd_entry(0x0106, 3, 1, photometric as int);
    let offset = ifd_entry(0x0111, 4, 1, IMAGE_OFFSET as int);
    let s6 = s5 + offset;
    let s7 = s6 + ifd_entry(0x0115, 3, 1, 1);
    let s8 = s7 + ifd_entry(0x0116, 4, 1, height as int);
    let s9 = s8 + ifd_entry(0x0117, 4, 1, content.len() as u32 as int);
    let head = s9 + le32(0);
    assert(s0.len() == 10);
    assert(s5.len() == 70);
    lemma_last_part(s5, offset);
    lemma_part(s6, ifd_entry(0x0115, 3, 1, 1), 70, 82);
    lemma_part(s7, ifd_entry(0x0116, 4, 1, height as int), 70, 82);
    lemma_part(s8, ifd_entry(0x0117, 4, 1, content.len() as u32 as int), 70, 82);
    lemma_part(s9, le32(0), 70, 82);
    lemma_part(head, content, 70, 82);
    lemma_last_part(head, content);
    assert(head == tiff_head(width, height, compression, photometric, content.len() as u32));
}

/// The 16-bit number that stands at an offset of a file, least significant byte first.
pub open spec fn read16(file: Seq<u8>, at: int) -> int {
    file[at] + 256 * file[at + 1]
}

/// The 32-bit number that stands at an offset of a file, least significant byte first.
pub open spec fn read32(file: Seq<u8>, at: int) -> int {
    file[at] + 256 * file[at + 1] + 65536 * file[at + 2] + 16777216 * file[at + 3]
}

/// The bytes of a 16-bit number make it up.
proof fn lemma_le16(v: int)
    requires
        0 <= v < 0x1_0000,
    ensures
        le16(v).len() == 2,
        le16(v)[0] + 256 * le16(v)[1] == v,
{
}

/// The bytes of a 32-bit number make it up.
proof fn lemma_le32(v: int)
    requires
        0 <= v < 0x1_0000_0000,
    ensures
        le32(v).len() == 4,
        le32(v)[0] + 256 * le32(v)[1] + 65536 * le32(v)[2] + 16777216 * le32(v)[3] == v,
{
}

/// The numbers of a directory entry, read back from where it stands.
proof fn lemma_entry_is_read(file: Seq<u8>, at: int, tag: int, ftype: int, count: int, value: int)
    requires
        0 <= at <= file.len() - 12,
        file.subrange(at, at + 12) == ifd_entry(tag, ftype, count, value),
        0 <= tag < 0x1_0000,
        0 <= ftype < 0x1_0000,
        0 <= count < 0x1_0000_0000,
        0 <= value < 0x1_0000_0000,
    ensures
        read16(file, at) == tag,
        read16(file, at + 2) == ftype,
        read32(file, at + 4) == count,
        read32(file, at + 8) == value,
{
    let entry = file.subrange(at, at + 12);
    let (t, f, c, v) = (le16(tag), le16(ftype), le32(count), le32(value));
    lemma_le16(tag);
    lemma_le16(ftype);
    lemma_le32(count);
    lemma_le32(value);
    assert(entry == t + f + c + v);
    assert(entry.subrange(0, 2) =~= t);
    assert(entry.subrange(2, 4) =~= f);
    assert(entry.subrange(4, 8) =~= c);
    assert(entry.subrange(8, 12) =~= v);
    assert(file[at] == t[0] && file[at + 1] == t[1]);
    assert(file[at + 2] == f[0] && file[at + 3] == f[1]);
    assert(file[at + 4] == c[0] && file[at + 5] == c[1] && file[at + 6] == c[2] && file[at + 7]
        == c[3]);
    assert(file[at + 8] == v[0] && file[at + 9] == v[1] && file[at + 10] == v[2] && file[at + 11]
        == v[3]);
}

/// The directory of a file begins at offset 8 and has nine entries of twelve bytes. By the tags
/// that stand in them they tell the width, the height, one bit per sample, the compression, the
/// photometric interpretation, where the data begins, one sample per pixel, all rows in one
/// strip, and how many bytes the data takes. The data stands where they say, and ends the file.
pub proof fn law_tiff_directory_is_read_back(
    width: u32,
    height: u32,
    compression: u16,
    photometric: u16,
    content: Seq<u8>,
)
    requires
        content.len() <= u32::MAX,
    ensures
        ({
            let file = tiff(width, height, compression, photometric, content);
            &&& file[0] == 73 && file[1] == 73 && read16(file, 2) == 42 && read32(file, 4) == 8
            &&& read16(file, 8) == 9 && read32(file, 118) == 0
            &&& read16(file, 10) == 0x0100 && read16(file, 12) == 4 && read32(file, 14) == 1
                && read32(file, 18) == width
            &&& read16(file, 22) == 0x0101 && read16(file, 24) == 4 && read32(file, 26) == 1
                && read32(file, 30) == height
            &&& read16(file, 34) == 0x0102 && read16(file, 36) == 3 && read32(file, 38) == 1
                && read32(file, 42) == 1
            &&& read16(file, 46) == 0x0103 && read16(file, 48) == 3 && read32(file, 50) == 1
                && read32(file, 54) == compression
            &&& read16(file, 58) == 0x0106 && read16(file, 60) == 3 && read32(file, 62) == 1
                && read32(file, 66) == photometric
            &&& read16(file, 70) == 0x0111 && read16(file, 72) == 4 && read32(file, 74) == 1
                && read32(file, 78) == 122
            &&& read16(file, 82) == 0x0115 && read16(file, 84) == 3 && read32(file, 86) == 1
                && read32(file, 90) == 1
            &&& read16(file, 94) == 0x0116 && read16(file, 96) == 4 && read32(file, 98) == 1
                && read32(file, 102) == height
            &&& read16(file, 106) == 0x0117 && read16(file, 108) == 4 && read32(file, 110) == 1
                && read32(file, 114) == content.len()
            &&& file.subrange(122, file.len() as int) == content
            &&& file.len() == 122 + content.len()
        }),
{
    let file = tiff(width, height, compression, photometric, content);
    let s0 = seq![73u8, 73u8] + le16(42) + le32(8) + le16(9);
    let e0 = ifd_entry(0x0100, 4, 1, width as int);
    let e1 = ifd_entry(0x0101, 4, 1, height as int);
    let e2 = ifd_entry(0x0102, 3, 1, 1);
    let e3 = ifd_entry(0x0103, 3, 1, compression as int);
    let e4 = ifd_entry(0x0106, 3, 1, photometric as int);
    let e5 = ifd_entry(0x0111, 4, 1, IMAGE_OFFSET as int);
    let e6 = ifd_entry(0x0115, 3, 1, 1);
    let e7 = ifd_entry(0x0116, 4, 1, height as int);
    let e8 = ifd_entry(0x0117, 4, 1, content.len() as int);
    let end = le32(0);
    assert(file == s0 + e0 + e1 + e2 + e3 + e4 + e5 + e6 + e7 + e8 + end + content);
    assert(s0.len() == 10 && end.len() == 4);
    assert(e0.len() == 12 && e1.len() == 12 && e2.len() == 12 && e3.len() == 12 && e4.len() == 12);
    assert(e5.len() == 12 && e6.len() == 12 && e7.len() == 12 && e8.len() == 12);
    assert(file.subrange(0, 10) =~= s0);
    assert(forall|i: int| 0 <= i < 10 ==> #[trigger] file.subrange(0, 10)[i] == file[i]);
    assert(s0[0] == 73 && s0[1] == 73 && s0[2] == 42 && s0[3] == 0 && s0[4] == 8 && s0[5] == 0
        && s0[6] == 0 && s0[7] == 0 && s0[8] == 9 && s0[9] == 0);
    assert(file.subrange(118, 122) =~= end);
    assert(forall|i: int| 0 <= i < 4 ==> #[trigger] file.subrange(118, 122)[i] == file[118 + i]);
    assert(end[0] == 0 && end[1] == 0 && end[2] == 0 && end[3] == 0);
    assert(file.subrange(10, 22) =~= e0);
    assert(file.subrange(22, 34) =~= e1);
    assert(file.subrange(34, 46) =~= e2);
    assert(file.subrange(46, 58) =~= e3);
    assert(file.subrange(58, 70) =~= e4);
    assert(file.subrange(70, 82) =~= e5);
    assert(file.subrange(82, 94) =~= e6);
    assert(file.subrange(94, 106) =~= e7);
    assert(file.subrange(106, 118) =~= e8);
    assert(file.subrange(122, file.len() as int) =~= content);
    lemma_entry_is_read(file, 10, 0x0100, 4, 1, width as int);
    lemma_entry_is_read(file, 22, 0x0101, 4, 1, height as int);
    lemma_entry_is_read(file, 34, 0x0102, 3, 1, 1);
    lemma_entry_is_read(file, 46, 0x0103, 3, 1, compression as int);
    lemma_entry_is_read(file, 58, 0x0106, 3, 1, photometric as int);
    lemma_entry_is_read(file, 70, 0x0111, 4, 1, IMAGE_OFFSET as int);
    lemma_entry_is_read(file, 82, 0x0115, 3, 1, 1);
    lemma_entry_is_read(file, 94, 0x0116, 4, 1, height as int);
    lemma_entry_is_read(file, 106, 0x0117, 4, 1, content.len() as int);
}

} // verus!
