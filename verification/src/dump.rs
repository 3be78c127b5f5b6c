//! Names and descriptions of the dumps that the dump display writes.
use crate::text;
use vstd::prelude::*;

verus! {

/// One frame to read back: its format, its layout in the buffer and its
/// number.
#[derive(Debug, Clone, Copy, PartialEq, Eq, Structural)]
pub struct Frame {
    pub fourcc: u32,
    pub modifier: u64,
    pub width: u32,
    pub height: u32,
    pub stride: u32,
    pub plane_offset: u32,
    pub size: u64,
    pub seq: u64,
}

impl Frame {
    /// How many bytes a row of pixels has, four to a pixel.
    pub open spec fn row_bytes(self) -> int {
        self.width * 4
    }

    /// How many bytes all pixels have, tightly packed.
    pub open spec fn packed_bytes(self) -> int {
        self.width * self.height * 4
    }
}

/// What the names of a frame's files have in common: the frame's number with
/// at least six digits, its fourcc and its modifier.
pub open spec fn dump_stem(f: Frame) -> Seq<char> {
    "consumer-"@ + text::zero_padded(text::digits(f.seq as nat, 10), 6) + seq!['-']
        + text::hex_text(f.fourcc as nat, 8) + seq!['-'] + text::hex_text(f.modifier as nat, 16)
}

fn stem(f: &Frame) -> (out: String)
    ensures
        out@ == dump_stem(*f),
{
    let mut out: String = "consumer-".to_owned();
    let number: String = text::show_padded(f.seq, 10, 6);
    let fourcc: String = text::show_hex(f.fourcc as u64, 8);
    let modifier: String = text::show_hex(f.modifier, 16);
    out.append(number.as_str());
    out.push('-');
    out.append(fourcc.as_str());
    out.push('-');
    out.append(modifier.as_str());
    assert(out@ =~= dump_stem(*f));
    out
}

/// The name of the file that holds a frame's pixels.
pub open spec fn dump_name(f: Frame) -> Seq<char> {
    dump_stem(f) + ".bin"@
}

/// The name of the file that describes a frame's dump.
pub open spec fn sidecar_name(f: Frame) -> Seq<char> {
    dump_stem(f) + ".json"@
}

/// Makes [`dump_name`].
pub fn dump_file_name(f: &Frame) -> (name: String)
    ensures
        name@ == dump_name(*f),
{
    let mut out: String = stem(f);
    out.append(".bin");
    out
}

/// Makes [`sidecar_name`].
pub fn sidecar_file_name(f: &Frame) -> (name: String)
    ensures
        name@ == sidecar_name(*f),
{
    let mut out: String = stem(f);
    out.append(".json");
    out
}

/// How a frame was read back.
#[derive(Debug, Clone, Copy, PartialEq, Eq, Structural)]
pub enum ImportPath {
    MmapLinear,
    VulkanCopyImageToBuffer,
}

/// The description of a dump.
#[derive(Debug)]
pub struct Sidecar {
    pub kind: String,
    pub seq: u64,
    pub fourcc: String,
    pub modifier: String,
    pub width: u32,
    pub height: u32,
    pub stride: u32,
    pub plane_offset: u32,
    pub size: u64,
    pub row_bytes: u64,
    pub row_count: u32,
    pub dump_layout: String,
    pub import_path: String,
}

/// What a description says: the frame, the number of bytes `size` that were
/// read, and how.
pub open spec fn describes(s: Sidecar, f: Frame, size: u64, path: ImportPath) -> bool {
    &&& s.kind@ == "consumer"@
    &&& s.seq == f.seq
    &&& s.fourcc@ == text::hex_text(f.fourcc as nat, 8)
    &&& s.modifier@ == text::hex_text(f.modifier as nat, 16)
    &&& s.width == f.width
    &&& s.height == f.height
    &&& s.stride == f.stride
    &&& s.plane_offset == f.plane_offset
    &&& s.size == size
    &&& s.row_bytes == f.row_bytes()
    &&& s.row_count == f.height
    &&& s.dump_layout@ == "tightly_packed_rgba8"@
    &&& s.import_path@ == match path {
        ImportPath::MmapLinear => "mmap_linear"@,
        ImportPath::VulkanCopyImageToBuffer => "vulkan_copy_image_to_buffer"@,
    }
}

/// Describes a dump.
pub fn sidecar(f: &Frame, size: u64, path: ImportPath) -> (s: Sidecar)
    ensures
        describes(s, *f, size, path),
{
    Sidecar {
        kind: "consumer".to_owned(),
        seq: f.seq,
        fourcc: text::show_hex(f.fourcc as u64, 8),
        modifier: text::show_hex(f.modifier, 16),
        width: f.width,
        height: f.height,
        stride: f.stride,
        plane_offset: f.plane_offset,
        size,
        row_bytes: f.width as u64 * 4,
        row_count: f.height,
        dump_layout: "tightly_packed_rgba8".to_owned(),
        import_path: match path {
            ImportPath::MmapLinear => "mmap_linear".to_owned(),
            ImportPath::VulkanCopyImageToBuffer => "vulkan_copy_image_to_buffer".to_owned(),
        },
    }
}

// ---------------------------------------------------------------------------
// Laws
// ---------------------------------------------------------------------------

proof fn lemma_hex_text_len(n: nat, width: nat)
    requires
        width >= 1,
        n < vstd::arithmetic::power::pow(16, width),
    ensures
        text::hex_text(n, width as int).len() == width + 2,
{
    text::lemma_digits_len(n, 16, width);
}

/// Numbers are told apart by their texts.
proof fn lemma_padded_injective(a: nat, b: nat, radix: nat, width: int)
    requires
        2 <= radix <= 16,
        text::zero_padded(text::digits(a, radix), width) == text::zero_padded(
            text::digits(b, radix),
            width,
        ),
    ensures
        a == b,
{
    text::lemma_digits(a, radix);
    text::lemma_digits(b, radix);
    text::lemma_zero_padded(text::digits(a, radix), width, radix as int);
    text::lemma_zero_padded(text::digits(b, radix), width, radix as int);
}

/// Two frames share a dump name only if they have the same number, fourcc and
/// modifier.
pub proof fn law_dump_names_tell_frames_apart(a: Frame, b: Frame)
    requires
        dump_stem(a) == dump_stem(b),
    ensures
        a.seq == b.seq,
        a.fourcc == b.fourcc,
        a.modifier == b.modifier,
{
    assert(vstd::arithmetic::power::pow(16, 8) == 0x1_0000_0000 && vstd::arithmetic::power::pow(
        16,
        16,
    ) == 0x1_0000_0000_0000_0000) by {
        reveal_with_fuel(vstd::arithmetic::power::pow, 17);
    }
    lemma_hex_text_len(a.fourcc as nat, 8);
    lemma_hex_text_len(b.fourcc as nat, 8);
    lemma_hex_text_len(a.modifier as nat, 16);
    lemma_hex_text_len(b.modifier as nat, 16);
    let s = dump_stem(a);
    let n = s.len() as int;
    let p = "consumer-"@;
    let k = p.len() as int;
    let (na, nb) = (
        text::zero_padded(text::digits(a.seq as nat, 10), 6),
        text::zero_padded(text::digits(b.seq as nat, 10), 6),
    );
    assert(na.len() == nb.len());
    assert(s.skip(n - 18) =~= text::hex_text(a.modifier as nat, 16));
    assert(s.skip(n - 18) =~= text::hex_text(b.modifier as nat, 16));
    assert(s.subrange(n - 29, n - 19) =~= text::hex_text(a.fourcc as nat, 8));
    assert(s.subrange(n - 29, n - 19) =~= text::hex_text(b.fourcc as nat, 8));
    assert(s.subrange(k, n - 30) =~= na);
    assert(s.subrange(k, n - 30) =~= nb);
    lemma_padded_injective(a.seq as nat, b.seq as nat, 10, 6);
    assert(text::hex_text(a.modifier as nat, 16).skip(2) =~= text::zero_padded(
        text::digits(a.modifier as nat, 16),
        16,
    ));
    assert(text::hex_text(b.modifier as nat, 16).skip(2) =~= text::zero_padded(
        text::digits(b.modifier as nat, 16),
        16,
    ));
    lemma_padded_injective(a.modifier as nat, b.modifier as nat, 16, 16);
    assert(text::hex_text(a.fourcc as nat, 8).skip(2) =~= text::zero_padded(
        text::digits(a.fourcc as nat, 16),
        8,
    ));
    assert(text::hex_text(b.fourcc as nat, 8).skip(2) =~= text::zero_padded(
        text::digits(b.fourcc as nat, 16),
        8,
    ));
    lemma_padded_injective(a.fourcc as nat, b.fourcc as nat, 16, 8);
}

/// The parts of a name can be read back: nine letters, the number of the frame
/// in decimal with at least six digits and no needless zero, and the fourcc and
/// the modifier in lower-case hexadecimal with eight and sixteen digits.
pub proof fn law_dump_name_spells_the_frame(f: Frame)
    ensures
        ({
            let s = dump_stem(f);
            let n = s.len() as int;
            &&& n >= 45
            &&& s.take(9) == "consumer-"@
            &&& text::all_digits(s.subrange(9, n - 30), 10)
            &&& text::value_of(s.subrange(9, n - 30), 10) == f.seq
            &&& n > 45 ==> s[9] != '0'
            &&& s[n - 30] == '-' && s[n - 29] == '0' && s[n - 28] == 'x'
            &&& text::all_digits(s.subrange(n - 27, n - 19), 16)
            &&& text::value_of(s.subrange(n - 27, n - 19), 16) == f.fourcc
            &&& s[n - 19] == '-' && s[n - 18] == '0' && s[n - 17] == 'x'
            &&& text::all_digits(s.skip(n - 16), 16)
            &&& text::value_of(s.skip(n - 16), 16) == f.modifier
        }),
{
    reveal_strlit("consumer-");
    assert(vstd::arithmetic::power::pow(16, 8) == 0x1_0000_0000 && vstd::arithmetic::power::pow(
        16,
        16,
    ) == 0x1_0000_0000_0000_0000) by {
        reveal_with_fuel(vstd::arithmetic::power::pow, 17);
    }
    lemma_hex_text_len(f.fourcc as nat, 8);
    lemma_hex_text_len(f.modifier as nat, 16);
    let number = text::digits(f.seq as nat, 10);
    let fourcc = text::digits(f.fourcc as nat, 16);
    let modifier = text::digits(f.modifier as nat, 16);
    text::lemma_digits(f.seq as nat, 10);
    text::lemma_digits(f.fourcc as nat, 16);
    text::lemma_digits(f.modifier as nat, 16);
    text::lemma_zero_padded(number, 6, 10);
    text::lemma_zero_padded(fourcc, 8, 16);
    text::lemma_zero_padded(modifier, 16, 16);
    text::law_digits_are_canonical(f.seq as nat, 10);
    let s = dump_stem(f);
    let n = s.len() as int;
    assert(s.take(9) =~= "consumer-"@);
    assert(s.subrange(9, n - 30) =~= text::zero_padded(number, 6));
    assert(s.subrange(n - 27, n - 19) =~= text::zero_padded(fourcc, 8));
    assert(s.skip(n - 16) =~= text::zero_padded(modifier, 16));
    if n > 45 {
        assert(text::zero_padded(number, 6) =~= number);
        assert(s[9] == s.subrange(9, n - 30)[0]);
    }
}

/// Rows have four bytes to a pixel, and so has the whole frame.
pub proof fn law_pixels_have_four_bytes(f: Frame)
    ensures
        f.row_bytes() == f.width + f.width + f.width + f.width,
        f.packed_bytes() == f.height * f.row_bytes(),
{
    assert(f.width * f.height * 4 == f.height * (f.width * 4)) by (nonlinear_arith);
}

/// A description repeats the frame's numbers, with the fourcc and the modifier
/// as texts that read back, and tells the two ways of reading apart.
pub proof fn law_sidecar_repeats_the_frame(s: Sidecar, f: Frame, size: u64, path: ImportPath)
    requires
        describes(s, f, size, path),
    ensures
        (s.seq, s.width, s.height, s.stride, s.plane_offset) == (
            f.seq,
            f.width,
            f.height,
            f.stride,
            f.plane_offset,
        ),
        s.size == size,
        s.row_bytes == f.width * 4,
        s.row_count == f.height,
        s.fourcc@.len() == 10 && s.fourcc@[0] == '0' && s.fourcc@[1] == 'x',
        text::all_digits(s.fourcc@.skip(2), 16) && text::value_of(s.fourcc@.skip(2), 16) == f.fourcc,
        s.modifier@.len() == 18 && s.modifier@[0] == '0' && s.modifier@[1] == 'x',
        text::all_digits(s.modifier@.skip(2), 16) && text::value_of(s.modifier@.skip(2), 16)
            == f.modifier,
        s.kind@ == "consumer"@ && s.dump_layout@ == "tightly_packed_rgba8"@,
        path is MmapLinear ==> s.import_path@ == "mmap_linear"@,
        path is VulkanCopyImageToBuffer ==> s.import_path@ == "vulkan_copy_image_to_buffer"@,
{
    assert(vstd::arithmetic::power::pow(16, 8) == 0x1_0000_0000 && vstd::arithmetic::power::pow(
        16,
        16,
    ) == 0x1_0000_0000_0000_0000) by {
        reveal_with_fuel(vstd::arithmetic::power::pow, 17);
    }
    lemma_hex_text_len(f.fourcc as nat, 8);
    lemma_hex_text_len(f.modifier as nat, 16);
    let fourcc = text::digits(f.fourcc as nat, 16);
    let modifier = text::digits(f.modifier as nat, 16);
    text::lemma_digits(f.fourcc as nat, 16);
    text::lemma_digits(f.modifier as nat, 16);
    text::lemma_zero_padded(fourcc, 8, 16);
    text::lemma_zero_padded(modifier, 16, 16);
    assert(s.fourcc@.skip(2) =~= text::zero_padded(fourcc, 8));
    assert(s.modifier@.skip(2) =~= text::zero_padded(modifier, 16));
}

/// The two files of a dump differ in their endings alone, and no file of one
/// frame has the name of a file of another.
pub proof fn law_files_of_a_dump_go_together(a: Frame, b: Frame)
    ensures
        ({
            let (pixels, words) = (dump_name(a), sidecar_name(a));
            let n = pixels.len() as int;
            &&& words.len() == n + 1
            &&& n >= 49
            &&& pixels.skip(n - 4) == ".bin"@
            &&& words.skip(n - 4) == ".json"@
            &&& pixels.take(n - 4) == words.take(n - 4)
            &&& pixels.take(n - 4) == dump_stem(a)
        }),
        dump_name(a) == dump_name(b) ==> (a.seq, a.fourcc, a.modifier) == (
            b.seq,
            b.fourcc,
            b.modifier,
        ),
        dump_name(a) != sidecar_name(b),
{
    reveal_strlit(".bin");
    reveal_strlit(".json");
    law_dump_name_spells_the_frame(a);
    let (pixels, words) = (dump_name(a), sidecar_name(a));
    let n = pixels.len() as int;
    assert(pixels.skip(n - 4) =~= ".bin"@);
    assert(words.skip(n - 4) =~= ".json"@);
    assert(pixels.take(n - 4) =~= dump_stem(a));
    assert(words.take(n - 4) =~= dump_stem(a));
    if dump_name(a) == dump_name(b) {
        assert(dump_name(b).take(n - 4) =~= dump_stem(b));
        law_dump_names_tell_frames_apart(a, b);
    }
    let other = sidecar_name(b);
    assert(pixels[n - 1] == 'n' && pixels[n - 2] == 'i');
    assert(other[other.len() - 1] == 'n' && other[other.len() - 2] == 'o');
}

} // verus!
