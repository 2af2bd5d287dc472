//! Decoding of the animation container byte stream and assembly of the
//! output buffers handed back to the host.

use vstd::prelude::*;
use vstd::slice::slice_subrange;
use vstd::slice::slice_to_vec;
use vstd::arithmetic::mul::lemma_mul_inequality;
use vstd::arithmetic::mul::lemma_mul_is_distributive_add_other_way;
use vstd::arithmetic::mul::lemma_mul_nonnegative;

verus! {

/// Errors of the engine, one variant per failure class.
#[derive(Clone, Copy, Debug, PartialEq, Eq, Structural)]
pub enum AnimError {
    /// Bad magic tag, truncated stream, or declared lengths the machine
    /// cannot hold.
    MalformedContainer,
    /// A frame or image index points outside the table or atlas.
    IndexOutOfRange,
    /// The destination buffer is shorter than the assembled output.
    BufferTooSmall,
}

/// One entry of the frame table: which image slice a playback position shows.
#[derive(Clone, Copy, Debug, PartialEq, Eq, Structural)]
pub struct FrameData {
    pub keyframe_num: u32,
    pub image_index: u32,
}

/// Decoded animation container, immutable after parsing.
pub struct AnimationBNTX {
    pub version_major: u32,
    pub version_minor: u32,
    /// 0 means independent playback; equal non-zero values synchronize.
    pub group_number: u32,
    pub frame_count: u32,
    /// Stored flag; 1 enables looping.
    pub loop_animation: u32,
    /// Number of allowed loop re-entries; -1 means unlimited.
    pub loop_count: i32,
    pub starting_frame_loop: u32,
    pub ending_frame_loop: u32,
    pub relocation_table_size: u32,
    pub image_data_count: u32,
    pub image_data_size: u32,
    /// Raw bits of the stored 32-bit frame rate; the caller converts them
    /// to a tick period, since the library holds no floating point.
    pub frame_rate_bits: u32,
    pub frame_datas: Vec<FrameData>,
    pub bntx_template_header: Vec<u8>,
    pub bntx_template_footer: Vec<u8>,
    pub image_datas: Vec<u8>,
}

/// Little-endian value of four bytes.
pub open spec fn le_bytes_to_u32(s: Seq<u8>) -> u32
    recommends
        s.len() == 4,
{
    (s[0] as u32) | ((s[1] as u32) << 8) | ((s[2] as u32) << 16) | ((s[3] as u32) << 24)
}

/// Little-endian value of the four bytes at `off`.
pub open spec fn le32_at(s: Seq<u8>, off: int) -> u32
    recommends
        0 <= off,
        off + 4 <= s.len(),
{
    le_bytes_to_u32(s.subrange(off, off + 4))
}

/// Length of the fixed part of the container: the 8-byte magic tag plus
/// twelve 4-byte fields.
pub open spec fn spec_fixed_len() -> int {
    56
}

/// Length of the fixed template header block every container carries.
pub open spec fn spec_template_header_len() -> int {
    4096
}

/// The magic tag bytes, `AnimBNTX` in ASCII.
pub open spec fn spec_magic() -> Seq<u8> {
    seq![0x41u8, 0x6eu8, 0x69u8, 0x6du8, 0x42u8, 0x4eu8, 0x54u8, 0x58u8]
}

pub open spec fn spec_magic_ok(s: Seq<u8>) -> bool {
    s.len() >= 8 && s.subrange(0, 8) == spec_magic()
}

/// Total stream length the declared sizes require.
pub open spec fn spec_required_len(s: Seq<u8>) -> int
    recommends
        s.len() >= spec_fixed_len(),
{
    spec_fixed_len() + 8 * (le32_at(s, 20) as int) + spec_template_header_len() + (le32_at(
        s,
        40,
    ) as int) + (le32_at(s, 44) as int) * (le32_at(s, 48) as int)
}

/// A stream parses successfully exactly when the magic tag matches, the
/// stream is at least as long as the declared lengths require, and one
/// assembled output buffer fits in a machine size.
pub open spec fn spec_container_ok(s: Seq<u8>) -> bool {
    &&& s.len() >= spec_fixed_len()
    &&& spec_magic_ok(s)
    &&& s.len() >= spec_required_len(s)
    &&& spec_template_header_len() + (le32_at(s, 48) as int) + (le32_at(s, 40) as int)
        <= usize::MAX as int
}

impl AnimationBNTX {
    /// Internal consistency: every variable-length block has exactly the
    /// length the numeric fields declare, and one output buffer fits in a
    /// machine size.
    pub open spec fn wf(self) -> bool {
        &&& self.frame_datas@.len() == self.frame_count as int
        &&& self.bntx_template_header@.len() == spec_template_header_len()
        &&& self.bntx_template_footer@.len() == self.relocation_table_size as int
        &&& self.image_datas@.len() == (self.image_data_count as int) * (
        self.image_data_size as int)
        &&& spec_template_header_len() + self.image_data_size as int
            + self.bntx_template_footer@.len() <= usize::MAX as int
    }

    /// The bytes of image slice `i`: the half-open range
    /// `[i * image_data_size, (i + 1) * image_data_size)` of the atlas.
    pub open spec fn spec_image_slice(self, i: int) -> Seq<u8> {
        self.image_datas@.subrange(
            i * (self.image_data_size as int),
            (i + 1) * (self.image_data_size as int),
        )
    }

    /// Length of every assembled output buffer for this container.
    pub open spec fn spec_output_size(self) -> int {
        spec_template_header_len() + self.image_data_size as int
            + self.bntx_template_footer@.len()
    }
}

/// The numeric fields and variable-length blocks of `a` are exactly those
/// that the byte stream `s` declares and carries.
pub open spec fn spec_parses_to(s: Seq<u8>, a: AnimationBNTX) -> bool {
    let fc = le32_at(s, 20) as int;
    let reloc = le32_at(s, 40) as int;
    let cnt = le32_at(s, 44) as int;
    let sz = le32_at(s, 48) as int;
    let hdr_off = spec_fixed_len() + 8 * fc;
    let foot_off = hdr_off + spec_template_header_len();
    let atlas_off = foot_off + reloc;
    &&& a.version_major == le32_at(s, 8)
    &&& a.version_minor == le32_at(s, 12)
    &&& a.group_number == le32_at(s, 16)
    &&& a.frame_count == le32_at(s, 20)
    &&& a.loop_animation == le32_at(s, 24)
    &&& a.loop_count == le32_at(s, 28) as i32
    &&& a.starting_frame_loop == le32_at(s, 32)
    &&& a.ending_frame_loop == le32_at(s, 36)
    &&& a.relocation_table_size == le32_at(s, 40)
    &&& a.image_data_count == le32_at(s, 44)
    &&& a.image_data_size == le32_at(s, 48)
    &&& a.frame_rate_bits == le32_at(s, 52)
    &&& a.frame_datas@.len() == fc
    &&& forall|j: int|
        0 <= j < fc ==> (#[trigger] a.frame_datas@[j]) == (FrameData {
            keyframe_num: le32_at(s, 56 + 8 * j),
            image_index: le32_at(s, 60 + 8 * j),
        })
    &&& a.bntx_template_header@ == s.subrange(hdr_off, hdr_off + spec_template_header_len())
    &&& a.bntx_template_footer@ == s.subrange(foot_off, foot_off + reloc)
    &&& a.image_datas@ == s.subrange(atlas_off, atlas_off + cnt * sz)
}

/// Reads the little-endian 32-bit value at byte offset `off`.
pub fn read_u32_le(data: &Vec<u8>, off: usize) -> (r: u32)
    requires
        off + 4 <= data.len(),
    ensures
        r == le32_at(data@, off as int),
{
    let b0 = data[off];
    let b1 = data[off + 1];
    let b2 = data[off + 2];
    let b3 = data[off + 3];
    proof {
        let s = data@.subrange(off as int, off as int + 4);
        assert(s[0] == b0 && s[1] == b1 && s[2] == b2 && s[3] == b3);
    }
    (b0 as u32) | ((b1 as u32) << 8) | ((b2 as u32) << 16) | ((b3 as u32) << 24)
}

/// Decodes one container byte stream.  Succeeds exactly on the streams
/// `spec_container_ok` admits: magic tag present, every declared block in
/// range, and an assembled output no larger than a machine size; any other
/// stream is reported as malformed.
pub fn parse_animation_bntx(data: &Vec<u8>) -> (r: Result<AnimationBNTX, AnimError>)
    ensures
        r is Ok <==> spec_container_ok(data@),
        r matches Ok(a) ==> a.wf() && spec_parses_to(data@, a),
        r matches Err(e) ==> e == AnimError::MalformedContainer,
{
    if data.len() < 56 {
        return Err(AnimError::MalformedContainer);
    }
    let magic_ok = data[0] == 0x41 && data[1] == 0x6e && data[2] == 0x69 && data[3] == 0x6d
        && data[4] == 0x42 && data[5] == 0x4e && data[6] == 0x54 && data[7] == 0x58;
    proof {
        if magic_ok {
            assert(data@.subrange(0, 8) =~= spec_magic());
        } else {
            if data@.subrange(0, 8) == spec_magic() {
                assert(forall|k: int|
                    0 <= k < 8 ==> data@[k] == #[trigger] data@.subrange(0, 8)[k]);
            }
        }
    }
    if !magic_ok {
        return Err(AnimError::MalformedContainer);
    }
    let frame_count = read_u32_le(data, 20);
    let reloc = read_u32_le(data, 40);
    let img_count = read_u32_le(data, 44);
    let img_size = read_u32_le(data, 48);
    proof {
        lemma_mul_inequality(img_count as int, 0xffff_ffff, img_size as int);
    }
    let atlas_bytes: u128 = (img_count as u128) * (img_size as u128);
    let required: u128 = 56 + 8 * (frame_count as u128) + 4096 + (reloc as u128) + atlas_bytes;
    if (data.len() as u128) < required {
        return Err(AnimError::MalformedContainer);
    }
    let out_size: u128 = 4096 + (img_size as u128) + (reloc as u128);
    if out_size > (usize::MAX as u128) {
        return Err(AnimError::MalformedContainer);
    }
    let fc_us = frame_count as usize;
    proof {
        assert(atlas_bytes as int == (img_count as int) * (img_size as int));
        assert(required as int == spec_required_len(data@));
        assert(fc_us as int == le32_at(data@, 20) as int);
    }
    let mut frame_datas: Vec<FrameData> = Vec::new();
    let mut j: usize = 0;
    while j < fc_us
        invariant
            j <= fc_us,
            fc_us == le32_at(data@, 20),
            56 + 8 * (fc_us as int) <= data.len(),
            frame_datas@.len() == j,
            forall|k: int|
                0 <= k < j ==> (#[trigger] frame_datas@[k]) == (FrameData {
                    keyframe_num: le32_at(data@, 56 + 8 * k),
                    image_index: le32_at(data@, 60 + 8 * k),
                }),
        decreases fc_us - j,
    {
        let off = 56 + 8 * j;
        let kf = read_u32_le(data, off);
        let ii = read_u32_le(data, off + 4);
        frame_datas.push(FrameData { keyframe_num: kf, image_index: ii });
        j += 1;
    }
    let hdr_off = 56 + 8 * fc_us;
    let header = slice_to_vec(slice_subrange(data.as_slice(), hdr_off, hdr_off + 4096));
    let foot_off = hdr_off + 4096;
    let reloc_us = reloc as usize;
    let footer = slice_to_vec(slice_subrange(data.as_slice(), foot_off, foot_off + reloc_us));
    let atlas_off = foot_off + reloc_us;
    let atlas_len = atlas_bytes as usize;
    let atlas = slice_to_vec(slice_subrange(data.as_slice(), atlas_off, atlas_off + atlas_len));
    let result = AnimationBNTX {
        version_major: read_u32_le(data, 8),
        version_minor: read_u32_le(data, 12),
        group_number: read_u32_le(data, 16),
        frame_count,
        loop_animation: read_u32_le(data, 24),
        loop_count: read_u32_le(data, 28) as i32,
        starting_frame_loop: read_u32_le(data, 32),
        ending_frame_loop: read_u32_le(data, 36),
        relocation_table_size: reloc,
        image_data_count: img_count,
        image_data_size: img_size,
        frame_rate_bits: read_u32_le(data, 52),
        frame_datas,
        bntx_template_header: header,
        bntx_template_footer: footer,
        image_datas: atlas,
    };
    Ok(result)
}

impl AnimationBNTX {
    /// The image slice at `index`: bytes
    /// `[index * image_data_size, (index + 1) * image_data_size)` of the
    /// atlas, or `IndexOutOfRange` when the atlas has no such slice.
    pub fn image_data_at_index(&self, index: usize) -> (r: Result<&[u8], AnimError>)
        requires
            self.wf(),
        ensures
            r is Ok <==> (index as int) < self.image_data_count as int,
            r matches Ok(sl) ==> sl@ == self.spec_image_slice(index as int),
            r matches Err(e) ==> e == AnimError::IndexOutOfRange,
    {
        if (index as u64) < (self.image_data_count as u64) {
            proof {
                lemma_mul_inequality(
                    index as int + 1,
                    self.image_data_count as int,
                    self.image_data_size as int,
                );
                lemma_mul_is_distributive_add_other_way(
                    self.image_data_size as int,
                    index as int,
                    1,
                );
                lemma_mul_nonnegative(index as int, self.image_data_size as int);
                assert(self.image_datas.len() == self.image_datas@.len());
            }
            let start = index * (self.image_data_size as usize);
            let end = start + self.image_data_size as usize;
            Ok(slice_subrange(self.image_datas.as_slice(), start, end))
        } else {
            Err(AnimError::IndexOutOfRange)
        }
    }

    /// Number of bytes of every assembled output buffer: template header,
    /// one image slice, template footer.
    pub fn output_size(&self) -> (r: usize)
        requires
            self.wf(),
        ensures
            r == self.spec_output_size(),
    {
        4096 + self.image_data_size as usize + self.bntx_template_footer.len()
    }

    /// Checks that a destination buffer of `dest_len` bytes can hold one
    /// assembled output; reports `BufferTooSmall` otherwise.
    pub fn verify_capacity(&self, dest_len: usize) -> (r: Result<(), AnimError>)
        requires
            self.wf(),
        ensures
            r is Ok <==> dest_len >= self.spec_output_size(),
            r matches Err(e) ==> e == AnimError::BufferTooSmall,
    {
        if dest_len >= self.output_size() {
            Ok(())
        } else {
            Err(AnimError::BufferTooSmall)
        }
    }

    /// Assembles the output buffer showing image slice `image_index`:
    /// template header, then the slice, then the template footer.
    pub fn assembled_frame(&self, image_index: usize) -> (r: Result<Vec<u8>, AnimError>)
        requires
            self.wf(),
        ensures
            r is Ok <==> (image_index as int) < self.image_data_count as int,
            r matches Ok(v) ==> v@ == self.bntx_template_header@ + self.spec_image_slice(
                image_index as int,
            ) + self.bntx_template_footer@ && v@.len() == self.spec_output_size(),
            r matches Err(e) ==> e == AnimError::IndexOutOfRange,
    {
        match self.image_data_at_index(image_index) {
            Ok(sl) => {
                proof {
                    lemma_mul_inequality(
                        image_index as int + 1,
                        self.image_data_count as int,
                        self.image_data_size as int,
                    );
                    lemma_mul_is_distributive_add_other_way(
                        self.image_data_size as int,
                        image_index as int,
                        1,
                    );
                    lemma_mul_nonnegative(image_index as int, self.image_data_size as int);
                    assert(sl@.len() == self.image_data_size as int);
                }
                Ok(
                    assemble_buffer(
                        self.bntx_template_header.as_slice(),
                        sl,
                        self.bntx_template_footer.as_slice(),
                    ),
                )
            },
            Err(_) => Err(AnimError::IndexOutOfRange),
        }
    }
}

/// Concatenates template header, image slice and template footer into one
/// output buffer.
pub fn assemble_buffer(header: &[u8], image: &[u8], footer: &[u8]) -> (r: Vec<u8>)
    requires
        header@.len() + image@.len() + footer@.len() <= usize::MAX,
    ensures
        r@ == header@ + image@ + footer@,
{
    let mut out: Vec<u8> = Vec::new();
    let mut i: usize = 0;
    let hn = header.len();
    while i < hn
        invariant
            i <= hn,
            hn == header@.len(),
            header@.len() + image@.len() + footer@.len() <= usize::MAX,
            out@ == header@.subrange(0, i as int),
        decreases hn - i,
    {
        out.push(*vstd::slice::slice_index_get(header, i));
        proof {
            assert(out@ =~= header@.subrange(0, i as int + 1));
        }
        i += 1;
    }
    let inn = image.len();
    i = 0;
    while i < inn
        invariant
            i <= inn,
            inn == image@.len(),
            header@.len() + image@.len() + footer@.len() <= usize::MAX,
            out@ == header@ + image@.subrange(0, i as int),
        decreases inn - i,
    {
        out.push(*vstd::slice::slice_index_get(image, i));
        proof {
            assert(out@ =~= header@ + image@.subrange(0, i as int + 1));
        }
        i += 1;
    }
    let fn_ = footer.len();
    i = 0;
    while i < fn_
        invariant
            i <= fn_,
            fn_ == footer@.len(),
            header@.len() + image@.len() + footer@.len() <= usize::MAX,
            out@ == header@ + image@ + footer@.subrange(0, i as int),
        decreases fn_ - i,
    {
        out.push(*vstd::slice::slice_index_get(footer, i));
        proof {
            assert(out@ =~= header@ + image@ + footer@.subrange(0, i as int + 1));
        }
        i += 1;
    }
    proof {
        assert(out@ =~= header@ + image@ + footer@);
    }
    out
}

/// Law: for a consistent container, every image slice is the
/// correctly-sized range at the correct offset of the atlas, and two
/// slices with different indices occupy disjoint byte ranges.
pub proof fn lemma_image_slices_partition(a: AnimationBNTX, i: int, j: int)
    requires
        a.wf(),
        0 <= i < a.image_data_count as int,
        0 <= j < a.image_data_count as int,
    ensures
        a.spec_image_slice(i).len() == a.image_data_size,
        forall|k: int|
            0 <= k < a.image_data_size as int ==> a.spec_image_slice(i)[k] == a.image_datas@[i * (
            a.image_data_size as int) + k],
        i != j ==> (i + 1) * (a.image_data_size as int) <= j * (a.image_data_size as int) || (j
            + 1) * (a.image_data_size as int) <= i * (a.image_data_size as int),
{
    let sz = a.image_data_size as int;
    let cnt = a.image_data_count as int;
    lemma_mul_inequality(i + 1, cnt, sz);
    lemma_mul_inequality(j + 1, cnt, sz);
    lemma_mul_nonnegative(i, sz);
    lemma_mul_nonnegative(j, sz);
    lemma_mul_is_distributive_add_other_way(sz, i, 1);
    lemma_mul_is_distributive_add_other_way(sz, j, 1);
    if i < j {
        lemma_mul_inequality(i + 1, j, sz);
    } else if j < i {
        lemma_mul_inequality(j + 1, i, sz);
    }
}

} // verus!
