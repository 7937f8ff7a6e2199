//! Shape of a container file, and of the input that is transcoded into one.

use vstd::prelude::*;

verus! {

/// The signature box that every container begins with.
pub const SIGNATURE: [u8; 12] = [
    0, 0, 0, 0x0C, 0x4A, 0x58, 0x4C, 0x20, 0x0D, 0x0A, 0x87, 0x0A,
];

/// What is wrong with a container.
#[derive(Clone, Copy, Debug, PartialEq, Eq, Structural)]
pub enum ContainerFault {
    /// It does not begin with the signature box.
    NoSignature,
    /// The box header at `pos` runs past the end.
    HeaderPastEnd { pos: usize },
    /// The header of the large box at `pos` is truncated.
    LargeHeaderTruncated { pos: usize },
    /// The box at `pos` is declared smaller than its own header.
    SizeBelowHeader { pos: usize, size: u64 },
    /// The box at `pos` is declared to run past the end.
    Overrun { pos: usize, size: u64 },
    /// No box tells how to rebuild the original file.
    NoReconstruction,
    /// No box holds a codestream.
    NoCodestream,
}

/// `head` is a prefix of `out`.
pub open spec fn begins_with(out: Seq<u8>, head: Seq<u8>) -> bool {
    out.len() >= head.len() && forall|i: int|
        0 <= i < head.len() ==> #[trigger] out[i] == head[i]
}

/// The big-endian number in `n` bytes from `pos`.
pub open spec fn big_endian(out: Seq<u8>, pos: int, n: int) -> int
    decreases n,
{
    if n <= 0 {
        0
    } else {
        big_endian(out, pos, n - 1) * 256 + out[pos + n - 1]
    }
}

/// Length of the header and declared size of the box at `pos`. A size of one
/// means that a larger size field follows the kind.
pub open spec fn box_extent(out: Seq<u8>, pos: int) -> Result<(int, int), ContainerFault> {
    if pos + 8 > out.len() {
        Err(ContainerFault::HeaderPastEnd { pos: pos as usize })
    } else if big_endian(out, pos, 4) != 1 {
        Ok((8, big_endian(out, pos, 4)))
    } else if pos + 16 > out.len() {
        Err(ContainerFault::LargeHeaderTruncated { pos: pos as usize })
    } else {
        Ok((16, big_endian(out, pos + 8, 8)))
    }
}

/// Declared size of the box at `pos`, if the box is sound.
pub open spec fn box_size(out: Seq<u8>, pos: int) -> Result<int, ContainerFault> {
    match box_extent(out, pos) {
        Err(fault) => Err(fault),
        Ok((header, size)) => if size < header {
            Err(ContainerFault::SizeBelowHeader { pos: pos as usize, size: size as u64 })
        } else if pos + size > out.len() {
            Err(ContainerFault::Overrun { pos: pos as usize, size: size as u64 })
        } else {
            Ok(size)
        },
    }
}

/// The box at `pos` is of a kind.
pub open spec fn is_kind(out: Seq<u8>, pos: int, a: u8, b: u8, c: u8, d: u8) -> bool {
    out[pos + 4] == a && out[pos + 5] == b && out[pos + 6] == c && out[pos + 7] == d
}

/// A box that tells how to rebuild the original file.
pub open spec fn is_reconstruction(out: Seq<u8>, pos: int) -> bool {
    is_kind(out, pos, 0x6A, 0x62, 0x72, 0x64)
}

/// A box with a codestream, or with a part of one.
pub open spec fn is_codestream(out: Seq<u8>, pos: int) -> bool {
    is_kind(out, pos, 0x6A, 0x78, 0x6C, 0x63) || is_kind(out, pos, 0x6A, 0x78, 0x6C, 0x70)
}

/// Walks the boxes from `pos` to the end: which of the two required kinds occur,
/// or the first fault.
pub open spec fn walk(out: Seq<u8>, pos: int) -> Result<(bool, bool), ContainerFault>
    decreases out.len() - pos,
{
    if pos < 0 || pos >= out.len() {
        Ok((false, false))
    } else {
        match box_size(out, pos) {
            Err(fault) => Err(fault),
            Ok(size) => if size < 8 {
                Ok((false, false))
            } else {
                match walk(out, pos + size) {
                    Err(fault) => Err(fault),
                    Ok((jbrd, codestream)) => Ok(
                        (
                            jbrd || is_reconstruction(out, pos),
                            codestream || is_codestream(out, pos),
                        ),
                    ),
                }
            },
        }
    }
}

/// What a container is found to be: sound, or its first fault.
pub open spec fn container_verdict(out: Seq<u8>) -> Result<(), ContainerFault> {
    if !begins_with(out, SIGNATURE@) {
        Err(ContainerFault::NoSignature)
    } else {
        match walk(out, 0) {
            Err(fault) => Err(fault),
            Ok((jbrd, codestream)) => if !jbrd {
                Err(ContainerFault::NoReconstruction)
            } else if !codestream {
                Err(ContainerFault::NoCodestream)
            } else {
                Ok(())
            },
        }
    }
}

/// Whether `head` is a prefix of `out`.
pub fn starts_with(out: &[u8], head: &[u8]) -> (r: bool)
    ensures
        r == begins_with(out@, head@),
{
    if out.len() < head.len() {
        return false;
    }
    let mut i: usize = 0;
    while i < head.len()
        invariant
            i <= head@.len() <= out@.len(),
            forall|j: int| 0 <= j < i ==> #[trigger] out@[j] == head@[j],
        decreases head@.len() - i,
    {
        if out[i] != head[i] {
            return false;
        }
        i += 1;
    }
    true
}

fn read_size(out: &[u8], pos: usize) -> (r: u64)
    requires
        pos + 4 <= out@.len(),
    ensures
        r == big_endian(out@, pos as int, 4),
        r <= 0xffff_ffff,
{
    proof {
        reveal_with_fuel(big_endian, 5);
    }
    ((out[pos] as u64 * 256 + out[pos + 1] as u64) * 256 + out[pos + 2] as u64) * 256 + out[pos
        + 3] as u64
}

fn read_large_size(out: &[u8], pos: usize) -> (r: u64)
    requires
        pos + 8 <= out@.len() <= usize::MAX,
    ensures
        r == big_endian(out@, pos as int, 8),
{
    let high: u64 = read_size(out, pos);
    let low: u64 = read_size(out, pos + 4);
    proof {
        reveal_with_fuel(big_endian, 9);
    }
    high * 0x1_0000_0000 + low
}

fn kind_is(out: &[u8], pos: usize, a: u8, b: u8, c: u8, d: u8) -> (r: bool)
    requires
        pos + 8 <= out@.len() <= usize::MAX,
    ensures
        r == is_kind(out@, pos as int, a, b, c, d),
{
    out[pos + 4] == a && out[pos + 5] == b && out[pos + 6] == c && out[pos + 7] == d
}

/// Checks that a container begins with the signature box, that its boxes tile
/// it exactly, and that the reconstruction data and a codestream are there.
pub fn check_container(out: &[u8]) -> (r: Result<(), ContainerFault>)
    ensures
        r == container_verdict(out@),
{
    if !starts_with(out, &SIGNATURE) {
        return Err(ContainerFault::NoSignature);
    }
    let mut pos: usize = 0;
    let mut seen_jbrd: bool = false;
    let mut seen_codestream: bool = false;
    while pos < out.len()
        invariant
            pos <= out@.len(),
            begins_with(out@, SIGNATURE@),
            walk(out@, 0) == (match walk(out@, pos as int) {
                Err(fault) => Err(fault),
                Ok((jbrd, codestream)) => Ok((jbrd || seen_jbrd, codestream || seen_codestream)),
            }),
        decreases out@.len() - pos,
    {
        if out.len() - pos < 8 {
            return Err(ContainerFault::HeaderPastEnd { pos });
        }
        let mut size: u64 = read_size(out, pos);
        let mut header: u64 = 8;
        if size == 1 {
            if out.len() - pos < 16 {
                return Err(ContainerFault::LargeHeaderTruncated { pos });
            }
            size = read_large_size(out, pos + 8);
            header = 16;
        }
        if size < header {
            return Err(ContainerFault::SizeBelowHeader { pos, size });
        }
        if size > (out.len() - pos) as u64 {
            return Err(ContainerFault::Overrun { pos, size });
        }
        if kind_is(out, pos, 0x6A, 0x62, 0x72, 0x64) {
            seen_jbrd = true;
        } else if kind_is(out, pos, 0x6A, 0x78, 0x6C, 0x63) || kind_is(
            out,
            pos,
            0x6A,
            0x78,
            0x6C,
            0x70,
        ) {
            seen_codestream = true;
        }
        pos += size as usize;
    }
    if !seen_jbrd {
        return Err(ContainerFault::NoReconstruction);
    }
    if !seen_codestream {
        return Err(ContainerFault::NoCodestream);
    }
    Ok(())
}

/// The area in the first frame header at or behind byte `i`: a marker of the
/// three frame kinds that are accepted, followed by the height and the width.
pub open spec fn area_from(data: Seq<u8>, i: int) -> Option<int>
    decreases data.len() - i,
{
    if i + 9 >= data.len() {
        None
    } else if data[i] != 0xFF {
        area_from(data, i + 1)
    } else if 0xC0 <= data[i + 1] <= 0xC2 {
        Some((data[i + 7] * 256 + data[i + 8]) * (data[i + 5] * 256 + data[i + 6]))
    } else {
        area_from(data, i + 2)
    }
}

/// The pixel area that a JPEG file declares, if it has a frame header that is
/// accepted.
pub fn declared_area(data: &[u8]) -> (r: Option<usize>)
    ensures
        match r {
            Some(area) => area_from(data@, 2) == Some(area as int),
            None => area_from(data@, 2) is None,
        },
{
    let mut i: usize = 2;
    while data.len() > 9 && i < data.len() - 9
        invariant
            area_from(data@, 2) == area_from(data@, i as int),
        decreases data@.len() - i,
    {
        if data[i] != 0xFF {
            i += 1;
            continue;
        }
        let marker: u8 = data[i + 1];
        if marker >= 0xC0 && marker <= 0xC2 {
            let height: usize = data[i + 5] as usize * 256 + data[i + 6] as usize;
            let width: usize = data[i + 7] as usize * 256 + data[i + 8] as usize;
            assert(width * height <= 0xffff * 0xffff) by (nonlinear_arith)
                requires
                    width <= 0xffff,
                    height <= 0xffff,
            ;
            return Some(width * height);
        }
        i += 2;
    }
    None
}

/// Largest area that a transcoding trial accepts.
pub const MAX_TRIAL_PIXELS: usize = 262144;

/// Whether a file is worth a transcoding trial: it has the JPEG signature and
/// does not declare too large an area.
pub fn worth_transcoding(data: &[u8]) -> (r: bool)
    ensures
        r == (data@.len() >= 4 && data@[0] == 0xFF && data@[1] == 0xD8 && !(area_from(
            data@,
            2,
        ) matches Some(area) && area > MAX_TRIAL_PIXELS)),
{
    if data.len() < 4 || data[0] != 0xFF || data[1] != 0xD8 {
        return false;
    }
    match declared_area(data) {
        Some(area) => area <= MAX_TRIAL_PIXELS,
        None => true,
    }
}

/// Whether output without a container begins with the codestream signature.
pub fn is_bare_codestream(out: &[u8]) -> (r: bool)
    ensures
        r == (out@.len() >= 2 && out@[0] == 0xFF && out@[1] == 0x0A),
{
    out.len() >= 2 && out[0] == 0xFF && out[1] == 0x0A
}

} // verus!
