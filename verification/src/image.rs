//! The bytes that go into the image, as writes at given offsets.
//!
//! An area is first filled over its whole span; the bytes of its file, if
//! it has one that fits, then go over the start of the fill. Bytes between
//! areas are never written.

use vstd::prelude::*;
use vstd::string::*;
use crate::area::{Area, FILL_BYTE};
use crate::layout::{fits, lemma_fits_disjoint, offset_at, LayoutError};

verus! {

/// One write: `data` goes to the image from `offset` on.
#[derive(Debug, Clone)]
pub struct Patch {
    pub offset: u64,
    pub data: Vec<u8>,
}

/// The bytes of an image that have been written, by position.
pub type Image = Map<int, u8>;

/// The fill of an area of `size` bytes.
pub open spec fn fill_bytes(size: nat) -> Seq<u8> {
    Seq::new(size, |i: int| FILL_BYTE)
}

/// The image after `data` has been written from `offset` on: the bytes
/// under the write are those of `data`, all others stay as they were.
pub open spec fn written(image: Image, offset: int, data: Seq<u8>) -> Image {
    Map::new(
        |p: int| image.dom().contains(p) || offset <= p < offset + data.len(),
        |p: int|
            if offset <= p < offset + data.len() {
                data[p - offset]
            } else {
                image[p]
            },
    )
}

/// The image after an area has been written: its fill, and over the start
/// of the fill the bytes of its file, if it has one.
pub open spec fn area_written(image: Image, offset: int, size: nat, file: Option<Seq<u8>>) -> Image {
    let filled = written(image, offset, fill_bytes(size));
    match file {
        Some(data) => written(filled, offset, data),
        None => filled,
    }
}

/// The image after the first `n` areas have been written, in processing
/// order, each at its resolved offset; `files` holds for each area the
/// bytes of its file, if it gets one.
pub open spec fn image_after(areas: Seq<Area>, files: Seq<Option<Seq<u8>>>, n: int) -> Image
    decreases n,
{
    if n <= 0 {
        Map::empty()
    } else {
        area_written(
            image_after(areas, files, n - 1),
            offset_at(areas, n - 1),
            areas[n - 1].size as nat,
            files[n - 1],
        )
    }
}

/// The byte that an area with the given file shows at `at` bytes from its
/// start: the byte of the file there, and the fill byte behind the file.
pub open spec fn area_byte(file: Option<Seq<u8>>, at: int) -> u8 {
    match file {
        Some(data) => if at < data.len() {
            data[at]
        } else {
            FILL_BYTE
        },
        None => FILL_BYTE,
    }
}

/// The image after the patches have been written, one after the other.
pub open spec fn applied(image: Image, patches: Seq<Patch>) -> Image
    decreases patches.len(),
{
    if patches.len() == 0 {
        image
    } else {
        written(
            applied(image, patches.drop_last()),
            patches.last().offset as int,
            patches.last().data@,
        )
    }
}

/// The bytes of a file that may be there.
pub open spec fn bytes_of(data: Option<Vec<u8>>) -> Option<Seq<u8>> {
    match data {
        Some(d) => Some(d@),
        None => None,
    }
}

/// `patches` are the writes of one area of `size` bytes at `offset`: its
/// fill, and behind that the bytes of its file at the same offset, if it
/// has one.
pub open spec fn is_area_patches(
    patches: Seq<Patch>,
    offset: u64,
    size: u32,
    data: Option<Vec<u8>>,
) -> bool {
    &&& patches.len() == if data is Some {
        2nat
    } else {
        1nat
    }
    &&& patches[0].offset == offset
    &&& patches[0].data@ == fill_bytes(size as nat)
    &&& data is Some ==> patches[1].offset == offset && patches[1].data == data->Some_0
}

/// The write that fills an area of `size` bytes at `offset`.
pub fn fill(offset: u64, size: u32) -> (patch: Patch)
    ensures
        patch.offset == offset,
        patch.data@ == fill_bytes(size as nat),
{
    let n = size as usize;
    let mut data: Vec<u8> = Vec::with_capacity(n);
    let mut i: usize = 0;
    while i < n
        invariant
            i <= n,
            data@ == fill_bytes(i as nat),
        decreases n - i,
    {
        data.push(FILL_BYTE);
        proof {
            assert(data@ =~= fill_bytes((i + 1) as nat));
        }
        i += 1;
    }
    Patch { offset, data }
}

/// The write that puts the bytes of the file at `path` at the start of an
/// area of `size` bytes at `offset`. Fails exactly where the file holds
/// more bytes than the area.
pub fn embed(offset: u64, size: u32, path: &str, data: Vec<u8>) -> (r: Result<Patch, LayoutError>)
    ensures
        match r {
            Ok(patch) => data.len() <= size && patch.offset == offset && patch.data == data,
            Err(LayoutError::FileTooLarge { path: p, file_len, area_size }) => {
                &&& data.len() > size
                &&& p@ == path@
                &&& file_len == data.len()
                &&& area_size == size
            },
            Err(LayoutError::Overlap { .. }) => false,
        },
{
    if data.len() > size as usize {
        Err(
            LayoutError::FileTooLarge {
                path: String::from_str(path),
                file_len: data.len(),
                area_size: size,
            },
        )
    } else {
        Ok(Patch { offset, data })
    }
}

/// The writes that make an area of `size` bytes at `offset`, in the order
/// in which they are to be made: the fill of the whole area, then the bytes
/// of the file from `path`, where `data` holds them, over the start of the
/// fill. Written to any image, they leave it as `area_written` says. Fails
/// exactly where the file holds more bytes than the area.
pub fn area_patches(offset: u64, size: u32, path: &str, data: Option<Vec<u8>>) -> (r: Result<
    Vec<Patch>,
    LayoutError,
>)
    ensures
        match r {
            Ok(patches) => {
                &&& data is Some ==> data->Some_0.len() <= size
                &&& is_area_patches(patches@, offset, size, data)
                &&& forall|image: Image| #[trigger]
                    applied(image, patches@) == area_written(
                        image,
                        offset as int,
                        size as nat,
                        bytes_of(data),
                    )
            },
            Err(LayoutError::FileTooLarge { path: p, file_len, area_size }) => {
                &&& data is Some
                &&& data->Some_0.len() > size
                &&& p@ == path@
                &&& file_len == data->Some_0.len()
                &&& area_size == size
            },
            Err(LayoutError::Overlap { .. }) => false,
        },
{
    let mut patches: Vec<Patch> = Vec::new();
    patches.push(fill(offset, size));
    let ghost first = patches@;
    proof {
        assert(first.drop_last() =~= Seq::<Patch>::empty());
        assert forall|image: Image| #[trigger]
            applied(image, first) == written(image, offset as int, fill_bytes(size as nat)) by {
            assert(applied(image, first.drop_last()) == image);
        }
    }
    match data {
        None => Ok(patches),
        Some(bytes) => match embed(offset, size, path, bytes) {
            Err(e) => Err(e),
            Ok(file) => {
                patches.push(file);
                proof {
                    assert(patches@.drop_last() =~= first);
                    assert forall|image: Image| #[trigger]
                        applied(image, patches@) == area_written(
                            image,
                            offset as int,
                            size as nat,
                            bytes_of(data),
                        ) by {
                        assert(applied(image, patches@.drop_last()) == applied(image, first));
                    }
                }
                Ok(patches)
            },
        },
    }
}

/// After an area has been filled and a file that fits has been written
/// over its start, the area begins with the bytes of the file, and every
/// byte of it behind them is the fill byte.
pub proof fn lemma_fill_then_file(image: Image, offset: int, size: nat, data: Seq<u8>)
    requires
        data.len() <= size,
    ensures
        ({
            let after = written(written(image, offset, fill_bytes(size)), offset, data);
            &&& forall|p: int|
                offset <= p < offset + data.len() ==> after.dom().contains(p) && after[p]
                    == data[p - offset]
            &&& forall|p: int|
                offset + data.len() <= p < offset + size ==> after.dom().contains(p)
                    && after[p] == FILL_BYTE
            &&& forall|p: int|
                !(offset <= p < offset + size) ==> (after.dom().contains(p)
                    <==> image.dom().contains(p)) && (image.dom().contains(p) ==> after[p]
                    == image[p])
        }),
{
}

/// An area that is filled and gets no file holds the fill byte throughout.
pub proof fn lemma_fill_only(image: Image, offset: int, size: nat)
    ensures
        ({
            let after = written(image, offset, fill_bytes(size));
            &&& forall|p: int|
                offset <= p < offset + size ==> after.dom().contains(p) && after[p]
                    == FILL_BYTE
            &&& forall|p: int|
                !(offset <= p < offset + size) ==> (after.dom().contains(p)
                    <==> image.dom().contains(p)) && (image.dom().contains(p) ==> after[p]
                    == image[p])
        }),
{
}

/// In the image of a layout that succeeds, with files that fit, every
/// area holds its own bytes, whatever was written after it: first those of
/// its file, then the fill byte up to its end.
pub proof fn lemma_image_holds_area(
    areas: Seq<Area>,
    files: Seq<Option<Seq<u8>>>,
    n: int,
    i: int,
    p: int,
)
    requires
        fits(areas, areas.len() as int),
        files.len() == areas.len(),
        forall|k: int|
            0 <= k < files.len() ==> (#[trigger] files[k] matches Some(data) ==> data.len()
                <= areas[k].size),
        0 <= i < n <= areas.len(),
        offset_at(areas, i) <= p < offset_at(areas, i) + areas[i].size,
    ensures
        image_after(areas, files, n).dom().contains(p),
        image_after(areas, files, n)[p] == area_byte(files[i], p - offset_at(areas, i)),
    decreases n,
{
    let before = image_after(areas, files, n - 1);
    let offset = offset_at(areas, n - 1);
    let size = areas[n - 1].size as nat;
    assert(files[n - 1] matches Some(data) ==> data.len() <= size);
    if i == n - 1 {
        match files[i] {
            Some(data) => lemma_fill_then_file(before, offset, size, data),
            None => lemma_fill_only(before, offset, size),
        }
    } else {
        lemma_image_holds_area(areas, files, n - 1, i, p);
        lemma_fits_disjoint(areas, i, n - 1);
        match files[n - 1] {
            Some(data) => lemma_fill_then_file(before, offset, size, data),
            None => lemma_fill_only(before, offset, size),
        }
    }
}

/// A byte of the image is written only where an area lies: what is
/// between the areas, or behind the last, is never touched.
pub proof fn lemma_image_written_in_areas(
    areas: Seq<Area>,
    files: Seq<Option<Seq<u8>>>,
    n: int,
    p: int,
)
    requires
        files.len() == areas.len(),
        forall|k: int|
            0 <= k < files.len() ==> (#[trigger] files[k] matches Some(data) ==> data.len()
                <= areas[k].size),
        0 <= n <= areas.len(),
        image_after(areas, files, n).dom().contains(p),
    ensures
        exists|i: int|
            0 <= i < n && offset_at(areas, i) <= p < offset_at(areas, i) + (
            #[trigger] areas[i]).size,
    decreases n,
{
    if n > 0 {
        let before = image_after(areas, files, n - 1);
        let offset = offset_at(areas, n - 1);
        let size = areas[n - 1].size as nat;
        assert(files[n - 1] matches Some(data) ==> data.len() <= size);
        match files[n - 1] {
            Some(data) => lemma_fill_then_file(before, offset, size, data),
            None => lemma_fill_only(before, offset, size),
        }
        if offset <= p < offset + size {
            assert(offset_at(areas, n - 1) <= p < offset_at(areas, n - 1) + areas[n - 1].size);
        } else {
            lemma_image_written_in_areas(areas, files, n - 1, p);
        }
    }
}

} // verus!
