//! Rendering a drawing to PNG and ICO images.
//!
//! The drawing is parsed by `usvg`, drawn by `resvg` onto a pixmap of
//! `tiny_skia`, and encoded by `tiny_skia` as PNG or by `ico` as ICO. The scale
//! at which it is drawn comes from the caller, as a function from the size of
//! the drawing and the side of the image to the transform.

use vstd::prelude::*;
use vstd::utf8::encode_utf8;

use crate::files::{ico_sizes, ico_sizes_spec, set_files_spec, Content, WEBMANIFEST};
use crate::plain::{is_plain, is_plain_drawing};

verus! {

/// A parsed drawing of `usvg`.
#[verifier::external_type_specification]
#[verifier::external_body]
pub struct ExTree(usvg::Tree);

/// Why `usvg` could not parse a drawing.
#[verifier::external_type_specification]
#[verifier::external_body]
pub struct ExSvgError(usvg::Error);

/// The size of a drawing, as `usvg` gives it.
#[verifier::external_type_specification]
#[verifier::external_body]
pub struct ExSize(usvg::Size);

/// An affine transform of `tiny_skia`.
#[verifier::external_type_specification]
#[verifier::external_body]
pub struct ExTransform(tiny_skia::Transform);

/// A pixmap of `tiny_skia`, which holds premultiplied RGBA pixels.
#[verifier::external_type_specification]
#[verifier::external_body]
pub struct ExPixmap(tiny_skia::Pixmap);

/// Why `png` could not encode an image.
#[verifier::external_type_specification]
#[verifier::external_body]
pub struct ExPngError(png::EncodingError);

/// The images of an ICO file, as `ico` collects them.
#[verifier::external_type_specification]
#[verifier::external_body]
pub struct ExIconDir(ico::IconDir);

/// One encoded image of an ICO file.
#[verifier::external_type_specification]
#[verifier::external_body]
pub struct ExIconDirEntry(ico::IconDirEntry);

/// An error of `std::io`, which is what `ico` reports.
#[verifier::external_type_specification]
#[verifier::external_body]
pub struct ExIoError(std::io::Error);

/// What an encoded image of an ICO file holds: the fields of
/// `ico::IconDirEntry`.
pub struct IconFields {
    pub is_cursor: bool,
    pub width: u32,
    pub height: u32,
    pub num_colors: u8,
    pub color_planes: u16,
    pub bits_per_pixel: u16,
    pub data: Seq<u8>,
}

/// Parsing `text` by `usvg::Tree::from_str` with the default options returns on
/// every run, and `outcome` is one that it can have. A text that makes it panic,
/// overflow its stack or run without end has no outcome. The outcome is not a
/// function of the text alone: an image that the drawing refers to by a path is
/// read from the disk, and the last bits of a rotation depend on the sine and
/// the cosine of the platform.
pub uninterp spec fn parse_outcome(
    text: Seq<char>,
    outcome: Result<usvg::Tree, usvg::Error>,
) -> bool;

/// The size that `usvg::Tree::size` gives for a drawing.
pub uninterp spec fn tree_size(tree: usvg::Tree) -> usvg::Size;

/// The numbers of a transform in the order `sx`, `ky`, `kx`, `sy`, `tx`, `ty`,
/// each without what stands behind its point. One that is out of range is the
/// nearest number in range, and one that is no number is zero.
pub uninterp spec fn transform_numbers(transform: tiny_skia::Transform) -> Seq<i32>;

/// The width and the height of a pixmap.
pub uninterp spec fn pixmap_size(pixmap: tiny_skia::Pixmap) -> (u32, u32);

/// The bytes of the pixels of a pixmap, row by row.
pub uninterp spec fn pixmap_data(pixmap: tiny_skia::Pixmap) -> Seq<u8>;

/// Drawing by `resvg::render` onto the pixels `before` of a pixmap of the given
/// size returns on every run, and `after` are pixels that it can leave. Where it
/// panics or runs without end there are none. The pixels are not a function of
/// the rest alone: their last bits depend on the arithmetic of the processor.
pub uninterp spec fn draw_outcome(
    tree: usvg::Tree,
    transform: tiny_skia::Transform,
    width: u32,
    height: u32,
    before: Seq<u8>,
    after: Seq<u8>,
) -> bool;

/// The PNG file that `tiny_skia::Pixmap::encode_png` makes of the pixels of a
/// pixmap of the given size, or `None` where it fails.
pub uninterp spec fn png_encoding(width: u32, height: u32, data: Seq<u8>) -> Option<Seq<u8>>;

/// The fields of an encoded image.
pub uninterp spec fn entry_fields(entry: ico::IconDirEntry) -> IconFields;

/// The images collected for an ICO file, in order.
pub uninterp spec fn dir_entries(dir: ico::IconDir) -> Seq<IconFields>;

/// The collection is one of cursors.
pub uninterp spec fn dir_is_cursor(dir: ico::IconDir) -> bool;

/// What `ico::IconDirEntry::encode` makes of an image with the given size and
/// RGBA pixels and without a hotspot, or `None` where it fails.
pub uninterp spec fn icon_encoding(width: u32, height: u32, rgba: Seq<u8>) -> Option<IconFields>;

/// A pixmap can have the given size: there is at least one pixel, a row has
/// fewer than 2^31 bytes, and all rows together can be counted.
pub open spec fn pixmap_fits(width: u32, height: u32) -> bool {
    &&& 0 < width
    &&& 0 < height
    &&& 4 * width <= 0x7fff_ffff
    &&& 4 * width * height <= usize::MAX
}

/// How many bytes the images have together.
pub open spec fn data_total(entries: Seq<IconFields>) -> nat
    decreases entries.len(),
{
    if entries.len() == 0 {
        0
    } else {
        data_total(entries.drop_last()) + entries.last().data.len()
    }
}

/// The offsets in an ICO file with these images can be written in 32 bits.
pub open spec fn offsets_fit(entries: Seq<IconFields>) -> bool {
    6 + 16 * entries.len() + data_total(entries) <= u32::MAX
}

/// `n` in two bytes, the low one first.
pub open spec fn two_bytes(n: nat) -> Seq<u8> {
    seq![(n % 256) as u8, (n / 256 % 256) as u8]
}

/// `n` in four bytes, the lowest one first.
pub open spec fn four_bytes(n: nat) -> Seq<u8> {
    two_bytes(n % 0x1_0000) + two_bytes(n / 0x1_0000)
}

/// The byte for a side of an image in an ICO file: zero stands for more than
/// 255 pixels.
pub open spec fn side_byte(side: u32) -> u8 {
    if side > 255 {
        0
    } else {
        side as u8
    }
}

/// The record of an image in an ICO file, where its data starts at `offset`.
pub open spec fn image_record(image: IconFields, offset: nat) -> Seq<u8> {
    seq![side_byte(image.width), side_byte(image.height), image.num_colors, 0u8] + two_bytes(
        image.color_planes as nat,
    ) + two_bytes(image.bits_per_pixel as nat) + four_bytes(image.data.len()) + four_bytes(offset)
}

/// The records of the images, where the data of the first starts at `start` and
/// that of each other behind the one before.
pub open spec fn image_records(entries: Seq<IconFields>, start: nat) -> Seq<u8>
    decreases entries.len(),
{
    if entries.len() == 0 {
        Seq::empty()
    } else {
        image_records(entries.drop_last(), start) + image_record(
            entries.last(),
            start + data_total(entries.drop_last()),
        )
    }
}

/// The data of the images, one behind another.
pub open spec fn image_data(entries: Seq<IconFields>) -> Seq<u8>
    decreases entries.len(),
{
    if entries.len() == 0 {
        Seq::empty()
    } else {
        image_data(entries.drop_last()) + entries.last().data
    }
}

/// The ICO file with the given images: a header with how many there are, a
/// record for each, and their data.
pub open spec fn ico_file(entries: Seq<IconFields>) -> Seq<u8> {
    seq![0u8, 0u8, 1u8, 0u8] + two_bytes(entries.len()) + image_records(
        entries,
        6 + 16 * entries.len(),
    ) + image_data(entries)
}

/// A transform that enlarges lengths less than 64 times in each direction and
/// moves nothing further than 4096 pixels.
pub open spec fn is_moderate(transform: tiny_skia::Transform) -> bool {
    let n = transform_numbers(transform);
    &&& -64 < n[0] < 64
    &&& -64 < n[1] < 64
    &&& -64 < n[2] < 64
    &&& -64 < n[3] < 64
    &&& -4096 < n[4] < 4096
    &&& -4096 < n[5] < 4096
}

/// The parser returns on the text `svg`: it has an outcome, as every plain
/// drawing has one.
pub open spec fn can_parse(svg: Seq<char>) -> bool {
    ||| is_plain(svg)
    ||| exists|outcome: Result<usvg::Tree, usvg::Error>| parse_outcome(svg, outcome)
}

/// The renderer returns on a drawing, a transform and a pixmap with the pixels
/// `before`: there is an outcome, as there is one for a plain drawing, a moderate
/// transform and a pixmap that is not too large.
pub open spec fn can_draw(
    tree: usvg::Tree,
    transform: tiny_skia::Transform,
    width: u32,
    height: u32,
    before: Seq<u8>,
) -> bool {
    ||| {
        &&& exists|svg: Seq<char>| is_plain(svg) && #[trigger] parse_outcome(svg, Ok(tree))
        &&& is_moderate(transform)
        &&& width <= 4096
        &&& height <= 4096
    }
    ||| exists|after: Seq<u8>|
        draw_outcome(tree, transform, width, height, before, after)
}

/// `usvg::Tree::from_str`: parses the text of a drawing with the default
/// options. Nothing is claimed of which texts it accepts, only that the result
/// is an outcome of parsing this text. Texts on which it does not return are
/// left out. On a plain drawing it returns: there the tree has no elements but
/// rectangles, and nothing refers to anything.
#[verifier::external_body]
fn parse_svg(text: &str) -> (r: Result<usvg::Tree, usvg::Error>)
    requires
        can_parse(text@),
    ensures
        parse_outcome(text@, r),
{
    usvg::Tree::from_str(text, &usvg::Options::default())
}

/// `usvg::Tree::size`: the size of a drawing.
#[verifier::external_body]
fn size_of_tree(tree: &usvg::Tree) -> (r: usvg::Size)
    ensures
        r == tree_size(*tree),
{
    tree.size()
}

/// The fields of `tiny_skia::Transform`, each turned into a whole number as the
/// language turns one into the other.
#[verifier::external_body]
fn numbers_of_transform(transform: &tiny_skia::Transform) -> (r: Vec<i32>)
    ensures
        r@ == transform_numbers(*transform),
        r@.len() == 6,
{
    let t = *transform;
    vec![t.sx as i32, t.ky as i32, t.kx as i32, t.sy as i32, t.tx as i32, t.ty as i32]
}

/// `tiny_skia::Pixmap::new`: a pixmap of the given size with all bytes zero,
/// or `None` where a pixmap cannot have that size. More bytes than an
/// allocation may have are left out: they make it panic.
#[verifier::external_body]
fn new_pixmap(width: u32, height: u32) -> (r: Option<tiny_skia::Pixmap>)
    requires
        pixmap_fits(width, height) ==> 4 * width * height <= isize::MAX,
    ensures
        r is Some <==> pixmap_fits(width, height),
        r matches Some(pixmap) ==> {
            &&& pixmap_size(pixmap) == (width, height)
            &&& pixmap_data(pixmap) == Seq::new((4 * width * height) as nat, |i: int| 0u8)
        },
{
    tiny_skia::Pixmap::new(width, height)
}

/// `resvg::render`: draws a drawing onto a pixmap. The size of the pixmap
/// stays, and its pixels become an outcome of drawing this drawing with this
/// transform onto the pixels that were there. Drawings, transforms and pixmaps
/// with which it does not return are left out. With a plain drawing, a moderate
/// transform and a pixmap that is not too large it returns: all there is to fill
/// are quadrangles whose corners are less than 2^29 pixels away, so that no
/// coordinate leaves the range in which the edges are counted.
#[verifier::external_body]
fn draw(tree: &usvg::Tree, transform: tiny_skia::Transform, pixmap: &mut tiny_skia::Pixmap)
    requires
        can_draw(
            *tree,
            transform,
            pixmap_size(*old(pixmap)).0,
            pixmap_size(*old(pixmap)).1,
            pixmap_data(*old(pixmap)),
        ),
    ensures
        pixmap_size(*final(pixmap)) == pixmap_size(*old(pixmap)),
        draw_outcome(
            *tree,
            transform,
            pixmap_size(*old(pixmap)).0,
            pixmap_size(*old(pixmap)).1,
            pixmap_data(*old(pixmap)),
            pixmap_data(*final(pixmap)),
        ),
{
    resvg::render(tree, transform, &mut pixmap.as_mut());
}

/// `tiny_skia::Pixmap::data`: a copy of the bytes of the pixels, four for each
/// pixel of the pixmap.
#[verifier::external_body]
fn pixmap_bytes(pixmap: &tiny_skia::Pixmap) -> (r: Vec<u8>)
    ensures
        r@ == pixmap_data(*pixmap),
        r@.len() == 4 * pixmap_size(*pixmap).0 * pixmap_size(*pixmap).1,
{
    pixmap.data().to_vec()
}

/// `tiny_skia::Pixmap::encode_png`: the PNG file of a pixmap, which its size
/// and its pixels determine.
#[verifier::external_body]
fn encode_png(pixmap: &tiny_skia::Pixmap) -> (r: Result<Vec<u8>, png::EncodingError>)
    ensures
        ({
            let (width, height) = pixmap_size(*pixmap);
            match r {
                Ok(file) => png_encoding(width, height, pixmap_data(*pixmap)) == Some(file@),
                Err(_) => png_encoding(width, height, pixmap_data(*pixmap)) is None,
            }
        }),
{
    pixmap.encode_png()
}

/// `ico::IconDir::new`: an empty collection of icons.
#[verifier::external_body]
fn new_icon_dir() -> (r: ico::IconDir)
    ensures
        !dir_is_cursor(r),
        dir_entries(r) == Seq::<IconFields>::empty(),
{
    ico::IconDir::new(ico::ResourceType::Icon)
}

/// `ico::IconDirEntry::encode` on an image of `ico::IconImage::from_rgba_data`:
/// an encoded icon with the size of the image, which the size and the pixels of
/// the image determine. How many bytes it has is left unsaid: they may be those
/// of a compressed PNG file. An
/// image without pixels, with the wrong number of bytes or with more pixels
/// than 32 bits count is left out: it makes one of the two panic.
#[verifier::external_body]
fn encode_icon(width: u32, height: u32, rgba: Vec<u8>) -> (r: Result<
    ico::IconDirEntry,
    std::io::Error,
>)
    requires
        0 < width,
        0 < height,
        width * height <= u32::MAX,
        rgba@.len() == 4 * width * height,
    ensures
        match r {
            Ok(entry) => {
                &&& icon_encoding(width, height, rgba@) == Some(entry_fields(entry))
                &&& !entry_fields(entry).is_cursor
                &&& entry_fields(entry).width == width
                &&& entry_fields(entry).height == height
            },
            Err(_) => icon_encoding(width, height, rgba@) is None,
        },
{
    ico::IconDirEntry::encode(&ico::IconImage::from_rgba_data(width, height, rgba))
}

/// `ico::IconDirEntry::data`: how many bytes an encoded image has.
#[verifier::external_body]
fn entry_data_len(entry: &ico::IconDirEntry) -> (r: usize)
    ensures
        r == entry_fields(*entry).data.len(),
{
    entry.data().len()
}

/// `ico::IconDir::add_entry`: adds an encoded image at the end of a
/// collection. A cursor among icons, or an icon among cursors, is left out: it
/// makes it panic.
#[verifier::external_body]
fn add_entry(dir: &mut ico::IconDir, entry: ico::IconDirEntry)
    requires
        entry_fields(entry).is_cursor == dir_is_cursor(*old(dir)),
    ensures
        dir_is_cursor(*final(dir)) == dir_is_cursor(*old(dir)),
        dir_entries(*final(dir)) == dir_entries(*old(dir)).push(entry_fields(entry)),
{
    dir.add_entry(entry);
}

/// `ico::IconDir::write` into a vector: the ICO file of a collection of icons.
/// It fails exactly where there are more images than 16 bits count. Images so
/// large that their offsets in the file do not fit in 32 bits are left out: they
/// make it overflow.
#[verifier::external_body]
fn write_icon_dir(dir: &ico::IconDir) -> (r: Result<Vec<u8>, std::io::Error>)
    requires
        !dir_is_cursor(*dir),
        offsets_fit(dir_entries(*dir)),
    ensures
        r is Ok <==> dir_entries(*dir).len() <= 0xffff,
        r matches Ok(file) ==> file@ == ico_file(dir_entries(*dir)),
{
    let mut file: Vec<u8> = Vec::new();
    dir.write(&mut file).map(|_| file)
}

/// Why a drawing could not be made into a PNG file.
#[derive(Debug)]
pub enum RenderError {
    /// The text of the drawing could not be parsed.
    Parse(usvg::Error),
    /// A pixmap cannot have the size of the image.
    Allocate,
    /// The image could not be encoded.
    Encode(png::EncodingError),
}

/// Why a drawing could not be made into an ICO file.
#[derive(Debug)]
pub enum IcoError {
    /// The text of the drawing could not be parsed.
    Parse(usvg::Error),
    /// A pixmap cannot have the size of an image.
    Allocate,
    /// An image could not be encoded.
    Encode(std::io::Error),
    /// The images are too large for one file.
    TooLarge,
    /// The file could not be put together.
    Write(std::io::Error),
}

/// Why a file of an icon set could not be made.
#[derive(Debug)]
pub enum SetFileError {
    Png(RenderError),
    Ico(IcoError),
}

/// The pixels of a pixmap in which nothing is drawn yet.
pub open spec fn blank(side: u32) -> Seq<u8> {
    Seq::new((4 * side * side) as nat, |i: int| 0u8)
}

/// `pixels` are an outcome of drawing `tree` onto a blank square with the given
/// side, with the transform that `fit` gives for it.
pub open spec fn is_drawing<F: Fn(usvg::Size, u32) -> tiny_skia::Transform>(
    tree: usvg::Tree,
    fit: F,
    side: u32,
    pixels: Seq<u8>,
) -> bool {
    exists|transform: tiny_skia::Transform|
        {
            &&& call_ensures(fit, (tree_size(tree), side), transform)
            &&& #[trigger] draw_outcome(tree, transform, side, side, blank(side), pixels)
        }
}

/// `pixels` are an outcome of drawing the drawing with the text `svg`.
pub open spec fn is_rendering<F: Fn(usvg::Size, u32) -> tiny_skia::Transform>(
    svg: Seq<char>,
    fit: F,
    side: u32,
    pixels: Seq<u8>,
) -> bool {
    exists|tree: usvg::Tree|
        {
            &&& #[trigger] parse_outcome(svg, Ok(tree))
            &&& is_drawing(tree, fit, side, pixels)
        }
}

/// `fields` are the encoded icon, with the given side, of a rendering of `svg`.
pub open spec fn is_icon<F: Fn(usvg::Size, u32) -> tiny_skia::Transform>(
    svg: Seq<char>,
    fit: F,
    side: u32,
    fields: IconFields,
) -> bool {
    &&& fields.width == side
    &&& fields.height == side
    &&& exists|pixels: Seq<u8>|
        {
            &&& is_rendering(svg, fit, side, pixels)
            &&& #[trigger] icon_encoding(side, side, pixels) == Some(fields)
        }
}

/// `entries` are the encoded icons of renderings of `svg` in the first of the
/// sizes of an ICO file.
pub open spec fn are_icons<F: Fn(usvg::Size, u32) -> tiny_skia::Transform>(
    svg: Seq<char>,
    fit: F,
    entries: Seq<IconFields>,
) -> bool {
    &&& entries.len() <= ico_sizes_spec().len()
    &&& forall|k: int|
        0 <= k < entries.len() ==> is_icon(svg, fit, ico_sizes_spec()[k], #[trigger] entries[k])
}

/// `r` is what making a PNG image with the given side of the drawing with the
/// text `svg` can give. Parsing decides first: where it fails, so does the
/// rest. A side that no pixmap can have always fails, and then it is
/// the encoding of what was drawn that decides.
pub open spec fn png_outcome<F: Fn(usvg::Size, u32) -> tiny_skia::Transform>(
    svg: Seq<char>,
    fit: F,
    side: u32,
    r: Result<Vec<u8>, RenderError>,
) -> bool {
    match r {
        Ok(file) => {
            &&& pixmap_fits(side, side)
            &&& exists|pixels: Seq<u8>|
                {
                    &&& is_rendering(svg, fit, side, pixels)
                    &&& #[trigger] png_encoding(side, side, pixels) == Some(file@)
                }
        },
        Err(RenderError::Parse(e)) => parse_outcome(svg, Err(e)),
        Err(RenderError::Allocate) => {
            &&& !pixmap_fits(side, side)
            &&& exists|tree: usvg::Tree| #[trigger] parse_outcome(svg, Ok(tree))
        },
        Err(RenderError::Encode(_)) => {
            &&& pixmap_fits(side, side)
            &&& exists|pixels: Seq<u8>|
                {
                    &&& is_rendering(svg, fit, side, pixels)
                    &&& #[trigger] png_encoding(side, side, pixels) is None
                }
        },
    }
}

/// `r` is what making an ICO file of the drawing with the text `svg` can give:
/// the file with one icon for each of the sizes, or the first thing that
/// failed.
pub open spec fn ico_outcome<F: Fn(usvg::Size, u32) -> tiny_skia::Transform>(
    svg: Seq<char>,
    fit: F,
    r: Result<Vec<u8>, IcoError>,
) -> bool {
    match r {
        Ok(file) => exists|entries: Seq<IconFields>|
            {
                &&& entries.len() == ico_sizes_spec().len()
                &&& #[trigger] are_icons(svg, fit, entries)
                &&& file@ == ico_file(entries)
            },
        Err(IcoError::Parse(e)) => parse_outcome(svg, Err(e)),
        Err(IcoError::Allocate) => false,
        Err(IcoError::Encode(_)) => exists|k: int, pixels: Seq<u8>|
            {
                &&& 0 <= k < ico_sizes_spec().len()
                &&& is_rendering(svg, fit, ico_sizes_spec()[k], pixels)
                &&& #[trigger] icon_encoding(
                    ico_sizes_spec()[k],
                    ico_sizes_spec()[k],
                    pixels,
                ) is None
            },
        Err(IcoError::TooLarge) => exists|entries: Seq<IconFields>|
            {
                &&& #[trigger] are_icons(svg, fit, entries)
                &&& !offsets_fit(entries)
            },
        Err(IcoError::Write(_)) => false,
    }
}

/// The drawing with the text `svg` can be parsed, and what comes out can be
/// drawn onto a blank square with the given side, if there is one, with any
/// transform that `fit` gives for it.
pub open spec fn can_render<F: Fn(usvg::Size, u32) -> tiny_skia::Transform>(
    svg: Seq<char>,
    fit: F,
    side: u32,
) -> bool {
    &&& can_parse(svg)
    &&& forall|tree: usvg::Tree, transform: tiny_skia::Transform|
        #![trigger parse_outcome(svg, Ok(tree)), call_ensures(fit, (tree_size(tree), side), transform)]
        {
            &&& pixmap_fits(side, side)
            &&& parse_outcome(svg, Ok(tree))
            &&& call_ensures(fit, (tree_size(tree), side), transform)
        } ==> can_draw(tree, transform, side, side, blank(side))
}

/// A plain drawing can be rendered with moderate transforms on squares that are
/// not too large.
pub proof fn plain_drawings_can_be_rendered<F: Fn(usvg::Size, u32) -> tiny_skia::Transform>(
    svg: Seq<char>,
    fit: F,
    side: u32,
)
    requires
        is_plain(svg),
        side <= 4096,
        forall|size: usvg::Size, transform: tiny_skia::Transform|
            #[trigger] call_ensures(fit, (size, side), transform) ==> is_moderate(transform),
    ensures
        can_render(svg, fit, side),
{
}

/// Whether a transform enlarges lengths less than 64 times in each direction and
/// moves nothing further than 4096 pixels.
pub fn is_moderate_transform(transform: &tiny_skia::Transform) -> (r: bool)
    ensures
        r == is_moderate(*transform),
{
    let n = numbers_of_transform(transform);
    -64 < n[0] && n[0] < 64 && -64 < n[1] && n[1] < 64 && -64 < n[2] && n[2] < 64 && -64 < n[3]
        && n[3] < 64 && -4096 < n[4] && n[4] < 4096 && -4096 < n[5] && n[5] < 4096
}

/// Draws a parsed drawing onto a square with the given side. There is none
/// exactly where a pixmap cannot have that size.
pub fn rasterize(tree: &usvg::Tree, side: u32, transform: tiny_skia::Transform) -> (r: Option<
    tiny_skia::Pixmap,
>)
    requires
        pixmap_fits(side, side) ==> can_draw(*tree, transform, side, side, blank(side)),
        pixmap_fits(side, side) ==> 4 * side * side <= isize::MAX,
    ensures
        r is Some <==> pixmap_fits(side, side),
        r matches Some(pixmap) ==> {
            &&& pixmap_size(pixmap) == (side, side)
            &&& draw_outcome(*tree, transform, side, side, blank(side), pixmap_data(pixmap))
        },
{
    match new_pixmap(side, side) {
        None => None,
        Some(mut pixmap) => {
            proof {
                assert(pixmap_data(pixmap) =~= blank(side));
            }
            draw(tree, transform, &mut pixmap);
            Some(pixmap)
        },
    }
}

/// Renders a parsed drawing as a square PNG image with the given side.
pub fn render_tree(tree: &usvg::Tree, side: u32, transform: tiny_skia::Transform) -> (r: Result<
    Vec<u8>,
    RenderError,
>)
    requires
        pixmap_fits(side, side) ==> can_draw(*tree, transform, side, side, blank(side)),
        pixmap_fits(side, side) ==> 4 * side * side <= isize::MAX,
    ensures
        r matches Err(RenderError::Allocate) <==> !pixmap_fits(side, side),
        match r {
            Ok(file) => exists|pixels: Seq<u8>|
                {
                    &&& draw_outcome(*tree, transform, side, side, blank(side), pixels)
                    &&& #[trigger] png_encoding(side, side, pixels) == Some(file@)
                },
            Err(RenderError::Encode(_)) => exists|pixels: Seq<u8>|
                {
                    &&& draw_outcome(*tree, transform, side, side, blank(side), pixels)
                    &&& #[trigger] png_encoding(side, side, pixels) is None
                },
            Err(RenderError::Allocate) => true,
            Err(RenderError::Parse(_)) => false,
        },
{
    match rasterize(tree, side, transform) {
        None => Err(RenderError::Allocate),
        Some(pixmap) => match encode_png(&pixmap) {
            Ok(file) => Ok(file),
            Err(e) => Err(RenderError::Encode(e)),
        },
    }
}

/// What is drawn of an outcome of parsing, with a transform that `fit` gives for
/// it, is a rendering.
proof fn lemma_is_rendering<F: Fn(usvg::Size, u32) -> tiny_skia::Transform>(
    svg: Seq<char>,
    fit: F,
    side: u32,
    tree: usvg::Tree,
    transform: tiny_skia::Transform,
)
    requires
        parse_outcome(svg, Ok(tree)),
        call_ensures(fit, (tree_size(tree), side), transform),
    ensures
        forall|pixels: Seq<u8>| #[trigger]
            draw_outcome(tree, transform, side, side, blank(side), pixels) ==> is_rendering(
                svg,
                fit,
                side,
                pixels,
            ),
{
    assert forall|pixels: Seq<u8>| #[trigger]
        draw_outcome(tree, transform, side, side, blank(side), pixels) implies is_rendering(
        svg,
        fit,
        side,
        pixels,
    ) by {
        assert(is_drawing(tree, fit, side, pixels));
    }
}

/// Renders a drawing as a square PNG image with the given side.
pub fn render_png<F: Fn(usvg::Size, u32) -> tiny_skia::Transform>(
    svg_data: &str,
    side: u32,
    fit: &F,
) -> (r: Result<Vec<u8>, RenderError>)
    requires
        can_render(svg_data@, *fit, side),
        forall|size: usvg::Size, n: u32| call_requires(*fit, (size, n)),
        pixmap_fits(side, side) ==> 4 * side * side <= isize::MAX,
    ensures
        png_outcome(svg_data@, *fit, side, r),
{
    match parse_svg(svg_data) {
        Err(e) => Err(RenderError::Parse(e)),
        Ok(tree) => {
            let transform = fit(size_of_tree(&tree), side);
            proof {
                assert(parse_outcome(svg_data@, Ok(tree)));
                lemma_is_rendering(svg_data@, *fit, side, tree, transform);
            }
            render_tree(&tree, side, transform)
        },
    }
}

/// Renders a plain drawing as a square PNG image with the given side. There is
/// none where the drawing is not plain, the side is too large, or the transform
/// is not moderate.
pub fn render_plain_png<F: Fn(usvg::Size, u32) -> tiny_skia::Transform>(
    svg_data: &str,
    side: u32,
    fit: &F,
) -> (r: Option<Result<Vec<u8>, RenderError>>)
    requires
        forall|size: usvg::Size, n: u32| call_requires(*fit, (size, n)),
    ensures
        match r {
            Some(r) => is_plain(svg_data@) && side <= 4096 && png_outcome(svg_data@, *fit, side, r),
            None => {
                ||| !is_plain(svg_data@)
                ||| side > 4096
                ||| exists|size: usvg::Size, transform: tiny_skia::Transform|
                    #[trigger] call_ensures(*fit, (size, side), transform) && !is_moderate(transform)
            },
        },
{
    if side > 4096 || !is_plain_drawing(svg_data) {
        return None;
    }
    match parse_svg(svg_data) {
        Err(e) => Some(Err(RenderError::Parse(e))),
        Ok(tree) => {
            let transform = fit(size_of_tree(&tree), side);
            if !is_moderate_transform(&transform) {
                return None;
            }
            proof {
                assert(parse_outcome(svg_data@, Ok(tree)));
                lemma_is_rendering(svg_data@, *fit, side, tree, transform);
                assert(4 * side * side <= 4 * 4096 * 4096) by (nonlinear_arith)
                    requires
                        0 <= side <= 4096,
                ;
            }
            Some(render_tree(&tree, side, transform))
        },
    }
}

/// The images of an ICO file that is being put together.
pub struct IcoBuilder {
    dir: ico::IconDir,
    /// How many bytes the file has so far.
    size: u64,
}

impl IcoBuilder {
    /// The images so far.
    pub closed spec fn entries(self) -> Seq<IconFields> {
        dir_entries(self.dir)
    }

    /// The images are icons, and their offsets fit in the file.
    pub closed spec fn wf(self) -> bool {
        &&& !dir_is_cursor(self.dir)
        &&& self.size == 6 + 16 * self.entries().len() + data_total(self.entries())
        &&& offsets_fit(self.entries())
    }

    /// A file without images.
    pub fn new() -> (r: Self)
        ensures
            r.wf(),
            r.entries() == Seq::<IconFields>::empty(),
    {
        IcoBuilder { dir: new_icon_dir(), size: 6 }
    }

    /// Adds a square image with the given side and RGBA pixels.
    pub fn add(&mut self, side: u32, rgba: Vec<u8>) -> (r: Result<(), IcoError>)
        requires
            old(self).wf(),
            0 < side <= 0xffff,
            rgba@.len() == 4 * side * side,
        ensures
            final(self).wf(),
            match icon_encoding(side, side, rgba@) {
                None => {
                    &&& r matches Err(IcoError::Encode(_))
                    &&& final(self).entries() == old(self).entries()
                },
                Some(fields) => {
                    let entries = old(self).entries().push(fields);
                    &&& fields.width == side
                    &&& fields.height == side
                    &&& if offsets_fit(entries) {
                        &&& r is Ok
                        &&& final(self).entries() == entries
                    } else {
                        &&& r matches Err(IcoError::TooLarge)
                        &&& final(self).entries() == old(self).entries()
                    }
                },
            },
    {
        proof {
            assert(side * side <= 0xffff * 0xffff) by (nonlinear_arith)
                requires
                    0 < side <= 0xffff,
            ;
        }
        let entry = match encode_icon(side, side, rgba) {
            Ok(entry) => entry,
            Err(e) => {
                return Err(IcoError::Encode(e));
            },
        };
        let len: u64 = entry_data_len(&entry) as u64;
        proof {
            let entries = self.entries().push(entry_fields(entry));
            assert(entries.drop_last() =~= self.entries());
        }
        if len > 0xffff_ffff || self.size + 16 + len > 0xffff_ffff {
            return Err(IcoError::TooLarge);
        }
        add_entry(&mut self.dir, entry);
        self.size = self.size + 16 + len;
        Ok(())
    }

    /// The file with the images so far.
    pub fn finish(&self) -> (r: Result<Vec<u8>, IcoError>)
        requires
            self.wf(),
        ensures
            match r {
                Ok(file) => self.entries().len() <= 0xffff && file@ == ico_file(self.entries()),
                Err(IcoError::Write(_)) => self.entries().len() > 0xffff,
                Err(_) => false,
            },
    {
        match write_icon_dir(&self.dir) {
            Ok(file) => Ok(file),
            Err(e) => Err(IcoError::Write(e)),
        }
    }
}

/// Renders a drawing as an ICO file that bundles it in several sizes.
pub fn generate_ico<F: Fn(usvg::Size, u32) -> tiny_skia::Transform>(
    svg_data: &str,
    fit: &F,
) -> (r: Result<Vec<u8>, IcoError>)
    requires
        forall|k: int|
            0 <= k < ico_sizes_spec().len() ==> can_render(
                svg_data@,
                *fit,
                #[trigger] ico_sizes_spec()[k],
            ),
        forall|size: usvg::Size, n: u32| call_requires(*fit, (size, n)),
    ensures
        ico_outcome(svg_data@, *fit, r),
{
    let sizes = ico_sizes();
    let mut builder = IcoBuilder::new();
    let mut k: usize = 0;
    while k < sizes.len()
        invariant
            forall|k: int|
                0 <= k < ico_sizes_spec().len() ==> can_render(
                    svg_data@,
                    *fit,
                    #[trigger] ico_sizes_spec()[k],
                ),
            forall|size: usvg::Size, n: u32| call_requires(*fit, (size, n)),
            sizes@ == ico_sizes_spec(),
            k <= sizes@.len(),
            builder.wf(),
            builder.entries().len() == k,
            are_icons(svg_data@, *fit, builder.entries()),
        decreases sizes@.len() - k,
    {
        let side: u32 = sizes[k];
        let tree = match parse_svg(svg_data) {
            Err(e) => {
                return Err(IcoError::Parse(e));
            },
            Ok(tree) => tree,
        };
        proof {
            assert(side <= 48);
            assert(4 * side * side <= 4 * 48 * 48) by (nonlinear_arith)
                requires
                    side <= 48,
            ;
        }
        let transform = fit(size_of_tree(&tree), side);
        proof {
            assert(can_render(svg_data@, *fit, ico_sizes_spec()[k as int]));
            assert(parse_outcome(svg_data@, Ok(tree)));
            lemma_is_rendering(svg_data@, *fit, side, tree, transform);
        }
        let pixmap = match rasterize(&tree, side, transform) {
            None => {
                return Err(IcoError::Allocate);
            },
            Some(pixmap) => pixmap,
        };
        let pixels = pixmap_bytes(&pixmap);
        let ghost rgba = pixels@;
        let ghost before = builder.entries();
        let added = builder.add(side, pixels);
        proof {
            if let Some(fields) = icon_encoding(side, side, rgba) {
                assert(is_icon(svg_data@, *fit, side, fields));
                assert(are_icons(svg_data@, *fit, before.push(fields)));
            } else {
                assert(icon_encoding(
                    ico_sizes_spec()[k as int],
                    ico_sizes_spec()[k as int],
                    rgba,
                ) is None);
            }
        }
        match added {
            Err(e) => {
                return Err(e);
            },
            Ok(_) => {},
        }
        k += 1;
    }
    builder.finish()
}

/// `r` is what making a file of an icon set can give for the drawing with the
/// text `svg`.
pub open spec fn set_file_outcome<F: Fn(usvg::Size, u32) -> tiny_skia::Transform>(
    svg: Seq<char>,
    content: Content,
    fit: F,
    r: Result<Vec<u8>, SetFileError>,
) -> bool {
    match (content, r) {
        (Content::Png(side), Ok(file)) => png_outcome(svg, fit, side, Ok(file)),
        (Content::Png(side), Err(SetFileError::Png(e))) => png_outcome(svg, fit, side, Err(e)),
        (Content::Ico, Ok(file)) => ico_outcome(svg, fit, Ok(file)),
        (Content::Ico, Err(SetFileError::Ico(e))) => ico_outcome(svg, fit, Err(e)),
        (Content::Manifest, Ok(file)) => file@ == encode_utf8(WEBMANIFEST@),
        _ => false,
    }
}

/// What one file of an icon set holds for a drawing.
pub fn set_file_bytes<F: Fn(usvg::Size, u32) -> tiny_skia::Transform>(
    svg_data: &str,
    content: Content,
    fit: &F,
) -> (r: Result<Vec<u8>, SetFileError>)
    requires
        match content {
            Content::Png(side) => can_render(svg_data@, *fit, side),
            Content::Ico => forall|k: int|
                0 <= k < ico_sizes_spec().len() ==> can_render(
                    svg_data@,
                    *fit,
                    #[trigger] ico_sizes_spec()[k],
                ),
            Content::Manifest => true,
        },
        forall|size: usvg::Size, n: u32| call_requires(*fit, (size, n)),
        content matches Content::Png(side) ==> pixmap_fits(side, side) ==> 4 * side * side
            <= isize::MAX,
    ensures
        set_file_outcome(svg_data@, content, *fit, r),
{
    match content {
        Content::Png(side) => match render_png(svg_data, side, fit) {
            Ok(file) => Ok(file),
            Err(e) => Err(SetFileError::Png(e)),
        },
        Content::Ico => match generate_ico(svg_data, fit) {
            Ok(file) => Ok(file),
            Err(e) => Err(SetFileError::Ico(e)),
        },
        Content::Manifest => Ok(WEBMANIFEST.as_bytes_vec()),
    }
}

/// What one file of an icon set holds for a plain drawing. There is none for an
/// image of a drawing that is not plain, or one that is too large.
pub fn plain_set_file_bytes<F: Fn(usvg::Size, u32) -> tiny_skia::Transform>(
    svg_data: &str,
    content: Content,
    fit: &F,
) -> (r: Option<Result<Vec<u8>, SetFileError>>)
    requires
        forall|size: usvg::Size, n: u32| call_requires(*fit, (size, n)),
        forall|size: usvg::Size, n: u32, transform: tiny_skia::Transform|
            #[trigger] call_ensures(*fit, (size, n), transform) ==> is_moderate(transform),
    ensures
        match r {
            Some(r) => set_file_outcome(svg_data@, content, *fit, r),
            None => match content {
                Content::Png(side) => !is_plain(svg_data@) || side > 4096,
                Content::Ico => !is_plain(svg_data@),
                Content::Manifest => false,
            },
        },
{
    match content {
        Content::Png(side) => {
            if side > 4096 || !is_plain_drawing(svg_data) {
                return None;
            }
            proof {
                plain_drawings_can_be_rendered(svg_data@, *fit, side);
                assert(4 * side * side <= 4 * 4096 * 4096) by (nonlinear_arith)
                    requires
                        0 <= side <= 4096,
                ;
            }
        },
        Content::Ico => {
            if !is_plain_drawing(svg_data) {
                return None;
            }
            proof {
                assert forall|k: int| 0 <= k < ico_sizes_spec().len() implies can_render(
                    svg_data@,
                    *fit,
                    #[trigger] ico_sizes_spec()[k],
                ) by {
                    plain_drawings_can_be_rendered(svg_data@, *fit, ico_sizes_spec()[k]);
                }
            }
        },
        Content::Manifest => {},
    }
    Some(set_file_bytes(svg_data, content, fit))
}

/// Every image of an icon set has a size that a pixmap can have.
pub proof fn set_images_fit(i: int)
    requires
        0 <= i < set_files_spec().len(),
    ensures
        set_files_spec()[i].1 matches Content::Png(side) ==> side <= 4096 && pixmap_fits(side, side)
            && 4 * side * side <= isize::MAX,
{
    if let Content::Png(side) = set_files_spec()[i].1 {
        assert(0 < side <= 512) by {
            if i == 0 {
                assert(side == 16);
            } else if i == 1 {
                assert(side == 32);
            } else if i == 2 {
                assert(side == 180);
            } else if i == 3 {
                assert(side == 192);
            } else {
                assert(side == 512);
            }
        }
        assert(4 * side * side <= 4 * 512 * 512) by (nonlinear_arith)
            requires
                0 < side <= 512,
        ;
    }
}

/// `pixels` are what drawing the parsed text `svg` onto a square of zero bytes
/// with the given side leaves, with the transform that `fit` gives for the size
/// of the drawing and this side.
pub open spec fn drawn_from<F: Fn(usvg::Size, u32) -> tiny_skia::Transform>(
    svg: Seq<char>,
    fit: F,
    side: u32,
    pixels: Seq<u8>,
) -> bool {
    exists|tree: usvg::Tree, transform: tiny_skia::Transform, before: Seq<u8>|
        {
            &&& parse_outcome(svg, Ok(tree))
            &&& call_ensures(fit, (tree_size(tree), side), transform)
            &&& before.len() == 4 * side * side
            &&& forall|i: int| 0 <= i < before.len() ==> #[trigger] before[i] == 0
            &&& #[trigger] draw_outcome(tree, transform, side, side, before, pixels)
        }
}

/// A rendering is drawn from the text.
proof fn lemma_rendering_is_drawn<F: Fn(usvg::Size, u32) -> tiny_skia::Transform>(
    svg: Seq<char>,
    fit: F,
    side: u32,
    pixels: Seq<u8>,
)
    requires
        is_rendering(svg, fit, side, pixels),
    ensures
        drawn_from(svg, fit, side, pixels),
{
    assert(blank(side).len() == 4 * side * side) by {
        assert(4 * side * side >= 0) by (nonlinear_arith)
            requires
                side >= 0,
        ;
    }
    let tree = choose|tree: usvg::Tree|
        #[trigger] parse_outcome(svg, Ok(tree)) && is_drawing(tree, fit, side, pixels);
    let transform = choose|transform: tiny_skia::Transform|
        call_ensures(fit, (tree_size(tree), side), transform) && #[trigger] draw_outcome(
            tree,
            transform,
            side,
            side,
            blank(side),
            pixels,
        );
    assert(draw_outcome(tree, transform, side, side, blank(side), pixels));
}

/// What `png_outcome` says, in terms of what was drawn.
proof fn lemma_png_outcome<F: Fn(usvg::Size, u32) -> tiny_skia::Transform>(
    svg: Seq<char>,
    fit: F,
    side: u32,
    r: Result<Vec<u8>, RenderError>,
)
    requires
        png_outcome(svg, fit, side, r),
    ensures
        match r {
            Ok(file) => exists|pixels: Seq<u8>|
                drawn_from(svg, fit, side, pixels) && #[trigger] png_encoding(side, side, pixels)
                    == Some(file@),
            Err(RenderError::Encode(_)) => exists|pixels: Seq<u8>|
                drawn_from(svg, fit, side, pixels) && #[trigger] png_encoding(side, side, pixels)
                    is None,
            Err(RenderError::Parse(e)) => parse_outcome(svg, Err(e)),
            Err(RenderError::Allocate) => exists|tree: usvg::Tree| #[trigger]
                parse_outcome(svg, Ok(tree)),
        },
        r matches Err(RenderError::Allocate) ==> side == 0 || 4 * side > 0x7fff_ffff || 4 * side
            * side > usize::MAX,
        r is Ok ==> 0 < 4 * side <= 0x7fff_ffff && 4 * side * side <= usize::MAX,
        r matches Err(RenderError::Encode(_)) ==> 0 < 4 * side <= 0x7fff_ffff && 4 * side * side
            <= usize::MAX,
{
    assert forall|pixels: Seq<u8>| #[trigger] is_rendering(svg, fit, side, pixels) implies drawn_from(
        svg,
        fit,
        side,
        pixels,
    ) by {
        lemma_rendering_is_drawn(svg, fit, side, pixels);
    }
    match r {
        Ok(file) => {
            let pixels = choose|pixels: Seq<u8>|
                is_rendering(svg, fit, side, pixels) && #[trigger] png_encoding(side, side, pixels)
                    == Some(file@);
            assert(drawn_from(svg, fit, side, pixels) && png_encoding(side, side, pixels) == Some(
                file@,
            ));
        },
        Err(RenderError::Encode(_)) => {
            let pixels = choose|pixels: Seq<u8>|
                is_rendering(svg, fit, side, pixels) && #[trigger] png_encoding(side, side, pixels)
                    is None;
            assert(drawn_from(svg, fit, side, pixels) && png_encoding(side, side, pixels) is None);
        },
        _ => {},
    }
}

/// Whatever the side, a PNG image that is made shows the drawing: it encodes the
/// pixels that drawing the parsed text onto a blank square of that side left.
/// Nothing else but the parser, a side that no pixmap has, and the encoder makes
/// it fail, in this order.
pub proof fn png_shows_the_drawing<F: Fn(usvg::Size, u32) -> tiny_skia::Transform>(
    svg: &str,
    side: u32,
    fit: F,
    r: Result<Vec<u8>, RenderError>,
)
    requires
        call_ensures(render_png::<F>, (svg, side, &fit), r),
    ensures
        match r {
            Ok(file) => 0 < 4 * side <= 0x7fff_ffff && 4 * side * side <= usize::MAX && exists|
                pixels: Seq<u8>,
            |
                drawn_from(svg@, fit, side, pixels) && #[trigger] png_encoding(side, side, pixels)
                    == Some(file@),
            Err(RenderError::Encode(_)) => 0 < 4 * side <= 0x7fff_ffff && 4 * side * side
                <= usize::MAX && exists|pixels: Seq<u8>|
                drawn_from(svg@, fit, side, pixels) && #[trigger] png_encoding(side, side, pixels)
                    is None,
            Err(RenderError::Parse(e)) => parse_outcome(svg@, Err(e)),
            Err(RenderError::Allocate) => {
                &&& side == 0 || 4 * side > 0x7fff_ffff || 4 * side * side > usize::MAX
                &&& exists|tree: usvg::Tree| #[trigger] parse_outcome(svg@, Ok(tree))
            },
        },
{
    lemma_png_outcome(svg@, fit, side, r);
}

/// A PNG image of a plain drawing shows it just as any other.
pub proof fn plain_png_shows_the_drawing<F: Fn(usvg::Size, u32) -> tiny_skia::Transform>(
    svg: &str,
    side: u32,
    fit: F,
    r: Result<Vec<u8>, RenderError>,
)
    requires
        call_ensures(render_plain_png::<F>, (svg, side, &fit), Some(r)),
    ensures
        side <= 4096,
        match r {
            Ok(file) => 0 < side && exists|pixels: Seq<u8>|
                drawn_from(svg@, fit, side, pixels) && #[trigger] png_encoding(side, side, pixels)
                    == Some(file@),
            Err(RenderError::Encode(_)) => 0 < side && exists|pixels: Seq<u8>|
                drawn_from(svg@, fit, side, pixels) && #[trigger] png_encoding(side, side, pixels)
                    is None,
            Err(RenderError::Parse(e)) => parse_outcome(svg@, Err(e)),
            Err(RenderError::Allocate) => side == 0,
        },
{
    lemma_png_outcome(svg@, fit, side, r);
    assert(4 * side * side <= 4 * 4096 * 4096) by (nonlinear_arith)
        requires
            0 <= side <= 4096,
    ;
}

/// What drawing the parsed text onto a blank pixmap leaves is drawn by
/// `rasterize`, onto a square of zero bytes and with no other transform.
pub proof fn rasterizing_draws_once(
    tree: &usvg::Tree,
    side: u32,
    transform: tiny_skia::Transform,
    pixmap: tiny_skia::Pixmap,
)
    requires
        call_ensures(rasterize, (tree, side, transform), Some(pixmap)),
    ensures
        pixmap_size(pixmap) == (side, side),
        exists|before: Seq<u8>|
            {
                &&& before.len() == 4 * side * side
                &&& forall|i: int| 0 <= i < before.len() ==> #[trigger] before[i] == 0
                &&& #[trigger] draw_outcome(
                    *tree,
                    transform,
                    side,
                    side,
                    before,
                    pixmap_data(pixmap),
                )
            },
{
    assert(blank(side).len() == 4 * side * side) by {
        assert(4 * side * side >= 0) by (nonlinear_arith)
            requires
                side >= 0,
        ;
    }
}

/// Nothing is drawn exactly where no pixmap has the side: it is zero, a row has
/// too many bytes, or all rows together have more than can be counted.
pub proof fn rasterizing_fails_only_without_a_pixmap(
    tree: &usvg::Tree,
    side: u32,
    transform: tiny_skia::Transform,
    r: Option<tiny_skia::Pixmap>,
)
    requires
        call_ensures(rasterize, (tree, side, transform), r),
    ensures
        r is None <==> side == 0 || 4 * side > 0x7fff_ffff || 4 * side * side > usize::MAX,
{
}

/// `image` is the icon with the given side of what was drawn: it encodes exactly
/// the bytes of the pixels, in their order.
pub open spec fn is_drawn_icon<F: Fn(usvg::Size, u32) -> tiny_skia::Transform>(
    svg: Seq<char>,
    fit: F,
    side: u32,
    image: IconFields,
) -> bool {
    &&& image.width == side
    &&& image.height == side
    &&& exists|pixels: Seq<u8>|
        drawn_from(svg, fit, side, pixels) && #[trigger] icon_encoding(side, side, pixels) == Some(
            image,
        )
}

/// The icons of renderings are those of what was drawn.
proof fn lemma_icons_are_drawn<F: Fn(usvg::Size, u32) -> tiny_skia::Transform>(
    svg: Seq<char>,
    fit: F,
    entries: Seq<IconFields>,
)
    requires
        are_icons(svg, fit, entries),
    ensures
        entries.len() <= 3,
        entries.len() > 0 ==> is_drawn_icon(svg, fit, 16, entries[0]),
        entries.len() > 1 ==> is_drawn_icon(svg, fit, 32, entries[1]),
        entries.len() > 2 ==> is_drawn_icon(svg, fit, 48, entries[2]),
{
    assert forall|k: int| 0 <= k < entries.len() implies is_drawn_icon(
        svg,
        fit,
        ico_sizes_spec()[k],
        #[trigger] entries[k],
    ) by {
        let side = ico_sizes_spec()[k];
        let pixels = choose|pixels: Seq<u8>|
            is_rendering(svg, fit, side, pixels) && #[trigger] icon_encoding(side, side, pixels)
                == Some(entries[k]);
        lemma_rendering_is_drawn(svg, fit, side, pixels);
        assert(drawn_from(svg, fit, side, pixels) && icon_encoding(side, side, pixels) == Some(
            entries[k],
        ));
    }
}

/// How many bytes the images have together is the sum of their bytes.
pub proof fn data_total_is_the_sum(entries: Seq<IconFields>)
    ensures
        data_total(entries) == entries.fold_left(0int, |n: int, e: IconFields| n + e.data.len()),
        offsets_fit(entries) <==> 6 + 16 * entries.len() + entries.fold_left(
            0int,
            |n: int, e: IconFields| n + e.data.len(),
        ) < 0x1_0000_0000,
    decreases entries.len(),
{
    let f = |n: int, e: IconFields| n + e.data.len();
    reveal(Seq::fold_left);
    if entries.len() > 0 {
        data_total_is_the_sum(entries.drop_last());
    }
}

/// An ICO file that is made holds the drawing in the sizes 16, 32 and 48, in
/// this order: each image encodes exactly the bytes that drawing the parsed text
/// onto a blank square of that side left. Nothing else but the parser, the
/// encoder and images of together more than four gigabytes makes it fail.
pub proof fn ico_shows_the_drawing<F: Fn(usvg::Size, u32) -> tiny_skia::Transform>(
    svg: &str,
    fit: F,
    r: Result<Vec<u8>, IcoError>,
)
    requires
        call_ensures(generate_ico::<F>, (svg, &fit), r),
    ensures
        match r {
            Ok(file) => exists|entries: Seq<IconFields>|
                {
                    &&& entries.len() == 3
                    &&& is_drawn_icon(svg@, fit, 16, entries[0])
                    &&& is_drawn_icon(svg@, fit, 32, entries[1])
                    &&& is_drawn_icon(svg@, fit, 48, entries[2])
                    &&& file@ == #[trigger] ico_file(entries)
                },
            Err(IcoError::Parse(e)) => parse_outcome(svg@, Err(e)),
            Err(IcoError::Encode(_)) => exists|side: u32, pixels: Seq<u8>|
                {
                    &&& side == 16 || side == 32 || side == 48
                    &&& drawn_from(svg@, fit, side, pixels)
                    &&& #[trigger] icon_encoding(side, side, pixels) is None
                },
            Err(IcoError::TooLarge) => exists|entries: Seq<IconFields>|
                {
                    &&& entries.len() <= 3
                    &&& entries.len() > 0 ==> is_drawn_icon(svg@, fit, 16, entries[0])
                    &&& entries.len() > 1 ==> is_drawn_icon(svg@, fit, 32, entries[1])
                    &&& entries.len() > 2 ==> is_drawn_icon(svg@, fit, 48, entries[2])
                    &&& 6 + 16 * entries.len() + #[trigger] data_total(entries) >= 0x1_0000_0000
                },
            Err(IcoError::Allocate) => false,
            Err(IcoError::Write(_)) => false,
        },
{
    lemma_ico_outcome(svg@, fit, r);
}

/// What `ico_outcome` says, in terms of what was drawn.
proof fn lemma_ico_outcome<F: Fn(usvg::Size, u32) -> tiny_skia::Transform>(
    svg: Seq<char>,
    fit: F,
    r: Result<Vec<u8>, IcoError>,
)
    requires
        ico_outcome(svg, fit, r),
    ensures
        match r {
            Ok(file) => exists|entries: Seq<IconFields>|
                {
                    &&& entries.len() == 3
                    &&& is_drawn_icon(svg, fit, 16, entries[0])
                    &&& is_drawn_icon(svg, fit, 32, entries[1])
                    &&& is_drawn_icon(svg, fit, 48, entries[2])
                    &&& file@ == #[trigger] ico_file(entries)
                },
            Err(IcoError::Parse(e)) => parse_outcome(svg, Err(e)),
            Err(IcoError::Encode(_)) => exists|side: u32, pixels: Seq<u8>|
                {
                    &&& side == 16 || side == 32 || side == 48
                    &&& drawn_from(svg, fit, side, pixels)
                    &&& #[trigger] icon_encoding(side, side, pixels) is None
                },
            Err(IcoError::TooLarge) => exists|entries: Seq<IconFields>|
                {
                    &&& entries.len() <= 3
                    &&& entries.len() > 0 ==> is_drawn_icon(svg, fit, 16, entries[0])
                    &&& entries.len() > 1 ==> is_drawn_icon(svg, fit, 32, entries[1])
                    &&& entries.len() > 2 ==> is_drawn_icon(svg, fit, 48, entries[2])
                    &&& 6 + 16 * entries.len() + #[trigger] data_total(entries) >= 0x1_0000_0000
                },
            Err(IcoError::Allocate) => false,
            Err(IcoError::Write(_)) => false,
        },
{
    match r {
        Ok(file) => {
            let entries = choose|entries: Seq<IconFields>|
                {
                    &&& entries.len() == ico_sizes_spec().len()
                    &&& #[trigger] are_icons(svg, fit, entries)
                    &&& file@ == ico_file(entries)
                };
            lemma_icons_are_drawn(svg, fit, entries);
            assert(file@ == ico_file(entries));
        },
        Err(IcoError::Encode(_)) => {
            let (k, pixels) = choose|k: int, pixels: Seq<u8>|
                {
                    &&& 0 <= k < ico_sizes_spec().len()
                    &&& is_rendering(svg, fit, ico_sizes_spec()[k], pixels)
                    &&& #[trigger] icon_encoding(
                        ico_sizes_spec()[k],
                        ico_sizes_spec()[k],
                        pixels,
                    ) is None
                };
            lemma_rendering_is_drawn(svg, fit, ico_sizes_spec()[k], pixels);
            assert(icon_encoding(ico_sizes_spec()[k], ico_sizes_spec()[k], pixels) is None);
        },
        Err(IcoError::TooLarge) => {
            let entries = choose|entries: Seq<IconFields>|
                #[trigger] are_icons(svg, fit, entries) && !offsets_fit(entries);
            lemma_icons_are_drawn(svg, fit, entries);
            assert(data_total(entries) >= 0);
        },
        _ => {},
    }
}

/// Every file of an icon set is what it is called: an image shows the drawing in
/// its size, the ICO file in its three sizes, and the manifest is always the
/// same.
pub proof fn set_file_shows_the_drawing<F: Fn(usvg::Size, u32) -> tiny_skia::Transform>(
    svg: &str,
    content: Content,
    fit: F,
    r: Result<Vec<u8>, SetFileError>,
)
    requires
        call_ensures(set_file_bytes::<F>, (svg, content, &fit), r) || call_ensures(
            plain_set_file_bytes::<F>,
            (svg, content, &fit),
            Some(r),
        ),
    ensures
        match (content, r) {
            (Content::Png(side), Ok(file)) => 0 < side && exists|pixels: Seq<u8>|
                drawn_from(svg@, fit, side, pixels) && #[trigger] png_encoding(side, side, pixels)
                    == Some(file@),
            (Content::Png(side), Err(SetFileError::Png(RenderError::Encode(_)))) => exists|
                pixels: Seq<u8>,
            |
                drawn_from(svg@, fit, side, pixels) && #[trigger] png_encoding(side, side, pixels)
                    is None,
            (Content::Png(_), Err(SetFileError::Png(RenderError::Parse(e)))) => parse_outcome(
                svg@,
                Err(e),
            ),
            (Content::Png(side), Err(SetFileError::Png(RenderError::Allocate))) => side == 0 || 4
                * side > 0x7fff_ffff || 4 * side * side > usize::MAX,
            (Content::Ico, Ok(file)) => exists|entries: Seq<IconFields>|
                {
                    &&& entries.len() == 3
                    &&& is_drawn_icon(svg@, fit, 16, entries[0])
                    &&& is_drawn_icon(svg@, fit, 32, entries[1])
                    &&& is_drawn_icon(svg@, fit, 48, entries[2])
                    &&& file@ == #[trigger] ico_file(entries)
                },
            (Content::Ico, Err(SetFileError::Ico(IcoError::Parse(e)))) => parse_outcome(
                svg@,
                Err(e),
            ),
            (Content::Ico, Err(SetFileError::Ico(IcoError::Encode(_)))) => exists|
                side: u32,
                pixels: Seq<u8>,
            |
                {
                    &&& side == 16 || side == 32 || side == 48
                    &&& drawn_from(svg@, fit, side, pixels)
                    &&& #[trigger] icon_encoding(side, side, pixels) is None
                },
            (Content::Ico, Err(SetFileError::Ico(IcoError::TooLarge))) => exists|
                entries: Seq<IconFields>,
            |
                {
                    &&& entries.len() <= 3
                    &&& entries.len() > 0 ==> is_drawn_icon(svg@, fit, 16, entries[0])
                    &&& entries.len() > 1 ==> is_drawn_icon(svg@, fit, 32, entries[1])
                    &&& entries.len() > 2 ==> is_drawn_icon(svg@, fit, 48, entries[2])
                    &&& 6 + 16 * entries.len() + #[trigger] data_total(entries) >= 0x1_0000_0000
                },
            (Content::Manifest, Ok(file)) => file@ == encode_utf8(WEBMANIFEST@),
            _ => false,
        },
{
    assert(set_file_outcome(svg@, content, fit, r));
    match (content, r) {
        (Content::Png(side), Ok(file)) => {
            lemma_png_outcome(svg@, fit, side, Ok(file));
        },
        (Content::Png(side), Err(SetFileError::Png(e))) => {
            lemma_png_outcome(svg@, fit, side, Err(e));
        },
        (Content::Ico, Ok(file)) => {
            lemma_ico_outcome(svg@, fit, Ok(file));
        },
        (Content::Ico, Err(SetFileError::Ico(e))) => {
            lemma_ico_outcome(svg@, fit, Err(e));
        },
        _ => {},
    }
}

/// A transform is moderate exactly where its first four numbers are less than 64
/// away from zero and its last two less than 4096.
pub proof fn moderate_transforms_have_small_numbers(transform: &tiny_skia::Transform, r: bool)
    requires
        call_ensures(is_moderate_transform, (transform,), r),
    ensures
        r <==> forall|i: int|
            #![trigger transform_numbers(*transform)[i]]
            0 <= i < 6 ==> {
                let limit: int = if i < 4 {
                    64
                } else {
                    4096
                };
                -limit < transform_numbers(*transform)[i] < limit
            },
{
    let n = transform_numbers(*transform);
    if forall|i: int|
        #![trigger n[i]]
        0 <= i < 6 ==> {
            let limit: int = if i < 4 {
                64
            } else {
                4096
            };
            -limit < n[i] < limit
        } {
        assert(-64 < n[0] < 64 && -64 < n[1] < 64 && -64 < n[2] < 64 && -64 < n[3] < 64);
        assert(-4096 < n[4] < 4096 && -4096 < n[5] < 4096);
    }
}

/// A parsed drawing that is made into a PNG image is drawn once, onto a square of
/// zero bytes and with the given transform. It fails exactly where no pixmap has
/// the side or the encoder fails.
pub proof fn tree_png_shows_the_drawing(
    tree: &usvg::Tree,
    side: u32,
    transform: tiny_skia::Transform,
    r: Result<Vec<u8>, RenderError>,
)
    requires
        call_ensures(render_tree, (tree, side, transform), r),
    ensures
        r matches Err(RenderError::Allocate) <==> side == 0 || 4 * side > 0x7fff_ffff || 4 * side
            * side > usize::MAX,
        match r {
            Ok(file) => exists|before: Seq<u8>, pixels: Seq<u8>|
                {
                    &&& before.len() == 4 * side * side
                    &&& forall|i: int| 0 <= i < before.len() ==> #[trigger] before[i] == 0
                    &&& #[trigger] draw_outcome(*tree, transform, side, side, before, pixels)
                    &&& png_encoding(side, side, pixels) == Some(file@)
                },
            Err(RenderError::Encode(_)) => exists|before: Seq<u8>, pixels: Seq<u8>|
                {
                    &&& before.len() == 4 * side * side
                    &&& forall|i: int| 0 <= i < before.len() ==> #[trigger] before[i] == 0
                    &&& #[trigger] draw_outcome(*tree, transform, side, side, before, pixels)
                    &&& png_encoding(side, side, pixels) is None
                },
            Err(RenderError::Allocate) => true,
            Err(RenderError::Parse(_)) => false,
        },
{
    assert(blank(side).len() == 4 * side * side) by {
        assert(4 * side * side >= 0) by (nonlinear_arith)
            requires
                side >= 0,
        ;
    }
}

/// An image of a drawing that is plain, with a side up to 4096 pixels, is left
/// out only where a transform has a number that is too large, and one of any
/// other drawing or side is always left out.
pub proof fn plain_png_is_left_out_only_where_it_must<
    F: Fn(usvg::Size, u32) -> tiny_skia::Transform,
>(svg: &str, side: u32, fit: F, plain: bool, r: Option<Result<Vec<u8>, RenderError>>)
    requires
        call_ensures(is_plain_drawing, (svg,), plain),
        call_ensures(render_plain_png::<F>, (svg, side, &fit), r),
    ensures
        !plain || side > 4096 ==> r is None,
        plain && side <= 4096 && r is None ==> exists|
            size: usvg::Size,
            transform: tiny_skia::Transform,
            i: int,
        |
            {
                &&& 0 <= i < 6
                &&& #[trigger] call_ensures(fit, (size, side), transform)
                &&& !(-4096 < #[trigger] transform_numbers(transform)[i] < 4096) || (i < 4 && !(-64
                    < transform_numbers(transform)[i] < 64))
            },
{
    if plain && side <= 4096 && r is None {
        let (size, transform) = choose|size: usvg::Size, transform: tiny_skia::Transform|
            #[trigger] call_ensures(fit, (size, side), transform) && !is_moderate(transform);
        let n = transform_numbers(transform);
        assert(call_ensures(fit, (size, side), transform));
        if -64 < n[0] < 64 && -64 < n[1] < 64 && -64 < n[2] < 64 && -64 < n[3] < 64 {
            assert(!(-4096 < n[4] < 4096) || !(-4096 < n[5] < 4096));
        }
    }
}

/// With moderate transforms, a file of an icon set is left out only where it is
/// an image and the drawing is not plain or the side too large.
pub proof fn plain_set_file_is_left_out_only_where_it_must<
    F: Fn(usvg::Size, u32) -> tiny_skia::Transform,
>(
    svg: &str,
    content: Content,
    fit: F,
    plain: bool,
    r: Option<Result<Vec<u8>, SetFileError>>,
)
    requires
        call_ensures(is_plain_drawing, (svg,), plain),
        call_ensures(plain_set_file_bytes::<F>, (svg, content, &fit), r),
    ensures
        content is Manifest ==> r is Some,
        content is Ico && plain ==> r is Some,
        content matches Content::Png(side) ==> plain && side <= 4096 ==> r is Some,
{
}

/// The manifest of an icon set is the same for every drawing: it names the two
/// large images with their sizes and leaves the names of the site empty.
pub proof fn manifest_names_the_large_images<F: Fn(usvg::Size, u32) -> tiny_skia::Transform>(
    svg: &str,
    fit: F,
    r: Result<Vec<u8>, SetFileError>,
)
    requires
        call_ensures(set_file_bytes::<F>, (svg, Content::Manifest, &fit), r),
    ensures
        r matches Ok(file) && file@ == encode_utf8(
            "{\n    \"name\": \"\",\n    \"short_name\": \"\",\n    \"icons\": [\n        {\n            \"src\": \"/android-chrome-192x192.png\",\n            \"sizes\": \"192x192\",\n            \"type\": \"image/png\"\n        },\n        {\n            \"src\": \"/android-chrome-512x512.png\",\n            \"sizes\": \"512x512\",\n            \"type\": \"image/png\"\n        }\n    ],\n    \"theme_color\": \"#ffffff\",\n    \"background_color\": \"#ffffff\",\n    \"display\": \"standalone\"\n}\n"@,
        ),
{
}

/// An error tells what was being done when it came up.
pub proof fn png_errors_tell_what_was_being_done(e: &RenderError, r: &'static str)
    requires
        call_ensures(RenderError::context, (e,), r),
    ensures
        r@ == match *e {
            RenderError::Parse(_) => "Failed to parse SVG"@,
            RenderError::Allocate => "Failed to allocate pixmap"@,
            RenderError::Encode(_) => "Failed to encode PNG"@,
        },
{
}

/// An error tells what was being done when it came up.
pub proof fn ico_errors_tell_what_was_being_done(e: &IcoError, r: &'static str)
    requires
        call_ensures(IcoError::context, (e,), r),
    ensures
        r@ == match *e {
            IcoError::Parse(_) => "Failed to parse SVG for ICO"@,
            IcoError::Allocate => "Failed to allocate pixmap for ICO"@,
            IcoError::Encode(_) => "ICO encode error"@,
            IcoError::TooLarge | IcoError::Write(_) => "Failed to write ICO"@,
        },
{
}

impl RenderError {
    /// What was being done when the error came up.
    pub open spec fn context_spec(self) -> Seq<char> {
        match self {
            RenderError::Parse(_) => "Failed to parse SVG"@,
            RenderError::Allocate => "Failed to allocate pixmap"@,
            RenderError::Encode(_) => "Failed to encode PNG"@,
        }
    }

    /// What was being done when the error came up.
    pub fn context(&self) -> (r: &'static str)
        ensures
            r@ == self.context_spec(),
    {
        match self {
            RenderError::Parse(_) => "Failed to parse SVG",
            RenderError::Allocate => "Failed to allocate pixmap",
            RenderError::Encode(_) => "Failed to encode PNG",
        }
    }
}

impl IcoError {
    /// What was being done when the error came up.
    pub open spec fn context_spec(self) -> Seq<char> {
        match self {
            IcoError::Parse(_) => "Failed to parse SVG for ICO"@,
            IcoError::Allocate => "Failed to allocate pixmap for ICO"@,
            IcoError::Encode(_) => "ICO encode error"@,
            IcoError::TooLarge => "Failed to write ICO"@,
            IcoError::Write(_) => "Failed to write ICO"@,
        }
    }

    /// What was being done when the error came up.
    pub fn context(&self) -> (r: &'static str)
        ensures
            r@ == self.context_spec(),
    {
        match self {
            IcoError::Parse(_) => "Failed to parse SVG for ICO",
            IcoError::Allocate => "Failed to allocate pixmap for ICO",
            IcoError::Encode(_) => "ICO encode error",
            IcoError::TooLarge => "Failed to write ICO",
            IcoError::Write(_) => "Failed to write ICO",
        }
    }
}

} // verus!
