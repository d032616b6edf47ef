//! Pictures as the starting state of a simulation: each colour is a category.
use vstd::prelude::*;
use crate::error::SimulationError;

verus! {

/// A colour, as red, green and blue components.
pub type Rgb = (u8, u8, u8);

/// A picture in 8-bit RGB: `data` holds the three components of each pixel, row after row.
pub struct RgbImage {
    pub width: u32,
    pub height: u32,
    pub data: Vec<u8>,
}

/// The colour of pixel `i` in the raw components `data`.
pub open spec fn pixel_at(data: Seq<u8>, i: int) -> Rgb {
    (data[3 * i], data[3 * i + 1], data[3 * i + 2])
}

/// The first `count` pixels of the raw components `data`.
pub open spec fn pixels_of(data: Seq<u8>, count: int) -> Seq<Rgb> {
    Seq::new(count as nat, |i: int| pixel_at(data, i))
}

/// The colours of `s`, each once, in the order of their first appearance.
pub open spec fn palette(s: Seq<Rgb>) -> Seq<Rgb>
    decreases s.len(),
{
    if s.len() == 0 {
        Seq::empty()
    } else {
        let p = palette(s.drop_last());
        if p.contains(s.last()) {
            p
        } else {
            p.push(s.last())
        }
    }
}

/// The error that setting up a simulation from a picture of `w` by `h` pixels with raw
/// components `data` meets, if any: the picture must be square, have at most 256 colours
/// (the categories are numbered by a `u8`) and not be empty.
pub open spec fn image_error(w: u32, h: u32, data: Seq<u8>) -> Option<SimulationError> {
    if w != h {
        Some(SimulationError::NonSquareImage)
    } else if palette(pixels_of(data, w * h)).len() > 256 {
        Some(SimulationError::TooManyColors)
    } else if w == 0 {
        Some(SimulationError::NoMaximum)
    } else {
        None
    }
}

/// The colour of pixel `i`.
pub(crate) fn read_pixel(data: &Vec<u8>, i: usize) -> (c: Rgb)
    requires
        3 * i + 2 < data@.len(),
    ensures
        c == pixel_at(data@, i as int),
{
    let len = data.len();
    assert(3 * i + 2 < len);
    (data[3 * i], data[3 * i + 1], data[3 * i + 2])
}

/// The position of `c` in `colors`.
pub(crate) fn color_position(colors: &Vec<Rgb>, c: Rgb) -> (r: Option<usize>)
    ensures
        r matches Some(j) ==> j < colors@.len() && colors@[j as int] == c,
        r is None ==> !colors@.contains(c),
{
    let mut j: usize = 0;
    while j < colors.len()
        invariant
            j <= colors@.len(),
            forall|l: int| 0 <= l < j ==> colors@[l] != c,
        decreases colors@.len() - j,
    {
        let e = colors[j];
        if e.0 == c.0 && e.1 == c.1 && e.2 == c.2 {
            return Some(j);
        }
        j = j + 1;
    }
    None
}

/// What decoding `bytes` as a picture file whose name has the extension `extension` gives:
/// the width, the height and the raw RGB components, or nothing when the extension names no
/// picture format or the bytes are no picture of that format.
pub uninterp spec fn decoded_image(bytes: Seq<u8>, extension: Seq<char>) -> Option<(u32, u32, Seq<u8>)>;

/// Calls `image::ImageFormat::from_extension`, which picks the picture format from a file
/// name's extension, then decodes the bytes in that format with `ImageReader::with_format`
/// and `ImageReader::decode`, and takes the RGB components with `DynamicImage::to_rgb8` and
/// `ImageBuffer::into_raw`. The claims: the result is `decoded_image` of the bytes and the
/// extension, and the buffer holds at least three components per pixel (the image crate
/// builds its buffers only so).
#[verifier::external_body]
pub(crate) fn decode_image(bytes: &[u8], extension: &str) -> (img: Option<RgbImage>)
    ensures
        img is None <==> decoded_image(bytes@, extension@) is None,
        img matches Some(im) ==> {
            &&& decoded_image(bytes@, extension@) == Some((im.width, im.height, im.data@))
            &&& im.data@.len() >= 3 * im.width * im.height
        },
{
    let format = match image::ImageFormat::from_extension(extension) {
        Some(format) => format,
        None => return None,
    };
    match image::ImageReader::with_format(std::io::Cursor::new(bytes), format).decode() {
        Ok(img) => {
            let rgb = img.to_rgb8();
            Some(RgbImage { width: rgb.width(), height: rgb.height(), data: rgb.into_raw() })
        },
        Err(_) => None,
    }
}

/// The palette of a sequence is the palette of a prefix, extended by at most one colour.
pub proof fn lemma_palette_step(s: Seq<Rgb>, i: int)
    requires
        0 <= i < s.len(),
    ensures
        palette(s.take(i + 1)) == if palette(s.take(i)).contains(s[i]) {
            palette(s.take(i))
        } else {
            palette(s.take(i)).push(s[i])
        },
{
    assert(s.take(i + 1).drop_last() =~= s.take(i));
    assert(s.take(i + 1).last() == s[i]);
}

/// The palette of a prefix is no longer than the palette of the whole.
pub proof fn lemma_palette_len_monotone(s: Seq<Rgb>, i: int)
    requires
        0 <= i <= s.len(),
    ensures
        palette(s.take(i)).len() <= palette(s).len(),
    decreases s.len() - i,
{
    if i < s.len() {
        lemma_palette_step(s, i);
        lemma_palette_len_monotone(s, i + 1);
    } else {
        assert(s.take(i) =~= s);
    }
}

/// A palette names each colour once.
pub proof fn law_palette_distinct(s: Seq<Rgb>)
    ensures
        palette(s).no_duplicates(),
    decreases s.len(),
{
    if s.len() > 0 {
        law_palette_distinct(s.drop_last());
    }
}

/// Each colour of the palette is the colour of some pixel, and each pixel's colour is in it.
pub proof fn law_palette_is_the_set_of_colours(s: Seq<Rgb>)
    ensures
        forall|j: int| 0 <= j < palette(s).len() ==> s.contains(#[trigger] palette(s)[j]),
        forall|i: int| 0 <= i < s.len() ==> palette(s).contains(#[trigger] s[i]),
    decreases s.len(),
{
    if s.len() > 0 {
        let t = s.drop_last();
        law_palette_is_the_set_of_colours(t);
        let p = palette(t);
        assert forall|j: int| 0 <= j < palette(s).len() implies s.contains(#[trigger] palette(s)[j]) by {
            if j < p.len() {
                assert(t.contains(p[j]));
                let w = choose|w: int| 0 <= w < t.len() && t[w] == p[j];
                assert(s[w] == p[j]);
            } else {
                assert(s[s.len() - 1] == palette(s)[j]);
            }
        }
        assert forall|i: int| 0 <= i < s.len() implies palette(s).contains(#[trigger] s[i]) by {
            if i < t.len() {
                assert(t[i] == s[i]);
                assert(p.contains(s[i]));
                let w = choose|w: int| 0 <= w < p.len() && p[w] == s[i];
                assert(palette(s)[w] == s[i]);
            } else {
                if !p.contains(s.last()) {
                    assert(palette(s)[p.len() as int] == s[i]);
                }
            }
        }
    }
}

} // verus!
