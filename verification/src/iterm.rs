//! iTerm2 inline-image encoder: a base64 PNG wrapped in the `1337`
//! escape, with an LRU byte cache.
use vstd::prelude::*;

use std::io::Write;

use crate::cache::{
    cache_entries, cache_order, lru_get, lru_new, lru_put, lru_wf, shrink_to_budget, sum_bytes,
    ByteCache,
};
use crate::codec::{push_dec, spec_base64, spec_dec};
use crate::error::Error;
use crate::image::{image_wf, Image};
use crate::kitty::rgba_bytes;
use crate::terminal::Position;

verus! {

/// Upper bound, in bytes, on each encoder's cache of finished payloads.
pub const IMAGE_CACHE_SIZE: usize = 134217728;

/// The PNG stream that the `png` crate produces for an 8-bit RGBA
/// image of the given dimensions; a function of its arguments alone.
pub uninterp spec fn png_of(width: u32, height: u32, rgba: Seq<u8>) -> Seq<u8>;

/// Relies on png::Encoder with 8-bit RGBA color: the encoded stream
/// depends only on the dimensions and pixel bytes, and with nonzero
/// dimensions, exactly `width * height * 4` data bytes and a `Vec` as
/// the sink, header, data and trailer writing cannot fail.
#[verifier::external_body]
fn png_encode_rgba(width: u32, height: u32, data: &Vec<u8>) -> (r: Vec<u8>)
    requires
        width >= 1,
        height >= 1,
        data@.len() == width * height * 4,
    ensures
        r@ == png_of(width, height, data@),
{
    let mut buf: Vec<u8> = Vec::new();
    {
        let mut encoder = png::Encoder::new(&mut buf, width, height);
        encoder.set_color(png::ColorType::Rgba);
        encoder.set_depth(png::BitDepth::Eight);
        let mut writer = encoder.write_header().expect("png header");
        let mut stream = writer.stream_writer().expect("png stream");
        stream.write_all(data.as_slice()).expect("png data");
        stream.finish().expect("png trailer");
    }
    buf
}

/// The inline-image escape for a PNG payload:
/// `ESC ] 1337 ; File=inline=1;width={w}px : <base64 PNG> BEL`.
pub open spec fn spec_iterm_frame(width: u64, png: Seq<u8>) -> Seq<u8> {
    seq![27u8, 93u8, 49u8, 51u8, 51u8, 55u8, 59u8]
    // File=inline=1;width=
     + seq![
        70u8, 105u8, 108u8, 101u8, 61u8, 105u8, 110u8, 108u8, 105u8, 110u8, 101u8, 61u8, 49u8,
        59u8, 119u8, 105u8, 100u8, 116u8, 104u8, 61u8,
    ] + spec_dec(width as int)
    // px:
     + seq![112u8, 120u8, 58u8] + spec_base64(png) + seq![7u8]
}

/// Build the inline-image escape around an already encoded PNG.
pub fn iterm_frame(width: u64, png: &Vec<u8>) -> (r: Vec<u8>)
    ensures
        r@ == spec_iterm_frame(width, png@),
{
    let mut out: Vec<u8> = Vec::new();
    out.push(27);
    out.push(93);
    out.push(49);
    out.push(51);
    out.push(51);
    out.push(55);
    out.push(59);
    out.push(70);
    out.push(105);
    out.push(108);
    out.push(101);
    out.push(61);
    out.push(105);
    out.push(110);
    out.push(108);
    out.push(105);
    out.push(110);
    out.push(101);
    out.push(61);
    out.push(49);
    out.push(59);
    out.push(119);
    out.push(105);
    out.push(100);
    out.push(116);
    out.push(104);
    out.push(61);
    push_dec(&mut out, width);
    out.push(112);
    out.push(120);
    out.push(58);
    let mut encoded = crate::codec::base64_encode(png);
    out.append(&mut encoded);
    out.push(7);
    proof {
        assert(out@ =~= spec_iterm_frame(width, png@));
    }
    out
}

/// Image handler for the iTerm2 inline-image protocol, with an LRU
/// cache of finished frames keyed by image fingerprint.
pub struct ItermImageHandler {
    pub imgs: ByteCache,
    pub size: usize,
}

/// The byte accounting matches the cache contents.
pub open spec fn iterm_wf(h: ItermImageHandler) -> bool {
    &&& lru_wf(h.imgs)
    &&& h.size as int == sum_bytes(cache_order(h.imgs), cache_entries(h.imgs))
    &&& h.size <= IMAGE_CACHE_SIZE || cache_order(h.imgs).len() <= 1
}

impl ItermImageHandler {
    /// A handler with an empty cache.
    pub fn new() -> (r: ItermImageHandler)
        ensures
            iterm_wf(r),
            cache_order(r.imgs) == Seq::<u64>::empty(),
    {
        ItermImageHandler { imgs: lru_new(), size: 0 }
    }

    /// Draw `img`: emit the cached frame, or encode the image as PNG,
    /// emit and cache the frame, evicting least-recently-used frames
    /// beyond the cache budget. Fails exactly on an uncached zero-sized
    /// image, leaving sink and state untouched.
    pub fn draw(&mut self, out: &mut Vec<u8>, img: &Image, _pos: Position) -> (r: Result<
        (),
        Error,
    >)
        requires
            image_wf(*img),
            iterm_wf(*old(self)),
        ensures
            iterm_wf(*final(self)),
            cache_entries(old(self).imgs).dom().contains(img.hash) ==> r is Ok && final(out)@
                == old(out)@ + cache_entries(old(self).imgs)[img.hash] && cache_entries(
                final(self).imgs,
            ) == cache_entries(old(self).imgs) && final(self).size == old(self).size,
            !cache_entries(old(self).imgs).dom().contains(img.hash) && r is Ok ==> {
                &&& final(out)@ == old(out)@ + spec_iterm_frame(
                    img.width as u64,
                    png_of(img.width as u32, img.height as u32, rgba_bytes(img.data@)),
                )
                &&& cache_entries(final(self).imgs).dom().contains(img.hash) ==> cache_entries(
                    final(self).imgs,
                )[img.hash] == spec_iterm_frame(
                    img.width as u64,
                    png_of(img.width as u32, img.height as u32, rgba_bytes(img.data@)),
                )
                &&& final(self).size <= IMAGE_CACHE_SIZE || cache_order(final(self).imgs).len()
                    <= 1
            },
            r is Err ==> final(out)@ == old(out)@ && cache_entries(final(self).imgs)
                == cache_entries(old(self).imgs) && cache_order(final(self).imgs) == cache_order(
                old(self).imgs,
            ) && final(self).size == old(self).size,
            !cache_entries(old(self).imgs).dom().contains(img.hash) ==> (r is Err <==> (img.width
                == 0 || img.height == 0)),
    {
        let hash = img.hash();
        let cached = lru_get(&mut self.imgs, hash);
        match cached {
            Some(data) => {
                let mut copy = clone_bytes(data);
                proof {
                    crate::cache::lemma_sum_bytes_congruent(
                        cache_order(self.imgs),
                        cache_entries(self.imgs),
                        cache_entries(self.imgs),
                    );
                    lemma_sum_bytes_move(
                        cache_order(old(self).imgs),
                        cache_entries(old(self).imgs),
                        hash,
                    );
                }
                out.append(&mut copy);
                proof {
                    assert(out@ =~= old(out)@ + cache_entries(old(self).imgs)[img.hash]);
                }
                Ok(())
            },
            None => {
                if img.width() == 0 || img.height() == 0 {
                    return Err(Error::EncodingInvariant(iterm_empty_message()));
                }
                proof {
                    assert(img.width * img.height * 4 <= crate::image::PIXEL_LIMIT * 4)
                        by (nonlinear_arith)
                        requires img.width * img.height <= crate::image::PIXEL_LIMIT;
                    assert(img.width <= img.width * img.height) by (nonlinear_arith)
                        requires img.height >= 1 && img.width >= 0;
                    assert(img.height <= img.width * img.height) by (nonlinear_arith)
                        requires img.width >= 1 && img.height >= 0;
                }
                // raw RGBA bytes of the image
                let mut raw: Vec<u8> = Vec::new();
                let total = img.data.len();
                let mut k: usize = 0;
                while k < total
                    invariant
                        total == img.data@.len(),
                        0 <= k <= total,
                        raw@ == rgba_bytes(img.data@.subrange(0, k as int)),
                    decreases total - k,
                {
                    let c = img.data[k];
                    raw.push(c.r);
                    raw.push(c.g);
                    raw.push(c.b);
                    raw.push(c.a);
                    proof {
                        let post = img.data@.subrange(0, k as int + 1);
                        assert(post.drop_last() =~= img.data@.subrange(0, k as int));
                        assert(post.last() == img.data@[k as int]);
                        assert(raw@ =~= rgba_bytes(post));
                    }
                    k = k + 1;
                }
                proof {
                    assert(img.data@.subrange(0, total as int) =~= img.data@);
                    assert(raw@.len() == 4 * img.data@.len()) by {
                        lemma_rgba_bytes_len(img.data@);
                    }
                    assert(img.width * img.height * 4 == 4 * (img.width * img.height))
                        by (nonlinear_arith);
                }
                let png = png_encode_rgba(img.width() as u32, img.height() as u32, &raw);
                let frame = iterm_frame(img.width() as u64, &png);
                let mut copy = clone_bytes(&frame);
                let frame_len = frame.len();
                out.append(&mut copy);
                proof {
                    lemma_sum_bytes_move(
                        cache_order(old(self).imgs),
                        cache_entries(old(self).imgs),
                        hash,
                    );
                    crate::cache::lemma_sum_bytes_put(
                        cache_order(self.imgs),
                        cache_entries(self.imgs),
                        hash,
                        frame@,
                    );
                }
                match self.size.checked_add(frame_len) {
                    Some(new_size) => {
                        lru_put(&mut self.imgs, hash, frame);
                        self.size = new_size;
                        shrink_to_budget(&mut self.imgs, &mut self.size, IMAGE_CACHE_SIZE);
                    },
                    None => {
                        // accounting would overflow: emit without caching
                    },
                }
                Ok(())
            },
        }
    }

    /// Erasing is a no-op: the terminal treats the image as ordinary
    /// cell content.
    pub fn erase(&mut self, _out: &mut Vec<u8>, _img: &Image, _pos: Option<Position>) -> (r:
        Result<(), Error>)
        ensures
            r is Ok,
            *final(self) == *old(self),
    {
        Ok(())
    }

    /// No terminal event concerns this handler.
    pub fn handle(&mut self, _event: &crate::terminal::TerminalEvent) -> (r: Result<bool, Error>)
        ensures
            r == Ok::<bool, Error>(false),
            *final(self) == *old(self),
    {
        Ok(false)
    }
}

/// The message reported for a zero-sized image.
fn iterm_empty_message() -> (s: String)
    ensures
        true,
{
    let bytes: Vec<u8> = vec![101, 109, 112, 116, 121, 32, 105, 109, 97, 103, 101];
    crate::codec::ascii_string(&bytes)
}

/// Copy a byte vector.
pub fn clone_bytes(data: &Vec<u8>) -> (r: Vec<u8>)
    ensures
        r@ == data@,
{
    let mut out: Vec<u8> = Vec::new();
    let mut i: usize = 0;
    while i < data.len()
        invariant
            0 <= i <= data@.len(),
            out@ == data@.subrange(0, i as int),
        decreases data@.len() - i,
    {
        out.push(data[i]);
        proof {
            assert(out@ =~= data@.subrange(0, i as int + 1));
        }
        i = i + 1;
    }
    proof {
        assert(out@ =~= data@);
    }
    out
}

/// Marking a present key most-recently-used keeps the byte total.
pub proof fn lemma_sum_bytes_move(order: Seq<u64>, entries: Map<u64, Seq<u8>>, k: u64)
    requires
        order.no_duplicates(),
    ensures
        order.contains(k) ==> sum_bytes(crate::cache::move_to_back(order, k), entries)
            == sum_bytes(order, entries),
{
    if order.contains(k) {
        let i = order.index_of(k);
        crate::cache::lemma_sum_bytes_remove(order, entries, i);
        let removed = order.remove(i);
        assert(sum_bytes(removed.push(k), entries) == sum_bytes(removed, entries)
            + entries[k].len()) by {
            assert(removed.push(k).drop_last() =~= removed);
        }
    }
}

/// Four bytes for every pixel.
pub proof fn lemma_rgba_bytes_len(data: Seq<crate::color::RGBA>)
    ensures
        rgba_bytes(data).len() == 4 * data.len(),
    decreases data.len(),
{
    if data.len() > 0 {
        lemma_rgba_bytes_len(data.drop_last());
    }
}

} // verus!
