//! Kitty graphics protocol encoder: zlib+base64 chunked transfer with
//! placement tracking and acknowledgment-driven eviction.
use vstd::prelude::*;

use std::collections::HashMap;
use std::io::Write;

use crate::codec::{push_dec, spec_base64, spec_dec};
use crate::color::RGBA;
use crate::error::Error;
use crate::image::{image_wf, Image};
use crate::terminal::{Position, TerminalEvent};

verus! {

/// The compressed form that flate2's zlib encoder produces, at the
/// default level, for a byte string; a function of the input alone.
pub uninterp spec fn zlib_of(data: Seq<u8>) -> Seq<u8>;

/// Relies on flate2's `ZlibEncoder`: deflate at the default level is
/// deterministic in the input bytes, and writing into a `Vec` cannot
/// fail.
#[verifier::external_body]
fn zlib_compress(data: &Vec<u8>) -> (r: Vec<u8>)
    ensures
        r@ == zlib_of(data@),
{
    let mut encoder = flate2::write::ZlibEncoder::new(Vec::new(), flate2::Compression::default());
    let _ = encoder.write_all(data.as_slice());
    encoder.finish().unwrap_or_default()
}

/// The pixels of an image flattened to `r, g, b, a` bytes.
pub open spec fn rgba_bytes(data: Seq<RGBA>) -> Seq<u8>
    decreases data.len(),
{
    if data.len() == 0 {
        Seq::empty()
    } else {
        rgba_bytes(data.drop_last()) + seq![
            data.last().r,
            data.last().g,
            data.last().b,
            data.last().a,
        ]
    }
}

/// Kitty image identifier: the fingerprint folded into 32 bits.
pub open spec fn spec_kitty_image_id(hash: u64) -> u64 {
    hash % 0x1_0000_0000
}

/// Kitty placement identifier derived from a cell position.
pub open spec fn spec_kitty_placement_id(pos: Position) -> u64 {
    ((pos.row as u64 % 0x1_0000) + (pos.col as u64 % 0x1_0000) * 0x1_0000) as u64
}

/// `ESC _ G`, the APC frame introducer.
pub open spec fn apc_intro() -> Seq<u8> {
    seq![27u8, 95u8, 71u8]
}

/// `ESC \`, the APC frame terminator.
pub open spec fn apc_outro() -> Seq<u8> {
    seq![27u8, 92u8]
}

/// The first transfer frame: all control keys, then the chunk.
pub open spec fn kitty_header_frame(id: u64, v: u64, s: u64, more: u64, chunk: Seq<u8>) -> Seq<
    u8,
> {
    apc_intro()
    // a=t,f=32,o=z,i=
     + seq![97u8, 61u8, 116u8, 44u8, 102u8, 61u8, 51u8, 50u8, 44u8, 111u8, 61u8, 122u8, 44u8, 105u8, 61u8]
        + spec_dec(id as int)
    // ,v=
     + seq![44u8, 118u8, 61u8] + spec_dec(v as int)
    // ,s=
     + seq![44u8, 115u8, 61u8] + spec_dec(s as int)
    // ,m=
     + seq![44u8, 109u8, 61u8] + spec_dec(more as int) + seq![59u8] + chunk + apc_outro()
}

/// A continuation frame: only the `m` key, then the chunk.
pub open spec fn kitty_more_frame(more: u64, chunk: Seq<u8>) -> Seq<u8> {
    apc_intro() + seq![109u8, 61u8] + spec_dec(more as int) + seq![59u8] + chunk + apc_outro()
}

/// The transfer frames for a payload, split into 4096-byte chunks; the
/// first frame carries the full key set.
pub open spec fn kitty_chunks(id: u64, v: u64, s: u64, payload: Seq<u8>, first: bool) -> Seq<u8>
    decreases payload.len(),
{
    if payload.len() == 0 {
        Seq::empty()
    } else {
        let n = if payload.len() > 4096 {
            4096int
        } else {
            payload.len() as int
        };
        let more = if payload.len() > 4096 {
            1u64
        } else {
            0u64
        };
        let frame = if first {
            kitty_header_frame(id, v, s, more, payload.subrange(0, n))
        } else {
            kitty_more_frame(more, payload.subrange(0, n))
        };
        frame + kitty_chunks(id, v, s, payload.subrange(n, payload.len() as int), false)
    }
}

/// The full transfer sequence of an image: zlib over the raw RGBA
/// bytes, base64, chunked into APC frames.
pub open spec fn kitty_transfer(id: u64, v: u64, s: u64, pixels: Seq<RGBA>) -> Seq<u8> {
    kitty_chunks(id, v, s, spec_base64(zlib_of(rgba_bytes(pixels))), true)
}

/// The placement frame: show image `id` at placement `pid`.
pub open spec fn kitty_placement(id: u64, pid: u64) -> Seq<u8> {
    apc_intro()
    // a=p,i=
     + seq![97u8, 61u8, 112u8, 44u8, 105u8, 61u8] + spec_dec(id as int)
    // ,p=
     + seq![44u8, 112u8, 61u8] + spec_dec(pid as int) + seq![59u8] + apc_outro()
}

/// The erase frame for one placement of an image.
pub open spec fn kitty_erase_pos(id: u64, pid: u64) -> Seq<u8> {
    apc_intro()
    // a=d,d=i,i=
     + seq![97u8, 61u8, 100u8, 44u8, 100u8, 61u8, 105u8, 44u8, 105u8, 61u8] + spec_dec(id as int)
    // ,p=
     + seq![44u8, 112u8, 61u8] + spec_dec(pid as int) + apc_outro()
}

/// The erase frame for all placements of an image.
pub open spec fn kitty_erase_all(id: u64) -> Seq<u8> {
    apc_intro() + seq![97u8, 61u8, 100u8, 44u8, 100u8, 61u8, 105u8, 44u8, 105u8, 61u8]
        + spec_dec(id as int) + apc_outro()
}

/// Image handler for the kitty graphics protocol. The map remembers,
/// by image id, the byte size of every payload already transferred:
/// presence alone suppresses retransmission.
pub struct KittyImageHandler {
    pub imgs: HashMap<u64, u64>,
}

impl KittyImageHandler {
    /// A handler that has transferred nothing yet.
    pub fn new() -> (r: KittyImageHandler)
        ensures
            r.imgs@ == Map::<u64, u64>::empty(),
    {
        KittyImageHandler { imgs: HashMap::new() }
    }

    /// Draw `img` at `pos`: transfer the payload if this image id was
    /// never transferred, then always emit one placement frame.
    pub fn draw(&mut self, out: &mut Vec<u8>, img: &Image, pos: Position) -> (r: Result<
        (),
        Error,
    >)
        requires
            image_wf(*img),
        ensures
            r is Ok,
            ({
                let id = spec_kitty_image_id(img.hash);
                let pid = spec_kitty_placement_id(pos);
                if old(self).imgs@.contains_key(id) {
                    final(out)@ == old(out)@ + kitty_placement(id, pid) && final(self).imgs@
                        == old(self).imgs@
                } else {
                    final(out)@ == old(out)@ + kitty_transfer(
                        id,
                        img.height as u64,
                        img.width as u64,
                        img.data@,
                    ) + kitty_placement(id, pid) && final(self).imgs@ == old(self).imgs@.insert(
                        id,
                        (img.width * img.height * 4) as u64,
                    )
                }
            }),
    {
        broadcast use vstd::std_specs::hash::group_hash_axioms;

        let id = img.hash() % 0x1_0000_0000u64;
        if !self.imgs.contains_key(&id) {
            // raw RGBA bytes of the image
            let mut raw: Vec<u8> = Vec::new();
            let total = img.data.len();
            let mut k: usize = 0;
            while k < total
                invariant
                    total == img.data@.len(),
                    0 <= k <= total,
                    raw@ == rgba_bytes(img.data@.subrange(0, k as int)),
                decreases total - k,
            {
                let c = img.data[k];
                raw.push(c.r);
                raw.push(c.g);
                raw.push(c.b);
                raw.push(c.a);
                proof {
                    let pre = img.data@.subrange(0, k as int);
                    let post = img.data@.subrange(0, k as int + 1);
                    assert(post.drop_last() =~= pre);
                    assert(post.last() == img.data@[k as int]);
                    assert(raw@ =~= rgba_bytes(post));
                }
                k = k + 1;
            }
            proof {
                assert(img.data@.subrange(0, total as int) =~= img.data@);
            }
            let compressed = zlib_compress(&raw);
            let payload = crate::codec::base64_encode(&compressed);
            // send the payload in chunks of 4096 bytes; chunk lengths
            // stay divisible by 4 because base64 groups are 4 bytes
            let n = payload.len();
            let mut i: usize = 0;
            let mut first = true;
            proof {
                assert(payload@.subrange(0, n as int) =~= payload@);
            }
            while i < n
                invariant
                    n == payload@.len(),
                    0 <= i <= n,
                    first == (i == 0),
                    out@ + kitty_chunks(
                        spec_kitty_image_id(img.hash),
                        img.height as u64,
                        img.width as u64,
                        payload@.subrange(i as int, n as int),
                        first,
                    ) == old(out)@ + kitty_chunks(
                        spec_kitty_image_id(img.hash),
                        img.height as u64,
                        img.width as u64,
                        payload@,
                        true,
                    ),
                    id == spec_kitty_image_id(img.hash),
                    image_wf(*img),
                decreases n - i,
            {
                let len = n - i;
                let take = if len > 4096 {
                    4096
                } else {
                    len
                };
                let more: u64 = if len > 4096 {
                    1
                } else {
                    0
                };
                let ghost rest = payload@.subrange(i as int, n as int);
                push_chunk_frame(out, id, img.height() as u64, img.width() as u64, more,
                    &payload, i, take, first);
                proof {
                    let chunk = rest.subrange(0, take as int);
                    assert(chunk =~= payload@.subrange(i as int, i as int + take as int));
                    assert(rest.subrange(take as int, rest.len() as int) =~= payload@.subrange(
                        i as int + take as int,
                        n as int,
                    ));
                }
                i = i + take;
                first = false;
            }
            proof {
                assert(payload@.subrange(n as int, n as int) =~= Seq::<u8>::empty());
                assert(out@ =~= old(out)@ + kitty_transfer(
                    spec_kitty_image_id(img.hash),
                    img.height as u64,
                    img.width as u64,
                    img.data@,
                ));
            }
            let size = img.size() as u64;
            self.imgs.insert(id, size);
        }
        // request the image to be shown at this placement
        let pid = (pos.row as u64 % 0x1_0000) + (pos.col as u64 % 0x1_0000) * 0x1_0000;
        let ghost out_before_placement = out@;
        push_apc_intro(out);
        out.push(97);
        out.push(61);
        out.push(112);
        out.push(44);
        out.push(105);
        out.push(61);
        push_dec(out, id);
        out.push(44);
        out.push(112);
        out.push(61);
        push_dec(out, pid);
        out.push(59);
        out.push(27);
        out.push(92);
        proof {
            assert(out@ =~= out_before_placement + kitty_placement(
                spec_kitty_image_id(img.hash),
                spec_kitty_placement_id(pos),
            ));
        }
        Ok(())
    }

    /// Erase one placement of the image, or all of them when no
    /// position is given; the transferred payload stays on the
    /// terminal side.
    pub fn erase(&mut self, out: &mut Vec<u8>, img: &Image, pos: Option<Position>) -> (r: Result<
        (),
        Error,
    >)
        ensures
            r is Ok,
            final(self).imgs@ == old(self).imgs@,
            final(out)@ == old(out)@ + (match pos {
                Some(p) => kitty_erase_pos(
                    spec_kitty_image_id(img.hash),
                    spec_kitty_placement_id(p),
                ),
                None => kitty_erase_all(spec_kitty_image_id(img.hash)),
            }),
    {
        let id = img.hash() % 0x1_0000_0000u64;
        let ghost out0 = out@;
        push_apc_intro(out);
        out.push(97);
        out.push(61);
        out.push(100);
        out.push(44);
        out.push(100);
        out.push(61);
        out.push(105);
        out.push(44);
        out.push(105);
        out.push(61);
        push_dec(out, id);
        match pos {
            Some(p) => {
                let pid = (p.row as u64 % 0x1_0000) + (p.col as u64 % 0x1_0000) * 0x1_0000;
                out.push(44);
                out.push(112);
                out.push(61);
                push_dec(out, pid);
                out.push(27);
                out.push(92);
                proof {
                    assert(out@ =~= out0 + kitty_erase_pos(
                        spec_kitty_image_id(img.hash),
                        spec_kitty_placement_id(p),
                    ));
                }
            },
            None => {
                out.push(27);
                out.push(92);
                proof {
                    assert(out@ =~= out0 + kitty_erase_all(spec_kitty_image_id(img.hash)));
                }
            },
        }
        Ok(())
    }

    /// Interpret a terminal event: a kitty acknowledgment that carries
    /// an error drops the image from the transfer map (so the next draw
    /// retransmits) and is handed back to the caller for a redraw; a
    /// clean acknowledgment is filtered out. Everything else is left
    /// for the caller.
    pub fn handle(&mut self, event: &TerminalEvent) -> (r: Result<bool, Error>)
        ensures
            r is Ok,
            (match event {
                TerminalEvent::KittyImage { id, error } => {
                    if error is Some {
                        final(self).imgs@ == old(self).imgs@.remove(*id as u64) && r == Ok::<
                            bool,
                            Error,
                        >(false)
                    } else {
                        final(self).imgs@ == old(self).imgs@ && r == Ok::<bool, Error>(true)
                    }
                },
                _ => final(self).imgs@ == old(self).imgs@ && r == Ok::<bool, Error>(false),
            }),
    {
        broadcast use vstd::std_specs::hash::group_hash_axioms;

        match event {
            TerminalEvent::KittyImage { id, error } => {
                match error {
                    Some(_) => {
                        // the terminal rejected this image: forget it so
                        // the next draw retransmits, and let the caller
                        // see the event
                        let key = *id as u64;
                        self.imgs.remove(&key);
                        Ok(false)
                    },
                    None => Ok(true),
                }
            },
            _ => Ok(false),
        }
    }
}

/// Append one APC transfer frame carrying
/// `payload[i .. i + take]`.
#[verifier::rlimit(60)]
fn push_chunk_frame(
    out: &mut Vec<u8>,
    id: u64,
    v: u64,
    s: u64,
    more: u64,
    payload: &Vec<u8>,
    i: usize,
    take: usize,
    first: bool,
)
    requires
        i + take <= payload@.len(),
    ensures
        final(out)@ == old(out)@ + (if first {
            kitty_header_frame(id, v, s, more, payload@.subrange(i as int, i as int + take))
        } else {
            kitty_more_frame(more, payload@.subrange(i as int, i as int + take))
        }),
{
    push_apc_intro(out);
    if first {
        push_header_keys(out);
        push_dec(out, id);
        out.push(44);
        out.push(118);
        out.push(61);
        push_dec(out, v);
        out.push(44);
        out.push(115);
        out.push(61);
        push_dec(out, s);
        out.push(44);
        out.push(109);
        out.push(61);
        push_dec(out, more);
    } else {
        out.push(109);
        out.push(61);
        push_dec(out, more);
    }
    out.push(59);
    let pn = payload.len();
    proof {
        assert(i + take <= pn);
    }
    let ghost out_mid = out@;
    let mut t: usize = 0;
    while t < take
        invariant
            i + take <= pn,
            pn == payload@.len(),
            0 <= t <= take,
            out@ == out_mid + payload@.subrange(i as int, i as int + t as int),
        decreases take - t,
    {
        out.push(payload[i + t]);
        proof {
            assert(out@ =~= out_mid + payload@.subrange(i as int, i as int + t as int + 1));
        }
        t = t + 1;
    }
    out.push(27);
    out.push(92);
    proof {
        let chunk = payload@.subrange(i as int, i as int + take as int);
        if first {
            assert(out@ =~= old(out)@ + kitty_header_frame(id, v, s, more, chunk));
        } else {
            assert(out@ =~= old(out)@ + kitty_more_frame(more, chunk));
        }
    }
}

/// Push `ESC _ G`.
fn push_apc_intro(out: &mut Vec<u8>)
    ensures
        final(out)@ == old(out)@ + apc_intro(),
{
    out.push(27);
    out.push(95);
    out.push(71);
    proof {
        assert(out@ =~= old(out)@ + apc_intro());
    }
}

/// Push `a=t,f=32,o=z,i=`.
fn push_header_keys(out: &mut Vec<u8>)
    ensures
        final(out)@ == old(out)@ + seq![
            97u8, 61u8, 116u8, 44u8, 102u8, 61u8, 51u8, 50u8, 44u8, 111u8, 61u8, 122u8, 44u8,
            105u8, 61u8,
        ],
{
    out.push(97);
    out.push(61);
    out.push(116);
    out.push(44);
    out.push(102);
    out.push(61);
    out.push(51);
    out.push(50);
    out.push(44);
    out.push(111);
    out.push(61);
    out.push(122);
    out.push(44);
    out.push(105);
    out.push(61);
    proof {
        assert(out@ =~= old(out)@ + seq![
            97u8, 61u8, 116u8, 44u8, 102u8, 61u8, 51u8, 50u8, 44u8, 111u8, 61u8, 122u8, 44u8,
            105u8, 61u8,
        ]);
    }
}

/// Drawing the same image twice transfers its payload exactly once:
/// the first draw of an untransferred image appends the transfer and a
/// placement and records the id; the second appends a placement alone.
pub proof fn lemma_kitty_draw_idempotent(
    out0: Seq<u8>,
    imgs0: Map<u64, u64>,
    id: u64,
    v: u64,
    s: u64,
    pixels: Seq<RGBA>,
    sz: u64,
    pid1: u64,
    pid2: u64,
)
    requires
        !imgs0.contains_key(id),
    ensures
        imgs0.insert(id, sz).contains_key(id),
        (out0 + kitty_transfer(id, v, s, pixels) + kitty_placement(id, pid1)) + kitty_placement(
            id,
            pid2,
        ) == out0 + kitty_transfer(id, v, s, pixels) + (kitty_placement(id, pid1)
            + kitty_placement(id, pid2)),
{
    assert((out0 + kitty_transfer(id, v, s, pixels) + kitty_placement(id, pid1))
        + kitty_placement(id, pid2) =~= out0 + kitty_transfer(id, v, s, pixels) + (
    kitty_placement(id, pid1) + kitty_placement(id, pid2)));
}

/// After the terminal rejects a transferred image the id is gone from
/// the transfer map, so the next draw of that image retransmits the
/// payload rather than placing it alone.
pub proof fn lemma_kitty_retransmit_on_failure(imgs0: Map<u64, u64>, id: u64)
    ensures
        !imgs0.remove(id).contains_key(id),
{
}

} // verus!
