//! The uniform image-handler interface, the no-op handler, and the
//! closed union over the three protocol encoders.
use vstd::prelude::*;
use vstd::string::StringSliceAdditionalSpecFns;

use crate::color::RGBA;
use crate::error::Error;
use crate::image::{image_wf, Image};
use crate::iterm::{iterm_wf, ItermImageHandler};
use crate::kitty::KittyImageHandler;
use crate::sixel::{sixel_wf, SixelImageHandler};
use crate::terminal::{Position, TerminalEvent};

verus! {

/// Which protocol a handler talks.
#[derive(Clone, Copy, PartialEq, Eq, Structural, Debug, Hash)]
pub enum ImageHandlerKind {
    Kitty,
    Sixel,
    ITerm,
    Dummy,
}

/// The uniform interface of the protocol encoders: draw and erase
/// append protocol bytes to the sink, `handle` interprets a terminal
/// event and says whether it was consumed.
pub trait ImageHandler: Sized {
    /// The handler's internal invariant.
    spec fn inv(&self) -> bool;

    /// The protocol this handler talks.
    fn kind(&self) -> ImageHandlerKind;

    /// Emit whatever makes the image visible at `pos`.
    fn draw(&mut self, out: &mut Vec<u8>, img: &Image, pos: Position) -> (r: Result<(), Error>)
        requires
            image_wf(*img),
            old(self).inv(),
        ensures
            final(self).inv(),
    ;

    /// Emit whatever erases the image, at one position or everywhere.
    fn erase(&mut self, out: &mut Vec<u8>, img: &Image, pos: Option<Position>) -> (r: Result<
        (),
        Error,
    >)
        requires
            image_wf(*img),
            old(self).inv(),
        ensures
            final(self).inv(),
    ;

    /// Interpret a terminal event; `true` means the event was consumed
    /// and should not reach the caller.
    fn handle(&mut self, event: &TerminalEvent) -> (r: Result<bool, Error>)
        requires
            old(self).inv(),
        ensures
            final(self).inv(),
    ;
}

/// Image handler which ignores every request.
pub struct DummyImageHandler;

impl DummyImageHandler {
    /// Drawing writes nothing and succeeds.
    pub fn draw(&mut self, out: &mut Vec<u8>, _img: &Image, _pos: Position) -> (r: Result<
        (),
        Error,
    >)
        ensures
            r is Ok,
            final(out)@ == old(out)@,
    {
        Ok(())
    }

    /// Erasing writes nothing and succeeds.
    pub fn erase(&mut self, out: &mut Vec<u8>, _img: &Image, _pos: Option<Position>) -> (r:
        Result<(), Error>)
        ensures
            r is Ok,
            final(out)@ == old(out)@,
    {
        Ok(())
    }

    /// No event concerns this handler.
    pub fn handle(&mut self, _event: &TerminalEvent) -> (r: Result<bool, Error>)
        ensures
            r == Ok::<bool, Error>(false),
    {
        Ok(false)
    }
}

impl ImageHandler for DummyImageHandler {
    open spec fn inv(&self) -> bool {
        true
    }

    fn kind(&self) -> ImageHandlerKind {
        ImageHandlerKind::Dummy
    }

    fn draw(&mut self, out: &mut Vec<u8>, img: &Image, pos: Position) -> (r: Result<(), Error>) {
        DummyImageHandler::draw(self, out, img, pos)
    }

    fn erase(&mut self, out: &mut Vec<u8>, img: &Image, pos: Option<Position>) -> (r: Result<
        (),
        Error,
    >) {
        DummyImageHandler::erase(self, out, img, pos)
    }

    fn handle(&mut self, event: &TerminalEvent) -> (r: Result<bool, Error>) {
        DummyImageHandler::handle(self, event)
    }
}

impl ImageHandler for KittyImageHandler {
    open spec fn inv(&self) -> bool {
        true
    }

    fn kind(&self) -> ImageHandlerKind {
        ImageHandlerKind::Kitty
    }

    fn draw(&mut self, out: &mut Vec<u8>, img: &Image, pos: Position) -> (r: Result<(), Error>) {
        KittyImageHandler::draw(self, out, img, pos)
    }

    fn erase(&mut self, out: &mut Vec<u8>, img: &Image, pos: Option<Position>) -> (r: Result<
        (),
        Error,
    >) {
        KittyImageHandler::erase(self, out, img, pos)
    }

    fn handle(&mut self, event: &TerminalEvent) -> (r: Result<bool, Error>) {
        KittyImageHandler::handle(self, event)
    }
}

impl ImageHandler for SixelImageHandler {
    open spec fn inv(&self) -> bool {
        sixel_wf(*self)
    }

    fn kind(&self) -> ImageHandlerKind {
        ImageHandlerKind::Sixel
    }

    fn draw(&mut self, out: &mut Vec<u8>, img: &Image, pos: Position) -> (r: Result<(), Error>) {
        SixelImageHandler::draw(self, out, img, pos)
    }

    fn erase(&mut self, out: &mut Vec<u8>, img: &Image, pos: Option<Position>) -> (r: Result<
        (),
        Error,
    >) {
        SixelImageHandler::erase(self, out, img, pos)
    }

    fn handle(&mut self, event: &TerminalEvent) -> (r: Result<bool, Error>) {
        SixelImageHandler::handle(self, event)
    }
}

impl ImageHandler for ItermImageHandler {
    open spec fn inv(&self) -> bool {
        iterm_wf(*self)
    }

    fn kind(&self) -> ImageHandlerKind {
        ImageHandlerKind::ITerm
    }

    fn draw(&mut self, out: &mut Vec<u8>, img: &Image, pos: Position) -> (r: Result<(), Error>) {
        ItermImageHandler::draw(self, out, img, pos)
    }

    fn erase(&mut self, out: &mut Vec<u8>, img: &Image, pos: Option<Position>) -> (r: Result<
        (),
        Error,
    >) {
        ItermImageHandler::erase(self, out, img, pos)
    }

    fn handle(&mut self, event: &TerminalEvent) -> (r: Result<bool, Error>) {
        ItermImageHandler::handle(self, event)
    }
}

/// The closed union of the concrete handlers; the variant is chosen at
/// construction and fixed for the session.
pub enum AnyImageHandler {
    Kitty(KittyImageHandler),
    Sixel(SixelImageHandler),
    ITerm(ItermImageHandler),
    Dummy(DummyImageHandler),
}

impl ImageHandler for AnyImageHandler {
    open spec fn inv(&self) -> bool {
        match self {
            AnyImageHandler::Kitty(h) => true,
            AnyImageHandler::Sixel(h) => sixel_wf(*h),
            AnyImageHandler::ITerm(h) => iterm_wf(*h),
            AnyImageHandler::Dummy(h) => true,
        }
    }

    fn kind(&self) -> ImageHandlerKind {
        match self {
            AnyImageHandler::Kitty(_) => ImageHandlerKind::Kitty,
            AnyImageHandler::Sixel(_) => ImageHandlerKind::Sixel,
            AnyImageHandler::ITerm(_) => ImageHandlerKind::ITerm,
            AnyImageHandler::Dummy(_) => ImageHandlerKind::Dummy,
        }
    }

    fn draw(&mut self, out: &mut Vec<u8>, img: &Image, pos: Position) -> (r: Result<(), Error>) {
        match self {
            AnyImageHandler::Kitty(h) => KittyImageHandler::draw(h, out, img, pos),
            AnyImageHandler::Sixel(h) => SixelImageHandler::draw(h, out, img, pos),
            AnyImageHandler::ITerm(h) => ItermImageHandler::draw(h, out, img, pos),
            AnyImageHandler::Dummy(h) => DummyImageHandler::draw(h, out, img, pos),
        }
    }

    fn erase(&mut self, out: &mut Vec<u8>, img: &Image, pos: Option<Position>) -> (r: Result<
        (),
        Error,
    >) {
        match self {
            AnyImageHandler::Kitty(h) => KittyImageHandler::erase(h, out, img, pos),
            AnyImageHandler::Sixel(h) => SixelImageHandler::erase(h, out, img, pos),
            AnyImageHandler::ITerm(h) => ItermImageHandler::erase(h, out, img, pos),
            AnyImageHandler::Dummy(h) => DummyImageHandler::erase(h, out, img, pos),
        }
    }

    fn handle(&mut self, event: &TerminalEvent) -> (r: Result<bool, Error>) {
        match self {
            AnyImageHandler::Kitty(h) => KittyImageHandler::handle(h, event),
            AnyImageHandler::Sixel(h) => SixelImageHandler::handle(h, event),
            AnyImageHandler::ITerm(h) => ItermImageHandler::handle(h, event),
            AnyImageHandler::Dummy(h) => DummyImageHandler::handle(h, event),
        }
    }
}

impl ImageHandlerKind {
    /// Construct the handler for this protocol; `bg` seeds the Sixel
    /// quantization background.
    pub fn into_image_handler(self, bg: Option<RGBA>) -> (r: AnyImageHandler)
        ensures
            r.inv(),
            (match r {
                AnyImageHandler::Kitty(_) => self is Kitty,
                AnyImageHandler::Sixel(h) => self is Sixel && h.bg == bg,
                AnyImageHandler::ITerm(_) => self is ITerm,
                AnyImageHandler::Dummy(_) => self is Dummy,
            }),
    {
        match self {
            ImageHandlerKind::Kitty => AnyImageHandler::Kitty(KittyImageHandler::new()),
            ImageHandlerKind::Sixel => AnyImageHandler::Sixel(SixelImageHandler::new(bg)),
            ImageHandlerKind::ITerm => AnyImageHandler::ITerm(ItermImageHandler::new()),
            ImageHandlerKind::Dummy => AnyImageHandler::Dummy(DummyImageHandler),
        }
    }

    /// Parse a protocol name, case-insensitively.
    pub fn parse_str(text: &str) -> (r: Option<ImageHandlerKind>)
        ensures
            r == spec_parse_kind(text.spec_bytes()),
    {
        let bytes: &[u8] = text.as_bytes();
        let n = bytes.len();
        let mut lowered: Vec<u8> = Vec::new();
        let mut i: usize = 0;
        while i < n
            invariant
                n == bytes@.len(),
                0 <= i <= n,
                lowered@ == crate::face::ascii_lower(bytes@.subrange(0, i as int)),
            decreases n - i,
        {
            let b = bytes[i];
            lowered.push(
                if 65 <= b && b <= 90 {
                    b + 32
                } else {
                    b
                },
            );
            proof {
                assert(lowered@ =~= crate::face::ascii_lower(bytes@.subrange(0, i as int + 1)));
            }
            i = i + 1;
        }
        proof {
            assert(bytes@.subrange(0, n as int) =~= bytes@);
        }
        if kind_is(&lowered, 0) {
            Some(ImageHandlerKind::Kitty)
        } else if kind_is(&lowered, 1) {
            Some(ImageHandlerKind::Sixel)
        } else if kind_is(&lowered, 2) {
            Some(ImageHandlerKind::ITerm)
        } else if kind_is(&lowered, 3) {
            Some(ImageHandlerKind::Dummy)
        } else {
            None
        }
    }
}

/// The protocol named by a (case-folded) byte string.
pub open spec fn spec_parse_kind(s: Seq<u8>) -> Option<ImageHandlerKind> {
    let lowered = crate::face::ascii_lower(s);
    if lowered == kind_name(0) {
        Some(ImageHandlerKind::Kitty)
    } else if lowered == kind_name(1) {
        Some(ImageHandlerKind::Sixel)
    } else if lowered == kind_name(2) {
        Some(ImageHandlerKind::ITerm)
    } else if lowered == kind_name(3) {
        Some(ImageHandlerKind::Dummy)
    } else {
        None
    }
}

/// The lower-case name of each protocol.
pub open spec fn kind_name(which: int) -> Seq<u8> {
    if which == 0 {
        seq![107u8, 105u8, 116u8, 116u8, 121u8]  // kitty
    } else if which == 1 {
        seq![115u8, 105u8, 120u8, 101u8, 108u8]  // sixel
    } else if which == 2 {
        seq![105u8, 116u8, 101u8, 114u8, 109u8]  // iterm
    } else {
        seq![100u8, 117u8, 109u8, 109u8, 121u8]  // dummy
    }
}

/// Compare a lowered name against one of the protocol names.
fn kind_is(name: &Vec<u8>, which: usize) -> (r: bool)
    requires
        which < 4,
    ensures
        r == (name@ == kind_name(which as int)),
{
    let pat: [u8; 5] = [
        [107u8, 105u8, 116u8, 116u8, 121u8],
        [115u8, 105u8, 120u8, 101u8, 108u8],
        [105u8, 116u8, 101u8, 114u8, 109u8],
        [100u8, 117u8, 109u8, 109u8, 121u8],
    ][which];
    if name.len() != 5 {
        proof {
            assert(name@ != kind_name(which as int));
        }
        return false;
    }
    let mut i: usize = 0;
    while i < 5
        invariant
            i <= 5,
            name@.len() == 5,
            which < 4,
            kind_name(which as int).len() == 5,
            forall|j: int| 0 <= j < 5 ==> pat@[j] == kind_name(which as int)[j],
            forall|j: int| 0 <= j < i ==> name@[j] == kind_name(which as int)[j],
        decreases 5 - i,
    {
        if name[i] != pat[i] {
            proof {
                assert(name@[i as int] != kind_name(which as int)[i as int]);
                assert(name@ != kind_name(which as int));
            }
            return false;
        }
        i = i + 1;
    }
    proof {
        assert(name@ =~= kind_name(which as int));
    }
    true
}

impl core::str::FromStr for ImageHandlerKind {
    type Err = Error;

    fn from_str(string: &str) -> Result<ImageHandlerKind, Error> {
        match ImageHandlerKind::parse_str(string) {
            Some(kind) => Ok(kind),
            None => Err(Error::ParseError(string.to_owned())),
        }
    }
}

} // verus!
