//! The options of a request for a QR code.
use vstd::prelude::*;
use vstd::string::*;
use crate::text::{trim, trim_str};

verus! {

/// What to encode and how to draw it.
#[derive(Clone, Debug)]
pub struct Args {
    /// The link to encode (asked for on standard input when absent).
    pub link: Option<String>,
    /// The file the SVG document is written to.
    pub output: String,
    /// The smallest side, in pixels, of the picture.
    pub size: u32,
    /// The colour of dark modules, `#rrggbb`.
    pub fg: String,
    /// The colour of light modules and of the border, `#rrggbb`.
    pub bg: String,
    /// A picture to draw behind the symbol.
    pub bg_image: Option<String>,
    /// Whether to open the window rather than answer on the command line.
    pub gui: bool,
}

impl Default for Args {
    /// No link, `qrcode.svg`, 256 pixels, black on white, no picture, command line.
    fn default() -> (r: Self)
        ensures
            r.link is None,
            r.output@ == "qrcode.svg"@,
            r.size == 256,
            r.fg@ == "#000000"@,
            r.bg@ == "#ffffff"@,
            r.bg_image is None,
            !r.gui,
    {
        Args {
            link: None,
            output: String::from_str("qrcode.svg"),
            size: 256,
            fg: String::from_str("#000000"),
            bg: String::from_str("#ffffff"),
            bg_image: None,
            gui: false,
        }
    }
}

impl Args {
    /// The path of the background picture, unless it is absent or blank.
    pub fn background_path(&self) -> (r: Option<&str>)
        ensures
            match self.bg_image {
                Some(p) => if trim(p@).len() > 0 {
                    r matches Some(s) && s@ == p@
                } else {
                    r is None
                },
                None => r is None,
            },
    {
        match &self.bg_image {
            Some(p) => {
                if trim_str(p.as_str()).is_empty() {
                    None
                } else {
                    Some(p.as_str())
                }
            },
            None => None,
        }
    }
}

} // verus!
