//! What the command line asks for.

use vstd::prelude::*;
use vstd::string::StrSliceExecFns;

use crate::content::DecodeContent;
use crate::encode::blocks::EncodeQuality;
use crate::encode::{EncodeLayout, Rdo};
use crate::format::DxgiFormat;
use crate::surface::{CubemapFace, SubresourceId};
use crate::text::{fold, number_in, read_number, same_text};

verus! {

/// The texts of arguments.
pub open spec fn texts(args: Seq<String>) -> Seq<Seq<char>> {
    Seq::new(args.len(), |i: int| args[i]@)
}

/// The text of an optional argument.
pub open spec fn text_of(s: Option<String>) -> Option<Seq<char>> {
    match s {
        Some(s) => Some(s@),
        None => None,
    }
}

/// Whether an argument is an option.
pub open spec fn is_option(s: Seq<char>) -> bool {
    s.len() > 0 && s[0] == '-'
}

/// The argument at a place; none past the end.
pub open spec fn argument(args: Seq<Seq<char>>, i: nat) -> Option<Seq<char>> {
    if i < args.len() {
        Some(args[i as int])
    } else {
        None
    }
}

/// The number at a place; none where there is no number.
pub open spec fn number_at(args: Seq<Seq<char>>, i: nat) -> Option<u32> {
    match argument(args, i) {
        Some(s) => number_in(s),
        None => None,
    }
}

/// A number, or another one where there is none.
pub open spec fn or_else(n: Option<u32>, other: u32) -> u32 {
    match n {
        Some(n) => n,
        None => other,
    }
}

fn option_like(s: &str) -> (r: bool)
    ensures
        r == is_option(s@),
{
    s.unicode_len() > 0 && s.get_char(0) == '-'
}

fn text_at(args: &[String], i: usize) -> (r: Option<String>)
    ensures
        text_of(r) == argument(texts(args@), i as nat),
{
    if i < args.len() {
        Some(args[i].as_str().to_owned())
    } else {
        None
    }
}

fn read_at(args: &[String], i: usize) -> (r: Option<u32>)
    ensures
        r == number_at(texts(args@), i as nat),
{
    if i < args.len() {
        read_number(args[i].as_str())
    } else {
        None
    }
}

fn with_default(n: Option<u32>, other: u32) -> (r: u32)
    ensures
        r == or_else(n, other),
{
    match n {
        Some(n) => n,
        None => other,
    }
}

/// The place after an option and its value, at most the end.
fn after_value(i: usize, n: usize) -> (r: usize)
    requires
        i < n,
    ensures
        r == (if i + 2 <= n {
            i + 2
        } else {
            n as int
        }),
{
    if n - i >= 2 {
        i + 2
    } else {
        n
    }
}

/// Why a command line is refused.
#[derive(Debug, Clone, PartialEq, Eq)]
pub enum Refusal {
    /// Something is missing.
    Usage,
    /// An argument is not known.
    UnknownArgument(String),
    /// A format's name is not known.
    UnknownFormat(String),
}

/// What a decode command says so far: path, output, mip level, layer, face.
pub struct DecodeWords {
    pub path: Option<Seq<char>>,
    pub out: Option<Seq<char>>,
    pub mip: u32,
    pub layer: u32,
    pub face: u32,
}

/// What the arguments of a decode command say from place `i` on, after `st`;
/// else the argument that is not known. An option takes the argument after it;
/// the one that is no option is the path.
pub open spec fn decode_words(args: Seq<Seq<char>>, i: nat, st: DecodeWords) -> Result<DecodeWords, Seq<char>>
    decreases args.len() + 2 - i,
{
    if i >= args.len() {
        Ok(st)
    } else {
        let s = args[i as int];
        let n = or_else(number_at(args, i + 1), 0);
        if s == "--mip"@ {
            decode_words(args, i + 2, DecodeWords { mip: n, ..st })
        } else if s == "--layer"@ {
            decode_words(args, i + 2, DecodeWords { layer: n, ..st })
        } else if s == "--face"@ {
            decode_words(args, i + 2, DecodeWords { face: n, ..st })
        } else if s == "-o"@ || s == "--output"@ {
            decode_words(args, i + 2, DecodeWords { out: argument(args, i + 1), ..st })
        } else if !is_option(s) && st.path is None {
            decode_words(args, i + 1, DecodeWords { path: Some(s), ..st })
        } else {
            Err(s)
        }
    }
}

/// Nothing said yet.
pub open spec fn no_decode_words() -> DecodeWords {
    DecodeWords { path: None, out: None, mip: 0, layer: 0, face: 0 }
}

/// A decode command.
#[derive(Debug, Clone, PartialEq, Eq)]
pub struct DecodeCommand {
    pub path: String,
    pub out: Option<String>,
    pub mip: u32,
    pub layer: u32,
    pub face: u32,
}

/// Reads the arguments of a decode command.
pub fn parse_decode(args: &[String]) -> (r: Result<DecodeCommand, Refusal>)
    ensures
        ({
            let said = decode_words(texts(args@), 0, no_decode_words());
            match r {
                Ok(c) => said == Ok::<DecodeWords, Seq<char>>(
                    DecodeWords { path: Some(c.path@), out: text_of(c.out), mip: c.mip, layer: c.layer, face: c.face },
                ),
                Err(Refusal::UnknownArgument(s)) => said == Err::<DecodeWords, Seq<char>>(s@),
                Err(Refusal::Usage) => said matches Ok(st) && st.path is None,
                Err(Refusal::UnknownFormat(_)) => false,
            }
        }),
{
    let n: usize = args.len();
    let mut path: Option<String> = None;
    let mut out: Option<String> = None;
    let mut mip: u32 = 0;
    let mut layer: u32 = 0;
    let mut face: u32 = 0;
    let mut i: usize = 0;
    let ghost a = texts(args@);
    while i < n
        invariant
            i <= n,
            n == args@.len(),
            a == texts(args@),
            decode_words(a, 0, no_decode_words()) == decode_words(
                a,
                i as nat,
                DecodeWords { path: text_of(path), out: text_of(out), mip, layer, face },
            ),
        decreases n - i,
    {
        let s: &str = args[i].as_str();
        proof {
            assert(a[i as int] == s@);
        }
        let after: usize = after_value(i, n);
        if same_text(s, "--mip") {
            mip = with_default(read_at(args, i + 1), 0);
            i = after;
        } else if same_text(s, "--layer") {
            layer = with_default(read_at(args, i + 1), 0);
            i = after;
        } else if same_text(s, "--face") {
            face = with_default(read_at(args, i + 1), 0);
            i = after;
        } else if same_text(s, "-o") || same_text(s, "--output") {
            out = text_at(args, i + 1);
            i = after;
        } else if !option_like(s) && path.is_none() {
            path = Some(s.to_owned());
            i = i + 1;
        } else {
            return Err(Refusal::UnknownArgument(s.to_owned()));
        }
        proof {
            let st = DecodeWords { path: text_of(path), out: text_of(out), mip, layer, face };
            assert(decode_words(a, a.len(), st) == Ok::<DecodeWords, Seq<char>>(st));
            assert(decode_words(a, a.len() + 1, st) == Ok::<DecodeWords, Seq<char>>(st));
        }
    }
    match path {
        None => Err(Refusal::Usage),
        Some(path) => Ok(DecodeCommand { path, out, mip, layer, face }),
    }
}

/// The subresource that a decode command means.
pub open spec fn meant(cubemap: bool, mip: u32, layer: u32, face: u32) -> Option<SubresourceId> {
    if cubemap && face >= 6 {
        None
    } else {
        Some(
            SubresourceId {
                mip,
                layer,
                face: if cubemap {
                    face
                } else {
                    0
                },
            },
        )
    }
}

/// The subresource that a decode command means; none where the face is not one
/// of a cubemap's. A texture without faces has no use for the face.
pub fn decode_target(cubemap: bool, mip: u32, layer: u32, face: u32) -> (r: Option<SubresourceId>)
    ensures
        r == (if !cubemap {
            Some(SubresourceId { mip, layer, face: 0 })
        } else if face < 6 {
            Some(SubresourceId { mip, layer, face })
        } else {
            None
        }),
        r == meant(cubemap, mip, layer, face),
{
    if cubemap {
        match CubemapFace::from_index(face) {
            Ok(f) => Some(SubresourceId::cubemap(mip, layer, f)),
            Err(_) => None,
        }
    } else {
        Some(SubresourceId::mip_layer(mip, layer))
    }
}

/// What an encode command says so far.
pub struct EncodeWords {
    pub width: Option<u32>,
    pub height: Option<u32>,
    pub depth: u32,
    pub mips: u32,
    pub array: u32,
    pub cubemap: bool,
    pub format: Option<Seq<char>>,
    pub input: Option<Seq<char>>,
    pub out: Option<Seq<char>>,
}

/// What the arguments of an encode command say from place `i` on, after `st`;
/// else the argument that is not known.
pub open spec fn encode_words(args: Seq<Seq<char>>, i: nat, st: EncodeWords) -> Result<EncodeWords, Seq<char>>
    decreases args.len() + 2 - i,
{
    if i >= args.len() {
        Ok(st)
    } else {
        let s = args[i as int];
        let n = number_at(args, i + 1);
        if s == "--width"@ {
            encode_words(args, i + 2, EncodeWords { width: n, ..st })
        } else if s == "--height"@ {
            encode_words(args, i + 2, EncodeWords { height: n, ..st })
        } else if s == "--depth"@ {
            encode_words(args, i + 2, EncodeWords { depth: or_else(n, 1), ..st })
        } else if s == "--mips"@ {
            encode_words(args, i + 2, EncodeWords { mips: or_else(n, 1), ..st })
        } else if s == "--array"@ {
            encode_words(args, i + 2, EncodeWords { array: or_else(n, 1), ..st })
        } else if s == "--cubemap"@ {
            encode_words(args, i + 1, EncodeWords { cubemap: true, ..st })
        } else if s == "--format"@ || s == "-f"@ {
            encode_words(args, i + 2, EncodeWords { format: argument(args, i + 1), ..st })
        } else if s == "-o"@ || s == "--output"@ {
            encode_words(args, i + 2, EncodeWords { out: argument(args, i + 1), ..st })
        } else if !is_option(s) && st.input is None {
            encode_words(args, i + 1, EncodeWords { input: Some(s), ..st })
        } else {
            Err(s)
        }
    }
}

/// Nothing said yet.
pub open spec fn no_encode_words() -> EncodeWords {
    EncodeWords {
        width: None,
        height: None,
        depth: 1,
        mips: 1,
        array: 1,
        cubemap: false,
        format: None,
        input: None,
        out: None,
    }
}

impl EncodeWords {
    /// Everything that must be said is said.
    pub open spec fn complete(self) -> bool {
        self.width is Some && self.height is Some && self.format is Some && self.input is Some
    }

    /// The layout that is meant, for a content kind.
    pub open spec fn layout(self, content: DecodeContent) -> EncodeLayout {
        let array = at_least_one(self.array);
        EncodeLayout {
            content,
            width: self.width.unwrap(),
            height: self.height.unwrap(),
            depth: at_least_one(self.depth),
            mipmap_levels: at_least_one(self.mips),
            array_layers: if self.cubemap && array < 6 {
                6
            } else {
                array
            },
            is_cubemap: self.cubemap,
            quality: EncodeQuality::Quality,
            rdo: Rdo::Off,
        }
    }
}

/// A number, but one in place of zero.
pub open spec fn at_least_one(n: u32) -> u32 {
    if n == 0 {
        1
    } else {
        n
    }
}

/// An encode command.
#[derive(Debug, Clone, PartialEq, Eq)]
pub struct EncodeCommand {
    pub input: String,
    pub out: Option<String>,
    pub layout: EncodeLayout,
}

/// An encode command's arguments, read but not yet judged.
struct EncodeDraft {
    width: Option<u32>,
    height: Option<u32>,
    depth: u32,
    mips: u32,
    array: u32,
    cubemap: bool,
    format: Option<String>,
    input: Option<String>,
    out: Option<String>,
}

impl EncodeDraft {
    spec fn view(&self) -> EncodeWords {
        EncodeWords {
            width: self.width,
            height: self.height,
            depth: self.depth,
            mips: self.mips,
            array: self.array,
            cubemap: self.cubemap,
            format: text_of(self.format),
            input: text_of(self.input),
            out: text_of(self.out),
        }
    }
}

fn read_encode(args: &[String]) -> (r: Result<EncodeDraft, String>)
    ensures
        r matches Ok(d) ==> encode_words(texts(args@), 0, no_encode_words()) == Ok::<EncodeWords, Seq<char>>(d@),
        r matches Err(s) ==> encode_words(texts(args@), 0, no_encode_words()) == Err::<EncodeWords, Seq<char>>(s@),
{
    let n: usize = args.len();
    let mut d: EncodeDraft = EncodeDraft {
        width: None,
        height: None,
        depth: 1,
        mips: 1,
        array: 1,
        cubemap: false,
        format: None,
        input: None,
        out: None,
    };
    let mut i: usize = 0;
    let ghost a = texts(args@);
    while i < n
        invariant
            i <= n,
            n == args@.len(),
            a == texts(args@),
            encode_words(a, 0, no_encode_words()) == encode_words(a, i as nat, d@),
        decreases n - i,
    {
        let s: &str = args[i].as_str();
        proof {
            assert(a[i as int] == s@);
        }
        let after: usize = after_value(i, n);
        if same_text(s, "--width") {
            d.width = read_at(args, i + 1);
            i = after;
        } else if same_text(s, "--height") {
            d.height = read_at(args, i + 1);
            i = after;
        } else if same_text(s, "--depth") {
            d.depth = with_default(read_at(args, i + 1), 1);
            i = after;
        } else if same_text(s, "--mips") {
            d.mips = with_default(read_at(args, i + 1), 1);
            i = after;
        } else if same_text(s, "--array") {
            d.array = with_default(read_at(args, i + 1), 1);
            i = after;
        } else if same_text(s, "--cubemap") {
            d.cubemap = true;
            i = i + 1;
        } else if same_text(s, "--format") || same_text(s, "-f") {
            d.format = text_at(args, i + 1);
            i = after;
        } else if same_text(s, "-o") || same_text(s, "--output") {
            d.out = text_at(args, i + 1);
            i = after;
        } else if !option_like(s) && d.input.is_none() {
            d.input = Some(s.to_owned());
            i = i + 1;
        } else {
            return Err(s.to_owned());
        }
        proof {
            assert(encode_words(a, a.len(), d@) == Ok::<EncodeWords, Seq<char>>(d@));
            assert(encode_words(a, a.len() + 1, d@) == Ok::<EncodeWords, Seq<char>>(d@));
        }
    }
    Ok(d)
}

/// Reads the arguments of an encode command.
pub fn parse_encode(args: &[String]) -> (r: Result<EncodeCommand, Refusal>)
    ensures
        ({
            let said = encode_words(texts(args@), 0, no_encode_words());
            match r {
                Ok(c) => said matches Ok(st) && st.complete() && st.input == Some(c.input@) && st.out == text_of(c.out)
                    && c.layout == st.layout(c.layout.content) && fold(c.layout.content.short_name()@) == fold(
                    st.format.unwrap(),
                ),
                Err(Refusal::UnknownArgument(s)) => said == Err::<EncodeWords, Seq<char>>(s@),
                Err(Refusal::Usage) => said matches Ok(st) && !st.complete(),
                Err(Refusal::UnknownFormat(s)) => said matches Ok(st) && st.complete() && st.format == Some(s@) && forall|
                    k: DecodeContent,
                |
                    fold((#[trigger] k.short_name())@) != fold(s@),
            }
        }),
{
    let d: EncodeDraft = match read_encode(args) {
        Ok(d) => d,
        Err(s) => {
            return Err(Refusal::UnknownArgument(s));
        },
    };
    let (width, height, format, input): (u32, u32, String, String) = match (d.width, d.height, d.format, d.input) {
        (Some(w), Some(h), Some(f), Some(i)) => (w, h, f, i),
        _ => {
            return Err(Refusal::Usage);
        },
    };
    let content: DecodeContent = match DecodeContent::from_name(format.as_str()) {
        Some(k) => k,
        None => {
            return Err(Refusal::UnknownFormat(format));
        },
    };
    let flat: EncodeLayout = EncodeLayout::flat_2d(content, width, height).with_mips(d.mips).with_array(d.array).with_depth(
        d.depth,
    );
    let layout: EncodeLayout = if d.cubemap {
        flat.cubemap()
    } else {
        flat
    };
    Ok(EncodeCommand { input, out: d.out, layout })
}

/// The name by which a format is retagged; none where it cannot be.
pub open spec fn dxgi_tag(f: DxgiFormat) -> Option<&'static str> {
    match f {
        DxgiFormat::BC1_UNorm => Some("BC1_UNorm"),
        DxgiFormat::BC1_UNorm_sRGB => Some("BC1_UNorm_sRGB"),
        DxgiFormat::BC2_UNorm => Some("BC2_UNorm"),
        DxgiFormat::BC2_UNorm_sRGB => Some("BC2_UNorm_sRGB"),
        DxgiFormat::BC3_UNorm => Some("BC3_UNorm"),
        DxgiFormat::BC3_UNorm_sRGB => Some("BC3_UNorm_sRGB"),
        DxgiFormat::BC4_UNorm => Some("BC4_UNorm"),
        DxgiFormat::BC4_SNorm => Some("BC4_SNorm"),
        DxgiFormat::BC5_UNorm => Some("BC5_UNorm"),
        DxgiFormat::BC5_SNorm => Some("BC5_SNorm"),
        DxgiFormat::BC7_UNorm => Some("BC7_UNorm"),
        DxgiFormat::BC7_UNorm_sRGB => Some("BC7_UNorm_sRGB"),
        DxgiFormat::R8G8B8A8_UNorm => Some("R8G8B8A8_UNorm"),
        DxgiFormat::R8G8B8A8_UNorm_sRGB => Some("R8G8B8A8_UNorm_sRGB"),
        DxgiFormat::B8G8R8A8_UNorm => Some("B8G8R8A8_UNorm"),
        DxgiFormat::B8G8R8A8_UNorm_sRGB => Some("B8G8R8A8_UNorm_sRGB"),
        _ => None,
    }
}

/// The format of a tag.
pub fn parse_dxgi_tag(tag: &str) -> (r: Option<DxgiFormat>)
    ensures
        r matches Some(f) ==> dxgi_tag(f) matches Some(t) && t@ == tag@,
        r is None ==> forall|f: DxgiFormat| (#[trigger] dxgi_tag(f)) matches Some(t) ==> t@ != tag@,
{
    if same_text(tag, "BC1_UNorm") {
        Some(DxgiFormat::BC1_UNorm)
    } else if same_text(tag, "BC1_UNorm_sRGB") {
        Some(DxgiFormat::BC1_UNorm_sRGB)
    } else if same_text(tag, "BC2_UNorm") {
        Some(DxgiFormat::BC2_UNorm)
    } else if same_text(tag, "BC2_UNorm_sRGB") {
        Some(DxgiFormat::BC2_UNorm_sRGB)
    } else if same_text(tag, "BC3_UNorm") {
        Some(DxgiFormat::BC3_UNorm)
    } else if same_text(tag, "BC3_UNorm_sRGB") {
        Some(DxgiFormat::BC3_UNorm_sRGB)
    } else if same_text(tag, "BC4_UNorm") {
        Some(DxgiFormat::BC4_UNorm)
    } else if same_text(tag, "BC4_SNorm") {
        Some(DxgiFormat::BC4_SNorm)
    } else if same_text(tag, "BC5_UNorm") {
        Some(DxgiFormat::BC5_UNorm)
    } else if same_text(tag, "BC5_SNorm") {
        Some(DxgiFormat::BC5_SNorm)
    } else if same_text(tag, "BC7_UNorm") {
        Some(DxgiFormat::BC7_UNorm)
    } else if same_text(tag, "BC7_UNorm_sRGB") {
        Some(DxgiFormat::BC7_UNorm_sRGB)
    } else if same_text(tag, "R8G8B8A8_UNorm") {
        Some(DxgiFormat::R8G8B8A8_UNorm)
    } else if same_text(tag, "R8G8B8A8_UNorm_sRGB") {
        Some(DxgiFormat::R8G8B8A8_UNorm_sRGB)
    } else if same_text(tag, "B8G8R8A8_UNorm") {
        Some(DxgiFormat::B8G8R8A8_UNorm)
    } else if same_text(tag, "B8G8R8A8_UNorm_sRGB") {
        Some(DxgiFormat::B8G8R8A8_UNorm_sRGB)
    } else {
        None
    }
}

} // verus!
