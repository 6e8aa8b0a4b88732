use vstd::prelude::*;
use vstd::string::*;
use vstd::utf8::*;

use crate::filesystem::nodes::node_name::{NodeName, NodeNameView};

verus! {

broadcast use vstd::seq::group_seq_axioms, vstd::slice::group_slice_axioms;

/// The media types the content sniffer can recognise; `Other` carries a type found from the
/// file name's extension.
#[derive(Debug)]
pub enum MediaType {
    ImageJpeg,
    ImagePng,
    ImageGif,
    ImageBmp,
    TextXml,
    ImageSvg,
    FontWoff,
    FontWoff2,
    ApplicationPdf,
    ApplicationJson,
    AudioAiff,
    AudioMpeg,
    AudioOgg,
    AudioMidi,
    VideoAvi,
    AudioWave,
    ApplicationGzip,
    ApplicationZip,
    ApplicationRar,
    ApplicationVndMsFontobject,
    FontTtf,
    FontOtf,
    FontCollection,
    ApplicationPostscript,
    TextPlain,
    TextHtml,
    VideoMp4,
    VideoWebm,
    Other(String),
}

pub enum MediaTypeView {
    ImageJpeg,
    ImagePng,
    ImageGif,
    ImageBmp,
    TextXml,
    ImageSvg,
    FontWoff,
    FontWoff2,
    ApplicationPdf,
    ApplicationJson,
    AudioAiff,
    AudioMpeg,
    AudioOgg,
    AudioMidi,
    VideoAvi,
    AudioWave,
    ApplicationGzip,
    ApplicationZip,
    ApplicationRar,
    ApplicationVndMsFontobject,
    FontTtf,
    FontOtf,
    FontCollection,
    ApplicationPostscript,
    TextPlain,
    TextHtml,
    VideoMp4,
    VideoWebm,
    Other(Seq<char>),
}

impl View for MediaType {
    type V = MediaTypeView;

    open spec fn view(&self) -> MediaTypeView {
        match self {
            MediaType::ImageJpeg => MediaTypeView::ImageJpeg,
            MediaType::ImagePng => MediaTypeView::ImagePng,
            MediaType::ImageGif => MediaTypeView::ImageGif,
            MediaType::ImageBmp => MediaTypeView::ImageBmp,
            MediaType::TextXml => MediaTypeView::TextXml,
            MediaType::ImageSvg => MediaTypeView::ImageSvg,
            MediaType::FontWoff => MediaTypeView::FontWoff,
            MediaType::FontWoff2 => MediaTypeView::FontWoff2,
            MediaType::ApplicationPdf => MediaTypeView::ApplicationPdf,
            MediaType::ApplicationJson => MediaTypeView::ApplicationJson,
            MediaType::AudioAiff => MediaTypeView::AudioAiff,
            MediaType::AudioMpeg => MediaTypeView::AudioMpeg,
            MediaType::AudioOgg => MediaTypeView::AudioOgg,
            MediaType::AudioMidi => MediaTypeView::AudioMidi,
            MediaType::VideoAvi => MediaTypeView::VideoAvi,
            MediaType::AudioWave => MediaTypeView::AudioWave,
            MediaType::ApplicationGzip => MediaTypeView::ApplicationGzip,
            MediaType::ApplicationZip => MediaTypeView::ApplicationZip,
            MediaType::ApplicationRar => MediaTypeView::ApplicationRar,
            MediaType::ApplicationVndMsFontobject => MediaTypeView::ApplicationVndMsFontobject,
            MediaType::FontTtf => MediaTypeView::FontTtf,
            MediaType::FontOtf => MediaTypeView::FontOtf,
            MediaType::FontCollection => MediaTypeView::FontCollection,
            MediaType::ApplicationPostscript => MediaTypeView::ApplicationPostscript,
            MediaType::TextPlain => MediaTypeView::TextPlain,
            MediaType::TextHtml => MediaTypeView::TextHtml,
            MediaType::VideoMp4 => MediaTypeView::VideoMp4,
            MediaType::VideoWebm => MediaTypeView::VideoWebm,
            MediaType::Other(s) => MediaTypeView::Other(s@),
        }
    }
}

/// `p` occurs in `d` at offset `off`.
pub open spec fn at_is(d: Seq<u8>, off: int, p: Seq<u8>) -> bool {
    0 <= off && off + p.len() <= d.len() && d.subrange(off, off + p.len()) == p
}

pub open spec fn spec_upper(b: u8) -> u8 {
    if 0x61 <= b <= 0x7a {
        (b - 32) as u8
    } else {
        b
    }
}

/// Every byte of `s` in ASCII upper case.
pub open spec fn spec_upper_all(s: Seq<u8>) -> Seq<u8> {
    s.map_values(|b: u8| spec_upper(b))
}

pub open spec fn spec_is_tag_terminator(b: u8) -> bool {
    b == 0x20 || b == 0x3e
}

/// The upper-cased text after `<` starts with `tag` followed by a space or `>`.
pub open spec fn spec_html_tag(d: Seq<u8>, tag: Seq<u8>) -> bool {
    let u = spec_upper_all(d.skip(1));
    at_is(u, 0, tag) && u.len() > tag.len() && spec_is_tag_terminator(u[tag.len() as int])
}

/// The HTML tags that identify an HTML document after `<`, compared case-insensitively.
pub open spec fn spec_looks_like_html(d: Seq<u8>) -> bool {
    ||| spec_html_tag(d, seq![0x21u8, 0x44u8, 0x4fu8, 0x43u8, 0x54u8, 0x59u8, 0x50u8, 0x45u8, 0x20u8, 0x48u8, 0x54u8, 0x4du8, 0x4cu8])
    ||| spec_html_tag(d, seq![0x48u8, 0x54u8, 0x4du8, 0x4cu8])
    ||| spec_html_tag(d, seq![0x48u8, 0x45u8, 0x41u8, 0x44u8])
    ||| spec_html_tag(d, seq![0x53u8, 0x43u8, 0x52u8, 0x49u8, 0x50u8, 0x54u8])
    ||| spec_html_tag(d, seq![0x49u8, 0x46u8, 0x52u8, 0x41u8, 0x4du8, 0x45u8])
    ||| spec_html_tag(d, seq![0x48u8, 0x31u8])
    ||| spec_html_tag(d, seq![0x44u8, 0x49u8, 0x56u8])
    ||| spec_html_tag(d, seq![0x46u8, 0x4fu8, 0x4eu8, 0x54u8])
    ||| spec_html_tag(d, seq![0x54u8, 0x41u8, 0x42u8, 0x4cu8, 0x45u8])
    ||| spec_html_tag(d, [0x41u8]@)
    ||| spec_html_tag(d, seq![0x53u8, 0x54u8, 0x59u8, 0x4cu8, 0x45u8])
    ||| spec_html_tag(d, seq![0x54u8, 0x49u8, 0x54u8, 0x4cu8, 0x45u8])
    ||| spec_html_tag(d, [0x42u8]@)
    ||| spec_html_tag(d, seq![0x42u8, 0x4fu8, 0x44u8, 0x59u8])
    ||| spec_html_tag(d, seq![0x42u8, 0x52u8])
    ||| spec_html_tag(d, [0x50u8]@)
}

/// Media type from the leading magic bytes, checked in order.
pub open spec fn spec_pattern_match(d: Seq<u8>) -> Option<MediaTypeView> {
    if at_is(d, 0, seq![0xFFu8, 0xD8, 0xFF]) {
        Some(MediaTypeView::ImageJpeg)
    } else if at_is(d, 0, seq![0x89u8, 0x50u8, 0x4eu8, 0x47u8, 0x0D, 0x0A, 0x1A, 0x0A]) {
        Some(MediaTypeView::ImagePng)
    } else if at_is(d, 0, seq![0x47u8, 0x49u8, 0x46u8, 0x38u8, 0x37u8, 0x61u8]) || at_is(d, 0, seq![0x47u8, 0x49u8, 0x46u8, 0x38u8, 0x39u8, 0x61u8]) {
        Some(MediaTypeView::ImageGif)
    } else if at_is(d, 0, seq![0x42u8, 0x4du8]) {
        Some(MediaTypeView::ImageBmp)
    } else if at_is(d, 0, seq![0x3cu8, 0x3fu8, 0x78u8, 0x6du8, 0x6cu8]) {
        Some(MediaTypeView::TextXml)
    } else if at_is(d, 0, seq![0x3cu8, 0x73u8, 0x76u8, 0x67u8]) {
        Some(MediaTypeView::ImageSvg)
    } else if at_is(d, 0, seq![0x77u8, 0x4fu8, 0x46u8, 0x46u8]) {
        Some(MediaTypeView::FontWoff)
    } else if at_is(d, 0, seq![0x77u8, 0x4fu8, 0x46u8, 0x32u8]) {
        Some(MediaTypeView::FontWoff2)
    } else if at_is(d, 0, seq![0x25u8, 0x50u8, 0x44u8, 0x46u8, 0x2du8]) {
        Some(MediaTypeView::ApplicationPdf)
    } else if at_is(d, 0, [0x7bu8]@) {
        Some(MediaTypeView::ApplicationJson)
    } else if at_is(d, 0, seq![0x46u8, 0x4fu8, 0x52u8, 0x4du8]) && at_is(d, 8, seq![0x41u8, 0x49u8, 0x46u8, 0x46u8]) {
        Some(MediaTypeView::AudioAiff)
    } else if at_is(d, 0, seq![0x49u8, 0x44u8, 0x33u8]) {
        Some(MediaTypeView::AudioMpeg)
    } else if at_is(d, 0, seq![0x4fu8, 0x67u8, 0x67u8, 0x53u8, 0u8]) {
        Some(MediaTypeView::AudioOgg)
    } else if at_is(d, 0, seq![0x4du8, 0x54u8, 0x68u8, 0x64u8, 0u8, 0, 0, 0x06]) {
        Some(MediaTypeView::AudioMidi)
    } else if at_is(d, 0, seq![0x52u8, 0x49u8, 0x46u8, 0x46u8]) && at_is(d, 8, seq![0x41u8, 0x56u8, 0x49u8, 0x20u8]) {
        Some(MediaTypeView::VideoAvi)
    } else if at_is(d, 0, seq![0x52u8, 0x49u8, 0x46u8, 0x46u8]) && at_is(d, 8, seq![0x57u8, 0x41u8, 0x56u8, 0x45u8]) {
        Some(MediaTypeView::AudioWave)
    } else if at_is(d, 0, seq![0x1Fu8, 0x8B, 0x08]) {
        Some(MediaTypeView::ApplicationGzip)
    } else if at_is(d, 0, seq![0x50u8, 0x4bu8, 0x03u8, 0x04]) {
        Some(MediaTypeView::ApplicationZip)
    } else if at_is(d, 0, seq![0x52u8, 0x61u8, 0x72u8, 0x20u8, 0x1Au8, 0x07, 0]) {
        Some(MediaTypeView::ApplicationRar)
    } else if at_is(d, 34, seq![0x4cu8, 0x50u8]) {
        Some(MediaTypeView::ApplicationVndMsFontobject)
    } else if at_is(d, 0, seq![0u8, 0x01, 0, 0]) {
        Some(MediaTypeView::FontTtf)
    } else if at_is(d, 0, seq![0x4fu8, 0x54u8, 0x54u8, 0x4fu8]) {
        Some(MediaTypeView::FontOtf)
    } else if at_is(d, 0, seq![0x74u8, 0x74u8, 0x63u8, 0x66u8]) {
        Some(MediaTypeView::FontCollection)
    } else if at_is(d, 0, seq![0x25u8, 0x21u8, 0x50u8, 0x53u8, 0x2du8, 0x41u8, 0x64u8, 0x6fu8, 0x62u8, 0x65u8, 0x2du8]) {
        Some(MediaTypeView::ApplicationPostscript)
    } else if at_is(d, 0, seq![0xFEu8, 0xFF, 0, 0]) || at_is(d, 0, seq![0xFFu8, 0xFE, 0, 0]) || at_is(d, 0, seq![0xEFu8, 0xBB, 0xBF, 0]) {
        Some(MediaTypeView::TextPlain)
    } else if at_is(d, 0, [0x3cu8]@) {
        if spec_looks_like_html(d) {
            Some(MediaTypeView::TextHtml)
        } else {
            None
        }
    } else {
        None
    }
}

/// The big-endian 32 bit number in the first four bytes.
pub open spec fn spec_box_size(d: Seq<u8>) -> int {
    d[0] * 16777216 + d[1] * 65536 + d[2] * 256 + d[3]
}

/// The common head of an MP4 file: a box size that fits the data and is a multiple of four,
/// followed by `ftyp`.
pub open spec fn spec_mp4_head(d: Seq<u8>) -> bool {
    d.len() >= 12 && spec_box_size(d) <= d.len() && spec_box_size(d) % 4 == 0 && at_is(d, 4, seq![0x66u8, 0x74u8, 0x79u8, 0x70u8])
}

/// The compatible brand in the four byte slot `k` after byte 16, inside the box, starts with
/// `mp4`.
pub open spec fn spec_mp4_brand_at(d: Seq<u8>, k: int) -> bool {
    0 <= k && 16 + 4 * k + 4 <= spec_box_size(d) && at_is(d, 16 + 4 * k, seq![0x6du8, 0x70u8, 0x34u8])
}

pub open spec fn spec_is_mp4(d: Seq<u8>) -> bool {
    spec_mp4_head(d) && (at_is(d, 8, seq![0x6du8, 0x70u8, 0x34u8]) || exists|k: int| #[trigger] spec_mp4_brand_at(d, k))
}

/// Chunk `idx` (two bytes from byte 4 on) is the EBML DocType element ID `0x42 0x82`.
pub open spec fn spec_webm_marker(d: Seq<u8>, idx: int) -> bool {
    0 <= idx < 17 && 4 + 2 * idx + 2 <= d.len() && d[4 + 2 * idx] == 0x42 && d[4 + 2 * idx + 1] == 0x82
}

/// After the marker at chunk `idx` comes a variable-size integer and then `webm`.
pub open spec fn spec_webm_hit(d: Seq<u8>, idx: int) -> bool {
    spec_webm_marker(d, idx) && at_is(
        d,
        4 + 2 * idx + 2 + spec_vint(d, 4 + 2 * idx + 2).1,
        seq![0x77u8, 0x65u8, 0x62u8, 0x6du8],
    )
}

pub open spec fn spec_webm_head(d: Seq<u8>) -> bool {
    at_is(d, 0, seq![0x1Au8, 0x45, 0xDF, 0xA3])
}

pub open spec fn spec_is_webm(d: Seq<u8>) -> bool {
    spec_webm_head(d) && exists|idx: int| #[trigger] spec_webm_hit(d, idx)
}

/// The position of the last `.` in `b`, or -1 when there is none.
pub open spec fn spec_last_dot(b: Seq<u8>) -> int
    decreases b.len(),
{
    if b.len() == 0 {
        -1
    } else if b.last() == 0x2eu8 {
        b.len() - 1
    } else {
        spec_last_dot(b.drop_last())
    }
}

/// The extension of a file name, read as a path's extension is: the bytes after the last `.`,
/// unless that dot opens the name; a name without a dot has none.
pub open spec fn spec_extension_bytes(b: Seq<u8>) -> Option<Seq<u8>> {
    if spec_last_dot(b) <= 0 {
        None
    } else {
        Some(b.skip(spec_last_dot(b) + 1))
    }
}

/// The media type text of the first entry that `mime_guess`'s built-in table lists for the
/// extension `ext`.
pub uninterp spec fn mime_guess_ext_first_raw(ext: Seq<char>) -> Option<Seq<char>>;

/// `mime_guess::from_ext(ext).first_raw()`: the first media type registered for the extension
/// `ext`, copied into a `String`. The table is compiled into the crate; an empty extension has
/// no entry.
#[verifier::external_body]
fn guess_from_extension(ext: &str) -> (r: Option<String>)
    ensures
        ext@.len() == 0 ==> r is None,
        match mime_guess_ext_first_raw(ext@) {
            Some(t) => r matches Some(s) && s@ == t,
            None => r is None,
        },
{
    match mime_guess::from_ext(ext).first_raw() {
        Some(s) => Some(s.to_string()),
        None => None,
    }
}

/// The media type for a file name's extension, when the table has one.
pub open spec fn spec_extension_match(name: Option<Seq<char>>) -> Option<MediaTypeView> {
    match name {
        Some(n) => match spec_extension_bytes(encode_utf8(n)) {
            Some(e) => if e.len() == 0 {
                None
            } else {
                match mime_guess_ext_first_raw(decode_utf8(e)) {
                    Some(t) => Some(MediaTypeView::Other(t)),
                    None => None,
                }
            },
            None => None,
        },
        None => None,
    }
}

proof fn lemma_last_dot_unique(b: Seq<u8>, i: int)
    requires
        -1 <= i < b.len(),
        i >= 0 ==> b[i] == 0x2eu8,
        forall|j: int| i < j < b.len() ==> b[j] != 0x2eu8,
    ensures
        spec_last_dot(b) == i,
    decreases b.len(),
{
    if b.len() > 0 && i < b.len() - 1 {
        lemma_last_dot_unique(b.drop_last(), i);
    }
}

/// The extension of `name` (see [`spec_extension_bytes`]), as a slice of it.
fn file_extension(name: &str) -> (r: Option<&str>)
    ensures
        match spec_extension_bytes(name.spec_bytes()) {
            Some(e) => r matches Some(x) && x.spec_bytes() == e,
            None => r is None,
        },
{
    let bytes = name.as_bytes();
    let ghost b = name.spec_bytes();
    proof {
        vstd::utf8::encode_utf8_valid_utf8(name@);
    }
    let mut i: usize = bytes.len();
    while i > 0
        invariant
            i <= b.len(),
            bytes@ == b,
            forall|j: int| i <= j < b.len() ==> b[j] != 0x2eu8,
        ensures
            i <= b.len(),
            forall|j: int| i <= j < b.len() ==> b[j] != 0x2eu8,
            i == 0 || b[i - 1] == 0x2eu8,
        decreases i,
    {
        if bytes[i - 1] == 0x2eu8 {
            break;
        }
        i = i - 1;
    }
    proof {
        if i > 0 && b[i - 1] == 0x2eu8 {
            lemma_last_dot_unique(b, i - 1);
        } else {
            lemma_last_dot_unique(b, -1);
        }
    }
    if i <= 1 {
        return None;
    }
    let dot = i - 1;
    proof {
        assert(b[dot as int] == 0x2eu8);
        vstd::utf8::is_char_boundary_iff_not_is_continuation_byte(b, dot as int);
    }
    let (_, tail) = name.split_at(dot);
    let ghost t = tail.spec_bytes();
    proof {
        vstd::utf8::valid_utf8_split(b, dot as int);
        assert(t =~= b.subrange(dot as int, b.len() as int));
        assert(t[0] == 0x2eu8);
        reveal_with_fuel(vstd::utf8::is_char_boundary, 2);
        assert(vstd::utf8::length_of_first_scalar(t) == 1);
        assert(vstd::utf8::is_char_boundary(t, 1));
    }
    let (_, ext) = tail.split_at(1);
    assert(ext.spec_bytes() =~= b.skip(dot + 1));
    Some(ext)
}

pub open spec fn spec_algorithm_match(d: Seq<u8>) -> Option<MediaTypeView> {
    if spec_is_mp4(d) {
        Some(MediaTypeView::VideoMp4)
    } else if spec_is_webm(d) {
        Some(MediaTypeView::VideoWebm)
    } else {
        None
    }
}

/// The guess: magic bytes first, then the MP4 and WebM structure, then the extension.
pub open spec fn spec_guess(name: Option<Seq<char>>, d: Seq<u8>) -> Option<MediaTypeView> {
    match spec_pattern_match(d) {
        Some(t) => Some(t),
        None => match spec_algorithm_match(d) {
            Some(t) => Some(t),
            None => spec_extension_match(name),
        },
    }
}

/// Whether `p` occurs in `d` at offset `off`.
fn bytes_at(d: &[u8], off: usize, p: &[u8]) -> (r: bool)
    ensures
        r == at_is(d@, off as int, p@),
{
    if off > d.len() || p.len() > d.len() - off {
        return false;
    }
    let mut i: usize = 0;
    while i < p.len()
        invariant
            i <= p@.len(),
            off as int + p@.len() <= d@.len(),
            d@.len() == d.len(),
            p@.len() == p.len(),
            forall|j: int| 0 <= j < i ==> d@[off + j] == p@[j],
        decreases p@.len() - i,
    {
        if d[off + i] != p[i] {
            assert(d@.subrange(off as int, off + p@.len())[i as int] != p@[i as int]);
            return false;
        }
        i = i + 1;
    }
    assert(d@.subrange(off as int, off + p@.len()) =~= p@);
    true
}

/// A space or `>` ends an HTML tag name.
pub fn is_whitespace_or_tag_terminator(byte: u8) -> (r: bool)
    ensures
        r == spec_is_tag_terminator(byte),
{
    byte == 0x20u8 || byte == 0x3eu8
}

fn to_ascii_uppercase(b: u8) -> (r: u8)
    ensures
        r == spec_upper(b),
{
    if 0x61 <= b && b <= 0x7a {
        b - 32
    } else {
        b
    }
}

fn html_tag(upper: &[u8], tag: &[u8]) -> (r: bool)
    ensures
        r == (at_is(upper@, 0, tag@) && upper@.len() > tag@.len() && spec_is_tag_terminator(upper@[tag@.len() as int])),
{
    bytes_at(upper, 0, tag) && upper.len() > tag.len() && is_whitespace_or_tag_terminator(upper[tag.len()])
}

fn looks_like_html(d: &[u8]) -> (r: bool)
    requires
        d@.len() >= 1,
    ensures
        r == spec_looks_like_html(d@),
{
    let mut upper: Vec<u8> = Vec::new();
    let mut i: usize = 1;
    while i < d.len()
        invariant
            1 <= i <= d@.len(),
            upper@ == spec_upper_all(d@.subrange(1, i as int)),
        decreases d@.len() - i,
    {
        upper.push(to_ascii_uppercase(d[i]));
        i = i + 1;
        assert(upper@ =~= spec_upper_all(d@.subrange(1, i as int)));
    }
    assert(d@.subrange(1, i as int) =~= d@.skip(1));
    let u = upper.as_slice();
    assert(u@ == spec_upper_all(d@.skip(1)));
    html_tag(u, &[0x21u8, 0x44u8, 0x4fu8, 0x43u8, 0x54u8, 0x59u8, 0x50u8, 0x45u8, 0x20u8, 0x48u8, 0x54u8, 0x4du8, 0x4cu8])
        || html_tag(u, &[0x48u8, 0x54u8, 0x4du8, 0x4cu8])
        || html_tag(u, &[0x48u8, 0x45u8, 0x41u8, 0x44u8])
        || html_tag(u, &[0x53u8, 0x43u8, 0x52u8, 0x49u8, 0x50u8, 0x54u8])
        || html_tag(u, &[0x49u8, 0x46u8, 0x52u8, 0x41u8, 0x4du8, 0x45u8])
        || html_tag(u, &[0x48u8, 0x31u8])
        || html_tag(u, &[0x44u8, 0x49u8, 0x56u8])
        || html_tag(u, &[0x46u8, 0x4fu8, 0x4eu8, 0x54u8])
        || html_tag(u, &[0x54u8, 0x41u8, 0x42u8, 0x4cu8, 0x45u8])
        || html_tag(u, &[0x41u8])
        || html_tag(u, &[0x53u8, 0x54u8, 0x59u8, 0x4cu8, 0x45u8])
        || html_tag(u, &[0x54u8, 0x49u8, 0x54u8, 0x4cu8, 0x45u8])
        || html_tag(u, &[0x42u8])
        || html_tag(u, &[0x42u8, 0x4fu8, 0x44u8, 0x59u8])
        || html_tag(u, &[0x42u8, 0x52u8])
        || html_tag(u, &[0x50u8])
}

/// The length of an EBML variable-size integer from its first byte: one more than the number
/// of leading zero bits, at most eight.
pub open spec fn spec_vint_size(b: u8) -> nat {
    if b >= 128 {
        1
    } else if b >= 64 {
        2
    } else if b >= 32 {
        3
    } else if b >= 16 {
        4
    } else if b >= 8 {
        5
    } else if b >= 4 {
        6
    } else if b >= 2 {
        7
    } else {
        8
    }
}

/// The length marker bit of a first byte for a number of `size` bytes.
pub open spec fn spec_vint_mask(size: nat) -> nat {
    if size <= 1 {
        128
    } else if size == 2 {
        64
    } else if size == 3 {
        32
    } else if size == 4 {
        16
    } else if size == 5 {
        8
    } else if size == 6 {
        4
    } else if size == 7 {
        2
    } else {
        1
    }
}

/// `acc` followed by the bytes of `s`, read as one big-endian number.
pub open spec fn spec_be_append(acc: nat, s: Seq<u8>) -> nat
    decreases s.len(),
{
    if s.len() == 0 {
        acc
    } else {
        spec_be_append(acc, s.drop_last()) * 256 + s.last() as nat
    }
}

/// An EBML variable-size integer at `offset`: its value and its length. The first byte without
/// its length marker gives the high bits and the following bytes the rest; when the data ends
/// before the number does, only the first byte counts. Past the end of the data the number is
/// zero, one byte long.
pub open spec fn spec_vint(d: Seq<u8>, offset: int) -> (nat, nat) {
    if offset < 0 || offset >= d.len() {
        (0, 1)
    } else {
        let size = spec_vint_size(d[offset]);
        let first = ((d[offset] as nat) % spec_vint_mask(size)) as nat;
        if offset + size <= d.len() {
            (spec_be_append(first, d.subrange(offset + 1, offset + size)), size)
        } else {
            (first, size)
        }
    }
}

pub open spec fn pow256(n: nat) -> nat
    decreases n,
{
    if n == 0 {
        1
    } else {
        256 * pow256((n - 1) as nat)
    }
}

proof fn lemma_pow256_le(i: nat)
    requires
        i <= 8,
    ensures
        pow256(i) <= 0x1_0000_0000_0000_0000,
        pow256(i) >= 1,
    decreases i,
{
    reveal_with_fuel(pow256, 9);
}

/// Reads an EBML variable-size integer at `offset`: its length comes from the leading zero bits
/// of the first byte, the value from the remaining bits followed by the next bytes. The value
/// is truncated to `usize`.
pub fn parse_vint(data: &[u8], offset: usize) -> (r: (usize, usize))
    ensures
        r.0 == spec_vint(data@, offset as int).0 as usize,
        r.1 == spec_vint(data@, offset as int).1,
{
    if offset >= data.len() {
        return (0, 1);
    }
    let b = data[offset];
    let (number_size, mask): (usize, u8) = if b >= 128 {
        (1, 128)
    } else if b >= 64 {
        (2, 64)
    } else if b >= 32 {
        (3, 32)
    } else if b >= 16 {
        (4, 16)
    } else if b >= 8 {
        (5, 8)
    } else if b >= 4 {
        (6, 4)
    } else if b >= 2 {
        (7, 2)
    } else {
        (8, 1)
    };
    assert(number_size == spec_vint_size(b) && mask == spec_vint_mask(number_size as nat));
    let mut parsed: u64 = (b % mask) as u64;
    if number_size <= data.len() - offset {
        let ghost first = parsed as nat;
        let mut i: usize = 1;
        proof {
            assert(data@.subrange(offset + 1, offset + 1) =~= Seq::<u8>::empty());
            reveal_with_fuel(pow256, 2);
        }
        while i < number_size
            invariant
                1 <= i <= number_size <= 8,
                offset + number_size <= data@.len(),
                parsed as nat == spec_be_append(first, data@.subrange(offset + 1, offset + i)),
                (parsed as nat) < pow256(i as nat),
            decreases number_size - i,
        {
            proof {
                lemma_pow256_le((i + 1) as nat);
                let sub = data@.subrange(offset + 1, offset + i + 1);
                assert(sub.drop_last() =~= data@.subrange(offset + 1, offset + i));
                assert(sub.last() == data@[offset + i]);
                assert(pow256((i + 1) as nat) == 256 * pow256(i as nat));
                assert((parsed as nat) * 256 + 255 < pow256((i + 1) as nat)) by (nonlinear_arith)
                    requires
                        (parsed as nat) < pow256(i as nat),
                        pow256((i + 1) as nat) == 256 * pow256(i as nat),
                ;
            }
            assert(offset + i < data@.len());
            assert(data@.len() == data.len());
            let next = data[offset + i];
            parsed = parsed * 256 + next as u64;
            i = i + 1;
        }
    }
    let value = #[verifier::truncate] (parsed as usize);
    (value, number_size)
}

/// The content sniffer for a file: collects its name and leading data, then guesses the media
/// type.
pub struct MimeGuesser {
    pub name: Option<String>,
    pub data: Vec<u8>,
}

pub struct MimeGuesserView {
    pub name: Option<Seq<char>>,
    pub data: Seq<u8>,
}

impl View for MimeGuesser {
    type V = MimeGuesserView;

    open spec fn view(&self) -> MimeGuesserView {
        MimeGuesserView {
            name: match self.name {
                Some(s) => Some(s@),
                None => None,
            },
            data: self.data@,
        }
    }
}

impl Default for MimeGuesser {
    fn default() -> (r: Self)
        ensures
            r@.name is None,
            r@.data == Seq::<u8>::empty(),
    {
        MimeGuesser { name: None, data: Vec::new() }
    }
}

impl MimeGuesser {
    /// Records the file name; the root has no name and leaves the guesser as it was.
    pub fn with_name(self, name: NodeName) -> (r: Self)
        ensures
            r@.data == self@.data,
            match name@ {
                NodeNameView::Named(c) => r@.name == Some(c),
                NodeNameView::Root => r@.name == self@.name,
            },
    {
        let mut this = self;
        match name {
            NodeName::Named(n) => this.name = Some(n),
            NodeName::Root => {},
        }
        this
    }

    /// Appends `data` to the bytes collected so far.
    pub fn with_data(self, data: &[u8]) -> (r: Self)
        ensures
            r@.name == self@.name,
            r@.data == self@.data + data@,
    {
        let mut this = self;
        crate::codec::parser::put_bytes(&mut this.data, data);
        this
    }

    /// The guessed media type: magic bytes first, then the MP4 and WebM structure, then the
    /// file name's extension.
    pub fn guess_mime_type(&self) -> (r: Option<MediaType>)
        ensures
            match spec_guess(self@.name, self@.data) {
                Some(t) => r matches Some(m) && m@ == t,
                None => r is None,
            },
    {
        match self.pattern_match() {
            Some(t) => return Some(t),
            None => {},
        }
        match self.algorithm_match() {
            Some(t) => return Some(t),
            None => {},
        }
        self.extension_match()
    }

    fn extension_match(&self) -> (r: Option<MediaType>)
        ensures
            match spec_extension_match(self@.name) {
                Some(t) => r matches Some(m) && m@ == t,
                None => r is None,
            },
    {
        match &self.name {
            Some(name) => match file_extension(name.as_str()) {
                Some(ext) => {
                    proof {
                        vstd::utf8::encode_utf8_decode_utf8(ext@);
                    }
                    match guess_from_extension(ext) {
                        Some(t) => Some(MediaType::Other(t)),
                        None => None,
                    }
                },
                None => None,
            },
            None => None,
        }
    }

    fn algorithm_match(&self) -> (r: Option<MediaType>)
        ensures
            match spec_algorithm_match(self@.data) {
                Some(t) => r matches Some(m) && m@ == t,
                None => r is None,
            },
    {
        if self.is_mp4() {
            return Some(MediaType::VideoMp4);
        }
        if self.is_webm() {
            return Some(MediaType::VideoWebm);
        }
        None
    }

    /// Whether the data is an MP4 file: an `ftyp` box that fits the data, whose major brand or
    /// one of whose compatible brands (inside the box) starts with `mp4`.
    pub fn is_mp4(&self) -> (r: bool)
        ensures
            r == spec_is_mp4(self@.data),
    {
        let data = self.data.as_slice();
        if data.len() < 12 {
            return false;
        }
        let box_size: u32 = (data[0] as u32) * 16777216 + (data[1] as u32) * 65536 + (data[2] as u32) * 256 + (data[3] as u32);
        if data.len() < box_size as usize || box_size % 4 != 0 {
            return false;
        }
        if !bytes_at(data, 4, &[0x66u8, 0x74u8, 0x79u8, 0x70u8]) {
            return false;
        }
        if bytes_at(data, 8, &[0x6du8, 0x70u8, 0x34u8]) {
            return true;
        }
        let end = box_size as usize;
        let mut pos: usize = 16;
        let ghost mut k: int = 0;
        while pos < end
            invariant
                data@ == self@.data,
                spec_mp4_head(data@),
                end == spec_box_size(data@),
                end <= data@.len(),
                end % 4 == 0,
                pos == 16 + 4 * k,
                0 <= k,
                forall|j: int| 0 <= j < k ==> !#[trigger] spec_mp4_brand_at(data@, j),
            decreases end - pos,
        {
            assert(pos + 4 <= end);
            if bytes_at(data, pos, &[0x6du8, 0x70u8, 0x34u8]) {
                assert(spec_mp4_brand_at(data@, k));
                return true;
            }
            pos = pos + 4;
            proof {
                k = k + 1;
            }
        }
        assert forall|j: int| #[trigger] spec_mp4_brand_at(data@, j) implies false by {
            if j >= k {
                assert(16 + 4 * j + 4 <= end);
            }
        }
        false
    }

    /// Whether the data is a WebM file: the EBML magic, then within the next 34 bytes a DocType
    /// element (`0x42 0x82`, at an even offset) whose size is followed by `webm`.
    pub fn is_webm(&self) -> (r: bool)
        ensures
            r == spec_is_webm(self@.data),
    {
        let data = self.data.as_slice();
        if data.len() < 4 || !bytes_at(data, 0, &[0x1A, 0x45, 0xDF, 0xA3]) {
            return false;
        }
        let mut idx: usize = 0;
        while idx < 17 && 4 + 2 * idx + 2 <= data.len()
            invariant
                data@ == self@.data,
                spec_webm_head(data@),
                idx <= 17,
                forall|j: int| 0 <= j < idx ==> !#[trigger] spec_webm_hit(data@, j),
            decreases 17 - idx,
        {
            let p = 4 + 2 * idx;
            if data[p] == 0x42 && data[p + 1] == 0x82 {
                assert(spec_webm_marker(data@, idx as int));
                let offset = p + 2;
                let (_, number_size) = parse_vint(data, offset);
                if number_size <= data.len() - offset {
                    let start = offset + number_size;
                    if 4 <= data.len() - start && bytes_at(data, start, &[0x77u8, 0x65u8, 0x62u8, 0x6du8]) {
                        assert(spec_webm_hit(data@, idx as int));
                        return true;
                    }
                }
            }
            idx = idx + 1;
        }
        assert forall|j: int| #[trigger] spec_webm_hit(data@, j) implies false by {
            if j >= idx {
                assert(spec_webm_marker(data@, j));
            }
        }
        false
    }

    fn pattern_match(&self) -> (r: Option<MediaType>)
        ensures
            match spec_pattern_match(self@.data) {
                Some(t) => r matches Some(m) && m@ == t,
                None => r is None,
            },
    {
        let d = self.data.as_slice();
        if bytes_at(d, 0, &[0xFF, 0xD8, 0xFF]) {
            Some(MediaType::ImageJpeg)
        } else if bytes_at(d, 0, &[0x89, 0x50u8, 0x4eu8, 0x47u8, 0x0D, 0x0A, 0x1A, 0x0A]) {
            Some(MediaType::ImagePng)
        } else if bytes_at(d, 0, &[0x47u8, 0x49u8, 0x46u8, 0x38u8, 0x37u8, 0x61u8]) || bytes_at(d, 0, &[0x47u8, 0x49u8, 0x46u8, 0x38u8, 0x39u8, 0x61u8]) {
            Some(MediaType::ImageGif)
        } else if bytes_at(d, 0, &[0x42u8, 0x4du8]) {
            Some(MediaType::ImageBmp)
        } else if bytes_at(d, 0, &[0x3cu8, 0x3fu8, 0x78u8, 0x6du8, 0x6cu8]) {
            Some(MediaType::TextXml)
        } else if bytes_at(d, 0, &[0x3cu8, 0x73u8, 0x76u8, 0x67u8]) {
            Some(MediaType::ImageSvg)
        } else if bytes_at(d, 0, &[0x77u8, 0x4fu8, 0x46u8, 0x46u8]) {
            Some(MediaType::FontWoff)
        } else if bytes_at(d, 0, &[0x77u8, 0x4fu8, 0x46u8, 0x32u8]) {
            Some(MediaType::FontWoff2)
        } else if bytes_at(d, 0, &[0x25u8, 0x50u8, 0x44u8, 0x46u8, 0x2du8]) {
            Some(MediaType::ApplicationPdf)
        } else if bytes_at(d, 0, &[0x7bu8]) {
            Some(MediaType::ApplicationJson)
        } else if bytes_at(d, 0, &[0x46u8, 0x4fu8, 0x52u8, 0x4du8]) && bytes_at(d, 8, &[0x41u8, 0x49u8, 0x46u8, 0x46u8]) {
            Some(MediaType::AudioAiff)
        } else if bytes_at(d, 0, &[0x49u8, 0x44u8, 0x33u8]) {
            Some(MediaType::AudioMpeg)
        } else if bytes_at(d, 0, &[0x4fu8, 0x67u8, 0x67u8, 0x53u8, 0]) {
            Some(MediaType::AudioOgg)
        } else if bytes_at(d, 0, &[0x4du8, 0x54u8, 0x68u8, 0x64u8, 0, 0, 0, 0x06]) {
            Some(MediaType::AudioMidi)
        } else if bytes_at(d, 0, &[0x52u8, 0x49u8, 0x46u8, 0x46u8]) && bytes_at(d, 8, &[0x41u8, 0x56u8, 0x49u8, 0x20u8]) {
            Some(MediaType::VideoAvi)
        } else if bytes_at(d, 0, &[0x52u8, 0x49u8, 0x46u8, 0x46u8]) && bytes_at(d, 8, &[0x57u8, 0x41u8, 0x56u8, 0x45u8]) {
            Some(MediaType::AudioWave)
        } else if bytes_at(d, 0, &[0x1F, 0x8B, 0x08]) {
            Some(MediaType::ApplicationGzip)
        } else if bytes_at(d, 0, &[0x50u8, 0x4bu8, 0x03, 0x04]) {
            Some(MediaType::ApplicationZip)
        } else if bytes_at(d, 0, &[0x52u8, 0x61u8, 0x72u8, 0x20u8, 0x1A, 0x07, 0]) {
            Some(MediaType::ApplicationRar)
        } else if bytes_at(d, 34, &[0x4cu8, 0x50u8]) {
            Some(MediaType::ApplicationVndMsFontobject)
        } else if bytes_at(d, 0, &[0, 0x01, 0, 0]) {
            Some(MediaType::FontTtf)
        } else if bytes_at(d, 0, &[0x4fu8, 0x54u8, 0x54u8, 0x4fu8]) {
            Some(MediaType::FontOtf)
        } else if bytes_at(d, 0, &[0x74u8, 0x74u8, 0x63u8, 0x66u8]) {
            Some(MediaType::FontCollection)
        } else if bytes_at(d, 0, &[0x25u8, 0x21u8, 0x50u8, 0x53u8, 0x2du8, 0x41u8, 0x64u8, 0x6fu8, 0x62u8, 0x65u8, 0x2du8]) {
            Some(MediaType::ApplicationPostscript)
        } else if bytes_at(d, 0, &[0xFE, 0xFF, 0, 0]) || bytes_at(d, 0, &[0xFF, 0xFE, 0, 0]) || bytes_at(d, 0, &[0xEF, 0xBB, 0xBF, 0]) {
            Some(MediaType::TextPlain)
        } else if bytes_at(d, 0, &[0x3cu8]) {
            if looks_like_html(d) {
                Some(MediaType::TextHtml)
            } else {
                None
            }
        } else {
            None
        }
    }
}


/// Sniffed media types are only given to data that carries their signature: a JPEG is only
/// recognised in data beginning `FF D8 FF`, a PNG only in data beginning with the eight byte PNG
/// signature, and likewise for every type recognised from leading bytes.
pub proof fn lemma_sniffed_type_has_its_signature(d: Seq<u8>)
    ensures
        spec_pattern_match(d) == Some(MediaTypeView::ImageJpeg) ==> seq![0xFFu8, 0xD8u8, 0xFFu8].is_prefix_of(d),
        spec_pattern_match(d) == Some(MediaTypeView::ImagePng) ==> seq![0x89u8, 0x50u8, 0x4Eu8, 0x47u8, 0x0Du8, 0x0Au8, 0x1Au8, 0x0Au8].is_prefix_of(d),
        spec_pattern_match(d) == Some(MediaTypeView::ImageGif) ==> (seq![0x47u8, 0x49u8, 0x46u8, 0x38u8, 0x37u8, 0x61u8].is_prefix_of(d) || seq![0x47u8, 0x49u8, 0x46u8, 0x38u8, 0x39u8, 0x61u8].is_prefix_of(d)),
        spec_pattern_match(d) == Some(MediaTypeView::ImageBmp) ==> seq![0x42u8, 0x4Du8].is_prefix_of(d),
        spec_pattern_match(d) == Some(MediaTypeView::TextXml) ==> seq![0x3Cu8, 0x3Fu8, 0x78u8, 0x6Du8, 0x6Cu8].is_prefix_of(d),
        spec_pattern_match(d) == Some(MediaTypeView::ImageSvg) ==> seq![0x3Cu8, 0x73u8, 0x76u8, 0x67u8].is_prefix_of(d),
        spec_pattern_match(d) == Some(MediaTypeView::FontWoff) ==> seq![0x77u8, 0x4Fu8, 0x46u8, 0x46u8].is_prefix_of(d),
        spec_pattern_match(d) == Some(MediaTypeView::FontWoff2) ==> seq![0x77u8, 0x4Fu8, 0x46u8, 0x32u8].is_prefix_of(d),
        spec_pattern_match(d) == Some(MediaTypeView::ApplicationPdf) ==> seq![0x25u8, 0x50u8, 0x44u8, 0x46u8, 0x2Du8].is_prefix_of(d),
        spec_pattern_match(d) == Some(MediaTypeView::ApplicationJson) ==> seq![0x7Bu8].is_prefix_of(d),
        spec_pattern_match(d) == Some(MediaTypeView::AudioAiff) ==> (seq![0x46u8, 0x4Fu8, 0x52u8, 0x4Du8].is_prefix_of(d) && d.len() >= 12 && d.subrange(8, 12) == seq![0x41u8, 0x49u8, 0x46u8, 0x46u8]),
        spec_pattern_match(d) == Some(MediaTypeView::AudioMpeg) ==> seq![0x49u8, 0x44u8, 0x33u8].is_prefix_of(d),
        spec_pattern_match(d) == Some(MediaTypeView::AudioOgg) ==> seq![0x4Fu8, 0x67u8, 0x67u8, 0x53u8, 0x00u8].is_prefix_of(d),
        spec_pattern_match(d) == Some(MediaTypeView::AudioMidi) ==> seq![0x4Du8, 0x54u8, 0x68u8, 0x64u8, 0x00u8, 0x00u8, 0x00u8, 0x06u8].is_prefix_of(d),
        spec_pattern_match(d) == Some(MediaTypeView::VideoAvi) ==> (seq![0x52u8, 0x49u8, 0x46u8, 0x46u8].is_prefix_of(d) && d.len() >= 12 && d.subrange(8, 12) == seq![0x41u8, 0x56u8, 0x49u8, 0x20u8]),
        spec_pattern_match(d) == Some(MediaTypeView::AudioWave) ==> (seq![0x52u8, 0x49u8, 0x46u8, 0x46u8].is_prefix_of(d) && d.len() >= 12 && d.subrange(8, 12) == seq![0x57u8, 0x41u8, 0x56u8, 0x45u8]),
        spec_pattern_match(d) == Some(MediaTypeView::ApplicationGzip) ==> seq![0x1Fu8, 0x8Bu8, 0x08u8].is_prefix_of(d),
        spec_pattern_match(d) == Some(MediaTypeView::ApplicationZip) ==> seq![0x50u8, 0x4Bu8, 0x03u8, 0x04u8].is_prefix_of(d),
        spec_pattern_match(d) == Some(MediaTypeView::ApplicationRar) ==> seq![0x52u8, 0x61u8, 0x72u8, 0x20u8, 0x1Au8, 0x07u8, 0x00u8].is_prefix_of(d),
        spec_pattern_match(d) == Some(MediaTypeView::ApplicationVndMsFontobject) ==> (d.len() >= 36 && d[34] == 0x4Cu8 && d[35] == 0x50u8),
        spec_pattern_match(d) == Some(MediaTypeView::FontTtf) ==> seq![0x00u8, 0x01u8, 0x00u8, 0x00u8].is_prefix_of(d),
        spec_pattern_match(d) == Some(MediaTypeView::FontOtf) ==> seq![0x4Fu8, 0x54u8, 0x54u8, 0x4Fu8].is_prefix_of(d),
        spec_pattern_match(d) == Some(MediaTypeView::FontCollection) ==> seq![0x74u8, 0x74u8, 0x63u8, 0x66u8].is_prefix_of(d),
        spec_pattern_match(d) == Some(MediaTypeView::ApplicationPostscript) ==> seq![0x25u8, 0x21u8, 0x50u8, 0x53u8, 0x2Du8, 0x41u8, 0x64u8, 0x6Fu8, 0x62u8, 0x65u8, 0x2Du8].is_prefix_of(d),
        spec_pattern_match(d) == Some(MediaTypeView::TextPlain) ==> (seq![0xFEu8, 0xFFu8, 0x00u8, 0x00u8].is_prefix_of(d) || seq![0xFFu8, 0xFEu8, 0x00u8, 0x00u8].is_prefix_of(d) || seq![0xEFu8, 0xBBu8, 0xBFu8, 0x00u8].is_prefix_of(d)),
        spec_pattern_match(d) == Some(MediaTypeView::TextHtml) ==> (seq![0x3Cu8].is_prefix_of(d) && spec_looks_like_html(d)),
{
}

/// Data that begins with one of these signatures is guessed as the type the signature names,
/// whatever its name: `FF D8 FF` is a JPEG image, the PNG signature a PNG image, `GIF87a` or
/// `GIF89a` a GIF image, `%PDF-` a PDF document, and so on.
pub proof fn lemma_signature_gives_its_type(name: Option<Seq<char>>, d: Seq<u8>)
    ensures
        seq![0xFFu8, 0xD8u8, 0xFFu8].is_prefix_of(d) ==> spec_guess(name, d) == Some(MediaTypeView::ImageJpeg),
        seq![0x89u8, 0x50u8, 0x4Eu8, 0x47u8, 0x0Du8, 0x0Au8, 0x1Au8, 0x0Au8].is_prefix_of(d) ==> spec_guess(name, d) == Some(MediaTypeView::ImagePng),
        (seq![0x47u8, 0x49u8, 0x46u8, 0x38u8, 0x37u8, 0x61u8].is_prefix_of(d) || seq![0x47u8, 0x49u8, 0x46u8, 0x38u8, 0x39u8, 0x61u8].is_prefix_of(d)) ==> spec_guess(name, d) == Some(MediaTypeView::ImageGif),
        seq![0x42u8, 0x4Du8].is_prefix_of(d) ==> spec_guess(name, d) == Some(MediaTypeView::ImageBmp),
        seq![0x3Cu8, 0x3Fu8, 0x78u8, 0x6Du8, 0x6Cu8].is_prefix_of(d) ==> spec_guess(name, d) == Some(MediaTypeView::TextXml),
        seq![0x3Cu8, 0x73u8, 0x76u8, 0x67u8].is_prefix_of(d) ==> spec_guess(name, d) == Some(MediaTypeView::ImageSvg),
        seq![0x77u8, 0x4Fu8, 0x46u8, 0x46u8].is_prefix_of(d) ==> spec_guess(name, d) == Some(MediaTypeView::FontWoff),
        seq![0x77u8, 0x4Fu8, 0x46u8, 0x32u8].is_prefix_of(d) ==> spec_guess(name, d) == Some(MediaTypeView::FontWoff2),
        seq![0x25u8, 0x50u8, 0x44u8, 0x46u8, 0x2Du8].is_prefix_of(d) ==> spec_guess(name, d) == Some(MediaTypeView::ApplicationPdf),
        seq![0x7Bu8].is_prefix_of(d) ==> spec_guess(name, d) == Some(MediaTypeView::ApplicationJson),
        (seq![0x46u8, 0x4Fu8, 0x52u8, 0x4Du8].is_prefix_of(d) && d.len() >= 12 && d.subrange(8, 12) == seq![0x41u8, 0x49u8, 0x46u8, 0x46u8]) ==> spec_guess(name, d) == Some(MediaTypeView::AudioAiff),
        seq![0x49u8, 0x44u8, 0x33u8].is_prefix_of(d) ==> spec_guess(name, d) == Some(MediaTypeView::AudioMpeg),
        seq![0x4Fu8, 0x67u8, 0x67u8, 0x53u8, 0x00u8].is_prefix_of(d) ==> spec_guess(name, d) == Some(MediaTypeView::AudioOgg),
        seq![0x4Du8, 0x54u8, 0x68u8, 0x64u8, 0x00u8, 0x00u8, 0x00u8, 0x06u8].is_prefix_of(d) ==> spec_guess(name, d) == Some(MediaTypeView::AudioMidi),
        (seq![0x52u8, 0x49u8, 0x46u8, 0x46u8].is_prefix_of(d) && d.len() >= 12 && d.subrange(8, 12) == seq![0x41u8, 0x56u8, 0x49u8, 0x20u8]) ==> spec_guess(name, d) == Some(MediaTypeView::VideoAvi),
        (seq![0x52u8, 0x49u8, 0x46u8, 0x46u8].is_prefix_of(d) && d.len() >= 12 && d.subrange(8, 12) == seq![0x57u8, 0x41u8, 0x56u8, 0x45u8]) ==> spec_guess(name, d) == Some(MediaTypeView::AudioWave),
        seq![0x1Fu8, 0x8Bu8, 0x08u8].is_prefix_of(d) ==> spec_guess(name, d) == Some(MediaTypeView::ApplicationGzip),
        seq![0x50u8, 0x4Bu8, 0x03u8, 0x04u8].is_prefix_of(d) ==> spec_guess(name, d) == Some(MediaTypeView::ApplicationZip),
        seq![0x52u8, 0x61u8, 0x72u8, 0x20u8, 0x1Au8, 0x07u8, 0x00u8].is_prefix_of(d) ==> spec_guess(name, d) == Some(MediaTypeView::ApplicationRar),
{
    if d.len() > 0 {
        assert(d.subrange(0, 1)[0] == d[0]);
    }
    if d.len() > 1 {
        assert(d.subrange(0, 2)[1] == d[1]);
    }
    assert([0x7bu8]@ =~= seq![0x7Bu8]);
}


/// Structure sniffing only names MP4 video for data with an `ftyp` box at byte 4 and WebM
/// video for data beginning with the EBML magic `1A 45 DF A3`; and data no signature matches
/// whose first box is an `ftyp` box of major brand `mp4`, fitting the data and a multiple of
/// four bytes long, is guessed as MP4 video whatever its name.
pub proof fn lemma_video_structure(name: Option<Seq<char>>, d: Seq<u8>)
    ensures
        spec_algorithm_match(d) == Some(MediaTypeView::VideoMp4) ==> d.len() >= 12 && d.subrange(4, 8) == seq![
            0x66u8,
            0x74u8,
            0x79u8,
            0x70u8,
        ],
        spec_algorithm_match(d) == Some(MediaTypeView::VideoWebm) ==> seq![0x1Au8, 0x45u8, 0xDFu8, 0xA3u8].is_prefix_of(d),
        spec_algorithm_match(d) is None || spec_algorithm_match(d) == Some(MediaTypeView::VideoMp4) || spec_algorithm_match(d)
            == Some(MediaTypeView::VideoWebm),
        (spec_pattern_match(d) is None && d.len() >= 12 && d[0] * 16777216 + d[1] * 65536 + d[2] * 256 + d[3] <= d.len()
            && (d[0] * 16777216 + d[1] * 65536 + d[2] * 256 + d[3]) % 4 == 0 && d.subrange(4, 8) == seq![
            0x66u8,
            0x74u8,
            0x79u8,
            0x70u8,
        ] && d.subrange(8, 11) == seq![0x6du8, 0x70u8, 0x34u8]) ==> spec_guess(name, d) == Some(MediaTypeView::VideoMp4),
{
}

} // verus!
