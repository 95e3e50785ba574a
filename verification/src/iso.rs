//! What the bytes of a PlayStation 2 disc image say about it.
//!
//! The functions here take the parts of an image that have been read and decide: whether it is
//! an image at all, which game it is, what it is called and which kind of disc it was.

use crate::text::{
    contains,
    contains_text,
    decode_lossy,
    decoded,
    find_first,
    first_of,
    from_chars,
    is_blank,
    is_white_space,
    law_contains_text,
    law_lines,
    law_trim_end_char,
    law_trimmed,
    law_trimming_leaves_white_space,
    lemma_first_of,
    lemma_first_of_unique,
    lines,
    occurs_at,
    optional_text,
    remove_char,
    same_bytes,
    split_line,
    to_chars,
    trim,
    trim_end_char,
    trim_end_matches,
    trimmed,
    without_char,
};
use crate::ulcfg::{MEDIA_CD, MEDIA_DVD};
use vstd::prelude::*;
use vstd::slice::slice_subrange;
use vstd::string::StringExecFns;

verus! {

/// Where the primary volume descriptor stands: sector 16.
pub const DESCRIPTOR_OFFSET: u64 = 0x8000;

/// How many bytes of the descriptor tell whether it is one.
pub const DESCRIPTOR_MARK_SIZE: usize = 6;

/// The smallest size of an image: up to the end of the descriptor's sector.
pub const MIN_IMAGE_SIZE: u64 = 0x8000 + 2048;

/// Where the mark of the UDF volume recognition sequence stands: sector 256.
pub const UDF_OFFSET: u64 = 0x80000;

/// How many bytes that mark has.
pub const UDF_MARK_SIZE: usize = 5;

/// Where the volume label stands.
pub const LABEL_OFFSET: u64 = 0x8028;

/// How many bytes the volume label has.
pub const LABEL_SIZE: usize = 40;

/// How far into an image `SYSTEM.CNF` is looked for.
pub const SEARCH_SIZE: u64 = 4 * 1024 * 1024;

/// The capacity of a CD.
pub const CD_MAX_BYTES: u64 = 700 * 1024 * 1024;

/// What can go wrong with an image file.
#[derive(Debug, Clone)]
pub enum IsoError {
    /// There is no file at this path.
    NotFound(String),
    /// The file could not be read.
    Io(String),
    /// The file's content makes no sense.
    InvalidFormat(String),
}

/// What an [`IsoError`] holds.
pub enum IsoErrorView {
    NotFound(Seq<char>),
    Io(Seq<char>),
    InvalidFormat(Seq<char>),
}

impl View for IsoError {
    type V = IsoErrorView;

    open spec fn view(&self) -> IsoErrorView {
        match self {
            IsoError::NotFound(s) => IsoErrorView::NotFound(s@),
            IsoError::Io(s) => IsoErrorView::Io(s@),
            IsoError::InvalidFormat(s) => IsoErrorView::InvalidFormat(s@),
        }
    }
}

impl IsoError {
    /// The error in words.
    pub fn message(&self) -> (m: String)
        ensures
            m@ == (match self@ {
                IsoErrorView::NotFound(s) => "File not found: "@ + s,
                IsoErrorView::Io(s) => "IO error: "@ + s,
                IsoErrorView::InvalidFormat(s) => "Invalid ISO: "@ + s,
            }),
    {
        match self {
            IsoError::NotFound(s) => "File not found: ".to_owned().concat(s.as_str()),
            IsoError::Io(s) => "IO error: ".to_owned().concat(s.as_str()),
            IsoError::InvalidFormat(s) => "Invalid ISO: ".to_owned().concat(s.as_str()),
        }
    }
}

/// What is known of an image.
#[derive(Debug, Clone)]
pub struct IsoInfo {
    pub valid: bool,
    pub size: u64,
    pub format: Option<String>,
    pub error: Option<String>,
    pub game_id: Option<String>,
    pub title: Option<String>,
}

/// What an [`IsoInfo`] holds.
#[verifier::ext_equal]
pub struct IsoInfoView {
    pub valid: bool,
    pub size: u64,
    pub format: Option<Seq<char>>,
    pub error: Option<Seq<char>>,
    pub game_id: Option<Seq<char>>,
    pub title: Option<Seq<char>>,
}

impl View for IsoInfo {
    type V = IsoInfoView;

    open spec fn view(&self) -> IsoInfoView {
        IsoInfoView {
            valid: self.valid,
            size: self.size,
            format: optional_text(self.format),
            error: optional_text(self.error),
            game_id: optional_text(self.game_id),
            title: optional_text(self.title),
        }
    }
}

/// The parts of an image file that [`validate_iso`] looks at.
#[derive(Debug)]
pub struct IsoImage {
    /// The size of the file.
    pub size: u64,
    /// The first bytes of the volume descriptor, or why the file could not be opened or read.
    pub descriptor: Result<Vec<u8>, String>,
    /// The UDF mark where there are bytes for it, or why it could not be sought.
    pub udf: Result<Option<Vec<u8>>, String>,
    /// The bytes in which `SYSTEM.CNF` is looked for, where they could be read.
    pub head: Option<Vec<u8>>,
    /// The volume label, where it could be read.
    pub label: Option<Vec<u8>>,
}

/// What looking for an image file came to.
#[derive(Debug)]
pub enum IsoProbe {
    /// There is no such file.
    Missing,
    /// The file's size could not be told.
    Failed(String),
    /// The file is there.
    Found(IsoImage),
}

// ---------------------------------------------------------------- SYSTEM.CNF

/// The path that a line of `SYSTEM.CNF` boots from: what stands between the first backslash and
/// the next semicolon, in a line that names `BOOT2` and `cdrom0:`.
pub open spec fn boot_path(line: Seq<char>) -> Option<Seq<char>> {
    let t = trimmed(line);
    let slash = first_of(t, '\\');
    let after = t.skip(slash + 1);
    let end = first_of(after, ';');
    if contains_text(t, "BOOT2"@) && contains_text(t, "cdrom0:"@) && slash < t.len() && end
        < after.len() {
        Some(after.take(end))
    } else {
        None
    }
}

/// The startup id in the first line that has a boot path which is not blank.
pub open spec fn first_startup(ls: Seq<Seq<char>>) -> Option<Seq<char>>
    decreases ls.len(),
{
    if ls.len() == 0 {
        None
    } else {
        match boot_path(ls[0]) {
            Some(path) => if trimmed(path).len() > 0 {
                Some(trimmed(path))
            } else {
                first_startup(ls.drop_first())
            },
            None => first_startup(ls.drop_first()),
        }
    }
}

/// The game id in the first line that has a boot path: that path without its dots.
pub open spec fn first_game_id(ls: Seq<Seq<char>>) -> Option<Seq<char>>
    decreases ls.len(),
{
    if ls.len() == 0 {
        None
    } else {
        match boot_path(ls[0]) {
            Some(path) => Some(without_char(path, '.')),
            None => first_game_id(ls.drop_first()),
        }
    }
}

/// The path that a line of `SYSTEM.CNF` boots from.
fn boot_path_of(line: &[char]) -> (path: Option<Vec<char>>)
    ensures
        match path {
            Some(p) => boot_path(line@) == Some(p@),
            None => boot_path(line@) is None,
        },
{
    let t = trim(line);
    if !contains(t, "BOOT2") || !contains(t, "cdrom0:") {
        return None;
    }
    let slash: usize = find_first(t, '\\');
    if slash >= t.len() {
        return None;
    }
    let after = slice_subrange(t, slash + 1, t.len());
    let end: usize = find_first(after, ';');
    if end >= after.len() {
        return None;
    }
    Some(to_vec(slice_subrange(after, 0, end)))
}

/// A copy of these characters.
fn to_vec(s: &[char]) -> (v: Vec<char>)
    ensures
        v@ == s@,
{
    let mut v: Vec<char> = Vec::new();
    v.extend_from_slice(s);
    assert(v@ =~= s@);
    v
}

/// The startup id that a text names, as it stands there: `SLUS_217.46` for the line
/// `BOOT2 = cdrom0:\SLUS_217.46;1`.
pub fn startup_in_text(text: &str) -> (id: Option<String>)
    ensures
        optional_text(id) == first_startup(lines(text@)),
{
    let chars = to_chars(text);
    let mut rest: &[char] = chars.as_slice();
    while rest.len() > 0
        invariant
            first_startup(lines(text@)) == first_startup(lines(rest@)),
        decreases rest.len(),
    {
        let (line, more) = split_line(rest);
        proof {
            let tail = match more {
                Some(t) => lines(t@),
                None => seq![],
            };
            assert(lines(rest@) =~= seq![line@] + tail);
            assert((seq![line@] + tail).drop_first() =~= tail);
            assert(first_startup(Seq::empty()) is None);
        }
        match boot_path_of(line) {
            Some(path) => {
                let id = trim(path.as_slice());
                if id.len() > 0 {
                    return Some(from_chars(id));
                }
            },
            None => {},
        }
        match more {
            Some(t) => {
                rest = t;
            },
            None => {
                return None;
            },
        }
    }
    None
}

/// The game id that a text names, without dots: `SLUS_21746` for the line
/// `BOOT2 = cdrom0:\SLUS_217.46;1`.
pub fn game_id_in_text(text: &str) -> (id: Option<String>)
    ensures
        optional_text(id) == first_game_id(lines(text@)),
{
    let chars = to_chars(text);
    let mut rest: &[char] = chars.as_slice();
    while rest.len() > 0
        invariant
            first_game_id(lines(text@)) == first_game_id(lines(rest@)),
        decreases rest.len(),
    {
        let (line, more) = split_line(rest);
        proof {
            let tail = match more {
                Some(t) => lines(t@),
                None => seq![],
            };
            assert(lines(rest@) =~= seq![line@] + tail);
            assert((seq![line@] + tail).drop_first() =~= tail);
            assert(first_game_id(Seq::empty()) is None);
        }
        match boot_path_of(line) {
            Some(path) => {
                return Some(from_chars(remove_char(path.as_slice(), '.').as_slice()));
            },
            None => {},
        }
        match more {
            Some(t) => {
                rest = t;
            },
            None => {
                return None;
            },
        }
    }
    None
}

/// How many bytes from the start of an image `SYSTEM.CNF` is looked for in.
pub fn search_len(file_size: u64) -> (n: u64)
    ensures
        n == (if file_size < SEARCH_SIZE {
            file_size
        } else {
            SEARCH_SIZE
        }),
{
    if file_size < SEARCH_SIZE {
        file_size
    } else {
        SEARCH_SIZE
    }
}

/// The startup id that the head of an image names, with its dot: the form that chunk file names
/// and the game list use.
pub fn extract_startup(head: &[u8]) -> (id: Option<String>)
    ensures
        optional_text(id) == first_startup(lines(decoded(head@))),
{
    startup_in_text(decode_lossy(head).as_str())
}

/// The game id that the head of an image names, without dots, for display.
pub fn extract_game_id(head: &[u8]) -> (id: Result<String, IsoError>)
    ensures
        match id {
            Ok(s) => first_game_id(lines(decoded(head@))) == Some(s@),
            Err(e) => first_game_id(lines(decoded(head@))) is None && e@
                == IsoErrorView::InvalidFormat("SYSTEM.CNF not found"@),
        },
{
    match game_id_in_text(decode_lossy(head).as_str()) {
        Some(id) => Ok(id),
        None => Err(IsoError::InvalidFormat("SYSTEM.CNF not found".to_owned())),
    }
}

// ---------------------------------------------------------------- volume label

/// The label in the text of the label field: without the spaces at its end, then without the
/// null characters at its end; nothing where that leaves nothing.
pub open spec fn label_in_text(text: Seq<char>) -> Option<Seq<char>> {
    let label = trim_end_char(trim_end_char(text, ' '), '\0');
    if label.len() == 0 {
        None
    } else {
        Some(label)
    }
}

/// The label in the text of the label field.
pub fn trim_label(text: &str) -> (label: Option<String>)
    ensures
        optional_text(label) == label_in_text(text@),
{
    let chars = to_chars(text);
    let label = trim_end_matches(trim_end_matches(chars.as_slice(), ' '), '\0');
    if label.len() == 0 {
        None
    } else {
        Some(from_chars(label))
    }
}

/// The volume label of an image, from the bytes of the label field.
pub fn extract_volume_label(field: &[u8]) -> (label: Option<String>)
    ensures
        optional_text(label) == label_in_text(decoded(field@)),
{
    trim_label(decode_lossy(field).as_str())
}

// ---------------------------------------------------------------- validation

/// The type and name of an ISO 9660 primary volume descriptor: `0x01` and `CD001`.
pub open spec fn iso9660_mark() -> Seq<u8> {
    seq![0x01u8, 0x43u8, 0x44u8, 0x30u8, 0x30u8, 0x31u8]
}

/// The mark that begins a UDF volume recognition sequence: `BEA01`.
pub open spec fn udf_mark() -> Seq<u8> {
    seq![0x42u8, 0x45u8, 0x41u8, 0x30u8, 0x31u8]
}

/// Whether these bytes begin a primary volume descriptor.
pub fn is_iso9660(mark: &[u8]) -> (b: bool)
    ensures
        b == (mark@ == iso9660_mark()),
{
    let expected: [u8; 6] = [0x01, 0x43, 0x44, 0x30, 0x30, 0x31];
    assert(expected@ =~= iso9660_mark());
    same_bytes(mark, expected.as_slice())
}

/// Whether these bytes begin a UDF volume recognition sequence.
pub fn is_udf(mark: &[u8]) -> (b: bool)
    ensures
        b == (mark@ == udf_mark()),
{
    let expected: [u8; 5] = [0x42, 0x45, 0x41, 0x30, 0x31];
    assert(expected@ =~= udf_mark());
    same_bytes(mark, expected.as_slice())
}

/// What is known of a file that is no image.
pub open spec fn invalid_info(size: u64, error: Seq<char>) -> IsoInfoView {
    IsoInfoView { valid: false, size, format: None, error: Some(error), game_id: None, title: None }
}

/// What is known of an image in the format `format`: the id in its head, where there is one,
/// and, in the format ISO 9660, its label.
pub open spec fn valid_info(image: IsoImage, format: Seq<char>) -> IsoInfoView {
    IsoInfoView {
        valid: true,
        size: image.size,
        format: Some(format),
        error: None,
        game_id: match image.head {
            Some(head) => first_game_id(lines(decoded(head@))),
            None => None,
        },
        title: match image.label {
            Some(label) => if format == "ISO9660"@ {
                label_in_text(decoded(label@))
            } else {
                None
            },
            None => None,
        },
    }
}

/// The result of validating an image.
pub open spec fn image_validation(image: IsoImage) -> Result<IsoInfoView, IsoErrorView> {
    if image.size < MIN_IMAGE_SIZE {
        Ok(invalid_info(image.size, "File too small to be a valid ISO"@))
    } else {
        match image.descriptor {
            Err(e) => Err(IsoErrorView::Io(e@)),
            Ok(mark) => if mark@ == iso9660_mark() {
                Ok(valid_info(image, "ISO9660"@))
            } else {
                match image.udf {
                    Err(e) => Err(IsoErrorView::Io(e@)),
                    Ok(Some(mark)) => if mark@ == udf_mark() {
                        Ok(valid_info(image, "UDF"@))
                    } else {
                        Ok(invalid_info(image.size, "Not a valid ISO9660/UDF image"@))
                    },
                    Ok(None) => Ok(invalid_info(image.size, "Not a valid ISO9660/UDF image"@)),
                }
            },
        }
    }
}

/// The result of validating the file at `path`.
pub open spec fn validation(path: Seq<char>, probe: IsoProbe) -> Result<
    IsoInfoView,
    IsoErrorView,
> {
    match probe {
        IsoProbe::Missing => Err(IsoErrorView::NotFound(path)),
        IsoProbe::Failed(e) => Err(IsoErrorView::Io(e@)),
        IsoProbe::Found(image) => image_validation(image),
    }
}

/// What is known of a file that is no image.
fn refuse(size: u64, error: &str) -> (info: IsoInfo)
    ensures
        info@ == invalid_info(size, error@),
{
    IsoInfo {
        valid: false,
        size,
        format: None,
        error: Some(error.to_owned()),
        game_id: None,
        title: None,
    }
}

/// What is known of an image in the format `format`.
fn accept(image: &IsoImage, iso9660: bool) -> (info: IsoInfo)
    ensures
        info@ == valid_info(
            *image,
            if iso9660 {
                "ISO9660"@
            } else {
                "UDF"@
            },
        ),
{
    proof {
        reveal_strlit("ISO9660");
        reveal_strlit("UDF");
        assert("ISO9660"@.len() != "UDF"@.len());
    }
    let game_id = match &image.head {
        Some(head) => match extract_game_id(head.as_slice()) {
            Ok(id) => Some(id),
            Err(_) => None,
        },
        None => None,
    };
    let title = match &image.label {
        Some(label) => if iso9660 {
            extract_volume_label(label.as_slice())
        } else {
            None
        },
        None => None,
    };
    let format = if iso9660 {
        "ISO9660".to_owned()
    } else {
        "UDF".to_owned()
    };
    IsoInfo { valid: true, size: image.size, format: Some(format), error: None, game_id, title }
}

/// Validates an image file: it has to be there, to be large enough, and to carry the mark of
/// ISO 9660 or else of UDF. The game id and the title are optional.
pub fn validate_iso(path: &str, probe: &IsoProbe) -> (r: Result<IsoInfo, IsoError>)
    ensures
        match r {
            Ok(info) => validation(path@, *probe) == Ok::<IsoInfoView, IsoErrorView>(info@),
            Err(e) => validation(path@, *probe) == Err::<IsoInfoView, IsoErrorView>(e@),
        },
{
    let image = match probe {
        IsoProbe::Missing => {
            return Err(IsoError::NotFound(path.to_owned()));
        },
        IsoProbe::Failed(e) => {
            return Err(IsoError::Io(e.clone()));
        },
        IsoProbe::Found(image) => image,
    };
    if image.size < MIN_IMAGE_SIZE {
        return Ok(refuse(image.size, "File too small to be a valid ISO"));
    }
    match &image.descriptor {
        Err(e) => {
            return Err(IsoError::Io(e.clone()));
        },
        Ok(mark) => {
            if is_iso9660(mark.as_slice()) {
                return Ok(accept(image, true));
            }
        },
    }
    match &image.udf {
        Err(e) => {
            return Err(IsoError::Io(e.clone()));
        },
        Ok(Some(mark)) => {
            if is_udf(mark.as_slice()) {
                return Ok(accept(image, false));
            }
        },
        Ok(None) => {},
    }
    Ok(refuse(image.size, "Not a valid ISO9660/UDF image"))
}

// ---------------------------------------------------------------- media type

/// The media type of an image of this size with these bytes in sector 256: a DVD where they are
/// the UDF mark or the size is beyond a CD. A file that cannot be opened has no size.
pub open spec fn media_type(size: Option<u64>, udf: Option<Seq<u8>>) -> u8 {
    match size {
        None => MEDIA_CD,
        Some(n) => if (n >= UDF_OFFSET + 5 && udf == Some(udf_mark())) || n > CD_MAX_BYTES {
            MEDIA_DVD
        } else {
            MEDIA_CD
        },
    }
}

/// Whether an image is of a CD or a DVD.
pub fn detect_media_type(size: Option<u64>, udf: Option<&[u8]>) -> (media: u8)
    ensures
        media == media_type(
            size,
            match udf {
                Some(mark) => Some(mark@),
                None => None,
            },
        ),
{
    match size {
        None => MEDIA_CD,
        Some(n) => {
            if n >= UDF_OFFSET + 5 {
                match udf {
                    Some(mark) => {
                        if is_udf(mark) {
                            return MEDIA_DVD;
                        }
                    },
                    None => {},
                }
            }
            if n > CD_MAX_BYTES {
                MEDIA_DVD
            } else {
                MEDIA_CD
            }
        },
    }
}

// ---------------------------------------------------------------- laws

/// A file that is there is found valid exactly when it has a format, and then has no error.
pub proof fn law_valid_has_format(image: IsoImage)
    ensures
        image_validation(image) matches Ok(info) ==> {
            &&& info.size == image.size
            &&& info.valid == info.format is Some
            &&& info.valid == info.error is None
            &&& !info.valid ==> info.game_id is None && info.title is None
            &&& info.title is Some ==> info.format == Some("ISO9660"@)
        },
{
}

/// The boot path of the first line that has one.
pub open spec fn first_boot_path(ls: Seq<Seq<char>>) -> Option<Seq<char>>
    decreases ls.len(),
{
    if ls.len() == 0 {
        None
    } else {
        match boot_path(ls[0]) {
            Some(path) => Some(path),
            None => first_boot_path(ls.drop_first()),
        }
    }
}

/// The id for display is the startup id without its dots, where the first boot path is not empty
/// and has no white space around it.
pub proof fn law_display_id(ls: Seq<Seq<char>>)
    requires
        first_boot_path(ls) matches Some(path) ==> trimmed(path) == path && path.len() > 0,
    ensures
        first_game_id(ls) == (match first_startup(ls) {
            Some(id) => Some(without_char(id, '.')),
            None => None,
        }),
    decreases ls.len(),
{
    if ls.len() > 0 && boot_path(ls[0]) is None {
        law_display_id(ls.drop_first());
    }
}

/// Whether a line names a path: it has a backslash, and the path stands between the first one and
/// the next semicolon.
pub open spec fn has_path(line: Seq<char>, a: Seq<char>, path: Seq<char>, b: Seq<char>) -> bool {
    &&& line == a + seq!['\\'] + path + seq![';'] + b
    &&& !a.contains('\\')
    &&& !path.contains(';')
}

/// What has no white space in it is contained in a text exactly where it is in the trimmed text.
proof fn lemma_contains_in_trimmed(line: Seq<char>, p: Seq<char>)
    requires
        p.len() > 0,
        forall|i: int| 0 <= i < p.len() ==> !is_white_space(#[trigger] p[i]),
    ensures
        contains_text(line, p) <==> contains_text(trimmed(line), p),
{
    let (x, y) = law_trimming_leaves_white_space(line);
    let t = trimmed(line);
    if contains_text(line, p) {
        let i = choose|i: int| occurs_at(line, p, i);
        let here = line.subrange(i, i + p.len());
        assert(here[0] == line[i] && p[0] == line[i]);
        assert(here[p.len() - 1] == line[i + p.len() - 1] && p[p.len() - 1] == line[i + p.len()
            - 1]);
        if i < x.len() {
            assert(line[i] == x[i]);
        }
        let e = i + p.len() - 1;
        if e >= x.len() + t.len() {
            assert(line[e] == y[e - x.len() - t.len()]);
        }
        assert(t.subrange(i - x.len(), i - x.len() + p.len()) =~= p) by {
            assert forall|k: int| 0 <= k < p.len() implies t[i - x.len() + k] == p[k] by {
                assert(here[k] == line[i + k]);
                assert(line[i + k] == t[i + k - x.len()]);
            }
        }
        assert(occurs_at(t, p, i - x.len()));
    }
    if contains_text(t, p) {
        let i = choose|i: int| occurs_at(t, p, i);
        let here = t.subrange(i, i + p.len());
        assert(line.subrange(x.len() + i, x.len() + i + p.len()) =~= p) by {
            assert forall|k: int| 0 <= k < p.len() implies line[x.len() + i + k] == p[k] by {
                assert(here[k] == t[i + k]);
                assert(line[x.len() + i + k] == t[i + k]);
            }
        }
        assert(occurs_at(line, p, x.len() + i));
    }
}

/// A line that names `BOOT2` and `cdrom0:` anywhere, and has a path, boots from that path.
pub proof fn law_boot_line(line: Seq<char>, a: Seq<char>, path: Seq<char>, b: Seq<char>)
    requires
        contains_text(line, "BOOT2"@),
        contains_text(line, "cdrom0:"@),
        has_path(line, a, path, b),
    ensures
        boot_path(line) == Some(path),
{
    reveal_strlit("BOOT2");
    reveal_strlit("cdrom0:");
    lemma_contains_in_trimmed(line, "BOOT2"@);
    lemma_contains_in_trimmed(line, "cdrom0:"@);
    let (x, y) = law_trimming_leaves_white_space(line);
    let t = trimmed(line);
    let q = a.len() + 1 + path.len();
    assert(line[a.len() as int] == '\\');
    assert(line[q as int] == ';');
    if x.len() > a.len() {
        assert(x[a.len() as int] == line[a.len() as int]);
    }
    if q >= x.len() + t.len() {
        assert(y[q - x.len() - t.len()] == line[q as int]);
    }
    let slash = a.len() - x.len();
    assert(t[slash] == line[a.len() as int]);
    assert forall|i: int| 0 <= i < slash implies t[i] != '\\' by {
        assert(t[i] == line[x.len() + i]);
        assert(line[x.len() + i] == a[x.len() + i]);
        assert(a.contains(a[x.len() + i]));
    }
    lemma_first_of_unique(t, '\\', slash);
    let after = t.skip(slash + 1);
    assert forall|i: int| 0 <= i < path.len() implies after[i] == path[i] && path[i] != ';' by {
        assert(after[i] == t[slash + 1 + i]);
        assert(t[slash + 1 + i] == line[a.len() + 1 + i]);
        assert(path.contains(path[i]));
    }
    assert(after[path.len() as int] == line[q as int]);
    lemma_first_of_unique(after, ';', path.len() as int);
    assert(after.take(path.len() as int) =~= path);
}

/// A line boots from a path only where it names `BOOT2` and `cdrom0:` and has that path.
pub proof fn law_only_boot_lines(line: Seq<char>) -> (around: (Seq<char>, Seq<char>))
    ensures
        boot_path(line) is Some ==> contains_text(line, "BOOT2"@) && contains_text(
            line,
            "cdrom0:"@,
        ) && has_path(line, around.0, boot_path(line)->0, around.1),
{
    reveal_strlit("BOOT2");
    reveal_strlit("cdrom0:");
    let (x, y) = law_trimming_leaves_white_space(line);
    let t = trimmed(line);
    let slash = first_of(t, '\\');
    let after = t.skip(slash + 1);
    let end = first_of(after, ';');
    let a = x + t.take(slash);
    let b = after.skip(end + 1) + y;
    if boot_path(line) is Some {
        let path = boot_path(line)->0;
        lemma_contains_in_trimmed(line, "BOOT2"@);
        lemma_contains_in_trimmed(line, "cdrom0:"@);
        lemma_first_of(t, '\\');
        lemma_first_of(after, ';');
        assert(t =~= t.take(slash) + seq!['\\'] + after);
        assert(after =~= path + seq![';'] + after.skip(end + 1));
        assert(line =~= a + seq!['\\'] + path + seq![';'] + b);
        assert(!a.contains('\\')) by {
            if a.contains('\\') {
                let i = choose|i: int| 0 <= i < a.len() && a[i] == '\\';
                if i < x.len() {
                    assert(a[i] == x[i]);
                } else {
                    assert(a[i] == t[i - x.len()]);
                }
            }
        }
        assert(!path.contains(';')) by {
            if path.contains(';') {
                let i = choose|i: int| 0 <= i < path.len() && path[i] == ';';
                assert(path[i] == after[i]);
            }
        }
    }
    (a, b)
}

/// The lines of whole lines and a text after them.
proof fn lemma_lines_of_parts(before: Seq<char>, rest: Seq<char>)
    requires
        before.len() > 0 ==> before.last() == '\n',
    ensures
        lines(before + rest) == lines(before) + lines(rest),
    decreases before.len(),
{
    if before.len() == 0 {
        assert(before + rest =~= rest);
        assert(lines(before) + lines(rest) =~= lines(rest));
    } else {
        let k = first_of(before, '\n');
        lemma_first_of(before, '\n');
        assert(k < before.len()) by {
            if k == before.len() {
                assert(before[before.len() - 1] != '\n');
            }
        }
        let line = before.take(k);
        let more = before.skip(k + 1);
        assert(!line.contains('\n')) by {
            if line.contains('\n') {
                let i = choose|i: int| 0 <= i < line.len() && line[i] == '\n';
                assert(before[i] == '\n');
            }
        }
        assert(before =~= line + seq!['\n'] + more);
        assert(before + rest =~= line + seq!['\n'] + (more + rest));
        law_lines(line, more);
        law_lines(line, more + rest);
        if more.len() > 0 {
            assert(more.last() == before.last());
        }
        lemma_lines_of_parts(more, rest);
        assert(lines(before + rest) =~= lines(before) + lines(rest));
    }
}

/// What a line contains, its text contains.
proof fn lemma_line_in_text(s: Seq<char>, p: Seq<char>, k: int)
    requires
        0 <= k < lines(s).len(),
        contains_text(lines(s)[k], p),
    ensures
        contains_text(s, p),
    decreases s.len(),
{
    let n = first_of(s, '\n');
    lemma_first_of(s, '\n');
    let line = lines(s)[k];
    if s.len() > 0 && n < s.len() {
        if k == 0 {
            let i = choose|i: int| occurs_at(line, p, i);
            assert(s.subrange(i, i + p.len()) =~= line.subrange(i, i + p.len()));
            assert(occurs_at(s, p, i));
        } else {
            let more = s.skip(n + 1);
            assert(lines(more)[k - 1] == line);
            lemma_line_in_text(more, p, k - 1);
            let i = choose|i: int| occurs_at(more, p, i);
            assert(s.subrange(n + 1 + i, n + 1 + i + p.len()) =~= more.subrange(i, i + p.len()));
            assert(occurs_at(s, p, n + 1 + i));
        }
    }
}

/// Lines without a boot path are passed over.
proof fn lemma_passed_over(before: Seq<Seq<char>>, rest: Seq<Seq<char>>)
    requires
        forall|i: int| 0 <= i < before.len() ==> boot_path(#[trigger] before[i]) is None,
    ensures
        first_startup(before + rest) == first_startup(rest),
        first_game_id(before + rest) == first_game_id(rest),
    decreases before.len(),
{
    if before.len() == 0 {
        assert(before + rest =~= rest);
    } else {
        let more = before.drop_first();
        assert((before + rest)[0] == before[0]);
        assert((before + rest).drop_first() =~= more + rest);
        assert forall|i: int| 0 <= i < more.len() implies boot_path(#[trigger] more[i]) is None by {
            assert(more[i] == before[i + 1]);
        }
        lemma_passed_over(more, rest);
    }
}

/// A text names the startup id that stands between the first backslash and the next semicolon of
/// its first line that names `BOOT2` and `cdrom0:`, wherever in the line these stand: `before`
/// are the lines before that one, and `rest` is what follows it. The id for display is the same
/// without its dots.
pub proof fn law_startup_is_found(
    before: Seq<char>,
    line: Seq<char>,
    rest: Seq<char>,
    a: Seq<char>,
    id: Seq<char>,
    b: Seq<char>,
)
    requires
        before.len() > 0 ==> before.last() == '\n',
        !contains_text(before, "BOOT2"@) || !contains_text(before, "cdrom0:"@),
        !line.contains('\n'),
        rest.len() > 0 ==> rest[0] == '\n',
        contains_text(line, "BOOT2"@),
        contains_text(line, "cdrom0:"@),
        has_path(line, a, id, b),
        id.len() > 0,
        !is_white_space(id[0]),
        !is_white_space(id.last()),
    ensures
        first_startup(lines(before + line + rest)) == Some(id),
        first_game_id(lines(before + line + rest)) == Some(without_char(id, '.')),
{
    let text = before + line + rest;
    let early = lines(before);
    assert forall|i: int| 0 <= i < early.len() implies boot_path(#[trigger] early[i]) is None by {
        let around = law_only_boot_lines(early[i]);
        if boot_path(early[i]) is Some {
            lemma_line_in_text(before, "BOOT2"@, i);
            lemma_line_in_text(before, "cdrom0:"@, i);
        }
    }
    assert(text =~= before + (line + rest));
    lemma_lines_of_parts(before, line + rest);
    lemma_passed_over(early, lines(line + rest));
    let none = Seq::<char>::empty();
    assert(none + id + none =~= id);
    law_trimmed(none, id, none);
    assert(line.len() > 0);
    if rest.len() == 0 {
        assert(line + rest =~= line);
        law_lines(line, none);
        law_boot_line(line, a, id, b);
    } else {
        let more = rest.drop_first();
        assert(line + rest =~= line + seq!['\n'] + more);
        law_lines(line, more);
        if line.last() == '\r' {
            let cut = line.drop_last();
            reveal_strlit("BOOT2");
            reveal_strlit("cdrom0:");
            assert(b.len() > 0) by {
                if b.len() == 0 {
                    assert(line.last() == ';');
                }
            }
            assert(b.last() == '\r');
            assert(cut =~= a + seq!['\\'] + id + seq![';'] + b.drop_last());
            lemma_contains_without_last(line, "BOOT2"@);
            lemma_contains_without_last(line, "cdrom0:"@);
            law_boot_line(cut, a, id, b.drop_last());
            assert(lines(line + rest)[0] == cut);
        } else {
            law_boot_line(line, a, id, b);
            assert(lines(line + rest)[0] == line);
        }
    }
}

/// What does not end in the last character of a text is contained in it without that character.
proof fn lemma_contains_without_last(s: Seq<char>, p: Seq<char>)
    requires
        contains_text(s, p),
        s.len() > 0,
        p.len() > 0,
        p.last() != s.last(),
    ensures
        contains_text(s.drop_last(), p),
{
    let i = choose|i: int| occurs_at(s, p, i);
    assert(s.subrange(i, i + p.len())[p.len() - 1] == s[i + p.len() - 1]);
    assert(s.drop_last().subrange(i, i + p.len()) =~= s.subrange(i, i + p.len()));
    assert(occurs_at(s.drop_last(), p, i));
}

/// A line of `SYSTEM.CNF` names its startup id whatever stands before it in the line, such as the
/// padding of the sector before.
pub proof fn law_startup_line(a: Seq<char>, id: Seq<char>, b: Seq<char>, rest: Seq<char>)
    requires
        !a.contains('\n'),
        !a.contains('\\'),
        !b.contains('\n'),
        rest.len() > 0 ==> rest[0] == '\n',
        id.len() > 0,
        !is_white_space(id[0]),
        !is_white_space(id.last()),
        !id.contains(';'),
        !id.contains('\n'),
    ensures
        first_startup(lines(a + "BOOT2 = cdrom0:\\"@ + id + ";1"@ + b + rest)) == Some(id),
        first_game_id(lines(a + "BOOT2 = cdrom0:\\"@ + id + ";1"@ + b + rest)) == Some(
            without_char(id, '.'),
        ),
{
    reveal_strlit("BOOT2 = cdrom0:\\");
    reveal_strlit("BOOT2 = cdrom0:");
    reveal_strlit("BOOT2");
    reveal_strlit("cdrom0:");
    reveal_strlit(" = cdrom0:");
    reveal_strlit(";1");
    let key = "BOOT2 = cdrom0:"@;
    let none = Seq::<char>::empty();
    let tail = seq!['1'] + b;
    let line = a + key + seq!['\\'] + id + seq![';'] + tail;
    assert("BOOT2 = cdrom0:\\"@ =~= key + seq!['\\']);
    assert(";1"@ =~= seq![';', '1']);
    assert(a + "BOOT2 = cdrom0:\\"@ + id + ";1"@ + b + rest =~= none + line + rest);
    assert(!(a + key).contains('\\')) by {
        if (a + key).contains('\\') {
            let i = choose|i: int| 0 <= i < (a + key).len() && (a + key)[i] == '\\';
            if i < a.len() {
                assert(a[i] == '\\');
            } else {
                assert(key[i - a.len()] == '\\');
            }
        }
    }
    assert(!line.contains('\n')) by {
        if line.contains('\n') {
            let i = choose|i: int| 0 <= i < line.len() && line[i] == '\n';
            let k = i - a.len();
            if i < a.len() {
                assert(a[i] == '\n');
            } else if k < key.len() {
                assert(key[k] == '\n');
            } else if key.len() < k < key.len() + 1 + id.len() {
                assert(id[k - key.len() - 1] == '\n');
            } else if k >= key.len() + 3 + id.len() {
                assert(b[k - key.len() - 3 - id.len()] == '\n');
            }
        }
    }
    let after = seq!['\\'] + id + seq![';'] + tail;
    assert(line =~= a + "BOOT2"@ + (" = cdrom0:"@ + after));
    law_contains_text(line, "BOOT2"@, a, " = cdrom0:"@ + after);
    assert(line =~= (a + key.take(8)) + "cdrom0:"@ + after) by {
        assert(key =~= key.take(8) + "cdrom0:"@);
    }
    law_contains_text(line, "cdrom0:"@, a + key.take(8), after);
    assert(line =~= (a + key) + seq!['\\'] + id + seq![';'] + tail);
    assert(!contains_text(none, "BOOT2"@)) by {
        if contains_text(none, "BOOT2"@) {
            let i = choose|i: int| occurs_at(none, "BOOT2"@, i);
            assert(false);
        }
    }
    law_startup_is_found(none, line, rest, a + key, id, tail);
}

/// No startup id comes from anywhere but a line that names `BOOT2` and `cdrom0:`, and there from
/// between a backslash and a semicolon.
pub proof fn law_startup_stands_in_a_boot_line(ls: Seq<Seq<char>>)
    ensures
        first_startup(ls) matches Some(id) ==> exists|i: int|
            0 <= i < ls.len() && #[trigger] contains_text(ls[i], "BOOT2"@) && contains_text(
                ls[i],
                "cdrom0:"@,
            ) && exists|a: Seq<char>, path: Seq<char>, b: Seq<char>| #[trigger]
                has_path(ls[i], a, path, b) && trimmed(path) == id,
    decreases ls.len(),
{
    if ls.len() > 0 {
        let rest = ls.drop_first();
        law_startup_stands_in_a_boot_line(rest);
        let around = law_only_boot_lines(ls[0]);
        if boot_path(ls[0]) is Some && trimmed(boot_path(ls[0])->0).len() > 0 {
            assert(has_path(ls[0], around.0, boot_path(ls[0])->0, around.1));
            assert(contains_text(ls[0], "BOOT2"@));
        } else if first_startup(rest) is Some {
            let i = choose|i: int|
                0 <= i < rest.len() && #[trigger] contains_text(rest[i], "BOOT2"@)
                    && contains_text(rest[i], "cdrom0:"@) && exists|
                    a: Seq<char>,
                    path: Seq<char>,
                    b: Seq<char>,
                | #[trigger]
                    has_path(rest[i], a, path, b) && trimmed(path) == first_startup(rest)->0;
            assert(ls[i + 1] == rest[i]);
            assert(contains_text(ls[i + 1], "BOOT2"@));
        }
    }
}

/// The label is the text before the padding: spaces at the end, and null characters before them.
pub proof fn law_label(label: Seq<char>, nulls: Seq<char>, spaces: Seq<char>)
    requires
        forall|i: int| 0 <= i < nulls.len() ==> #[trigger] nulls[i] == '\0',
        forall|i: int| 0 <= i < spaces.len() ==> #[trigger] spaces[i] == ' ',
        label.len() > 0 ==> label.last() != '\0' && (label.last() != ' ' || nulls.len() > 0),
    ensures
        label_in_text(label + nulls + spaces) == (if label.len() > 0 {
            Some(label)
        } else {
            None
        }),
{
    let padded = label + nulls;
    if padded.len() > 0 {
        if nulls.len() > 0 {
            assert(padded.last() == nulls[nulls.len() - 1]);
        } else {
            assert(padded.last() == label.last());
        }
    }
    law_trim_end_char(padded, spaces, ' ');
    law_trim_end_char(label, nulls, '\0');
}

/// An image is of a DVD where it has the mark `BEA01` at sector 256, or is larger than 700 MiB;
/// otherwise of a CD.
pub proof fn law_media_type(size: u64, udf: Option<Seq<u8>>)
    ensures
        media_type(Some(size), udf) == 0x14 <==> size > 734_003_200 || (size >= 0x80005 && udf
            == Some(seq![0x42u8, 0x45u8, 0x41u8, 0x30u8, 0x31u8])),
        media_type(Some(size), udf) == 0x14 || media_type(Some(size), udf) == 0x12,
        media_type(None, udf) == 0x12,
{
}

/// An image is valid where it has room for the volume descriptor and carries the mark of ISO 9660
/// or of UDF; it then tells the game id in its head, and of ISO 9660 the label.
pub proof fn law_valid_image(image: IsoImage)
    requires
        image.descriptor is Ok,
        image.udf is Ok,
    ensures
        ({
            let iso = image.descriptor->Ok_0@ == seq![
                0x01u8,
                0x43u8,
                0x44u8,
                0x30u8,
                0x30u8,
                0x31u8,
            ];
            let udf = image.udf->Ok_0 is Some && (image.udf->Ok_0)->0@ == seq![
                0x42u8,
                0x45u8,
                0x41u8,
                0x30u8,
                0x31u8,
            ];
            &&& image_validation(image) is Ok
            &&& image_validation(image)->Ok_0.valid == (image.size >= 0x8800 && (iso || udf))
            &&& image_validation(image)->Ok_0.size == image.size
            &&& image.size >= 0x8800 && iso ==> image_validation(image)->Ok_0.format == Some(
                "ISO9660"@,
            )
            &&& image.size >= 0x8800 && !iso && udf ==> image_validation(image)->Ok_0.format
                == Some("UDF"@)
            &&& image_validation(image)->Ok_0.valid && image.head is Some ==> image_validation(
                image,
            )->Ok_0.game_id == first_game_id(lines(decoded(image.head->0@)))
            &&& image.size >= 0x8800 && iso && image.label is Some ==> image_validation(
                image,
            )->Ok_0.title == label_in_text(decoded(image.label->0@))
        }),
{
}

/// A text that does not name both `BOOT2` and `cdrom0:` names no startup id.
pub proof fn law_no_startup(text: Seq<char>)
    requires
        !contains_text(text, "BOOT2"@) || !contains_text(text, "cdrom0:"@),
    ensures
        first_startup(lines(text)) is None,
        first_game_id(lines(text)) is None,
{
    let all = lines(text);
    assert forall|i: int| 0 <= i < all.len() implies boot_path(#[trigger] all[i]) is None by {
        let around = law_only_boot_lines(all[i]);
        if boot_path(all[i]) is Some {
            lemma_line_in_text(text, "BOOT2"@, i);
            lemma_line_in_text(text, "cdrom0:"@, i);
        }
    }
    let none = Seq::<Seq<char>>::empty();
    lemma_passed_over(all, none);
    assert(all + none =~= all);
}

/// The lines of a text are looked at one after the other: one that names `BOOT2` and `cdrom0:` and
/// has a path gives it, the startup id without the white space around it; one whose path is blank
/// gives no startup id, and one without a path gives nothing.
pub proof fn law_startup_line_by_line(
    line: Seq<char>,
    rest: Seq<Seq<char>>,
    a: Seq<char>,
    path: Seq<char>,
    b: Seq<char>,
)
    ensures
        contains_text(line, "BOOT2"@) && contains_text(line, "cdrom0:"@) && has_path(
            line,
            a,
            path,
            b,
        ) ==> {
            &&& is_blank(path) ==> first_startup(seq![line] + rest) == first_startup(rest)
            &&& !is_blank(path) ==> first_startup(seq![line] + rest) == Some(trimmed(path))
            &&& first_game_id(seq![line] + rest) == Some(without_char(path, '.'))
        },
        !contains_text(line, "BOOT2"@) || !contains_text(line, "cdrom0:"@) || !line.contains('\\')
            || !line.contains(';') ==> first_startup(seq![line] + rest) == first_startup(rest)
            && first_game_id(seq![line] + rest) == first_game_id(rest),
        first_startup(Seq::empty()) is None,
        first_game_id(Seq::empty()) is None,
{
    let all = seq![line] + rest;
    assert(all[0] == line);
    assert(all.drop_first() =~= rest);
    if contains_text(line, "BOOT2"@) && contains_text(line, "cdrom0:"@) && has_path(
        line,
        a,
        path,
        b,
    ) {
        law_boot_line(line, a, path, b);
        let (x, y) = law_trimming_leaves_white_space(path);
        if is_blank(path) {
            let none = Seq::<char>::empty();
            assert(path + none + none =~= path);
            law_trimmed(path, none, none);
        } else if trimmed(path).len() == 0 {
            assert forall|i: int| 0 <= i < path.len() implies is_white_space(
                #[trigger] path[i],
            ) by {
                if i < x.len() {
                    assert(path[i] == x[i]);
                } else {
                    assert(path[i] == y[i - x.len()]);
                }
            }
        }
    }
    let around = law_only_boot_lines(line);
    if boot_path(line) is Some {
        let found = boot_path(line)->0;
        assert(line[around.0.len() as int] == '\\');
        assert(line[(around.0.len() + 1 + found.len()) as int] == ';');
    }
}

/// A file that is no image is told with its size and why it is none; one that is has no error.
pub proof fn law_refused_image(image: IsoImage)
    ensures
        image.size < 0x8800 ==> (image_validation(image) matches Ok(info) && !info.valid
            && info.size == image.size && info.error == Some("File too small to be a valid ISO"@)
            && info.format is None && info.game_id is None && info.title is None),
        image.size >= 0x8800 && image.descriptor is Ok && image.udf is Ok ==> (image_validation(
            image,
        ) matches Ok(info) && (info.valid ==> info.error is None) && (!info.valid ==> info.error
            == Some("Not a valid ISO9660/UDF image"@) && info.format is None && info.game_id is None
            && info.title is None)),
        image.size >= 0x8800 && image.descriptor is Err ==> image_validation(image) == Err::<
            IsoInfoView,
            IsoErrorView,
        >(IsoErrorView::Io(image.descriptor->Err_0@)),
        image.size >= 0x8800 && image.descriptor is Ok && image.descriptor->Ok_0@ != seq![
            0x01u8,
            0x43u8,
            0x44u8,
            0x30u8,
            0x30u8,
            0x31u8,
        ] && image.udf is Err ==> image_validation(image) == Err::<IsoInfoView, IsoErrorView>(
            IsoErrorView::Io(image.udf->Err_0@),
        ),
{
}

/// A UDF image has no label to be called by, and an image whose head cannot be read no game id.
pub proof fn law_missing_parts(image: IsoImage)
    ensures
        image_validation(image) matches Ok(info) ==> {
            &&& info.format == Some("UDF"@) ==> info.title is None
            &&& image.label is None ==> info.title is None
            &&& image.head is None ==> info.game_id is None
        },
{
    reveal_strlit("UDF");
    reveal_strlit("ISO9660");
    assert("UDF"@.len() != "ISO9660"@.len());
}

/// A file that is not there is not found, and one that cannot be opened is an error.
pub proof fn law_validation(path: Seq<char>, e: String, image: IsoImage)
    ensures
        validation(path, IsoProbe::Missing) == Err::<IsoInfoView, IsoErrorView>(
            IsoErrorView::NotFound(path),
        ),
        validation(path, IsoProbe::Failed(e)) == Err::<IsoInfoView, IsoErrorView>(
            IsoErrorView::Io(e@),
        ),
        validation(path, IsoProbe::Found(image)) == image_validation(image),
{
}

/// Where the parts of an image are, by its sectors of 2048 bytes: the descriptor at sector 16, the
/// label 40 bytes into it, the UDF mark at sector 256; and `SYSTEM.CNF` is looked for in the first
/// 2048 sectors.
pub proof fn law_places()
    ensures
        DESCRIPTOR_OFFSET == 16 * 2048,
        MIN_IMAGE_SIZE == DESCRIPTOR_OFFSET + 2048,
        LABEL_OFFSET == DESCRIPTOR_OFFSET + 40,
        LABEL_OFFSET + LABEL_SIZE <= MIN_IMAGE_SIZE,
        UDF_OFFSET == 256 * 2048,
        SEARCH_SIZE == 2048 * 2048,
{
}

/// The model of a [`IsoInfo`] has all that it holds.
pub proof fn law_model_of_iso_info(info: IsoInfo)
    ensures
        info@.valid == info.valid,
        info@.size == info.size,
        info@.format == optional_text(info.format),
        info@.error == optional_text(info.error),
        info@.game_id == optional_text(info.game_id),
        info@.title == optional_text(info.title),
{
}

} // verus!
