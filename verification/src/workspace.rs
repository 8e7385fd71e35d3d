//! Workspace bookkeeping: per-image metadata, the workspace that collects
//! it, and the top-level model. Reading image headers, file dialogs and
//! workspace persistence live in the surrounding application, which hands
//! plain values in and out.

use vstd::prelude::*;
use vstd::string::{StringExecFns, StringSliceAdditionalSpecFns};
use vstd::utf8::{encode_utf8, is_char_boundary};

verus! {

/// What an image header reports: pixel dimensions and channel count.
pub struct TiffInfo {
    /// (width, height) in pixels.
    pub dimensions: (usize, usize),
    /// Number of channels (panels or samples per pixel).
    pub n_channels: usize,
}

/// Conversion state of one source image.
#[derive(Clone, Copy, PartialEq, Eq, Structural)]
pub enum ConvertStatus {
    /// Not converted yet.
    Unconverted,
    /// Conversion running.
    Converting,
    /// Conversion finished.
    Converted,
}

impl ConvertStatus {
    /// The display label of the status.
    pub fn to_str(&self) -> (r: &'static str)
        ensures
            *self is Unconverted ==> r@ == "Unconverted"@,
            *self is Converting ==> r@ == "Converting"@,
            *self is Converted ==> r@ == "Concerted"@,
    {
        match self {
            Self::Unconverted => "Unconverted",
            Self::Converting => "Converting",
            Self::Converted => "Concerted",
        }
    }
}

/// Relies on `str::eq` (the `PartialEq` impl for `str`): two string slices
/// compare equal exactly when they hold the same characters.
#[verifier::external_body]
fn str_eq(a: &str, b: &str) -> (r: bool)
    ensures
        r == (a@ == b@),
{
    a == b
}

/// The path with trailing separators and trailing `.` components removed,
/// the components the platform path API ignores when naming the file.
pub open spec fn trim_path(b: Seq<u8>) -> Seq<u8>
    decreases b.len(),
{
    if b.len() == 0 {
        b
    } else if b.last() == 47u8 {
        trim_path(b.drop_last())
    } else if b.last() == 46u8 && (b.len() == 1 || b[b.len() - 2] == 47u8) {
        trim_path(b.drop_last())
    } else {
        b
    }
}

/// Start of the file name: the index just past the last path separator.
pub open spec fn stem_start(b: Seq<u8>) -> int
    decreases b.len(),
{
    if b.len() == 0 {
        0
    } else if b.last() == 47u8 {
        b.len() as int
    } else {
        stem_start(b.drop_last())
    }
}

/// Index of the last dot strictly past `start`, or -1 when there is none.
pub open spec fn last_dot(b: Seq<u8>, start: int) -> int
    decreases b.len(),
{
    if b.len() == 0 || b.len() <= start {
        -1
    } else if b.last() == 46u8 && b.len() - 1 > start {
        b.len() - 1
    } else {
        last_dot(b.drop_last(), start)
    }
}

/// End of the file stem: the last dot strictly past `start`, or the whole
/// length when the name has no such dot.
pub open spec fn stem_end(b: Seq<u8>, start: int) -> int {
    if last_dot(b, start) == -1 {
        b.len() as int
    } else {
        last_dot(b, start)
    }
}

/// The file-stem bytes of a path, after the platform rule for
/// `/`-separated paths: trailing separators and `.` components are
/// ignored, a `..` name has no stem, and otherwise the stem is the name up
/// to its last dot (a leading dot does not count, so dot-files keep their
/// name).
pub open spec fn stem_bytes(b: Seq<u8>) -> Seq<u8> {
    let tb = trim_path(b);
    let st = stem_start(tb);
    if tb.len() - st == 2 && tb[st] == 46u8 && tb[st + 1] == 46u8 {
        Seq::empty()
    } else {
        tb.subrange(st, stem_end(tb, st))
    }
}

/// Per-image metadata: where the image came from, its derived identifier,
/// and what the header scan filled in.
pub struct ImageMetadata {
    /// The source file path.
    pub source_fn: String,
    /// Identifier derived from the source file name.
    pub img_id: String,
    /// The owning workspace directory.
    pub img_ws_dir: String,
    /// (width, height) of the source image.
    pub size: (usize, usize),
    /// (width, height) of the downsampled copy.
    pub down_size: (usize, usize),
    /// Number of channels of the source image.
    pub channel_count: usize,
    /// Channel used for registration.
    pub registration_channel: usize,
    /// Channel holding the cell marker.
    pub cell_channel: usize,
    /// Channel holding the activation co-marker.
    pub comarker_channel: usize,
    /// Conversion state of the image.
    pub conversion_status: ConvertStatus,
}

impl ImageMetadata {
    /// The source path as a character sequence.
    pub open spec fn src_view(self) -> Seq<char> {
        self.source_fn@
    }

    /// The identifier as a character sequence.
    pub open spec fn id_view(self) -> Seq<char> {
        self.img_id@
    }

    /// The workspace directory as a character sequence.
    pub open spec fn ws_dir_view(self) -> Seq<char> {
        self.img_ws_dir@
    }

    /// The downsampled dimensions.
    pub open spec fn spec_down_size(self) -> (usize, usize) {
        self.down_size
    }

    /// Fresh metadata for a source file in a workspace directory. The image
    /// identifier is the file stem of the source path, following the
    /// platform path API's rule for `/`-separated paths (`stem_bytes`):
    /// trailing separators and `.` components are ignored, a `..` name has
    /// no stem, and otherwise the name is cut at its last dot, a leading
    /// dot not counting. When a computed cut would split a multi-byte
    /// character the identifier is left empty; for `/`- and `.`-delimited
    /// cuts in valid text that cannot happen.
    pub fn new(source_fn: &str, ws_dir: &str) -> (r: Self)
        ensures
            r.src_view() == source_fn@,
            r.ws_dir_view() == ws_dir@,
            ({
                let b = encode_utf8(source_fn@);
                let st = stem_start(trim_path(b));
                let en = stem_end(trim_path(b), st);
                (is_char_boundary(b, st) && is_char_boundary(
                    b.subrange(st, b.len() as int),
                    en - st,
                )) ==> encode_utf8(r.id_view()) == stem_bytes(b)
            }),
            ({
                let b = encode_utf8(source_fn@);
                let st = stem_start(trim_path(b));
                let en = stem_end(trim_path(b), st);
                !(is_char_boundary(b, st) && is_char_boundary(
                    b.subrange(st, b.len() as int),
                    en - st,
                )) ==> r.id_view().len() == 0
            }),
            r.size == (0usize, 0usize),
            r.spec_down_size() == (0usize, 0usize),
            r.channel_count == 0,
            r.cell_channel == 0,
            r.comarker_channel == 0,
            r.registration_channel == 0,
            r.conversion_status is Unconverted,
    {
        let img_id = file_stem_of(source_fn);
        ImageMetadata {
            source_fn: source_fn.to_owned(),
            img_id,
            img_ws_dir: ws_dir.to_owned(),
            size: (0, 0),
            down_size: (0, 0),
            channel_count: 0,
            cell_channel: 0,
            comarker_channel: 0,
            registration_channel: 0,
            conversion_status: ConvertStatus::Unconverted,
        }
    }

    /// Applies what the header scan found: dimensions, channel count, and
    /// the default channel assignment derived from the channel count.
    pub fn set_metadata(&mut self, info: &TiffInfo)
        requires
            info.n_channels < usize::MAX,
        ensures
            final(self).size == info.dimensions,
            final(self).channel_count == info.n_channels,
            final(self).registration_channel == 0,
            final(self).cell_channel == 1int % (1 + info.n_channels as int),
            final(self).comarker_channel == 2int % (1 + info.n_channels as int),
            final(self).src_view() == old(self).src_view(),
            final(self).id_view() == old(self).id_view(),
            final(self).ws_dir_view() == old(self).ws_dir_view(),
            final(self).spec_down_size() == old(self).spec_down_size(),
            final(self).conversion_status == old(self).conversion_status,
    {
        self.size = info.dimensions;
        self.channel_count = info.n_channels;
        self.registration_channel = 0;
        self.cell_channel = 1 % (1 + info.n_channels);
        self.comarker_channel = 2 % (1 + info.n_channels);
    }

    /// The source file path.
    pub fn src_fn(&self) -> (r: &str)
        ensures
            r@ == self.src_view(),
    {
        self.source_fn.as_str()
    }

    /// The image identifier.
    pub fn id(&self) -> (r: &str)
        ensures
            r@ == self.id_view(),
    {
        self.img_id.as_str()
    }

    /// The workspace directory the image belongs to.
    pub fn ws_dir(&self) -> (r: &str)
        ensures
            r@ == self.ws_dir_view(),
    {
        self.img_ws_dir.as_str()
    }

    /// The path of the image's converted copy inside the workspace.
    pub fn conv_fn(&self) -> (r: String)
        ensures
            r@ == self.ws_dir_view() + "/ws_converted/"@ + self.id_view() + "_conv.tiff"@,
    {
        let mut out = self.img_ws_dir.clone();
        out.append("/ws_converted/");
        out.append(self.img_id.as_str());
        out.append("_conv.tiff");
        out
    }
}

/// The file stem of a path, after the platform rule for `/`-separated
/// paths (`stem_bytes`); empty when a byte cut would split a multi-byte
/// character, which valid text never puts at a `/` or `.` boundary.
#[verifier::rlimit(100)]
fn file_stem_of(source_fn: &str) -> (r: String)
    ensures
        ({
            let b = encode_utf8(source_fn@);
            let st = stem_start(trim_path(b));
            let en = stem_end(trim_path(b), st);
            (is_char_boundary(b, st) && is_char_boundary(
                b.subrange(st, b.len() as int),
                en - st,
            )) ==> encode_utf8(r@) == stem_bytes(b)
        }),
        ({
            let b = encode_utf8(source_fn@);
            let st = stem_start(trim_path(b));
            let en = stem_end(trim_path(b), st);
            !(is_char_boundary(b, st) && is_char_boundary(
                b.subrange(st, b.len() as int),
                en - st,
            )) ==> r@.len() == 0
        }),
{
    let bytes = source_fn.as_bytes();
    let n = bytes.len();
    let ghost bs = source_fn.spec_bytes();

    proof {
        assert(bs.take(n as int) =~= bs);
    }
    // Drop trailing separators and trailing `.` components.
    let mut m: usize = n;
    while m > 0 && (bytes[m - 1] == 47 || (bytes[m - 1] == 46 && (m == 1 || bytes[m - 2] == 47)))
        invariant
            m <= n,
            n == bs.len(),
            bytes@ == bs,
            trim_path(bs) == trim_path(bs.take(m as int)),
        decreases m,
    {
        proof {
            assert(bs.take(m as int).drop_last() =~= bs.take(m as int - 1));
            assert(bs.take(m as int).last() == bs[m as int - 1]);
        }
        m -= 1;
    }
    proof {
        assert(bs.take(n as int) =~= bs);
        assert(trim_path(bs.take(m as int)) == bs.take(m as int));
    }
    let ghost tb = bs.take(m as int);

    // Start of the file name: just past the last separator of the trimmed
    // path.
    let mut st: usize = 0;
    let mut t: usize = 0;
    while t < m
        invariant
            t <= m <= n,
            n == bs.len(),
            bytes@ == bs,
            tb == bs.take(m as int),
            st as int == stem_start(tb.take(t as int)),
            st <= t,
        decreases m - t,
    {
        proof {
            assert(tb.take(t as int + 1).drop_last() =~= tb.take(t as int));
            assert(tb.take(t as int + 1).last() == tb[t as int]);
            assert(tb[t as int] == bs[t as int]);
        }
        if bytes[t] == 47 {
            st = t + 1;
        }
        t += 1;
    }
    proof {
        assert(tb.take(m as int) =~= tb);
    }

    // Last dot strictly past the name's start, if any.
    let mut found = false;
    let mut dot: usize = 0;
    let mut t: usize = 0;
    while t < m
        invariant
            t <= m <= n,
            n == bs.len(),
            bytes@ == bs,
            tb == bs.take(m as int),
            st as int == stem_start(tb),
            st <= m,
            found ==> dot as int == last_dot(tb.take(t as int), st as int),
            !found ==> last_dot(tb.take(t as int), st as int) == -1,
            found ==> st < dot < t,
        decreases m - t,
    {
        proof {
            assert(tb.take(t as int + 1).drop_last() =~= tb.take(t as int));
            assert(tb.take(t as int + 1).last() == tb[t as int]);
            assert(tb[t as int] == bs[t as int]);
        }
        if bytes[t] == 46 && t > st {
            found = true;
            dot = t;
        }
        t += 1;
    }
    proof {
        assert(tb.take(m as int) =~= tb);
    }
    let en: usize = if found {
        dot
    } else {
        m
    };
    proof {
        assert(en as int == stem_end(tb, st as int));
        assert(st <= en && en <= m);
    }

    // A `..` name has no stem.
    if m - st == 2 && bytes[st] == 46 && bytes[st + 1] == 46 {
        proof {
            assert(tb[st as int] == 46u8 && tb[st as int + 1] == 46u8);
            assert(stem_bytes(bs) =~= Seq::<u8>::empty());
            assert(encode_utf8(Seq::<char>::empty()) =~= Seq::<u8>::empty());
        }
        return String::new();
    }

    if source_fn.is_char_boundary(st) {
        let pieces = source_fn.split_at(st);
        let tail = pieces.1;
        proof {
            assert(tail.spec_bytes() =~= bs.subrange(st as int, n as int));
        }
        if en >= st && tail.is_char_boundary(en - st) {
            let stem_pieces = tail.split_at(en - st);
            let stem = stem_pieces.0;
            proof {
                assert(stem.spec_bytes() =~= tail.spec_bytes().subrange(0, en - st as int));
                assert(tail.spec_bytes().subrange(0, en - st as int)
                    =~= bs.subrange(st as int, en as int));
                assert(tb.subrange(st as int, en as int) =~= bs.subrange(st as int, en as int));
                assert(stem_bytes(bs) == tb.subrange(st as int, en as int));
            }
            let out = stem.to_owned();
            out
        } else {
            String::new()
        }
    } else {
        String::new()
    }
}

/// A workspace: its directory and the images registered in it, in
/// registration order.
pub struct Workspace {
    /// The workspace directory path.
    pub dir_name: String,
    /// Registered images, in registration order.
    pub images: Vec<ImageMetadata>,
}

impl Workspace {
    /// An empty workspace over the given directory.
    pub fn new(dir_name: String) -> (r: Workspace)
        ensures
            r.dir_name == dir_name,
            r.images@.len() == 0,
    {
        Workspace { images: Vec::new(), dir_name }
    }

    /// Number of registered images.
    pub fn n_images(&self) -> (r: usize)
        ensures
            r == self.images@.len(),
    {
        self.images.len()
    }

    /// The first registered image with the given identifier, if any.
    pub fn get_image(&self, id: &str) -> (r: Option<&ImageMetadata>)
        ensures
            r matches Some(img) ==> exists|i: int|
                0 <= i < self.images@.len() && self.images@[i] == *img
                    && (#[trigger] self.images@[i]).id_view() == id@
                    && (forall|j: int| 0 <= j < i
                        ==> (#[trigger] self.images@[j]).id_view() != id@),
            r is None ==> forall|i: int|
                0 <= i < self.images@.len()
                    ==> (#[trigger] self.images@[i]).id_view() != id@,
    {
        let n = self.images.len();
        let mut i: usize = 0;
        while i < n
            invariant
                i <= n,
                n == self.images@.len(),
                forall|j: int| 0 <= j < i
                    ==> (#[trigger] self.images@[j]).id_view() != id@,
            decreases n - i,
        {
            let img = &self.images[i];
            if str_eq(img.id(), id) {
                return Some(img);
            }
            i += 1;
        }
        None
    }

    /// Appends an image.
    pub fn add_image(&mut self, img: ImageMetadata)
        ensures
            final(self).dir_name == old(self).dir_name,
            final(self).images@ == old(self).images@.push(img),
    {
        self.images.push(img);
    }
}

/// The top-level application state: at most one open workspace. Opening
/// and saving workspaces is the surrounding application's job.
pub struct Model {
    /// The open workspace, if any.
    pub workspace: Option<Workspace>,
}

impl Model {
    /// A model with no workspace open.
    pub fn new() -> (r: Model)
        ensures
            r.workspace is None,
    {
        Model { workspace: None }
    }
}

} // verus!
