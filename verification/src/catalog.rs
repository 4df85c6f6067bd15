//! Folder scan and per-image session records.
//!
//! [`Session::open`] takes the listing of exactly one folder
//! (non-recursive), keeps the RAW extensions that rawler knows plus UNPAIRED
//! .jpg/.jpeg, and gives placeholder records in filename order — file
//! *contents* are never read at scan time (only directory metadata: size and
//! modification time, needed for cache keys). A JPEG with a same-stem RAW
//! sibling stays hidden: the RAW represents the moment.
use crate::exif;
use crate::order;
use crate::text;
use vstd::prelude::*;
use vstd::string::*;

pub mod laws;

verus! {

/// Why there is no session.
#[derive(Debug)]
pub enum CatalogError {
    OpenFolder(String, String),
    NotADirectory(String),
}

/// What a [`CatalogError`] says.
pub ghost enum CatalogFault {
    OpenFolder(Seq<char>, Seq<char>),
    NotADirectory(Seq<char>),
}

impl View for CatalogError {
    type V = CatalogFault;

    open spec fn view(&self) -> CatalogFault {
        match self {
            CatalogError::OpenFolder(f, e) => CatalogFault::OpenFolder(f@, e@),
            CatalogError::NotADirectory(f) => CatalogFault::NotADirectory(f@),
        }
    }
}

impl CatalogError {
    /// The message a report shows.
    pub fn text(&self) -> (s: String)
        ensures
            s@ == match self@ {
                CatalogFault::OpenFolder(f, e) => "cannot open folder "@ + f + ": "@ + e,
                CatalogFault::NotADirectory(f) => "not a directory: "@ + f,
            },
    {
        match self {
            CatalogError::OpenFolder(f, e) => {
                let mut s = "cannot open folder ".to_string();
                s.append(f.as_str());
                s.append(": ");
                s.append(e.as_str());
                s
            },
            CatalogError::NotADirectory(f) => {
                let mut s = "not a directory: ".to_string();
                s.append(f.as_str());
                s
            },
        }
    }
}

/// Load progress of one image inside a session.
#[derive(Debug, Clone, PartialEq, Eq)]
pub enum LoadState {
    /// Scanned, nothing read yet — the grid shows a placeholder cell.
    Placeholder,
    /// Metadata (and possibly thumb) delivered.
    Loaded,
    /// Unreadable/corrupt; the reason is shown as a badge tooltip. The
    /// session keeps going — one bad file never poisons the folder.
    Failed(String),
}

impl Default for LoadState {
    fn default() -> (s: LoadState)
        ensures
            s is Placeholder,
    {
        LoadState::Placeholder
    }
}

/// The user's verdict on one image.
#[derive(Debug, Clone, Copy, PartialEq, Eq, Structural)]
pub enum PickState {
    Unmarked,
    Picked,
    Rejected,
}

impl Default for PickState {
    fn default() -> (s: PickState)
        ensures
            s == PickState::Unmarked,
    {
        PickState::Unmarked
    }
}

/// One image file in the session.
#[derive(Debug, Clone)]
pub struct ImageRecord {
    /// Which entry of the listing it is.
    pub entry: usize,
    /// The file's name in the session's folder, in a form that can be shown.
    pub path: String,
    /// File size in bytes at scan time (cache key component).
    pub size: u64,
    /// Modification time at scan time, in nanoseconds since 1970 (cache key
    /// component).
    pub mtime: Option<i128>,
    pub state: LoadState,
    pub exif: Option<exif::ExifSummary>,
    pub pick: PickState,
}

/// What a [`LoadState`] says.
pub ghost enum StateView {
    Placeholder,
    Loaded,
    Failed(Seq<char>),
}

impl View for LoadState {
    type V = StateView;

    open spec fn view(&self) -> StateView {
        match self {
            LoadState::Placeholder => StateView::Placeholder,
            LoadState::Loaded => StateView::Loaded,
            LoadState::Failed(t) => StateView::Failed(t@),
        }
    }
}

/// The model of an [`ImageRecord`].
pub ghost struct RecordView {
    pub entry: int,
    pub path: Seq<char>,
    pub size: u64,
    pub mtime: Option<i128>,
    pub state: StateView,
    pub exif: Option<exif::ExifSummary>,
    pub pick: PickState,
}

impl View for ImageRecord {
    type V = RecordView;

    open spec fn view(&self) -> RecordView {
        RecordView {
            entry: self.entry as int,
            path: self.path@,
            size: self.size,
            mtime: self.mtime,
            state: self.state@,
            exif: self.exif,
            pick: self.pick,
        }
    }
}

impl ImageRecord {
    /// Display name.
    pub fn file_name(&self) -> (s: &str)
        ensures
            s@ == self.path@,
    {
        self.path.as_str()
    }
}

/// What a look at one entry's metadata found.
#[derive(Debug)]
pub enum Found {
    /// A file, or a link to one.
    File { size: u64, mtime: Option<i128> },
    /// Something else: a folder, a pipe, a socket.
    Other,
    /// The look failed (a broken link, a permission): the reason.
    Unreadable(String),
}

/// One entry of the folder.
#[derive(Debug)]
pub struct Entry {
    /// Its name, lossy where it is no text.
    pub name: String,
    /// Its name up to the extension is text as it stands.
    pub stem_is_text: bool,
    pub found: Found,
}

/// The folder, as it was read.
#[derive(Debug)]
pub enum Listing {
    NotADirectory,
    Unreadable(String),
    /// `None` for an entry that could not even be named.
    Entries(Vec<Option<Entry>>),
}

/// An open folder: the unit of work of the whole application.
#[derive(Debug)]
pub struct Session {
    pub folder: String,
    /// Records in filename order (capture-time sort happens after EXIF load).
    pub images: Vec<ImageRecord>,
    /// Directory-iteration errors that could not be attributed to a named
    /// entry (so no `Failed` record could be created). Non-zero means the
    /// listing may be incomplete; the UI must surface it.
    pub scan_errors: usize,
}

// -------------------------------------------------------------- extensions
/// The extensions that rawler can decode, in upper case.
pub open spec fn raw_extensions() -> Seq<Seq<char>> {
    seq![
        "ARI"@,
        "ARW"@,
        "CR2"@,
        "CR3"@,
        "CRM"@,
        "CRW"@,
        "DCR"@,
        "DCS"@,
        "DNG"@,
        "ERF"@,
        "IIQ"@,
        "KDC"@,
        "MEF"@,
        "MOS"@,
        "MRW"@,
        "NEF"@,
        "NRW"@,
        "ORF"@,
        "ORI"@,
        "PEF"@,
        "RAF"@,
        "RAW"@,
        "RW2"@,
        "RWL"@,
        "SRW"@,
        "3FR"@,
        "FFF"@,
        "X3F"@,
        "QTK"@,
    ]
}

/// `rawler::decoders::supported_extensions`: the extensions that rawler can
/// decode, which are a constant list.
#[verifier::external_body]
fn supported_extensions() -> (list: &'static [&'static str])
    ensures
        list@.len() == raw_extensions().len(),
        forall|i: int| 0 <= i < list@.len() ==> (#[trigger] list@[i])@ == raw_extensions()[i],
{
    rawler::decoders::supported_extensions()
}

/// Does a file name have an extension that rawler can decode
/// (case-insensitive)?
pub open spec fn is_raw_name(name: Seq<char>) -> bool {
    match text::ext_of(name) {
        Some(ext) => exists|k: int|
            0 <= k < raw_extensions().len() && exif::ascii_fold_eq(
                #[trigger] raw_extensions()[k],
                ext,
            ),
        None => false,
    }
}

/// True if the name has an extension rawler can decode (case-insensitive).
pub fn has_raw_extension(name: &str) -> (r: bool)
    ensures
        r == is_raw_name(name@),
{
    let (_, ext) = text::split_name(name);
    let ext = match ext {
        Some(e) => e,
        None => {
            return false;
        },
    };
    let known = supported_extensions();
    let mut i: usize = 0;
    while i < known.len()
        invariant
            i <= known@.len(),
            known@.len() == raw_extensions().len(),
            forall|k: int| 0 <= k < known@.len() ==> (#[trigger] known@[k])@ == raw_extensions()[k],
            text::ext_of(name@) == Some(ext@),
            forall|k: int|
                0 <= k < i ==> !exif::ascii_fold_eq(#[trigger] raw_extensions()[k], ext@),
        decreases known@.len() - i,
    {
        if exif::eq_ignore_ascii_case(known[i], ext.as_str()) {
            assert(exif::ascii_fold_eq(raw_extensions()[i as int], ext@));
            return true;
        }
        i = i + 1;
    }
    false
}

/// Is a file name that of a JPEG?
pub open spec fn is_jpeg_name(name: Seq<char>) -> bool {
    match text::ext_of(name) {
        Some(ext) => exif::ascii_fold_eq(ext, "jpg"@) || exif::ascii_fold_eq(ext, "jpeg"@),
        None => false,
    }
}

/// True for .jpg/.jpeg (case-insensitive) — the only non-RAW stills
/// imported.
pub fn has_jpeg_extension(name: &str) -> (r: bool)
    ensures
        r == is_jpeg_name(name@),
{
    let (_, ext) = text::split_name(name);
    match ext {
        Some(e) => {
            exif::eq_ignore_ascii_case(e.as_str(), "jpg") || exif::eq_ignore_ascii_case(
                e.as_str(),
                "jpeg",
            )
        },
        None => false,
    }
}

/// Must this entry's metadata be looked at? Of other files nothing is asked.
pub fn wants_a_look(name: &str) -> (r: bool)
    ensures
        r == (is_raw_name(name@) || is_jpeg_name(name@)),
{
    has_raw_extension(name) || has_jpeg_extension(name)
}

// ---------------------------------------------------------------- the scan
/// An entry that is a RAW file of this stem.
pub open spec fn is_raw_of(entry: Option<Entry>, stem: Seq<char>) -> bool {
    match entry {
        Some(e) => is_raw_name(e.name@) && e.found is File && e.stem_is_text
            && exif::ascii_fold_eq(text::stem_of(e.name@), stem),
        None => false,
    }
}

/// Some RAW file of the folder has this stem. Only REAL files count: hiding
/// presumes a shown RAW.
pub open spec fn has_raw(entries: Seq<Option<Entry>>, stem: Seq<char>) -> bool {
    exists|j: int| 0 <= j < entries.len() && is_raw_of(#[trigger] entries[j], stem)
}

/// Is this entry one of the session's images?
#[verifier::opaque]
pub open spec fn is_image(entries: Seq<Option<Entry>>, e: Entry) -> bool {
    &&& is_raw_name(e.name@) || (is_jpeg_name(e.name@) && !(e.stem_is_text && has_raw(
        entries,
        text::stem_of(e.name@),
    )))
    &&& !(e.found is Other)
}

/// The placeholder record of an entry.
pub open spec fn record_of(e: Entry, i: int) -> RecordView {
    RecordView {
        entry: i,
        path: e.name@,
        size: match e.found {
            Found::File { size, .. } => size,
            _ => 0,
        },
        mtime: match e.found {
            Found::File { mtime, .. } => mtime,
            _ => None,
        },
        state: match e.found {
            Found::Unreadable(t) => StateView::Failed("unreadable entry: "@ + t@),
            _ => StateView::Placeholder,
        },
        exif: None,
        pick: PickState::Unmarked,
    }
}

/// The images among the first `i` entries.
pub open spec fn images_among(entries: Seq<Option<Entry>>, i: int) -> Seq<RecordView>
    decreases i,
{
    if i <= 0 {
        Seq::empty()
    } else {
        match entries[i - 1] {
            Some(e) => if is_image(entries, e) {
                images_among(entries, i - 1).push(record_of(e, i - 1))
            } else {
                images_among(entries, i - 1)
            },
            None => images_among(entries, i - 1),
        }
    }
}

/// How many of the first `i` entries could not be named.
pub open spec fn errors_among(entries: Seq<Option<Entry>>, i: int) -> int
    decreases i,
{
    if i <= 0 {
        0
    } else {
        errors_among(entries, i - 1) + if entries[i - 1] is None {
            1int
        } else {
            0
        }
    }
}

/// Filename order.
pub open spec fn name_order(records: Seq<RecordView>) -> Seq<usize> {
    order::stable_order_of(
        records.len() as int,
        |a: int, b: int| text::text_le(records[a].path, records[b].path),
    )
}

/// The images of a folder, in filename order.
pub open spec fn scanned(entries: Seq<Option<Entry>>) -> Seq<RecordView> {
    let found = images_among(entries, entries.len() as int);
    let p = name_order(found);
    Seq::new(found.len(), |i: int| found[p[i] as int])
}

/// The models of some records.
pub open spec fn records(v: Seq<ImageRecord>) -> Seq<RecordView> {
    Seq::new(v.len(), |i: int| v[i]@)
}

proof fn lemma_name_preorder(found: Seq<RecordView>)
    ensures
        order::is_preorder(
            found.len() as int,
            |a: int, b: int| text::text_le(found[a].path, found[b].path),
        ),
{
    let le = |a: int, b: int| text::text_le(found[a].path, found[b].path);
    assert forall|a: int, b: int|
        0 <= a < found.len() && 0 <= b < found.len() implies #[trigger] le(a, b) || le(b, a) by {
        text::lemma_text_le(found[a].path, found[b].path, found[a].path);
    }
    assert forall|a: int, b: int, c: int|
        0 <= a < found.len() && 0 <= b < found.len() && 0 <= c < found.len() && #[trigger] le(a, b)
            && #[trigger] le(b, c) implies le(a, c) by {
        text::lemma_text_le(found[a].path, found[b].path, found[c].path);
    }
}

fn raw_of(entries: &Vec<Option<Entry>>, stem: &str) -> (r: bool)
    ensures
        r == has_raw(entries@, stem@),
{
    let mut j: usize = 0;
    while j < entries.len()
        invariant
            j <= entries@.len(),
            forall|k: int| 0 <= k < j ==> !is_raw_of(#[trigger] entries@[k], stem@),
        decreases entries@.len() - j,
    {
        match &entries[j] {
            Some(e) => {
                let is_file: bool = match &e.found {
                    Found::File { size: _, mtime: _ } => true,
                    _ => false,
                };
                if is_file && e.stem_is_text {
                    let (own, _) = text::split_name(e.name.as_str());
                    if exif::eq_ignore_ascii_case(own.as_str(), stem) && has_raw_extension(
                        e.name.as_str(),
                    ) {
                        assert(is_raw_of(entries@[j as int], stem@));
                        return true;
                    }
                }
            },
            None => {},
        }
        j = j + 1;
    }
    false
}

fn image(entries: &Vec<Option<Entry>>, e: &Entry) -> (r: bool)
    ensures
        r == is_image(entries@, *e),
{
    proof {
        reveal(is_image);
    }
    match &e.found {
        Found::Other => {
            return false;
        },
        _ => {},
    }
    if has_raw_extension(e.name.as_str()) {
        return true;
    }
    if !has_jpeg_extension(e.name.as_str()) {
        return false;
    }
    if !e.stem_is_text {
        return true;
    }
    let (stem, _) = text::split_name(e.name.as_str());
    !raw_of(entries, stem.as_str())
}

fn record(e: &Entry, i: usize) -> (r: ImageRecord)
    ensures
        r@ == record_of(*e, i as int),
{
    let mut size: u64 = 0;
    let mut mtime: Option<i128> = None;
    let mut state = LoadState::Placeholder;
    match &e.found {
        Found::File { size: s, mtime: m } => {
            size = *s;
            mtime = *m;
        },
        Found::Other => {},
        Found::Unreadable(t) => {
            let mut reason = "unreadable entry: ".to_string();
            reason.append(t.as_str());
            state = LoadState::Failed(reason);
        },
    }
    ImageRecord {
        entry: i,
        path: e.name.clone(),
        size,
        mtime,
        state,
        exif: None,
        pick: PickState::Unmarked,
    }
}

fn in_name_order(entries: &Vec<Option<Entry>>, kept: &Vec<usize>) -> (p: Vec<usize>)
    requires
        forall|k: int|
            0 <= k < kept@.len() ==> 0 <= #[trigger] kept@[k] < entries@.len()
                && entries@[kept@[k] as int] is Some,
    ensures
        order::arranges(p@, 0, kept@.len() as int),
        p@ == name_order(
            Seq::new(
                kept@.len(),
                |k: int| record_of(entries@[kept@[k] as int]->0, kept@[k] as int),
            ),
        ),
{
    let ghost found = Seq::new(
        kept@.len(),
        |k: int| record_of(entries@[kept@[k] as int]->0, kept@[k] as int),
    );
    let ghost le = |a: int, b: int| text::text_le(found[a].path, found[b].path);
    proof {
        lemma_name_preorder(found);
    }
    let not_after = |a: usize, b: usize| -> (r: bool)
        requires
            a < kept@.len() && b < kept@.len(),
            entries@[kept@[a as int] as int] is Some,
            entries@[kept@[b as int] as int] is Some,
            0 <= kept@[a as int] < entries@.len(),
            0 <= kept@[b as int] < entries@.len(),
        ensures
            r == text::text_le(
                entries@[kept@[a as int] as int]->0.name@,
                entries@[kept@[b as int] as int]->0.name@,
            ),
        {
            match (&entries[kept[a]], &entries[kept[b]]) {
                (Some(x), Some(y)) => text::not_after(x.name.as_str(), y.name.as_str()),
                _ => true,
            }
        };
    order::stable_order(kept.len(), &not_after, Ghost(le))
}

impl Session {
    /// Scan a folder's listing for RAW files — and unpaired JPEGs: a JPEG
    /// with a same-stem RAW sibling stays hidden (the RAW represents the
    /// moment), a JPEG without one is a first-class image. Returns
    /// placeholder records in filename order.
    ///
    /// An entry that could not be looked at is recorded as Failed, not
    /// dropped: the user must see that the file exists and could not be
    /// used. Folders named like RAWs are skipped.
    pub fn open(folder: &str, listing: &Listing) -> (r: Result<Session, CatalogError>)
        ensures
            match *listing {
                Listing::NotADirectory => r is Err && r->Err_0@ == CatalogFault::NotADirectory(
                    folder@,
                ),
                Listing::Unreadable(e) => r is Err && r->Err_0@ == CatalogFault::OpenFolder(
                    folder@,
                    e@,
                ),
                Listing::Entries(entries) => match r {
                    Ok(s) => s.folder@ == folder@ && records(s.images@) == scanned(entries@)
                        && s.scan_errors == errors_among(entries@, entries@.len() as int),
                    Err(_) => false,
                },
            },
    {
        let entries = match listing {
            Listing::NotADirectory => {
                return Err(CatalogError::NotADirectory(folder.to_string()));
            },
            Listing::Unreadable(e) => {
                return Err(CatalogError::OpenFolder(folder.to_string(), e.clone()));
            },
            Listing::Entries(entries) => entries,
        };
        let mut kept: Vec<usize> = Vec::new();
        let mut scan_errors: usize = 0;
        let mut i: usize = 0;
        let ghost mut found: Seq<RecordView> = Seq::empty();
        while i < entries.len()
            invariant
                i <= entries@.len(),
                scan_errors == errors_among(entries@, i as int),
                scan_errors <= i,
                forall|k: int|
                    0 <= k < kept@.len() ==> 0 <= #[trigger] kept@[k] < i
                        && entries@[kept@[k] as int] is Some,
                found == images_among(entries@, i as int),
                found == Seq::new(
                    kept@.len(),
                    |k: int| record_of(entries@[kept@[k] as int]->0, kept@[k] as int),
                ),
            decreases entries@.len() - i,
        {
            match &entries[i] {
                None => {
                    scan_errors = scan_errors + 1;
                },
                Some(e) => {
                    if image(entries, e) {
                        kept.push(i);
                        proof {
                            found = found.push(record_of(*e, i as int));
                            assert(found =~= Seq::new(
                                kept@.len(),
                                |k: int| record_of(entries@[kept@[k] as int]->0, kept@[k] as int),
                            ));
                        }
                    }
                },
            }
            i = i + 1;
        }
        let p = in_name_order(entries, &kept);
        let mut images: Vec<ImageRecord> = Vec::new();
        let mut k: usize = 0;
        while k < p.len()
            invariant
                k <= p@.len(),
                p@.len() == kept@.len(),
                order::arranges(p@, 0, kept@.len() as int),
                forall|k: int|
                    0 <= k < kept@.len() ==> 0 <= #[trigger] kept@[k] < entries@.len()
                        && entries@[kept@[k] as int] is Some,
                found == Seq::new(
                    kept@.len(),
                    |k: int| record_of(entries@[kept@[k] as int]->0, kept@[k] as int),
                ),
                images@.len() == k,
                forall|j: int| 0 <= j < k ==> (#[trigger] images@[j])@ == found[p@[j] as int],
            decreases p@.len() - k,
        {
            assert(0 <= p@[k as int] < kept@.len());
            let at: usize = kept[p[k]];
            match &entries[at] {
                Some(e) => {
                    images.push(record(e, at));
                },
                None => {},
            }
            k = k + 1;
        }
        assert(records(images@) =~= scanned(entries@));
        Ok(Session { folder: folder.to_string(), images, scan_errors })
    }
}

// ---------------------------------------------------------------- the laws
/// Every image of the folder is in the session exactly once: the records
/// are an arrangement of the images among the entries, and no two are of one
/// entry.
pub proof fn lemma_images_once_each(entries: Seq<Option<Entry>>, i: int)
    requires
        entries.len() <= usize::MAX,
        0 <= i < entries.len(),
    ensures
        (entries[i] is Some && is_image(entries, entries[i]->0)) <==> (exists|k: int|
            0 <= k < scanned(entries).len() && (#[trigger] scanned(entries)[k]).entry == i),
        forall|k: int, l: int|
            0 <= k < l < scanned(entries).len() ==> (#[trigger] scanned(entries)[k]).entry != (
            #[trigger] scanned(entries)[l]).entry,
        forall|k: int|
            0 <= k < scanned(entries).len() && (#[trigger] scanned(entries)[k]).entry == i
                ==> scanned(entries)[k] == record_of(entries[i]->0, i),
{
    let n = entries.len() as int;
    let found = images_among(entries, n);
    let le = |a: int, b: int| text::text_le(found[a].path, found[b].path);
    lemma_images_among(entries, n);
    lemma_name_preorder(found);
    order::lemma_has_stable_order(found.len() as int, le);
    let p = name_order(found);
    if entries[i] is Some && is_image(entries, entries[i]->0) {
        let a = lemma_image_found(entries, n, i);
        order::lemma_arranges_all(p, 0, found.len() as int, a);
        let k = choose|k: int| 0 <= k < p.len() && p[k] == a;
        assert(scanned(entries)[k].entry == i);
    }
    assert forall|k: int, l: int| 0 <= k < l < scanned(entries).len() implies (
    #[trigger] scanned(entries)[k]).entry != (#[trigger] scanned(entries)[l]).entry by {
        assert(p[k] != p[l]);
        assert(found[p[k] as int].entry != found[p[l] as int].entry);
    }
    assert forall|k: int|
        0 <= k < scanned(entries).len() && (#[trigger] scanned(entries)[k]).entry == i implies {
        &&& scanned(entries)[k] == record_of(entries[i]->0, i)
        &&& entries[i] is Some
        &&& is_image(entries, entries[i]->0)
    } by {
        assert(0 <= p[k] < found.len());
        assert(found[p[k] as int].entry == i);
    }
}

proof fn lemma_images_among(entries: Seq<Option<Entry>>, n: int)
    requires
        0 <= n <= entries.len(),
    ensures
        images_among(entries, n).len() <= n,
        forall|a: int|
            0 <= a < images_among(entries, n).len() ==> {
                let i = (#[trigger] images_among(entries, n)[a]).entry;
                &&& 0 <= i < n
                &&& entries[i] is Some
                &&& is_image(entries, entries[i]->0)
                &&& images_among(entries, n)[a] == record_of(entries[i]->0, i)
            },
        forall|a: int, b: int|
            0 <= a < b < images_among(entries, n).len() ==> (#[trigger] images_among(
                entries,
                n,
            )[a]).entry < (#[trigger] images_among(entries, n)[b]).entry,
    decreases n,
{
    if n > 0 {
        lemma_images_among(entries, n - 1);
    }
}

proof fn lemma_image_found(entries: Seq<Option<Entry>>, n: int, i: int) -> (a: int)
    requires
        0 <= i < n <= entries.len(),
        entries[i] is Some,
        is_image(entries, entries[i]->0),
    ensures
        0 <= a < images_among(entries, n).len(),
        images_among(entries, n)[a].entry == i,
    decreases n,
{
    if i == n - 1 {
        images_among(entries, n - 1).len() as int
    } else {
        lemma_image_found(entries, n - 1, i)
    }
}

/// Hiding presumes a shown RAW: where a JPEG file is not in the session,
/// a RAW file of the same stem (but for case) is.
pub proof fn lemma_hidden_jpeg_has_a_shown_raw(entries: Seq<Option<Entry>>, i: int)
    requires
        0 <= i < entries.len(),
        entries[i] is Some,
        is_jpeg_name(entries[i]->0.name@),
        !(entries[i]->0.found is Other),
        !is_image(entries, entries[i]->0),
    ensures
        exists|j: int|
            0 <= j < entries.len() && #[trigger] entries[j] is Some && is_image(
                entries,
                entries[j]->0,
            ) && is_raw_name(entries[j]->0.name@) && exif::ascii_fold_eq(
                text::stem_of(entries[j]->0.name@),
                text::stem_of(entries[i]->0.name@),
            ),
{
    reveal(is_image);
    let stem = text::stem_of(entries[i]->0.name@);
    let j = choose|j: int| 0 <= j < entries.len() && is_raw_of(#[trigger] entries[j], stem);
    assert(entries[j] is Some && is_image(entries, entries[j]->0));
}

} // verus!
