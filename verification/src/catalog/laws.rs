//! Which files of a folder are the session's images, said of the folder's
//! entries themselves.
use crate::catalog;
use crate::catalog::{Entry, Found, PickState, StateView};
use crate::exif;
use crate::order;
use crate::text;
use vstd::prelude::*;

verus! {

/// Some RAW file of the folder has the stem of this entry, but for case.
pub open spec fn has_a_raw_sibling(entries: Seq<Option<Entry>>, e: Entry) -> bool {
    exists|j: int|
        {
            &&& 0 <= j < entries.len()
            &&& (#[trigger] entries[j]) is Some
            &&& catalog::is_raw_name(entries[j]->0.name@)
            &&& entries[j]->0.found is File
            &&& entries[j]->0.stem_is_text
            &&& exif::ascii_fold_eq(
                text::stem_of(entries[j]->0.name@),
                text::stem_of(e.name@),
            )
        }
}

/// An entry that is shown: a RAW, or a JPEG that no RAW file stands for, and
/// in either case a file or something that could not be looked at.
pub open spec fn is_shown(entries: Seq<Option<Entry>>) -> spec_fn(int) -> bool {
    |i: int|
        match entries[i] {
            Some(e) => {
                &&& !(e.found is Other)
                &&& catalog::is_raw_name(e.name@) || (catalog::is_jpeg_name(e.name@) && !(
                e.stem_is_text && has_a_raw_sibling(entries, e)))
            },
            None => false,
        }
}

proof fn lemma_shown_is_image(entries: Seq<Option<Entry>>, i: int)
    requires
        entries[i] is Some,
    ensures
        is_shown(entries)(i) <==> catalog::is_image(entries, entries[i]->0),
{
    reveal(catalog::is_image);
    let e = entries[i]->0;
    let stem = text::stem_of(e.name@);
    if has_a_raw_sibling(entries, e) {
        let j = choose|j: int|
            {
                &&& 0 <= j < entries.len()
                &&& (#[trigger] entries[j]) is Some
                &&& catalog::is_raw_name(entries[j]->0.name@)
                &&& entries[j]->0.found is File
                &&& entries[j]->0.stem_is_text
                &&& exif::ascii_fold_eq(
                    text::stem_of(entries[j]->0.name@),
                    text::stem_of(e.name@),
                )
            };
        assert(catalog::is_raw_of(entries[j], stem));
    }
    if catalog::has_raw(entries, stem) {
        let j = choose|j: int|
            0 <= j < entries.len() && catalog::is_raw_of(#[trigger] entries[j], stem);
        assert(entries[j] is Some);
    }
}

/// An entry is one of the session's images exactly where it is shown; its
/// record has the entry's name, the size and time of a file, and the failure
/// of one that could not be looked at; nothing is known of it yet, and it is
/// unmarked.
pub proof fn lemma_what_is_shown(entries: Seq<Option<Entry>>, i: int, k: int)
    requires
        entries.len() <= usize::MAX,
        0 <= i < entries.len(),
        0 <= k < catalog::scanned(entries).len(),
    ensures
        ({
            let all = catalog::scanned(entries);
            let r = all[k];
            let e = entries[i]->0;
            &&& is_shown(entries)(i) <==> exists|l: int|
                0 <= l < all.len() && (#[trigger] all[l]).entry == i
            &&& r.entry == i ==> {
                &&& r.path == e.name@
                &&& r.exif is None
                &&& r.pick == PickState::Unmarked
                &&& match e.found {
                    Found::File { size, mtime } => r.size == size && r.mtime == mtime && r.state
                        == StateView::Placeholder,
                    Found::Unreadable(why) => r.size == 0 && r.mtime is None && r.state
                        == StateView::Failed("unreadable entry: "@ + why@),
                    Found::Other => false,
                }
            }
        }),
{
    catalog::lemma_images_once_each(entries, i);
    let all = catalog::scanned(entries);
    if entries[i] is Some {
        lemma_shown_is_image(entries, i);
    }
    if all[k].entry == i {
        assert(exists|l: int| 0 <= l < all.len() && (#[trigger] all[l]).entry == i);
        reveal(catalog::is_image);
    }
}

/// A session has as many images as the folder shows entries, and as many scan
/// errors as it has entries without a name.
pub proof fn lemma_nothing_is_lost(entries: Seq<Option<Entry>>)
    ensures
        catalog::scanned(entries).len() == order::tally(entries.len() as int, is_shown(entries)),
        catalog::errors_among(entries, entries.len() as int) == order::tally(
            entries.len() as int,
            |i: int| entries[i] is None,
        ),
{
    lemma_shown_upto(entries, entries.len() as int);
}

proof fn lemma_shown_upto(entries: Seq<Option<Entry>>, n: int)
    requires
        0 <= n <= entries.len(),
    ensures
        catalog::images_among(entries, n).len() == order::tally(n, is_shown(entries)),
        catalog::errors_among(entries, n) == order::tally(n, |i: int| entries[i] is None),
    decreases n,
{
    if n > 0 {
        lemma_shown_upto(entries, n - 1);
        if entries[n - 1] is Some {
            lemma_shown_is_image(entries, n - 1);
        }
    }
}

/// The images stand in the byte order of their names; of two of the same name
/// the one that the folder named first stands first.
pub proof fn lemma_images_in_name_order(entries: Seq<Option<Entry>>, k: int, l: int)
    requires
        entries.len() <= usize::MAX,
        0 <= k < l < catalog::scanned(entries).len(),
    ensures
        ({
            let (a, b) = (catalog::scanned(entries)[k], catalog::scanned(entries)[l]);
            &&& text::text_le(a.path, b.path)
            &&& a.path == b.path ==> a.entry < b.entry
        }),
{
    let n = entries.len() as int;
    let found = catalog::images_among(entries, n);
    let le = |a: int, b: int| text::text_le(found[a].path, found[b].path);
    catalog::lemma_images_among(entries, n);
    catalog::lemma_name_preorder(found);
    order::lemma_has_stable_order(found.len() as int, le);
    let p = catalog::name_order(found);
    assert(order::before(le, p[k] as int, p[l] as int));
    assert(0 <= p[k] < found.len() && 0 <= p[l] < found.len());
    let (a, b) = (found[p[k] as int], found[p[l] as int]);
    text::lemma_text_le(a.path, b.path, a.path);
    if a.path == b.path {
        assert(p[k] < p[l]);
        assert(found[p[k] as int].entry < found[p[l] as int].entry);
    }
}

/// A file is a JPEG by an extension `jpg` or `jpeg`, and a RAW by one that the
/// decoder lists, in any case; a name without an extension is neither.
pub proof fn lemma_names_by_extension(stem: Seq<char>, ext: Seq<char>)
    requires
        stem.len() > 0,
        !ext.contains('.'),
    ensures
        catalog::is_jpeg_name(stem + seq!['.'] + ext) <==> exif::ascii_fold_eq(ext, "jpg"@)
            || exif::ascii_fold_eq(ext, "jpeg"@),
        catalog::is_raw_name(stem + seq!['.'] + ext) <==> exists|k: int|
            0 <= k < catalog::raw_extensions().len() && exif::ascii_fold_eq(
                #[trigger] catalog::raw_extensions()[k],
                ext,
            ),
        !catalog::is_jpeg_name(ext) && !catalog::is_raw_name(ext),
{
    text::lemma_last_dot(stem, ext);
    text::lemma_no_dot(ext);
}

} // verus!
