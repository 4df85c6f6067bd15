//! One image's way through the pipeline: its sidecar, the cache, its EXIF
//! summary, its thumb. Reading files is the application's; what follows from
//! what was read is decided here.
use crate::cache::CachedPreview;
use crate::catalog::PickState;
use crate::exif::ExifSummary;
use crate::iptc::IptcData;
use crate::jpeg;
use crate::pipeline;
use crate::pipeline::SessionEvent;
use vstd::prelude::*;

verus! {

/// What a job has to read next.
#[derive(Debug, Clone, Copy, PartialEq, Eq, Structural)]
pub enum Work {
    /// Its sidecar, which is never cached: another tool may have changed it.
    Sidecar,
    /// Its row of the cache.
    Cache,
    /// Its EXIF summary.
    Exif,
    /// Its preview, and make a thumb of it.
    Thumb,
    /// Nothing: the job is over.
    Done,
}

/// One job.
#[derive(Debug)]
pub struct JobRun {
    pub index: usize,
    pub at: Work,
    /// The summary that was read.
    pub exif: Option<ExifSummary>,
}

/// The event of a sidecar that could be read.
pub open spec fn sidecar_events(index: usize, found: Option<(PickState, IptcData)>) -> Seq<
    SessionEvent,
> {
    match found {
        Some((pick, iptc)) => seq![SessionEvent::Sidecar { index, pick, iptc: Box::new(iptc) }],
        None => Seq::empty(),
    }
}

/// A row of the cache whose thumb can be read.
pub open spec fn usable(hit: Option<CachedPreview>) -> bool {
    hit is Some && jpeg::sides_of((hit->0).thumb_jpeg@) is Some
}

/// The events of such a row.
pub open spec fn hit_events(index: usize, hit: CachedPreview) -> Seq<SessionEvent> {
    let (w, h) = jpeg::sides_of(hit.thumb_jpeg@)->0;
    seq![
        SessionEvent::MetadataReady { index, exif: hit.exif, from_cache: true },
        SessionEvent::ThumbReady {
            index,
            thumb_jpeg: hit.thumb_jpeg,
            width: w as u32,
            height: h as u32,
            from_cache: true,
        },
    ]
}

/// The event of a summary that could be read.
pub open spec fn exif_events(index: usize, exif: Option<ExifSummary>) -> Seq<SessionEvent> {
    match exif {
        Some(exif) => seq![SessionEvent::MetadataReady { index, exif, from_cache: false }],
        None => Seq::empty(),
    }
}

/// The event of a thumb, or of its failure.
pub open spec fn thumb_outcome(index: usize, thumb: Result<(Vec<u8>, u32, u32), String>) -> SessionEvent {
    match thumb {
        Ok((thumb_jpeg, width, height)) => SessionEvent::ThumbReady {
            index,
            thumb_jpeg,
            width,
            height,
            from_cache: false,
        },
        Err(reason) => SessionEvent::Failed { index, reason },
    }
}

/// All the events of a job, given what each of its reads gives. With a usable
/// row of the cache the file itself is never read.
pub open spec fn job_events(
    index: usize,
    sidecar: Option<(PickState, IptcData)>,
    hit: Option<CachedPreview>,
    exif: Option<ExifSummary>,
    thumb: Result<(Vec<u8>, u32, u32), String>,
) -> Seq<SessionEvent> {
    sidecar_events(index, sidecar) + if usable(hit) {
        hit_events(index, hit->0)
    } else {
        exif_events(index, exif) + seq![thumb_outcome(index, thumb)]
    }
}

impl JobRun {
    /// A job that has read nothing yet.
    pub fn start(index: usize) -> (run: JobRun)
        ensures
            run == (JobRun { index, at: Work::Sidecar, exif: None }),
    {
        JobRun { index, at: Work::Sidecar, exif: None }
    }

    /// The sidecar was read; `None` where there is none, or none that could
    /// be read.
    pub fn sidecar(&mut self, found: Option<(PickState, IptcData)>) -> (events: Vec<SessionEvent>)
        requires
            old(self).at == Work::Sidecar,
        ensures
            *final(self) == (JobRun { at: Work::Cache, ..*old(self) }),
            events@ == sidecar_events(old(self).index, found),
    {
        self.at = Work::Cache;
        let mut events: Vec<SessionEvent> = Vec::new();
        match found {
            Some((pick, iptc)) => {
                events.push(
                    SessionEvent::Sidecar { index: self.index, pick, iptc: Box::new(iptc) },
                );
            },
            None => {},
        }
        events
    }

    /// The cache was asked; `None` where there is none, it has no such row,
    /// or it could not answer. A row whose thumb cannot be read is none.
    pub fn cache(&mut self, hit: Option<CachedPreview>) -> (events: Vec<SessionEvent>)
        requires
            old(self).at == Work::Cache,
        ensures
            *final(self) == (JobRun {
                at: if usable(hit) {
                    Work::Done
                } else {
                    Work::Exif
                },
                ..*old(self)
            }),
            events@ == if usable(hit) {
                hit_events(old(self).index, hit->0)
            } else {
                Seq::empty()
            },
    {
        let mut events: Vec<SessionEvent> = Vec::new();
        self.at = Work::Exif;
        match hit {
            Some(hit) => match pipeline::cached_events(self.index, hit) {
                Some((metadata, thumb)) => {
                    self.at = Work::Done;
                    events.push(metadata);
                    events.push(thumb);
                    assert(events@ =~= hit_events(self.index, hit));
                },
                None => {},
            },
            None => {},
        }
        events
    }

    /// The summary was read; `None` where it could not be. That alone does
    /// not fail an image: the thumb is the essential asset.
    pub fn summary(&mut self, exif: Option<ExifSummary>) -> (events: Vec<SessionEvent>)
        requires
            old(self).at == Work::Exif,
        ensures
            *final(self) == (JobRun { at: Work::Thumb, exif, ..*old(self) }),
            events@ == exif_events(old(self).index, exif),
    {
        let mut events: Vec<SessionEvent> = Vec::new();
        match &exif {
            Some(e) => {
                events.push(
                    SessionEvent::MetadataReady {
                        index: self.index,
                        exif: e.clone(),
                        from_cache: false,
                    },
                );
            },
            None => {},
        }
        self.at = Work::Thumb;
        self.exif = exif;
        events
    }

    /// The thumb was made, or not: the event, and the summary that is cached
    /// beside a thumb. Where none was read it is an empty one — the
    /// zero-RAW-reads-on-reopen guarantee outranks metadata completeness.
    pub fn thumb(&mut self, thumb: Result<(Vec<u8>, u32, u32), String>) -> (r: (
        SessionEvent,
        Option<ExifSummary>,
    ))
        requires
            old(self).at == Work::Thumb,
        ensures
            *final(self) == (JobRun { at: Work::Done, exif: None, ..*old(self) }),
            r.0 == thumb_outcome(old(self).index, thumb),
            match r.1 {
                Some(cached) => thumb is Ok && match old(self).exif {
                    Some(read) => cached == read,
                    None => cached@ == crate::exif::empty_summary(),
                },
                None => thumb is Err,
            },
    {
        let exif = self.exif.take();
        self.at = Work::Done;
        let made: bool = thumb.is_ok();
        let event = pipeline::thumb_event(self.index, thumb);
        if made {
            (event, Some(pipeline::exif_for_cache(exif)))
        } else {
            (event, None)
        }
    }
}

/// Is this the word that a job ends with?
pub open spec fn is_verdict(e: SessionEvent) -> bool {
    e is ThumbReady || e is Failed
}

/// Whose event it is.
pub open spec fn event_index(e: SessionEvent) -> usize {
    match e {
        SessionEvent::MetadataReady { index, .. } => index,
        SessionEvent::ThumbReady { index, .. } => index,
        SessionEvent::Failed { index, .. } => index,
        SessionEvent::Sidecar { index, .. } => index,
    }
}

/// Every image gets exactly one verdict, and gets it last: its thumb, or one
/// failure. It fails exactly where the cache has no usable row and no thumb
/// can be made; a summary that cannot be read fails nothing. Its metadata
/// comes at most once, and before the verdict.
pub proof fn lemma_a_job_ends_in_one_verdict(
    index: usize,
    sidecar: Option<(PickState, IptcData)>,
    hit: Option<CachedPreview>,
    exif: Option<ExifSummary>,
    thumb: Result<(Vec<u8>, u32, u32), String>,
)
    ensures
        ({
            let events = job_events(index, sidecar, hit, exif, thumb);
            &&& events.len() > 0
            &&& forall|i: int| 0 <= i < events.len() ==> event_index(#[trigger] events[i]) == index
            &&& forall|i: int|
                0 <= i < events.len() ==> (is_verdict(#[trigger] events[i]) <==> i == events.len()
                    - 1)
            &&& events.last() is Failed <==> !usable(hit) && thumb is Err
            &&& forall|i: int, j: int|
                0 <= i < j < events.len() ==> !((#[trigger] events[i]) is MetadataReady && (
                #[trigger] events[j]) is MetadataReady)
        }),
{
    let events = job_events(index, sidecar, hit, exif, thumb);
    let front = sidecar_events(index, sidecar);
    let back = if usable(hit) {
        hit_events(index, hit->0)
    } else {
        exif_events(index, exif) + seq![thumb_outcome(index, thumb)]
    };
    assert(events =~= front + back);
    assert(front.len() <= 1 && 1 <= back.len() <= 2);
    assert forall|i: int| 0 <= i < events.len() implies events[i] == if i < front.len() {
        front[i]
    } else {
        back[i - front.len()]
    } by {}
}

/// A usable row of the cache is all that a job needs: what the file itself
/// would give changes nothing.
pub proof fn lemma_a_hit_reads_no_raw(
    index: usize,
    sidecar: Option<(PickState, IptcData)>,
    hit: Option<CachedPreview>,
    exif: Option<ExifSummary>,
    thumb: Result<(Vec<u8>, u32, u32), String>,
    other_exif: Option<ExifSummary>,
    other_thumb: Result<(Vec<u8>, u32, u32), String>,
)
    requires
        usable(hit),
    ensures
        job_events(index, sidecar, hit, exif, thumb) == job_events(
            index,
            sidecar,
            hit,
            other_exif,
            other_thumb,
        ),
{
}

/// What a job tells. The sidecar first, if there is one; of a usable row of
/// the cache its summary and its thumb, as coming from there; else the summary
/// that was read, if any, and then the thumb that was made, or why it was not.
pub proof fn lemma_what_a_job_tells(
    index: usize,
    sidecar: Option<(PickState, IptcData)>,
    hit: Option<CachedPreview>,
    exif: Option<ExifSummary>,
    thumb: Result<(Vec<u8>, u32, u32), String>,
)
    ensures
        ({
            let events = job_events(index, sidecar, hit, exif, thumb);
            let front = if sidecar is Some {
                1int
            } else {
                0
            };
            let told = usable(hit) || exif is Some;
            &&& hit is None ==> !usable(hit)
            &&& events.len() == front + 1 + if told {
                1int
            } else {
                0
            }
            &&& sidecar is Some ==> events[0] == (SessionEvent::Sidecar {
                index,
                pick: (sidecar->0).0,
                iptc: Box::new((sidecar->0).1),
            })
            &&& told ==> events[front] == (SessionEvent::MetadataReady {
                index,
                exif: if usable(hit) {
                    (hit->0).exif
                } else {
                    exif->0
                },
                from_cache: usable(hit),
            })
            &&& usable(hit) ==> events.last() == (SessionEvent::ThumbReady {
                index,
                thumb_jpeg: (hit->0).thumb_jpeg,
                width: (jpeg::sides_of((hit->0).thumb_jpeg@)->0).0 as u32,
                height: (jpeg::sides_of((hit->0).thumb_jpeg@)->0).1 as u32,
                from_cache: true,
            })
            &&& !usable(hit) && thumb is Ok ==> events.last() == (SessionEvent::ThumbReady {
                index,
                thumb_jpeg: (thumb->Ok_0).0,
                width: (thumb->Ok_0).1,
                height: (thumb->Ok_0).2,
                from_cache: false,
            })
            &&& !usable(hit) && thumb is Err ==> events.last() == (SessionEvent::Failed {
                index,
                reason: thumb->Err_0,
            })
        }),
{
}

} // verus!
