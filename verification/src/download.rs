//! The course of a download: an archive is requested, received and unpacked.
//! The state holds how far it has come; each event gives the next state and
//! what is to be done.

use vstd::prelude::*;
use vstd::string::*;

use crate::text::text_view;

verus! {

/// What is told of a download while it goes on. The status is one of
/// `downloading`, `extracting`, `completed` and `error`.
#[derive(Clone)]
pub struct DownloadProgress {
    pub version: String,
    pub status: String,
    pub percent: u32,
    pub error: Option<String>,
}

/// What a [`DownloadProgress`] holds.
pub struct ProgressView {
    pub version: Seq<char>,
    pub status: Seq<char>,
    pub percent: u32,
    pub error: Option<Seq<char>>,
}

impl View for DownloadProgress {
    type V = ProgressView;

    open spec fn view(&self) -> ProgressView {
        ProgressView {
            version: self.version@,
            status: self.status@,
            percent: self.percent,
            error: text_view(self.error),
        }
    }
}

/// How far a download has come.
#[derive(Clone, Copy)]
pub enum Phase {
    /// The archive is being looked for.
    Resolving,
    /// The archive has been requested.
    Requested,
    /// The archive is being received: `received` of `total` bytes are there,
    /// and `percent` was told last. The total is 0 where it is not known.
    Receiving { total: u64, received: u64, percent: u32 },
    /// The archive is being unpacked.
    Extracting,
    /// The download is over.
    Ended,
}

/// What happens to a download.
pub enum Event {
    /// No archive was found.
    Unresolved(String),
    /// The archive was found, and is requested.
    Resolved,
    /// The request could not be sent.
    NotSent(String),
    /// The server answers with a status that is no success.
    Refused(String),
    /// The server answers, and may say how many bytes follow.
    Answered(Option<u64>),
    /// There is no place to put the archive.
    NoPlace(String),
    /// So many bytes have been received and written.
    Chunk(u64),
    /// The archive could not be created, received or written.
    Broken(String),
    /// All bytes are there.
    Received,
    /// It is not known how the unpacking went.
    Lost(String),
    /// The archive could not be unpacked.
    NotExtracted(String),
    /// The archive is unpacked.
    Extracted,
}

/// Whether an HTTP status says that a request has succeeded.
pub open spec fn success(status: u16) -> bool {
    200 <= status < 300
}

/// Whether an HTTP status says that a request has succeeded.
pub fn is_success(status: u16) -> (r: bool)
    ensures
        r == success(status),
{
    200 <= status && status < 300
}

/// What has happened when the server answers with `status`, which reads
/// `status_text`, and says that `length` bytes follow, if it does.
pub fn answer_event(status: u16, status_text: String, length: Option<u64>) -> (r: Event)
    ensures
        r == if success(status) {
            Event::Answered(length)
        } else {
            Event::Refused(status_text)
        },
{
    if is_success(status) {
        Event::Answered(length)
    } else {
        Event::Refused(status_text)
    }
}

/// What is to be done after an event: remove the archive, remove the target
/// directory, tell of the progress, and where `result` is there return it.
pub struct Step {
    pub remove_archive: bool,
    pub remove_target: bool,
    pub progress: Option<DownloadProgress>,
    pub result: Option<Result<(), String>>,
}

/// What a [`Step`] holds.
pub struct StepView {
    pub remove_archive: bool,
    pub remove_target: bool,
    pub progress: Option<ProgressView>,
    pub result: Option<Result<(), Seq<char>>>,
}

impl View for Step {
    type V = StepView;

    open spec fn view(&self) -> StepView {
        StepView {
            remove_archive: self.remove_archive,
            remove_target: self.remove_target,
            progress: match self.progress {
                Some(p) => Some(p@),
                None => None,
            },
            result: match self.result {
                Some(Ok(_)) => Some(Ok(())),
                Some(Err(e)) => Some(Err(e@)),
                None => None,
            },
        }
    }
}

/// How many percent `received` is of `total`, in whole numbers; of a number
/// that does not fit the lowest 32 bits. 0 where the total is not known.
pub open spec fn percent_of(received: u64, total: u64) -> u32 {
    if total == 0 {
        0
    } else {
        ((received as int * 100 / total as int) % 0x1_0000_0000) as u32
    }
}

/// How many bytes can be counted: a hundred times as many must fit where a
/// percentage is told.
pub open spec fn most_bytes(total: u64) -> int {
    if total > 0 {
        u64::MAX as int / 100
    } else {
        u64::MAX as int
    }
}

/// Whether the event can happen in the phase.
pub open spec fn can_happen(phase: Phase, event: Event) -> bool {
    match event {
        Event::Unresolved(_) | Event::Resolved => phase is Resolving,
        Event::NotSent(_) | Event::Refused(_) | Event::Answered(_) => phase is Requested,
        Event::NoPlace(_) | Event::Broken(_) | Event::Received => phase is Receiving,
        Event::Chunk(n) => phase matches Phase::Receiving { total, received, .. } && received + n
            <= most_bytes(total),
        Event::Lost(_) | Event::NotExtracted(_) | Event::Extracted => phase is Extracting,
    }
}

/// The phase after an event.
pub open spec fn next_phase(phase: Phase, event: Event) -> Phase {
    match event {
        Event::Resolved => Phase::Requested,
        Event::Answered(length) => Phase::Receiving {
            total: match length {
                Some(n) => n,
                None => 0,
            },
            received: 0,
            percent: 0,
        },
        Event::Chunk(n) => match phase {
            Phase::Receiving { total, received, .. } => Phase::Receiving {
                total,
                received: (received + n) as u64,
                percent: percent_of((received + n) as u64, total),
            },
            _ => phase,
        },
        Event::Received => Phase::Extracting,
        _ => Phase::Ended,
    }
}

/// Progress of the download `label` with no error.
pub open spec fn told(label: Seq<char>, status: Seq<char>, percent: u32) -> Option<ProgressView> {
    Some(ProgressView { version: label, status, percent, error: None })
}

/// A step that goes on, and tells `progress`.
pub open spec fn going_on(progress: Option<ProgressView>) -> StepView {
    StepView { remove_archive: false, remove_target: false, progress, result: None }
}

/// A step that ends the download with an error and says nothing.
pub open spec fn failed_silently(error: Seq<char>) -> StepView {
    StepView {
        remove_archive: false,
        remove_target: false,
        progress: None,
        result: Some(Err(error)),
    }
}

/// A step that ends the download with an error, tells of it, and cleans up.
pub open spec fn failed(
    label: Seq<char>,
    error: Seq<char>,
    remove_archive: bool,
    remove_target: bool,
) -> StepView {
    StepView {
        remove_archive,
        remove_target,
        progress: Some(
            ProgressView { version: label, status: "error"@, percent: 0, error: Some(error) },
        ),
        result: Some(Err(error)),
    }
}

/// What is to be done after an event.
pub open spec fn next_step(label: Seq<char>, phase: Phase, event: Event) -> StepView {
    match event {
        Event::Unresolved(e) => failed(label, e@, false, false),
        Event::Resolved => going_on(told(label, "downloading"@, 0)),
        Event::NotSent(e) => failed_silently(e@),
        Event::Refused(status) => failed(label, "下载失败: HTTP "@ + status@, false, false),
        Event::Answered(_) => going_on(None),
        Event::NoPlace(e) => failed_silently(e@),
        Event::Chunk(n) => match phase {
            Phase::Receiving { total, received, percent } => {
                let now = percent_of((received + n) as u64, total);
                going_on(
                    if total > 0 && now != percent {
                        told(label, "downloading"@, now)
                    } else {
                        None
                    },
                )
            },
            _ => going_on(None),
        },
        Event::Broken(e) => failed(label, e@, true, false),
        Event::Received => going_on(told(label, "extracting"@, 100)),
        Event::Lost(e) => failed_silently(e@),
        Event::NotExtracted(e) => failed(label, e@, true, true),
        Event::Extracted => StepView {
            remove_archive: true,
            remove_target: false,
            progress: told(label, "completed"@, 100),
            result: Some(Ok(())),
        },
    }
}

/// A download under way.
pub struct Download {
    pub label: String,
    pub phase: Phase,
}

impl Download {
    /// Whether what was told last is how far the download has come.
    pub open spec fn well_formed(self) -> bool {
        match self.phase {
            Phase::Receiving { total, received, percent } => received <= most_bytes(total)
                && percent == percent_of(received, total),
            _ => true,
        }
    }

    /// Begins the download `label` in the phase `phase`, and gives what is
    /// told first.
    fn in_phase(label: &str, phase: Phase) -> (r: (Download, DownloadProgress))
        ensures
            r.0.label@ == label@,
            r.0.phase == phase,
            Some(r.1@) == told(label@, "downloading"@, 0),
    {
        let progress = DownloadProgress {
            version: label.to_string(),
            status: "downloading".to_string(),
            percent: 0,
            error: None,
        };
        (Download { label: label.to_string(), phase }, progress)
    }

    /// Begins the download `label` with the request for the archive, and
    /// gives what is told first.
    pub fn begin(label: &str) -> (r: (Download, DownloadProgress))
        ensures
            r.0.well_formed(),
            r.0.label@ == label@,
            r.0.phase == Phase::Requested,
            Some(r.1@) == told(label@, "downloading"@, 0),
    {
        Self::in_phase(label, Phase::Requested)
    }

    /// Begins the download `label` with the search for the archive, and gives
    /// what is told first.
    pub fn begin_search(label: &str) -> (r: (Download, DownloadProgress))
        ensures
            r.0.well_formed(),
            r.0.label@ == label@,
            r.0.phase == Phase::Resolving,
            Some(r.1@) == told(label@, "downloading"@, 0),
    {
        Self::in_phase(label, Phase::Resolving)
    }

    /// Whether `n` more bytes can be counted.
    pub fn can_count(&self, n: u64) -> (r: bool)
        ensures
            r == can_happen(self.phase, Event::Chunk(n)),
    {
        match self.phase {
            Phase::Receiving { total, received, .. } => {
                let most: u64 = if total > 0 {
                    u64::MAX / 100
                } else {
                    u64::MAX
                };
                received <= most && n <= most - received
            },
            _ => false,
        }
    }

    fn progress(&self, status: &str, percent: u32) -> (r: Option<DownloadProgress>)
        ensures
            r is Some,
            Some(r->0@) == told(self.label@, status@, percent),
    {
        Some(
            DownloadProgress {
                version: self.label.clone(),
                status: status.to_string(),
                percent,
                error: None,
            },
        )
    }

    fn fail(&self, error: String, remove_archive: bool, remove_target: bool) -> (r: Step)
        ensures
            r@ == failed(self.label@, error@, remove_archive, remove_target),
    {
        let progress = DownloadProgress {
            version: self.label.clone(),
            status: "error".to_string(),
            percent: 0,
            error: Some(error.clone()),
        };
        Step {
            remove_archive,
            remove_target,
            progress: Some(progress),
            result: Some(Err(error)),
        }
    }

    /// Takes note of an event, and says what is to be done.
    pub fn advance(&mut self, event: Event) -> (r: Step)
        requires
            old(self).well_formed(),
            can_happen(old(self).phase, event),
        ensures
            final(self).well_formed(),
            final(self).label == old(self).label,
            final(self).phase == next_phase(old(self).phase, event),
            r@ == next_step(old(self).label@, old(self).phase, event),
    {
        match event {
            Event::Unresolved(e) => {
                self.phase = Phase::Ended;
                self.fail(e, false, false)
            },
            Event::Resolved => {
                self.phase = Phase::Requested;
                let progress = self.progress("downloading", 0);
                Step { remove_archive: false, remove_target: false, progress, result: None }
            },
            Event::NotSent(e) | Event::NoPlace(e) | Event::Lost(e) => {
                self.phase = Phase::Ended;
                Step {
                    remove_archive: false,
                    remove_target: false,
                    progress: None,
                    result: Some(Err(e)),
                }
            },
            Event::Refused(status) => {
                self.phase = Phase::Ended;
                self.fail("下载失败: HTTP ".to_string().concat(status.as_str()), false, false)
            },
            Event::Answered(length) => {
                let total: u64 = match length {
                    Some(n) => n,
                    None => 0,
                };
                assert(total > 0 ==> 0int / (total as int) == 0) by (nonlinear_arith);
                self.phase = Phase::Receiving { total, received: 0, percent: 0 };
                Step { remove_archive: false, remove_target: false, progress: None, result: None }
            },
            Event::Chunk(n) => {
                let mut progress: Option<DownloadProgress> = None;
                match self.phase {
                    Phase::Receiving { total, received, percent } => {
                        let received: u64 = received + n;
                        let mut now: u32 = percent;
                        if total > 0 {
                            now = ((received * 100 / total) % 0x1_0000_0000) as u32;
                            if now != percent {
                                progress = self.progress("downloading", now);
                            }
                        }
                        self.phase = Phase::Receiving { total, received, percent: now };
                    },
                    _ => {},
                }
                Step { remove_archive: false, remove_target: false, progress, result: None }
            },
            Event::Broken(e) => {
                self.phase = Phase::Ended;
                self.fail(e, true, false)
            },
            Event::Received => {
                self.phase = Phase::Extracting;
                let progress = self.progress("extracting", 100);
                Step { remove_archive: false, remove_target: false, progress, result: None }
            },
            Event::NotExtracted(e) => {
                self.phase = Phase::Ended;
                self.fail(e, true, true)
            },
            Event::Extracted => {
                self.phase = Phase::Ended;
                let progress = self.progress("completed", 100);
                Step { remove_archive: true, remove_target: false, progress, result: Some(Ok(())) }
            },
        }
    }
}

/// The name of the file that holds the archive of `label` meanwhile.
pub fn archive_file_name(label: &str) -> (r: String)
    ensures
        r@ == "chrome-"@ + label@ + ".zip"@,
{
    "chrome-".to_string().concat(label).concat(".zip")
}

/// As long as no more bytes arrive than were announced, the percentage is at
/// most 100 and does not go down, and it is 100 when all bytes are there.
pub proof fn law_percent_grows(a: u64, b: u64, total: u64)
    requires
        0 < total,
        a <= b <= total,
    ensures
        percent_of(a, total) <= percent_of(b, total) <= 100,
        percent_of(total, total) == 100,
{
    let t = total as int;
    let pa = a as int * 100 / t;
    let pb = b as int * 100 / t;
    assert(0 <= pa <= pb <= 100) by (nonlinear_arith)
        requires
            0 < t,
            0 <= a <= b <= t,
            pa == a as int * 100 / t,
            pb == b as int * 100 / t,
    ;
    assert(t * 100 / t == 100) by (nonlinear_arith)
        requires
            0 < t,
    ;
}

/// The percentage is how much of the archive is there, in hundredths of any
/// total, rounded down.
pub proof fn law_percent_is_the_share(received: u64, total: u64)
    requires
        0 < total,
        received <= total,
    ensures
        percent_of(received, total) * total <= received * 100,
        received * 100 < (percent_of(received, total) + 1) * total,
{
    let r = received as int;
    let t = total as int;
    let p = r * 100 / t;
    assert(0 <= p <= 100 && p * t <= r * 100 && r * 100 < (p + 1) * t) by (nonlinear_arith)
        requires
            0 < t,
            0 <= r <= t,
            p == r * 100 / t,
    ;
}

/// While the archive is received every byte is counted, and the percentage
/// that was told last is that of the bytes received: it is told when it has
/// changed and the total is known, and nothing else is told or done.
pub proof fn law_chunks_are_counted(
    label: Seq<char>,
    total: u64,
    received: u64,
    percent: u32,
    n: u64,
)
    requires
        can_happen(Phase::Receiving { total, received, percent }, Event::Chunk(n)),
        received + n <= total || total == 0,
    ensures
        ({
            let phase = Phase::Receiving { total, received, percent };
            let after = next_phase(phase, Event::Chunk(n));
            let step = next_step(label, phase, Event::Chunk(n));
            &&& after is Receiving
            &&& after->total == total
            &&& after->received == received + n
            &&& total == 0 ==> after->percent == 0
            &&& total > 0 ==> after->percent * total <= (received + n) * 100
            &&& total > 0 ==> (received + n) * 100 < (after->percent + 1) * total
            &&& step.progress is Some <==> total > 0 && after->percent != percent
            &&& step.progress matches Some(p) ==> p.version == label && p.status
                == "downloading"@ && p.percent == after->percent && p.error is None
            &&& step.result is None
            &&& !step.remove_archive && !step.remove_target
        }),
{
    if total > 0 {
        law_percent_is_the_share((received + n) as u64, total);
    }
}

/// The course of a download: found, answered, received, unpacked. It goes on
/// with each of these and succeeds with the last; the number of bytes that
/// was announced is the total.
pub proof fn law_course_of_success(label: Seq<char>, phase: Phase, length: Option<u64>)
    ensures
        next_phase(phase, Event::Resolved) is Requested,
        next_phase(phase, Event::Answered(length)) == (Phase::Receiving {
            total: if length is Some {
                length->0
            } else {
                0
            },
            received: 0,
            percent: 0,
        }),
        next_phase(phase, Event::Received) is Extracting,
        next_phase(phase, Event::Extracted) is Ended,
        next_step(label, phase, Event::Resolved).progress == Some(
            ProgressView {
                version: label,
                status: "downloading"@,
                percent: 0,
                error: None,
            },
        ),
        next_step(label, phase, Event::Resolved).result is None,
        next_step(label, phase, Event::Answered(length)).progress is None,
        next_step(label, phase, Event::Answered(length)).result is None,
        next_step(label, phase, Event::Received).progress == Some(
            ProgressView {
                version: label,
                status: "extracting"@,
                percent: 100,
                error: None,
            },
        ),
        next_step(label, phase, Event::Received).result is None,
        next_step(label, phase, Event::Extracted).progress == Some(
            ProgressView {
                version: label,
                status: "completed"@,
                percent: 100,
                error: None,
            },
        ),
        next_step(label, phase, Event::Extracted).result == Some(Ok::<(), Seq<char>>(())),
{
}

/// The cause of a failure, whatever its text, is returned as it is, and where
/// the failure is told it is told with the same text; a refusal is returned
/// and told with its status.
pub proof fn law_causes_are_returned(label: Seq<char>, phase: Phase, e: String)
    ensures
        forall|event: Event|
            (event == Event::NotSent(e) || event == Event::NoPlace(e) || event == Event::Lost(e))
                ==> (#[trigger] next_step(label, phase, event)).result == Some(
                Err::<(), Seq<char>>(e@),
            ) && next_step(label, phase, event).progress is None && next_phase(
                phase,
                event,
            ) is Ended,
        forall|event: Event|
            (event == Event::Unresolved(e) || event == Event::Broken(e) || event
                == Event::NotExtracted(e)) ==> (#[trigger] next_step(label, phase, event)).result
                == Some(Err::<(), Seq<char>>(e@)) && next_step(label, phase, event).progress
                == Some(
                ProgressView { version: label, status: "error"@, percent: 0, error: Some(e@) },
            ) && next_phase(phase, event) is Ended,
        next_step(label, phase, Event::Refused(e)).result == Some(
            Err::<(), Seq<char>>("下载失败: HTTP "@ + e@),
        ),
        next_step(label, phase, Event::Refused(e)).progress == Some(
            ProgressView {
                version: label,
                status: "error"@,
                percent: 0,
                error: Some("下载失败: HTTP "@ + e@),
            },
        ),
{
}

/// Every event can happen in its phase: the answers to a request while it is
/// waited for, what becomes of the transfer while it goes on, what becomes of
/// the unpacking while it goes on, and any number of bytes that can still be
/// counted.
pub proof fn law_what_can_happen(
    total: u64,
    received: u64,
    percent: u32,
    n: u64,
    e: String,
    length: Option<u64>,
)
    ensures
        can_happen(Phase::Resolving, Event::Resolved),
        can_happen(Phase::Resolving, Event::Unresolved(e)),
        can_happen(Phase::Requested, Event::NotSent(e)),
        can_happen(Phase::Requested, Event::Refused(e)),
        can_happen(Phase::Requested, Event::Answered(length)),
        can_happen(Phase::Receiving { total, received, percent }, Event::NoPlace(e)),
        can_happen(Phase::Receiving { total, received, percent }, Event::Broken(e)),
        can_happen(Phase::Receiving { total, received, percent }, Event::Received),
        received * 100 + n * 100 <= u64::MAX ==> can_happen(
            Phase::Receiving { total, received, percent },
            Event::Chunk(n),
        ),
        received + n <= u64::MAX ==> can_happen(
            Phase::Receiving { total: 0, received, percent },
            Event::Chunk(n),
        ),
        can_happen(Phase::Extracting, Event::Lost(e)),
        can_happen(Phase::Extracting, Event::NotExtracted(e)),
        can_happen(Phase::Extracting, Event::Extracted),
{
}

/// A download is over exactly when there is a result to return. What is told
/// has one of four statuses; an error is told with its text and no percents;
/// and `completed` is told exactly when the result is success.
pub proof fn law_step_shape(label: Seq<char>, phase: Phase, event: Event)
    requires
        can_happen(phase, event),
    ensures
        next_phase(phase, event) is Ended <==> next_step(label, phase, event).result is Some,
        next_step(label, phase, event).progress matches Some(p) ==> {
            &&& p.version == label
            &&& p.status == "downloading"@ || p.status == "extracting"@ || p.status == "completed"@
                || p.status == "error"@
            &&& p.error is Some <==> p.status == "error"@
            &&& p.error matches Some(e) ==> p.percent == 0 && next_step(label, phase, event).result
                == Some(Err::<(), Seq<char>>(e))
            &&& p.status == "completed"@ <==> next_step(label, phase, event).result == Some(
                Ok::<(), Seq<char>>(()),
            )
        },
        next_step(label, phase, event).result == Some(Ok::<(), Seq<char>>(())) ==> next_step(
            label,
            phase,
            event,
        ).progress is Some,
{
    reveal_strlit("downloading");
    reveal_strlit("extracting");
    reveal_strlit("completed");
    reveal_strlit("error");
    assert("downloading"@.len() == 11);
    assert("extracting"@.len() == 10);
    assert("completed"@.len() == 9);
    assert("error"@.len() == 5);
}

/// An archive that could not be unpacked leaves nothing behind: neither the
/// archive nor a half-filled directory. The target directory is removed in no
/// other case, and the archive never stays once the download has failed while
/// it was received, or has been unpacked.
pub proof fn law_cleans_up(label: Seq<char>, phase: Phase, event: Event)
    requires
        can_happen(phase, event),
    ensures
        next_step(label, phase, event).remove_target <==> event is NotExtracted,
        next_step(label, phase, event).remove_archive <==> event is NotExtracted || event is Broken
            || event is Extracted,
{
}

/// The statuses from 200 to 299 are those of success.
pub proof fn law_statuses_of_success(status: u16)
    ensures
        success(status) <==> 199 < status && status <= 299,
{
}

/// What is told and what is to be done is seen as it is: each text to the
/// letter, and a result or an error exactly where there is one.
pub proof fn law_steps_are_seen_as_they_are(progress: DownloadProgress, step: Step)
    ensures
        progress@.version == progress.version@,
        progress@.status == progress.status@,
        progress@.percent == progress.percent,
        progress.error matches Some(e) ==> progress@.error == Some(e@),
        progress.error is None ==> progress@.error is None,
        step@.remove_archive == step.remove_archive,
        step@.remove_target == step.remove_target,
        step.progress matches Some(p) ==> step@.progress == Some(p@),
        step.progress is None ==> step@.progress is None,
        step.result matches Some(Err(e)) ==> step@.result == Some(Err::<(), Seq<char>>(e@)),
        step.result matches Some(Ok(_)) ==> step@.result == Some(Ok::<(), Seq<char>>(())),
        step.result is None ==> step@.result is None,
{
}

} // verus!
