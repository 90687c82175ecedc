//! The narration job as a state machine: after each piece of work it says what
//! is reported and what is to be done next.
use crate::chars::CharClass;
use crate::model;
use crate::model::{Progress, ProgressView};
use crate::text;
use crate::text::{append_str, chars_of, string_of, swapped};
use vstd::prelude::*;

verus! {

/// Where a job stands. Chapters count from zero.
#[derive(Debug, Clone, Copy, PartialEq, Eq, Structural)]
pub enum JobState {
    Created,
    MakingFolder,
    Extracting,
    Writing,
    Probing,
    Polishing(usize),
    Warming,
    Checking(usize),
    Narrating(usize),
    LookingForCover,
    RenderingCover,
    Bundling,
    Finished,
    Failed,
}

/// What came of the last action.
#[derive(Debug, Clone, Copy)]
pub enum JobEvent {
    /// The work was done.
    Done,
    /// It was not.
    Failed,
    /// A question was answered.
    Answer(bool),
    /// The size of an audio file, if it is there.
    AudioSize(Option<u64>),
}

/// What is to be done next.
#[derive(Debug, Clone, Copy, PartialEq, Eq, Structural)]
pub enum JobAction {
    MakeFolder,
    Extract,
    WriteTranscripts,
    ProbeModel,
    Polish(usize),
    Warm,
    CheckAudio(usize),
    Synthesize(usize),
    LookForCover,
    RenderCover,
    Bundle,
    Finish,
    Fail,
}

/// A step of a job.
#[derive(Debug)]
pub struct JobStep {
    pub state: JobState,
    pub reports: Vec<Progress>,
    pub action: JobAction,
}

/// A step as plain values.
pub struct JobStepView {
    pub state: JobState,
    pub reports: Seq<ProgressView>,
    pub action: JobAction,
}

impl View for JobStep {
    type V = JobStepView;

    open spec fn view(&self) -> JobStepView {
        JobStepView {
            state: self.state,
            reports: model::reports(self.reports@),
            action: self.action,
        }
    }
}

/// The state speaks of a chapter that there is.
pub open spec fn valid(state: JobState, n: int) -> bool {
    match state {
        JobState::Polishing(i) => i < n,
        JobState::Checking(i) => i < n,
        JobState::Narrating(i) => i < n,
        _ => true,
    }
}

/// The event answers what the state waits for.
pub open spec fn fits(state: JobState, event: JobEvent) -> bool {
    match state {
        JobState::Probing => event is Answer,
        JobState::LookingForCover => event is Answer,
        JobState::Checking(_) => event is AudioSize,
        JobState::Finished => false,
        JobState::Failed => false,
        _ => event is Done || event is Failed,
    }
}

/// An audio file is left as it is if it is there, whatever its size.
pub open spec fn rendered(size: Option<u64>) -> bool {
    size is Some
}

pub open spec fn report(
    stage: Seq<char>,
    message: Seq<char>,
    current: u32,
    total: u32,
) -> ProgressView {
    ProgressView { stage, message, current: current as int, total: total as int }
}

/// The job turns to polishing the chapter at `i`, or goes on behind the last.
pub open spec fn to_polish(titles: Seq<Seq<char>>, i: usize) -> JobStepView {
    let n = titles.len();
    if i < n {
        JobStepView {
            state: JobState::Polishing(i),
            reports: seq![
                report(
                    "polish"@,
                    "Polishing transcript: "@ + titles[i as int],
                    i as u32,
                    n as u32,
                ),
            ],
            action: JobAction::Polish(i),
        }
    } else {
        let warm = to_warm();
        JobStepView {
            reports: seq![report("polish"@, "Transcripts polished"@, n as u32, n as u32)]
                + warm.reports,
            ..warm
        }
    }
}

/// The job waits for the voice.
pub open spec fn to_warm() -> JobStepView {
    JobStepView {
        state: JobState::Warming,
        reports: seq![report("tts"@, "Waiting for Kokoro sidecar…"@, 0, 1)],
        action: JobAction::Warm,
    }
}

/// The job turns to narrating the chapter at `i`, or goes on behind the last.
pub open spec fn to_narrate(titles: Seq<Seq<char>>, i: usize) -> JobStepView {
    let n = titles.len();
    if i < n {
        JobStepView {
            state: JobState::Checking(i),
            reports: seq![report("tts"@, "Narrating: "@ + titles[i as int], i as u32, n as u32)],
            action: JobAction::CheckAudio(i),
        }
    } else {
        JobStepView {
            state: JobState::LookingForCover,
            reports: seq![report("tts"@, "All chapters narrated"@, n as u32, n as u32)],
            action: JobAction::LookForCover,
        }
    }
}

/// The job bundles the audio.
pub open spec fn to_bundle() -> JobStepView {
    JobStepView {
        state: JobState::Bundling,
        reports: seq![report("bundle"@, "Bundling .m4b…"@, 0, 1)],
        action: JobAction::Bundle,
    }
}

/// The job goes on without a report.
pub open spec fn quietly(state: JobState, action: JobAction) -> JobStepView {
    JobStepView { state, reports: seq![], action }
}

/// The step of a job. Polishing and the cover may fail; any other failure ends
/// the job.
pub open spec fn next(
    titles: Seq<Seq<char>>,
    polish: bool,
    state: JobState,
    event: JobEvent,
) -> JobStepView {
    let n = titles.len();
    let failed = quietly(JobState::Failed, JobAction::Fail);
    match state {
        JobState::Polishing(i) => to_polish(titles, (i + 1) as usize),
        JobState::RenderingCover => to_bundle(),
        JobState::Probing => if event matches JobEvent::Answer(yes) && yes {
            to_polish(titles, 0)
        } else {
            to_warm()
        },
        JobState::Checking(i) => if event matches JobEvent::AudioSize(size) && rendered(size) {
            to_narrate(titles, (i + 1) as usize)
        } else {
            quietly(JobState::Narrating(i), JobAction::Synthesize(i))
        },
        JobState::LookingForCover => if event matches JobEvent::Answer(yes) && yes {
            to_bundle()
        } else {
            JobStepView {
                state: JobState::RenderingCover,
                reports: seq![report("bundle"@, "Rendering cover…"@, 0, 1)],
                action: JobAction::RenderCover,
            }
        },
        _ => if event is Failed {
            failed
        } else {
            match state {
                JobState::Created => quietly(JobState::MakingFolder, JobAction::MakeFolder),
                JobState::MakingFolder => JobStepView {
                    state: JobState::Extracting,
                    reports: seq![report("split"@, "Building transcripts…"@, 0, n as u32)],
                    action: JobAction::Extract,
                },
                JobState::Extracting => quietly(JobState::Writing, JobAction::WriteTranscripts),
                JobState::Writing => {
                    let ready = seq![
                        report("split"@, "Transcripts ready"@, n as u32, n as u32),
                    ];
                    if polish {
                        JobStepView {
                            state: JobState::Probing,
                            reports: ready,
                            action: JobAction::ProbeModel,
                        }
                    } else {
                        JobStepView { reports: ready + to_warm().reports, ..to_warm() }
                    }
                },
                JobState::Warming => to_narrate(titles, 0),
                JobState::Narrating(i) => to_narrate(titles, (i + 1) as usize),
                JobState::Bundling => JobStepView {
                    state: JobState::Finished,
                    reports: seq![report("done"@, "Audiobook ready"@, 1, 1)],
                    action: JobAction::Finish,
                },
                _ => failed,
            }
        },
    }
}

fn one_report(stage: &str, message: &str, current: u32, total: u32) -> (r: Vec<Progress>)
    ensures
        model::reports(r@) == seq![report(stage@, message@, current, total)],
{
    let mut out: Vec<Progress> = Vec::new();
    let p = Progress::new(stage, message, current, total);
    out.push(p);
    assert(model::reports(out@) =~= seq![p@]);
    out
}

fn no_report() -> (r: Vec<Progress>)
    ensures
        model::reports(r@) == Seq::<ProgressView>::empty(),
{
    let out: Vec<Progress> = Vec::new();
    assert(model::reports(out@) =~= seq![]);
    out
}

fn titled(before: &str, title: &String) -> (r: String)
    ensures
        r@ == before@ + title@,
{
    let mut out = chars_of(before);
    append_str(&mut out, title.as_str());
    string_of(out.as_slice())
}

fn warm_step(mut before: Vec<Progress>) -> (r: JobStep)
    ensures
        r@ == (JobStepView {
            reports: model::reports(before@) + to_warm().reports,
            ..to_warm()
        }),
{
    let p = Progress::new("tts", "Waiting for Kokoro sidecar…", 0, 1);
    let ghost old = before@;
    before.push(p);
    assert(model::reports(before@) =~= model::reports(old) + to_warm().reports);
    JobStep { state: JobState::Warming, reports: before, action: JobAction::Warm }
}

fn polish_step(titles: &Vec<String>, i: usize) -> (r: JobStep)
    ensures
        r@ == to_polish(text::texts(titles@), i),
{
    let n: usize = titles.len();
    assert(text::texts(titles@).len() == n);
    if i < n {
        let m = titled("Polishing transcript: ", &titles[i]);
        JobStep {
            state: JobState::Polishing(i),
            reports: one_report("polish", m.as_str(), i as u32, n as u32),
            action: JobAction::Polish(i),
        }
    } else {
        warm_step(one_report("polish", "Transcripts polished", n as u32, n as u32))
    }
}

fn narrate_step(titles: &Vec<String>, i: usize) -> (r: JobStep)
    ensures
        r@ == to_narrate(text::texts(titles@), i),
{
    let n: usize = titles.len();
    assert(text::texts(titles@).len() == n);
    if i < n {
        let m = titled("Narrating: ", &titles[i]);
        JobStep {
            state: JobState::Checking(i),
            reports: one_report("tts", m.as_str(), i as u32, n as u32),
            action: JobAction::CheckAudio(i),
        }
    } else {
        JobStep {
            state: JobState::LookingForCover,
            reports: one_report("tts", "All chapters narrated", n as u32, n as u32),
            action: JobAction::LookForCover,
        }
    }
}

fn bundle_step() -> (r: JobStep)
    ensures
        r@ == to_bundle(),
{
    JobStep {
        state: JobState::Bundling,
        reports: one_report("bundle", "Bundling .m4b…", 0, 1),
        action: JobAction::Bundle,
    }
}

fn quiet_step(state: JobState, action: JobAction) -> (r: JobStep)
    ensures
        r@ == quietly(state, action),
{
    JobStep { state, reports: no_report(), action }
}

/// Is an audio file of this size left as it is? One that is there was rendered
/// by an earlier run.
pub fn is_rendered(size: Option<u64>) -> (r: bool)
    ensures
        r == rendered(size),
{
    size.is_some()
}

/// Take the next step of a job with these chapters: what is reported, what is
/// done next, and where the job then stands.
pub fn job_step(
    titles: &Vec<String>,
    polish: bool,
    state: JobState,
    event: JobEvent,
) -> (r: JobStep)
    requires
        valid(state, titles@.len() as int),
        fits(state, event),
    ensures
        r@ == next(text::texts(titles@), polish, state, event),
        valid(r.state, titles@.len() as int),
{
    let n: usize = titles.len();
    assert(text::texts(titles@).len() == n);
    match (state, event) {
        (JobState::Polishing(i), _) => polish_step(titles, i + 1),
        (JobState::RenderingCover, _) => bundle_step(),
        (JobState::Probing, JobEvent::Answer(true)) => polish_step(titles, 0),
        (JobState::Probing, _) => {
            let step = warm_step(no_report());
            assert(Seq::<ProgressView>::empty() + to_warm().reports =~= to_warm().reports);
            step
        },
        (JobState::Checking(i), JobEvent::AudioSize(size)) => if is_rendered(size) {
            narrate_step(titles, i + 1)
        } else {
            quiet_step(JobState::Narrating(i), JobAction::Synthesize(i))
        },
        (JobState::LookingForCover, JobEvent::Answer(true)) => bundle_step(),
        (JobState::LookingForCover, _) => JobStep {
            state: JobState::RenderingCover,
            reports: one_report("bundle", "Rendering cover…", 0, 1),
            action: JobAction::RenderCover,
        },
        (_, JobEvent::Failed) => quiet_step(JobState::Failed, JobAction::Fail),
        (JobState::Created, _) => quiet_step(JobState::MakingFolder, JobAction::MakeFolder),
        (JobState::MakingFolder, _) => JobStep {
            state: JobState::Extracting,
            reports: one_report("split", "Building transcripts…", 0, n as u32),
            action: JobAction::Extract,
        },
        (JobState::Extracting, _) => quiet_step(JobState::Writing, JobAction::WriteTranscripts),
        (JobState::Writing, _) => {
            let ready = one_report("split", "Transcripts ready", n as u32, n as u32);
            if polish {
                JobStep { state: JobState::Probing, reports: ready, action: JobAction::ProbeModel }
            } else {
                warm_step(ready)
            }
        },
        (JobState::Warming, _) => narrate_step(titles, 0),
        (JobState::Narrating(i), _) => narrate_step(titles, i + 1),
        (JobState::Bundling, _) => JobStep {
            state: JobState::Finished,
            reports: one_report("done", "Audiobook ready", 1, 1),
            action: JobAction::Finish,
        },
        (_, _) => quiet_step(JobState::Failed, JobAction::Fail),
    }
}

/// The model that polishes when none is chosen.
pub fn polish_model_or_default(chosen: Option<String>) -> (r: String)
    ensures
        match chosen {
            Some(m) => r == m,
            None => r@ == "gemma4:e2b"@,
        },
{
    match chosen {
        Some(m) => m,
        None => "gemma4:e2b".to_owned(),
    }
}

/// The name of the finished file: the title, with its slashes as hyphens.
pub fn output_name(book_title: &str) -> (r: String)
    ensures
        r@ == text::swap(book_title@, CharClass::Slash, '-') + " (Audiobook).m4b"@,
{
    let mut out = swapped(chars_of(book_title).as_slice(), CharClass::Slash, '-');
    append_str(&mut out, " (Audiobook).m4b");
    string_of(out.as_slice())
}

// ---------- What a job promises ----------

/// How many steps a job can still take from a state.
pub open spec fn steps_left(state: JobState, n: int) -> int {
    match state {
        JobState::Created => 3 * n + 11,
        JobState::MakingFolder => 3 * n + 10,
        JobState::Extracting => 3 * n + 9,
        JobState::Writing => 3 * n + 8,
        JobState::Probing => 3 * n + 7,
        JobState::Polishing(i) => 2 * n + 6 + (n - i),
        JobState::Warming => 2 * n + 5,
        JobState::Checking(i) => 4 + 2 * (n - i),
        JobState::Narrating(i) => 3 + 2 * (n - i),
        JobState::LookingForCover => 3,
        JobState::RenderingCover => 2,
        JobState::Bundling => 1,
        JobState::Finished => 0,
        JobState::Failed => 0,
    }
}

/// Every job ends: each step leaves fewer steps to take.
pub proof fn job_ends(
    titles: Seq<Seq<char>>,
    polish: bool,
    state: JobState,
    event: JobEvent,
)
    requires
        valid(state, titles.len() as int),
        titles.len() <= usize::MAX,
        fits(state, event),
    ensures
        0 <= steps_left(next(titles, polish, state, event).state, titles.len() as int)
            < steps_left(state, titles.len() as int),
{
}

/// How many chapters have their audio in a state.
pub open spec fn narrated(state: JobState, n: int) -> int {
    match state {
        JobState::Checking(i) => i as int,
        JobState::Narrating(i) => i as int,
        JobState::LookingForCover => n,
        JobState::RenderingCover => n,
        JobState::Bundling => n,
        JobState::Finished => n,
        _ => 0,
    }
}

/// Nothing is bundled before every chapter has its audio: a step counts one
/// chapter more only where its audio was found or has just been made, and the
/// work of bundling starts with all of them counted.
pub proof fn bundling_comes_last(
    titles: Seq<Seq<char>>,
    polish: bool,
    state: JobState,
    event: JobEvent,
)
    requires
        valid(state, titles.len() as int),
        titles.len() <= usize::MAX,
        fits(state, event),
    ensures
        ({
            let n = titles.len() as int;
            let after = next(titles, polish, state, event);
            let more = narrated(after.state, n) > narrated(state, n);
            &&& more ==> narrated(after.state, n) == narrated(state, n) + 1 || state is Warming
            &&& more && !(state is Warming) ==> match state {
                JobState::Checking(_) => event matches JobEvent::AudioSize(size) && rendered(size),
                JobState::Narrating(_) => event is Done,
                _ => false,
            }
            &&& state is Warming && more ==> n == 0
            &&& after.action is Bundle ==> narrated(state, n) == n
            &&& after.action is Finish ==> state is Bundling && event is Done
        }),
{
}

/// A chapter whose audio is there is not narrated again.
pub proof fn rendered_chapters_are_kept(
    titles: Seq<Seq<char>>,
    polish: bool,
    i: usize,
    size: Option<u64>,
)
    requires
        i < titles.len(),
        titles.len() <= usize::MAX,
    ensures
        next(titles, polish, JobState::Checking(i), JobEvent::AudioSize(size)).action
            is Synthesize <==> !rendered(size),
{
}

/// A job that fails in polishing or in rendering the cover goes on.
pub proof fn extras_never_fail_a_job(titles: Seq<Seq<char>>, polish: bool, state: JobState)
    requires
        state is Polishing || state is RenderingCover,
    ensures
        next(titles, polish, state, JobEvent::Failed) == next(
            titles,
            polish,
            state,
            JobEvent::Done,
        ),
        !(next(titles, polish, state, JobEvent::Failed).state is Failed),
{
}

/// A cover that is there is never rendered anew.
pub proof fn existing_cover_is_kept(titles: Seq<Seq<char>>, polish: bool, there: bool)
    ensures
        next(titles, polish, JobState::LookingForCover, JobEvent::Answer(there)).action
            is RenderCover <==> !there,
{
}

/// Transcripts are polished only if that is wanted and the model answers.
pub proof fn polishing_is_optional(
    titles: Seq<Seq<char>>,
    polish: bool,
    state: JobState,
    event: JobEvent,
)
    requires
        valid(state, titles.len() as int),
        fits(state, event),
        next(titles, polish, state, event).action is Polish,
    ensures
        state is Polishing || (state is Probing && (event matches JobEvent::Answer(yes) && yes)),
{
}

/// The model is asked for only if polishing is wanted.
pub proof fn probing_is_wanted(
    titles: Seq<Seq<char>>,
    polish: bool,
    state: JobState,
    event: JobEvent,
)
    requires
        next(titles, polish, state, event).action is ProbeModel,
    ensures
        polish,
{
}

// ---------- The course of a job ----------

/// The chapters are narrated one after the other. One whose audio is missing is
/// narrated; with its audio there, or just made, the job goes on to the next
/// one, and behind the last one to the cover.
pub proof fn chapters_are_narrated_in_turn(
    titles: Seq<Seq<char>>,
    polish: bool,
    i: usize,
    size: u64,
)
    requires
        i < titles.len(),
        titles.len() <= usize::MAX,
    ensures
        ({
            let found = next(
                titles,
                polish,
                JobState::Checking(i),
                JobEvent::AudioSize(Some(size)),
            );
            let missing = next(titles, polish, JobState::Checking(i), JobEvent::AudioSize(None));
            let made = next(titles, polish, JobState::Narrating(i), JobEvent::Done);
            let warm = next(titles, polish, JobState::Warming, JobEvent::Done);
            &&& warm.action == JobAction::CheckAudio(0) && warm.state == JobState::Checking(0)
            &&& missing.action == JobAction::Synthesize(i) && missing.state == JobState::Narrating(
                i,
            )
            &&& found == made
            &&& i + 1 < titles.len() ==> made.action == JobAction::CheckAudio((i + 1) as usize)
                && made.state == JobState::Checking((i + 1) as usize)
            &&& i + 1 == titles.len() ==> made.action == JobAction::LookForCover && made.state
                == JobState::LookingForCover
        }),
{
}

/// The transcripts are polished one after the other, if the model answers, and
/// then the voice is waited for; if it does not answer, at once.
pub proof fn transcripts_are_polished_in_turn(
    titles: Seq<Seq<char>>,
    polish: bool,
    i: usize,
    event: JobEvent,
)
    requires
        i < titles.len(),
        titles.len() <= usize::MAX,
    ensures
        ({
            let yes = next(titles, polish, JobState::Probing, JobEvent::Answer(true));
            let no = next(titles, polish, JobState::Probing, JobEvent::Answer(false));
            let on = next(titles, polish, JobState::Polishing(i), event);
            &&& yes.action == JobAction::Polish(0) && yes.state == JobState::Polishing(0)
            &&& no.action == JobAction::Warm && no.state == JobState::Warming
            &&& i + 1 < titles.len() ==> on.action == JobAction::Polish((i + 1) as usize)
                && on.state == JobState::Polishing((i + 1) as usize)
            &&& i + 1 == titles.len() ==> on.action == JobAction::Warm && on.state
                == JobState::Warming
        }),
{
}

/// A job makes its folder, reads the pages, writes the transcripts, asks for the
/// model if polishing is wanted and else waits for the voice; at the end it
/// renders a cover if there is none, bundles, and is finished.
pub proof fn work_comes_in_order(titles: Seq<Seq<char>>, polish: bool, event: JobEvent)
    requires
        event is Done || event is Failed,
    ensures
        ({
            let made = next(titles, polish, JobState::Created, JobEvent::Done);
            let read = next(titles, polish, JobState::MakingFolder, JobEvent::Done);
            let written = next(titles, polish, JobState::Extracting, JobEvent::Done);
            let ready = next(titles, polish, JobState::Writing, JobEvent::Done);
            let bare = next(titles, polish, JobState::LookingForCover, JobEvent::Answer(false));
            let covered = next(titles, polish, JobState::LookingForCover, JobEvent::Answer(true));
            let drawn = next(titles, polish, JobState::RenderingCover, event);
            let done = next(titles, polish, JobState::Bundling, JobEvent::Done);
            &&& made.action == JobAction::MakeFolder && made.state == JobState::MakingFolder
            &&& read.action == JobAction::Extract && read.state == JobState::Extracting
            &&& written.action == JobAction::WriteTranscripts && written.state == JobState::Writing
            &&& polish ==> ready.action == JobAction::ProbeModel && ready.state == JobState::Probing
            &&& !polish ==> ready.action == JobAction::Warm && ready.state == JobState::Warming
            &&& bare.action == JobAction::RenderCover && bare.state == JobState::RenderingCover
            &&& covered.action == JobAction::Bundle && covered.state == JobState::Bundling
            &&& drawn.action == JobAction::Bundle && drawn.state == JobState::Bundling
            &&& done.action == JobAction::Finish && done.state == JobState::Finished
        }),
{
}

/// What a job cannot do without fails it: the folder, the pages, the transcripts,
/// the voice, the audio of a chapter, and the bundle. Nothing else does.
pub proof fn needed_work_fails_a_job(
    titles: Seq<Seq<char>>,
    polish: bool,
    state: JobState,
    event: JobEvent,
)
    requires
        valid(state, titles.len() as int),
        fits(state, event),
    ensures
        next(titles, polish, state, event).action is Fail <==> event is Failed && !(
        state is Polishing) && !(state is RenderingCover),
        next(titles, polish, state, event).state is Failed <==> next(
            titles,
            polish,
            state,
            event,
        ).action is Fail,
{
}

/// Whoever follows a job is told which chapter is being narrated or polished, by
/// its title and its place among all.
pub proof fn reports_name_the_chapter(
    titles: Seq<Seq<char>>,
    polish: bool,
    state: JobState,
    event: JobEvent,
)
    requires
        valid(state, titles.len() as int),
        fits(state, event),
        titles.len() <= u32::MAX,
    ensures
        ({
            let step = next(titles, polish, state, event);
            let n = titles.len();
            &&& step.action matches JobAction::CheckAudio(k) ==> k < n && step.reports.last()
                == (ProgressView {
                stage: "tts"@,
                message: "Narrating: "@ + titles[k as int],
                current: k as int,
                total: n as int,
            })
            &&& step.action matches JobAction::Polish(k) ==> k < n && step.reports.last() == (
            ProgressView {
                stage: "polish"@,
                message: "Polishing transcript: "@ + titles[k as int],
                current: k as int,
                total: n as int,
            })
            &&& forall|j: int|
                0 <= j < step.reports.len() ==> 0 <= (#[trigger] step.reports[j]).current
                    <= step.reports[j].total
            &&& step.action is Finish ==> step.reports.last().stage == "done"@
        }),
{
}

/// The name of the finished file is the title, and only slashes differ.
pub proof fn output_is_named_after_the_book(title: Seq<char>)
    requires
        !title.contains('/'),
    ensures
        text::swap(title, CharClass::Slash, '-') == title,
{
    assert forall|i: int| 0 <= i < title.len() implies text::swap(title, CharClass::Slash, '-')[i]
        == title[i] by {
        assert(title.contains(title[i]));
    }
    assert(text::swap(title, CharClass::Slash, '-') =~= title);
}

} // verus!
