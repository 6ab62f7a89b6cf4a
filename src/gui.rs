use vstd::prelude::*;
use crate::archive::EntryInfo;
use crate::error::{PakError, PakResult, is_invalid};
use crate::form::BuildForm;
use crate::path::{opt_view, strings_view};
use crate::text::{append_chars, decimal, decimal_of, string_of};

verus! {

broadcast use vstd::string::group_string_axioms;

/// The most log lines kept.
pub const MAX_LOGS: usize = 5000;

/// The tabs of the windowed front end.
#[derive(Debug, Clone, Copy, PartialEq, Eq, Structural)]
pub enum Tab {
    Build,
    List,
    Extract,
    Verify,
}

impl Default for Tab {
    fn default() -> (r: Tab)
        ensures
            r == Tab::Build,
    {
        Tab::Build
    }
}

/// A message from a background job to the front end.
#[derive(Debug)]
pub enum JobMsg {
    Log(String),
    Progress { stage: String, done: u64, total: u64, item: Option<String> },
    Done(Result<(), String>),
    ListDone(Result<Vec<EntryInfo>, String>),
    VerifyDone(Result<(), String>),
}

/// State of the windowed front end, apart from the channel of the running job.
pub struct NePakApp {
    pub tab: Tab,
    pub build: BuildForm,
    pub list_pak: String,
    pub extract_pak: String,
    pub extract_out: String,
    pub extract_filter_csv: String,
    pub verify_pak: String,
    pub entries: Vec<EntryInfo>,
    pub entries_err: Option<String>,
    pub logs: Vec<String>,
    pub status: String,
    pub busy: bool,
    pub progress_stage: String,
    pub progress_done: u64,
    pub progress_total: u64,
    pub progress_item: String,
}

/// The part of the front end's state that job messages change.
pub ghost struct AppView {
    pub logs: Seq<Seq<char>>,
    pub status: Seq<char>,
    pub busy: bool,
    pub stage: Seq<char>,
    pub done: u64,
    pub total: u64,
    pub item: Seq<char>,
    pub entries: Seq<EntryInfo>,
    pub entries_err: Option<Seq<char>>,
}

impl View for NePakApp {
    type V = AppView;

    open spec fn view(&self) -> AppView {
        AppView {
            logs: strings_view(self.logs@),
            status: self.status@,
            busy: self.busy,
            stage: self.progress_stage@,
            done: self.progress_done,
            total: self.progress_total,
            item: self.progress_item@,
            entries: self.entries@,
            entries_err: opt_view(self.entries_err),
        }
    }
}

/// The fields that job messages leave alone are equal.
pub open spec fn same_settings(a: NePakApp, b: NePakApp) -> bool {
    &&& a.tab == b.tab
    &&& a.build == b.build
    &&& a.list_pak == b.list_pak
    &&& a.extract_pak == b.extract_pak
    &&& a.extract_out == b.extract_out
    &&& a.extract_filter_csv == b.extract_filter_csv
    &&& a.verify_pak == b.verify_pak
}

/// `logs` with `s` appended, keeping the newest `MAX_LOGS` lines.
pub open spec fn logged(logs: Seq<Seq<char>>, s: Seq<char>) -> Seq<Seq<char>> {
    let l = logs.push(s);
    if l.len() > MAX_LOGS {
        l.skip(l.len() - MAX_LOGS)
    } else {
        l
    }
}

/// The state after a job ends with `status`: idle, progress cleared, status logged.
pub open spec fn finished(v: AppView, status: Seq<char>) -> AppView {
    AppView {
        busy: false,
        stage: Seq::empty(),
        done: 0,
        total: 0,
        item: Seq::empty(),
        status,
        logs: logged(v.logs, status),
        ..v
    }
}

/// The status line for an ending job.
pub open spec fn outcome(r: Result<(), String>, ok: Seq<char>) -> Seq<char> {
    match r {
        Ok(_) => ok,
        Err(e) => "Error: "@ + e@,
    }
}

/// Whether a message ends its job.
pub open spec fn ends_job(m: JobMsg) -> bool {
    !(m is Log || m is Progress)
}

/// The state after one message.
pub open spec fn after_msg(v: AppView, m: JobMsg) -> AppView {
    match m {
        JobMsg::Log(s) => AppView { logs: logged(v.logs, s@), ..v },
        JobMsg::Progress { stage, done, total, item } => AppView {
            stage: stage@,
            done,
            total,
            item: match item {
                Some(i) => i@,
                None => Seq::empty(),
            },
            ..v
        },
        JobMsg::Done(r) => finished(v, outcome(r, "Done."@)),
        JobMsg::ListDone(r) => match r {
            Ok(list) => finished(
                AppView { entries: list@, entries_err: None, ..v },
                "Loaded "@ + decimal_of(list@.len()) + " entries."@,
            ),
            Err(e) => finished(
                AppView { entries: Seq::empty(), entries_err: Some(e@), ..v },
                "Error: "@ + e@,
            ),
        },
        JobMsg::VerifyDone(r) => finished(v, outcome(r, "Pak verified OK."@)),
    }
}

/// The state after the messages up to and including the first that ends the
/// job, and whether one did.
pub open spec fn after_msgs(v: AppView, msgs: Seq<JobMsg>) -> (AppView, bool)
    decreases msgs.len(),
{
    if msgs.len() == 0 {
        (v, false)
    } else if ends_job(msgs[0]) {
        (after_msg(v, msgs[0]), true)
    } else {
        after_msgs(after_msg(v, msgs[0]), msgs.drop_first())
    }
}

fn error_status(e: &String) -> (r: String)
    ensures
        r@ == "Error: "@ + e@,
{
    String::from_str("Error: ").concat(e.as_str())
}

impl NePakApp {
    /// Appends a line to the log, dropping the oldest beyond `MAX_LOGS`.
    pub fn push_log(&mut self, s: String)
        ensures
            final(self)@ == (AppView { logs: logged(old(self)@.logs, s@), ..old(self)@ }),
            same_settings(*final(self), *old(self)),
    {
        self.logs.push(s);
        let ghost l = strings_view(old(self).logs@).push(s@);
        proof {
            assert(strings_view(self.logs@) =~= l);
        }
        if self.logs.len() > MAX_LOGS {
            let extra = self.logs.len() - MAX_LOGS;
            let mut k: usize = 0;
            while k < extra
                invariant
                    k <= extra,
                    extra == l.len() - MAX_LOGS,
                    self.logs@.len() == l.len() - k,
                    strings_view(self.logs@) == l.skip(k as int),
                    self@ == (AppView { logs: strings_view(self.logs@), ..old(self)@ }),
                    same_settings(*self, *old(self)),
                decreases extra - k,
            {
                let ghost before = self.logs@;
                self.logs.remove(0);
                k += 1;
                assert(self.logs@ =~= before.subrange(1, before.len() as int));
                assert forall|i: int| 0 <= i < self.logs@.len() implies strings_view(self.logs@)[i] == l.skip(k as int)[i] by {
                    assert(self.logs@[i] == before[i + 1]);
                    assert(strings_view(before)[i + 1] == l.skip(k - 1)[i + 1]);
                }
                assert(strings_view(self.logs@) =~= l.skip(k as int));
            }
        }
    }

    fn finish(&mut self, status: String)
        ensures
            final(self)@ == finished(old(self)@, status@),
            same_settings(*final(self), *old(self)),
    {
        self.busy = false;
        self.progress_stage = String::new();
        self.progress_done = 0;
        self.progress_total = 0;
        self.progress_item = String::new();
        self.status = status.clone();
        self.push_log(status);
    }

    fn apply(&mut self, m: JobMsg)
        ensures
            final(self)@ == after_msg(old(self)@, m),
            same_settings(*final(self), *old(self)),
    {
        match m {
            JobMsg::Log(s) => self.push_log(s),
            JobMsg::Progress { stage, done, total, item } => {
                self.progress_stage = stage;
                self.progress_done = done;
                self.progress_total = total;
                self.progress_item = match item {
                    Some(i) => i,
                    None => String::new(),
                };
            },
            JobMsg::Done(r) => {
                let status = match r {
                    Ok(()) => String::from_str("Done."),
                    Err(e) => error_status(&e),
                };
                self.finish(status);
            },
            JobMsg::ListDone(r) => match r {
                Ok(list) => {
                    let mut line: Vec<char> = Vec::new();
                    append_chars(&mut line, "Loaded ");
                    append_chars(&mut line, decimal(list.len() as u64).as_str());
                    append_chars(&mut line, " entries.");
                    self.entries = list;
                    self.entries_err = None;
                    self.finish(string_of(line));
                },
                Err(e) => {
                    let status = error_status(&e);
                    self.entries = Vec::new();
                    self.entries_err = Some(e);
                    self.finish(status);
                },
            },
            JobMsg::VerifyDone(r) => {
                let status = match r {
                    Ok(()) => String::from_str("Pak verified OK."),
                    Err(e) => error_status(&e),
                };
                self.finish(status);
            },
        }
    }

    /// Applies the messages of the running job in order, up to and including
    /// the first that ends it. Returns whether the job ended.
    pub fn poll_jobs(&mut self, msgs: Vec<JobMsg>) -> (ended: bool)
        ensures
            (final(self)@, ended) == after_msgs(old(self)@, msgs@),
            same_settings(*final(self), *old(self)),
    {
        let mut rest = msgs;
        loop
            invariant
                after_msgs(old(self)@, msgs@) == after_msgs(self@, rest@),
                same_settings(*self, *old(self)),
            decreases rest@.len(),
        {
            if rest.len() == 0 {
                return false;
            }
            let ghost before = rest@;
            let m = rest.remove(0);
            proof {
                assert(rest@ =~= before.drop_first());
            }
            let ends = match &m {
                JobMsg::Log(_) => false,
                JobMsg::Progress { .. } => false,
                _ => true,
            };
            self.apply(m);
            if ends {
                return true;
            }
        }
    }
}

/// Starts the windowed front end. This build has none, so it reports that.
pub fn run() -> (r: PakResult<()>)
    ensures
        is_invalid(r, "nepak was built without feature 'gui'"@),
{
    Err(PakError::Invalid(String::from_str("nepak was built without feature 'gui'")))
}

impl Default for NePakApp {
    fn default() -> (r: NePakApp)
        ensures
            r@ == (AppView {
                logs: seq!["NEPAK GUI ready."@],
                status: Seq::empty(),
                busy: false,
                stage: Seq::empty(),
                done: 0,
                total: 0,
                item: Seq::empty(),
                entries: Seq::empty(),
                entries_err: None,
            }),
            r.tab == Tab::Build,
            r.build.input_dir@ == "./assets"@,
            r.build.output_pak@ == "./assets.pak"@,
            r.build.prefix@ == "assets"@,
            r.build.excludes_csv@ == ".git,target"@,
            r.build.compress,
            r.build.zstd_level == 6,
    {
        let r = NePakApp {
            tab: Tab::Build,
            build: BuildForm {
                input_dir: String::from_str("./assets"),
                output_pak: String::from_str("./assets.pak"),
                prefix: String::from_str("assets"),
                excludes_csv: String::from_str(".git,target"),
                compress: true,
                zstd_level: 6,
            },
            list_pak: String::from_str("./assets.pak"),
            extract_pak: String::from_str("./assets.pak"),
            extract_out: String::from_str("./assets_extracted"),
            extract_filter_csv: String::new(),
            verify_pak: String::from_str("./assets.pak"),
            entries: Vec::new(),
            entries_err: None,
            logs: vec![String::from_str("NEPAK GUI ready.")],
            status: String::new(),
            busy: false,
            progress_stage: String::new(),
            progress_done: 0,
            progress_total: 0,
            progress_item: String::new(),
        };
        assert(r@.logs =~= seq!["NEPAK GUI ready."@]);
        r
    }
}

} // verus!
