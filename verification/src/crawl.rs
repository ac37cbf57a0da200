//! Orchestration logic: the concurrency ceiling, base-URL normalization,
//! fetch-task construction, and the per-buffer decode-and-scan pipeline.
//! The surrounding program performs the network fetches and feeds each
//! fetched buffer back through `scan_archive`.

use vstd::prelude::*;

use crate::archive::{decode, decode_model, entry_views};
use crate::scan::{display_name, display_name_of, event_views, scan_buffer, scan_events, MatchEvent};

verus! {

/// The concurrency ceiling: 25 in-flight tasks on fewer than four
/// processing units, else 60.
pub open spec fn limit_for(cores: int) -> int {
    if cores < 4 {
        25
    } else {
        60
    }
}

pub fn worker_limit(cores: usize) -> (r: usize)
    ensures
        r == limit_for(cores as int),
{
    if cores < 4 {
        25
    } else {
        60
    }
}

/// Relies on num_cpus::get: the number of available logical processing
/// units, always at least one.
#[verifier::external_body]
fn available_cores() -> (r: usize)
    ensures
        1 <= r,
{
    num_cpus::get()
}

/// The concurrency ceiling for this machine: 25 or 60, depending on how
/// many processing units are available now.
pub fn concurrency_limit() -> (r: usize)
    ensures
        r == 25 || r == 60,
{
    let cores = available_cores();
    worker_limit(cores)
}

/// A base URL normalized to end with a slash.
pub open spec fn normalized_base(u: Seq<char>) -> Seq<char> {
    if u.len() > 0 && u.last() == '/' {
        u
    } else {
        u + seq!['/']
    }
}

pub fn normalize_base(url: &String) -> (r: String)
    ensures
        r@ == normalized_base(url@),
{
    let n = url.as_str().unicode_len();
    if n > 0 && url.as_str().get_char(n - 1) == '/' {
        url.clone()
    } else {
        let mut s = url.clone();
        s.append("/");
        proof {
            reveal_strlit("/");
            assert(s@ =~= url@ + seq!['/']);
        }
        s
    }
}

/// One unit of crawl work: a qualifying filename and its resolved absolute
/// URL.
pub struct FetchTask {
    pub filename: String,
    pub url: String,
}

pub open spec fn task_views(s: Seq<FetchTask>) -> Seq<(Seq<char>, Seq<char>)> {
    s.map_values(|t: FetchTask| (t.filename@, t.url@))
}

/// What resolving a link target against a base URL yields, when both parse;
/// it depends on the two strings alone.
pub uninterp spec fn joined_of(base: Seq<char>, rel: Seq<char>) -> Option<Seq<char>>;

pub open spec fn opt_str_view(o: Option<String>) -> Option<Seq<char>> {
    match o {
        Some(s) => Some(s@),
        None => None,
    }
}

/// Relies on url's Url::parse and Url::join: the absolute URL of `rel`
/// resolved against `base`, or nothing when either step fails.
#[verifier::external_body]
fn join_url(base: &String, rel: &String) -> (r: Option<String>)
    ensures
        opt_str_view(r) == joined_of(base@, rel@),
{
    match url::Url::parse(base.as_str()) {
        Ok(b) => match b.join(rel.as_str()) {
            Ok(u) => Some(String::from(u)),
            Err(_) => None,
        },
        Err(_) => None,
    }
}

/// The tasks built from the kept filenames: one per filename whose URL
/// resolves against the base, in input order.
pub open spec fn tasks_model(base: Seq<char>, names: Seq<Seq<char>>) -> Seq<(Seq<char>, Seq<char>)>
    decreases names.len(),
{
    if names.len() == 0 {
        Seq::empty()
    } else {
        tasks_model(base, names.drop_last()) + (match joined_of(base, names.last()) {
            Some(u) => seq![(names.last(), u)],
            None => Seq::empty(),
        })
    }
}

/// Builds one fetch task per kept filename, resolving each against the base
/// URL; a filename that does not resolve is dropped.
pub fn build_tasks(base: &String, names: &Vec<String>) -> (r: Vec<FetchTask>)
    ensures
        task_views(r@) == tasks_model(base@, crate::links::str_views(names@)),
{
    let mut out: Vec<FetchTask> = Vec::new();
    let n = names.len();
    let mut i: usize = 0;
    while i < n
        invariant
            n == names@.len(),
            i <= n,
            task_views(out@) == tasks_model(base@, crate::links::str_views(names@).take(i as int)),
        decreases n - i,
    {
        let ghost prev = out@;
        let name = &names[i];
        let joined = join_url(base, name);
        let ghost kept = joined_of(base@, name@);
        match joined {
            Some(u) => {
                out.push(FetchTask { filename: name.clone(), url: u });
            },
            None => {},
        }
        proof {
            let whole = crate::links::str_views(names@);
            assert(whole.take(i + 1).drop_last() =~= whole.take(i as int));
            assert(whole.take(i + 1).last() == name@);
            match kept {
                Some(u) => {
                    assert(task_views(out@) =~~= task_views(prev) + seq![(name@, u)]);
                },
                None => {
                    assert(task_views(out@) =~~= task_views(prev) + Seq::<
                        (Seq<char>, Seq<char>),
                    >::empty());
                },
            }
        }
        i = i + 1;
    }
    proof {
        assert(crate::links::str_views(names@).take(n as int) =~= crate::links::str_views(names@));
    }
    out
}

/// The events one fetched buffer contributes: the buffer is decoded, then
/// every decoded entry is scanned in order, each match named after the
/// filename and the entry's logical path.
pub open spec fn entries_events(
    entries: Seq<(Seq<char>, Seq<u8>)>,
    pat: Seq<u8>,
    fname: Seq<char>,
) -> Seq<(Seq<char>, Seq<char>)>
    decreases entries.len(),
{
    if entries.len() == 0 {
        Seq::empty()
    } else {
        entries_events(entries.drop_last(), pat, fname) + scan_events(
            entries.last().1,
            pat,
            display_name_of(fname, entries.last().0),
        )
    }
}

pub open spec fn pipeline_events(b: Seq<u8>, f: Seq<char>, pat: Seq<u8>) -> Seq<
    (Seq<char>, Seq<char>),
> {
    entries_events(decode_model(b, f), pat, f)
}

/// Decodes one fetched buffer and scans every decoded entry, in the
/// archive's own entry order, returning all match events of the buffer.
pub fn scan_archive(bytes: &Vec<u8>, filename: &String, pattern: &Vec<u8>) -> (events: Vec<
    MatchEvent,
>)
    ensures
        event_views(events@) == pipeline_events(bytes@, filename@, pattern@),
{
    let entries = decode(bytes, filename);
    let mut events: Vec<MatchEvent> = Vec::new();
    let n = entries.len();
    let mut i: usize = 0;
    while i < n
        invariant
            n == entries@.len(),
            i <= n,
            entry_views(entries@) == decode_model(bytes@, filename@),
            event_views(events@) == entries_events(
                entry_views(entries@).take(i as int),
                pattern@,
                filename@,
            ),
        decreases n - i,
    {
        let ghost prev = events@;
        let e = &entries[i];
        let name = display_name(filename, &e.logical_path);
        let mut evs = scan_buffer(e.content.as_slice(), pattern.as_slice(), name.as_str());
        let ghost evs_v = evs@;
        events.append(&mut evs);
        proof {
            let whole = entry_views(entries@);
            assert(whole.take(i + 1).drop_last() =~= whole.take(i as int));
            assert(whole.take(i + 1).last() == whole[i as int]);
            assert(event_views(events@) =~= event_views(prev) + event_views(evs_v));
        }
        i = i + 1;
    }
    proof {
        assert(entry_views(entries@).take(n as int) =~= entry_views(entries@));
    }
    events
}

} // verus!
