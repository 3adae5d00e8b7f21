use crate::text::{decimal, pad_left, push_decimal, push_padded};
use vstd::prelude::*;
use vstd::string::*;

verus! {

/// A log file is archived once it is older than this (one week, in seconds).
pub const WEEK_SECS: u64 = 604800;

/// One log entry sent by the frontend.
pub struct FrontendLogEntry {
    pub timestamp: String,
    pub level: String,
    pub file: String,
    pub line: Option<u32>,
    pub message: String,
}

/// A batch of frontend log entries, in arrival order.
pub struct FrontendLogBatch {
    pub entries: Vec<FrontendLogEntry>,
}

/// The line number as written in the log: its decimal notation, or `?`.
pub open spec fn line_info(line: Option<u32>) -> Seq<char> {
    match line {
        Some(l) => decimal(l as nat),
        None => "?"@,
    }
}

/// The log line of one entry: `timestamp [level] file:line — message`, the
/// level right-aligned in five columns, ended by a newline.
pub open spec fn log_line(e: FrontendLogEntry) -> Seq<char> {
    e.timestamp@ + " ["@ + pad_left(e.level@, 5) + "] "@ + e.file@ + ":"@ + line_info(e.line)
        + " — "@ + e.message@ + "\n"@
}

/// The log lines of the first `n` entries.
pub open spec fn log_text(entries: Seq<FrontendLogEntry>, n: int) -> Seq<char>
    decreases n,
{
    if n <= 0 {
        Seq::empty()
    } else {
        log_text(entries, n - 1) + log_line(entries[n - 1])
    }
}

/// Append the log line of `e` to `out`.
pub fn push_log_line(out: &mut String, e: &FrontendLogEntry)
    ensures
        final(out)@ == old(out)@ + log_line(*e),
{
    let ghost start = out@;
    out.append(e.timestamp.as_str());
    out.append(" [");
    push_padded(out, e.level.as_str(), 5);
    out.append("] ");
    out.append(e.file.as_str());
    out.append(":");
    match e.line {
        Some(l) => {
            push_decimal(out, l as u64);
        },
        None => {
            out.append("?");
        },
    }
    out.append(" — ");
    out.append(e.message.as_str());
    out.append("\n");
    proof {
        assert(out@ =~= start + log_line(*e));
    }
}

/// The text a batch adds to the frontend log: one line per entry, in order.
pub fn format_log_batch(batch: &FrontendLogBatch) -> (text: String)
    ensures
        text@ == log_text(batch.entries@, batch.entries@.len() as int),
{
    let mut out = String::new();
    let mut i: usize = 0;
    while i < batch.entries.len()
        invariant
            0 <= i <= batch.entries@.len(),
            out@ == log_text(batch.entries@, i as int),
        decreases batch.entries@.len() - i,
    {
        push_log_line(&mut out, &batch.entries[i]);
        i = i + 1;
    }
    out
}

/// Whether a log file of the given age (seconds) is due for archiving:
/// strictly older than one week.
pub fn needs_rotation(age_secs: u64) -> (due: bool)
    ensures
        due == (age_secs > WEEK_SECS),
{
    age_secs > WEEK_SECS
}

/// Name of the archived copy of a log file: the file name, a dot, the date.
pub fn archived_file_name(file_name: &str, date: &str) -> (name: String)
    ensures
        name@ == file_name@ + "."@ + date@,
{
    let mut name = String::from_str(file_name);
    name.append(".");
    name.append(date);
    name
}

/// Writing two batches one after the other gives the same text as writing
/// them as one batch: the log is appended entry by entry.
pub proof fn lemma_log_text_concat(first: Seq<FrontendLogEntry>, second: Seq<FrontendLogEntry>)
    ensures
        log_text(first + second, (first.len() + second.len()) as int) == log_text(first, first.len() as int)
            + log_text(second, second.len() as int),
    decreases second.len(),
{
    if second.len() == 0 {
        assert(first + second =~= first);
        assert(log_text(second, 0) =~= Seq::<char>::empty());
        assert(log_text(first, first.len() as int) + Seq::<char>::empty() =~= log_text(first, first.len() as int));
    } else {
        let shorter = second.drop_last();
        lemma_log_text_concat(first, shorter);
        assert((first + second).drop_last() =~= first + shorter);
        lemma_log_text_prefix(first + second, first + shorter, (first.len() + shorter.len()) as int);
        assert((first + second)[first.len() + second.len() - 1] == second[second.len() - 1]);
        lemma_log_text_prefix(second, shorter, shorter.len() as int);
        assert(log_text(first, first.len() as int) + log_text(shorter, shorter.len() as int) + log_line(
            second[second.len() - 1],
        ) =~= log_text(first, first.len() as int) + (log_text(shorter, shorter.len() as int) + log_line(
            second[second.len() - 1],
        )));
    }
}

proof fn lemma_log_text_prefix(a: Seq<FrontendLogEntry>, b: Seq<FrontendLogEntry>, n: int)
    requires
        0 <= n <= a.len(),
        n <= b.len(),
        forall|i: int| 0 <= i < n ==> a[i] == b[i],
    ensures
        log_text(a, n) == log_text(b, n),
    decreases n,
{
    if n > 0 {
        lemma_log_text_prefix(a, b, n - 1);
    }
}

} // verus!
