//! Per-task per-cycle `process()` timing extractor.
//!
//! Walks a recording and gives, for every message, the `process()` window that
//! the runtime stamped on it. Messages without such a window are left out.

use crate::error::CuResult;
use crate::signature::maybe_text;
use crate::stats::RecordedCopperList;
use crate::stats::TimeWindow;
use crate::sums::places;
use crate::text::chars_of;
use crate::text::dec;
use crate::text::push_dec;
use vstd::prelude::*;

verus! {

/// How the rows are written.
#[derive(Copy, Clone, PartialEq, Eq, PartialOrd, Ord, Debug, Structural)]
pub enum TimingFormat {
    Csv,
    Json,
    ChromeTrace,
}

/// The name of a format.
pub open spec fn format_name(format: TimingFormat) -> Seq<char> {
    match format {
        TimingFormat::Csv => "csv"@,
        TimingFormat::Json => "json"@,
        TimingFormat::ChromeTrace => "chrome-trace"@,
    }
}

impl TimingFormat {
    /// The name of the format.
    pub fn to_string(&self) -> (r: String)
        ensures
            r@ == format_name(*self),
    {
        match self {
            TimingFormat::Csv => "csv".to_owned(),
            TimingFormat::Json => "json".to_owned(),
            TimingFormat::ChromeTrace => "chrome-trace".to_owned(),
        }
    }
}

/// One row of timing data: a single message stamped by one task.
#[derive(Debug, PartialEq, Eq)]
pub struct TaskTiming {
    pub culist_id: u64,
    pub task_index: usize,
    pub task_id: Option<String>,
    pub start_ns: u64,
    pub end_ns: u64,
    pub duration_ns: u64,
}

/// What a row says.
pub struct RowModel {
    pub culist_id: u64,
    pub task_index: usize,
    pub task_id: Option<Seq<char>>,
    pub start_ns: u64,
    pub end_ns: u64,
    pub duration_ns: u64,
}

impl View for TaskTiming {
    type V = RowModel;

    open spec fn view(&self) -> RowModel {
        RowModel {
            culist_id: self.culist_id,
            task_index: self.task_index,
            task_id: maybe_text(self.task_id),
            start_ns: self.start_ns,
            end_ns: self.end_ns,
            duration_ns: self.duration_ns,
        }
    }
}

/// What a list of rows says.
pub open spec fn rows_of(rows: Seq<TaskTiming>) -> Seq<RowModel> {
    Seq::new(rows.len(), |i: int| rows[i]@)
}

/// The row of a message, `None` when its window is not known.
pub open spec fn row_of(culist_id: u64, task_index: nat, task_ids: Seq<&'static str>, window: TimeWindow) -> Option<
    RowModel,
> {
    match (window.start_ns, window.end_ns) {
        (Some(start), Some(end)) => Some(
            RowModel {
                culist_id,
                task_index: task_index as usize,
                task_id: if task_index < task_ids.len() {
                    Some(task_ids[task_index as int]@)
                } else {
                    None
                },
                start_ns: start,
                end_ns: end,
                duration_ns: if start <= end {
                    (end - start) as u64
                } else {
                    0
                },
            },
        ),
        _ => None,
    }
}

/// The rows of the first `n` messages of a CopperList.
pub open spec fn msg_rows(culist: RecordedCopperList, task_ids: Seq<&'static str>, n: nat) -> Seq<RowModel>
    decreases n,
{
    if n == 0 {
        Seq::empty()
    } else {
        let rest = msg_rows(culist, task_ids, (n - 1) as nat);
        match row_of(culist.id, (n - 1) as nat, task_ids, culist.msgs@[n - 1]) {
            Some(row) => rest.push(row),
            None => rest,
        }
    }
}

/// The rows of the first `n` CopperLists.
pub open spec fn timing_rows(culists: Seq<RecordedCopperList>, task_ids: Seq<&'static str>, n: nat) -> Seq<RowModel>
    decreases n,
{
    if n == 0 {
        Seq::empty()
    } else {
        timing_rows(culists, task_ids, (n - 1) as nat) + msg_rows(
            culists[n - 1],
            task_ids,
            culists[n - 1].msgs@.len(),
        )
    }
}

/// The row of a message, `None` when its window is not known.
pub fn extract_row(culist_id: u64, task_index: usize, task_ids: &[&'static str], window: TimeWindow) -> (r: Option<
    TaskTiming,
>)
    ensures
        match r {
            Some(row) => row_of(culist_id, task_index as nat, task_ids@, window) == Some(row@),
            None => row_of(culist_id, task_index as nat, task_ids@, window) is None,
        },
{
    if let (Some(start_ns), Some(end_ns)) = (window.start_ns, window.end_ns) {
        let task_id: Option<String> = if task_index < task_ids.len() {
            Some(task_ids[task_index].to_owned())
        } else {
            None
        };
        return Some(
            TaskTiming {
                culist_id,
                task_index,
                task_id,
                start_ns,
                end_ns,
                duration_ns: end_ns.saturating_sub(start_ns),
            },
        );
    }
    None
}

/// The rows of a recording.
pub fn extract_rows(culists: &Vec<RecordedCopperList>, task_ids: &[&'static str]) -> (r: Vec<TaskTiming>)
    ensures
        rows_of(r@) == timing_rows(culists@, task_ids@, culists@.len()),
{
    let mut r: Vec<TaskTiming> = Vec::new();
    let mut c: usize = 0;
    assert(rows_of(r@) =~= Seq::<RowModel>::empty());
    while c < culists.len()
        invariant
            c <= culists@.len(),
            rows_of(r@) == timing_rows(culists@, task_ids@, c as nat),
        decreases culists@.len() - c,
    {
        let culist: &RecordedCopperList = &culists[c];
        let ghost before = rows_of(r@);
        let mut i: usize = 0;
        assert(before + Seq::<RowModel>::empty() =~= before);
        while i < culist.msgs.len()
            invariant
                i <= culist.msgs@.len(),
                rows_of(r@) == before + msg_rows(*culist, task_ids@, i as nat),
            decreases culist.msgs@.len() - i,
        {
            let ghost so_far = msg_rows(*culist, task_ids@, i as nat);
            let ghost all = rows_of(r@);
            if let Some(row) = extract_row(culist.id, i, task_ids, culist.msgs[i]) {
                let ghost model = row@;
                r.push(row);
                assert(rows_of(r@) =~= all.push(model));
                assert(all.push(model) =~= before + so_far.push(model));
            }
            i = i + 1;
        }
        c = c + 1;
    }
    r
}

// ---------------------------------------------------------------------------
// CSV
// ---------------------------------------------------------------------------

/// Whether a field needs quotes.
pub open spec fn needs_quotes(field: Seq<char>) -> bool {
    exists|i: int| 0 <= i < field.len() && is_special(#[trigger] field[i])
}

/// Whether a character asks for quotes.
pub open spec fn is_special(c: char) -> bool {
    c == ',' || c == '"' || c == '\n' || c == '\r'
}

/// A text with its double quotes doubled.
pub open spec fn doubled(field: Seq<char>) -> Seq<char>
    decreases field.len(),
{
    if field.len() == 0 {
        field
    } else if field.last() == '"' {
        doubled(field.drop_last()).push('"').push('"')
    } else {
        doubled(field.drop_last()).push(field.last())
    }
}

/// A field as it stands in a CSV row.
pub open spec fn quoted(field: Seq<char>) -> Seq<char> {
    if needs_quotes(field) {
        seq!['"'] + doubled(field) + seq!['"']
    } else {
        field
    }
}

/// A row as CSV.
pub open spec fn csv_text(row: RowModel) -> Seq<char> {
    dec(row.culist_id as nat) + ","@ + dec(row.task_index as nat) + ","@ + quoted(
        match row.task_id {
            Some(id) => id,
            None => Seq::empty(),
        },
    ) + ","@ + dec(row.start_ns as nat) + ","@ + dec(row.end_ns as nat) + ","@ + dec(row.duration_ns as nat) + "\n"@
}

/// RFC 4180 quoting: wrap in double quotes and double internal quotes if the
/// field contains a comma, quote, CR or LF; otherwise pass through.
pub fn csv_quote(field: &str) -> (r: String)
    ensures
        r@ == quoted(field@),
{
    let chars: Vec<char> = chars_of(field);
    let mut special: bool = false;
    let mut k: usize = 0;
    while k < chars.len()
        invariant
            k <= chars@.len(),
            special == (exists|i: int| 0 <= i < k && is_special(#[trigger] chars@[i])),
        decreases chars@.len() - k,
    {
        let c: char = chars[k];
        if c == ',' || c == '"' || c == '\n' || c == '\r' {
            special = true;
            assert(is_special(chars@[k as int]));
        }
        k = k + 1;
    }
    if !special {
        return field.to_owned();
    }
    proof {
        reveal_strlit("\"");
        reveal_strlit("\"\"");
        assert("\""@ =~= seq!['"']);
        assert("\"\""@ =~= seq!['"', '"']);
    }
    let mut r: String = "\"".to_owned();
    let mut i: usize = 0;
    assert(chars@.take(0) =~= Seq::<char>::empty());
    assert(r@ =~= seq!['"'] + doubled(chars@.take(0)));
    while i < chars.len()
        invariant
            i <= chars@.len(),
            chars@ == field@,
            "\"\""@ == seq!['"', '"'],
            r@ == seq!['"'] + doubled(chars@.take(i as int)),
        decreases chars@.len() - i,
    {
        assert(chars@.take(i + 1).drop_last() =~= chars@.take(i as int));
        assert(chars@.take(i + 1).last() == chars@[i as int]);
        if chars[i] == '"' {
            r.append("\"\"");
        } else {
            r.append(field.substring_char(i, i + 1));
            assert(field@.subrange(i as int, i + 1) =~= seq![chars@[i as int]]);
        }
        assert(r@ =~= seq!['"'] + doubled(chars@.take(i + 1)));
        i = i + 1;
    }
    assert(chars@.take(i as int) =~= chars@);
    r.append("\"");
    r
}

/// Appends a row as CSV.
fn push_csv_row(out: &mut String, row: &TaskTiming)
    ensures
        final(out)@ == old(out)@ + csv_text(row@),
{
    let ghost before = out@;
    push_dec(out, row.culist_id);
    out.append(",");
    push_dec(out, row.task_index as u64);
    out.append(",");
    match &row.task_id {
        Some(id) => {
            out.append(csv_quote(id.as_str()).as_str());
        },
        None => {
            out.append(csv_quote("").as_str());
            proof {
                reveal_strlit("");
                assert(""@ =~= Seq::<char>::empty());
            }
        },
    }
    out.append(",");
    push_dec(out, row.start_ns);
    out.append(",");
    push_dec(out, row.end_ns);
    out.append(",");
    push_dec(out, row.duration_ns);
    out.append("\n");
    assert(out@ =~= before + csv_text(row@));
}

// ---------------------------------------------------------------------------
// Export
// ---------------------------------------------------------------------------

/// A text, or what went wrong.
pub open spec fn outcome(r: CuResult<String>) -> Result<Seq<char>, Seq<char>> {
    match r {
        Ok(text) => Ok(text@),
        Err(e) => Err(e@),
    }
}

/// The text of a row in a format that another party writes.
pub type RowFn = spec_fn(RowModel) -> Result<Seq<char>, Seq<char>>;

/// Whether `encode` writes rows as `f` says.
pub open spec fn encodes<E: Fn(&TaskTiming) -> CuResult<String>>(encode: E, f: RowFn) -> bool {
    forall|row: TaskTiming, r: CuResult<String>| #[trigger]
        call_ensures(encode, (&row,), r) ==> outcome(r) == f(row@)
}

/// The first `n` rows as CSV, below the header.
pub open spec fn csv_rows(rows: Seq<RowModel>, n: nat) -> Seq<char>
    decreases n,
{
    if n == 0 {
        "culist_id,task_index,task_id,start_ns,end_ns,duration_ns\n"@
    } else {
        csv_rows(rows, (n - 1) as nat) + csv_text(rows[n - 1])
    }
}

/// The first `n` rows as the entries of an open array.
pub open spec fn array_rows(rows: Seq<RowModel>, f: RowFn, n: nat) -> Result<Seq<char>, Seq<char>>
    decreases n,
{
    if n == 0 {
        Ok("[\n"@)
    } else {
        match (array_rows(rows, f, (n - 1) as nat), f(rows[n - 1])) {
            (Err(e), _) => Err(e),
            (Ok(_), Err(e)) => Err(e),
            (Ok(text), Ok(row)) => if n == 1 {
                Ok(text + row)
            } else {
                Ok(text + ",\n"@ + row)
            },
        }
    }
}

/// The rows in a format.
pub open spec fn exported(rows: Seq<RowModel>, format: TimingFormat, f: RowFn) -> Result<Seq<char>, Seq<char>> {
    match format {
        TimingFormat::Csv => Ok(csv_rows(rows, rows.len())),
        _ => match array_rows(rows, f, rows.len()) {
            Ok(text) => Ok(text + "\n]\n"@),
            Err(e) => Err(e),
        },
    }
}

proof fn lemma_array_later(rows: Seq<RowModel>, f: RowFn, i: nat, n: nat)
    requires
        i <= n,
        array_rows(rows, f, i) is Err,
    ensures
        array_rows(rows, f, n) == array_rows(rows, f, i),
    decreases n,
{
    if i < n {
        lemma_array_later(rows, f, i, (n - 1) as nat);
    }
}

/// The timing rows of a recording in the requested format.
///
/// `encode` writes one row where the format is not CSV.
pub fn export_timing_profile<E: Fn(&TaskTiming) -> CuResult<String>>(
    culists: &Vec<RecordedCopperList>,
    task_ids: &[&'static str],
    format: TimingFormat,
    encode: E,
) -> (r: CuResult<String>)
    requires
        forall|row: TaskTiming| #[trigger] call_requires(encode, (&row,)),
    ensures
        format is Csv ==> outcome(r) == Ok::<Seq<char>, Seq<char>>(
            csv_rows(timing_rows(culists@, task_ids@, culists@.len()), timing_rows(culists@, task_ids@, culists@.len()).len()),
        ),
        forall|f: RowFn| #[trigger]
            encodes(encode, f) ==> outcome(r) == exported(timing_rows(culists@, task_ids@, culists@.len()), format, f),
{
    let rows: Vec<TaskTiming> = extract_rows(culists, task_ids);
    let ghost list = rows_of(rows@);
    match format {
        TimingFormat::Csv => {
            let mut out: String = "culist_id,task_index,task_id,start_ns,end_ns,duration_ns\n".to_owned();
            let mut i: usize = 0;
            while i < rows.len()
                invariant
                    i <= rows@.len(),
                    list == rows_of(rows@),
                    out@ == csv_rows(list, i as nat),
                decreases rows@.len() - i,
            {
                assert(list[i as int] == rows@[i as int]@);
                push_csv_row(&mut out, &rows[i]);
                i = i + 1;
            }
            Ok(out)
        },
        _ => {
            let mut out: String = "[\n".to_owned();
            let mut i: usize = 0;
            while i < rows.len()
                invariant
                    i <= rows@.len(),
                    format !is Csv,
                    list == rows_of(rows@),
                    list == timing_rows(culists@, task_ids@, culists@.len()),
                    forall|row: TaskTiming| #[trigger] call_requires(encode, (&row,)),
                    forall|f: RowFn| #[trigger]
                        encodes(encode, f) ==> array_rows(list, f, i as nat) == Ok::<Seq<char>, Seq<char>>(out@),
                decreases rows@.len() - i,
            {
                assert(list[i as int] == rows@[i as int]@);
                let encoded: CuResult<String> = encode(&rows[i]);
                match encoded {
                    Ok(text) => {
                        if i > 0 {
                            out.append(",\n");
                        }
                        out.append(text.as_str());
                    },
                    Err(e) => {
                        proof {
                            assert forall|f: RowFn| #[trigger] encodes(encode, f) implies Err::<Seq<char>, Seq<char>>(e@)
                                == exported(list, format, f) by {
                                assert(array_rows(list, f, (i + 1) as nat) == Err::<Seq<char>, Seq<char>>(e@));
                                lemma_array_later(list, f, (i + 1) as nat, list.len());
                            }
                        }
                        return Err(e);
                    },
                }
                i = i + 1;
            }
            out.append("\n]\n");
            Ok(out)
        },
    }
}

// ---------------------------------------------------------------------------
// Trace events
// ---------------------------------------------------------------------------

/// A complete event of a trace viewer, with its times in nanoseconds.
#[derive(Debug, PartialEq, Eq)]
pub struct ChromeEvent {
    pub name: String,
    pub ts_ns: u64,
    pub dur_ns: u64,
    pub pid: u64,
    pub tid: u64,
    pub culist_id: u64,
}

/// The name of a row's event.
pub open spec fn event_name(row: RowModel) -> Seq<char> {
    match row.task_id {
        Some(id) => id,
        None => "task_"@ + dec(row.task_index as nat),
    }
}

/// The event of a row.
pub fn chrome_event(row: &TaskTiming) -> (event: ChromeEvent)
    ensures
        event.name@ == event_name(row@),
        event.ts_ns == row.start_ns,
        event.dur_ns == row.duration_ns,
        event.pid == 0,
        event.tid == row.task_index,
        event.culist_id == row.culist_id,
{
    let name: String = match &row.task_id {
        Some(id) => id.clone(),
        None => {
            let mut text: String = "task_".to_owned();
            push_dec(&mut text, row.task_index as u64);
            text
        },
    };
    ChromeEvent {
        name,
        ts_ns: row.start_ns,
        dur_ns: row.duration_ns,
        pid: 0,
        tid: row.task_index as u64,
        culist_id: row.culist_id,
    }
}

/// The inner text of a quoted field, with pairs of double quotes taken back to
/// single ones.
pub open spec fn undoubled(text: Seq<char>) -> Seq<char>
    decreases text.len(),
{
    if text.len() == 0 {
        text
    } else if text.len() >= 2 && text.last() == '"' && text[text.len() - 2] == '"' {
        undoubled(text.take(text.len() - 2)).push('"')
    } else {
        undoubled(text.drop_last()).push(text.last())
    }
}

/// A reader of the CSV gets every field back: doubled quotes are undone by
/// halving them again.
pub proof fn quoting_can_be_undone(field: Seq<char>)
    ensures
        undoubled(doubled(field)) == field,
    decreases field.len(),
{
    if field.len() > 0 {
        let rest = field.drop_last();
        quoting_can_be_undone(rest);
        let d = doubled(rest);
        if field.last() == '"' {
            let text = d.push('"').push('"');
            assert(text.take(text.len() - 2) =~= d);
        } else {
            let text = d.push(field.last());
            assert(text.drop_last() =~= d);
        }
        assert(rest.push(field.last()) =~= field);
    }
}

/// Whether the window of a message is known.
pub open spec fn is_timed(culist: RecordedCopperList) -> spec_fn(int) -> bool {
    |i: int| culist.msgs@[i].start_ns is Some && culist.msgs@[i].end_ns is Some
}

/// The row of a message whose window is known, by its place.
pub open spec fn timed_row(culist: RecordedCopperList, task_ids: Seq<&'static str>) -> spec_fn(int) -> RowModel {
    |i: int|
        RowModel {
            culist_id: culist.id,
            task_index: i as usize,
            task_id: if i < task_ids.len() {
                Some(task_ids[i]@)
            } else {
                None
            },
            start_ns: culist.msgs@[i].start_ns->0,
            end_ns: culist.msgs@[i].end_ns->0,
            duration_ns: if culist.msgs@[i].start_ns->0 <= culist.msgs@[i].end_ns->0 {
                (culist.msgs@[i].end_ns->0 - culist.msgs@[i].start_ns->0) as u64
            } else {
                0
            },
        }
}

/// The rows of a CopperList are those of its messages whose window is known, in
/// order: each with its place, the name at that place if there is one, and the
/// length of its window, zero when the window runs backwards.
pub proof fn rows_are_the_timed_messages(culist: RecordedCopperList, task_ids: Seq<&'static str>, n: nat)
    requires
        n <= culist.msgs@.len(),
    ensures
        msg_rows(culist, task_ids, n) == places(n).filter(is_timed(culist)).map_values(timed_row(culist, task_ids)),
    decreases n,
{
    reveal(Seq::filter);
    let f = is_timed(culist);
    let g = timed_row(culist, task_ids);
    if n == 0 {
        assert(places(n).filter(f) =~= Seq::<int>::empty());
        assert(msg_rows(culist, task_ids, n) =~= places(n).filter(f).map_values(g));
    } else {
        rows_are_the_timed_messages(culist, task_ids, (n - 1) as nat);
        assert(places(n).drop_last() =~= places((n - 1) as nat));
        assert(places(n).last() == n - 1);
        assert(msg_rows(culist, task_ids, n) =~= places(n).filter(f).map_values(g));
    }
}

/// The rows of one CopperList.
pub open spec fn rows_in(task_ids: Seq<&'static str>) -> spec_fn(RecordedCopperList) -> Seq<RowModel> {
    |culist: RecordedCopperList|
        places(culist.msgs@.len()).filter(is_timed(culist)).map_values(timed_row(culist, task_ids))
}

/// The rows come CopperList by CopperList, in the order of the recording.
pub proof fn rows_follow_the_recording(culists: Seq<RecordedCopperList>, task_ids: Seq<&'static str>, n: nat)
    requires
        n <= culists.len(),
    ensures
        timing_rows(culists, task_ids, n) == culists.take(n as int).map_values(rows_in(task_ids)).flatten(),
    decreases n,
{
    let all = culists.take(n as int).map_values(rows_in(task_ids));
    if n == 0 {
        assert(all =~= Seq::<Seq<RowModel>>::empty());
    } else {
        rows_follow_the_recording(culists, task_ids, (n - 1) as nat);
        let last = culists[n - 1];
        rows_are_the_timed_messages(last, task_ids, last.msgs@.len());
        let rest = culists.take(n - 1).map_values(rows_in(task_ids));
        assert(all =~= rest.push(rows_in(task_ids)(last)));
        rest.lemma_flatten_push(rows_in(task_ids)(last));
    }
}

/// Whether a field holds a comma, a double quote or a line break.
pub open spec fn holds_separator(field: Seq<char>) -> bool {
    field.contains(',') || field.contains('"') || field.contains('\n') || field.contains('\r')
}

/// A field is written as it is unless it holds a comma, a double quote or a line
/// break; then it stands in double quotes, and its own are doubled.
pub proof fn fields_are_quoted_when_needed(field: Seq<char>)
    ensures
        !holds_separator(field) ==> quoted(field) == field,
        holds_separator(field) ==> {
            let text = quoted(field);
            &&& text.len() >= 2
            &&& text[0] == '"'
            &&& text.last() == '"'
            &&& undoubled(text.subrange(1, text.len() - 1)) == field
        },
{
    if holds_separator(field) {
        let c = if field.contains(',') {
            ','
        } else if field.contains('"') {
            '"'
        } else if field.contains('\n') {
            '\n'
        } else {
            '\r'
        };
        let i = choose|i: int| 0 <= i < field.len() && field[i] == c;
        assert(is_special(field[i]));
        let text = quoted(field);
        assert(text.subrange(1, text.len() - 1) =~= doubled(field));
        quoting_can_be_undone(field);
    } else if needs_quotes(field) {
        let i = choose|i: int| 0 <= i < field.len() && is_special(#[trigger] field[i]);
        assert(field.contains(field[i]));
    }
}

/// A row as CSV.
pub open spec fn as_csv() -> spec_fn(RowModel) -> Seq<char> {
    |row: RowModel| csv_text(row)
}

/// The CSV is one header line and one line for each row, in order.
pub proof fn csv_lists_the_rows_in_order(rows: Seq<RowModel>, n: nat)
    requires
        n <= rows.len(),
    ensures
        csv_rows(rows, n) == "culist_id,task_index,task_id,start_ns,end_ns,duration_ns\n"@ + rows.take(
            n as int,
        ).map_values(as_csv()).flatten(),
    decreases n,
{
    let all = rows.take(n as int).map_values(as_csv());
    let head = "culist_id,task_index,task_id,start_ns,end_ns,duration_ns\n"@;
    if n == 0 {
        assert(all =~= Seq::<Seq<char>>::empty());
        assert(csv_rows(rows, n) =~= head + all.flatten());
    } else {
        csv_lists_the_rows_in_order(rows, (n - 1) as nat);
        let rest = rows.take(n - 1).map_values(as_csv());
        assert(all =~= rest.push(csv_text(rows[n - 1])));
        rest.lemma_flatten_push(csv_text(rows[n - 1]));
        assert(csv_rows(rows, n) =~= head + all.flatten());
    }
}

/// The line of a row without a name has an empty third field, that of a row with
/// a name has the quoted name; both end the line.
pub proof fn csv_lines_hold_six_fields(row: RowModel)
    ensures
        csv_text(row) == dec(row.culist_id as nat) + ","@ + (dec(row.task_index as nat) + ","@) + (match row.task_id {
            Some(id) => quoted(id) + ","@,
            None => ","@,
        }) + (dec(row.start_ns as nat) + ","@) + (dec(row.end_ns as nat) + ","@) + (dec(row.duration_ns as nat)
            + "\n"@),
{
    if row.task_id is None {
        assert(quoted(Seq::<char>::empty()) =~= Seq::<char>::empty());
    }
    assert(csv_text(row) =~= dec(row.culist_id as nat) + ","@ + (dec(row.task_index as nat) + ","@) + (match row.task_id {
        Some(id) => quoted(id) + ","@,
        None => ","@,
    }) + (dec(row.start_ns as nat) + ","@) + (dec(row.end_ns as nat) + ","@) + (dec(row.duration_ns as nat) + "\n"@));
}

/// A row's text, with a comma and a line break before all but the first.
pub open spec fn array_part(rows: Seq<RowModel>, f: RowFn) -> spec_fn(int) -> Seq<char> {
    |i: int|
        if i == 0 {
            f(rows[i])->Ok_0
        } else {
            ",\n"@ + f(rows[i])->Ok_0
        }
}

/// The array lists the rows in order with a comma between each two, when each
/// row can be written; otherwise what is wrong with the first that cannot be is
/// told.
pub proof fn arrays_list_the_rows_in_order(rows: Seq<RowModel>, f: RowFn, n: nat)
    requires
        n <= rows.len(),
    ensures
        array_rows(rows, f, n) is Ok <==> forall|i: int| 0 <= i < n ==> f(#[trigger] rows[i]) is Ok,
        array_rows(rows, f, n) is Ok ==> array_rows(rows, f, n)->Ok_0 == "[\n"@ + places(n).map_values(
            array_part(rows, f),
        ).flatten(),
        array_rows(rows, f, n) is Err ==> exists|i: int|
            0 <= i < n && f(#[trigger] rows[i]) is Err && array_rows(rows, f, n)->Err_0 == f(rows[i])->Err_0 && forall|
                j: int,
            |
                0 <= j < i ==> f(#[trigger] rows[j]) is Ok,
    decreases n,
{
    let all = places(n).map_values(array_part(rows, f));
    if n == 0 {
        assert(all =~= Seq::<Seq<char>>::empty());
        assert("[\n"@ =~= "[\n"@ + all.flatten());
    } else {
        arrays_list_the_rows_in_order(rows, f, (n - 1) as nat);
        let before = array_rows(rows, f, (n - 1) as nat);
        if before is Err {
            let i = choose|i: int|
                0 <= i < n - 1 && f(#[trigger] rows[i]) is Err && before->Err_0 == f(rows[i])->Err_0 && forall|j: int|
                    0 <= j < i ==> f(#[trigger] rows[j]) is Ok;
            assert(f(rows[i]) is Err);
        } else if f(rows[n - 1]) is Err {
            assert(f(rows[n - 1]) is Err);
        } else {
            let rest = places((n - 1) as nat).map_values(array_part(rows, f));
            let part = array_part(rows, f)(n - 1);
            assert(all =~= rest.push(part));
            rest.lemma_flatten_push(part);
            assert(array_rows(rows, f, n)->Ok_0 =~= "[\n"@ + all.flatten());
        }
    }
}

/// Both array formats close the array; the CSV is written whatever the encoder
/// of the rows says.
pub proof fn formats_differ_in_their_frame(rows: Seq<RowModel>, f: RowFn)
    ensures
        exported(rows, TimingFormat::Csv, f) == Ok::<Seq<char>, Seq<char>>(csv_rows(rows, rows.len())),
        exported(rows, TimingFormat::Json, f) == exported(rows, TimingFormat::ChromeTrace, f),
        exported(rows, TimingFormat::Json, f) is Ok <==> array_rows(rows, f, rows.len()) is Ok,
        exported(rows, TimingFormat::Json, f) is Ok ==> exported(rows, TimingFormat::Json, f)->Ok_0 == array_rows(
            rows,
            f,
            rows.len(),
        )->Ok_0 + "\n]\n"@,
        exported(rows, TimingFormat::Json, f) is Err ==> exported(rows, TimingFormat::Json, f)->Err_0 == array_rows(
            rows,
            f,
            rows.len(),
        )->Err_0,
{
}

} // verus!
