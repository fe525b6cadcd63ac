//! The ingestion coordinator's decision logic: classifying changed paths and
//! driving parser, resolver and store over one batch of file contents.
//!
//! Reading directories, watching for changes and loading file bytes is I/O
//! and stays with the surrounding application; it hands the batch in as
//! plain path/content pairs and performs the outward notifications this
//! function reports.
use vstd::prelude::*;
use vstd::string::*;

use crate::models::Provider;
use crate::parser::{parse_jsonl_line, parse_settings};
use crate::store::{clone_provider, Repository};
use crate::text::str_eq;

verus! {

/// The character position after the last `/` of a path: where the file name
/// starts.
pub open spec fn file_name_start(p: Seq<char>) -> int
    decreases p.len(),
{
    if p.len() == 0 {
        0
    } else if p.last() == '/' {
        p.len() as int
    } else {
        file_name_start(p.drop_last())
    }
}

/// The file-name part of a path: everything after the last `/`.
pub open spec fn spec_file_name(p: Seq<char>) -> Seq<char> {
    p.skip(file_name_start(p))
}

/// A path with one trailing separator ignored, as the platform's file-name
/// lookup does.
pub open spec fn trim_slash(p: Seq<char>) -> Seq<char> {
    if p.len() > 0 && p.last() == '/' {
        p.drop_last()
    } else {
        p
    }
}

/// Lower-cases one ASCII letter's code point.
pub open spec fn lower_code(c: char) -> int {
    if 65 <= (c as u32) <= 90 {
        (c as u32) + 32
    } else {
        (c as u32) as int
    }
}

/// ASCII-case-insensitive equality of two character sequences.
pub open spec fn eq_ignore_case(a: Seq<char>, b: Seq<char>) -> bool {
    a.len() == b.len() && (forall|i: int|
        0 <= i < a.len() ==> lower_code(#[trigger] a[i]) == lower_code(b[i]))
}

/// Whether a path names a settings file: its file name — one trailing
/// separator ignored — is `settings.json`.
pub open spec fn spec_is_settings_file(p: Seq<char>) -> bool {
    spec_file_name(trim_slash(p)) == "settings.json"@
}

/// The character position after the last `.` of a file name, or 0 when it
/// has none.
pub open spec fn ext_start(f: Seq<char>) -> int
    decreases f.len(),
{
    if f.len() == 0 {
        0
    } else if f.last() == '.' {
        f.len() as int
    } else {
        ext_start(f.drop_last())
    }
}

/// Whether a path names a usage log: the extension of its file name — one
/// trailing separator ignored — equals `jsonl`, ignoring ASCII case.
pub open spec fn spec_is_jsonl_file(p: Seq<char>) -> bool {
    let f = spec_file_name(trim_slash(p));
    let e = ext_start(f);
    e > 1 && eq_ignore_case(f.skip(e), "jsonl"@)
}

/// Finds where the file name starts in `path`.
fn find_file_name_start(path: &str) -> (r: usize)
    ensures
        r as int == file_name_start(path@),
        r <= path@.len(),
{
    let len = path.unicode_len();
    let mut i: usize = len;
    proof {
        assert(path@.take(len as int) =~= path@);
    }
    while i > 0
        invariant
            i <= len,
            len == path@.len(),
            file_name_start(path@) == file_name_start(path@.take(i as int)),
        decreases i,
    {
        let c = path.get_char(i - 1);
        proof {
            assert(path@.take(i as int).last() == path@[i - 1]);
            assert(path@.take(i as int).drop_last() =~= path@.take(i - 1 as int));
        }
        if c == '/' {
            return i;
        }
        i = i - 1;
    }
    proof {
        assert(path@.take(0) =~= Seq::<char>::empty());
    }
    0
}

/// Whether this path is the known settings file name.
pub fn is_settings_file(path: &str) -> (r: bool)
    ensures
        r == spec_is_settings_file(path@),
{
    let full = path.unicode_len();
    let eff: usize = if full > 0 && path.get_char(full - 1) == '/' {
        full - 1
    } else {
        full
    };
    let p = path.substring_char(0, eff);
    proof {
        assert(p@ =~= trim_slash(path@));
    }
    let start = find_file_name_start(p);
    let len = p.unicode_len();
    let name = p.substring_char(start, len);
    proof {
        assert(name@ =~= spec_file_name(trim_slash(path@)));
    }
    str_eq(name, "settings.json")
}

/// Whether this path has the usage-log extension, ignoring ASCII case.
pub fn is_jsonl_file(path: &str) -> (r: bool)
    ensures
        r == spec_is_jsonl_file(path@),
{
    let full = path.unicode_len();
    let eff: usize = if full > 0 && path.get_char(full - 1) == '/' {
        full - 1
    } else {
        full
    };
    let p = path.substring_char(0, eff);
    proof {
        assert(p@ =~= trim_slash(path@));
    }
    let start = find_file_name_start(p);
    let len = p.unicode_len();
    let name = p.substring_char(start, len);
    proof {
        assert(name@ =~= spec_file_name(trim_slash(path@)));
    }
    let ghost f = name@;
    let name_len = name.unicode_len();

    // Find where the extension starts within the file name.
    let mut i: usize = name_len;
    let mut found = false;
    proof {
        assert(f.take(name_len as int) =~= f);
    }
    while i > 0 && !found
        invariant
            i <= name_len,
            name_len == f.len(),
            f == name@,
            !found ==> ext_start(f) == ext_start(f.take(i as int)),
            found ==> 1 <= i && ext_start(f) == i as int,
        decreases i + (if found {
            0int
        } else {
            1
        }),
    {
        let c = name.get_char(i - 1);
        proof {
            assert(f.take(i as int).last() == f[i - 1]);
            assert(f.take(i as int).drop_last() =~= f.take(i - 1 as int));
        }
        if c == '.' {
            found = true;
        } else {
            i = i - 1;
        }
    }
    proof {
        if !found {
            assert(f.take(0) =~= Seq::<char>::empty());
            assert(ext_start(f) == 0);
        }
    }
    if !found {
        proof {
            assert(!spec_is_jsonl_file(path@));
        }
        return false;
    }
    if i <= 1 {
        proof {
            assert(!spec_is_jsonl_file(path@));
        }
        return false;
    }
    let ext_len = name_len - i;
    if ext_len != 5 {
        proof {
            assert(f.skip(i as int).len() != 5);
            reveal_strlit("jsonl");
        }
        return false;
    }
    let target = "jsonl";
    proof {
        reveal_strlit("jsonl");
    }
    let mut k: usize = 0;
    while k < 5
        invariant
            k <= 5,
            i as int == ext_start(f),
            2 <= i <= name_len,
            name_len == f.len(),
            f == name@,
            name_len - i == 5,
            target@ == "jsonl"@,
            target@.len() == 5,
            forall|q: int|
                0 <= q < k ==> lower_code(#[trigger] f.skip(i as int)[q]) == lower_code(
                    target@[q],
                ),
        decreases 5 - k,
    {
        let a = name.get_char(i + k);
        let b = target.get_char(k);
        let al: u32 = if (a as u32) >= 65 && (a as u32) <= 90 {
            (a as u32) + 32
        } else {
            (a as u32)
        };
        let bl: u32 = if (b as u32) >= 65 && (b as u32) <= 90 {
            (b as u32) + 32
        } else {
            (b as u32)
        };
        if al != bl {
            proof {
                assert(f.skip(i as int)[k as int] == f[i + k]);
                assert(lower_code(f.skip(i as int)[k as int]) != lower_code(target@[k as int]));
            }
            return false;
        }
        proof {
            assert(f.skip(i as int)[k as int] == f[i + k]);
        }
        k = k + 1;
    }
    proof {
        assert(eq_ignore_case(f.skip(i as int), "jsonl"@));
    }
    true
}

/// One changed file handed in by the application: its path and its text.
pub struct FileChange {
    pub path: String,
    pub content: String,
}

/// Mathematical view of `FileChange`.
#[verifier::ext_equal]
pub struct FileChangeV {
    pub path: Seq<char>,
    pub content: Seq<char>,
}

impl View for FileChange {
    type V = FileChangeV;

    open spec fn view(&self) -> FileChangeV {
        FileChangeV { path: self.path@, content: self.content@ }
    }
}

/// What one processed batch asks the application to announce.
pub struct BatchOutcome {
    /// The provider recognized from a settings file in this batch, to be
    /// announced as the new active provider.
    pub provider_changed: Option<Provider>,
    /// Whether any usage record landed, so fresh stats should be announced.
    pub stats_changed: bool,
    /// Non-usage lines skipped, for observability.
    pub skipped_lines: u64,
    /// Store operations that failed (an exhausted id space or an overflowing
    /// total); each failing unit was skipped and the batch went on.
    pub store_errors: u64,
}

// ---------------------------------------------------------------------------
// Lines of a usage log.
/// The position of the first `\n` at or after `start`, or the text's length.
pub open spec fn line_end(s: Seq<char>, start: int) -> int
    decreases s.len() - start,
{
    if start < 0 || start >= s.len() {
        s.len() as int
    } else if s[start] == '\n' {
        start
    } else {
        line_end(s, start + 1)
    }
}

/// What `line_end` returns: the first newline at or after `start`.
pub proof fn lemma_line_end(s: Seq<char>, start: int)
    requires
        0 <= start <= s.len(),
    ensures
        start <= line_end(s, start) <= s.len(),
        line_end(s, start) < s.len() ==> s[line_end(s, start)] == '\n',
        forall|q: int| start <= q < line_end(s, start) ==> s[q] != '\n',
    decreases s.len() - start,
{
    if start < s.len() && s[start] != '\n' {
        lemma_line_end(s, start + 1);
    }
}

/// One raw line with a single trailing carriage return removed.
pub open spec fn strip_cr(l: Seq<char>) -> Seq<char> {
    if l.len() > 0 && l.last() == '\r' {
        l.drop_last()
    } else {
        l
    }
}

/// The lines of `s` from `start` on: split at `\n`, one trailing `\r`
/// stripped per line, with no empty final line after a trailing `\n`.
pub open spec fn spec_lines_from(s: Seq<char>, start: int) -> Seq<Seq<char>>
    decreases s.len() - start,
        when 0 <= start
        via spec_lines_from_dec
{
    if start >= s.len() {
        Seq::empty()
    } else if line_end(s, start) >= s.len() {
        seq![strip_cr(s.subrange(start, s.len() as int))]
    } else {
        seq![strip_cr(s.subrange(start, line_end(s, start)))] + spec_lines_from(
            s,
            line_end(s, start) + 1,
        )
    }
}

#[via_fn]
proof fn spec_lines_from_dec(s: Seq<char>, start: int) {
    if 0 <= start && start < s.len() {
        lemma_line_end(s, start);
    }
}

/// The lines of a usage log's text.
pub open spec fn spec_lines(s: Seq<char>) -> Seq<Seq<char>> {
    spec_lines_from(s, 0)
}

/// Splits text into lines at `\n`, dropping one trailing `\r` per line.
fn split_lines(content: &str) -> (r: Vec<String>)
    ensures
        r@.map_values(|l: String| l@) == spec_lines(content@),
{
    let ghost s = content@;
    let len = content.unicode_len();
    let mut lines: Vec<String> = Vec::new();
    let mut start: usize = 0;
    let mut i: usize = 0;
    proof {
        assert(lines@.map_values(|l: String| l@) =~= Seq::<Seq<char>>::empty());
        assert(Seq::<Seq<char>>::empty() + spec_lines_from(s, 0) =~= spec_lines_from(s, 0));
    }
    while i < len
        invariant
            start <= i <= len,
            len == s.len(),
            s == content@,
            spec_lines_from(s, 0) == lines@.map_values(|l: String| l@) + spec_lines_from(
                s,
                start as int,
            ),
            forall|q: int| start <= q < i ==> s[q] != '\n',
        decreases len - i,
    {
        let c = content.get_char(i);
        if c == '\n' {
            proof {
                lemma_line_end(s, start as int);
                let e = line_end(s, start as int);
                assert(s[i as int] == '\n');
                if e < i as int {
                    assert(s[e] != '\n');
                }
                if e > i as int {
                    assert(s[i as int] != '\n');
                }
                assert(e == i as int);
            }
            let mut end = i;
            if end > start && content.get_char(end - 1) == '\r' {
                end = end - 1;
            }
            let line = content.substring_char(start, end).to_owned();
            let ghost prev = lines@;
            lines.push(line);
            proof {
                assert(strip_cr(s.subrange(start as int, i as int)) =~= s.subrange(
                    start as int,
                    end as int,
                ));
                assert(lines@.map_values(|l: String| l@) =~= prev.map_values(
                    |l: String| l@,
                ).push(s.subrange(start as int, end as int)));
                assert(spec_lines_from(s, start as int) == seq![
                    strip_cr(s.subrange(start as int, i as int)),
                ] + spec_lines_from(s, i + 1 as int));
                assert(prev.map_values(|l: String| l@) + spec_lines_from(s, start as int)
                    =~= lines@.map_values(|l: String| l@) + spec_lines_from(s, i + 1 as int));
            }
            start = i + 1;
        }
        i = i + 1;
    }
    if start < len {
        proof {
            lemma_line_end(s, start as int);
            let e = line_end(s, start as int);
            if e < len as int {
                assert(s[e] != '\n');
            }
            assert(e == len as int);
        }
        let mut end = len;
        if end > start && content.get_char(end - 1) == '\r' {
            end = end - 1;
        }
        let line = content.substring_char(start, end).to_owned();
        let ghost prev = lines@;
        lines.push(line);
        proof {
            assert(strip_cr(s.subrange(start as int, len as int)) =~= s.subrange(
                start as int,
                end as int,
            ));
            assert(lines@.map_values(|l: String| l@) =~= prev.map_values(|l: String| l@).push(
                s.subrange(start as int, end as int),
            ));
            assert(spec_lines_from(s, start as int) == seq![
                strip_cr(s.subrange(start as int, len as int)),
            ]);
            assert(lines@.map_values(|l: String| l@) =~= spec_lines_from(s, 0));
        }
    } else {
        proof {
            assert(spec_lines_from(s, start as int) =~= Seq::<Seq<char>>::empty());
            assert(lines@.map_values(|l: String| l@) =~= spec_lines_from(s, 0));
        }
    }
    lines
}

// ---------------------------------------------------------------------------
// What a batch denotes.
/// The auth token a settings file's text resolves to, when the text parses
/// and some recognized key path holds one.
pub open spec fn settings_token_of(content: Seq<char>) -> Option<Seq<char>> {
    match crate::jsonval::json_doc_of(content) {
        Some(v) => crate::parser::spec_auth_token_of(v),
        None => None,
    }
}

/// Whether a changed file is a settings file carrying a credential.
pub open spec fn recognized_settings(c: FileChangeV) -> bool {
    spec_is_settings_file(c.path) && settings_token_of(c.content) is Some
}

/// The last settings file of the batch carrying a credential, or -1: the one
/// whose recognition the batch ends on.
pub open spec fn last_recognized(cs: Seq<FileChangeV>) -> int
    decreases cs.len(),
{
    if cs.len() == 0 {
        -1
    } else if recognized_settings(cs.last()) {
        cs.len() - 1
    } else {
        last_recognized(cs.drop_last())
    }
}

/// Whether one line's document denotes a usage record: it parses and holds a
/// model and a message id.
pub open spec fn denotes_record(line: Seq<char>) -> bool {
    match crate::jsonval::json_doc_of(line) {
        Some(v) => crate::parser::spec_model_of(v) is Some && crate::parser::spec_message_id_of(v)
            is Some,
        None => false,
    }
}

/// The message id a record-denoting line carries.
pub open spec fn record_id_of(line: Seq<char>) -> Seq<char> {
    crate::parser::spec_message_id_of(crate::jsonval::json_doc_of(line)->Some_0)->Some_0
}

/// Whether any usage-log line among the first `n` files denotes a record.
pub open spec fn batch_has_record_upto(cs: Seq<FileChangeV>, n: int) -> bool {
    exists|a: int, k: int|
        0 <= a < n && spec_is_jsonl_file(cs[a].path) && 0 <= k < spec_lines(cs[a].content).len()
            && denotes_record(#[trigger] spec_lines(cs[a].content)[k])
}

/// Whether any usage-log line of the batch denotes a record.
pub open spec fn batch_has_record(cs: Seq<FileChangeV>) -> bool {
    batch_has_record_upto(cs, cs.len() as int)
}

/// Whether every record denoted by the first `n` files is stored for
/// provider `pid`.
pub open spec fn batch_recorded_upto(
    cs: Seq<FileChangeV>,
    n: int,
    evs: Seq<crate::state::EventV>,
    pid: int,
) -> bool {
    forall|a: int, k: int|
        (0 <= a < n && spec_is_jsonl_file(cs[a].path) && 0 <= k < spec_lines(cs[a].content).len()
            && denotes_record(#[trigger] spec_lines(cs[a].content)[k])) ==> crate::state::msg_exists(
            evs,
            pid,
            record_id_of(spec_lines(cs[a].content)[k]),
        )
}

/// Whether every record the batch denotes is stored for provider `pid`.
pub open spec fn batch_recorded(
    cs: Seq<FileChangeV>,
    evs: Seq<crate::state::EventV>,
    pid: int,
) -> bool {
    batch_recorded_upto(cs, cs.len() as int, evs, pid)
}

/// Selects the skippable lines: valid JSON that denotes no usage record.
pub open spec fn skip_sel() -> spec_fn(Seq<char>) -> bool {
    |l: Seq<char>| crate::jsonval::json_doc_of(l) is Some && !denotes_record(l)
}

/// Selects every changed file.
pub open spec fn wsel_all() -> spec_fn(FileChangeV) -> bool {
    |c: FileChangeV| true
}

/// One usage log's count of skippable lines; other files count nothing.
pub open spec fn w_skipped() -> spec_fn(FileChangeV) -> int {
    |c: FileChangeV| if spec_is_jsonl_file(c.path) {
        crate::seqs::count_where(spec_lines(c.content), skip_sel())
    } else {
        0
    }
}

/// The batch's non-record lines across its usage logs.
pub open spec fn batch_skipped(cs: Seq<FileChangeV>) -> int {
    crate::seqs::sum_where(cs, wsel_all(), w_skipped())
}

/// A count held in a 64-bit counter: saturated at its top.
pub open spec fn sat64(n: int) -> int {
    if n > u64::MAX {
        u64::MAX as int
    } else {
        n
    }
}

/// Recording one event keeps every stored message stored.
proof fn lemma_insert_keeps_message(
    s: crate::state::RepoV,
    pid: int,
    rec: crate::models::RecordV,
    d: Seq<char>,
    pid2: int,
    mid: Seq<char>,
)
    requires
        crate::state::msg_exists(s.events, pid2, mid),
    ensures
        crate::state::msg_exists(crate::state::spec_insert(s, pid, rec, d).events, pid2, mid),
{
    if !crate::state::msg_exists(s.events, pid, rec.message_id) {
        crate::seqs::lemma_count_where_push(
            s.events,
            crate::state::event_of(pid, rec, d),
            crate::state::sel_msg(pid2, mid),
        );
    }
}

/// After recording, the event's own message is stored.
proof fn lemma_insert_adds_message(
    s: crate::state::RepoV,
    pid: int,
    rec: crate::models::RecordV,
    d: Seq<char>,
)
    ensures
        crate::state::msg_exists(crate::state::spec_insert(s, pid, rec, d).events, pid, rec.message_id),
{
    if !crate::state::msg_exists(s.events, pid, rec.message_id) {
        crate::seqs::lemma_count_where_exists(s.events, crate::state::sel_msg(pid, rec.message_id));
        crate::seqs::lemma_count_where_push(
            s.events,
            crate::state::event_of(pid, rec, d),
            crate::state::sel_msg(pid, rec.message_id),
        );
        assert(crate::state::sel_msg(pid, rec.message_id)(crate::state::event_of(pid, rec, d)));
    }
}

/// Processes one batch of changed files: settings files first, so a provider
/// switch in the batch attributes the batch's own usage; then every usage
/// line of every changed log, fed to the store, attributed to the provider
/// resolved in this batch or else to the stored active one. Parse failures
/// and non-usage lines never abort the batch; with no attributable provider
/// the usage files are skipped entirely, so no event is orphaned.
///
/// The outcome binds the batch: barring store errors, a provider is reported
/// exactly when some settings file of the batch carries a credential — the
/// last such file wins — and the stats flag is raised exactly when some
/// usage-log line denotes a record, every one of which is then stored for
/// the attributed provider.
#[verifier::rlimit(100)]
#[verifier::spinoff_prover]
pub fn process_changes(repo: &mut Repository, changes: &Vec<FileChange>) -> (r: BatchOutcome)
    requires
        old(repo).wf(),
    ensures
        final(repo).wf(),
        ({
            let cs = changes@.map_values(|c: FileChange| c@);
            &&& (match r.provider_changed {
                Some(p) => {
                    &&& p.is_active
                    &&& crate::seqs::count_where(
                        final(repo)@.providers,
                        crate::state::psel_active(),
                    ) == 1
                    &&& ({
                        let fps = final(repo)@.providers;
                        exists|w: int| 0 <= w < fps.len() && #[trigger] fps[w] == p@
                    })
                    &&& last_recognized(cs) != -1
                },
                None => final(repo)@.providers == old(repo)@.providers,
            })
            &&& (r.store_errors == 0 ==> (r.provider_changed is Some <==> last_recognized(cs)
                != -1))
            &&& ((r.store_errors == 0 && r.provider_changed is Some)
                ==> r.provider_changed->Some_0@.hash == crate::hashing::sha256_hex_of(
                settings_token_of(cs[last_recognized(cs)].content)->Some_0,
            ))
            &&& ((r.provider_changed is None && crate::seqs::count_where(
                old(repo)@.providers,
                crate::state::psel_active(),
            ) == 0) ==> final(repo)@ == old(repo)@)
            &&& (r.store_errors == 0 ==> (match r.provider_changed {
                Some(p) => batch_recorded(cs, final(repo)@.events, p.id as int),
                None => forall|j: int|
                    0 <= j < old(repo)@.providers.len() && (#[trigger] old(
                        repo,
                    )@.providers[j]).is_active ==> batch_recorded(
                        cs,
                        final(repo)@.events,
                        old(repo)@.providers[j].id,
                    ),
            }))
            &&& ((r.store_errors == 0 && (r.provider_changed is Some || crate::seqs::count_where(
                old(repo)@.providers,
                crate::state::psel_active(),
            ) >= 1)) ==> (r.stats_changed <==> batch_has_record(cs)))
            &&& (!r.stats_changed ==> final(repo)@.events == old(repo)@.events)
            &&& (old(repo)@.next_id + cs.len() <= i64::MAX ==> (r.provider_changed is Some
                <==> last_recognized(cs) != -1))
            &&& ((old(repo)@.next_id + cs.len() <= i64::MAX && r.provider_changed is Some)
                ==> r.provider_changed->Some_0@.hash == crate::hashing::sha256_hex_of(
                settings_token_of(cs[last_recognized(cs)].content)->Some_0,
            ))
            &&& (r.skipped_lines as int == (if r.provider_changed is Some
                || crate::seqs::count_where(old(repo)@.providers, crate::state::psel_active())
                >= 1 {
                sat64(batch_skipped(cs))
            } else {
                0
            }))
            &&& ({
                let oe = old(repo)@.events;
                let fe = final(repo)@.events;
                &&& fe.len() >= oe.len()
                &&& fe.take(oe.len() as int) == oe
                &&& (match r.provider_changed {
                    Some(p) => forall|k: int|
                        oe.len() <= k < fe.len() ==> (#[trigger] fe[k]).provider_id == p.id as int,
                    None => forall|k: int|
                        oe.len() <= k < fe.len() ==> (forall|j: int|
                            0 <= j < old(repo)@.providers.len() && (#[trigger] old(
                                repo,
                            )@.providers[j]).is_active ==> (#[trigger] fe[k]).provider_id == old(
                                repo,
                            )@.providers[j].id),
                })
            })
        }),
{
    let ghost cs = changes@.map_values(|c: FileChange| c@);
    let ghost s0 = old(repo)@;
    let mut outcome = BatchOutcome {
        provider_changed: None,
        stats_changed: false,
        skipped_lines: 0,
        store_errors: 0,
    };

    // Settings files first.
    let n = changes.len();
    let mut i: usize = 0;
    proof {
        assert(cs.take(0) =~= Seq::<FileChangeV>::empty());
    }
    while i < n
        invariant
            i <= n,
            n == cs.len(),
            cs == changes@.map_values(|c: FileChange| c@),
            repo.wf(),
            s0 == old(repo)@,
            outcome.stats_changed == false,
            outcome.skipped_lines == 0,
            repo@.events == s0.events,
            repo@.rollups == s0.rollups,
            (match outcome.provider_changed {
                Some(p) => {
                    &&& p.is_active
                    &&& crate::seqs::count_where(repo@.providers, crate::state::psel_active())
                        == 1
                    &&& (exists|w: int|
                        0 <= w < repo@.providers.len() && #[trigger] repo@.providers[w] == p@)
                    &&& last_recognized(cs.take(i as int)) != -1
                },
                None => repo@ == s0,
            }),
            (outcome.store_errors == 0 ==> (outcome.provider_changed is Some <==> last_recognized(
                cs.take(i as int),
            ) != -1)),
            ((outcome.store_errors == 0 && outcome.provider_changed is Some)
                ==> outcome.provider_changed->Some_0@.hash == crate::hashing::sha256_hex_of(
                settings_token_of(cs[last_recognized(cs.take(i as int))].content)->Some_0,
            )),
            repo@.next_id <= s0.next_id + i,
            (s0.next_id + cs.len() <= i64::MAX ==> (outcome.provider_changed is Some
                <==> last_recognized(cs.take(i as int)) != -1)),
            ((s0.next_id + cs.len() <= i64::MAX && outcome.provider_changed is Some)
                ==> outcome.provider_changed->Some_0@.hash == crate::hashing::sha256_hex_of(
                settings_token_of(cs[last_recognized(cs.take(i as int))].content)->Some_0,
            )),
        decreases n - i,
    {
        proof {
            assert(cs.take(i + 1 as int).drop_last() =~= cs.take(i as int));
            assert(cs.take(i + 1 as int).last() == cs[i as int]);
            assert(cs[i as int] == changes@[i as int]@);
        }
        if is_settings_file(changes[i].path.as_str()) {
            match parse_settings(changes[i].content.as_str()) {
                Ok(settings) => {
                    proof {
                        assert(settings_token_of(cs[i as int].content) == Some(
                            settings.api_key@,
                        ));
                        assert(recognized_settings(cs[i as int]));
                        assert(last_recognized(cs.take(i + 1 as int)) == i as int);
                    }
                    let ghost prev = repo@;
                    let ghost url = crate::models::view_opt(settings.base_url);
                    match repo.upsert_provider(settings.api_key.as_str(), settings.base_url) {
                        Ok(p) => {
                            proof {
                                let hash = crate::hashing::sha256_hex_of(settings.api_key@);
                                let su = crate::state::spec_upsert(
                                    prev,
                                    hash,
                                    crate::models::prefix8(settings.api_key@),
                                    url,
                                    p@.last_seen_at,
                                );
                                assert(repo@ == su.0 && p@ == su.1);
                                let j = crate::state::find_provider(prev.providers, hash);
                                crate::seqs::lemma_first_where(
                                    prev.providers,
                                    crate::state::psel_hash(hash),
                                );
                                if j == -1 {
                                    assert(repo@.providers[prev.providers.len() as int] == p@);
                                } else {
                                    assert(repo@.providers[j] == p@);
                                }
                            }
                            outcome.provider_changed = Some(p);
                        },
                        Err(_) => {
                            proof {
                                // A failed recognition needs an exhausted id
                                // space, which the headroom premise rules out.
                                if s0.next_id + cs.len() <= i64::MAX {
                                    assert(crate::state::upsert_fits(
                                        prev,
                                        crate::hashing::sha256_hex_of(settings.api_key@),
                                    ));
                                }
                            }
                            if outcome.store_errors < u64::MAX {
                                outcome.store_errors = outcome.store_errors + 1;
                            }
                        },
                    }
                },
                Err(_) => {
                    proof {
                        assert(settings_token_of(cs[i as int].content) is None);
                        assert(!recognized_settings(cs[i as int]));
                    }
                },
            }
        } else {
            proof {
                assert(!recognized_settings(cs[i as int]));
            }
        }
        i = i + 1;
    }
    proof {
        assert(cs.take(n as int) =~= cs);
    }
    let ghost s1 = repo@;

    // Attribute usage to this batch's provider, else the stored active one.
    let active: Option<Provider> = match &outcome.provider_changed {
        Some(p) => Some(clone_provider(p)),
        None => match repo.get_active_provider() {
            Ok(opt) => opt,
            Err(_) => None,
        },
    };
    let ghost pc = outcome.provider_changed;
    match active {
        Some(provider) => {
            let ghost pid = provider.id as int;
            proof {
                if pc is Some {
                    assert(provider@ == pc->Some_0@);
                } else {
                    assert(provider@.is_active);
                    assert(exists|w: int|
                        0 <= w < s0.providers.len() && #[trigger] s0.providers[w] == provider@);
                }
                assert(batch_recorded_upto(cs, 0, repo@.events, pid));
                assert(cs.take(0) =~= Seq::<FileChangeV>::empty());
                assert(repo@.events.take(s0.events.len() as int) =~= repo@.events);
            }
            let mut i: usize = 0;
            while i < n
                invariant
                    i <= n,
                    n == cs.len(),
                    cs == changes@.map_values(|c: FileChange| c@),
                    repo.wf(),
                    s0 == old(repo)@,
                    repo@.providers == s1.providers,
                    repo@.next_id == s1.next_id,
                    outcome.provider_changed == pc,
                    pid == provider.id as int,
                    (pc is Some ==> provider@ == pc->Some_0@),
                    (pc is None ==> provider@.is_active && repo@.providers == s0.providers && (
                    exists|w: int|
                        0 <= w < s0.providers.len() && #[trigger] s0.providers[w] == provider@)),
                    (match pc {
                        Some(p) => {
                            &&& p.is_active
                            &&& crate::seqs::count_where(
                                repo@.providers,
                                crate::state::psel_active(),
                            ) == 1
                            &&& (exists|w: int|
                                0 <= w < repo@.providers.len() && #[trigger] repo@.providers[w]
                                    == p@)
                            &&& last_recognized(cs) != -1
                        },
                        None => repo@.providers == s0.providers,
                    }),
                    (outcome.store_errors == 0 ==> (pc is Some <==> last_recognized(cs) != -1)),
                    ((outcome.store_errors == 0 && pc is Some) ==> pc->Some_0@.hash
                        == crate::hashing::sha256_hex_of(
                        settings_token_of(cs[last_recognized(cs)].content)->Some_0,
                    )),
                    (outcome.store_errors == 0 ==> batch_recorded_upto(
                        cs,
                        i as int,
                        repo@.events,
                        pid,
                    )),
                    (outcome.store_errors == 0 ==> (outcome.stats_changed <==> batch_has_record_upto(
                        cs,
                        i as int,
                    ))),
                    (!outcome.stats_changed ==> repo@.events == s0.events),
                    (s0.next_id + cs.len() <= i64::MAX ==> (pc is Some <==> last_recognized(cs)
                        != -1)),
                    ((s0.next_id + cs.len() <= i64::MAX && pc is Some) ==> pc->Some_0@.hash
                        == crate::hashing::sha256_hex_of(
                        settings_token_of(cs[last_recognized(cs)].content)->Some_0,
                    )),
                    outcome.skipped_lines as int == sat64(
                        crate::seqs::sum_where(cs.take(i as int), wsel_all(), w_skipped()),
                    ),
                    repo@.events.len() >= s0.events.len(),
                    repo@.events.take(s0.events.len() as int) == s0.events,
                    forall|k2: int|
                        s0.events.len() <= k2 < repo@.events.len() ==> (#[trigger] repo@.events[k2]).provider_id
                            == pid,
                decreases n - i,
            {
                proof {
                    assert(cs[i as int] == changes@[i as int]@);
                }
                if is_jsonl_file(changes[i].path.as_str()) {
                    let lines = split_lines(changes[i].content.as_str());
                    let ghost lv = spec_lines(cs[i as int].content);
                    let m = lines.len();
                    let mut k: usize = 0;
                    while k < m
                        invariant
                            k <= m,
                            m == lv.len(),
                            lv == spec_lines(cs[i as int].content),
                            lines@.map_values(|l: String| l@) == lv,
                            i < n,
                            n == cs.len(),
                            cs == changes@.map_values(|c: FileChange| c@),
                            spec_is_jsonl_file(cs[i as int].path),
                            repo.wf(),
                            s0 == old(repo)@,
                            repo@.providers == s1.providers,
                            repo@.next_id == s1.next_id,
                            outcome.provider_changed == pc,
                            pid == provider.id as int,
                            (pc is Some ==> provider@ == pc->Some_0@),
                            (pc is None ==> provider@.is_active && repo@.providers == s0.providers
                                && (exists|w: int|
                                0 <= w < s0.providers.len() && #[trigger] s0.providers[w]
                                    == provider@)),
                            (match pc {
                                Some(p) => {
                                    &&& p.is_active
                                    &&& crate::seqs::count_where(
                                        repo@.providers,
                                        crate::state::psel_active(),
                                    ) == 1
                                    &&& (exists|w: int|
                                        0 <= w < repo@.providers.len()
                                            && #[trigger] repo@.providers[w] == p@)
                                    &&& last_recognized(cs) != -1
                                },
                                None => repo@.providers == s0.providers,
                            }),
                            (outcome.store_errors == 0 ==> (pc is Some <==> last_recognized(cs)
                                != -1)),
                            ((outcome.store_errors == 0 && pc is Some) ==> pc->Some_0@.hash
                                == crate::hashing::sha256_hex_of(
                                settings_token_of(cs[last_recognized(cs)].content)->Some_0,
                            )),
                            (outcome.store_errors == 0 ==> batch_recorded_upto(
                                cs,
                                i as int,
                                repo@.events,
                                pid,
                            )),
                            (outcome.store_errors == 0 ==> (forall|k2: int|
                                0 <= k2 < k && denotes_record(#[trigger] lv[k2])
                                    ==> crate::state::msg_exists(
                                    repo@.events,
                                    pid,
                                    record_id_of(lv[k2]),
                                ))),
                            (outcome.store_errors == 0 ==> (outcome.stats_changed
                                <==> batch_has_record_upto(cs, i as int) || (exists|k2: int|
                                0 <= k2 < k && denotes_record(#[trigger] lv[k2])))),
                            (!outcome.stats_changed ==> repo@.events == s0.events),
                            (s0.next_id + cs.len() <= i64::MAX ==> (pc is Some <==> last_recognized(
                                cs,
                            ) != -1)),
                            ((s0.next_id + cs.len() <= i64::MAX && pc is Some)
                                ==> pc->Some_0@.hash == crate::hashing::sha256_hex_of(
                                settings_token_of(cs[last_recognized(cs)].content)->Some_0,
                            )),
                            outcome.skipped_lines as int == sat64(
                                crate::seqs::sum_where(cs.take(i as int), wsel_all(), w_skipped())
                                    + crate::seqs::count_where(lv.take(k as int), skip_sel()),
                            ),
                            repo@.events.len() >= s0.events.len(),
                            repo@.events.take(s0.events.len() as int) == s0.events,
                            forall|k2: int|
                                s0.events.len() <= k2 < repo@.events.len()
                                    ==> (#[trigger] repo@.events[k2]).provider_id == pid,
                        decreases m - k,
                    {
                        proof {
                            assert(lines@[k as int]@ == lv[k as int]);
                            assert(lv.take(k + 1 as int).drop_last() =~= lv.take(k as int));
                            assert(lv.take(k + 1 as int).last() == lv[k as int]);
                            crate::seqs::lemma_count_where_push(
                                lv.take(k as int),
                                lv[k as int],
                                skip_sel(),
                            );
                            crate::seqs::lemma_count_where_exists(lv.take(k as int), skip_sel());
                            assert forall|a: int| 0 <= a < cs.len() implies w_skipped()(
                                #[trigger] cs[a],
                            ) >= 0 by {
                                crate::seqs::lemma_count_where_exists(
                                    spec_lines(cs[a].content),
                                    skip_sel(),
                                );
                            }
                            crate::seqs::lemma_sum_where_nonneg(
                                cs.take(i as int),
                                wsel_all(),
                                w_skipped(),
                            );
                        }
                        match parse_jsonl_line(lines[k].as_str()) {
                            Ok(Some(record)) => {
                                proof {
                                    assert(denotes_record(lv[k as int]));
                                    let v = crate::jsonval::json_doc_of(lv[k as int])->Some_0;
                                    let now = choose|now: Seq<char>|
                                        #[trigger] crate::parser::spec_record_of(v, now) == Some(
                                            record@,
                                        );
                                    assert(record@.message_id == record_id_of(lv[k as int]));
                                }
                                let ghost prev = repo@;
                                match repo.insert_message_usage(provider.id, &record) {
                                    Ok(()) => {
                                        outcome.stats_changed = true;
                                        proof {
                                            let d = choose|d: Seq<char>|
                                                repo@ == #[trigger] crate::state::spec_insert(
                                                    prev,
                                                    pid,
                                                    record@,
                                                    d,
                                                ) && crate::state::insert_fits(
                                                    prev,
                                                    pid,
                                                    record@,
                                                    d,
                                                );
                                            lemma_insert_adds_message(prev, pid, record@, d);
                                            assert(!skip_sel()(lv[k as int]));
                                            let e = crate::state::event_of(pid, record@, d);
                                            assert(repo@.events == prev.events || repo@.events
                                                == prev.events.push(e));
                                            assert(repo@.events.take(s0.events.len() as int)
                                                =~= prev.events.take(s0.events.len() as int));
                                            assert forall|k2: int|
                                                s0.events.len() <= k2 < repo@.events.len() implies (
                                            #[trigger] repo@.events[k2]).provider_id == pid by {
                                                if k2 < prev.events.len() {
                                                    assert(repo@.events[k2] == prev.events[k2]);
                                                }
                                            }
                                            if outcome.store_errors == 0 {
                                                assert forall|a: int, k2: int|
                                                    (0 <= a < i && spec_is_jsonl_file(cs[a].path)
                                                        && 0 <= k2 < spec_lines(
                                                        cs[a].content,
                                                    ).len() && denotes_record(
                                                        #[trigger] spec_lines(cs[a].content)[k2],
                                                    )) implies crate::state::msg_exists(
                                                    repo@.events,
                                                    pid,
                                                    record_id_of(spec_lines(cs[a].content)[k2]),
                                                ) by {
                                                    lemma_insert_keeps_message(
                                                        prev,
                                                        pid,
                                                        record@,
                                                        d,
                                                        pid,
                                                        record_id_of(spec_lines(cs[a].content)[k2]),
                                                    );
                                                }
                                                assert forall|k2: int|
                                                    0 <= k2 < k + 1 && denotes_record(
                                                        #[trigger] lv[k2],
                                                    ) implies crate::state::msg_exists(
                                                    repo@.events,
                                                    pid,
                                                    record_id_of(lv[k2]),
                                                ) by {
                                                    if k2 < k {
                                                        lemma_insert_keeps_message(
                                                            prev,
                                                            pid,
                                                            record@,
                                                            d,
                                                            pid,
                                                            record_id_of(lv[k2]),
                                                        );
                                                    }
                                                }
                                            }
                                        }
                                    },
                                    Err(_) => {
                                        proof {
                                            assert(!skip_sel()(lv[k as int]));
                                        }
                                        if outcome.store_errors < u64::MAX {
                                            outcome.store_errors = outcome.store_errors + 1;
                                        }
                                    },
                                }
                            },
                            Ok(None) => {
                                proof {
                                    assert(!denotes_record(lv[k as int]));
                                    if crate::jsonval::json_doc_of(lv[k as int]) is None {
                                        assert(false);
                                    }
                                    assert(skip_sel()(lv[k as int]));
                                }
                                if outcome.skipped_lines < u64::MAX {
                                    outcome.skipped_lines = outcome.skipped_lines + 1;
                                }
                            },
                            Err(_) => {
                                proof {
                                    assert(!denotes_record(lv[k as int]));
                                    assert(!skip_sel()(lv[k as int]));
                                }
                            },
                        }
                        k = k + 1;
                    }
                    proof {
                        assert(cs.take(i + 1 as int).drop_last() =~= cs.take(i as int));
                        assert(cs.take(i + 1 as int).last() == cs[i as int]);
                        crate::seqs::lemma_sum_where_push(
                            cs.take(i as int),
                            cs[i as int],
                            wsel_all(),
                            w_skipped(),
                        );
                        assert(lv.take(m as int) =~= lv);
                        assert(w_skipped()(cs[i as int]) == crate::seqs::count_where(
                            lv,
                            skip_sel(),
                        ));
                        if outcome.store_errors == 0 {
                            assert forall|a: int, k2: int|
                                (0 <= a < i + 1 && spec_is_jsonl_file(cs[a].path) && 0 <= k2
                                    < spec_lines(cs[a].content).len() && denotes_record(
                                    #[trigger] spec_lines(cs[a].content)[k2],
                                )) implies crate::state::msg_exists(
                                repo@.events,
                                pid,
                                record_id_of(spec_lines(cs[a].content)[k2]),
                            ) by {
                                if a == i as int {
                                    assert(denotes_record(lv[k2]));
                                }
                            }
                            assert((batch_has_record_upto(cs, i + 1 as int)
                                <==> batch_has_record_upto(cs, i as int) || (exists|k2: int|
                                0 <= k2 < m && denotes_record(#[trigger] lv[k2])))) by {
                                if batch_has_record_upto(cs, i + 1 as int) {
                                    let (a, k2) = choose|a: int, k2: int|
                                        0 <= a < i + 1 && spec_is_jsonl_file(cs[a].path) && 0 <= k2
                                            < spec_lines(cs[a].content).len() && denotes_record(
                                            #[trigger] spec_lines(cs[a].content)[k2],
                                        );
                                    if a == i as int {
                                        assert(denotes_record(lv[k2]));
                                    }
                                }
                            }
                        }
                    }
                } else {
                    proof {
                        assert(cs.take(i + 1 as int).drop_last() =~= cs.take(i as int));
                        assert(cs.take(i + 1 as int).last() == cs[i as int]);
                        crate::seqs::lemma_sum_where_push(
                            cs.take(i as int),
                            cs[i as int],
                            wsel_all(),
                            w_skipped(),
                        );
                        assert(w_skipped()(cs[i as int]) == 0);
                        if outcome.store_errors == 0 {
                            assert forall|a: int, k2: int|
                                (0 <= a < i + 1 && spec_is_jsonl_file(cs[a].path) && 0 <= k2
                                    < spec_lines(cs[a].content).len() && denotes_record(
                                    #[trigger] spec_lines(cs[a].content)[k2],
                                )) implies crate::state::msg_exists(
                                repo@.events,
                                pid,
                                record_id_of(spec_lines(cs[a].content)[k2]),
                            ) by {}
                            assert((batch_has_record_upto(cs, i + 1 as int)
                                <==> batch_has_record_upto(cs, i as int))) by {
                                if batch_has_record_upto(cs, i + 1 as int) {
                                    let (a, k2) = choose|a: int, k2: int|
                                        0 <= a < i + 1 && spec_is_jsonl_file(cs[a].path) && 0 <= k2
                                            < spec_lines(cs[a].content).len() && denotes_record(
                                            #[trigger] spec_lines(cs[a].content)[k2],
                                        );
                                    assert(a < i as int);
                                }
                            }
                        }
                    }
                }
                i = i + 1;
            }
            proof {
                assert(cs.take(n as int) =~= cs);
                if pc is None {
                    // The attributed provider is the single stored active one.
                    let w = choose|w: int|
                        0 <= w < s0.providers.len() && #[trigger] s0.providers[w] == provider@;
                    crate::seqs::lemma_count_where_exists(
                        s0.providers,
                        crate::state::psel_active(),
                    );
                    assert(crate::state::psel_active()(s0.providers[w]));
                    assert(crate::seqs::count_where(s0.providers, crate::state::psel_active())
                        >= 1);
                    assert forall|j: int|
                        0 <= j < s0.providers.len() && (#[trigger] s0.providers[j]).is_active
                            implies s0.providers[j].id == pid by {
                        if j != w {
                            crate::seqs::lemma_count_where_two(
                                s0.providers,
                                crate::state::psel_active(),
                                if j < w {
                                    j
                                } else {
                                    w
                                },
                                if j < w {
                                    w
                                } else {
                                    j
                                },
                            );
                        }
                    }
                    if outcome.store_errors == 0 {
                        assert forall|j: int|
                            0 <= j < s0.providers.len() && (#[trigger] s0.providers[j]).is_active
                                implies batch_recorded(cs, repo@.events, s0.providers[j].id) by {
                            if j != w {
                                crate::seqs::lemma_count_where_two(
                                    s0.providers,
                                    crate::state::psel_active(),
                                    if j < w {
                                        j
                                    } else {
                                        w
                                    },
                                    if j < w {
                                        w
                                    } else {
                                        j
                                    },
                                );
                            }
                            assert(s0.providers[j].id == pid);
                        }
                    }
                }
            }
        },
        None => {
            proof {
                assert(pc is None);
                assert(forall|j: int|
                    0 <= j < repo@.providers.len() ==> !(#[trigger] repo@.providers[j]).is_active);
                crate::seqs::lemma_count_where_exists(s0.providers, crate::state::psel_active());
                assert(crate::seqs::count_where(s0.providers, crate::state::psel_active()) == 0);
            }
        },
    }
    outcome
}

} // verus!
