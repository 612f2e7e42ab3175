//! Decisions behind incremental transcript scanning: where a file resumes,
//! which bytes form complete lines, and how a line falls back to a project.

use vstd::prelude::*;
use vstd::slice::slice_subrange;
use crate::parse::might_carry_usage;
use crate::record::UsageRecord;
use crate::text::{contains_run, from_chars, to_chars};

verus! {

/// The FNV-1a offset basis.
pub const FNV_OFFSET_BASIS: u32 = 0x811c_9dc5;

/// The FNV-1a prime.
pub const FNV_PRIME: u32 = 0x0100_0193;

/// One FNV-1a step: xor in the byte, then multiply modulo 2^32.
pub open spec fn fnv1a_step(hash: u32, byte: u8) -> u32 {
    (((hash ^ (byte as u32)) as nat * FNV_PRIME as nat) % 0x1_0000_0000nat) as u32
}

/// FNV-1a (32-bit) of `bytes`.
pub open spec fn fnv1a_spec(bytes: Seq<u8>) -> u32
    decreases bytes.len(),
{
    if bytes.len() == 0 {
        FNV_OFFSET_BASIS
    } else {
        fnv1a_step(fnv1a_spec(bytes.drop_last()), bytes.last())
    }
}

/// 32-bit FNV-1a of `bytes`.
pub fn fnv1a(bytes: &[u8]) -> (hash: u32)
    ensures
        hash == fnv1a_spec(bytes@),
{
    let mut hash: u32 = FNV_OFFSET_BASIS;
    let n = bytes.len();
    let mut i: usize = 0;
    while i < n
        invariant
            n == bytes@.len(),
            i <= n,
            hash == fnv1a_spec(bytes@.take(i as int)),
        decreases n - i,
    {
        let byte = bytes[i];
        assert(bytes@.take(i + 1).drop_last() =~= bytes@.take(i as int));
        hash = hash ^ (byte as u32);
        hash = hash.wrapping_mul(FNV_PRIME);
        i = i + 1;
    }
    assert(bytes@.take(n as int) =~= bytes@);
    hash
}

/// How many bytes of a file's tail the resume guard hashes.
pub const GUARD_LEN: usize = 64;

/// The newline byte.
pub const NEWLINE: u8 = 10;

/// The carriage-return byte.
pub const CARRIAGE_RETURN: u8 = 13;

/// The positions just past each newline in `buf`: the ends of its complete
/// lines, in order.
pub open spec fn line_ends(buf: Seq<u8>) -> Seq<int>
    decreases buf.len(),
{
    if buf.len() == 0 {
        Seq::empty()
    } else if buf.last() == NEWLINE {
        line_ends(buf.drop_last()).push(buf.len() as int)
    } else {
        line_ends(buf.drop_last())
    }
}

/// How many bytes of `buf` its complete lines cover (0 without a newline).
pub open spec fn consumed_len(buf: Seq<u8>) -> int {
    let ends = line_ends(buf);
    if ends.len() == 0 {
        0
    } else {
        ends.last()
    }
}

/// The ends of the complete (newline-terminated) lines of `buf`. A trailing
/// line without its newline is not among them: the writer may be mid-line.
pub fn complete_line_ends(buf: &[u8]) -> (ends: Vec<usize>)
    ensures
        ends@.len() == line_ends(buf@).len(),
        forall|k: int| 0 <= k < ends@.len() ==> ends@[k] as int == #[trigger] line_ends(buf@)[k],
{
    let n = buf.len();
    let mut ends: Vec<usize> = Vec::new();
    let mut i: usize = 0;
    while i < n
        invariant
            n == buf@.len(),
            i <= n,
            ends@.len() == line_ends(buf@.take(i as int)).len(),
            forall|k: int| 0 <= k < ends@.len() ==> ends@[k] as int == #[trigger] line_ends(buf@.take(i as int))[k],
        decreases n - i,
    {
        let ghost prefix = buf@.take(i + 1);
        assert(prefix.drop_last() =~= buf@.take(i as int));
        if buf[i] == NEWLINE {
            ends.push(i + 1);
        }
        i = i + 1;
    }
    assert(buf@.take(n as int) =~= buf@);
    ends
}

proof fn lemma_line_ends_bounds(buf: Seq<u8>)
    ensures
        forall|k: int| 0 <= k < line_ends(buf).len() ==> 0 < #[trigger] line_ends(buf)[k] <= buf.len()
            && buf[line_ends(buf)[k] - 1] == NEWLINE,
        forall|k1: int, k2: int| 0 <= k1 < k2 < line_ends(buf).len() ==> #[trigger] line_ends(buf)[k1]
            < #[trigger] line_ends(buf)[k2],
        forall|p: int| consumed_len(buf) <= p < buf.len() ==> buf[p] != NEWLINE,
        0 <= consumed_len(buf) <= buf.len(),
    decreases buf.len(),
{
    if buf.len() > 0 {
        let init = buf.drop_last();
        lemma_line_ends_bounds(init);
        assert forall|k: int| 0 <= k < line_ends(buf).len() implies 0 < #[trigger] line_ends(buf)[k] <= buf.len()
            && buf[line_ends(buf)[k] - 1] == NEWLINE by {
            if k < line_ends(init).len() {
                assert(line_ends(buf)[k] == line_ends(init)[k]);
                assert(buf[line_ends(init)[k] - 1] == init[line_ends(init)[k] - 1]);
            }
        }
        assert forall|p: int| consumed_len(buf) <= p < buf.len() implies buf[p] != NEWLINE by {
            if p < buf.len() - 1 {
                assert(buf[p] == init[p]);
            }
        }
    }
}

/// Every complete line ends in a newline, the ends increase, and no newline
/// lies in the unconsumed tail: a half-written last line is never consumed.
pub proof fn law_unfinished_line_not_consumed(buf: Seq<u8>)
    ensures
        forall|k: int| 0 <= k < line_ends(buf).len() ==> 0 < #[trigger] line_ends(buf)[k] <= buf.len()
            && buf[line_ends(buf)[k] - 1] == NEWLINE,
        forall|k1: int, k2: int| 0 <= k1 < k2 < line_ends(buf).len() ==> #[trigger] line_ends(buf)[k1]
            < #[trigger] line_ends(buf)[k2],
        forall|p: int| consumed_len(buf) <= p < buf.len() ==> buf[p] != NEWLINE,
        0 <= consumed_len(buf) <= buf.len(),
{
    lemma_line_ends_bounds(buf);
}

/// Reading a file in two passes, resuming where the first stopped, finds the
/// same complete lines as reading it in one: when the first part `a` ends at
/// a line boundary, the lines of `a + b` are those of `a` followed by those
/// of `b`, shifted by `a`'s length, and the bytes consumed are all of `a`
/// and what the second pass consumed of `b`.
pub proof fn law_resumed_read_matches_full_read(a: Seq<u8>, b: Seq<u8>)
    requires
        a.len() == 0 || a.last() == NEWLINE,
    ensures
        line_ends(a + b) == line_ends(a) + line_ends(b).map_values(|e: int| e + a.len()),
        consumed_len(a + b) == a.len() + consumed_len(b),
    decreases b.len(),
{
    lemma_resumed_lines(a, b);
    let ea = line_ends(a);
    let eb = line_ends(b);
    let shifted = eb.map_values(|e: int| e + a.len());
    if a.len() > 0 {
        assert(ea == line_ends(a.drop_last()).push(a.len() as int));
    }
    if eb.len() > 0 {
        assert((ea + shifted).last() == shifted.last());
    } else {
        assert(ea + shifted =~= ea);
    }
}

proof fn lemma_resumed_lines(a: Seq<u8>, b: Seq<u8>)
    requires
        a.len() == 0 || a.last() == NEWLINE,
    ensures
        line_ends(a + b) == line_ends(a) + line_ends(b).map_values(|e: int| e + a.len()),
    decreases b.len(),
{
    if b.len() == 0 {
        assert(a + b =~= a);
        assert(line_ends(b).map_values(|e: int| e + a.len()) =~= Seq::<int>::empty());
        assert(line_ends(a) + Seq::<int>::empty() =~= line_ends(a));
    } else {
        let b0 = b.drop_last();
        lemma_resumed_lines(a, b0);
        assert((a + b).drop_last() =~= a + b0);
        assert((a + b).last() == b.last());
        if b.last() == NEWLINE {
            assert(line_ends(b).map_values(|e: int| e + a.len()) =~= line_ends(b0).map_values(|e: int| e + a.len()).push(
                (b.len() + a.len()) as int,
            ));
            assert(line_ends(a + b) =~= line_ends(a) + line_ends(b).map_values(|e: int| e + a.len()));
        } else {
            assert(line_ends(b).map_values(|e: int| e + a.len()) =~= line_ends(b0).map_values(|e: int| e + a.len()));
        }
    }
}

/// The complete lines of `buf`, each with its newline, in order.
pub open spec fn lines_of(buf: Seq<u8>) -> Seq<Seq<u8>> {
    let ends = line_ends(buf);
    Seq::new(ends.len(), |k: int| buf.subrange(if k == 0 { 0 } else { ends[k - 1] }, ends[k]))
}

/// The values of `xs` that are present, in order.
pub open spec fn present<T>(xs: Seq<Option<T>>) -> Seq<T>
    decreases xs.len(),
{
    if xs.len() == 0 {
        Seq::empty()
    } else {
        let init = present(xs.drop_last());
        match xs.last() {
            Some(x) => init.push(x),
            None => init,
        }
    }
}

/// What reading `buf` yields when `parse` turns each complete line into at
/// most one record.
pub open spec fn records_read<T>(buf: Seq<u8>, parse: spec_fn(Seq<u8>) -> Option<T>) -> Seq<T> {
    present(lines_of(buf).map_values(parse))
}

proof fn lemma_present_concat<T>(xs: Seq<Option<T>>, ys: Seq<Option<T>>)
    ensures
        present(xs + ys) == present(xs) + present(ys),
    decreases ys.len(),
{
    if ys.len() == 0 {
        assert(xs + ys =~= xs);
        assert(present(xs) + present(ys) =~= present(xs));
    } else {
        lemma_present_concat(xs, ys.drop_last());
        assert((xs + ys).drop_last() =~= xs + ys.drop_last());
        assert((xs + ys).last() == ys.last());
        match ys.last() {
            Some(x) => {
                assert(present(xs) + present(ys) =~= (present(xs) + present(ys.drop_last())).push(x));
            },
            None => {},
        }
    }
}

/// A refresh that resumes at a line boundary yields what a fresh full read
/// yields: when the bytes read before, `a`, end at a line boundary, the
/// complete lines of `a + b` are those of `a` followed by those of the
/// appended `b`, so for any way of turning a line into a record the records
/// kept from `a` followed by those read from `b` are the records of a full
/// read of `a + b`. Appended bytes are counted once, and a trailing
/// unfinished line never.
pub proof fn law_resumed_read_yields_the_same_records<T>(
    a: Seq<u8>,
    b: Seq<u8>,
    parse: spec_fn(Seq<u8>) -> Option<T>,
)
    requires
        a.len() == 0 || a.last() == NEWLINE,
    ensures
        lines_of(a + b) == lines_of(a) + lines_of(b),
        records_read(a + b, parse) == records_read(a, parse) + records_read(b, parse),
{
    lemma_resumed_lines(a, b);
    lemma_line_ends_bounds(a);
    lemma_line_ends_bounds(b);
    let ab = a + b;
    let ea = line_ends(a);
    let eb = line_ends(b);
    let e = line_ends(ab);
    let n = a.len() as int;
    if a.len() > 0 {
        assert(ea == line_ends(a.drop_last()).push(n));
    }
    assert(e.len() == ea.len() + eb.len());
    let la = lines_of(a);
    let lb = lines_of(b);
    let l = lines_of(ab);
    assert forall|k: int| 0 <= k < l.len() implies #[trigger] l[k] == (la + lb)[k] by {
        if k < ea.len() {
            assert(e[k] == ea[k]);
            if k > 0 {
                assert(e[k - 1] == ea[k - 1]);
                assert(0 < ea[k - 1] < ea[k]);
            }
            let st = if k == 0 { 0 } else { ea[k - 1] };
            assert(ab.subrange(st, ea[k]) =~= a.subrange(st, ea[k]));
        } else {
            let j = k - ea.len();
            assert(e[k] == eb[j] + n);
            let sb = if j == 0 { 0 } else { eb[j - 1] };
            if j > 0 {
                assert(e[k - 1] == eb[j - 1] + n);
                assert(0 < eb[j - 1] < eb[j]);
            } else if k > 0 {
                assert(e[k - 1] == ea[k - 1]);
                assert(ea[k - 1] == ea.last());
            }
            assert(0 < eb[j] <= b.len());
            assert(ab.subrange(sb + n, eb[j] + n) =~= b.subrange(sb, eb[j]));
        }
    }
    assert(l =~= la + lb);
    assert(l.map_values(parse) =~= la.map_values(parse) + lb.map_values(parse));
    lemma_present_concat(la.map_values(parse), lb.map_values(parse));
}

/// `line` without one trailing `\n` and then one trailing `\r`.
pub open spec fn strip_line_endings_spec(line: Seq<u8>) -> Seq<u8> {
    let l1 = if line.len() > 0 && line.last() == NEWLINE { line.drop_last() } else { line };
    if l1.len() > 0 && l1.last() == CARRIAGE_RETURN { l1.drop_last() } else { l1 }
}

/// Drops a trailing `\n`, then a trailing `\r`.
pub fn strip_line_endings(line: &[u8]) -> (r: &[u8])
    ensures
        r@ == strip_line_endings_spec(line@),
{
    let mut n = line.len();
    if n > 0 && line[n - 1] == NEWLINE {
        n = n - 1;
    }
    let ghost l1 = line@.subrange(0, n as int);
    assert(l1 =~= (if line@.len() > 0 && line@.last() == NEWLINE { line@.drop_last() } else { line@ }));
    if n > 0 && line[n - 1] == CARRIAGE_RETURN {
        n = n - 1;
    }
    let r = slice_subrange(line, 0, n);
    assert(r@ =~= (if l1.len() > 0 && l1.last() == CARRIAGE_RETURN { l1.drop_last() } else { l1 }));
    r
}

/// Line endings come off and nothing else does: a line ending in `\r\n` or
/// `\n` loses exactly that ending, and a line ending in neither is kept
/// whole.
pub proof fn law_only_line_endings_are_stripped(text: Seq<u8>)
    ensures
        strip_line_endings_spec(text + seq![CARRIAGE_RETURN, NEWLINE]) == text,
        text.len() == 0 || text.last() != CARRIAGE_RETURN ==> strip_line_endings_spec(text + seq![NEWLINE])
            == text,
        text.len() == 0 || (text.last() != CARRIAGE_RETURN && text.last() != NEWLINE) ==> strip_line_endings_spec(
            text,
        ) == text,
{
    let a = text + seq![CARRIAGE_RETURN, NEWLINE];
    assert(a.drop_last() =~= text + seq![CARRIAGE_RETURN]);
    assert((text + seq![CARRIAGE_RETURN]).drop_last() =~= text);
    assert((text + seq![NEWLINE]).drop_last() =~= text);
}

/// Decodes `bytes` as UTF-8.
///
/// Trusted: calls std's `str::from_utf8`, documented to accept exactly the
/// well-formed UTF-8 byte sequences; the contract states acceptance as vstd's
/// `valid_utf8` and the text as vstd's `decode_utf8`.
#[verifier::external_body]
pub(crate) fn utf8_text(bytes: &[u8]) -> (r: Option<&str>)
    ensures
        r is Some <==> vstd::utf8::valid_utf8(bytes@),
        r matches Some(s) ==> s@ == vstd::utf8::decode_utf8(bytes@),
{
    match std::str::from_utf8(bytes) {
        Ok(s) => Some(s),
        Err(_) => None,
    }
}

/// The text of a raw transcript line worth decoding: line endings dropped,
/// valid UTF-8, and carrying the literal `"usage"`.
pub fn usage_line_text(raw_line: &[u8]) -> (r: Option<String>)
    ensures
        ({
            let bytes = strip_line_endings_spec(raw_line@);
            match r {
                Some(s) => vstd::utf8::valid_utf8(bytes) && s@ == vstd::utf8::decode_utf8(bytes)
                    && contains_run(s@, "\"usage\""@),
                None => !vstd::utf8::valid_utf8(bytes) || !contains_run(
                    vstd::utf8::decode_utf8(bytes),
                    "\"usage\""@,
                ),
            }
        }),
{
    let bytes = strip_line_endings(raw_line);
    match utf8_text(bytes) {
        Some(text) => {
            if might_carry_usage(text) {
                Some(text.to_owned())
            } else {
                None
            }
        },
        None => None,
    }
}

/// Fills in a record's project from its transcript directory when the turn
/// recorded no working directory.
pub fn with_project_fallback(record: UsageRecord, dir_project: &String) -> (r: UsageRecord)
    ensures
        r.project@ == (if record.project@.len() == 0 { dir_project@ } else { record.project@ }),
        r.timestamp_ms == record.timestamp_ms,
        r.model == record.model,
        r.session_id == record.session_id,
        r.totals == record.totals,
        r.reported_cost_usd == record.reported_cost_usd,
        r.dedupe_key == record.dedupe_key,
{
    let mut record = record;
    if record.project.as_str().is_empty() {
        record.project = dir_project.clone();
    }
    record
}

/// The readable path that the CLI's encoded transcript directory name
/// stands for: a leading dash dropped, the remaining dashes read as path
/// separators, under `/`. The encoding is lossy: real dashes come back as
/// separators.
pub open spec fn decode_project_dir_spec(dir_name: Seq<char>) -> Seq<char> {
    let trimmed = if dir_name.len() > 0 && dir_name[0] == '-' { dir_name.drop_first() } else { dir_name };
    seq!['/'] + trimmed.map_values(|c: char| if c == '-' { '/' } else { c })
}

/// A decoded directory name is a rooted path of the same characters: it
/// starts with `/`, has no dash left, keeps every other character in place,
/// and is as long as the name without its leading dash, plus the root.
pub proof fn law_decoded_dir_is_a_rooted_path(dir_name: Seq<char>)
    ensures
        decode_project_dir_spec(dir_name)[0] == '/',
        forall|i: int| 0 <= i < decode_project_dir_spec(dir_name).len() ==> #[trigger] decode_project_dir_spec(
            dir_name,
        )[i] != '-',
        dir_name.len() > 0 && dir_name[0] == '-' ==> decode_project_dir_spec(dir_name).len() == dir_name.len(),
        !(dir_name.len() > 0 && dir_name[0] == '-') ==> decode_project_dir_spec(dir_name).len() == dir_name.len()
            + 1,
        !(dir_name.len() > 0 && dir_name[0] == '-') ==> forall|i: int| 0 <= i < dir_name.len() && dir_name[i]
            != '-' ==> #[trigger] decode_project_dir_spec(dir_name)[i + 1] == dir_name[i],
        dir_name.len() > 0 && dir_name[0] == '-' ==> forall|i: int| 1 <= i < dir_name.len() && dir_name[i] != '-'
            ==> #[trigger] decode_project_dir_spec(dir_name)[i] == dir_name[i],
{
    let d = decode_project_dir_spec(dir_name);
    let trimmed = if dir_name.len() > 0 && dir_name[0] == '-' { dir_name.drop_first() } else { dir_name };
    assert forall|i: int| 0 <= i < d.len() implies #[trigger] d[i] != '-' by {
        if i > 0 {
            assert(d[i] == (if trimmed[i - 1] == '-' { '/' } else { trimmed[i - 1] }));
        }
    }
}

/// Decodes a transcript directory name (e.g. `-home-me-project`) into a
/// project label (`/home/me/project`).
pub fn decode_project_dir(dir_name: &str) -> (r: String)
    ensures
        r@ == decode_project_dir_spec(dir_name@),
{
    let chars = to_chars(dir_name);
    let n = chars.len();
    let start: usize = if n > 0 && chars[0] == '-' { 1 } else { 0 };
    let mut out: Vec<char> = Vec::new();
    out.push('/');
    let ghost trimmed = if dir_name@.len() > 0 && dir_name@[0] == '-' { dir_name@.drop_first() } else { dir_name@ };
    let mut i: usize = start;
    while i < n
        invariant
            n == chars@.len(),
            chars@ == dir_name@,
            start <= i <= n,
            trimmed == chars@.skip(start as int),
            out@ == seq!['/'] + trimmed.take(i - start).map_values(|c: char| if c == '-' { '/' } else { c }),
        decreases n - i,
    {
        let c = chars[i];
        let d = if c == '-' { '/' } else { c };
        assert(trimmed.take(i + 1 - start) =~= trimmed.take(i - start).push(c));
        assert(trimmed.take(i + 1 - start).map_values(|c: char| if c == '-' { '/' } else { c })
            =~= trimmed.take(i - start).map_values(|c: char| if c == '-' { '/' } else { c }).push(d));
        out.push(d);
        i = i + 1;
    }
    assert(trimmed.take(n - start) =~= trimmed);
    from_chars(out.as_slice())
}

/// Where a scan of one file stopped: the byte offset just past the last
/// complete line consumed, and a hash of the bytes ending there.
#[derive(Clone, Copy, Debug, PartialEq, Eq, Structural)]
pub struct Cursor {
    pub offset: u64,
    /// FNV-1a of the `guard_len` bytes ending at `offset`.
    pub guard: u32,
    pub guard_len: usize,
}

/// What to do with one file on a refresh.
#[derive(Clone, Copy, Debug, PartialEq, Eq, Structural)]
pub enum ScanStep {
    /// Nothing was appended since the last pass: leave the file alone.
    Skip,
    /// Hash the `len` bytes ending at `end` and compare with the guard.
    CheckGuard { end: u64, len: usize },
    /// Read the whole file from the start, discarding earlier records.
    ReadFromStart,
}

/// Whether a previous cursor's guard is worth checking against a file of
/// `file_len` bytes.
pub open spec fn guard_checkable(c: Cursor, file_len: u64) -> bool {
    c.offset > 0 && c.offset <= file_len && c.guard_len > 0
}

/// Decides how to scan a file of `file_len` bytes given where the last pass
/// stopped (if it saw the file at all).
pub fn plan_scan(prev: Option<Cursor>, file_len: u64) -> (step: ScanStep)
    ensures
        step == (match prev {
            Some(c) => if c.offset == file_len {
                ScanStep::Skip
            } else if guard_checkable(c, file_len) {
                ScanStep::CheckGuard { end: c.offset, len: c.guard_len }
            } else {
                ScanStep::ReadFromStart
            },
            None => ScanStep::ReadFromStart,
        }),
{
    match prev {
        Some(c) => if c.offset == file_len {
            ScanStep::Skip
        } else if c.offset > 0 && c.offset <= file_len && c.guard_len > 0 {
            ScanStep::CheckGuard { end: c.offset, len: c.guard_len }
        } else {
            ScanStep::ReadFromStart
        },
        None => ScanStep::ReadFromStart,
    }
}

/// The records a scan of one file starts from: the file's earlier records
/// when it resumes where the last pass stopped, none when it reads the file
/// from the start.
pub fn carried_records(resume: Option<u64>, earlier: Option<Vec<UsageRecord>>) -> (r: Vec<UsageRecord>)
    ensures
        r@ == (match (resume, earlier) {
            (Some(_), Some(v)) => v@,
            _ => Seq::<UsageRecord>::empty(),
        }),
{
    match (resume, earlier) {
        (Some(_), Some(v)) => v,
        _ => Vec::new(),
    }
}

/// Where to resume after hashing the guard window: at the old offset, keeping
/// the file's earlier records, only when the bytes there still hash to the
/// guard; otherwise the file was replaced and is read from the start.
pub fn resume_point(c: Cursor, window_hash: Option<u32>) -> (r: Option<u64>)
    ensures
        r == (if window_hash == Some(c.guard) { Some(c.offset) } else { None }),
{
    match window_hash {
        Some(h) => if h == c.guard { Some(c.offset) } else { None },
        None => None,
    }
}

/// How many bytes ending at `offset` the guard covers.
pub fn guard_len_at(offset: u64) -> (len: usize)
    ensures
        len as int == (if offset < GUARD_LEN { offset as int } else { GUARD_LEN as int }),
{
    if offset < GUARD_LEN as u64 {
        offset as usize
    } else {
        GUARD_LEN
    }
}

/// Where a guard window of `len` bytes ending at `end` starts, or `None` when
/// no such window can be read.
pub fn guard_window_start(end: u64, len: usize) -> (start: Option<u64>)
    ensures
        start == (if len == 0 || len > GUARD_LEN || end < len { None::<u64> } else { Some((end - len) as u64) }),
{
    if len == 0 || len > GUARD_LEN || end < len as u64 {
        None
    } else {
        Some(end - len as u64)
    }
}

/// The cursor after consuming `consumed` bytes from `start`, whose guard
/// window hashed to `window_hash` (zero when it could not be read).
pub fn cursor_after(start: u64, consumed: usize, window_hash: Option<u32>) -> (c: Cursor)
    requires
        start + consumed <= u64::MAX,
    ensures
        c.offset == start + consumed,
        c.guard_len as int == (if c.offset < GUARD_LEN { c.offset as int } else { GUARD_LEN as int }),
        c.guard == (match window_hash {
            Some(h) => h,
            None => 0,
        }),
{
    let offset = start + consumed as u64;
    let guard_len = guard_len_at(offset);
    let guard = match window_hash {
        Some(h) => h,
        None => 0,
    };
    Cursor { offset, guard, guard_len }
}

} // verus!
