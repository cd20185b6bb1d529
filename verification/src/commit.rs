//! Recording commits and reading the history back.
use vstd::prelude::*;
use crate::hex::{hex_full, hex_short, hex_spec};
use crate::object::{blake3_digest, encode, hash_bytes, opt_hash_view, Commit, CommitView, ObjectHash};
use crate::tree::{addressed, new_object_view, NewObject, ObjectKind};
use crate::wire::{commit_bytes, string_from_utf8};
use vstd::utf8::*;

verus! {

/// Why a commit or the history could not be had.
#[derive(Debug)]
pub enum CommitError {
    /// `user.name` is set in no scope.
    NameNotConfigured,
    /// `user.email` is set in no scope.
    EmailNotConfigured,
    /// HEAD names no commit.
    NoCommits,
}

/// The author of a new commit, from the resolved `user.name` and
/// `user.email`; the name is checked first.
pub fn commit_author(name: Option<String>, email: Option<String>) -> (r: Result<
    (String, String),
    CommitError,
>)
    ensures
        name is None ==> r matches Err(CommitError::NameNotConfigured),
        name is Some && email is None ==> r matches Err(CommitError::EmailNotConfigured),
        name is Some && email is Some ==> r == Ok::<(String, String), CommitError>(
            (name->0, email->0),
        ),
{
    let n = match name {
        Some(n) => n,
        None => return Err(CommitError::NameNotConfigured),
    };
    let e = match email {
        Some(e) => e,
        None => return Err(CommitError::EmailNotConfigured),
    };
    Ok((n, e))
}

/// A new commit and the object that stores it.
pub struct NewCommit {
    pub commit: Commit,
    pub object: NewObject,
}

/// Builds the commit of a snapshot: its parent (the previous HEAD, if any),
/// its root tree, author, time and message, with the object that stores it
/// under the hash of its encoding.
pub fn new_commit(
    parent: Option<ObjectHash>,
    tree: ObjectHash,
    author_name: String,
    author_email: String,
    timestamp_utc: i64,
    message: &str,
) -> (r: NewCommit)
    ensures
        r.commit@ == (CommitView {
            parent: opt_hash_view(parent),
            tree: tree@,
            author_name: author_name@,
            author_email: author_email@,
            timestamp_utc,
            message: message@,
        }),
        new_object_view(r.object) == addressed(ObjectKind::Commit, commit_bytes(r.commit@)),
{
    let commit = Commit {
        parent,
        tree,
        author_name,
        author_email,
        timestamp_utc,
        message: message.to_owned(),
    };
    let bytes = encode(&commit);
    let hash = hash_bytes(bytes.as_slice());
    NewCommit { commit, object: NewObject { hash, kind: ObjectKind::Commit, bytes } }
}

/// `[shorthash] message`, printed after a commit.
pub fn commit_summary(hash: &ObjectHash, message: &str) -> (s: String)
    ensures
        s@ == "["@ + hex_spec(hash@.take(4)) + "] "@ + message@,
{
    let mut s = "[".to_owned();
    let h = hex_short(hash);
    s.append(h.as_str());
    s.append("] ");
    s.append(message);
    s
}

/// The commit that a branch ref holds, from the bytes of its target:
/// exactly 32 bytes make a hash, anything else is refused.
pub fn head_from_bytes(bytes: &[u8]) -> (r: Option<ObjectHash>)
    ensures
        bytes@.len() == 32 ==> (r matches Some(h) && h@ == bytes@),
        bytes@.len() != 32 ==> r is None,
{
    if bytes.len() != 32 {
        return None;
    }
    let mut h: ObjectHash = [0u8; 32];
    let mut i: usize = 0;
    while i < 32
        invariant
            i <= 32,
            bytes@.len() == 32,
            h@.len() == 32,
            forall|j: int| 0 <= j < i ==> h@[j] == bytes@[j],
        decreases 32 - i,
    {
        h[i] = bytes[i];
        i = i + 1;
    }
    assert(h@ =~= bytes@);
    Some(h)
}

/// Where `cntl log` stands in the history: the commit to print next, if
/// any, and whether a block has been printed already.
pub struct LogWalk {
    pub next: Option<ObjectHash>,
    pub printed: bool,
}

/// A history walk that starts at the commit HEAD names; with no commit
/// there is no history to show.
pub fn log_walk(head: Option<ObjectHash>) -> (r: Result<LogWalk, CommitError>)
    ensures
        head is None ==> r matches Err(CommitError::NoCommits),
        head matches Some(h) ==> (r matches Ok(w) && w.next == Some(h) && !w.printed),
{
    match head {
        Some(h) => Ok(LogWalk { next: Some(h), printed: false }),
        None => Err(CommitError::NoCommits),
    }
}

/// Index of the first newline byte, or the length when there is none.
pub open spec fn first_newline(b: Seq<u8>) -> int
    decreases b.len(),
{
    if b.len() == 0 {
        0
    } else if b[0] == 10 {
        0
    } else {
        1 + first_newline(b.drop_first())
    }
}

/// A line without the carriage return that ends it, if any.
pub open spec fn strip_cr(l: Seq<u8>) -> Seq<u8> {
    if l.len() > 0 && l.last() == 13 {
        l.drop_last()
    } else {
        l
    }
}

/// The lines of a byte string, as `str::lines` splits text: at each
/// newline, with a carriage return before the newline removed; a final
/// newline ends the last line and starts no new one.
pub open spec fn byte_lines(b: Seq<u8>) -> Seq<Seq<u8>>
    decreases b.len(),
{
    let p = first_newline(b);
    if b.len() == 0 {
        Seq::empty()
    } else if p < 0 || p >= b.len() {
        seq![b]
    } else {
        seq![strip_cr(b.take(p))] + byte_lines(b.skip(p + 1))
    }
}

/// The lines of a text.
pub open spec fn text_lines(t: Seq<char>) -> Seq<Seq<char>> {
    byte_lines(encode_utf8(t)).map_values(|l: Seq<u8>| decode_utf8(l))
}

proof fn lemma_first_newline(s: Seq<u8>, k: int)
    requires
        0 <= k <= s.len(),
        forall|j: int| 0 <= j < k ==> s[j] != 10,
        k == s.len() || s[k] == 10,
    ensures
        first_newline(s) == k,
    decreases k,
{
    if k > 0 {
        lemma_first_newline(s.drop_first(), k - 1);
    }
}

proof fn lemma_split_at_ascii(b: Seq<u8>, p: int)
    requires
        valid_utf8(b),
        0 <= p < b.len(),
        b[p] < 128,
    ensures
        valid_utf8(b.take(p)),
        valid_utf8(b.skip(p + 1)),
{
    is_char_boundary_iff_not_is_continuation_byte(b, p);
    valid_utf8_split(b, p);
    assert(b.take(p) =~= b.subrange(0, p));
    let t = b.subrange(p, b.len() as int);
    assert(t[0] == b[p]);
    assert(pop_first_scalar(t) =~= b.skip(p + 1));
}

pub open spec fn strings_view(s: Seq<String>) -> Seq<Seq<char>> {
    s.map_values(|x: String| x@)
}

fn line_from_bytes(b: &[u8], start: usize, end: usize, strip: bool) -> (r: String)
    requires
        start <= end <= b@.len(),
        valid_utf8(b@.subrange(start as int, end as int)),
    ensures
        encode_utf8(r@) == (if strip {
            strip_cr(b@.subrange(start as int, end as int))
        } else {
            b@.subrange(start as int, end as int)
        }),
{
    let ghost seg = b@.subrange(start as int, end as int);
    let mut stop = end;
    if strip && end > start && b[end - 1] == 13 {
        stop = end - 1;
        proof {
            lemma_split_at_ascii(seg, seg.len() - 1);
            assert(seg.take(seg.len() - 1) =~= b@.subrange(start as int, stop as int));
            assert(seg.drop_last() =~= b@.subrange(start as int, stop as int));
        }
    }
    let v = vstd::slice::slice_to_vec(vstd::slice::slice_subrange(b, start, stop));
    match string_from_utf8(v) {
        Some(s) => s,
        None => {
            assert(false);
            String::new()
        },
    }
}

/// The lines of a text, as `str::lines` gives them.
pub fn message_lines(text: &str) -> (lines: Vec<String>)
    ensures
        strings_view(lines@) == text_lines(text@),
{
    let b = text.as_bytes();
    let ghost bv = b@;
    proof {
        encode_utf8_valid_utf8(text@);
    }
    let mut lines: Vec<String> = Vec::new();
    let mut start: usize = 0;
    let mut i: usize = 0;
    let ghost mut done: Seq<Seq<u8>> = Seq::empty();
    proof {
        assert(bv.skip(0) =~= bv);
    }
    while i < b.len()
        invariant
            bv == b@,
            bv == encode_utf8(text@),
            start <= i <= bv.len(),
            valid_utf8(bv.skip(start as int)),
            forall|j: int| start <= j < i ==> bv[j] != 10,
            done + byte_lines(bv.skip(start as int)) == byte_lines(bv),
            strings_view(lines@) == done.map_values(|l: Seq<u8>| decode_utf8(l)),
            forall|k: int| 0 <= k < done.len() ==> valid_utf8(#[trigger] done[k]),
        decreases bv.len() - i,
    {
        if b[i] == 10 {
            let ghost s = bv.skip(start as int);
            let ghost p = (i - start) as int;
            proof {
                lemma_first_newline(s, p);
                lemma_split_at_ascii(s, p);
                assert(s.take(p) =~= bv.subrange(start as int, i as int));
                assert(s.skip(p + 1) =~= bv.skip(i + 1));
            }
            let line = line_from_bytes(b, start, i, true);
            proof {
                let seg = strip_cr(bv.subrange(start as int, i as int));
                encode_utf8_decode_utf8(line@);
                encode_utf8_valid_utf8(line@);
                assert(byte_lines(s) == seq![seg] + byte_lines(bv.skip(i + 1)));
                assert(done.push(seg) + byte_lines(bv.skip(i + 1)) =~= done + byte_lines(s));
                assert(done.push(seg).map_values(|l: Seq<u8>| decode_utf8(l)) =~= done.map_values(
                    |l: Seq<u8>| decode_utf8(l),
                ).push(decode_utf8(seg)));
                done = done.push(seg);
            }
            let ghost before = strings_view(lines@);
            lines.push(line);
            assert(strings_view(lines@) =~= before.push(line@));
            start = i + 1;
        }
        i = i + 1;
    }
    if start < b.len() {
        let ghost s = bv.skip(start as int);
        proof {
            lemma_first_newline(s, s.len() as int);
            assert(s =~= bv.subrange(start as int, bv.len() as int));
        }
        let line = line_from_bytes(b, start, b.len(), false);
        proof {
            encode_utf8_decode_utf8(line@);
            assert(byte_lines(s) == seq![s]);
            assert(done.push(s) =~= done + byte_lines(s));
            assert(done.push(s).map_values(|l: Seq<u8>| decode_utf8(l)) =~= done.map_values(
                |l: Seq<u8>| decode_utf8(l),
            ).push(decode_utf8(s)));
            done = done.push(s);
        }
        let ghost before = strings_view(lines@);
        lines.push(line);
        assert(strings_view(lines@) =~= before.push(line@));
    } else {
        proof {
            assert(bv.skip(start as int).len() == 0);
            assert(done + byte_lines(bv.skip(start as int)) =~= done);
        }
    }
    lines
}


/// The block that `cntl log` prints for a commit, `date` being its time as
/// the local clock shows it: the full hash, the author, the date, a blank
/// line, then the message indented by four spaces, line by line.
pub open spec fn commit_block(hash: Seq<u8>, c: CommitView, date: Seq<char>) -> Seq<Seq<char>> {
    seq![
        "commit "@ + hex_spec(hash),
        "Author: "@ + c.author_name + " <"@ + c.author_email + ">"@,
        "Date:   "@ + date,
        Seq::empty(),
    ] + text_lines(c.message).map_values(|l: Seq<char>| "    "@ + l)
}

/// The lines that `cntl log` prints for one commit.
pub fn print_commit(hash: &ObjectHash, commit: &Commit, date: &str) -> (lines: Vec<String>)
    ensures
        strings_view(lines@) == commit_block(hash@, commit@, date@),
{
    let mut lines: Vec<String> = Vec::new();
    let mut l1 = "commit ".to_owned();
    let h = hex_full(hash);
    l1.append(h.as_str());
    lines.push(l1);
    let mut l2 = "Author: ".to_owned();
    l2.append(commit.author_name.as_str());
    l2.append(" <");
    l2.append(commit.author_email.as_str());
    l2.append(">");
    lines.push(l2);
    let mut l3 = "Date:   ".to_owned();
    l3.append(date);
    lines.push(l3);
    lines.push(String::new());
    let ghost head = strings_view(lines@);
    let ghost tl = text_lines(commit.message@);
    let msg = message_lines(commit.message.as_str());
    let mut i: usize = 0;
    while i < msg.len()
        invariant
            i <= msg@.len(),
            strings_view(msg@) == tl,
            strings_view(lines@) == head + tl.take(i as int).map_values(|l: Seq<char>| "    "@ + l),
        decreases msg@.len() - i,
    {
        let mut l = "    ".to_owned();
        l.append(msg[i].as_str());
        let ghost before = strings_view(lines@);
        lines.push(l);
        assert(strings_view(lines@) =~= before.push("    "@ + tl[i as int]));
        assert(tl.take(i + 1).map_values(|l: Seq<char>| "    "@ + l) =~= tl.take(i as int).map_values(
            |l: Seq<char>| "    "@ + l,
        ).push("    "@ + tl[i as int]));
        i = i + 1;
    }
    assert(tl.take(i as int) =~= tl);
    assert(strings_view(lines@) =~= commit_block(hash@, commit@, date@));
    lines
}

/// What one step of `cntl log` prints for the commit `c` stored under
/// `hash`: an empty line when a block came before, then its block.
pub open spec fn step_lines(printed: bool, hash: Seq<u8>, c: CommitView, date: Seq<char>) -> Seq<
    Seq<char>,
> {
    (if printed {
        seq![Seq::<char>::empty()]
    } else {
        Seq::empty()
    }) + commit_block(hash, c, date)
}

/// One step of `cntl log`: prints `commit`, the commit that the walk names
/// next (`date` being its time on the local clock), and moves on to its
/// parent.
pub fn log_step(w: &mut LogWalk, commit: &Commit, date: &str) -> (lines: Vec<String>)
    requires
        old(w).next is Some,
    ensures
        strings_view(lines@) == step_lines(old(w).printed, old(w).next->0@, commit@, date@),
        final(w).next == commit.parent,
        final(w).printed,
{
    let hash = match w.next {
        Some(h) => h,
        None => [0u8; 32],
    };
    let block = print_commit(&hash, commit, date);
    let mut lines: Vec<String> = Vec::new();
    if w.printed {
        lines.push(String::new());
    }
    let ghost head = strings_view(lines@);
    assert(head =~= (if w.printed {
        seq![Seq::<char>::empty()]
    } else {
        Seq::<Seq<char>>::empty()
    }));
    let mut i: usize = 0;
    while i < block.len()
        invariant
            i <= block@.len(),
            strings_view(lines@) == head + strings_view(block@).take(i as int),
        decreases block@.len() - i,
    {
        let ghost before = strings_view(lines@);
        lines.push(block[i].clone());
        assert(strings_view(block@).take(i + 1) =~= strings_view(block@).take(i as int).push(
            block@[i as int]@,
        ));
        assert(strings_view(lines@) =~= before.push(block@[i as int]@));
        i = i + 1;
    }
    assert(strings_view(block@).take(i as int) =~= strings_view(block@));
    w.next = commit.parent;
    w.printed = true;
    lines
}

/// The format of the date line of `cntl log`.
pub open spec fn log_date_format() -> Seq<char> {
    "%Y-%m-%d %H:%M:%S %z"@
}

/// The value of the `n` decimal digits of `t` from index `from` on.
pub open spec fn digits_at(t: Seq<char>, from: int, n: nat) -> int
    decreases n,
{
    if n == 0 {
        0
    } else {
        digits_at(t, from, (n - 1) as nat) * 10 + ((t[from + n - 1] as u32) as int - 48)
    }
}

pub open spec fn all_digits(t: Seq<char>, from: int, n: int) -> bool {
    forall|i: int| from <= i < from + n ==> '0' <= #[trigger] t[i] <= '9'
}

/// A date line in the log's format, `YYYY-MM-DD HH:MM:SS +HHMM`, with a
/// four-digit year.
pub open spec fn date_text_shaped(t: Seq<char>) -> bool {
    &&& t.len() == 25
    &&& all_digits(t, 0, 4) && t[4] == '-' && all_digits(t, 5, 2) && t[7] == '-' && all_digits(t, 8, 2)
    &&& t[10] == ' ' && all_digits(t, 11, 2) && t[13] == ':' && all_digits(t, 14, 2) && t[16] == ':'
    &&& all_digits(t, 17, 2) && t[19] == ' ' && (t[20] == '+' || t[20] == '-') && all_digits(t, 21, 4)
}

/// Days from 1970-01-01 to the given day of the proleptic Gregorian
/// calendar.
pub open spec fn days_from_civil(y: int, m: int, d: int) -> int {
    let y2 = if m <= 2 {
        y - 1
    } else {
        y
    };
    let era = y2 / 400;
    let yoe = y2 - era * 400;
    let mp = (m + 9) % 12;
    let doy = (153 * mp + 2) / 5 + d - 1;
    let doe = yoe * 365 + yoe / 4 - yoe / 100 + doy;
    era * 146097 + doe - 719468
}

/// The instant, in seconds since the Unix epoch, that a date line names:
/// its local date and time less its offset from UTC.
pub open spec fn date_text_instant(t: Seq<char>) -> int {
    let local = days_from_civil(digits_at(t, 0, 4), digits_at(t, 5, 2), digits_at(t, 8, 2)) * 86400
        + digits_at(t, 11, 2) * 3600 + digits_at(t, 14, 2) * 60 + digits_at(t, 17, 2);
    let offset = digits_at(t, 21, 2) * 3600 + digits_at(t, 23, 2) * 60;
    if t[20] == '-' {
        local + offset
    } else {
        local - offset
    }
}

/// Timestamps that chrono can always show: well inside its range of dates.
pub open spec fn showable_timestamp(ts: i64) -> bool {
    -0x100_0000_0000 <= ts <= 0x100_0000_0000
}

/// Calls chrono: `DateTime::<Utc>::from_timestamp(timestamp_utc, 0)` and,
/// where that gives a time, `with_timezone(&Local)` and `format(fmt)`,
/// rendered to a `String`; `None` where chrono has no time for the
/// timestamp, which it has for every timestamp within some 34,000 years of
/// 1970. The text shows the local date and time, which is the UTC time plus
/// the machine's offset, and that offset rounded to the minute; so where
/// the year has four digits, the text names the timestamp's instant to
/// within a minute. Which local time it shows, that is the machine's time
/// zone, is not stated. chrono's rendering panics on a format it cannot
/// render, so the log's own format is the only one admitted.
#[verifier::external_body]
fn format_local_time(timestamp_utc: i64, fmt: &str) -> (r: Option<String>)
    requires
        fmt@ == log_date_format(),
    ensures
        showable_timestamp(timestamp_utc) ==> r is Some,
        r matches Some(t) ==> (date_text_shaped(t@) ==> -60 < date_text_instant(t@) - timestamp_utc < 60),
{
    match chrono::DateTime::<chrono::Utc>::from_timestamp(timestamp_utc, 0) {
        Some(utc) => Some(utc.with_timezone(&chrono::Local).format(fmt).to_string()),
        None => None,
    }
}

/// Calls chrono: `Utc::now()`, shown with `with_timezone(&Local)` and
/// `format(fmt)`, rendered to a `String`. Nothing is stated of the text: it
/// depends on the clock and the machine's time zone. As above, only the
/// log's own format is admitted.
#[verifier::external_body]
fn format_local_now(fmt: &str) -> (r: String)
    requires
        fmt@ == log_date_format(),
{
    chrono::Utc::now().with_timezone(&chrono::Local).format(fmt).to_string()
}

/// The date line's text for a commit time: the time on the local clock, or
/// the current time where the commit's time cannot be shown.
fn local_date(timestamp_utc: i64) -> (date: String)
    ensures
        showable_timestamp(timestamp_utc) && date_text_shaped(date@) ==> -60 < date_text_instant(date@)
            - timestamp_utc < 60,
{
    let fmt = "%Y-%m-%d %H:%M:%S %z";
    match format_local_time(timestamp_utc, fmt) {
        Some(d) => d,
        None => format_local_now(fmt),
    }
}

/// One step of `cntl log` with the commit's time shown on the local clock:
/// prints `commit`, the commit that the walk names next, and moves on to
/// its parent. The date line holds whatever the local clock shows.
pub fn log_entry(w: &mut LogWalk, commit: &Commit) -> (lines: Vec<String>)
    requires
        old(w).next is Some,
    ensures
        exists|date: Seq<char>|
            strings_view(lines@) == #[trigger] step_lines(old(w).printed, old(w).next->0@, commit@, date) && (
            showable_timestamp(commit.timestamp_utc) && date_text_shaped(date) ==> -60 < date_text_instant(
                date,
            ) - commit.timestamp_utc < 60),
        final(w).next == commit.parent,
        final(w).printed,
{
    let date = local_date(commit.timestamp_utc);
    let ghost printed = w.printed;
    let ghost next = w.next;
    let lines = log_step(w, commit, date.as_str());
    assert(printed == old(w).printed && next == old(w).next);
    assert(strings_view(lines@) == step_lines(old(w).printed, old(w).next->0@, commit@, date@) && (showable_timestamp(
        commit.timestamp_utc,
    ) && date_text_shaped(date@) ==> -60 < date_text_instant(date@) - commit.timestamp_utc < 60));
    lines
}

/// Law: a step of `cntl log` shows the commit's full hash, its author and
/// the date it was handed, on fixed lines after the separating empty line,
/// if any: so with `log_entry` the date line names the commit's own time.
pub proof fn step_shows_date(printed: bool, hash: Seq<u8>, c: CommitView, date: Seq<char>)
    ensures
        ({
            let k: int = if printed {
                1
            } else {
                0
            };
            let l = step_lines(printed, hash, c, date);
            &&& l.len() >= k + 4
            &&& l[k] == "commit "@ + hex_spec(hash)
            &&& l[k + 1] == "Author: "@ + c.author_name + " <"@ + c.author_email + ">"@
            &&& l[k + 2] == "Date:   "@ + date
            &&& l[k + 3] == Seq::<char>::empty()
        }),
{
}

/// What the steps of `cntl log` print, starting at `next`, when they are
/// handed the commits of `loaded` in turn, each with its date; the steps
/// end where the walk has no commit left or nothing more was loaded.
pub open spec fn log_steps(next: Option<Seq<u8>>, printed: bool, loaded: Seq<(CommitView, Seq<char>)>) -> (
    Option<Seq<u8>>,
    Seq<Seq<char>>,
)
    decreases loaded.len(),
{
    if loaded.len() == 0 || next is None {
        (next, Seq::empty())
    } else {
        let rest = log_steps(loaded[0].0.parent, true, loaded.drop_first());
        (rest.0, step_lines(printed, next->0, loaded[0].0, loaded[0].1) + rest.1)
    }
}

/// The blocks, joined by single empty lines.
pub open spec fn joined_blocks(blocks: Seq<Seq<Seq<char>>>) -> Seq<Seq<char>>
    decreases blocks.len(),
{
    if blocks.len() == 0 {
        Seq::empty()
    } else if blocks.len() == 1 {
        blocks[0]
    } else {
        blocks[0] + seq![Seq::<char>::empty()] + joined_blocks(blocks.drop_first())
    }
}

/// The commits of `chain` stored under `hashes`, each naming the next as its
/// parent and the last naming none: a history from its newest commit back.
pub open spec fn parent_chain(hashes: Seq<Seq<u8>>, chain: Seq<(CommitView, Seq<char>)>) -> bool {
    &&& hashes.len() == chain.len()
    &&& chain.len() > 0
    &&& forall|i: int| 0 <= i < chain.len() - 1 ==> #[trigger] chain[i].0.parent == Some(hashes[i + 1])
    &&& chain.last().0.parent is None
}

/// The block of each commit of a chain.
pub open spec fn chain_blocks(hashes: Seq<Seq<u8>>, chain: Seq<(CommitView, Seq<char>)>) -> Seq<
    Seq<Seq<char>>,
> {
    Seq::new(chain.len(), |i: int| commit_block(hashes[i], chain[i].0, chain[i].1))
}

/// Law: walking a history from its newest commit, the steps of `cntl log`
/// print every commit's block, newest first, joined by single empty lines,
/// and end with no commit left.
pub proof fn log_prints_chain(hashes: Seq<Seq<u8>>, chain: Seq<(CommitView, Seq<char>)>)
    requires
        parent_chain(hashes, chain),
    ensures
        log_steps(Some(hashes[0]), false, chain) == (
            None::<Seq<u8>>,
            joined_blocks(chain_blocks(hashes, chain)),
        ),
{
    lemma_log_steps_chain(hashes, chain, false);
}

proof fn lemma_log_steps_chain(hashes: Seq<Seq<u8>>, chain: Seq<(CommitView, Seq<char>)>, printed: bool)
    requires
        parent_chain(hashes, chain),
    ensures
        log_steps(Some(hashes[0]), printed, chain) == (
            None::<Seq<u8>>,
            (if printed {
                seq![Seq::<char>::empty()]
            } else {
                Seq::<Seq<char>>::empty()
            }) + joined_blocks(chain_blocks(hashes, chain)),
        ),
    decreases chain.len(),
{
    let blocks = chain_blocks(hashes, chain);
    let sep: Seq<Seq<char>> = if printed {
        seq![Seq::<char>::empty()]
    } else {
        Seq::empty()
    };
    if chain.len() == 1 {
        let rest = log_steps(chain[0].0.parent, true, chain.drop_first());
        assert(rest.1 =~= Seq::<Seq<char>>::empty());
        assert(step_lines(printed, hashes[0], chain[0].0, chain[0].1) + rest.1 =~= sep + blocks[0]);
    } else {
        let h2 = hashes.drop_first();
        let c2 = chain.drop_first();
        assert forall|i: int| 0 <= i < c2.len() - 1 implies #[trigger] c2[i].0.parent == Some(h2[i + 1]) by {
            assert(chain[i + 1].0.parent == Some(hashes[i + 2]));
        }
        assert(chain[0].0.parent == Some(hashes[1]));
        lemma_log_steps_chain(h2, c2, true);
        assert(chain_blocks(h2, c2) =~= blocks.drop_first());
        assert(step_lines(printed, hashes[0], chain[0].0, chain[0].1) + (seq![Seq::<char>::empty()]
            + joined_blocks(blocks.drop_first())) =~= sep + joined_blocks(blocks));
    }
}

} // verus!
