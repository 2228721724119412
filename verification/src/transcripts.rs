//! Transcripts: which session a file belongs to, and the time that it spans.

use vstd::hash_map::StringHashMap;
use vstd::prelude::*;
use vstd::string::*;

use crate::clock::parse_us;
use crate::clock::timestamp_us;
use crate::json::json_string;
use crate::json::read_strings;
use crate::session_id::resolve_transcript_session_id;
use crate::session_id::session_key;
use crate::utf8::byte_count;
use crate::utf8::byte_len;
use crate::utf8::opt_view;
use crate::utf8::str_eq;
use crate::utf8::views;

verus! {

/// A line with more bytes is not read.
pub const MAX_LINE_BYTES: usize = 131_072;

/// No more files than this are read.
pub const MAX_SCAN_FILES: usize = 50_000;

/// The time that a transcript spans: its first and last timestamp, if it has any.
#[derive(Debug, Clone, Copy, PartialEq, Eq, Structural)]
pub enum TranscriptTimes {
    Found { first_us: i64, last_us: i64 },
    NoTimestamps,
}

/// What to do with an entry of a directory.
#[derive(Debug, Clone, Copy, PartialEq, Eq, Structural)]
pub enum EntryAction {
    /// List it too.
    Descend,
    /// Read it as a transcript.
    Read,
    /// Pass it over.
    Skip,
}

/// What a line says of the session, as the session calls itself.
pub open spec fn line_session(line: Seq<char>) -> Option<Seq<char>> {
    if byte_count(line) <= MAX_LINE_BYTES {
        json_string(line, "sessionId"@)
    } else {
        None
    }
}

/// What a line says of the time.
pub open spec fn line_time(line: Seq<char>) -> Option<i64> {
    if byte_count(line) <= MAX_LINE_BYTES {
        match json_string(line, "timestamp"@) {
            Some(text) => timestamp_us(text),
            None => None,
        }
    } else {
        None
    }
}

/// `raw` is what the first line that names a session calls it.
pub open spec fn names_session(lines: Seq<Seq<char>>, raw: Seq<char>) -> bool {
    exists|i: int|
        0 <= i < lines.len() && line_session(#[trigger] lines[i]) == Some(raw) && forall|j: int|
            0 <= j < i ==> line_session(#[trigger] lines[j]) is None
}

/// No line names a session.
pub open spec fn names_none(lines: Seq<Seq<char>>) -> bool {
    forall|i: int| 0 <= i < lines.len() ==> line_session(#[trigger] lines[i]) is None
}

/// Some line has this time.
pub open spec fn has_time(lines: Seq<Seq<char>>, us: i64) -> bool {
    exists|i: int| 0 <= i < lines.len() && line_time(#[trigger] lines[i]) == Some(us)
}

/// `times` are those of the lines: the least and the greatest time that a line has, wherever
/// in the file it stands.
pub open spec fn is_span(lines: Seq<Seq<char>>, times: TranscriptTimes) -> bool {
    match times {
        TranscriptTimes::Found { first_us, last_us } => {
            &&& has_time(lines, first_us)
            &&& has_time(lines, last_us)
            &&& forall|us: i64| #[trigger] has_time(lines, us) ==> first_us <= us <= last_us
        },
        TranscriptTimes::NoTimestamps => forall|us: i64| !#[trigger] has_time(lines, us),
    }
}

pub open spec fn least(a: i64, b: i64) -> i64 {
    if a <= b {
        a
    } else {
        b
    }
}

pub open spec fn greatest(a: i64, b: i64) -> i64 {
    if a >= b {
        a
    } else {
        b
    }
}

/// The time that two transcripts span together.
pub open spec fn merged(a: TranscriptTimes, b: TranscriptTimes) -> TranscriptTimes {
    match (a, b) {
        (
            TranscriptTimes::Found { first_us: f1, last_us: l1 },
            TranscriptTimes::Found { first_us: f2, last_us: l2 },
        ) => TranscriptTimes::Found { first_us: least(f1, f2), last_us: greatest(l1, l2) },
        (TranscriptTimes::NoTimestamps, _) => b,
        (_, TranscriptTimes::NoTimestamps) => a,
    }
}

/// Widens the time of a transcript by that of another.
pub fn merge_times(existing: &mut TranscriptTimes, new: TranscriptTimes)
    ensures
        *final(existing) == merged(*old(existing), new),
{
    let next = match (*existing, new) {
        (
            TranscriptTimes::Found { first_us: f1, last_us: l1 },
            TranscriptTimes::Found { first_us: f2, last_us: l2 },
        ) => TranscriptTimes::Found {
            first_us: if f1 <= f2 {
                f1
            } else {
                f2
            },
            last_us: if l1 >= l2 {
                l1
            } else {
                l2
            },
        },
        (TranscriptTimes::NoTimestamps, TranscriptTimes::Found { .. }) => new,
        _ => *existing,
    };
    *existing = next;
}

/// The order in which transcripts are merged does not matter, nor does merging one twice.
pub proof fn law_merging_is_orderless(a: TranscriptTimes, b: TranscriptTimes, c: TranscriptTimes)
    ensures
        merged(a, b) == merged(b, a),
        merged(merged(a, b), c) == merged(a, merged(b, c)),
        merged(a, a) == a,
        merged(a, TranscriptTimes::NoTimestamps) == a,
{
}

/// Merging what two files span gives what they span as one.
pub proof fn law_merged_spans_both(
    a: Seq<Seq<char>>,
    b: Seq<Seq<char>>,
    times_a: TranscriptTimes,
    times_b: TranscriptTimes,
)
    requires
        is_span(a, times_a),
        is_span(b, times_b),
    ensures
        is_span(a + b, merged(times_a, times_b)),
{
    assert forall|us: i64| #[trigger] has_time(a + b, us) <==> has_time(a, us) || has_time(
        b,
        us,
    ) by {
        lemma_has_time_concat(a, b, us);
    }
}

proof fn lemma_has_time_concat(a: Seq<Seq<char>>, b: Seq<Seq<char>>, us: i64)
    ensures
        has_time(a + b, us) <==> has_time(a, us) || has_time(b, us),
{
    let s = a + b;
    if has_time(s, us) {
        let i = choose|i: int| 0 <= i < s.len() && line_time(#[trigger] s[i]) == Some(us);
        if i < a.len() {
            assert(line_time(a[i]) == Some(us));
        } else {
            assert(line_time(b[i - a.len()]) == Some(us));
        }
    }
    if has_time(a, us) {
        let i = choose|i: int| 0 <= i < a.len() && line_time(#[trigger] a[i]) == Some(us);
        assert(line_time(s[i]) == Some(us));
    }
    if has_time(b, us) {
        let i = choose|i: int| 0 <= i < b.len() && line_time(#[trigger] b[i]) == Some(us);
        assert(line_time(s[i + a.len()]) == Some(us));
    }
}

/// The times of lines are one only.
pub proof fn law_span_is_unique(lines: Seq<Seq<char>>, a: TranscriptTimes, b: TranscriptTimes)
    requires
        is_span(lines, a),
        is_span(lines, b),
    ensures
        a == b,
{
}

/// A transcript as far as it was read.
#[derive(Debug)]
pub struct TranscriptScan {
    /// The key of the session, once a line named it.
    pub session_id: Option<String>,
    /// The time that the lines span.
    pub times: TranscriptTimes,
}

impl TranscriptScan {
    /// What the lines read so far amount to.
    pub open spec fn reads(self, lines: Seq<Seq<char>>) -> bool {
        &&& match self.session_id {
            Some(id) => exists|raw: Seq<char>| #[trigger]
                names_session(lines, raw) && id@ == session_key(raw),
            None => names_none(lines),
        }
        &&& is_span(lines, self.times)
    }

    /// A transcript of which no line was read.
    pub fn new() -> (scan: TranscriptScan)
        ensures
            scan.reads(Seq::empty()),
    {
        TranscriptScan { session_id: None, times: TranscriptTimes::NoTimestamps }
    }

    /// Takes in the session and the time that a line gives. The first session counts.
    pub fn note(&mut self, session: Option<String>, time: Option<i64>)
        ensures
            match (old(self).session_id, session) {
                (Some(id), _) => final(self).session_id == Some(id),
                (None, Some(raw)) => opt_view(final(self).session_id) == Some(session_key(raw@)),
                (None, None) => final(self).session_id is None,
            },
            final(self).times == match time {
                Some(us) => merged(
                    old(self).times,
                    TranscriptTimes::Found { first_us: us, last_us: us },
                ),
                None => old(self).times,
            },
    {
        if self.session_id.is_none() {
            if let Some(raw) = session {
                self.session_id = Some(resolve_transcript_session_id(raw.as_str()));
            }
        }
        if let Some(us) = time {
            merge_times(
                &mut self.times,
                TranscriptTimes::Found { first_us: us, last_us: us },
            );
        }
    }

    /// Reads the next line.
    pub fn read_line(&mut self, line: &str)
        ensures
            forall|lines: Seq<Seq<char>>|
                old(self).reads(lines) ==> #[trigger] final(self).reads(lines.push(line@)),
    {
        let ghost before = *self;
        if byte_len(line) <= MAX_LINE_BYTES {
            let (session, stamp) = read_strings(line, "sessionId", "timestamp");
            let time = match stamp {
                Some(text) => parse_us(text.as_str()),
                None => None,
            };
            self.note(session, time);
        }
        proof {
            let after = *self;
            assert forall|lines: Seq<Seq<char>>| before.reads(lines) implies #[trigger] after.reads(
                lines.push(line@),
            ) by {
                lemma_session_push(lines, line@);
                let one = seq![line@];
                assert(lines.push(line@) =~= lines + one);
                let now = match line_time(line@) {
                    Some(us) => TranscriptTimes::Found { first_us: us, last_us: us },
                    None => TranscriptTimes::NoTimestamps,
                };
                assert(is_span(one, now)) by {
                    assert forall|us: i64| #[trigger] has_time(one, us) <==> line_time(line@)
                        == Some(us) by {
                        if line_time(line@) == Some(us) {
                            assert(line_time(one[0]) == Some(us));
                        }
                    }
                }
                law_merged_spans_both(lines, one, before.times, now);
            }
        }
    }

    /// The session of the transcript and the time that it spans. There is none where no line
    /// names a session.
    pub fn finish(self) -> (r: Option<(String, TranscriptTimes)>)
        ensures
            forall|lines: Seq<Seq<char>>| #[trigger]
                self.reads(lines) ==> is_transcript(lines, r),
    {
        match self.session_id {
            Some(id) => Some((id, self.times)),
            None => None,
        }
    }
}

/// `r` is the session of a transcript and the time that it spans.
pub open spec fn is_transcript(
    lines: Seq<Seq<char>>,
    r: Option<(String, TranscriptTimes)>,
) -> bool {
    match r {
        Some((id, times)) => {
            &&& exists|raw: Seq<char>| #[trigger]
                names_session(lines, raw) && id@ == session_key(raw)
            &&& is_span(lines, times)
        },
        None => names_none(lines),
    }
}

proof fn lemma_session_push(lines: Seq<Seq<char>>, line: Seq<char>)
    ensures
        forall|raw: Seq<char>| #[trigger]
            names_session(lines, raw) ==> names_session(lines.push(line), raw),
        names_none(lines) && line_session(line) is None ==> names_none(lines.push(line)),
        names_none(lines) && line_session(line) is Some ==> names_session(
            lines.push(line),
            line_session(line)->Some_0,
        ),
{
    let longer = lines.push(line);
    assert forall|raw: Seq<char>| #[trigger] names_session(lines, raw) implies names_session(
        longer,
        raw,
    ) by {
        let i = choose|i: int|
            0 <= i < lines.len() && line_session(#[trigger] lines[i]) == Some(raw) && forall|j: int|
                0 <= j < i ==> line_session(#[trigger] lines[j]) is None;
        assert(line_session(longer[i]) == Some(raw));
        assert forall|j: int| 0 <= j < i implies line_session(#[trigger] longer[j]) is None by {
            assert(line_session(lines[j]) is None);
        }
    }
    if names_none(lines) {
        assert forall|j: int| 0 <= j < lines.len() implies line_session(
            #[trigger] longer[j],
        ) is None by {
            assert(line_session(lines[j]) is None);
        }
        assert(longer[lines.len() as int] == line);
    }
}

/// Reads the lines of a transcript: the session that it belongs to, and the time that it
/// spans.
pub fn scan_one_transcript(lines: &Vec<String>) -> (r: Option<(String, TranscriptTimes)>)
    ensures
        is_transcript(views(lines@), r),
{
    let mut scan = TranscriptScan::new();
    let mut i: usize = 0;
    assert(views(lines@).take(0) =~= Seq::empty());
    while i < lines.len()
        invariant
            i <= lines@.len(),
            scan.reads(views(lines@).take(i as int)),
        decreases lines@.len() - i,
    {
        scan.read_line(lines[i].as_str());
        assert(views(lines@).take(i + 1) =~= views(lines@).take(i as int).push(
            lines@[i as int]@,
        ));
        i = i + 1;
    }
    assert(views(lines@).take(i as int) =~= views(lines@));
    scan.finish()
}

/// Which entries of a directory are transcripts, and which are to be listed in turn.
pub fn entry_action(is_dir: bool, is_file: bool, extension: Option<&str>) -> (r: EntryAction)
    ensures
        r == if is_dir {
            EntryAction::Descend
        } else if is_file && extension is Some && extension->Some_0@ == "jsonl"@ {
            EntryAction::Read
        } else {
            EntryAction::Skip
        },
{
    if is_dir {
        return EntryAction::Descend;
    }
    match extension {
        Some(ext) => if is_file && str_eq(ext, "jsonl") {
            EntryAction::Read
        } else {
            EntryAction::Skip
        },
        None => EntryAction::Skip,
    }
}

/// The transcripts found, by the key of their session.
pub struct TranscriptIndex {
    by_id: StringHashMap<TranscriptTimes>,
    files: usize,
}

impl View for TranscriptIndex {
    type V = Map<Seq<char>, TranscriptTimes>;

    closed spec fn view(&self) -> Map<Seq<char>, TranscriptTimes> {
        self.by_id@
    }
}

impl TranscriptIndex {
    /// Number of files that were offered.
    pub closed spec fn offered(self) -> nat {
        self.files as nat
    }

    /// An index without transcripts.
    pub fn new() -> (index: TranscriptIndex)
        ensures
            index@ == Map::<Seq<char>, TranscriptTimes>::empty(),
            index.offered() == 0,
    {
        TranscriptIndex { by_id: StringHashMap::new(), files: 0 }
    }

    /// Whether one more file may be read. Once this is not so, the search is over.
    pub fn allow_file(&mut self) -> (r: bool)
        ensures
            final(self)@ == old(self)@,
            r == (old(self).offered() < MAX_SCAN_FILES),
            r == (old(self).offered() < 50_000),
            final(self).offered() == if r {
                old(self).offered() + 1
            } else {
                old(self).offered()
            },
    {
        if self.files < MAX_SCAN_FILES {
            self.files = self.files + 1;
            true
        } else {
            false
        }
    }

    /// Adds what a file spans to what is known of its session, which spans all its files. What
    /// is known of others stays.
    pub fn add(&mut self, session_id: String, times: TranscriptTimes)
        ensures
            final(self)@ == old(self)@.insert(
                session_id@,
                if old(self)@.contains_key(session_id@) {
                    merged(old(self)@[session_id@], times)
                } else {
                    times
                },
            ),
            final(self).offered() == old(self).offered(),
            forall|id: Seq<char>|
                id != session_id@ ==> (#[trigger] final(self)@.contains_key(id)
                    <==> old(self)@.contains_key(id)) && final(self)@[id] == old(self)@[id],
            forall|a: Seq<Seq<char>>, b: Seq<Seq<char>>|
                old(self)@.contains_key(session_id@) && #[trigger] is_span(
                    a,
                    old(self)@[session_id@],
                ) && #[trigger] is_span(b, times) ==> is_span(a + b, final(self)@[session_id@]),
    {
        proof {
            if self@.contains_key(session_id@) {
                let known = self@[session_id@];
                assert forall|a: Seq<Seq<char>>, b: Seq<Seq<char>>| #[trigger]
                    is_span(a, known) && #[trigger] is_span(b, times) implies is_span(
                    a + b,
                    merged(known, times),
                ) by {
                    law_merged_spans_both(a, b, known, times);
                }
            }
        }
        let mut all = times;
        if let Some(known) = self.by_id.get(session_id.as_str()) {
            all = *known;
            merge_times(&mut all, times);
        }
        self.by_id.insert(session_id, all);
    }

    /// What the transcripts of a session span.
    pub fn get(&self, session_id: &str) -> (r: Option<TranscriptTimes>)
        ensures
            match r {
                Some(times) => self@.contains_key(session_id@) && times == self@[session_id@],
                None => !self@.contains_key(session_id@),
            },
    {
        match self.by_id.get(session_id) {
            Some(times) => Some(*times),
            None => None,
        }
    }
}

/// What a transcript says, line by line. A line of more than 131072 bytes is not read. The
/// session is the one that the first line to name one names. The span is from the least to the
/// greatest time of any line, before or after that one, and a transcript without a session is
/// none.
pub proof fn law_transcript_is_what_its_lines_say(
    lines: Seq<Seq<char>>,
    r: Option<(String, TranscriptTimes)>,
)
    requires
        is_transcript(lines, r),
    ensures
        r is None <==> forall|i: int|
            0 <= i < lines.len() && byte_count(#[trigger] lines[i]) <= 131_072 ==> json_string(
                lines[i],
                "sessionId"@,
            ) is None,
        r matches Some((id, _)) ==> exists|i: int|
            {
                &&& 0 <= i < lines.len()
                &&& byte_count(#[trigger] lines[i]) <= 131_072
                &&& json_string(lines[i], "sessionId"@) is Some
                &&& id@ == session_key(json_string(lines[i], "sessionId"@)->Some_0)
                &&& forall|j: int|
                    0 <= j < i && byte_count(#[trigger] lines[j]) <= 131_072 ==> json_string(
                        lines[j],
                        "sessionId"@,
                    ) is None
            },
        r matches Some((_, times)) ==> forall|i: int|
            0 <= i < lines.len() && byte_count(#[trigger] lines[i]) <= 131_072 ==> match json_string(
                lines[i],
                "timestamp"@,
            ) {
                Some(text) => timestamp_us(text) matches Some(us) ==> times is Found
                    && times->first_us <= us <= times->last_us,
                None => true,
            },
        r matches Some((_, TranscriptTimes::Found { first_us, last_us })) ==> {
            &&& exists|i: int|
                0 <= i < lines.len() && byte_count(#[trigger] lines[i]) <= 131_072 && json_string(
                    lines[i],
                    "timestamp"@,
                ) is Some && timestamp_us(json_string(lines[i], "timestamp"@)->Some_0) == Some(
                    first_us,
                )
            &&& exists|i: int|
                0 <= i < lines.len() && byte_count(#[trigger] lines[i]) <= 131_072 && json_string(
                    lines[i],
                    "timestamp"@,
                ) is Some && timestamp_us(json_string(lines[i], "timestamp"@)->Some_0) == Some(
                    last_us,
                )
        },
{
    assert forall|i: int|
        0 <= i < lines.len() && byte_count(#[trigger] lines[i]) <= 131_072 implies line_session(
        lines[i],
    ) == json_string(lines[i], "sessionId"@) by {
    }
    if r is None {
        assert forall|i: int|
            0 <= i < lines.len() && byte_count(#[trigger] lines[i]) <= 131_072 implies json_string(
            lines[i],
            "sessionId"@,
        ) is None by {
            assert(line_session(lines[i]) is None);
        }
    }
    if let Some((id, times)) = r {
        let raw = choose|raw: Seq<char>| #[trigger]
            names_session(lines, raw) && id@ == session_key(raw);
        let i = choose|i: int|
            0 <= i < lines.len() && line_session(#[trigger] lines[i]) == Some(raw) && forall|j: int|
                0 <= j < i ==> line_session(#[trigger] lines[j]) is None;
        assert(byte_count(lines[i]) <= 131_072);
        assert(json_string(lines[i], "sessionId"@) == Some(raw));
        assert forall|j: int|
            0 <= j < i && byte_count(#[trigger] lines[j]) <= 131_072 implies json_string(
            lines[j],
            "sessionId"@,
        ) is None by {
            assert(line_session(lines[j]) is None);
        }
        assert forall|i: int|
            0 <= i < lines.len() && byte_count(#[trigger] lines[i]) <= 131_072 implies (
        match json_string(lines[i], "timestamp"@) {
            Some(text) => timestamp_us(text) matches Some(us) ==> times is Found
                && times->first_us <= us <= times->last_us,
            None => true,
        }) by {
            if let Some(text) = json_string(lines[i], "timestamp"@) {
                if let Some(us) = timestamp_us(text) {
                    assert(line_time(lines[i]) == Some(us));
                    assert(has_time(lines, us));
                }
            }
        }
        if let TranscriptTimes::Found { first_us, last_us } = times {
            let a = choose|a: int| 0 <= a < lines.len() && line_time(#[trigger] lines[a]) == Some(
                first_us,
            );
            let b = choose|b: int| 0 <= b < lines.len() && line_time(#[trigger] lines[b]) == Some(
                last_us,
            );
            assert(byte_count(lines[a]) <= 131_072);
            assert(byte_count(lines[b]) <= 131_072);
        }
    }
}

} // verus!
