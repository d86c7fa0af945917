//! The log of cluster centers that a sequential fit writes after every
//! iteration, and the reader that takes it back in.
//!
//! For each iteration the log holds a line `ITERATION <n>:`, then one line
//! `Center <i>: [<c1>, <c2>, ..]` per cluster, then a line `---`. The
//! coordinates are kept as the text they were written with.
use vstd::prelude::*;
use crate::decimal::{
    DigitError, decimal, is_digit, lemma_decimal_reads_back, parse_usize, parsed_usize,
    push_decimal,
};
use crate::text::{
    first_index, find_byte, has_prefix, lemma_first_index, lines_from, second_field,
    split_lines, split_on_separator, split_separated, starts_with, texts, trim_colons,
    trim_colons_end, strip_cr, joined, first_separator, lemma_first_separator, separator_at,
    CARRIAGE_RETURN, COLON, COMMA, NEWLINE, SPACE,
};

verus! {

/// `ITERATION`
pub open spec fn iteration_tag() -> Seq<u8> {
    seq![73u8, 84, 69, 82, 65, 84, 73, 79, 78]
}

/// `Center`
pub open spec fn center_tag() -> Seq<u8> {
    seq![67u8, 101, 110, 116, 101, 114]
}

/// `[`
pub const OPEN_BRACKET: u8 = 91;

/// `]`
pub const CLOSE_BRACKET: u8 = 93;

/// `-`
pub const DASH: u8 = 45;

/// One iteration of the log: its number, and the coordinates of each
/// center as text.
#[derive(Debug)]
pub struct LoggedIteration {
    pub iteration: usize,
    pub centers: Vec<Vec<Vec<u8>>>,
}

/// The coordinates of each center, as text.
pub open spec fn center_texts(centers: Vec<Vec<Vec<u8>>>) -> Seq<Seq<Seq<u8>>> {
    centers@.map_values(|c: Vec<Vec<u8>>| texts(c))
}

/// An iteration of the log as plain values.
pub open spec fn logged(entry: LoggedIteration) -> (usize, Seq<Seq<Seq<u8>>>) {
    (entry.iteration, center_texts(entry.centers))
}

/// Why the log could not be read.
#[derive(Debug, PartialEq, Eq, Structural, Clone, Copy)]
pub enum CenterLogError {
    /// An `ITERATION` line has nothing after a space.
    InvalidIterationFormat,
    /// The number of an `ITERATION` line is not a `usize`.
    InvalidIterationNumber(DigitError),
    /// A `Center` line lacks `[` or `]`.
    InvalidCenterFormat,
}

/// Where reading the log stands between two lines: the iterations read so
/// far, the number of the iteration being read, and its centers so far.
pub struct LogState {
    pub logs: Seq<(usize, Seq<Seq<Seq<u8>>>)>,
    pub current: Option<usize>,
    pub centers: Seq<Seq<Seq<u8>>>,
}

/// Reading the log goes on, has failed, or meets a `Center` line whose `]`
/// comes before its `[` (on which the text slice between them would panic).
pub enum LogProgress {
    Reading(LogState),
    Failed(CenterLogError),
    Stuck,
}

/// Before the first line.
pub open spec fn initial_state() -> LogState {
    LogState { logs: Seq::empty(), current: None, centers: Seq::empty() }
}

/// What one line does to the reading.
///
/// An `ITERATION` line closes the iteration being read, if any (a `Center`
/// line met before the first `ITERATION` line stays with the first
/// iteration), and starts the one it names. A `Center` line adds the
/// coordinates between its first `[` and its first `]`, split at `", "`.
/// Other lines change nothing.
pub open spec fn read_line(state: LogState, line: Seq<u8>) -> LogProgress {
    if starts_with(line, iteration_tag()) {
        let logs = match state.current {
            Some(it) => state.logs.push((it, state.centers)),
            None => state.logs,
        };
        let centers = match state.current {
            Some(_) => Seq::empty(),
            None => state.centers,
        };
        match second_field(line) {
            None => LogProgress::Failed(CenterLogError::InvalidIterationFormat),
            Some(field) => match parsed_usize(trim_colons(field)) {
                Err(kind) => LogProgress::Failed(CenterLogError::InvalidIterationNumber(kind)),
                Ok(n) => LogProgress::Reading(
                    LogState { logs, current: Some(n as usize), centers },
                ),
            },
        }
    } else if starts_with(line, center_tag()) {
        let open = first_index(line, OPEN_BRACKET);
        let close = first_index(line, CLOSE_BRACKET);
        if open < 0 || close < 0 {
            LogProgress::Failed(CenterLogError::InvalidCenterFormat)
        } else if close < open {
            LogProgress::Stuck
        } else {
            LogProgress::Reading(
                LogState {
                    centers: state.centers.push(
                        split_on_separator(line.subrange(open + 1, close)),
                    ),
                    ..state
                },
            )
        }
    } else {
        LogProgress::Reading(state)
    }
}

/// The reading after the lines `lines`, from `progress` on.
pub open spec fn read_lines(progress: LogProgress, lines: Seq<Seq<u8>>) -> LogProgress
    decreases lines.len(),
{
    if lines.len() == 0 {
        progress
    } else {
        match progress {
            LogProgress::Reading(state) => read_lines(
                read_line(state, lines[0]),
                lines.drop_first(),
            ),
            _ => progress,
        }
    }
}

/// The iterations read, once the last one is closed.
pub open spec fn finished(state: LogState) -> Seq<(usize, Seq<Seq<Seq<u8>>>)> {
    match state.current {
        Some(it) => state.logs.push((it, state.centers)),
        None => state.logs,
    }
}

/// The reading of the whole log `text`.
pub open spec fn log_reading(text: Seq<u8>) -> LogProgress {
    read_lines(LogProgress::Reading(initial_state()), split_lines(text))
}

/// The exec state of the reader.
struct LogReader {
    logs: Vec<LoggedIteration>,
    current: Option<usize>,
    centers: Vec<Vec<Vec<u8>>>,
}

impl LogReader {
    spec fn state(self) -> LogState {
        LogState {
            logs: self.logs@.map_values(|e: LoggedIteration| logged(e)),
            current: self.current,
            centers: center_texts(self.centers),
        }
    }

    /// Applies one line to the reader.
    /// `Err(None)` stands for a line on which the reading gets stuck.
    fn read(&mut self, line: &Vec<u8>) -> (r: Result<(), Option<CenterLogError>>)
        ensures
            match read_line(old(self).state(), line@) {
                LogProgress::Reading(next) => r is Ok && final(self).state() == next,
                LogProgress::Failed(e) => r == Err::<(), Option<CenterLogError>>(Some(e)),
                LogProgress::Stuck => r == Err::<(), Option<CenterLogError>>(None),
            },
    {
        let iteration = vec![73u8, 84, 69, 82, 65, 84, 73, 79, 78];
        let center = vec![67u8, 101, 110, 116, 101, 114];
        assert(iteration@ =~= iteration_tag());
        assert(center@ =~= center_tag());
        if has_prefix(line, &iteration) {
            let ghost before = self.state();
            if let Some(it) = self.current {
                let mut taken: Vec<Vec<Vec<u8>>> = Vec::new();
                std::mem::swap(&mut taken, &mut self.centers);
                let entry = LoggedIteration { iteration: it, centers: taken };
                self.logs.push(entry);
                proof {
                    assert(self.state().logs =~= before.logs.push((it, before.centers)));
                    assert(self.state().centers =~= Seq::<Seq<Seq<u8>>>::empty());
                }
            }
            let len = line.len();
            proof {
                assert(line@.subrange(0, len as int) =~= line@);
            }
            let space = find_byte(line, 0, len, SPACE);
            match space {
                None => {
                    return Err(Some(CenterLogError::InvalidIterationFormat));
                },
                Some(i) => {
                    let end = match find_byte(line, i + 1, len, SPACE) {
                        Some(j) => j,
                        None => len,
                    };
                    proof {
                        let rest = line@.skip(i + 1);
                        assert(rest =~= line@.subrange(i + 1, len as int));
                        lemma_first_index(rest, SPACE);
                        assert(rest.take(end - (i + 1)) =~= line@.subrange(i + 1, end as int));
                        assert(second_field(line@) == Some(line@.subrange(i + 1, end as int)));
                    }
                    let digits_end = trim_colons_end(line, i + 1, end);
                    match parse_usize(line, i + 1, digits_end) {
                        Err(kind) => {
                            return Err(Some(CenterLogError::InvalidIterationNumber(kind)));
                        },
                        Ok(n) => {
                            self.current = Some(n);
                            return Ok(());
                        },
                    }
                },
            }
        } else if has_prefix(line, &center) {
            let len = line.len();
            proof {
                assert(line@.subrange(0, len as int) =~= line@);
            }
            let open = find_byte(line, 0, len, OPEN_BRACKET);
            let close = find_byte(line, 0, len, CLOSE_BRACKET);
            match (open, close) {
                (Some(o), Some(c)) => {
                    proof {
                        lemma_first_index(line@, OPEN_BRACKET);
                        lemma_first_index(line@, CLOSE_BRACKET);
                    }
                    if c < o {
                        return Err(None);
                    }
                    let coords = split_separated(line, o + 1, c);
                    let ghost before = self.state();
                    self.centers.push(coords);
                    proof {
                        assert(self.state().centers =~= before.centers.push(
                            split_on_separator(line@.subrange(o + 1, c as int)),
                        ));
                        assert(self.state().logs =~= before.logs);
                    }
                    return Ok(());
                },
                _ => {
                    return Err(Some(CenterLogError::InvalidCenterFormat));
                },
            }
        } else {
            return Ok(());
        }
    }
}

/// Reading ends where it has failed or got stuck.
proof fn lemma_read_lines_stops(progress: LogProgress, lines: Seq<Seq<u8>>)
    requires
        !(progress is Reading),
    ensures
        read_lines(progress, lines) == progress,
    decreases lines.len(),
{
}

/// The outcome of reading a center log.
#[derive(Debug)]
pub enum CenterLogReading {
    /// The iterations that the log holds.
    Complete(Vec<LoggedIteration>),
    /// A line of the log is malformed.
    Failed(CenterLogError),
    /// A `Center` line has its first `]` before its first `[`, so that the
    /// text between them cannot be sliced out.
    Unsliceable,
}

/// Reads a center log back: the iterations it holds, each with the
/// coordinates of its centers as text, or the first malformed line's error.
///
/// `text` is split into lines as `BufRead::lines` splits it.
pub fn read_center_log(text: &Vec<u8>) -> (reading: CenterLogReading)
    ensures
        match log_reading(text@) {
            LogProgress::Reading(state) => reading matches CenterLogReading::Complete(entries)
                && entries@.map_values(|e: LoggedIteration| logged(e)) == finished(state),
            LogProgress::Failed(e) => reading matches CenterLogReading::Failed(f) && f == e,
            LogProgress::Stuck => reading is Unsliceable,
        },
{
    let mut reader = LogReader { logs: Vec::new(), current: None, centers: Vec::new() };
    assert(reader.state() == initial_state()) by {
        assert(reader.state().logs =~= Seq::<(usize, Seq<Seq<Seq<u8>>>)>::empty());
        assert(reader.state().centers =~= Seq::<Seq<Seq<u8>>>::empty());
    }
    let mut line: Vec<u8> = Vec::new();
    let mut i: usize = 0;
    assert(text@.skip(0) =~= text@);
    while i < text.len()
        invariant
            0 <= i <= text@.len(),
            log_reading(text@) == read_lines(
                LogProgress::Reading(reader.state()),
                lines_from(text@.skip(i as int), line@),
            ),
        decreases text@.len() - i,
    {
        let b = text[i];
        let ghost rest = text@.skip(i as int);
        assert(rest[0] == b);
        assert(rest.drop_first() =~= text@.skip(i + 1));
        if b == NEWLINE {
            let ghost state = reader.state();
            let mut complete = line;
            if complete.len() > 0 && complete[complete.len() - 1] == CARRIAGE_RETURN {
                let _ = complete.pop();
            }
            assert(complete@ =~= strip_cr(line@));
            let ghost others = lines_from(text@.skip(i + 1), Seq::empty());
            assert(lines_from(rest, line@) =~= seq![complete@] + others);
            assert((seq![complete@] + others)[0] == complete@);
            assert((seq![complete@] + others).drop_first() =~= others);
            proof {
                if read_line(state, complete@) is Stuck {
                    lemma_read_lines_stops(LogProgress::Stuck, others);
                }
            }
            match reader.read(&complete) {
                Err(Some(e)) => {
                    proof {
                        lemma_read_lines_stops(LogProgress::Failed(e), others);
                    }
                    return CenterLogReading::Failed(e);
                },
                Err(None) => {
                    return CenterLogReading::Unsliceable;
                },
                Ok(()) => {},
            }
            line = Vec::new();
        } else {
            line.push(b);
        }
        i = i + 1;
    }
    assert(text@.skip(i as int).len() == 0);
    if line.len() > 0 {
        let ghost state = reader.state();
        assert(lines_from(text@.skip(i as int), line@) =~= seq![line@]);
        assert(seq![line@].drop_first() =~= Seq::<Seq<u8>>::empty());
        assert(read_lines(read_line(state, line@), Seq::empty()) == read_line(state, line@));
        assert(log_reading(text@) == read_line(state, line@));
        proof {
            if read_line(state, line@) is Stuck {
                lemma_read_lines_stops(LogProgress::Stuck, Seq::empty());
            }
        }
        match reader.read(&line) {
            Err(Some(e)) => {
                return CenterLogReading::Failed(e);
            },
            Err(None) => {
                return CenterLogReading::Unsliceable;
            },
            Ok(()) => {},
        }
    }
    let ghost state = reader.state();
    assert(log_reading(text@) == LogProgress::Reading(state));
    let mut logs = reader.logs;
    if let Some(it) = reader.current {
        let entry = LoggedIteration { iteration: it, centers: reader.centers };
        logs.push(entry);
    }
    assert(logs@.map_values(|e: LoggedIteration| logged(e)) =~= finished(state));
    CenterLogReading::Complete(logs)
}

/// Reads a center log back, as `read_center_log` does, for a log that has
/// no `Center` line (before its first malformed line) whose first `]` comes
/// before its first `[`.
pub fn parse_center_log(text: &Vec<u8>) -> (parsed: Result<Vec<LoggedIteration>, CenterLogError>)
    requires
        !(log_reading(text@) is Stuck),
    ensures
        match log_reading(text@) {
            LogProgress::Reading(state) => parsed matches Ok(entries) && entries@.map_values(
                |e: LoggedIteration| logged(e),
            ) == finished(state),
            LogProgress::Failed(e) => parsed == Err::<Vec<LoggedIteration>, CenterLogError>(e),
            LogProgress::Stuck => false,
        },
{
    match read_center_log(text) {
        CenterLogReading::Complete(entries) => Ok(entries),
        CenterLogReading::Failed(e) => Err(e),
        CenterLogReading::Unsliceable => Err(CenterLogError::InvalidCenterFormat),
    }
}

/// `ITERATION <n>:`
pub open spec fn header_line(iteration: nat) -> Seq<u8> {
    iteration_tag() + seq![SPACE] + decimal(iteration) + seq![COLON]
}

/// `Center <i>: [<c1>, <c2>, ..]`
pub open spec fn center_line(index: nat, coords: Seq<Seq<u8>>) -> Seq<u8> {
    center_tag() + seq![SPACE] + decimal(index) + seq![COLON, SPACE, OPEN_BRACKET] + joined(coords)
        + seq![CLOSE_BRACKET]
}

/// `---`
pub open spec fn separator_line() -> Seq<u8> {
    seq![DASH, DASH, DASH]
}

/// The center lines of one iteration.
pub open spec fn center_lines(centers: Seq<Seq<Seq<u8>>>) -> Seq<Seq<u8>> {
    Seq::new(centers.len(), |i: int| center_line(i as nat, centers[i]))
}

/// The lines written for one iteration.
pub open spec fn iteration_lines(iteration: nat, centers: Seq<Seq<Seq<u8>>>) -> Seq<Seq<u8>> {
    seq![header_line(iteration)] + center_lines(centers) + seq![separator_line()]
}

/// The lines, each followed by `\n`.
pub open spec fn with_newlines(lines: Seq<Seq<u8>>) -> Seq<u8> {
    lines.map_values(|l: Seq<u8>| l.push(NEWLINE)).flatten()
}

/// The text written for one iteration.
pub open spec fn rendered_iteration(iteration: nat, centers: Seq<Seq<Seq<u8>>>) -> Seq<u8> {
    with_newlines(iteration_lines(iteration, centers))
}

/// The text of a whole log.
pub open spec fn rendered_log(entries: Seq<(usize, Seq<Seq<Seq<u8>>>)>) -> Seq<u8> {
    entries.map_values(
        |e: (usize, Seq<Seq<Seq<u8>>>)| rendered_iteration(e.0 as nat, e.1),
    ).flatten()
}

/// Appends `bytes` to `out`.
fn append(out: &mut Vec<u8>, bytes: &Vec<u8>)
    ensures
        final(out)@ == old(out)@ + bytes@,
{
    let mut k: usize = 0;
    while k < bytes.len()
        invariant
            0 <= k <= bytes@.len(),
            out@ == old(out)@ + bytes@.take(k as int),
        decreases bytes@.len() - k,
    {
        out.push(bytes[k]);
        k = k + 1;
        assert(out@ =~= old(out)@ + bytes@.take(k as int));
    }
    assert(bytes@.take(k as int) =~= bytes@);
}

/// Joining one more piece adds the separator and the piece.
proof fn lemma_joined_push(pieces: Seq<Seq<u8>>, piece: Seq<u8>)
    requires
        pieces.len() >= 1,
    ensures
        joined(pieces.push(piece)) == joined(pieces) + seq![COMMA, SPACE] + piece,
    decreases pieces.len(),
{
    let longer = pieces.push(piece);
    if pieces.len() == 1 {
        assert(longer.drop_first() =~= seq![piece]);
        assert(joined(seq![piece]) == piece);
        assert(longer[0] == pieces[0]);
        assert(joined(longer) =~= pieces[0] + seq![COMMA, SPACE] + piece);
    } else {
        lemma_joined_push(pieces.drop_first(), piece);
        assert(longer.drop_first() =~= pieces.drop_first().push(piece));
        assert(longer[0] == pieces[0]);
        assert(joined(longer) =~= joined(pieces) + seq![COMMA, SPACE] + piece);
    }
}

/// Adding a line adds it and its `\n` to the text.
proof fn lemma_with_newlines_push(lines: Seq<Seq<u8>>, line: Seq<u8>)
    ensures
        with_newlines(lines.push(line)) == with_newlines(lines) + line.push(NEWLINE),
{
    let f = |l: Seq<u8>| l.push(NEWLINE);
    assert(lines.push(line).map_values(f) =~= lines.map_values(f).push(line.push(NEWLINE)));
    lines.map_values(f).lemma_flatten_push(line.push(NEWLINE));
}

/// The text of one iteration of the log: a line `ITERATION <iteration>:`,
/// a line `Center <i>: [<coordinates joined by ", ">]` for each center, and
/// a line `---`, each line ending in `\n`.
pub fn render_iteration(iteration: usize, centers: &Vec<Vec<Vec<u8>>>) -> (text: Vec<u8>)
    ensures
        text@ == rendered_iteration(iteration as nat, center_texts(*centers)),
        coordinates_without_newlines(center_texts(*centers)) ==> {
            &&& split_lines(text@).len() == centers@.len() + 2
            &&& split_lines(text@)[0] == seq![73u8, 84, 69, 82, 65, 84, 73, 79, 78, SPACE]
                + decimal(iteration as nat) + seq![COLON]
            &&& forall|i: int|
                0 <= i < centers@.len() ==> #[trigger] split_lines(text@)[i + 1] == seq![
                    67u8,
                    101,
                    110,
                    116,
                    101,
                    114,
                    SPACE,
                ] + decimal(i as nat) + seq![COLON, SPACE, OPEN_BRACKET] + joined(
                    texts(centers@[i]),
                ) + seq![CLOSE_BRACKET]
            &&& split_lines(text@)[centers@.len() + 1int] == seq![DASH, DASH, DASH]
        },
{
    let ghost cs = center_texts(*centers);
    let mut out: Vec<u8> = Vec::new();
    let iteration_word = vec![73u8, 84, 69, 82, 65, 84, 73, 79, 78];
    let center_word = vec![67u8, 101, 110, 116, 101, 114];
    assert(iteration_word@ =~= iteration_tag());
    assert(center_word@ =~= center_tag());
    append(&mut out, &iteration_word);
    out.push(SPACE);
    push_decimal(&mut out, iteration);
    out.push(COLON);
    proof {
        assert(out@ =~= header_line(iteration as nat));
        lemma_with_newlines_push(Seq::empty(), header_line(iteration as nat));
        assert(with_newlines(Seq::empty()) =~= Seq::<u8>::empty());
        assert(Seq::<Seq<u8>>::empty().push(header_line(iteration as nat)) =~= seq![
            header_line(iteration as nat),
        ]);
    }
    out.push(NEWLINE);
    let n = centers.len();
    let mut i: usize = 0;
    while i < n
        invariant
            0 <= i <= n,
            n == centers@.len(),
            cs == center_texts(*centers),
            center_word@ == center_tag(),
            out@ == with_newlines(
                seq![header_line(iteration as nat)] + center_lines(cs).take(i as int),
            ),
        decreases n - i,
    {
        let coords = &centers[i];
        let ghost pieces = cs[i as int];
        assert(pieces == texts(*coords));
        let mut line: Vec<u8> = Vec::new();
        append(&mut line, &center_word);
        line.push(SPACE);
        push_decimal(&mut line, i);
        line.push(COLON);
        line.push(SPACE);
        line.push(OPEN_BRACKET);
        let ghost lead = line@;
        let m = coords.len();
        let mut k: usize = 0;
        while k < m
            invariant
                0 <= k <= m,
                m == coords@.len(),
                pieces == texts(*coords),
                line@ == lead + joined(pieces.take(k as int)),
            decreases m - k,
        {
            let ghost before = line@;
            if k > 0 {
                line.push(COMMA);
                line.push(SPACE);
            }
            append(&mut line, &coords[k]);
            proof {
                assert(pieces.take(k + 1) =~= pieces.take(k as int).push(pieces[k as int]));
                if k > 0 {
                    lemma_joined_push(pieces.take(k as int), pieces[k as int]);
                    assert(line@ =~= lead + joined(pieces.take(k + 1)));
                } else {
                    assert(pieces.take(1).len() == 1);
                    assert(joined(pieces.take(1)) == pieces[0]);
                    assert(pieces.take(0) =~= Seq::<Seq<u8>>::empty());
                    assert(line@ =~= lead + joined(pieces.take(1)));
                }
            }
            k = k + 1;
        }
        line.push(CLOSE_BRACKET);
        proof {
            assert(pieces.take(m as int) =~= pieces);
            assert(line@ =~= center_line(i as nat, pieces));
            let lines = seq![header_line(iteration as nat)] + center_lines(cs).take(i as int);
            lemma_with_newlines_push(lines, line@);
            assert(lines.push(line@) =~= seq![header_line(iteration as nat)] + center_lines(
                cs,
            ).take(i + 1));
        }
        append(&mut out, &line);
        out.push(NEWLINE);
        i = i + 1;
    }
    out.push(DASH);
    out.push(DASH);
    out.push(DASH);
    out.push(NEWLINE);
    proof {
        let lines = seq![header_line(iteration as nat)] + center_lines(cs).take(n as int);
        assert(center_lines(cs).take(n as int) =~= center_lines(cs));
        lemma_with_newlines_push(lines, separator_line());
        assert(lines.push(separator_line()) =~= iteration_lines(iteration as nat, cs));
        if coordinates_without_newlines(cs) {
            lemma_rendered_iteration_lines(iteration, cs);
            assert forall|i: int| 0 <= i < centers@.len() implies cs[i] == texts(
                #[trigger] centers@[i],
            ) by {}
        }
    }
    out
}

/// `s` holds no byte `b`.
pub open spec fn lacks(s: Seq<u8>, b: u8) -> bool {
    forall|k: int| 0 <= k < s.len() ==> s[k] != b
}

/// A coordinate text that the log can carry: it has no line break, no `]`
/// and no `", "`.
pub open spec fn loggable_coordinate(c: Seq<u8>) -> bool {
    &&& lacks(c, NEWLINE)
    &&& lacks(c, CLOSE_BRACKET)
    &&& forall|j: int| !separator_at(c, j)
}

/// The centers of one iteration can be carried by the log: each has at least
/// one coordinate, and every coordinate is loggable.
pub open spec fn loggable_centers(centers: Seq<Seq<Seq<u8>>>) -> bool {
    &&& forall|c: int| 0 <= c < centers.len() ==> (#[trigger] centers[c]).len() >= 1
    &&& forall|c: int, x: int|
        0 <= c < centers.len() && 0 <= x < centers[c].len() ==> loggable_coordinate(
            #[trigger] centers[c][x],
        )
}

/// No coordinate text of the centers holds a line break.
pub open spec fn coordinates_without_newlines(centers: Seq<Seq<Seq<u8>>>) -> bool {
    forall|c: int, x: int|
        0 <= c < centers.len() && 0 <= x < centers[c].len() ==> lacks(
            #[trigger] centers[c][x],
            NEWLINE,
        )
}

/// Iterations that the log can carry.
pub open spec fn loggable(entries: Seq<(usize, Seq<Seq<Seq<u8>>>)>) -> bool {
    forall|e: int| 0 <= e < entries.len() ==> loggable_centers(#[trigger] entries[e].1)
}

/// The iterations read up to a state, the one being read excepted.
pub open spec fn closed_logs(state: LogState) -> Seq<(usize, Seq<Seq<Seq<u8>>>)> {
    match state.current {
        Some(it) => state.logs.push((it, state.centers)),
        None => state.logs,
    }
}

/// A state in which no center waits without an iteration to go with.
pub open spec fn settled(state: LogState) -> bool {
    state.current is None ==> state.centers.len() == 0
}

proof fn lemma_lines_from_line(l: Seq<u8>, rest: Seq<u8>, current: Seq<u8>)
    requires
        lacks(l, NEWLINE),
    ensures
        lines_from(l + seq![NEWLINE] + rest, current) == seq![strip_cr(current + l)] + lines_from(
            rest,
            Seq::empty(),
        ),
    decreases l.len(),
{
    let t = l + seq![NEWLINE] + rest;
    if l.len() == 0 {
        assert(t =~= seq![NEWLINE] + rest);
        assert(t.drop_first() =~= rest);
        assert(current + l =~= current);
    } else {
        assert(t[0] == l[0]);
        assert(t.drop_first() =~= l.drop_first() + seq![NEWLINE] + rest);
        lemma_lines_from_line(l.drop_first(), rest, current.push(l[0]));
        assert(current.push(l[0]) + l.drop_first() =~= current + l);
    }
}

/// Lines without line breaks or final `\r`, each written with a `\n`, are
/// read back as the same lines.
proof fn lemma_lines_read_back(lines: Seq<Seq<u8>>, rest: Seq<u8>)
    requires
        forall|i: int|
            0 <= i < lines.len() ==> lacks(#[trigger] lines[i], NEWLINE) && !(lines[i].len() > 0
                && lines[i].last() == CARRIAGE_RETURN),
    ensures
        lines_from(with_newlines(lines) + rest, Seq::empty()) == lines + lines_from(
            rest,
            Seq::empty(),
        ),
    decreases lines.len(),
{
    let f = |l: Seq<u8>| l.push(NEWLINE);
    if lines.len() == 0 {
        assert(with_newlines(lines) =~= Seq::<u8>::empty());
        assert(with_newlines(lines) + rest =~= rest);
        assert(lines + lines_from(rest, Seq::empty()) =~= lines_from(rest, Seq::empty()));
    } else {
        let l = lines[0];
        let tail = lines.drop_first();
        assert(lines.map_values(f).drop_first() =~= tail.map_values(f));
        assert(with_newlines(lines) == l.push(NEWLINE) + with_newlines(tail));
        assert(with_newlines(lines) + rest =~= l + seq![NEWLINE] + (with_newlines(tail) + rest));
        lemma_lines_from_line(l, with_newlines(tail) + rest, Seq::empty());
        assert(Seq::<u8>::empty() + l =~= l);
        assert forall|i: int|
            0 <= i < tail.len() implies lacks(#[trigger] tail[i], NEWLINE) && !(tail[i].len() > 0
                && tail[i].last() == CARRIAGE_RETURN) by {
            assert(tail[i] == lines[i + 1]);
        }
        lemma_lines_read_back(tail, rest);
        assert(seq![l] + (tail + lines_from(rest, Seq::empty())) =~= lines + lines_from(
            rest,
            Seq::empty(),
        ));
    }
}

/// Reading `a` then `b` is reading `a + b`.
proof fn lemma_read_lines_concat(progress: LogProgress, a: Seq<Seq<u8>>, b: Seq<Seq<u8>>)
    ensures
        read_lines(progress, a + b) == read_lines(read_lines(progress, a), b),
    decreases a.len(),
{
    if !(progress is Reading) {
        lemma_read_lines_stops(progress, a + b);
        lemma_read_lines_stops(progress, a);
        lemma_read_lines_stops(progress, b);
    } else if a.len() == 0 {
        assert(a + b =~= b);
    } else {
        assert((a + b)[0] == a[0]);
        assert((a + b).drop_first() =~= a.drop_first() + b);
        let state = progress->Reading_0;
        lemma_read_lines_concat(read_line(state, a[0]), a.drop_first(), b);
    }
}

/// Reading a single line.
proof fn lemma_read_single(state: LogState, line: Seq<u8>)
    ensures
        read_lines(LogProgress::Reading(state), seq![line]) == read_line(state, line),
{
    assert(seq![line].drop_first() =~= Seq::<Seq<u8>>::empty());
    let p = read_line(state, line);
    assert(read_lines(p, Seq::empty()) == p);
}

/// The first `x` in `a + [x] + rest`, where `a` holds no `x`.
proof fn lemma_first_index_after(a: Seq<u8>, x: u8, rest: Seq<u8>)
    requires
        lacks(a, x),
    ensures
        first_index(a + seq![x] + rest, x) == a.len(),
{
    let s = a + seq![x] + rest;
    lemma_first_index(s, x);
    let f = first_index(s, x);
    assert(s[a.len() as int] == x);
    if f < 0 {
        assert(s[a.len() as int] != x);
    } else if f < a.len() {
        assert(s[f] == a[f]);
    } else if f > a.len() {
        assert(s[a.len() as int] != x);
    }
}

/// Decimal digits are none of the bytes that the log format gives a meaning.
proof fn lemma_decimal_lacks(n: nat)
    requires
        n <= usize::MAX,
    ensures
        decimal(n).len() >= 1,
        decimal(n).last() != COLON,
        lacks(decimal(n), SPACE),
        lacks(decimal(n), COLON),
        lacks(decimal(n), NEWLINE),
        lacks(decimal(n), OPEN_BRACKET),
        lacks(decimal(n), CLOSE_BRACKET),
{
    lemma_decimal_reads_back(n);
    let d = decimal(n);
    assert(is_digit(d[d.len() - 1]));
}

/// A joined text holds a byte only if a piece does or the byte is part of
/// the separator.
proof fn lemma_joined_lacks(pieces: Seq<Seq<u8>>, b: u8)
    requires
        b != COMMA,
        b != SPACE,
        forall|i: int| 0 <= i < pieces.len() ==> lacks(#[trigger] pieces[i], b),
    ensures
        lacks(joined(pieces), b),
    decreases pieces.len(),
{
    if pieces.len() >= 2 {
        let rest = pieces.drop_first();
        assert forall|i: int| 0 <= i < rest.len() implies lacks(#[trigger] rest[i], b) by {
            assert(rest[i] == pieces[i + 1]);
        }
        lemma_joined_lacks(rest, b);
        let j = pieces[0] + seq![COMMA, SPACE] + joined(rest);
        assert(lacks(pieces[0], b));
        assert forall|k: int| 0 <= k < j.len() implies j[k] != b by {
            if k < pieces[0].len() {
                assert(j[k] == pieces[0][k]);
            } else if k >= pieces[0].len() + 2 {
                assert(j[k] == joined(rest)[k - pieces[0].len() - 2]);
            }
        }
    } else if pieces.len() == 1 {
        assert(lacks(pieces[0], b));
    }
}

/// Splitting joined pieces at `", "` gives the pieces back, when no piece
/// holds a separator.
proof fn lemma_split_joined(pieces: Seq<Seq<u8>>)
    requires
        pieces.len() >= 1,
        forall|i: int, j: int| 0 <= i < pieces.len() ==> !#[trigger] separator_at(pieces[i], j),
    ensures
        split_on_separator(joined(pieces)) == pieces,
    decreases pieces.len(),
{
    if pieces.len() == 1 {
        let s = pieces[0];
        lemma_first_separator(s);
        if first_separator(s) >= 0 {
            assert(separator_at(pieces[0], first_separator(s)));
        }
        assert(seq![s] =~= pieces);
    } else {
        let a = pieces[0];
        let rest = pieces.drop_first();
        let r = joined(rest);
        let s = a + seq![COMMA, SPACE] + r;
        assert(joined(pieces) == s);
        lemma_first_separator(s);
        let f = first_separator(s);
        assert(separator_at(s, a.len() as int));
        assert forall|j: int| 0 <= j < a.len() implies !separator_at(s, j) by {
            if j + 1 < a.len() {
                if separator_at(s, j) {
                    assert(separator_at(a, j));
                }
            } else {
                assert(s[j + 1] == COMMA);
            }
        }
        if f < 0 {
            assert(!separator_at(s, a.len() as int));
        } else if f > a.len() {
            assert(!separator_at(s, a.len() as int));
        }
        assert(f == a.len());
        assert(s.take(f) =~= a);
        assert(s.skip(f + 2) =~= r);
        assert forall|i: int, j: int| 0 <= i < rest.len() implies !#[trigger] separator_at(rest[i], j) by {
            assert(rest[i] == pieces[i + 1]);
        }
        lemma_split_joined(rest);
        assert(seq![a] + rest =~= pieces);
    }
}

/// Reading the header line of an iteration closes the iteration before it
/// and starts this one.
proof fn lemma_read_header(state: LogState, iteration: usize)
    requires
        settled(state),
    ensures
        read_line(state, header_line(iteration as nat)) == LogProgress::Reading(
            LogState { logs: closed_logs(state), current: Some(iteration), centers: Seq::empty() },
        ),
{
    let line = header_line(iteration as nat);
    let d = decimal(iteration as nat);
    lemma_decimal_lacks(iteration as nat);
    lemma_decimal_reads_back(iteration as nat);
    assert(line.take(9) =~= iteration_tag());
    assert(starts_with(line, iteration_tag()));
    let tail = d + seq![COLON];
    assert(line =~= iteration_tag() + seq![SPACE] + tail);
    assert(lacks(iteration_tag(), SPACE));
    lemma_first_index_after(iteration_tag(), SPACE, tail);
    assert(line.skip(10) =~= tail);
    lemma_first_index(tail, SPACE);
    if first_index(tail, SPACE) >= 0 {
        let k = first_index(tail, SPACE);
        if k < d.len() {
            assert(tail[k] == d[k]);
        }
    }
    assert(second_field(line) == Some(tail));
    assert(tail.drop_last() =~= d);
    assert(trim_colons(tail) == trim_colons(d));
    assert(trim_colons(d) == d);
    if state.current is None {
        assert(state.centers =~= Seq::<Seq<Seq<u8>>>::empty());
    }
}

/// Reading a center line adds its coordinates to the iteration being read.
proof fn lemma_read_center(state: LogState, index: nat, coords: Seq<Seq<u8>>)
    requires
        index <= usize::MAX,
        coords.len() >= 1,
        forall|x: int| 0 <= x < coords.len() ==> loggable_coordinate(#[trigger] coords[x]),
    ensures
        read_line(state, center_line(index, coords)) == LogProgress::Reading(
            LogState { centers: state.centers.push(coords), ..state },
        ),
{
    let line = center_line(index, coords);
    let d = decimal(index);
    lemma_decimal_lacks(index);
    let body = joined(coords);
    assert forall|x: int| 0 <= x < coords.len() implies lacks(
        #[trigger] coords[x],
        CLOSE_BRACKET,
    ) by {
        assert(loggable_coordinate(coords[x]));
    }
    lemma_joined_lacks(coords, CLOSE_BRACKET);
    assert forall|i: int, j: int| 0 <= i < coords.len() implies !#[trigger] separator_at(coords[i], j) by {
        assert(loggable_coordinate(coords[i]));
    }
    lemma_split_joined(coords);
    if line.len() >= 9 {
        assert(line.take(9)[0] != iteration_tag()[0]);
    }
    assert(!starts_with(line, iteration_tag()));
    assert(line.take(6) =~= center_tag());
    let lead = center_tag() + seq![SPACE] + d + seq![COLON, SPACE];
    assert(lacks(center_tag(), OPEN_BRACKET));
    assert(lacks(lead, OPEN_BRACKET)) by {
        assert forall|k: int| 0 <= k < lead.len() implies lead[k] != OPEN_BRACKET by {
            if 7 <= k < 7 + d.len() {
                assert(lead[k] == d[k - 7]);
            }
        }
    }
    assert(line =~= lead + seq![OPEN_BRACKET] + (body + seq![CLOSE_BRACKET]));
    lemma_first_index_after(lead, OPEN_BRACKET, body + seq![CLOSE_BRACKET]);
    let upto = lead + seq![OPEN_BRACKET] + body;
    assert(lacks(center_tag(), CLOSE_BRACKET));
    assert(lacks(upto, CLOSE_BRACKET)) by {
        assert forall|k: int| 0 <= k < upto.len() implies upto[k] != CLOSE_BRACKET by {
            if 7 <= k < 7 + d.len() {
                assert(upto[k] == d[k - 7]);
            } else if k > lead.len() {
                assert(upto[k] == body[k - lead.len() - 1]);
            }
        }
    }
    assert(line =~= upto + seq![CLOSE_BRACKET] + Seq::<u8>::empty());
    lemma_first_index_after(upto, CLOSE_BRACKET, Seq::empty());
    let open = lead.len() as int;
    let close = upto.len() as int;
    assert(line.subrange(open + 1, close) =~= body);
}

/// The separator line changes nothing.
proof fn lemma_read_separator(state: LogState)
    ensures
        read_line(state, separator_line()) == LogProgress::Reading(state),
{
}

/// Reading the center lines of an iteration adds its centers.
proof fn lemma_read_center_lines(state: LogState, centers: Seq<Seq<Seq<u8>>>)
    requires
        centers.len() <= usize::MAX,
        loggable_centers(centers),
    ensures
        read_lines(LogProgress::Reading(state), center_lines(centers)) == LogProgress::Reading(
            LogState { centers: state.centers + centers, ..state },
        ),
    decreases centers.len(),
{
    if centers.len() == 0 {
        assert(center_lines(centers) =~= Seq::<Seq<u8>>::empty());
        assert(state.centers + centers =~= state.centers);
    } else {
        let n = centers.len() - 1;
        let first = centers.drop_last();
        assert(loggable_centers(first)) by {
            assert forall|c: int| 0 <= c < first.len() implies (#[trigger] first[c]).len() >= 1 by {
                assert(first[c] == centers[c]);
            }
            assert forall|c: int, x: int|
                0 <= c < first.len() && 0 <= x < first[c].len() implies loggable_coordinate(
                #[trigger] first[c][x],
            ) by {
                assert(first[c] == centers[c]);
            }
        }
        lemma_read_center_lines(state, first);
        let mid = LogState { centers: state.centers + first, ..state };
        assert(center_lines(centers) =~= center_lines(first) + seq![
            center_line(n as nat, centers[n]),
        ]);
        lemma_read_lines_concat(
            LogProgress::Reading(state),
            center_lines(first),
            seq![center_line(n as nat, centers[n])],
        );
        lemma_read_single(mid, center_line(n as nat, centers[n]));
        assert forall|x: int| 0 <= x < centers[n].len() implies loggable_coordinate(
            #[trigger] centers[n][x],
        ) by {
            assert(loggable_centers(centers));
        }
        lemma_read_center(mid, n as nat, centers[n]);
        assert((state.centers + first).push(centers[n]) =~= state.centers + centers);
    }
}

/// Reading the lines of one iteration closes the iteration before it and
/// leaves this one being read, with all its centers.
proof fn lemma_read_iteration(state: LogState, iteration: usize, centers: Seq<Seq<Seq<u8>>>)
    requires
        settled(state),
        centers.len() <= usize::MAX,
        loggable_centers(centers),
    ensures
        read_lines(LogProgress::Reading(state), iteration_lines(iteration as nat, centers))
            == LogProgress::Reading(
            LogState { logs: closed_logs(state), current: Some(iteration), centers },
        ),
{
    let header = header_line(iteration as nat);
    let started = LogState {
        logs: closed_logs(state),
        current: Some(iteration),
        centers: Seq::empty(),
    };
    lemma_read_header(state, iteration);
    lemma_read_single(state, header);
    lemma_read_lines_concat(LogProgress::Reading(state), seq![header], center_lines(centers));
    lemma_read_center_lines(started, centers);
    let filled = LogState { centers: Seq::<Seq<Seq<u8>>>::empty() + centers, ..started };
    assert(Seq::<Seq<Seq<u8>>>::empty() + centers =~= centers);
    lemma_read_lines_concat(
        LogProgress::Reading(state),
        seq![header] + center_lines(centers),
        seq![separator_line()],
    );
    lemma_read_single(filled, separator_line());
    lemma_read_separator(filled);
}

/// The lines of one iteration hold no line break and do not end in `\r`.
proof fn lemma_iteration_lines_plain(iteration: usize, centers: Seq<Seq<Seq<u8>>>)
    requires
        centers.len() <= usize::MAX,
        coordinates_without_newlines(centers),
    ensures
        forall|i: int|
            0 <= i < iteration_lines(iteration as nat, centers).len() ==> lacks(
                #[trigger] iteration_lines(iteration as nat, centers)[i],
                NEWLINE,
            ) && !(iteration_lines(iteration as nat, centers)[i].len() > 0 && iteration_lines(
                iteration as nat,
                centers,
            )[i].last() == CARRIAGE_RETURN),
{
    let lines = iteration_lines(iteration as nat, centers);
    assert forall|i: int| 0 <= i < lines.len() implies lacks(#[trigger] lines[i], NEWLINE) && !(
    lines[i].len() > 0 && lines[i].last() == CARRIAGE_RETURN) by {
        if i == 0 {
            let d = decimal(iteration as nat);
            lemma_decimal_lacks(iteration as nat);
            let h = lines[0];
            assert(h == header_line(iteration as nat));
            assert forall|k: int| 0 <= k < h.len() implies h[k] != NEWLINE by {
                if 10 <= k < 10 + d.len() {
                    assert(h[k] == d[k - 10]);
                }
            }
        } else if i <= centers.len() {
            let c = i - 1;
            let coords = centers[c];
            assert(lines[i] == center_line(c as nat, coords));
            let d = decimal(c as nat);
            lemma_decimal_lacks(c as nat);
            assert forall|x: int| 0 <= x < coords.len() implies lacks(
                #[trigger] coords[x],
                NEWLINE,
            ) by {
                assert(lacks(centers[c][x], NEWLINE));
            }
            lemma_joined_lacks(coords, NEWLINE);
            let body = joined(coords);
            let l = lines[i];
            let lead_len = 7 + d.len() + 3;
            assert forall|k: int| 0 <= k < l.len() implies l[k] != NEWLINE by {
                if 7 <= k < 7 + d.len() {
                    assert(l[k] == d[k - 7]);
                } else if lead_len <= k < lead_len + body.len() {
                    assert(l[k] == body[k - lead_len]);
                }
            }
        } else {
            assert(lines[i] == separator_line());
        }
    }
}

/// Center-log law: the iterations of a log written by `render_iteration`,
/// one after the other, are read back by `parse_center_log` as they were
/// written, provided that every center has at least one coordinate and no
/// coordinate text holds a line break, a `]` or `", "`.
pub proof fn lemma_center_log_round_trip(entries: Seq<(usize, Seq<Seq<Seq<u8>>>)>)
    requires
        loggable(entries),
        forall|e: int| 0 <= e < entries.len() ==> (#[trigger] entries[e]).1.len() <= usize::MAX,
    ensures
        log_reading(rendered_log(entries)) matches LogProgress::Reading(state) && finished(state)
            == entries,
{
    lemma_read_entries(initial_state(), entries);
    assert(Seq::<(usize, Seq<Seq<Seq<u8>>>)>::empty() + entries =~= entries);
    assert(rendered_log(entries) + Seq::<u8>::empty() =~= rendered_log(entries));
    assert(lines_from(Seq::<u8>::empty(), Seq::empty()) =~= Seq::<Seq<u8>>::empty());
    assert(split_lines(rendered_log(entries)) =~= split_lines(rendered_log(entries)) + Seq::<
        Seq<u8>,
    >::empty());
}

/// Reading the text of the iterations `entries`, from a settled state,
/// ends settled, with those iterations after the ones already read.
proof fn lemma_read_entries(state: LogState, entries: Seq<(usize, Seq<Seq<Seq<u8>>>)>)
    requires
        settled(state),
        loggable(entries),
        forall|e: int| 0 <= e < entries.len() ==> (#[trigger] entries[e]).1.len() <= usize::MAX,
    ensures
        lines_from(rendered_log(entries), Seq::empty()) == read_entry_lines(entries),
        read_lines(LogProgress::Reading(state), read_entry_lines(entries)) matches LogProgress::Reading(
            after,
        ) && settled(after) && finished(after) == finished(state) + entries,
    decreases entries.len(),
{
    let g = |e: (usize, Seq<Seq<Seq<u8>>>)| rendered_iteration(e.0 as nat, e.1);
    if entries.len() == 0 {
        assert(rendered_log(entries) =~= Seq::<u8>::empty());
        assert(read_entry_lines(entries) =~= Seq::<Seq<u8>>::empty());
        assert(finished(state) + entries =~= finished(state));
    } else {
        let e = entries[0];
        let rest = entries.drop_first();
        assert(loggable_centers(e.1));
        assert(loggable(rest)) by {
            assert forall|i: int| 0 <= i < rest.len() implies loggable_centers(
                #[trigger] rest[i].1,
            ) by {
                assert(rest[i] == entries[i + 1]);
            }
        }
        assert forall|i: int| 0 <= i < rest.len() implies (#[trigger] rest[i]).1.len()
            <= usize::MAX by {
            assert(rest[i] == entries[i + 1]);
        }
        assert(e.1.len() <= usize::MAX);
        let lines = iteration_lines(e.0 as nat, e.1);
        assert(entries.map_values(g).drop_first() =~= rest.map_values(g));
        assert(rendered_log(entries) == rendered_iteration(e.0 as nat, e.1) + rendered_log(rest));
        assert(coordinates_without_newlines(e.1)) by {
            assert forall|c: int, x: int|
                0 <= c < e.1.len() && 0 <= x < e.1[c].len() implies lacks(
                #[trigger] e.1[c][x],
                NEWLINE,
            ) by {
                assert(loggable_coordinate(e.1[c][x]));
            }
        }
        lemma_iteration_lines_plain(e.0, e.1);
        lemma_lines_read_back(lines, rendered_log(rest));
        lemma_read_iteration(state, e.0, e.1);
        let next = LogState { logs: closed_logs(state), current: Some(e.0), centers: e.1 };
        lemma_read_entries(next, rest);
        assert(read_entry_lines(entries) == lines + read_entry_lines(rest));
        lemma_read_lines_concat(LogProgress::Reading(state), lines, read_entry_lines(rest));
        assert(finished(next) =~= finished(state).push(e));
        assert(finished(state).push(e) + rest =~= finished(state) + entries);
    }
}

/// The lines of the text of the iterations `entries`.
pub open spec fn read_entry_lines(entries: Seq<(usize, Seq<Seq<Seq<u8>>>)>) -> Seq<Seq<u8>>
    decreases entries.len(),
{
    if entries.len() == 0 {
        Seq::empty()
    } else {
        iteration_lines(entries[0].0 as nat, entries[0].1) + read_entry_lines(entries.drop_first())
    }
}

/// Rendering law: the text written for an iteration consists of exactly
/// `centers.len() + 2` lines: first `ITERATION <iteration>:`, then for each
/// center `i`, in order, `Center <i>: [` followed by its coordinates joined
/// by `", "` and `]`, and last `---` (when no coordinate holds a line break).
pub proof fn lemma_rendered_iteration_lines(iteration: usize, centers: Seq<Seq<Seq<u8>>>)
    requires
        centers.len() <= usize::MAX,
        coordinates_without_newlines(centers),
    ensures
        split_lines(rendered_iteration(iteration as nat, centers)).len() == centers.len() + 2,
        split_lines(rendered_iteration(iteration as nat, centers))[0] == seq![
            73u8,
            84,
            69,
            82,
            65,
            84,
            73,
            79,
            78,
            SPACE,
        ] + decimal(iteration as nat) + seq![COLON],
        forall|i: int|
            0 <= i < centers.len() ==> #[trigger] split_lines(
                rendered_iteration(iteration as nat, centers),
            )[i + 1] == seq![67u8, 101, 110, 116, 101, 114, SPACE] + decimal(i as nat) + seq![
                COLON,
                SPACE,
                OPEN_BRACKET,
            ] + joined(centers[i]) + seq![CLOSE_BRACKET],
        split_lines(rendered_iteration(iteration as nat, centers))[centers.len() + 1int] == seq![
            DASH,
            DASH,
            DASH,
        ],
{
    let lines = iteration_lines(iteration as nat, centers);
    lemma_iteration_lines_plain(iteration, centers);
    lemma_lines_read_back(lines, Seq::empty());
    assert(rendered_iteration(iteration as nat, centers) + Seq::<u8>::empty() =~= rendered_iteration(
        iteration as nat,
        centers,
    ));
    assert(lines_from(Seq::<u8>::empty(), Seq::empty()) =~= Seq::<Seq<u8>>::empty());
    assert(lines + Seq::<Seq<u8>>::empty() =~= lines);
    assert(split_lines(rendered_iteration(iteration as nat, centers)) == lines);
    assert(lines[0] =~= seq![73u8, 84, 69, 82, 65, 84, 73, 79, 78, SPACE] + decimal(
        iteration as nat,
    ) + seq![COLON]);
    assert forall|i: int| 0 <= i < centers.len() implies #[trigger] lines[i + 1] == seq![
        67u8,
        101,
        110,
        116,
        101,
        114,
        SPACE,
    ] + decimal(i as nat) + seq![COLON, SPACE, OPEN_BRACKET] + joined(centers[i]) + seq![
        CLOSE_BRACKET,
    ] by {
        assert(lines[i + 1] == center_line(i as nat, centers[i]));
        assert(center_line(i as nat, centers[i]) =~= seq![
            67u8,
            101,
            110,
            116,
            101,
            114,
            SPACE,
        ] + decimal(i as nat) + seq![COLON, SPACE, OPEN_BRACKET] + joined(centers[i]) + seq![
            CLOSE_BRACKET,
        ]);
    }
    assert(lines[centers.len() + 1int] == separator_line());
}

} // verus!
