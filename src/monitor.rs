//! Monitors, the two report parsers, the selector and the reconciler.
use vstd::prelude::*;

use crate::text::{
    char_pred, chars_of, contains, decimal, dimension, find_char, find_ws, has_sub, join,
    lemma_join_pieces, parse_dimension, pieces, position, push_decimal, rfind_ws, rposition,
    skip_ws, split_lines, strings_view, strip_marker, strip_marker_end, trim, trim_range,
    trim_start, ws_pred,
};

verus! {

/// One display output.
#[derive(Debug)]
pub struct Monitor {
    pub height: usize,
    pub width: usize,
    pub name: String,
    pub refresh: String,
}

/// What a monitor is, mathematically.
pub ghost struct MonitorView {
    pub name: Seq<char>,
    pub width: nat,
    pub height: nat,
    pub refresh: Seq<char>,
}

impl View for Monitor {
    type V = MonitorView;

    open spec fn view(&self) -> MonitorView {
        MonitorView {
            name: self.name@,
            width: self.width as nat,
            height: self.height as nat,
            refresh: self.refresh@,
        }
    }
}

impl MonitorView {
    /// A parsed monitor has a non-empty mode.
    pub open spec fn wf(self) -> bool {
        self.width > 0 && self.height > 0
    }
}

/// The monitors of one query, in the order the report lists them.
#[derive(Debug)]
pub struct Monitors {
    pub monitors: Vec<Monitor>,
}

impl View for Monitors {
    type V = Seq<MonitorView>;

    open spec fn view(&self) -> Seq<MonitorView> {
        self.monitors@.map_values(|m: Monitor| m@)
    }
}

/// What was wrong with a report.
#[derive(Clone, Copy, Debug, PartialEq, Eq, Structural)]
pub enum ParseErrorKind {
    /// A monitor's header line has no whitespace after the name.
    MissingName,
    /// A connected monitor lists no mode.
    MissingModeLine,
    /// A mode line has no whitespace between resolution and refresh rates.
    MissingRefresh,
    /// A resolution has no `x` between width and height.
    MissingDimensions,
    /// A width or height is not a positive integer.
    BadDimension,
    /// An active-monitor line has fewer than two tokens.
    MissingModeToken,
}

/// A parse failure, with the text it was found in.
#[derive(Debug)]
pub struct ParseError {
    pub kind: ParseErrorKind,
    pub fragment: String,
}

pub type ErrorView = (ParseErrorKind, Seq<char>);

impl View for ParseError {
    type V = ErrorView;

    open spec fn view(&self) -> ErrorView {
        (self.kind, self.fragment@)
    }
}

fn parse_error(kind: ParseErrorKind, fragment: &str) -> (r: ParseError)
    ensures
        r@ == (kind, fragment@),
{
    ParseError { kind, fragment: String::from_str(fragment) }
}

/// The monitor that a chunk of the capability report describes: the name is
/// the first whitespace-delimited token of its header, the first mode line
/// gives its maximum mode.
pub open spec fn mode_chunk(chunk: Seq<Seq<char>>) -> Result<MonitorView, ErrorView> {
    let header = chunk[0];
    let h = trim_start(header);
    match position(h, ws_pred()) {
        None => Err((ParseErrorKind::MissingName, header)),
        Some(k) => if chunk.len() < 2 {
            Err((ParseErrorKind::MissingModeLine, header))
        } else {
            let line = trim(chunk[1]);
            match position(line, ws_pred()) {
                None => Err((ParseErrorKind::MissingRefresh, line)),
                Some(j) => {
                    let res = line.subrange(0, j);
                    let rest = trim(line.subrange(j + 1, line.len() as int));
                    let refresh = match position(rest, ws_pred()) {
                        Some(q) => rest.subrange(0, q),
                        None => rest,
                    };
                    match position(res, char_pred('x')) {
                        None => Err((ParseErrorKind::MissingDimensions, res)),
                        Some(x) => match (
                            dimension(res.subrange(0, x)),
                            dimension(res.subrange(x + 1, res.len() as int)),
                        ) {
                            (Some(w), Some(ht)) => Ok(
                                MonitorView { name: h.subrange(0, k), width: w, height: ht, refresh },
                            ),
                            _ => Err((ParseErrorKind::BadDimension, res)),
                        },
                    }
                },
            }
        },
    }
}

impl Monitor {
    /// Reads a monitor from one chunk of the capability report.
    #[verifier::rlimit(50)]
    pub fn parse_max_from_chunk(chunk: &[String]) -> (r: Result<Monitor, ParseError>)
        requires
            chunk@.len() >= 1,
        ensures
            match (r, mode_chunk(strings_view(chunk@))) {
                (Ok(m), Ok(v)) => m@ == v && v.wf(),
                (Err(e), Err(v)) => e@ == v,
                _ => false,
            },
    {
        let ghost cv = strings_view(chunk@);
        let hs = chunk[0].as_str();
        assert(hs@ == cv[0]);
        let hv = chars_of(hs);
        assert(hv@.subrange(0, hv@.len() as int) =~= hv@);
        let start = skip_ws(&hv, 0, hv.len());
        let k = match find_ws(&hv, start, hv.len()) {
            None => {
                return Err(parse_error(ParseErrorKind::MissingName, hs));
            },
            Some(k) => k,
        };
        assert(hv@.subrange(start as int, hv@.len() as int).subrange(0, k - start)
            =~= hv@.subrange(start as int, k as int));
        if chunk.len() < 2 {
            return Err(parse_error(ParseErrorKind::MissingModeLine, hs));
        }
        let ls = chunk[1].as_str();
        assert(ls@ == cv[1]);
        let lv = chars_of(ls);
        assert(lv@.subrange(0, lv@.len() as int) =~= lv@);
        let (a, b) = trim_range(&lv, 0, lv.len());
        let ghost line = lv@.subrange(a as int, b as int);
        let j = match find_ws(&lv, a, b) {
            None => {
                return Err(parse_error(ParseErrorKind::MissingRefresh, ls.substring_char(a, b)));
            },
            Some(j) => j,
        };
        let ghost res = lv@.subrange(a as int, j as int);
        assert(line.subrange(0, j - a) =~= res);
        assert(line.subrange(j - a + 1, line.len() as int) =~= lv@.subrange(j + 1, b as int));
        let (c, d) = trim_range(&lv, j + 1, b);
        let ghost rest = lv@.subrange(c as int, d as int);
        let refresh = match find_ws(&lv, c, d) {
            Some(q) => {
                assert(rest.subrange(0, q - c) =~= lv@.subrange(c as int, q as int));
                String::from_str(ls.substring_char(c, q))
            },
            None => String::from_str(ls.substring_char(c, d)),
        };
        let x = match find_char(&lv, a, j, 'x') {
            None => {
                return Err(
                    parse_error(ParseErrorKind::MissingDimensions, ls.substring_char(a, j)),
                );
            },
            Some(x) => x,
        };
        assert(res.subrange(0, x - a) =~= lv@.subrange(a as int, x as int));
        assert(res.subrange(x - a + 1, res.len() as int) =~= lv@.subrange(x + 1, j as int));
        let w = parse_dimension(&lv, a, x);
        let h = parse_dimension(&lv, x + 1, j);
        match (w, h) {
            (Some(width), Some(height)) => {
                let name = String::from_str(hs.substring_char(start, k));
                Ok(Monitor { height, width, name, refresh })
            },
            _ => Err(parse_error(ParseErrorKind::BadDimension, ls.substring_char(a, j))),
        }
    }
}

/// A line that opens a new chunk: it names an output and its status.
pub open spec fn is_header(line: Seq<char>) -> bool {
    has_sub(line, "connected"@)
}

/// A chunk whose output is not connected.
pub open spec fn is_disconnected(chunk: Seq<Seq<char>>) -> bool {
    has_sub(chunk[0], "disconnected"@)
}

/// The lines grouped into chunks: the first line opens the first chunk, and
/// each later header line opens a new one.
pub open spec fn group(lines: Seq<Seq<char>>) -> Seq<Seq<Seq<char>>>
    decreases lines.len(),
{
    if lines.len() == 0 {
        Seq::empty()
    } else {
        let g = group(lines.drop_last());
        if lines.len() == 1 || is_header(lines.last()) {
            g.push(seq![lines.last()])
        } else {
            g.update(g.len() - 1, g.last().push(lines.last()))
        }
    }
}

/// The chunks of a capability report: its trimmed lines, grouped.
pub open spec fn chunks_of(report: Seq<char>) -> Seq<Seq<Seq<char>>> {
    if trim(report).len() == 0 {
        Seq::empty()
    } else {
        group(pieces(trim(report), '\n'))
    }
}

pub open spec fn chunks_view(v: Seq<Vec<String>>) -> Seq<Seq<Seq<char>>> {
    v.map_values(|c: Vec<String>| strings_view(c@))
}

/// Every chunk has a first line, and every chunk but the first opens with a header.
pub proof fn lemma_group_shape(lines: Seq<Seq<char>>)
    ensures
        group(lines).len() == 0 <==> lines.len() == 0,
        forall|k: int| 0 <= k < group(lines).len() ==> (#[trigger] group(lines)[k]).len() >= 1,
        forall|k: int| 1 <= k < group(lines).len() ==> is_header(#[trigger] group(lines)[k][0]),
    decreases lines.len(),
{
    if lines.len() > 0 {
        lemma_group_shape(lines.drop_last());
        let g = group(lines.drop_last());
        if !(lines.len() == 1 || is_header(lines.last())) {
            assert forall|k: int| 1 <= k < group(lines).len() implies is_header(
                #[trigger] group(lines)[k][0],
            ) by {
                if k == g.len() - 1 {
                    assert(g.last().push(lines.last())[0] == g.last()[0]);
                }
            }
        }
    }
}

impl Monitors {
    /// Splits a capability report into chunks of lines, one per output;
    /// the summary line at the top forms the first chunk. A report that is
    /// empty once trimmed has no chunk.
    pub fn parse_xrandr_monitors(xrandr_outputs: &str) -> (r: Vec<Vec<String>>)
        ensures
            chunks_view(r@) == chunks_of(xrandr_outputs@),
    {
        let v = chars_of(xrandr_outputs);
        let (a, b) = trim_range(&v, 0, v.len());
        assert(v@.subrange(0, v@.len() as int) =~= v@);
        if a == b {
            let none: Vec<Vec<String>> = Vec::new();
            assert(chunks_view(none@) =~= Seq::<Seq<Seq<char>>>::empty());
            return none;
        }
        let lines = split_lines(xrandr_outputs.substring_char(a, b));
        let ghost ls = strings_view(lines@);
        let marker = chars_of("connected");
        let mut chunks: Vec<Vec<String>> = Vec::new();
        let mut cur: Vec<String> = Vec::new();
        let mut i: usize = 0;
        assert(chunks_view(chunks@) =~= Seq::<Seq<Seq<char>>>::empty());
        assert(ls.subrange(0, 0) =~= Seq::<Seq<char>>::empty());
        while i < lines.len()
            invariant
                ls == strings_view(lines@),
                ls == pieces(trim(xrandr_outputs@), '\n'),
                trim(xrandr_outputs@).len() > 0,
                marker@ == "connected"@,
                i <= lines@.len(),
                i == 0 ==> chunks@.len() == 0 && cur@.len() == 0,
                i > 0 ==> group(ls.subrange(0, i as int)) == chunks_view(chunks@).push(
                    strings_view(cur@),
                ),
            decreases lines@.len() - i,
        {
            let line = lines[i].clone();
            let lc = chars_of(line.as_str());
            let ghost sub = ls.subrange(0, i + 1);
            let ghost g = group(ls.subrange(0, i as int));
            assert(sub.drop_last() =~= ls.subrange(0, i as int));
            assert(sub.last() == line@);
            assert(group(sub) == if sub.len() == 1 || is_header(line@) {
                g.push(seq![line@])
            } else {
                g.update(g.len() - 1, g.last().push(line@))
            });
            let ghost old_chunks = chunks@;
            let ghost old_cur = cur@;
            if i > 0 && contains(&lc, &marker) {
                chunks.push(cur);
                cur = Vec::new();
                assert(chunks_view(chunks@) =~= chunks_view(old_chunks).push(strings_view(old_cur)));
                assert(strings_view(cur@).push(line@) =~= seq![line@]);
            } else if i == 0 {
                assert(strings_view(cur@).push(line@) =~= seq![line@]);
                assert(chunks_view(chunks@) =~= g);
            } else {
                assert(strings_view(old_cur).push(line@) =~= g.last().push(line@));
            }
            let ghost prev = cur@;
            cur.push(line);
            assert(strings_view(cur@) =~= strings_view(prev).push(line@));
            i = i + 1;
            assert(group(ls.subrange(0, i as int)) =~= chunks_view(chunks@).push(strings_view(cur@)));
        }
        proof {
            crate::text::lemma_pieces_len(trim(xrandr_outputs@), '\n');
        }
        let ghost before = chunks@;
        chunks.push(cur);
        assert(chunks_view(chunks@) =~= chunks_view(before).push(strings_view(cur@)));
        assert(ls.subrange(0, i as int) =~= ls);
        chunks
    }
}

/// Every monitor of `ms` has a non-empty mode.
pub open spec fn all_wf(ms: Seq<MonitorView>) -> bool {
    forall|i: int| 0 <= i < ms.len() ==> (#[trigger] ms[i]).wf()
}

/// The monitors of the connected chunks of `cs`, or the first failure.
pub open spec fn mode_chunks(cs: Seq<Seq<Seq<char>>>) -> Result<Seq<MonitorView>, ErrorView>
    decreases cs.len(),
{
    if cs.len() == 0 {
        Ok(Seq::empty())
    } else {
        match mode_chunks(cs.drop_last()) {
            Err(e) => Err(e),
            Ok(ms) => if is_disconnected(cs.last()) {
                Ok(ms)
            } else {
                match mode_chunk(cs.last()) {
                    Ok(m) => Ok(ms.push(m)),
                    Err(e) => Err(e),
                }
            },
        }
    }
}

/// The connected monitors that a capability report lists, each at its
/// maximum mode; the chunk of the summary line is left out.
pub open spec fn capability_monitors(report: Seq<char>) -> Result<Seq<MonitorView>, ErrorView> {
    mode_chunks(monitor_chunks(report))
}

/// The chunks of a capability report that describe outputs: all but the
/// summary chunk.
pub open spec fn monitor_chunks(report: Seq<char>) -> Seq<Seq<Seq<char>>> {
    if chunks_of(report).len() == 0 {
        Seq::empty()
    } else {
        chunks_of(report).drop_first()
    }
}

/// Once a prefix of the chunks fails, the whole fails the same way.
pub proof fn lemma_mode_chunks_err(cs: Seq<Seq<Seq<char>>>, n: int)
    requires
        0 <= n <= cs.len(),
        mode_chunks(cs.subrange(0, n)) is Err,
    ensures
        mode_chunks(cs) == mode_chunks(cs.subrange(0, n)),
    decreases cs.len(),
{
    if cs.len() == n {
        assert(cs.subrange(0, n) =~= cs);
    } else {
        assert(cs.drop_last().subrange(0, n) =~= cs.subrange(0, n));
        lemma_mode_chunks_err(cs.drop_last(), n);
    }
}

fn monitors_view_push(out: &mut Vec<Monitor>, m: Monitor)
    ensures
        final(out)@.map_values(|x: Monitor| x@) == old(out)@.map_values(|x: Monitor| x@).push(m@),
{
    out.push(m);
    assert(final(out)@.map_values(|x: Monitor| x@) =~= old(out)@.map_values(|x: Monitor| x@).push(m@));
}

impl Monitors {
    /// Reads the connected monitors of a capability report, each at its
    /// maximum mode. Any malformed chunk fails the whole report.
    pub fn from_cli_text(xrandr_outputs: &str) -> (r: Result<Monitors, ParseError>)
        ensures
            match (r, capability_monitors(xrandr_outputs@)) {
                (Ok(ms), Ok(v)) => ms@ == v && all_wf(v),
                (Err(e), Err(v)) => e@ == v,
                _ => false,
            },
    {
        let chunks = Monitors::parse_xrandr_monitors(xrandr_outputs);
        if chunks.len() == 0 {
            let none: Vec<Monitor> = Vec::new();
            assert(none@.map_values(|x: Monitor| x@) =~= Seq::<MonitorView>::empty());
            return Ok(Monitors { monitors: none });
        }
        let ghost cs = chunks_view(chunks@);
        let ghost body = cs.drop_first();
        proof {
            crate::text::lemma_pieces_len(trim(xrandr_outputs@), '\n');
            lemma_group_shape(pieces(trim(xrandr_outputs@), '\n'));
        }
        let marker = chars_of("disconnected");
        let mut out: Vec<Monitor> = Vec::new();
        let mut i: usize = 1;
        assert(body.subrange(0, 0) =~= Seq::<Seq<Seq<char>>>::empty());
        assert(out@.map_values(|x: Monitor| x@) =~= Seq::<MonitorView>::empty());
        while i < chunks.len()
            invariant
                cs == chunks_view(chunks@),
                cs == chunks_of(xrandr_outputs@),
                cs.len() >= 1,
                body == cs.drop_first(),
                body == monitor_chunks(xrandr_outputs@),
                marker@ == "disconnected"@,
                1 <= i <= chunks@.len(),
                forall|k: int| 0 <= k < cs.len() ==> (#[trigger] cs[k]).len() >= 1,
                mode_chunks(body.subrange(0, i - 1)) == Ok::<Seq<MonitorView>, ErrorView>(
                    out@.map_values(|x: Monitor| x@),
                ),
                all_wf(out@.map_values(|x: Monitor| x@)),
            decreases chunks@.len() - i,
        {
            let chunk = &chunks[i];
            assert(strings_view(chunk@) == body[i - 1]);
            let ghost pre = body.subrange(0, i - 1);
            let ghost ext = body.subrange(0, i as int);
            assert(ext.drop_last() =~= pre);
            assert(ext.last() == body[i - 1]);
            let hc = chars_of(chunk[0].as_str());
            if !contains(&hc, &marker) {
                match Monitor::parse_max_from_chunk(chunk.as_slice()) {
                    Ok(m) => {
                        monitors_view_push(&mut out, m);
                    },
                    Err(e) => {
                        proof {
                            lemma_mode_chunks_err(body, i as int);
                        }
                        return Err(e);
                    },
                }
            }
            i = i + 1;
        }
        assert(body.subrange(0, i - 1) =~= body);
        Ok(Monitors { monitors: out })
    }
}

/// The lines of `s`, as `str::lines` gives them: a newline at the very end
/// opens no further line.
pub open spec fn text_lines(s: Seq<char>) -> Seq<Seq<char>> {
    let p = pieces(s, '\n');
    if p.last().len() == 0 {
        p.drop_last()
    } else {
        p
    }
}

/// The monitor that a line of the active-monitor list describes: the last
/// token is its name, the one before it its current mode.
pub open spec fn active_line(line: Seq<char>) -> Result<MonitorView, ErrorView> {
    let t = trim(line);
    match rposition(t, ws_pred()) {
        None => Err((ParseErrorKind::MissingModeToken, line)),
        Some(k) => {
            let name = t.subrange(k + 1, t.len() as int);
            let u = trim(t.subrange(0, k));
            let mode = match rposition(u, ws_pred()) {
                Some(j) => u.subrange(j + 1, u.len() as int),
                None => u,
            };
            match position(mode, char_pred('x')) {
                None => Err((ParseErrorKind::MissingDimensions, mode)),
                Some(x) => match (
                    dimension(strip_marker(mode.subrange(0, x))),
                    dimension(strip_marker(mode.subrange(x + 1, mode.len() as int))),
                ) {
                    (Some(w), Some(h)) => Ok(
                        MonitorView { name, width: w, height: h, refresh: Seq::empty() },
                    ),
                    _ => Err((ParseErrorKind::BadDimension, mode)),
                },
            }
        },
    }
}

/// The monitors of the lines `ls`, or the first failure.
pub open spec fn active_lines(ls: Seq<Seq<char>>) -> Result<Seq<MonitorView>, ErrorView>
    decreases ls.len(),
{
    if ls.len() == 0 {
        Ok(Seq::empty())
    } else {
        match active_lines(ls.drop_last()) {
            Err(e) => Err(e),
            Ok(ms) => match active_line(ls.last()) {
                Ok(m) => Ok(ms.push(m)),
                Err(e) => Err(e),
            },
        }
    }
}

/// The monitors of an active-monitor list; its first line is a header.
pub open spec fn active_monitors(list: Seq<char>) -> Result<Seq<MonitorView>, ErrorView> {
    let ls = text_lines(list);
    if ls.len() == 0 {
        Ok(Seq::empty())
    } else {
        active_lines(ls.drop_first())
    }
}

pub proof fn lemma_active_lines_err(ls: Seq<Seq<char>>, n: int)
    requires
        0 <= n <= ls.len(),
        active_lines(ls.subrange(0, n)) is Err,
    ensures
        active_lines(ls) == active_lines(ls.subrange(0, n)),
    decreases ls.len(),
{
    if ls.len() == n {
        assert(ls.subrange(0, n) =~= ls);
    } else {
        assert(ls.drop_last().subrange(0, n) =~= ls.subrange(0, n));
        lemma_active_lines_err(ls.drop_last(), n);
    }
}

impl Monitor {
    /// Reads one line of the active-monitor list.
    #[verifier::rlimit(50)]
    pub fn parse_active_line(line: &str) -> (r: Result<Monitor, ParseError>)
        ensures
            match (r, active_line(line@)) {
                (Ok(m), Ok(v)) => m@ == v && v.wf(),
                (Err(e), Err(v)) => e@ == v,
                _ => false,
            },
    {
        let v = chars_of(line);
        assert(v@.subrange(0, v@.len() as int) =~= v@);
        let (a, b) = trim_range(&v, 0, v.len());
        let ghost t = v@.subrange(a as int, b as int);
        let k = match rfind_ws(&v, a, b) {
            None => {
                return Err(parse_error(ParseErrorKind::MissingModeToken, line));
            },
            Some(k) => k,
        };
        assert(t.subrange(k - a + 1, t.len() as int) =~= v@.subrange(k + 1, b as int));
        assert(t.subrange(0, k - a) =~= v@.subrange(a as int, k as int));
        let (c, d) = trim_range(&v, a, k);
        let ghost u = v@.subrange(c as int, d as int);
        let (m0, m1) = match rfind_ws(&v, c, d) {
            Some(j) => {
                assert(u.subrange(j - c + 1, u.len() as int) =~= v@.subrange(j + 1, d as int));
                (j + 1, d)
            },
            None => (c, d),
        };
        let ghost mode = v@.subrange(m0 as int, m1 as int);
        let x = match find_char(&v, m0, m1, 'x') {
            None => {
                return Err(
                    parse_error(ParseErrorKind::MissingDimensions, line.substring_char(m0, m1)),
                );
            },
            Some(x) => x,
        };
        assert(mode.subrange(0, x - m0) =~= v@.subrange(m0 as int, x as int));
        assert(mode.subrange(x - m0 + 1, mode.len() as int) =~= v@.subrange(x + 1, m1 as int));
        let we = strip_marker_end(&v, m0, x);
        let he = strip_marker_end(&v, x + 1, m1);
        let w = parse_dimension(&v, m0, we);
        let h = parse_dimension(&v, x + 1, he);
        match (w, h) {
            (Some(width), Some(height)) => {
                let name = String::from_str(line.substring_char(k + 1, b));
                Ok(Monitor { height, width, name, refresh: String::new() })
            },
            _ => Err(parse_error(ParseErrorKind::BadDimension, line.substring_char(m0, m1))),
        }
    }
}

impl Monitors {
    /// Reads the active-monitor list: a header line, then one line per
    /// active monitor. Any malformed line fails the whole list.
    pub fn get_current_from_list(listactivemonitors: &str) -> (r: Result<Monitors, ParseError>)
        ensures
            match (r, active_monitors(listactivemonitors@)) {
                (Ok(ms), Ok(v)) => ms@ == v && all_wf(v),
                (Err(e), Err(v)) => e@ == v,
                _ => false,
            },
    {
        let lines = split_lines(listactivemonitors);
        let ghost p = strings_view(lines@);
        proof {
            crate::text::lemma_pieces_len(listactivemonitors@, '\n');
        }
        let mut n = lines.len();
        if lines[n - 1].as_str().unicode_len() == 0 {
            n = n - 1;
        }
        let ghost ls = text_lines(listactivemonitors@);
        assert(ls =~= p.subrange(0, n as int));
        let mut out: Vec<Monitor> = Vec::new();
        assert(out@.map_values(|x: Monitor| x@) =~= Seq::<MonitorView>::empty());
        if n == 0 {
            return Ok(Monitors { monitors: out });
        }
        let ghost body = ls.drop_first();
        let mut i: usize = 1;
        assert(body.subrange(0, 0) =~= Seq::<Seq<char>>::empty());
        while i < n
            invariant
                p == strings_view(lines@),
                n <= lines@.len(),
                ls == p.subrange(0, n as int),
                ls == text_lines(listactivemonitors@),
                ls.len() >= 1,
                body == ls.drop_first(),
                1 <= i <= n,
                active_lines(body.subrange(0, i - 1)) == Ok::<Seq<MonitorView>, ErrorView>(
                    out@.map_values(|x: Monitor| x@),
                ),
                all_wf(out@.map_values(|x: Monitor| x@)),
            decreases n - i,
        {
            let line = lines[i].as_str();
            assert(line@ == body[i - 1]);
            let ghost ext = body.subrange(0, i as int);
            assert(ext.drop_last() =~= body.subrange(0, i - 1));
            assert(ext.last() == body[i - 1]);
            match Monitor::parse_active_line(line) {
                Ok(m) => {
                    monitors_view_push(&mut out, m);
                },
                Err(e) => {
                    proof {
                        lemma_active_lines_err(body, i as int);
                    }
                    return Err(e);
                },
            }
            i = i + 1;
        }
        assert(body.subrange(0, i - 1) =~= body);
        Ok(Monitors { monitors: out })
    }
}

/// Index of the widest monitor; of several equally wide, the first.
pub open spec fn biggest_index(ms: Seq<MonitorView>) -> int
    decreases ms.len(),
{
    if ms.len() <= 1 {
        0
    } else {
        let i = biggest_index(ms.drop_last());
        if ms.last().width > ms[i].width {
            ms.len() - 1
        } else {
            i
        }
    }
}

/// The arguments that turn `m` on at its mode, or off.
pub open spec fn set_args(m: MonitorView, on: bool) -> Seq<Seq<char>> {
    if on {
        seq!["--output"@, m.name, "--mode"@, decimal(m.width) + "x"@ + decimal(m.height)]
    } else {
        seq!["--output"@, m.name, "--off"@]
    }
}

/// One group of arguments per monitor: on for those named `target`, off for the rest.
pub open spec fn command_groups(ms: Seq<MonitorView>, target: Seq<char>) -> Seq<Seq<Seq<char>>> {
    ms.map_values(|m: MonitorView| set_args(m, m.name == target))
}

/// The groups of `gs`, one after another.
pub open spec fn concat_groups(gs: Seq<Seq<Seq<char>>>) -> Seq<Seq<char>>
    decreases gs.len(),
{
    if gs.len() == 0 {
        Seq::empty()
    } else {
        concat_groups(gs.drop_last()) + gs.last()
    }
}

/// The arguments that switch to the widest monitor of `ms` and turn the others off.
pub open spec fn command_args(ms: Seq<MonitorView>) -> Seq<Seq<char>> {
    concat_groups(command_groups(ms, ms[biggest_index(ms)].name))
}

/// What to run: nothing when the widest active monitor is already the widest
/// connected one, else the arguments that switch to the latter.
pub open spec fn reconciliation(possible: Seq<MonitorView>, current: Seq<MonitorView>) -> Option<
    Seq<Seq<char>>,
> {
    if current[biggest_index(current)].name == possible[biggest_index(possible)].name {
        None
    } else {
        Some(command_args(possible))
    }
}

proof fn lemma_biggest_index_range(ms: Seq<MonitorView>)
    ensures
        ms.len() > 0 ==> 0 <= biggest_index(ms) < ms.len(),
    decreases ms.len(),
{
    if ms.len() > 1 {
        lemma_biggest_index_range(ms.drop_last());
    }
}

impl Monitor {
    /// The arguments that turn this output on at its mode (`on`), or off.
    pub fn set_strings(&self, on: bool) -> (r: Vec<String>)
        ensures
            strings_view(r@) == set_args(self@, on),
    {
        let mut r: Vec<String> = Vec::new();
        r.push(String::from_str("--output"));
        r.push(self.name.clone());
        if on {
            r.push(String::from_str("--mode"));
            let mut mode = String::new();
            push_decimal(&mut mode, self.width);
            mode.append("x");
            push_decimal(&mut mode, self.height);
            r.push(mode);
        } else {
            r.push(String::from_str("--off"));
        }
        assert(strings_view(r@) =~= set_args(self@, on));
        r
    }
}

impl Monitors {
    /// The widest monitor; of several equally wide, the first.
    pub fn get_biggest(&self) -> (r: &Monitor)
        requires
            self@.len() > 0,
        ensures
            r@ == self@[biggest_index(self@)],
    {
        let ghost ms = self@;
        let n = self.monitors.len();
        let mut b: usize = 0;
        let mut i: usize = 1;
        assert(ms.subrange(0, 1).drop_last().len() == 0);
        while i < n
            invariant
                ms == self@,
                n == ms.len(),
                1 <= i <= n,
                b < i,
                b == biggest_index(ms.subrange(0, i as int)),
            decreases n - i,
        {
            let ghost sub = ms.subrange(0, i + 1);
            assert(sub.drop_last() =~= ms.subrange(0, i as int));
            assert(self.monitors@[i as int]@ == ms[i as int]);
            assert(self.monitors@[b as int]@ == ms[b as int]);
            if self.monitors[i].width > self.monitors[b].width {
                b = i;
            }
            i = i + 1;
        }
        assert(ms.subrange(0, n as int) =~= ms);
        &self.monitors[b]
    }

    /// The arguments that turn the widest monitor on at its mode and every
    /// other monitor off, in the order of the list.
    pub fn get_biggest_command_string(&self) -> (r: Vec<String>)
        requires
            self@.len() > 0,
        ensures
            strings_view(r@) == command_args(self@),
    {
        let ghost ms = self@;
        let name = self.get_biggest().name.clone();
        proof {
            lemma_biggest_index_range(ms);
        }
        let ghost gs = command_groups(ms, name@);
        let mut r: Vec<String> = Vec::new();
        let mut i: usize = 0;
        assert(gs.subrange(0, 0) =~= Seq::<Seq<Seq<char>>>::empty());
        assert(strings_view(r@) =~= Seq::<Seq<char>>::empty());
        while i < self.monitors.len()
            invariant
                ms == self@,
                gs == command_groups(ms, name@),
                gs.len() == ms.len(),
                i <= ms.len(),
                strings_view(r@) == concat_groups(gs.subrange(0, i as int)),
            decreases ms.len() - i,
        {
            let m = &self.monitors[i];
            assert(m@ == ms[i as int]);
            let mut part = m.set_strings(m.name == name);
            let ghost before = r@;
            let ghost added = part@;
            r.append(&mut part);
            assert(strings_view(r@) =~= strings_view(before) + strings_view(added));
            assert(gs.subrange(0, i + 1).drop_last() =~= gs.subrange(0, i as int));
            i = i + 1;
        }
        assert(gs.subrange(0, i as int) =~= gs);
        r
    }
}

/// Decides whether the outputs need to change: `None` when the widest active
/// monitor is already the widest connected one, else the arguments that
/// switch to it.
pub fn reconcile(possible: &Monitors, current: &Monitors) -> (r: Option<Vec<String>>)
    requires
        possible@.len() > 0,
        current@.len() > 0,
    ensures
        match (r, reconciliation(possible@, current@)) {
            (None, None) => true,
            (Some(v), Some(a)) => strings_view(v@) == a,
            _ => false,
        },
{
    if current.get_biggest().name == possible.get_biggest().name {
        None
    } else {
        Some(possible.get_biggest_command_string())
    }
}

proof fn lemma_concat_group(lines: Seq<Seq<char>>)
    ensures
        concat_groups(group(lines)) == lines,
    decreases lines.len(),
{
    if lines.len() > 0 {
        let g = group(lines.drop_last());
        lemma_concat_group(lines.drop_last());
        lemma_group_shape(lines.drop_last());
        if lines.len() == 1 || is_header(lines.last()) {
            assert(g.push(seq![lines.last()]).drop_last() =~= g);
            assert(lines =~= lines.drop_last() + seq![lines.last()]);
        } else {
            let h = g.update(g.len() - 1, g.last().push(lines.last()));
            assert(h.drop_last() =~= g.drop_last());
            assert(concat_groups(g) == concat_groups(g.drop_last()) + g.last());
            assert(lines.drop_last() == concat_groups(g));
            assert(lines =~= lines.drop_last().push(lines.last()));
            assert(concat_groups(h) == concat_groups(g.drop_last()) + h.last());
            assert(lines =~= concat_groups(g.drop_last()) + g.last().push(lines.last()));
        }
    }
}

/// Chunking loses nothing: the lines of all chunks, in order and joined with
/// newlines, give back the trimmed report.
pub proof fn lemma_chunks_round_trip(report: Seq<char>)
    ensures
        join(concat_groups(chunks_of(report)), '\n') == trim(report),
{
    if trim(report).len() > 0 {
        lemma_concat_group(pieces(trim(report), '\n'));
        lemma_join_pieces(trim(report), '\n');
    } else {
        assert(trim(report) =~= Seq::<char>::empty());
    }
}

/// How many chunks of `cs` name a connected output.
pub open spec fn connected_count(cs: Seq<Seq<Seq<char>>>) -> nat
    decreases cs.len(),
{
    if cs.len() == 0 {
        0
    } else {
        connected_count(cs.drop_last()) + if has_sub(cs.last()[0], "connected"@) && !has_sub(
            cs.last()[0],
            "disconnected"@,
        ) {
            1nat
        } else {
            0nat
        }
    }
}

proof fn lemma_mode_chunks_count(cs: Seq<Seq<Seq<char>>>)
    requires
        forall|k: int| 0 <= k < cs.len() ==> is_header(#[trigger] cs[k][0]),
        mode_chunks(cs) is Ok,
    ensures
        mode_chunks(cs)->Ok_0.len() == connected_count(cs),
    decreases cs.len(),
{
    if cs.len() > 0 {
        assert forall|k: int| 0 <= k < cs.drop_last().len() implies is_header(
            #[trigger] cs.drop_last()[k][0],
        ) by {
            assert(cs.drop_last()[k] == cs[k]);
        }
        assert(is_header(cs[cs.len() - 1][0]));
        lemma_mode_chunks_count(cs.drop_last());
    }
}

/// A report that parses gives one monitor per chunk whose header says
/// "connected" and not "disconnected", the summary chunk aside.
pub proof fn lemma_connected_count(report: Seq<char>)
    requires
        capability_monitors(report) is Ok,
    ensures
        capability_monitors(report)->Ok_0.len() == connected_count(monitor_chunks(report)),
{
    let lines = pieces(trim(report), '\n');
    crate::text::lemma_pieces_len(trim(report), '\n');
    lemma_group_shape(lines);
    let cs = monitor_chunks(report);
    assert forall|k: int| 0 <= k < cs.len() implies is_header(#[trigger] cs[k][0]) by {
        assert(cs[k] == chunks_of(report)[k + 1]);
    }
    lemma_mode_chunks_count(cs);
}

/// The selector picks a widest monitor, and no monitor before it is as wide:
/// of several equally wide, the first wins.
pub proof fn lemma_biggest_first_widest(ms: Seq<MonitorView>)
    requires
        ms.len() > 0,
    ensures
        0 <= biggest_index(ms) < ms.len(),
        forall|j: int| 0 <= j < ms.len() ==> #[trigger] ms[j].width <= ms[biggest_index(ms)].width,
        forall|j: int| 0 <= j < biggest_index(ms) ==> #[trigger] ms[j].width < ms[biggest_index(
            ms,
        )].width,
    decreases ms.len(),
{
    if ms.len() > 1 {
        let p = ms.drop_last();
        lemma_biggest_first_widest(p);
        let bp = biggest_index(p);
        let b = biggest_index(ms);
        assert(ms[bp] == p[bp]);
        assert forall|j: int| 0 <= j < ms.len() implies #[trigger] ms[j].width <= ms[b].width by {
            if j < p.len() {
                assert(ms[j] == p[j]);
            }
        }
        assert forall|j: int| 0 <= j < b implies #[trigger] ms[j].width < ms[b].width by {
            if j < p.len() {
                assert(ms[j] == p[j]);
            }
        }
    }
}

/// When the widest active monitor already has the name of the widest
/// connected one, nothing is run, however often the decision is taken.
pub proof fn lemma_same_name_no_op(possible: Seq<MonitorView>, current: Seq<MonitorView>)
    requires
        possible.len() > 0,
        current.len() > 0,
        current[biggest_index(current)].name == possible[biggest_index(possible)].name,
    ensures
        reconciliation(possible, current) is None,
{
}

/// With distinct names, the command holds one group per monitor, in list
/// order: the widest monitor's group sets its mode, every other group turns
/// its monitor off.
pub proof fn lemma_command_complete(ms: Seq<MonitorView>)
    requires
        ms.len() > 0,
        forall|i: int, j: int| 0 <= i < j < ms.len() ==> ms[i].name != ms[j].name,
    ensures
        command_args(ms) == concat_groups(command_groups(ms, ms[biggest_index(ms)].name)),
        command_groups(ms, ms[biggest_index(ms)].name).len() == ms.len(),
        forall|i: int| 0 <= i < ms.len() ==> #[trigger] command_groups(ms, ms[biggest_index(ms)].name)[i]
            == set_args(ms[i], i == biggest_index(ms)),
{
    lemma_biggest_index_range(ms);
    let b = biggest_index(ms);
    assert forall|i: int| 0 <= i < ms.len() implies #[trigger] command_groups(ms, ms[b].name)[i]
        == set_args(ms[i], i == b) by {
        if i < b {
            assert(ms[i].name != ms[b].name);
        } else if i > b {
            assert(ms[b].name != ms[i].name);
        }
    }
}

} // verus!
