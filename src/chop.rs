//! Fitting lines of text to a terminal: how wide a line may be, and where to
//! cut it so that it fits.
//!
//! Times are nanoseconds since the Unix epoch.

use unicode_segmentation::UnicodeSegmentation;
use unicode_width::UnicodeWidthStr;
use vstd::prelude::*;
use vstd::string::StringSliceAdditionalSpecFns;
use vstd::utf8::*;

verus! {

/// A value remembered together with when it was stored, good for `timeout`
/// nanoseconds after that.
pub struct TimedCache {
    pub value: usize,
    pub prev_timestamp: u128,
    pub timeout: u128,
}

impl TimedCache {
    /// An empty cache, stored at the epoch, so that it is stale from the start.
    pub fn new(timeout: u128) -> (r: Self)
        ensures
            r == (TimedCache { value: 0, prev_timestamp: 0, timeout }),
    {
        TimedCache { value: 0, prev_timestamp: 0, timeout }
    }

    /// Whether the stored value is still good at `now`.
    pub open spec fn is_fresh(&self, now: u128) -> bool {
        self.prev_timestamp <= now && now - self.prev_timestamp <= self.timeout
    }

    /// The stored value, if it is still good at `now`.
    pub fn get(&self, now: u128) -> (r: Option<usize>)
        ensures
            r == (if self.is_fresh(now) {
                Some(self.value)
            } else {
                None::<usize>
            }),
    {
        if now >= self.prev_timestamp && now - self.prev_timestamp <= self.timeout {
            Some(self.value)
        } else {
            None
        }
    }

    /// Stores `value` as of `now`.
    pub fn set(&mut self, value: usize, now: u128)
        ensures
            *final(self) == (TimedCache { value, prev_timestamp: now, timeout: old(self).timeout }),
    {
        self.value = value;
        self.prev_timestamp = now;
    }
}

/// The extended grapheme clusters of a string, each with its byte offset.
pub uninterp spec fn graphemes_of(s: Seq<char>) -> Seq<(usize, Seq<char>)>;

/// The number of terminal columns a string takes.
pub uninterp spec fn display_width(s: Seq<char>) -> usize;

/// Relies on `UnicodeSegmentation::grapheme_indices` (extended clusters) for
/// the clusters of `s` and their byte offsets, in order.
#[verifier::external_body]
fn grapheme_indices(s: &str) -> (r: Vec<(usize, String)>)
    ensures
        r@.len() == graphemes_of(s@).len(),
        forall|i: int|
            #![trigger r@[i]]
            0 <= i < r@.len() ==> r@[i].0 == graphemes_of(s@)[i].0 && r@[i].1@ == graphemes_of(
                s@,
            )[i].1,
{
    let mut r = Vec::new();
    for (i, g) in s.grapheme_indices(true) {
        r.push((i, g.to_string()));
    }
    r
}

/// Relies on `UnicodeWidthStr::width` for the columns that `s` takes.
#[verifier::external_body]
fn str_width(s: &str) -> (r: usize)
    ensures
        r == display_width(s@),
{
    UnicodeWidthStr::width(s)
}

/// The byte offset right after a cluster at `offset`, held at `usize::MAX`.
pub open spec fn past_cluster(offset: usize, cluster: Seq<char>) -> int {
    let after = offset + encode_utf8(cluster).len();
    if after > usize::MAX {
        usize::MAX as int
    } else {
        after
    }
}

/// Where a scan over clusters ends. Clusters are taken while they fit in the
/// `room` columns left; the cut is right after the last delimiter taken, or,
/// with none taken, before the first cluster that does not fit (`s_len` when
/// all fit).
pub open spec fn fit_scan(
    gs: Seq<(usize, Seq<char>)>,
    ws: Seq<usize>,
    room: int,
    delim: Option<Seq<char>>,
    s_len: int,
    found: Option<int>,
) -> int
    decreases gs.len(),
{
    if gs.len() == 0 {
        match found {
            Some(e) => e,
            None => s_len,
        }
    } else if ws[0] > room {
        match found {
            Some(e) => e,
            None => gs[0].0 as int,
        }
    } else {
        fit_scan(
            gs.drop_first(),
            ws.drop_first(),
            room - ws[0],
            delim,
            s_len,
            if delim == Some(gs[0].1) {
                Some(past_cluster(gs[0].0, gs[0].1))
            } else {
                found
            },
        )
    }
}

/// The byte offset to cut a line of `s_len` bytes at: the whole line if it is
/// shorter than `limit` bytes, else the end of the longest run of whole
/// clusters that fits in `limit` columns, or right after the last delimiter
/// in that run.
pub open spec fn end_spec(
    s_len: int,
    limit: int,
    delim: Option<Seq<char>>,
    gs: Seq<(usize, Seq<char>)>,
    ws: Seq<usize>,
) -> int {
    if s_len < limit {
        s_len
    } else {
        let t = fit_scan(gs, ws, limit, delim, s_len, None);
        if s_len < t { s_len } else { t }
    }
}

/// Where to cut a line of `s_len` bytes, given its clusters and their widths.
pub fn chop_end(
    s_len: usize,
    limit: usize,
    delim: &Option<String>,
    graphemes: &Vec<(usize, String)>,
    widths: &Vec<usize>,
) -> (r: usize)
    requires
        graphemes@.len() == widths@.len(),
    ensures
        r == end_spec(
            s_len as int,
            limit as int,
            delim.deep_view(),
            graphemes@.map_values(|g: (usize, String)| (g.0, g.1@)),
            widths@,
        ),
{
    let ghost gs = graphemes@.map_values(|g: (usize, String)| (g.0, g.1@));
    let ghost ws = widths@;
    let ghost d = delim.deep_view();
    if s_len < limit {
        return s_len;
    }
    let ghost target = fit_scan(gs, ws, limit as int, d, s_len as int, None);
    let mut fit_end: usize = s_len;
    let mut found: Option<usize> = None;
    let mut col: usize = 0;
    let mut i: usize = 0;
    assert(gs.subrange(0, gs.len() as int) =~= gs);
    assert(ws.subrange(0, ws.len() as int) =~= ws);
    while i < graphemes.len()
        invariant_except_break
            fit_end == s_len,
        invariant
            gs == graphemes@.map_values(|g: (usize, String)| (g.0, g.1@)),
            ws == widths@,
            d == delim.deep_view(),
            graphemes@.len() == widths@.len(),
            i <= graphemes@.len(),
            col <= limit,
            fit_scan(
                gs.subrange(i as int, gs.len() as int),
                ws.subrange(i as int, ws.len() as int),
                limit - col,
                d,
                s_len as int,
                match found {
                    Some(e) => Some(e as int),
                    None => None,
                },
            ) == target,
        ensures
            (match found {
                Some(e) => e as int,
                None => fit_end as int,
            }) == target,
        decreases graphemes@.len() - i,
    {
        let ghost rest = gs.subrange(i as int, gs.len() as int);
        let ghost wrest = ws.subrange(i as int, ws.len() as int);
        assert(rest.drop_first() =~= gs.subrange(i + 1, gs.len() as int));
        assert(wrest.drop_first() =~= ws.subrange(i + 1, ws.len() as int));
        assert(rest[0] == gs[i as int]);
        assert(wrest[0] == ws[i as int]);
        let w = widths[i];
        if w > limit - col {
            fit_end = graphemes[i].0;
            break;
        }
        col = col + w;
        match delim {
            Some(dl) => {
                if graphemes[i].1.eq(dl) {
                    found = Some(graphemes[i].0.saturating_add(dl.as_str().as_bytes().len()));
                }
            },
            None => {},
        }
        i = i + 1;
    }
    let t = match found {
        Some(e) => e,
        None => fit_end,
    };
    if s_len < t {
        s_len
    } else {
        t
    }
}

/// Where to cut `s` so that it fits in `limit` columns: the whole of it if
/// it is shorter than `limit` bytes, else after the longest run of whole
/// grapheme clusters that fits, or right after the last delimiter in it.
pub fn get_end(s: &str, limit: usize, delim: &Option<String>) -> (r: usize)
    ensures
        r == end_spec(
            s.len() as int,
            limit as int,
            delim.deep_view(),
            graphemes_of(s@),
            graphemes_of(s@).map_values(|g: (usize, Seq<char>)| display_width(g.1)),
        ),
{
    let s_len = s.len();
    if s_len < limit {
        return s_len;
    }
    let graphemes = grapheme_indices(s);
    let mut widths: Vec<usize> = Vec::new();
    let mut i: usize = 0;
    while i < graphemes.len()
        invariant
            graphemes@.len() == graphemes_of(s@).len(),
            forall|j: int|
                #![trigger graphemes@[j]]
                0 <= j < graphemes@.len() ==> graphemes@[j].0 == graphemes_of(s@)[j].0
                    && graphemes@[j].1@ == graphemes_of(s@)[j].1,
            i <= graphemes@.len(),
            widths@.len() == i,
            forall|j: int| 0 <= j < i ==> #[trigger] widths@[j] == display_width(graphemes_of(s@)[j].1),
        decreases graphemes@.len() - i,
    {
        let w = str_width(graphemes[i].1.as_str());
        widths.push(w);
        i = i + 1;
    }
    let r = chop_end(s_len, limit, delim, &graphemes, &widths);
    proof {
        let gs = graphemes@.map_values(|g: (usize, String)| (g.0, g.1@));
        assert(gs =~= graphemes_of(s@));
        assert(widths@ =~= graphemes_of(s@).map_values(|g: (usize, Seq<char>)| display_width(g.1)));
    }
    r
}

/// How lines are cut.
#[derive(Clone, Debug)]
pub struct ChopConfig {
    /// Continue a cut line on the next line instead of dropping the rest.
    pub wrap: Option<bool>,
    /// A fixed width, in place of the terminal's.
    pub columns: Option<usize>,
    /// Cut right after the last such cluster that fits.
    pub delimiter: Option<String>,
    /// Cut at the greatest multiple of this that fits.
    pub multiple: Option<usize>,
    /// Shift the multiples by this much.
    pub offset: Option<usize>,
}

/// The width used when the terminal's cannot be had.
pub const DEFAULT_COLUMNS: usize = 80;

/// The limit for a line given the base width: the greatest
/// `k * multiple + offset` within `width`, or `width` itself when no nonzero
/// multiple is set or the offset alone exceeds it.
pub open spec fn apply_multiple(width: usize, multiple: Option<usize>, offset: Option<usize>) -> int {
    match multiple {
        Some(m) => {
            let o: int = match offset {
                Some(o) => o as int,
                None => 0,
            };
            if m == 0 || o > width {
                width as int
            } else {
                ((width - o) / (m as int)) * m + o
            }
        },
        None => width as int,
    }
}

/// Keeps the width of the line to write, asking the terminal at most once
/// per timeout.
pub struct Limiter {
    pub config: ChopConfig,
    pub cache: TimedCache,
}

impl Limiter {
    /// A limiter whose remembered terminal width is good for `timeout`
    /// nanoseconds.
    pub fn new(config: ChopConfig, timeout: u128) -> (r: Self)
        ensures
            r.config == config,
            r.cache == (TimedCache { value: 0, prev_timestamp: 0, timeout }),
    {
        Limiter { config, cache: TimedCache::new(timeout) }
    }

    /// The number of columns a line may take at `now`. The base width is
    /// the configured one, else the remembered terminal width while fresh,
    /// else the terminal's (from `terminal_columns`, remembered as of `now`),
    /// else `DEFAULT_COLUMNS`; the multiple and offset then apply.
    pub fn get_limit<F: FnOnce() -> Option<usize>>(&mut self, now: u128, terminal_columns: F) -> (r: usize)
        requires
            terminal_columns.requires(()),
        ensures
            final(self).config == old(self).config,
            final(self).cache.timeout == old(self).cache.timeout,
            ({
                let cfg = old(self).config;
                match cfg.columns {
                    Some(c) => r == apply_multiple(c, cfg.multiple, cfg.offset) && final(self).cache
                        == old(self).cache,
                    None => if old(self).cache.is_fresh(now) {
                        r == apply_multiple(old(self).cache.value, cfg.multiple, cfg.offset)
                            && final(self).cache == old(self).cache
                    } else {
                        exists|q: Option<usize>|
                            #![trigger terminal_columns.ensures((), q)]
                            terminal_columns.ensures((), q) && match q {
                                Some(c) => r == apply_multiple(c, cfg.multiple, cfg.offset)
                                    && final(self).cache == (TimedCache {
                                    value: c,
                                    prev_timestamp: now,
                                    ..old(self).cache
                                }),
                                None => r == apply_multiple(
                                    DEFAULT_COLUMNS,
                                    cfg.multiple,
                                    cfg.offset,
                                ) && final(self).cache == old(self).cache,
                            }
                    },
                }
            }),
    {
        let width = match self.config.columns {
            Some(sz) => sz,
            None => match self.cache.get(now) {
                Some(sz) => sz,
                None => {
                    let q = terminal_columns();
                    match q {
                        Some(cols) => {
                            self.cache.set(cols, now);
                            cols
                        },
                        None => DEFAULT_COLUMNS,
                    }
                },
            },
        };
        match self.config.multiple {
            Some(mult) => {
                let offs = match self.config.offset {
                    Some(o) => o,
                    None => 0,
                };
                if mult == 0 || offs > width {
                    width
                } else {
                    let k = (width - offs) / mult;
                    proof {
                        assert(k * mult <= width - offs) by (nonlinear_arith)
                            requires
                                k == (width - offs) / (mult as int),
                                mult > 0,
                                width >= offs,
                        ;
                    }
                    k * mult + offs
                }
            },
            None => width,
        }
    }
}

/// The greatest character boundary of `bytes` at or before `i`.
pub open spec fn boundary_at_or_before(bytes: Seq<u8>, i: int) -> int
    decreases i,
{
    if i <= 0 || is_char_boundary(bytes, i) {
        if i <= 0 { 0 } else { i }
    } else {
        boundary_at_or_before(bytes, i - 1)
    }
}

/// Where the next piece of the UTF-8 text `bytes` ends: `end_spec` on its
/// characters, moved back to a character boundary.
pub open spec fn piece_end(bytes: Seq<u8>, limit: usize, delim: Option<Seq<char>>) -> int {
    let gs = graphemes_of(decode_utf8(bytes));
    boundary_at_or_before(
        bytes,
        end_spec(
            bytes.len() as int,
            limit as int,
            delim,
            gs,
            gs.map_values(|g: (usize, Seq<char>)| display_width(g.1)),
        ),
    )
}

/// The pieces a line is written as: the first piece only, or, when wrapping,
/// piece after piece until the line is used up. A piece that would be empty
/// while wrapping takes the rest of the line instead.
pub open spec fn chop_pieces(bytes: Seq<u8>, limit: usize, delim: Option<Seq<char>>, wrap: bool) -> Seq<
    Seq<u8>,
>
    decreases bytes.len(),
{
    if bytes.len() == 0 {
        Seq::empty()
    } else {
        let e = piece_end(bytes, limit, delim);
        if !wrap {
            seq![bytes.subrange(0, e)]
        } else if e <= 0 || e > bytes.len() {
            seq![bytes]
        } else {
            seq![bytes.subrange(0, e)] + chop_pieces(
                bytes.subrange(e, bytes.len() as int),
                limit,
                delim,
                wrap,
            )
        }
    }
}

/// Cuts one line, without its line ending, into the pieces to write, each
/// cut where `get_end` says.
pub fn chop_line(line: &str, limit: usize, delim: &Option<String>, wrap: bool) -> (r: Vec<String>)
    ensures
        r@.len() == chop_pieces(line.spec_bytes(), limit, delim.deep_view(), wrap).len(),
        forall|i: int|
            0 <= i < r@.len() ==> encode_utf8(#[trigger] r@[i]@) == chop_pieces(
                line.spec_bytes(),
                limit,
                delim.deep_view(),
                wrap,
            )[i],
{
    let ghost all = chop_pieces(line.spec_bytes(), limit, delim.deep_view(), wrap);
    let mut pieces: Vec<String> = Vec::new();
    let mut rest: &str = line;
    loop
        invariant_except_break
            all == pieces@.map_values(|p: String| encode_utf8(p@)) + chop_pieces(
                rest.spec_bytes(),
                limit,
                delim.deep_view(),
                wrap,
            ),
        invariant
            all == chop_pieces(line.spec_bytes(), limit, delim.deep_view(), wrap),
        ensures
            all == pieces@.map_values(|p: String| encode_utf8(p@)),
        decreases rest.spec_bytes().len(),
    {
        let ghost bytes = rest.spec_bytes();
        let ghost before = pieces@.map_values(|p: String| encode_utf8(p@));
        let n = rest.as_bytes().len();
        if n == 0 {
            assert(chop_pieces(bytes, limit, delim.deep_view(), wrap) =~= Seq::<Seq<u8>>::empty());
            assert(all =~= before);
            break;
        }
        proof {
            encode_utf8_decode_utf8(rest@);
            encode_utf8_valid_utf8(rest@);
            is_char_boundary_start_end_of_seq(bytes);
        }
        let mut end = get_end(rest, limit, delim);
        assert(end == end_spec(
            bytes.len() as int,
            limit as int,
            delim.deep_view(),
            graphemes_of(decode_utf8(bytes)),
            graphemes_of(decode_utf8(bytes)).map_values(|g: (usize, Seq<char>)| display_width(g.1)),
        ));
        let ghost e0 = end as int;
        while end > 0 && !rest.is_char_boundary(end)
            invariant
                0 <= end <= e0,
                boundary_at_or_before(bytes, e0) == boundary_at_or_before(bytes, end as int),
                bytes == rest.spec_bytes(),
            decreases end,
        {
            end = end - 1;
        }
        assert(end == piece_end(bytes, limit, delim.deep_view()));
        assert(bytes.len() > 0);
        if wrap && end == 0 {
            assert(chop_pieces(bytes, limit, delim.deep_view(), wrap) == seq![bytes]);
            pieces.push(rest.to_owned());
            proof {
                let now = pieces@.map_values(|p: String| encode_utf8(p@));
                assert(now =~= before.push(bytes));
                assert(all =~= now);
            }
            break;
        }
        let (head, tail) = rest.split_at(end);
        pieces.push(head.to_owned());
        proof {
            let now = pieces@.map_values(|p: String| encode_utf8(p@));
            assert(now =~= before.push(head.spec_bytes()));
        }
        assert(head.spec_bytes() =~= bytes.subrange(0, end as int));
        if !wrap {
            proof {
                assert(chop_pieces(bytes, limit, delim.deep_view(), wrap) == seq![bytes.subrange(0, end as int)]);
                let now = pieces@.map_values(|p: String| encode_utf8(p@));
                assert(all =~= now);
            }
            break;
        }
        proof {
            let now = pieces@.map_values(|p: String| encode_utf8(p@));
            assert(all =~= now + chop_pieces(tail.spec_bytes(), limit, delim.deep_view(), wrap));
        }
        rest = tail;
    }
    pieces
}

} // verus!
