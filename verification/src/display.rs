//! The screen layout of the 160x128 panel.
//!
//! Drawing belongs to the firmware; what is laid out where is decided here.
//! Text is set in a 6x10 font, [`COLS`] glyphs to a row, rows [`LINE_H`]
//! pixels apart:
//!
//! ```text
//! +------------------------------------------+  y=0
//! | <step prompt>                 CAPS s3     |   status bar
//! +------------------------------------------+  y=14
//! | draft text (the message being composed)  |   draft (wraps)
//! +------------------------------------------+  y=92
//! | guidance: suggestions and group map, or  |
//! |   the chosen group's letters             |   guidance zone
//! +------------------------------------------+  y=128
//! ```
//!
//! A response body is wrapped into rows of at most [`COLS`] bytes, breaking
//! at each newline and wherever a row is full; a character that does not fit
//! the bytes left in a row is dropped, as the fixed row buffers of the panel
//! code do.
use vstd::prelude::*;
use vstd::string::StringSliceAdditionalSpecFns;
use crate::keyboard::Keyboard;
use crate::scan::{push_piece, push_pieces};
use crate::text::{
    char_len, char_utf8_len, chars_of, decimal, decimal_string, lemma_utf8_len_concat,
    lemma_utf8_len_push, utf8_len, BoundedString,
};

verus! {

broadcast use vstd::seq_lib::group_seq_properties;

/// Panel width in pixels.
pub const WIDTH: u32 = 160;

/// Panel height in pixels.
pub const HEIGHT: u32 = 128;

/// Top of the status bar.
pub const STATUS_TOP: i32 = 0;

/// Top of the draft zone.
pub const DRAFT_TOP: i32 = 14;

/// Top of the guidance zone.
pub const GUIDE_TOP: i32 = 92;

/// Glyphs (and bytes) in one text row.
pub const COLS: usize = 26;

/// Pixels from one text row to the next.
pub const LINE_H: i32 = 11;

/// Body rows that fit under the header of a response view.
pub const MAX_ROWS: usize = 10;

/// Rows kept of a response shown by its tail.
pub const TAIL_KEEP: usize = 64;

/// Rows kept of a response shown with a scroll offset.
pub const SCROLL_KEEP: usize = 256;

/// Last draft row that is drawn (its top at `y = 71`).
pub const LAST_DRAFT_ROW: usize = 5;

/// The texts of a list of rows.
pub open spec fn rows_view(rows: Seq<BoundedString<COLS>>) -> Seq<Seq<char>> {
    rows.map_values(|r: BoundedString<COLS>| r@)
}

// ---------------------------------------------------------------------------
// Wrapping.
// ---------------------------------------------------------------------------
/// The finished rows and the current row after one more character.
pub open spec fn wrap_step(rows: Seq<Seq<char>>, cur: Seq<char>, ch: char) -> (
    Seq<Seq<char>>,
    Seq<char>,
) {
    if ch == '\n' {
        (rows.push(cur), Seq::empty())
    } else {
        let (r, c) = if utf8_len(cur) >= COLS {
            (rows.push(cur), Seq::<char>::empty())
        } else {
            (rows, cur)
        };
        (
            r,
            if utf8_len(c) + char_len(ch) <= COLS {
                c.push(ch)
            } else {
                c
            },
        )
    }
}

/// The finished rows and the current row after the characters of `body`.
pub open spec fn wrap_prefix(body: Seq<char>) -> (Seq<Seq<char>>, Seq<char>)
    decreases body.len(),
{
    if body.len() == 0 {
        (Seq::empty(), Seq::empty())
    } else {
        let p = wrap_prefix(body.drop_last());
        wrap_step(p.0, p.1, body.last())
    }
}

/// All rows of `body`, the last one included (it may be empty).
pub open spec fn wrap_of(body: Seq<char>) -> Seq<Seq<char>> {
    let p = wrap_prefix(body);
    p.0.push(p.1)
}

/// The last `k` items of `s` (all of them when there are fewer).
pub open spec fn keep_last<A>(s: Seq<A>, k: nat) -> Seq<A> {
    if s.len() <= k {
        s
    } else {
        s.skip(s.len() - k)
    }
}

/// Wraps `body` into rows: a newline ends a row, and so does a row that
/// reached [`COLS`] bytes; a character that does not fit the bytes left in a
/// row is dropped. The last row is always there, possibly empty.
pub fn wrap(body: &str) -> (rows: Vec<BoundedString<COLS>>)
    ensures
        rows_view(rows@) == wrap_of(body@),
{
    let cs = chars_of(body);
    let n = cs.len();
    let mut rows: Vec<BoundedString<COLS>> = Vec::new();
    let mut cur: BoundedString<COLS> = BoundedString::new();
    let mut i: usize = 0;
    proof {
        assert(cs@.subrange(0, 0) =~= Seq::<char>::empty());
        assert(rows_view(rows@) =~= Seq::<Seq<char>>::empty());
    }
    while i < n
        invariant
            n == cs@.len(),
            cs@ == body@,
            i <= n,
            (rows_view(rows@), cur@) == wrap_prefix(cs@.subrange(0, i as int)),
        decreases n - i,
    {
        let ch = cs[i];
        proof {
            assert(cs@.subrange(0, i + 1).drop_last() =~= cs@.subrange(0, i as int));
        }
        if ch == '\n' || cur.len() >= COLS {
            let ghost before = rows_view(rows@);
            let mut done: BoundedString<COLS> = BoundedString::new();
            std::mem::swap(&mut done, &mut cur);
            rows.push(done);
            proof {
                assert(rows_view(rows@) =~= before.push(done@));
            }
        }
        if ch != '\n' {
            let _ = cur.push(ch);
        }
        i = i + 1;
    }
    proof {
        assert(cs@.subrange(0, n as int) =~= cs@);
    }
    let ghost before = rows_view(rows@);
    rows.push(cur);
    proof {
        assert(rows_view(rows@) =~= before.push(wrap_prefix(body@).1));
    }
    rows
}

/// Keeps the last `k` rows.
fn tail_rows(rows: Vec<BoundedString<COLS>>, k: usize) -> (r: Vec<BoundedString<COLS>>)
    ensures
        rows_view(r@) == keep_last(rows_view(rows@), k as nat),
{
    let mut rows = rows;
    if rows.len() <= k {
        return rows;
    }
    let start = rows.len() - k;
    let ghost all = rows@;
    let tail = rows.split_off(start);
    proof {
        assert(rows_view(tail@) =~= rows_view(all).skip(start as int));
    }
    tail
}

/// A wrapping finishes at most one row per character, and its current row
/// fits [`COLS`] bytes.
proof fn lemma_wrap_prefix_bounds(body: Seq<char>)
    ensures
        wrap_prefix(body).0.len() <= body.len(),
        utf8_len(wrap_prefix(body).1) <= COLS,
    decreases body.len(),
{
    assert(utf8_len(Seq::<char>::empty()) == 0) by {
        assert(vstd::utf8::encode_utf8(Seq::<char>::empty()) =~= Seq::<u8>::empty());
    }
    if body.len() > 0 {
        let p = wrap_prefix(body.drop_last());
        lemma_wrap_prefix_bounds(body.drop_last());
        let ch = body.last();
        let c = if utf8_len(p.1) >= COLS {
            Seq::<char>::empty()
        } else {
            p.1
        };
        lemma_utf8_len_push(c, ch);
    }
}

/// The rows of `rows` from `start` to `end`.
fn row_range(rows: Vec<BoundedString<COLS>>, start: usize, end: usize) -> (r: Vec<
    BoundedString<COLS>,
>)
    requires
        start <= end <= rows@.len(),
    ensures
        rows_view(r@) == rows_view(rows@).subrange(start as int, end as int),
{
    let mut rows = rows;
    let ghost all = rows@;
    rows.truncate(end);
    let tail = rows.split_off(start);
    proof {
        assert(rows_view(tail@) =~= rows_view(all).subrange(start as int, end as int));
    }
    tail
}

/// Text padded with spaces to [`COLS`] bytes.
pub open spec fn padded(s: Seq<char>) -> Seq<char> {
    s + Seq::new((COLS - utf8_len(s)) as nat, |i: int| ' ')
}

/// `acc` followed by the characters of `rest` as long as each fits `cap`
/// bytes: the first that does not fit ends the text.
pub open spec fn clip_from(acc: Seq<char>, rest: Seq<char>, cap: nat) -> Seq<char>
    decreases rest.len(),
{
    if rest.len() == 0 {
        acc
    } else if utf8_len(acc) + char_len(rest[0]) <= cap {
        clip_from(acc.push(rest[0]), rest.drop_first(), cap)
    } else {
        acc
    }
}

/// Pads `line` with spaces to [`COLS`] bytes.
fn pad_line(line: &mut BoundedString<COLS>)
    ensures
        final(line)@ == padded(old(line)@),
        utf8_len(final(line)@) == COLS,
{
    let ghost start = line@;
    let mut k: usize = line.len();
    proof {
        assert(start + Seq::new(0, |i: int| ' ') =~= start);
    }
    while k < COLS
        invariant
            utf8_len(start) <= k <= COLS,
            k == utf8_len(line@),
            line@ == start + Seq::new((k - utf8_len(start)) as nat, |i: int| ' '),
        decreases COLS - k,
    {
        let ghost before = line@;
        proof {
            lemma_utf8_len_push(line@, ' ');
        }
        let _ = line.push(' ');
        k = k + 1;
        proof {
            assert(line@ =~= start + Seq::new((k - utf8_len(start)) as nat, |i: int| ' '));
        }
    }
}

/// A copy of `row`, padded with spaces to [`COLS`] bytes.
fn padded_copy(row: &BoundedString<COLS>) -> (line: BoundedString<COLS>)
    ensures
        line@ == padded(row@),
{
    let mut line: BoundedString<COLS> = BoundedString::new();
    let n = row.len();
    proof {
        assert(utf8_len(Seq::<char>::empty()) == 0) by {
            assert(vstd::utf8::encode_utf8(Seq::<char>::empty()) =~= Seq::<u8>::empty());
        }
        assert(Seq::<char>::empty() + row@ =~= row@);
    }
    let _ = line.push_str(row.as_str());
    pad_line(&mut line);
    line
}

/// What the streaming response view draws: the header and [`MAX_ROWS`]
/// body lines, each padded to the full width so that it overwrites what was
/// under it.
pub struct StreamFrame {
    pub header: BoundedString<COLS>,
    pub lines: Vec<BoundedString<COLS>>,
}

/// Body line `i` of the streaming view of `body`: the `i`-th of the last
/// rows, or a blank line.
pub open spec fn stream_line(body: Seq<char>, i: int) -> Seq<char> {
    let vis = keep_last(wrap_of(body), MAX_ROWS as nat);
    padded(
        if i < vis.len() {
            vis[i]
        } else {
            Seq::empty()
        },
    )
}

/// The panel with its text views.
pub struct Ui;

impl Ui {
    /// Rows the wrapped `body` makes, and how many fit on one screen:
    /// `(total_rows, visible_rows)`. The rows are those the response views
    /// lay the body into, so the count can clamp a scroll offset.
    pub fn wrapped_row_count(body: &str) -> (r: (usize, usize))
        requires
            body@.len() < usize::MAX,
        ensures
            r.0 == wrap_of(body@).len(),
            r.1 == MAX_ROWS,
    {
        let cs = chars_of(body);
        let n = cs.len();
        let mut rows: usize = 1;
        let mut used: usize = 0;
        let mut i: usize = 0;
        proof {
            assert(cs@.subrange(0, 0) =~= Seq::<char>::empty());
            assert(utf8_len(Seq::<char>::empty()) == 0) by {
                assert(vstd::utf8::encode_utf8(Seq::<char>::empty()) =~= Seq::<u8>::empty());
            }
        }
        while i < n
            invariant
                n == cs@.len(),
                cs@ == body@,
                n < usize::MAX,
                i <= n,
                rows == wrap_prefix(cs@.subrange(0, i as int)).0.len() + 1,
                used == utf8_len(wrap_prefix(cs@.subrange(0, i as int)).1),
            decreases n - i,
        {
            let ghost pre = cs@.subrange(0, i as int);
            proof {
                assert(cs@.subrange(0, i + 1).drop_last() =~= pre);
                lemma_wrap_prefix_bounds(pre);
                assert(utf8_len(Seq::<char>::empty()) == 0) by {
                    assert(vstd::utf8::encode_utf8(Seq::<char>::empty()) =~= Seq::<u8>::empty());
                }
            }
            let ch = cs[i];
            if ch == '\n' || used >= COLS {
                rows = rows + 1;
                used = 0;
            }
            if ch != '\n' {
                let w = char_utf8_len(ch);
                proof {
                    let c = if ch != '\n' && utf8_len(wrap_prefix(pre).1) >= COLS {
                        Seq::<char>::empty()
                    } else {
                        wrap_prefix(pre).1
                    };
                    lemma_utf8_len_push(c, ch);
                }
                if used + w <= COLS {
                    used = used + w;
                }
            }
            i = i + 1;
        }
        proof {
            assert(cs@.subrange(0, n as int) =~= cs@);
        }
        (rows, MAX_ROWS)
    }

    /// The body rows of the response view: the last [`MAX_ROWS`] rows of the
    /// wrapped `body`, so the freshest text is always visible.
    pub fn response_rows(body: &str) -> (rows: Vec<BoundedString<COLS>>)
        ensures
            rows_view(rows@) == keep_last(wrap_of(body@), MAX_ROWS as nat),
    {
        tail_rows(wrap(body), MAX_ROWS)
    }

    /// What the streaming response view draws for `header` and `body`: the
    /// header cut to the first characters that fit and the last rows of the
    /// body, every line padded to the full width and blank lines below.
    pub fn stream_frame(header: &str, body: &str) -> (f: StreamFrame)
        ensures
            f.header@ == padded(clip_from(Seq::empty(), header@, COLS as nat)),
            f.lines@.len() == MAX_ROWS,
            forall|i: int| 0 <= i < MAX_ROWS ==> (#[trigger] f.lines@[i])@ == stream_line(body@, i),
    {
        let hs = chars_of(header);
        let mut hdr: BoundedString<COLS> = BoundedString::new();
        let mut i: usize = 0;
        let mut full = false;
        proof {
            assert(hs@.skip(0) =~= hs@);
        }
        while i < hs.len() && !full
            invariant
                hs@ == header@,
                i <= hs@.len(),
                !full ==> clip_from(hdr@, hs@.skip(i as int), COLS as nat) == clip_from(
                    Seq::empty(),
                    header@,
                    COLS as nat,
                ),
                full ==> hdr@ == clip_from(Seq::empty(), header@, COLS as nat),
            decreases hs@.len() - i + (if full {
                0int
            } else {
                1int
            }),
        {
            let ghost before = hdr@;
            proof {
                assert(hs@.skip(i as int)[0] == hs@[i as int]);
                assert(hs@.skip(i as int).drop_first() =~= hs@.skip(i + 1));
            }
            if hdr.push(hs[i]).is_err() {
                full = true;
            } else {
                i = i + 1;
            }
        }
        proof {
            if !full {
                assert(hs@.skip(i as int) =~= Seq::<char>::empty());
            }
        }
        pad_line(&mut hdr);
        let vis = tail_rows(wrap(body), MAX_ROWS);
        let ghost vv = rows_view(vis@);
        let mut lines: Vec<BoundedString<COLS>> = Vec::new();
        let mut j: usize = 0;
        while j < MAX_ROWS
            invariant
                j <= MAX_ROWS,
                vv == rows_view(vis@),
                vv == keep_last(wrap_of(body@), MAX_ROWS as nat),
                lines@.len() == j,
                forall|k: int| 0 <= k < j ==> (#[trigger] lines@[k])@ == stream_line(body@, k),
            decreases MAX_ROWS - j,
        {
            let line = if j < vis.len() {
                padded_copy(&vis[j])
            } else {
                let mut blank: BoundedString<COLS> = BoundedString::new();
                pad_line(&mut blank);
                blank
            };
            lines.push(line);
            j = j + 1;
        }
        StreamFrame { header: hdr, lines }
    }

    /// The body rows of the scrolled response view: from row `scroll_lines`
    /// of the wrapped `body` (its last [`SCROLL_KEEP`] rows), clamped so the
    /// last screenful is as far as it goes.
    pub fn scrolled_rows(body: &str, scroll_lines: usize) -> (rows: Vec<BoundedString<COLS>>)
        ensures
            ({
                let all = keep_last(wrap_of(body@), SCROLL_KEEP as nat);
                let w = scroll_window(all.len(), scroll_lines as nat);
                rows_view(rows@) == all.subrange(w.0 as int, w.1 as int)
            }),
    {
        let all = tail_rows(wrap(body), SCROLL_KEEP);
        let (start, end) = scroll_bounds(all.len(), scroll_lines);
        row_range(all, start, end)
    }
}

/// The first and one-past-last row shown of `total` rows when scrolled by
/// `scroll`: at most [`MAX_ROWS`] rows, never starting past the last
/// screenful.
pub open spec fn scroll_window(total: nat, scroll: nat) -> (nat, nat) {
    let max_start = max_scroll(total);
    let start = if scroll < max_start {
        scroll
    } else {
        max_start
    };
    (start, if start + MAX_ROWS < total {
        (start + MAX_ROWS) as nat
    } else {
        total
    })
}

/// The furthest scroll offset: the one that shows the last screenful.
pub open spec fn max_scroll(total: nat) -> nat {
    if total > MAX_ROWS {
        (total - MAX_ROWS) as nat
    } else {
        0
    }
}

/// Computes [`scroll_window`].
pub fn scroll_bounds(total: usize, scroll: usize) -> (r: (usize, usize))
    ensures
        (r.0 as nat, r.1 as nat) == scroll_window(total as nat, scroll as nat),
{
    let max_start = if total > MAX_ROWS {
        total - MAX_ROWS
    } else {
        0
    };
    let start = if scroll < max_start {
        scroll
    } else {
        max_start
    };
    let end = if start + MAX_ROWS < total {
        start + MAX_ROWS
    } else {
        total
    };
    (start, end)
}

/// Scrolling past the end changes nothing: any offset from the last
/// screenful on shows the same rows.
pub proof fn law_scroll_clamps(total: nat, scroll: nat)
    requires
        scroll >= max_scroll(total),
    ensures
        scroll_window(total, scroll) == scroll_window(total, max_scroll(total)),
{
}

/// A scrolled view shows a full screen of rows when there are that many,
/// and all the rows otherwise.
pub proof fn law_scroll_shows_a_screenful(total: nat, scroll: nat)
    ensures
        scroll_window(total, scroll).0 <= scroll_window(total, scroll).1 <= total,
        scroll_window(total, scroll).1 - scroll_window(total, scroll).0 == (if total < MAX_ROWS {
            total
        } else {
            MAX_ROWS as nat
        }),
{
}


// ---------------------------------------------------------------------------
// The settings menu.
// ---------------------------------------------------------------------------
/// Top of the first menu row.
pub const MENU_TOP: i32 = 17;

/// Menu rows that fit on the panel.
pub const MENU_ROWS: usize = 10;

/// Width of a slider bar in pixels.
pub const BAR_W: u32 = 40;

/// The first and one-past-last item shown of a menu of `len` items with
/// `selected` highlighted: the selection kept near the middle of the window,
/// which never runs past either end of the list.
pub open spec fn menu_window(len: nat, selected: nat) -> (nat, nat) {
    let start: nat = if len <= MENU_ROWS {
        0
    } else {
        let s: nat = if selected >= MENU_ROWS / 2 {
            (selected - MENU_ROWS / 2) as nat
        } else {
            0
        };
        if s < len - MENU_ROWS {
            s
        } else {
            (len - MENU_ROWS) as nat
        }
    };
    (start, if start + MENU_ROWS < len {
        (start + MENU_ROWS) as nat
    } else {
        len
    })
}

/// `row` followed by the characters of `rest` until the row reaches
/// `COLS - 1` bytes; a character that does not fit the bytes left is skipped.
pub open spec fn menu_fill(row: Seq<char>, rest: Seq<char>) -> Seq<char>
    decreases rest.len(),
{
    if rest.len() == 0 || utf8_len(row) >= COLS - 1 {
        row
    } else {
        menu_fill(
            if utf8_len(row) + char_len(rest[0]) <= COLS {
                row.push(rest[0])
            } else {
                row
            },
            rest.drop_first(),
        )
    }
}

/// The text of a menu row: a `>` marker on the selected row, a space on the
/// others, then as much of the item as fits.
pub open spec fn menu_text(item: Seq<char>, selected: bool) -> Seq<char> {
    menu_fill(
        if selected {
            seq!['>']
        } else {
            seq![' ']
        },
        item,
    )
}

/// The value of the first slider entry for row `i`, if any.
pub open spec fn slider_of(sliders: Seq<(usize, u8)>, i: nat) -> Option<u8>
    decreases sliders.len(),
{
    if sliders.len() == 0 {
        None
    } else if sliders[0].0 == i {
        Some(sliders[0].1)
    } else {
        slider_of(sliders.drop_first(), i)
    }
}

/// Filled width of a slider bar for a value out of ten.
pub open spec fn bar_fill(val: u8) -> u32 {
    ((BAR_W * val) / 10) as u32
}

/// One drawn menu row.
pub struct MenuRow {
    /// The row's text.
    pub text: BoundedString<COLS>,
    /// Whether the row is highlighted.
    pub selected: bool,
    /// For a slider row, its value out of ten and the filled bar width.
    pub slider: Option<(u8, u32)>,
}

/// What the settings menu draws.
pub struct MenuLayout {
    /// First item shown.
    pub start: usize,
    /// One past the last item shown.
    pub end: usize,
    /// The rows shown, for items `start..end`.
    pub rows: Vec<MenuRow>,
    /// Whether items are hidden above (a `^` hint).
    pub more_above: bool,
    /// Whether items are hidden below (a `v` hint).
    pub more_below: bool,
}

/// Builds the text of one menu row.
fn menu_row_text(item: &str, selected: bool) -> (t: BoundedString<COLS>)
    ensures
        t@ == menu_text(item@, selected),
{
    let cs = chars_of(item);
    let mut row: BoundedString<COLS> = BoundedString::new();
    proof {
        assert(utf8_len(Seq::<char>::empty()) == 0) by {
            assert(vstd::utf8::encode_utf8(Seq::<char>::empty()) =~= Seq::<u8>::empty());
        }
        lemma_utf8_len_push(Seq::<char>::empty(), '>');
        lemma_utf8_len_push(Seq::<char>::empty(), ' ');
        assert(Seq::<char>::empty().push('>') =~= seq!['>']);
        assert(Seq::<char>::empty().push(' ') =~= seq![' ']);
    }
    let _ = row.push(if selected {
        '>'
    } else {
        ' '
    });
    let mut i: usize = 0;
    let mut full = row.len() >= COLS - 1;
    proof {
        assert(cs@.skip(0) =~= cs@);
    }
    while i < cs.len() && !full
        invariant
            cs@ == item@,
            i <= cs@.len(),
            full == (utf8_len(row@) >= COLS - 1),
            menu_fill(row@, cs@.skip(i as int)) == menu_text(item@, selected),
        decreases cs@.len() - i,
    {
        proof {
            assert(cs@.skip(i as int)[0] == cs@[i as int]);
            assert(cs@.skip(i as int).drop_first() =~= cs@.skip(i + 1));
        }
        let _ = row.push(cs[i]);
        i = i + 1;
        full = row.len() >= COLS - 1;
    }
    proof {
        if !full {
            assert(cs@.skip(i as int) =~= Seq::<char>::empty());
        }
    }
    row
}

/// The first slider entry for row `i`.
fn find_slider(sliders: &[(usize, u8)], i: usize) -> (r: Option<u8>)
    ensures
        r == slider_of(sliders@, i as nat),
{
    let mut k: usize = 0;
    proof {
        assert(sliders@.skip(0) =~= sliders@);
    }
    while k < sliders.len()
        invariant
            k <= sliders@.len(),
            slider_of(sliders@.skip(k as int), i as nat) == slider_of(sliders@, i as nat),
        decreases sliders@.len() - k,
    {
        proof {
            assert(sliders@.skip(k as int)[0] == sliders@[k as int]);
            assert(sliders@.skip(k as int).drop_first() =~= sliders@.skip(k + 1));
        }
        let (idx, val) = sliders[k];
        if idx == i {
            return Some(val);
        }
        k = k + 1;
    }
    proof {
        assert(sliders@.skip(k as int) =~= Seq::<(usize, u8)>::empty());
    }
    None
}

impl Ui {
    /// Lays out the settings menu: which items show, around the selection,
    /// each row's text, highlight and slider bar, and whether there are
    /// hidden items above and below.
    pub fn menu_layout(items: &[&str], selected: usize, sliders: &[(usize, u8)]) -> (m:
        MenuLayout)
        ensures
            (m.start as nat, m.end as nat) == menu_window(items@.len(), selected as nat),
            m.rows@.len() == m.end - m.start,
            forall|k: int|
                0 <= k < m.rows@.len() ==> {
                    let i = m.start + k;
                    &&& (#[trigger] m.rows@[k]).text@ == menu_text(items@[i]@, i == selected)
                    &&& m.rows@[k].selected == (i == selected)
                    &&& m.rows@[k].slider == (match slider_of(sliders@, i as nat) {
                        Some(v) => Some((v, bar_fill(v))),
                        None => None,
                    })
                },
            m.more_above == (m.start > 0),
            m.more_below == (m.end < items@.len()),
    {
        let len = items.len();
        let start: usize = if len <= MENU_ROWS {
            0
        } else {
            let s = if selected >= MENU_ROWS / 2 {
                selected - MENU_ROWS / 2
            } else {
                0
            };
            if s < len - MENU_ROWS {
                s
            } else {
                len - MENU_ROWS
            }
        };
        let end = if start + MENU_ROWS < len {
            start + MENU_ROWS
        } else {
            len
        };
        let mut rows: Vec<MenuRow> = Vec::new();
        let mut i = start;
        while i < end
            invariant
                start <= i <= end <= items@.len(),
                rows@.len() == i - start,
                forall|k: int|
                    0 <= k < rows@.len() ==> {
                        let j = start + k;
                        &&& (#[trigger] rows@[k]).text@ == menu_text(items@[j]@, j == selected)
                        &&& rows@[k].selected == (j == selected)
                        &&& rows@[k].slider == (match slider_of(sliders@, j as nat) {
                            Some(v) => Some((v, bar_fill(v))),
                            None => None,
                        })
                    },
            decreases end - i,
        {
            let is_sel = i == selected;
            let text = menu_row_text(items[i], is_sel);
            let slider = match find_slider(sliders, i) {
                Some(v) => Some((v, BAR_W * (v as u32) / 10)),
                None => None,
            };
            rows.push(MenuRow { text, selected: is_sel, slider });
            i = i + 1;
        }
        MenuLayout { start, end, rows, more_above: start > 0, more_below: end < len }
    }
}

/// The selected item of a menu is always among those shown.
pub proof fn law_menu_shows_selection(len: nat, selected: nat)
    requires
        selected < len,
    ensures
        menu_window(len, selected).0 <= selected < menu_window(len, selected).1,
        menu_window(len, selected).1 <= len,
        menu_window(len, selected).1 - menu_window(len, selected).0 <= MENU_ROWS,
{
}

// ---------------------------------------------------------------------------
// The keyboard screen.
// ---------------------------------------------------------------------------
/// A character drawn at a pixel position.
#[derive(Clone, Copy, Debug, PartialEq, Eq, Structural)]
pub struct Glyph {
    pub x: i32,
    pub y: i32,
    pub ch: char,
}

/// The glyph of `ch` at draft column `col` and row `row`.
pub open spec fn glyph_at(col: nat, row: nat, ch: char) -> Glyph {
    Glyph { x: (2 + 6 * col) as i32, y: (DRAFT_TOP + 2 + LINE_H * row) as i32, ch }
}

/// The glyphs drawn for `rest` from column `col` of row `row`, and the
/// column and row reached. A newline or a full row moves to the next row;
/// drawing stops at the first character that would fall below
/// [`LAST_DRAFT_ROW`].
pub open spec fn draft_walk(rest: Seq<char>, col: nat, row: nat) -> (Seq<Glyph>, nat, nat)
    decreases rest.len(),
{
    if rest.len() == 0 {
        (Seq::empty(), col, row)
    } else {
        let ch = rest[0];
        let c1: nat = if ch == '\n' || col >= COLS {
            0
        } else {
            col
        };
        let r1: nat = if ch == '\n' || col >= COLS {
            row + 1
        } else {
            row
        };
        if ch == '\n' {
            draft_walk(rest.drop_first(), c1, r1)
        } else if r1 > LAST_DRAFT_ROW {
            (Seq::empty(), c1, r1)
        } else {
            let w = draft_walk(rest.drop_first(), c1 + 1, r1);
            (seq![glyph_at(c1, r1, ch)] + w.0, w.1, w.2)
        }
    }
}

/// The block cursor after the draft, when it is still on screen.
pub open spec fn draft_cursor(text: Seq<char>) -> Option<(i32, i32)> {
    let w = draft_walk(text, 0, 0);
    if w.2 <= LAST_DRAFT_ROW {
        Some(((2 + 6 * w.1) as i32, (DRAFT_TOP + 2 + LINE_H * w.2) as i32))
    } else {
        None
    }
}

/// What the draft zone draws.
pub struct DraftLayout {
    pub glyphs: Vec<Glyph>,
    pub cursor: Option<(i32, i32)>,
}

/// The column never passes [`COLS`] and the row grows by at most one per
/// character.
proof fn lemma_draft_walk_bounds(rest: Seq<char>, col: nat, row: nat)
    requires
        col <= COLS,
    ensures
        draft_walk(rest, col, row).1 <= COLS,
        draft_walk(rest, col, row).2 <= row + rest.len(),
        draft_walk(rest, col, row).2 >= row,
    decreases rest.len(),
{
    if rest.len() > 0 {
        let ch = rest[0];
        let c1: nat = if ch == '\n' || col >= COLS {
            0
        } else {
            col
        };
        let r1: nat = if ch == '\n' || col >= COLS {
            row + 1
        } else {
            row
        };
        if ch == '\n' {
            lemma_draft_walk_bounds(rest.drop_first(), c1, r1);
        } else if r1 <= LAST_DRAFT_ROW {
            lemma_draft_walk_bounds(rest.drop_first(), c1 + 1, r1);
        }
    }
}

/// Text of the right side of the status bar: `CAPS ` when caps is on, then
/// `s` and the number of suggestions.
pub open spec fn status_right_text(caps: bool, n: nat) -> Seq<char> {
    push_pieces(
        Seq::empty(),
        (if caps {
            seq!["CAPS "@]
        } else {
            Seq::empty()
        }) + seq!["s"@, decimal(n)],
        12,
    ).0
}

/// How a text is colored.
#[derive(Clone, Copy, Debug, PartialEq, Eq, Structural)]
pub enum Tint {
    /// Body text.
    Fg,
    /// Highlights and the step prompts.
    Accent,
    /// Hints.
    Dim,
    /// Banners and the action layer.
    Warn,
}

/// The status prompt: the banner if there is one, else what to do next.
pub open spec fn status_label_of(status: Seq<char>, armed: bool, picking: bool) -> (
    Seq<char>,
    Tint,
) {
    if status.len() > 0 {
        (status, Tint::Warn)
    } else if armed {
        ("ACTION: pick one"@, Tint::Warn)
    } else if picking {
        ("STEP 2: pick the letter"@, Tint::Accent)
    } else {
        ("STEP 1: tap a group"@, Tint::Accent)
    }
}

/// What the status bar draws.
pub struct StatusBar<'a> {
    /// The prompt on the left.
    pub label: &'a str,
    /// Its color.
    pub tint: Tint,
    /// The caps flag and suggestion count on the right.
    pub right: BoundedString<12>,
    /// Where the right text starts.
    pub right_x: i32,
}

/// The positions of the four letter cells of the letter cross: up (W), left
/// (A), down (S) and right (D).
pub open spec fn cell_pos(i: int) -> (i32, i32) {
    if i == 0 {
        (68, GUIDE_TOP)
    } else if i == 1 {
        (4, (GUIDE_TOP + 11) as i32)
    } else if i == 2 {
        (68, (GUIDE_TOP + 22) as i32)
    } else {
        (120, (GUIDE_TOP + 11) as i32)
    }
}

/// The button of each letter cell.
pub open spec fn cell_button(i: int) -> char {
    if i == 0 {
        'W'
    } else if i == 1 {
        'A'
    } else if i == 2 {
        'S'
    } else {
        'D'
    }
}

/// A text drawn at a pixel position.
pub struct Label {
    pub x: i32,
    pub y: i32,
    pub text: BoundedString<8>,
}

impl Ui {
    /// Lays out the draft: each character's position and the block cursor
    /// after the text. No inline completion of the top suggestion is drawn:
    /// the keyboard has no completion suffix to offer, so the cursor is always
    /// the plain block.
    pub fn draft_layout(text: &str) -> (d: DraftLayout)
        ensures
            d.glyphs@ == draft_walk(text@, 0, 0).0,
            d.cursor == draft_cursor(text@),
    {
        let cs = chars_of(text);
        let n = cs.len();
        let mut glyphs: Vec<Glyph> = Vec::new();
        let mut col: usize = 0;
        let mut row: usize = 0;
        let mut i: usize = 0;
        let mut stopped = false;
        proof {
            assert(cs@.skip(0) =~= cs@);
            assert(glyphs@ + draft_walk(cs@, 0, 0).0 =~= draft_walk(cs@, 0, 0).0);
        }
        while i < n && !stopped
            invariant
                n == cs@.len(),
                cs@ == text@,
                i <= n,
                col <= COLS,
                row <= i,
                !stopped ==> ({
                    let w = draft_walk(cs@.skip(i as int), col as nat, row as nat);
                    draft_walk(text@, 0, 0) == (glyphs@ + w.0, w.1, w.2)
                }),
                stopped ==> draft_walk(text@, 0, 0) == (glyphs@, col as nat, row as nat),
                stopped ==> row > LAST_DRAFT_ROW,
            decreases n - i,
        {
            let ch = cs[i];
            proof {
                assert(cs@.skip(i as int)[0] == ch);
                assert(cs@.skip(i as int).drop_first() =~= cs@.skip(i + 1));
            }
            if ch == '\n' || col >= COLS {
                col = 0;
                row = row + 1;
            }
            if ch != '\n' {
                if row > LAST_DRAFT_ROW {
                    stopped = true;
                } else {
                    let g = Glyph { x: 2 + 6 * (col as i32), y: DRAFT_TOP + 2 + LINE_H * (row as i32), ch };
                    let ghost before = glyphs@;
                    glyphs.push(g);
                    proof {
                        let w = draft_walk(cs@.skip(i + 1), (col + 1) as nat, row as nat);
                        assert(glyphs@ + w.0 =~= before + (seq![g] + w.0));
                    }
                    col = col + 1;
                }
            }
            i = i + 1;
        }
        proof {
            if !stopped {
                assert(cs@.skip(i as int) =~= Seq::<char>::empty());
                assert(glyphs@ + Seq::<Glyph>::empty() =~= glyphs@);
            }
            lemma_draft_walk_bounds(text@, 0, 0);
        }
        let cursor = if row <= LAST_DRAFT_ROW {
            Some((2 + 6 * (col as i32), DRAFT_TOP + 2 + LINE_H * (row as i32)))
        } else {
            None
        };
        DraftLayout { glyphs, cursor }
    }

    /// Lays out the status bar for `kb`; a non-empty `status` banner replaces
    /// the step prompt.
    pub fn status_bar<'a>(kb: &Keyboard, status: &'a str) -> (b: StatusBar<'a>)
        ensures
            (b.label@, b.tint) == status_label_of(status@, kb@.armed, kb@.group is Some),
            b.right@ == status_right_text(kb@.caps, kb@.cands.len()),
            b.right_x == WIDTH - 6 * utf8_len(b.right@) - 2,
    {
        proof {
            reveal_strlit("ACTION: pick one");
            reveal_strlit("STEP 2: pick the letter");
            reveal_strlit("STEP 1: tap a group");
        }
        let (label, tint): (&'a str, Tint) = if status.as_bytes().len() > 0 {
            (status, Tint::Warn)
        } else if kb.action_armed() {
            ("ACTION: pick one", Tint::Warn)
        } else if kb.active_group().is_some() {
            ("STEP 2: pick the letter", Tint::Accent)
        } else {
            ("STEP 1: tap a group", Tint::Accent)
        };
        proof {
            if status@.len() > 0 {
                assert(status.spec_bytes().len() > 0) by {
                    lemma_utf8_len_concat(status@.take(1), status@.skip(1));
                    assert(status@.take(1) + status@.skip(1) =~= status@);
                    lemma_utf8_len_push(Seq::<char>::empty(), status@[0]);
                    assert(Seq::<char>::empty().push(status@[0]) =~= status@.take(1));
                }
            } else {
                assert(vstd::utf8::encode_utf8(status@) =~= Seq::<u8>::empty());
            }
        }
        let mut right: BoundedString<12> = BoundedString::new();
        let caps = kb.caps();
        let count = kb.candidates().len();
        let digits = decimal_string(count as u64);
        let ghost pieces = (if caps {
            seq!["CAPS "@]
        } else {
            Seq::<Seq<char>>::empty()
        }) + seq!["s"@, decimal(count as nat)];
        let r1 = if caps {
            push_piece(&mut right, "CAPS ")
        } else {
            Ok(())
        };
        let r2 = if r1.is_ok() {
            push_piece(&mut right, "s")
        } else {
            Err(())
        };
        if r2.is_ok() {
            let _ = push_piece(&mut right, digits.as_str());
        }
        proof {
            crate::scan::lemma_push_pieces_append(
                Seq::empty(),
                (if caps {
                    seq!["CAPS "@]
                } else {
                    Seq::<Seq<char>>::empty()
                }),
                seq!["s"@, decimal(count as nat)],
                12,
            );
            crate::scan::lemma_push_pieces_append(
                push_pieces(Seq::empty(), (if caps {
                    seq!["CAPS "@]
                } else {
                    Seq::<Seq<char>>::empty()
                }), 12).0,
                seq!["s"@],
                seq![decimal(count as nat)],
                12,
            );
            assert(seq!["s"@] + seq![decimal(count as nat)] =~= seq!["s"@, decimal(count as nat)]);
            reveal_with_fuel(push_pieces, 2);
        }
        let w = right.len();
        let right_x = WIDTH as i32 - 6 * (w as i32) - 2;
        StatusBar { label, tint, right, right_x }
    }

    /// The letter cross shown while picking a letter: for each of the first
    /// four letters, `button:letter` at the position of its button on the
    /// left pad.
    pub fn letter_cells(letters: &str) -> (cells: Vec<Label>)
        ensures
            cells@.len() == (if letters@.len() < 4 {
                letters@.len()
            } else {
                4
            }),
            forall|i: int|
                0 <= i < cells@.len() ==> {
                    &&& (#[trigger] cells@[i]).x == cell_pos(i).0
                    &&& cells@[i].y == cell_pos(i).1
                    &&& cells@[i].text@ == seq![cell_button(i), ':', letters@[i]]
                },
    {
        let cs = chars_of(letters);
        let mut cells: Vec<Label> = Vec::new();
        let buttons: [char; 4] = ['W', 'A', 'S', 'D'];
        let xs: [i32; 4] = [68, 4, 68, 120];
        let ys: [i32; 4] = [GUIDE_TOP, GUIDE_TOP + 11, GUIDE_TOP + 22, GUIDE_TOP + 11];
        let mut i: usize = 0;
        while i < 4 && i < cs.len()
            invariant
                cs@ == letters@,
                i <= 4,
                i <= cs@.len(),
                buttons@ == seq!['W', 'A', 'S', 'D'],
                xs@ == seq![68i32, 4, 68, 120],
                ys@ == seq![92i32, 103, 114, 103],
                cells@.len() == i,
                forall|k: int|
                    0 <= k < i ==> {
                        &&& (#[trigger] cells@[k]).x == cell_pos(k).0
                        &&& cells@[k].y == cell_pos(k).1
                        &&& cells@[k].text@ == seq![cell_button(k), ':', letters@[k]]
                    },
            decreases 4 - i,
        {
            let mut t: BoundedString<8> = BoundedString::new();
            proof {
                assert(utf8_len(Seq::<char>::empty()) == 0) by {
                    assert(vstd::utf8::encode_utf8(Seq::<char>::empty()) =~= Seq::<u8>::empty());
                }
                lemma_utf8_len_push(Seq::<char>::empty(), buttons@[i as int]);
                lemma_utf8_len_push(Seq::<char>::empty().push(buttons@[i as int]), ':');
                lemma_utf8_len_push(
                    Seq::<char>::empty().push(buttons@[i as int]).push(':'),
                    cs@[i as int],
                );
            }
            let _ = t.push(buttons[i]);
            let _ = t.push(':');
            let _ = t.push(cs[i]);
            proof {
                assert(t@ =~= seq![cell_button(i as int), ':', letters@[i as int]]);
            }
            cells.push(Label { x: xs[i], y: ys[i], text: t });
            i = i + 1;
        }
        cells
    }

    /// The first guidance line while composing: the top suggestion after a
    /// `~`, or the hint that `L` types a space.
    pub fn compose_hint(kb: &Keyboard) -> (h: BoundedString<30>)
        ensures
            kb@.cands.len() > 0 ==> h@ == "~ "@ + kb@.cands[0],
            kb@.cands.len() == 0 ==> h@ == "L = space"@,
    {
        let mut h: BoundedString<30> = BoundedString::new();
        let cands = kb.candidates();
        proof {
            reveal_strlit("~ ");
            reveal_strlit("L = space");
            assert(utf8_len(Seq::<char>::empty()) == 0) by {
                assert(vstd::utf8::encode_utf8(Seq::<char>::empty()) =~= Seq::<u8>::empty());
            }
            crate::text::lemma_utf8_len_ascii("~ "@);
            crate::text::lemma_utf8_len_ascii("L = space"@);
        }
        if cands.len() > 0 {
            let top = &cands[0];
            let n = top.len();
            proof {
                assert(top@ == kb@.cands[0]);
                lemma_utf8_len_concat("~ "@, top@);
                assert(Seq::<char>::empty() + "~ "@ =~= "~ "@);
            }
            let _ = h.push_str("~ ");
            let _ = h.push_str(top.as_str());
        } else {
            proof {
                assert(Seq::<char>::empty() + "L = space"@ =~= "L = space"@);
            }
            let _ = h.push_str("L = space");
        }
        h
    }
}

/// What the guidance zone shows.
#[derive(Clone, Copy, Debug, PartialEq, Eq)]
pub enum Guide {
    /// The action layer's labels, after `Hold(L)`.
    Actions,
    /// The letters of the chosen group, laid out like the left pad.
    Letters(&'static str),
    /// The suggestion line and the group map.
    Compose,
}

impl Ui {
    /// What the guidance zone shows for `kb`: the action layer when armed,
    /// else the chosen group's letters while picking one, else the compose
    /// guide.
    pub fn guide(kb: &Keyboard) -> (g: Guide)
        ensures
            kb@.armed ==> g == Guide::Actions,
            !kb@.armed && kb@.group is Some ==> (g matches Guide::Letters(s) && s@
                == crate::layout::group_letters(kb@.group->0)),
            !kb@.armed && kb@.group is None ==> g == Guide::Compose,
    {
        if kb.action_armed() {
            return Guide::Actions;
        }
        match kb.active_group() {
            Some(letters) => Guide::Letters(letters),
            None => Guide::Compose,
        }
    }
}

} // verus!
