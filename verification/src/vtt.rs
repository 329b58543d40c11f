use vstd::prelude::*;

use crate::text::{
    is_ws, is_ws_exec, lemma_strs_view_push, lemma_trim_ends, lemma_trim_fixed, str_eq, strs_view,
    trim, trim_spec,
};

verus! {

/// One timed caption unit: an identifier line, a timing-range line, and the
/// displayed text lines, all kept verbatim as parsed.
#[derive(Debug)]
pub struct VttBlock {
    pub _id: String,
    pub timecode: String,
    pub text_lines: Vec<String>,
}

/// An in-memory subtitle file: the timed blocks in playback order.
#[derive(Debug)]
pub struct Vtt {
    pub blocks: Vec<VttBlock>,
}

/// Writing direction used when rendering a document to output lines.
#[derive(Debug, Clone, Copy, PartialEq, Eq, Structural)]
pub enum Direction {
    Ltr,
    Rtl,
}

impl Default for Vtt {
    /// An empty document.
    fn default() -> (r: Vtt)
        ensures
            r.blocks@.len() == 0,
    {
        Vtt { blocks: Vec::new() }
    }
}

/// The text lines of a sequence of blocks: for each block, the view of each
/// of its lines.
pub open spec fn lines_view(blocks: Seq<VttBlock>) -> Seq<Seq<Seq<char>>> {
    blocks.map(|i: int, b: VttBlock| strs_view(b.text_lines@))
}

} // verus!

verus! {

/// A line consisting only of whitespace (or of nothing).
pub open spec fn is_blank_spec(s: Seq<char>) -> bool {
    forall|i: int| 0 <= i < s.len() ==> is_ws(s[i])
}

/// Whether `s` is treated as whitespace-only; matches `is_blank_spec`.
pub fn is_blank(line: &str) -> (r: bool)
    ensures
        r == is_blank_spec(line@),
{
    let len = line.unicode_len();
    let mut i: usize = 0;
    while i < len
        invariant
            i <= len,
            len == line@.len(),
            forall|q: int| 0 <= q < i ==> is_ws(line@[q]),
        decreases len - i,
    {
        if !is_ws_exec(line.get_char(i)) {
            return false;
        }
        i = i + 1;
    }
    true
}

pub open spec fn is_hex(c: char) -> bool {
    ('0' <= c && c <= '9') || ('a' <= c && c <= 'f') || ('A' <= c && c <= 'F')
}

/// What the character at position `q` of a block-identifier line must be:
/// a separating dash at positions 8, 13, 18 and 23, a hexadecimal digit
/// everywhere else.
pub open spec fn id_char_ok(s: Seq<char>, q: int) -> bool {
    if q == 8 || q == 13 || q == 18 || q == 23 {
        s[q] == '-'
    } else {
        is_hex(s[q])
    }
}

/// A line that starts a new block: it begins with an 8-4-4-4-12 token of
/// hexadecimal digit groups separated by dashes; anything may follow.
pub open spec fn is_block_id_spec(s: Seq<char>) -> bool {
    s.len() >= 36 && forall|q: int| 0 <= q < 36 ==> id_char_ok(s, q)
}

pub fn is_hex_exec(c: char) -> (r: bool)
    ensures
        r == is_hex(c),
{
    ('0' <= c && c <= '9') || ('a' <= c && c <= 'f') || ('A' <= c && c <= 'F')
}

/// Whether `line` starts a new block; matches `is_block_id_spec`.
pub fn is_new_block(line: &str) -> (r: bool)
    ensures
        r == is_block_id_spec(line@),
{
    let len = line.unicode_len();
    if len < 36 {
        return false;
    }
    let mut i: usize = 0;
    while i < 36
        invariant
            i <= 36,
            len == line@.len(),
            len >= 36,
            forall|q: int| 0 <= q < i ==> id_char_ok(line@, q),
        decreases 36 - i,
    {
        let c = line.get_char(i);
        let ok = if i == 8 || i == 13 || i == 18 || i == 23 {
            c == '-'
        } else {
            is_hex_exec(c)
        };
        if !ok {
            proof {
                assert(!id_char_ok(line@, i as int));
            }
            return false;
        }
        i = i + 1;
    }
    true
}

/// The arrow token of a timing line stands at position `i`.
pub open spec fn arrow_at(s: Seq<char>, i: int) -> bool {
    0 <= i && i + 3 <= s.len() && s[i] == '-' && s[i + 1] == '-' && s[i + 2] == '>'
}

/// A timing line: it contains the arrow token somewhere.
pub open spec fn is_timecode_spec(s: Seq<char>) -> bool {
    exists|i: int| arrow_at(s, i)
}

/// Whether `line` is a timing line; matches `is_timecode_spec`.
pub fn is_timecode(line: &str) -> (r: bool)
    ensures
        r == is_timecode_spec(line@),
{
    let len = line.unicode_len();
    if len < 3 {
        return false;
    }
    let mut i: usize = 0;
    while i <= len - 3
        invariant
            len == line@.len(),
            len >= 3,
            0 <= i <= len - 2,
            forall|q: int| 0 <= q < i ==> !arrow_at(line@, q),
        decreases len - i,
    {
        if line.get_char(i) == '-' && line.get_char(i + 1) == '-' && line.get_char(i + 2) == '>' {
            assert(arrow_at(line@, i as int));
            return true;
        }
        i = i + 1;
    }
    proof {
        assert(forall|q: int| arrow_at(line@, q) ==> 0 <= q < i);
    }
    false
}

} // verus!

verus! {

/// Mathematical model of one block.
#[verifier::ext_equal]
pub struct SpecBlock {
    pub id: Seq<char>,
    pub tc: Seq<char>,
    pub lines: Seq<Seq<char>>,
}

pub open spec fn block_view(b: VttBlock) -> SpecBlock {
    SpecBlock { id: b._id@, tc: b.timecode@, lines: strs_view(b.text_lines@) }
}

pub open spec fn blocks_view(bs: Seq<VttBlock>) -> Seq<SpecBlock> {
    bs.map(|i: int, b: VttBlock| block_view(b))
}

/// Parsing state: the blocks already flushed and the block still being read.
#[verifier::ext_equal]
pub struct ParseState {
    pub done: Seq<SpecBlock>,
    pub cur: Option<SpecBlock>,
}

/// The literal header line of a subtitle file.
pub open spec fn header_spec() -> Seq<char> {
    "WEBVTT"@
}

/// Read one line: blank lines and the header are ignored; a block-identifier
/// line flushes the block being read and starts a new one; a timing line
/// fills the current block's timing; any other line is appended, trimmed, to
/// the current block's text. Timing and text lines before the first
/// block-identifier line are dropped.
pub open spec fn parse_step(st: ParseState, line: Seq<char>) -> ParseState {
    if is_blank_spec(line) || line == header_spec() {
        st
    } else if is_block_id_spec(line) {
        ParseState {
            done: match st.cur {
                Option::Some(c) => st.done.push(c),
                Option::None => st.done,
            },
            cur: Option::Some(SpecBlock { id: line, tc: Seq::empty(), lines: Seq::empty() }),
        }
    } else if is_timecode_spec(line) {
        match st.cur {
            Option::Some(c) => ParseState {
                done: st.done,
                cur: Option::Some(SpecBlock { id: c.id, tc: line, lines: c.lines }),
            },
            Option::None => st,
        }
    } else {
        match st.cur {
            Option::Some(c) => ParseState {
                done: st.done,
                cur: Option::Some(
                    SpecBlock { id: c.id, tc: c.tc, lines: c.lines.push(trim_spec(line)) },
                ),
            },
            Option::None => st,
        }
    }
}

/// Parsing state after the first `n` input lines.
pub open spec fn parse_fold(lines: Seq<Seq<char>>, n: int, st: ParseState) -> ParseState
    decreases n,
{
    if n <= 0 {
        st
    } else {
        parse_step(parse_fold(lines, n - 1, st), lines[n - 1])
    }
}

pub open spec fn empty_parse() -> ParseState {
    ParseState { done: Seq::empty(), cur: Option::None }
}

/// The blocks parsed from the lines of a subtitle file; the block still in
/// progress at end of input is flushed.
pub open spec fn parse_spec(lines: Seq<Seq<char>>) -> Seq<SpecBlock> {
    let st = parse_fold(lines, lines.len() as int, empty_parse());
    match st.cur {
        Option::Some(c) => st.done.push(c),
        Option::None => st.done,
    }
}

pub open spec fn pstate_of(
    blocks: Seq<VttBlock>,
    has_cur: bool,
    id: Seq<char>,
    tc: Seq<char>,
    ls: Seq<Seq<char>>,
) -> ParseState {
    ParseState {
        done: blocks_view(blocks),
        cur: if has_cur {
            Option::Some(SpecBlock { id: id, tc: tc, lines: ls })
        } else {
            Option::None
        },
    }
}

proof fn lemma_blocks_view_push(bs: Seq<VttBlock>, b: VttBlock)
    ensures
        blocks_view(bs.push(b)) == blocks_view(bs).push(block_view(b)),
{
    assert(blocks_view(bs.push(b)) =~= blocks_view(bs).push(block_view(b)));
}

impl Vtt {
    /// Build the document from the lines of a subtitle file, as `parse_spec`
    /// describes.
    pub fn parse(lines: &Vec<String>) -> (r: Vtt)
        ensures
            blocks_view(r.blocks@) == parse_spec(strs_view(lines@)),
    {
        let ghost lv = strs_view(lines@);
        let mut blocks: Vec<VttBlock> = Vec::new();
        let mut has_cur = false;
        let mut cur_id = String::new();
        let mut cur_tc = String::new();
        let mut cur_lines: Vec<String> = Vec::new();
        proof {
            assert(pstate_of(blocks@, has_cur, cur_id@, cur_tc@, strs_view(cur_lines@))
                =~~= empty_parse());
        }
        let mut i: usize = 0;
        while i < lines.len()
            invariant
                i <= lines@.len(),
                lv == strs_view(lines@),
                lv.len() == lines@.len(),
                pstate_of(blocks@, has_cur, cur_id@, cur_tc@, strs_view(cur_lines@)) == parse_fold(
                    lv,
                    i as int,
                    empty_parse(),
                ),
            decreases lines@.len() - i,
        {
            let ghost st_prev = pstate_of(blocks@, has_cur, cur_id@, cur_tc@, strs_view(cur_lines@));
            let line = &lines[i];
            proof {
                assert(lv[i as int] == line@);
            }
            if is_blank(line.as_str()) || str_eq(line.as_str(), "WEBVTT") {
            } else if is_new_block(line.as_str()) {
                if has_cur {
                    let ghost ob = blocks@;
                    let flushed = VttBlock { _id: cur_id, timecode: cur_tc, text_lines: cur_lines };
                    proof {
                        lemma_blocks_view_push(ob, flushed);
                    }
                    blocks.push(flushed);
                }
                has_cur = true;
                cur_id = line.clone();
                cur_tc = String::new();
                cur_lines = Vec::new();
                proof {
                    assert(strs_view(cur_lines@) =~= Seq::<Seq<char>>::empty());
                    assert(pstate_of(blocks@, has_cur, cur_id@, cur_tc@, strs_view(cur_lines@))
                        =~~= parse_step(st_prev, lv[i as int]));
                }
            } else if is_timecode(line.as_str()) {
                if has_cur {
                    cur_tc = line.clone();
                }
                proof {
                    assert(pstate_of(blocks@, has_cur, cur_id@, cur_tc@, strs_view(cur_lines@))
                        =~~= parse_step(st_prev, lv[i as int]));
                }
            } else {
                if has_cur {
                    let ghost ol = cur_lines@;
                    let t = String::from_str(trim(line.as_str()));
                    proof {
                        lemma_strs_view_push(ol, t);
                    }
                    cur_lines.push(t);
                }
                proof {
                    assert(pstate_of(blocks@, has_cur, cur_id@, cur_tc@, strs_view(cur_lines@))
                        =~~= parse_step(st_prev, lv[i as int]));
                }
            }
            i = i + 1;
        }
        if has_cur {
            let ghost ob = blocks@;
            let flushed = VttBlock { _id: cur_id, timecode: cur_tc, text_lines: cur_lines };
            proof {
                lemma_blocks_view_push(ob, flushed);
            }
            blocks.push(flushed);
        }
        Vtt { blocks }
    }
}

} // verus!

verus! {

/// An ASCII character (the embedded left-to-right tokens the marks anchor).
pub open spec fn is_ascii_char(c: char) -> bool {
    c as u32 <= 127
}

/// The right-to-left mark placed at line edges.
pub open spec fn rtl_mark() -> char {
    '\u{200f}'
}

/// One text line as written for direction `dir`: the line is trimmed; for
/// right-to-left output a non-empty line gets a leading right-to-left mark if
/// its first character is ASCII, and a trailing one if its last character is
/// ASCII; left-to-right lines pass through (trimmed) unchanged.
pub open spec fn mark_line(line: Seq<char>, dir: Direction) -> Seq<char> {
    let t = trim_spec(line);
    if dir == Direction::Rtl && t.len() > 0 {
        let pre: Seq<char> = if is_ascii_char(t[0]) {
            seq![rtl_mark()]
        } else {
            Seq::empty()
        };
        let post: Seq<char> = if is_ascii_char(t.last()) {
            seq![rtl_mark()]
        } else {
            Seq::empty()
        };
        pre + t + post
    } else {
        t
    }
}

/// The written lines of the first `n` blocks, after the header and its blank
/// line: for each block its identifier line, its timing line, its text lines
/// (trimmed and direction-marked), and a trailing blank line.
pub open spec fn marked_upto(lines: Seq<Seq<char>>, n: int, dir: Direction) -> Seq<Seq<char>>
    decreases n,
{
    if n <= 0 {
        Seq::empty()
    } else {
        marked_upto(lines, n - 1, dir).push(mark_line(lines[n - 1], dir))
    }
}

pub open spec fn render_block(b: SpecBlock, dir: Direction) -> Seq<Seq<char>> {
    seq![b.id, b.tc] + marked_upto(b.lines, b.lines.len() as int, dir) + seq![
        Seq::<char>::empty(),
    ]
}

pub open spec fn render_upto(blocks: Seq<SpecBlock>, n: int, dir: Direction) -> Seq<Seq<char>>
    decreases n,
{
    if n <= 0 {
        seq![header_spec(), Seq::<char>::empty()]
    } else {
        render_upto(blocks, n - 1, dir) + render_block(blocks[n - 1], dir)
    }
}

/// The lines of the written subtitle file.
pub open spec fn render_spec(blocks: Seq<SpecBlock>, dir: Direction) -> Seq<Seq<char>> {
    render_upto(blocks, blocks.len() as int, dir)
}

/// Process one text line for writing, as `mark_line` describes.
pub fn write_line(line: &str, direction: Direction) -> (r: String)
    ensures
        r@ == mark_line(line@, direction),
{
    let t = trim(line);
    let tn = t.unicode_len();
    let mut out = String::new();
    if direction == Direction::Rtl && tn > 0 {
        proof {
            reveal_strlit("\u{200f}");
            assert("\u{200f}"@ =~= seq![rtl_mark()]);
        }
        if (t.get_char(0) as u32) <= 127 {
            out.append("\u{200f}");
        }
        out.append(t);
        if (t.get_char(tn - 1) as u32) <= 127 {
            out.append("\u{200f}");
        }
        proof {
            assert(out@ =~= mark_line(line@, direction));
        }
    } else {
        out.append(t);
        proof {
            assert(out@ =~= mark_line(line@, direction));
        }
    }
    out
}

impl Vtt {
    /// The lines of the subtitle file for this document, as `render_spec`
    /// describes: the header, a blank line, then each block in order.
    pub fn write(&self, direction: Direction) -> (r: Vec<String>)
        ensures
            strs_view(r@) == render_spec(blocks_view(self.blocks@), direction),
    {
        let ghost bv = blocks_view(self.blocks@);
        let mut out: Vec<String> = Vec::new();
        let header = String::from_str("WEBVTT");
        proof {
            lemma_strs_view_push(out@, header);
        }
        out.push(header);
        let blank = String::new();
        proof {
            lemma_strs_view_push(out@, blank);
        }
        out.push(blank);
        proof {
            assert(strs_view(out@) =~= render_upto(bv, 0, direction));
        }
        let mut b: usize = 0;
        while b < self.blocks.len()
            invariant
                b <= self.blocks@.len(),
                bv == blocks_view(self.blocks@),
                bv.len() == self.blocks@.len(),
                strs_view(out@) == render_upto(bv, b as int, direction),
            decreases self.blocks@.len() - b,
        {
            let ghost base = strs_view(out@);
            proof {
                assert(bv[b as int] == block_view(self.blocks@[b as int]));
            }
            let id = self.blocks[b]._id.clone();
            proof {
                lemma_strs_view_push(out@, id);
            }
            out.push(id);
            let tc = self.blocks[b].timecode.clone();
            proof {
                lemma_strs_view_push(out@, tc);
            }
            out.push(tc);
            let nl = self.blocks[b].text_lines.len();
            let mut l: usize = 0;
            while l < nl
                invariant
                    l <= nl,
                    b < self.blocks@.len(),
                    bv == blocks_view(self.blocks@),
                    bv.len() == self.blocks@.len(),
                    bv[b as int] == block_view(self.blocks@[b as int]),
                    nl == self.blocks@[b as int].text_lines@.len(),
                    nl == bv[b as int].lines.len(),
                    strs_view(out@) == base + seq![bv[b as int].id, bv[b as int].tc]
                        + marked_upto(bv[b as int].lines, l as int, direction),
                decreases nl - l,
            {
                let marked = write_line(self.blocks[b].text_lines[l].as_str(), direction);
                proof {
                    assert(bv[b as int].lines[l as int] == self.blocks@[b as int].text_lines@[
                        l as int
                    ]@);
                    lemma_strs_view_push(out@, marked);
                    assert(strs_view(out@).push(marked@) =~= base + seq![
                        bv[b as int].id,
                        bv[b as int].tc,
                    ] + marked_upto(bv[b as int].lines, l + 1, direction));
                }
                out.push(marked);
                l = l + 1;
            }
            let sep = String::new();
            proof {
                lemma_strs_view_push(out@, sep);
            }
            out.push(sep);
            proof {
                assert(strs_view(out@) =~= render_upto(bv, b + 1, direction));
            }
            b = b + 1;
        }
        out
    }
}

/// Direction idempotence: applying the right-to-left post-processor to a
/// line it has already processed changes nothing; the single mark added at
/// an edge whose character is ASCII is never doubled.
pub proof fn lemma_rtl_idempotent(line: Seq<char>)
    ensures
        mark_line(mark_line(line, Direction::Rtl), Direction::Rtl) == mark_line(
            line,
            Direction::Rtl,
        ),
{
    let t = trim_spec(line);
    let m = mark_line(line, Direction::Rtl);
    lemma_trim_ends(line);
    if t.len() == 0 {
        assert(m == t);
        assert(trim_spec(m) =~= m);
        assert(mark_line(m, Direction::Rtl) =~= m);
    } else {
        assert(!is_ws(rtl_mark()));
        assert(m.len() > 0);
        assert(!is_ws(m[0]) && !is_ws(m.last()));
        lemma_trim_fixed(m);
        assert(!is_ascii_char(m[0]));
        assert(!is_ascii_char(m.last()));
        assert(mark_line(m, Direction::Rtl) =~= m);
    }
}

} // verus!

verus! {

/// A displayed text line of a well-formed document: non-blank, already
/// trimmed, and not mistakable for the header, a block identifier or a
/// timing line.
pub open spec fn wf_text_line(l: Seq<char>) -> bool {
    &&& !is_blank_spec(l)
    &&& l != header_spec()
    &&& !is_block_id_spec(l)
    &&& !is_timecode_spec(l)
    &&& trim_spec(l) == l
}

/// A well-formed block: its identifier line is a block identifier, its
/// timing line is a timing line and nothing stronger, and every text line is
/// a plain trimmed text line.
pub open spec fn wf_block(b: SpecBlock) -> bool {
    &&& is_block_id_spec(b.id)
    &&& !is_blank_spec(b.tc)
    &&& b.tc != header_spec()
    &&& !is_block_id_spec(b.tc)
    &&& is_timecode_spec(b.tc)
    &&& forall|j: int| 0 <= j < b.lines.len() ==> wf_text_line(#[trigger] b.lines[j])
}

pub open spec fn wf_doc(blocks: Seq<SpecBlock>) -> bool {
    forall|i: int| 0 <= i < blocks.len() ==> wf_block(#[trigger] blocks[i])
}

proof fn lemma_parse_fold_take(l1: Seq<Seq<char>>, l2: Seq<Seq<char>>, n: int, st: ParseState)
    requires
        0 <= n <= l1.len(),
    ensures
        parse_fold(l1 + l2, n, st) == parse_fold(l1, n, st),
    decreases n,
{
    if n > 0 {
        lemma_parse_fold_take(l1, l2, n - 1, st);
        assert((l1 + l2)[n - 1] == l1[n - 1]);
    }
}

proof fn lemma_parse_fold_split(l1: Seq<Seq<char>>, l2: Seq<Seq<char>>, k: int, st: ParseState)
    requires
        0 <= k <= l2.len(),
    ensures
        parse_fold(l1 + l2, l1.len() + k, st) == parse_fold(
            l2,
            k,
            parse_fold(l1 + l2, l1.len() as int, st),
        ),
    decreases k,
{
    if k > 0 {
        lemma_parse_fold_split(l1, l2, k - 1, st);
        assert((l1 + l2)[l1.len() + k - 1] == l2[k - 1]);
    }
}

/// Parsing the rendered lines of two pieces in sequence parses the first,
/// then the second from the state it left.
proof fn lemma_parse_fold_concat(l1: Seq<Seq<char>>, l2: Seq<Seq<char>>, st: ParseState)
    ensures
        parse_fold(l1 + l2, (l1 + l2).len() as int, st) == parse_fold(
            l2,
            l2.len() as int,
            parse_fold(l1, l1.len() as int, st),
        ),
{
    lemma_parse_fold_split(l1, l2, l2.len() as int, st);
    lemma_parse_fold_take(l1, l2, l1.len() as int, st);
}

/// With left-to-right direction, a well-formed text line is written as
/// itself.
proof fn lemma_marked_ltr(lines: Seq<Seq<char>>, n: int)
    requires
        0 <= n <= lines.len(),
        forall|j: int| 0 <= j < lines.len() ==> wf_text_line(#[trigger] lines[j]),
    ensures
        marked_upto(lines, n, Direction::Ltr) == lines.take(n),
    decreases n,
{
    if n > 0 {
        lemma_marked_ltr(lines, n - 1);
        assert(mark_line(lines[n - 1], Direction::Ltr) == lines[n - 1]);
        assert(marked_upto(lines, n, Direction::Ltr) =~= lines.take(n));
    } else {
        assert(marked_upto(lines, n, Direction::Ltr) =~= lines.take(n));
    }
}

/// Well-formed text lines all land, trimmed (that is, unchanged), in the
/// block being read.
proof fn lemma_parse_text_lines(lines: Seq<Seq<char>>, n: int, done: Seq<SpecBlock>, c: SpecBlock)
    requires
        0 <= n <= lines.len(),
        forall|j: int| 0 <= j < lines.len() ==> wf_text_line(#[trigger] lines[j]),
    ensures
        parse_fold(lines.take(n), n, ParseState { done: done, cur: Option::Some(c) })
            == (ParseState {
            done: done,
            cur: Option::Some(
                SpecBlock { id: c.id, tc: c.tc, lines: c.lines + lines.take(n) },
            ),
        }),
    decreases n,
{
    if n <= 0 {
        assert(parse_fold(lines.take(n), n, ParseState { done: done, cur: Option::Some(c) })
            =~~= (ParseState {
            done: done,
            cur: Option::Some(SpecBlock { id: c.id, tc: c.tc, lines: c.lines + lines.take(n) }),
        }));
    } else {
        lemma_parse_text_lines(lines, n - 1, done, c);
        assert(lines.take(n).take(n - 1) =~= lines.take(n - 1));
        lemma_parse_fold_take(lines.take(n - 1), seq![lines[n - 1]], n - 1, ParseState {
            done: done,
            cur: Option::Some(c),
        });
        assert(lines.take(n - 1) + seq![lines[n - 1]] =~= lines.take(n));
        assert(lines.take(n)[n - 1] == lines[n - 1]);
        assert(wf_text_line(lines[n - 1]));
        assert((c.lines + lines.take(n - 1)).push(lines[n - 1]) =~= c.lines + lines.take(n));
        assert(parse_fold(lines.take(n), n, ParseState { done: done, cur: Option::Some(c) })
            =~~= (ParseState {
            done: done,
            cur: Option::Some(SpecBlock { id: c.id, tc: c.tc, lines: c.lines + lines.take(n) }),
        }));
    }
}

/// The flush a block-identifier line or the end of input performs.
pub open spec fn flush(st: ParseState) -> Seq<SpecBlock> {
    match st.cur {
        Option::Some(c) => st.done.push(c),
        Option::None => st.done,
    }
}

/// Parsing the rendered lines of one well-formed block flushes the block
/// being read and leaves exactly that block being read.
proof fn lemma_parse_block(b: SpecBlock, st: ParseState)
    requires
        wf_block(b),
    ensures
        parse_fold(render_block(b, Direction::Ltr), render_block(b, Direction::Ltr).len() as int, st)
            == (ParseState { done: flush(st), cur: Option::Some(b) }),
{
    let marked = marked_upto(b.lines, b.lines.len() as int, Direction::Ltr);
    lemma_marked_ltr(b.lines, b.lines.len() as int);
    assert(b.lines.take(b.lines.len() as int) =~= b.lines);
    // The identifier line is never blank (its first character is a hex
    // digit) and never the header (the header is shorter than the token).
    assert(id_char_ok(b.id, 0));
    assert(!is_ws(b.id[0]));
    assert(!is_blank_spec(b.id));
    reveal_strlit("WEBVTT");
    assert(header_spec().len() == 6);
    assert(b.id != header_spec());
    let st1 = parse_step(st, b.id);
    assert(st1 == (ParseState {
        done: flush(st),
        cur: Option::Some(SpecBlock { id: b.id, tc: Seq::empty(), lines: Seq::empty() }),
    }));
    let st2 = parse_step(st1, b.tc);
    assert(st2 == (ParseState {
        done: flush(st),
        cur: Option::Some(SpecBlock { id: b.id, tc: b.tc, lines: Seq::empty() }),
    }));
    let head: Seq<Seq<char>> = seq![b.id, b.tc];
    assert(parse_fold(head, 0, st) == st);
    assert(head[0] == b.id);
    assert(parse_fold(head, 1, st) == parse_step(st, b.id));
    assert(head[1] == b.tc);
    assert(parse_fold(head, 2, st) == parse_step(parse_fold(head, 1, st), b.tc));
    assert(parse_fold(head, 2, st) == st2);
    let body = head + marked;
    lemma_parse_fold_concat(head, marked, st);
    lemma_parse_text_lines(b.lines, b.lines.len() as int, flush(st), SpecBlock {
        id: b.id,
        tc: b.tc,
        lines: Seq::empty(),
    });
    assert(Seq::<Seq<char>>::empty() + b.lines =~= b.lines);
    assert(parse_fold(body, body.len() as int, st) == (ParseState {
        done: flush(st),
        cur: Option::Some(b),
    })) by {
        assert(marked == b.lines);
        assert(parse_fold(marked, marked.len() as int, st2) == (ParseState {
            done: flush(st),
            cur: Option::Some(SpecBlock { id: b.id, tc: b.tc, lines: Seq::empty() + b.lines }),
        }));
        assert(SpecBlock { id: b.id, tc: b.tc, lines: Seq::empty() + b.lines } =~~= b);
    }
    let tail: Seq<Seq<char>> = seq![Seq::<char>::empty()];
    lemma_parse_fold_concat(body, tail, st);
    assert(body + tail =~= render_block(b, Direction::Ltr));
    assert(is_blank_spec(tail[0]));
    let stb = parse_fold(body, body.len() as int, st);
    assert(parse_fold(tail, 0, stb) == stb);
    assert(parse_fold(tail, 1, stb) == parse_step(stb, tail[0]));
    assert(parse_step(stb, tail[0]) == stb);
}

proof fn lemma_parse_render_upto(blocks: Seq<SpecBlock>, n: int)
    requires
        wf_doc(blocks),
        0 <= n <= blocks.len(),
    ensures
        n == 0 ==> parse_fold(
            render_upto(blocks, n, Direction::Ltr),
            render_upto(blocks, n, Direction::Ltr).len() as int,
            empty_parse(),
        ) == empty_parse(),
        n > 0 ==> parse_fold(
            render_upto(blocks, n, Direction::Ltr),
            render_upto(blocks, n, Direction::Ltr).len() as int,
            empty_parse(),
        ) == (ParseState { done: blocks.take(n - 1), cur: Option::Some(blocks[n - 1]) }),
    decreases n,
{
    if n == 0 {
        reveal_strlit("WEBVTT");
        let lines = render_upto(blocks, 0, Direction::Ltr);
        assert(lines[0] == header_spec());
        assert(is_blank_spec(lines[1]));
        assert(parse_fold(lines, 0, empty_parse()) == empty_parse());
        assert(parse_fold(lines, 1, empty_parse()) == parse_step(empty_parse(), lines[0]));
        assert(parse_step(empty_parse(), lines[0]) == empty_parse());
        assert(parse_fold(lines, 2, empty_parse()) == parse_step(
            parse_fold(lines, 1, empty_parse()),
            lines[1],
        ));
        assert(parse_fold(lines, 2, empty_parse()) == empty_parse());
    } else {
        lemma_parse_render_upto(blocks, n - 1);
        let prev = render_upto(blocks, n - 1, Direction::Ltr);
        let blk = render_block(blocks[n - 1], Direction::Ltr);
        let st_prev = parse_fold(prev, prev.len() as int, empty_parse());
        lemma_parse_fold_concat(prev, blk, empty_parse());
        lemma_parse_block(blocks[n - 1], st_prev);
        if n == 1 {
            assert(flush(st_prev) =~= blocks.take(0));
        } else {
            assert(flush(st_prev) =~= blocks.take(n - 2).push(blocks[n - 2]));
            assert(blocks.take(n - 2).push(blocks[n - 2]) =~= blocks.take(n - 1));
        }
    }
}

/// Round-trip stability: writing a well-formed document with left-to-right
/// direction and parsing the written lines reproduces the same blocks, the
/// same timing lines and the same (trimmed) text lines.
pub proof fn lemma_round_trip(blocks: Seq<SpecBlock>)
    requires
        wf_doc(blocks),
    ensures
        parse_spec(render_spec(blocks, Direction::Ltr)) == blocks,
{
    lemma_parse_render_upto(blocks, blocks.len() as int);
    if blocks.len() == 0 {
        assert(parse_spec(render_spec(blocks, Direction::Ltr)) =~= blocks);
    } else {
        let st = parse_fold(
            render_spec(blocks, Direction::Ltr),
            render_spec(blocks, Direction::Ltr).len() as int,
            empty_parse(),
        );
        assert(st.done.push(blocks[blocks.len() - 1]) =~= blocks);
    }
}

} // verus!
