//! The top-level blocks of a single-file component.

use crate::case;
use crate::hash;
use crate::pieces;
use crate::tags;
use crate::text;
use vstd::prelude::*;

verus! {

broadcast use vstd::string::group_string_axioms;

/// A top-level block. Lines are counted from zero.
pub struct SfcBlock {
    /// `template_block`, `script_block`, `style_block` or `custom_block`.
    pub node_type: &'static str,
    /// The tag, with its markers unless the block is a custom one, such as
    /// `script:setup:ts`.
    pub label: String,
    /// The line of the opening tag.
    pub start_line: u32,
    /// The line of the closing tag.
    pub end_line: u32,
    /// The line after the opening tag.
    pub content_start_line: u32,
    /// The lines between the opening and the closing tag.
    pub content: String,
    /// The hash of `content`.
    pub content_hash: String,
}

/// What a block holds.
#[verifier::ext_equal]
pub struct BlockView {
    pub node_type: Seq<char>,
    pub label: Seq<char>,
    pub start_line: int,
    pub end_line: int,
    pub content_start_line: int,
    pub content: Seq<char>,
    pub content_hash: Seq<char>,
}

impl View for SfcBlock {
    type V = BlockView;

    open spec fn view(&self) -> BlockView {
        BlockView {
            node_type: self.node_type@,
            label: self.label@,
            start_line: self.start_line as int,
            end_line: self.end_line as int,
            content_start_line: self.content_start_line as int,
            content: self.content@,
            content_hash: self.content_hash@,
        }
    }
}

impl DeepView for SfcBlock {
    type V = BlockView;

    open spec fn deep_view(&self) -> BlockView {
        self@
    }
}

/// The kind of block that a tag opens.
pub open spec fn block_type(tag: Seq<char>) -> Seq<char> {
    if tag == "template"@ {
        "template_block"@
    } else if tag == "script"@ {
        "script_block"@
    } else if tag == "style"@ {
        "style_block"@
    } else {
        "custom_block"@
    }
}

/// The label of the block that a tag opens: the tag name for a custom block, and
/// else the tag with its markers.
pub open spec fn block_label(tag: Seq<char>, attrs: Seq<char>) -> Seq<char> {
    if block_type(tag) == "custom_block"@ {
        tag
    } else {
        tags::label_text(tag, attrs)
    }
}

/// How often a line opens a tag of the name `tag`.
pub open spec fn opens(line: Seq<char>, tag: Seq<char>) -> nat {
    text::occurrences(line, "<"@ + tag)
}

/// How often a line closes a tag of the name `tag`.
pub open spec fn closes(line: Seq<char>, tag: Seq<char>) -> nat {
    text::occurrences(line, "</"@ + tag + ">"@)
}

/// The nesting depth after line `j` of a block that opens in line `start`. The
/// opening tag itself counts one, whether or not its line is found to open the
/// tag in lower case.
pub open spec fn depth_after(lines: Seq<Seq<char>>, tag: Seq<char>, start: int, j: int) -> int
    decreases j - start,
{
    if j <= start {
        let first = opens(lines[start], tag) as int;
        1 + (if first > 0 {
            first - 1
        } else {
            0
        }) - closes(lines[start], tag)
    } else {
        depth_after(lines, tag, start, j - 1) + opens(lines[j], tag) - closes(lines[j], tag)
    }
}

/// The first line from `j` on after which a block that opens in line `start` is
/// no longer open, or the last line where there is none.
pub open spec fn closing_line(lines: Seq<Seq<char>>, tag: Seq<char>, start: int, j: int) -> int
    decreases lines.len() - j,
{
    if j >= lines.len() {
        lines.len() - 1
    } else if depth_after(lines, tag, start, j) <= 0 {
        j
    } else {
        closing_line(lines, tag, start, j + 1)
    }
}

/// The lines strictly between `start` and `end`.
pub open spec fn lines_between(lines: Seq<Seq<char>>, start: int, end: int) -> Seq<Seq<char>> {
    if start + 1 < end {
        lines.subrange(start + 1, end)
    } else {
        seq![]
    }
}

/// The block that the tag in line `start` opens.
pub open spec fn block_at(
    lines: Seq<Seq<char>>,
    start: int,
    tag: Seq<char>,
    attrs: Seq<char>,
) -> BlockView {
    let end = closing_line(lines, tag, start, start);
    let content = pieces::joined(lines_between(lines, start, end), "\n"@);
    BlockView {
        node_type: block_type(tag),
        label: block_label(tag, attrs),
        start_line: start,
        end_line: end,
        content_start_line: start + 1,
        content,
        content_hash: hash::hash_text(content),
    }
}

/// The blocks that open in line `i` or later: the first line that opens a tag
/// opens a block, and the next block is looked for behind its closing line.
pub open spec fn blocks_from(lines: Seq<Seq<char>>, i: int) -> Seq<BlockView>
    decreases lines.len() - i,
{
    if i < 0 || i >= lines.len() {
        seq![]
    } else {
        match tags::opening_tag(lines[i]) {
            Some((tag, attrs)) => {
                let end = closing_line(lines, tag, i, i);
                proof {
                    law_closing_line(lines, tag, i, i);
                }
                seq![block_at(lines, i, tag, attrs)] + blocks_from(lines, end + 1)
            },
            None => blocks_from(lines, i + 1),
        }
    }
}

/// The blocks of a source text.
pub open spec fn source_blocks(source: Seq<char>) -> Seq<BlockView> {
    blocks_from(pieces::line_seq(source), 0)
}

/// A closing line is a line of the text. The block is closed after it, or it is
/// the last line, and the block is open after every line before it.
pub proof fn law_closing_line(lines: Seq<Seq<char>>, tag: Seq<char>, start: int, j: int)
    requires
        0 <= start <= j < lines.len(),
    ensures
        j <= closing_line(lines, tag, start, j) < lines.len(),
        closing_line(lines, tag, start, j) == lines.len() - 1 || depth_after(
            lines,
            tag,
            start,
            closing_line(lines, tag, start, j),
        ) <= 0,
        forall|k: int|
            j <= k < closing_line(lines, tag, start, j) ==> #[trigger] depth_after(
                lines,
                tag,
                start,
                k,
            ) > 0,
    decreases lines.len() - j,
{
    if depth_after(lines, tag, start, j) > 0 {
        if j + 1 < lines.len() {
            law_closing_line(lines, tag, start, j + 1);
        } else {
            assert(closing_line(lines, tag, start, j + 1) == lines.len() - 1);
        }
    }
}

/// Whether a block is the one that line `start_line` opens.
pub open spec fn opened_in(block: BlockView, lines: Seq<Seq<char>>) -> bool {
    &&& 0 <= block.start_line <= block.end_line < lines.len()
    &&& tags::opening_tag(lines[block.start_line]) matches Some(t) && block == block_at(
        lines,
        block.start_line,
        t.0,
        t.1,
    )
}

/// Whether blocks are opened by lines from `i` on, each ending before the next
/// begins.
pub open spec fn in_order(found: Seq<BlockView>, lines: Seq<Seq<char>>, i: int) -> bool {
    &&& forall|k: int|
        0 <= k < found.len() ==> i <= (#[trigger] found[k]).start_line && opened_in(
            found[k],
            lines,
        )
    &&& forall|k: int, m: int|
        0 <= k < m < found.len() ==> (#[trigger] found[k]).end_line < (
        #[trigger] found[m]).start_line
}

/// Whether a line lies in one of the blocks.
pub open spec fn covers(found: Seq<BlockView>, line: int) -> bool {
    exists|k: int|
        0 <= k < found.len() && (#[trigger] found[k]).start_line <= line <= found[k].end_line
}

proof fn lemma_in_order(lines: Seq<Seq<char>>, i: int)
    requires
        0 <= i,
    ensures
        in_order(blocks_from(lines, i), lines, i),
    decreases lines.len() - i,
{
    if i < lines.len() {
        match tags::opening_tag(lines[i]) {
            Some((tag, attrs)) => {
                law_closing_line(lines, tag, i, i);
                let first = block_at(lines, i, tag, attrs);
                let rest = blocks_from(lines, first.end_line + 1);
                lemma_in_order(lines, first.end_line + 1);
                let all = blocks_from(lines, i);
                assert(all == seq![first] + rest);
                assert(all[0] == first);
                assert forall|k: int| 0 <= k < all.len() implies i <= (
                #[trigger] all[k]).start_line && opened_in(all[k], lines) by {
                    if k > 0 {
                        assert(all[k] == rest[k - 1]);
                    }
                }
                assert forall|k: int, m: int| 0 <= k < m < all.len() implies (
                #[trigger] all[k]).end_line < (#[trigger] all[m]).start_line by {
                    assert(all[m] == rest[m - 1]);
                    if k > 0 {
                        assert(all[k] == rest[k - 1]);
                    }
                }
            },
            None => {
                lemma_in_order(lines, i + 1);
            },
        }
    }
}

proof fn lemma_covered(lines: Seq<Seq<char>>, i: int, line: int)
    requires
        0 <= i <= line < lines.len(),
        tags::opening_tag(lines[line]) is Some,
    ensures
        covers(blocks_from(lines, i), line),
    decreases lines.len() - i,
{
    match tags::opening_tag(lines[i]) {
        Some((tag, attrs)) => {
            law_closing_line(lines, tag, i, i);
            let first = block_at(lines, i, tag, attrs);
            let rest = blocks_from(lines, first.end_line + 1);
            let all = blocks_from(lines, i);
            assert(all == seq![first] + rest);
            if line <= first.end_line {
                assert(all[0] == first);
            } else {
                lemma_covered(lines, first.end_line + 1, line);
                let k = choose|k: int|
                    0 <= k < rest.len() && (#[trigger] rest[k]).start_line <= line
                        <= rest[k].end_line;
                assert(all[k + 1] == rest[k]);
            }
        },
        None => {
            lemma_covered(lines, i + 1, line);
        },
    }
}

/// Each block begins in a line that opens a tag, is the block of that tag, and
/// lies within the source.
pub proof fn law_blocks_are_opened(source: Seq<char>, k: int)
    requires
        0 <= k < source_blocks(source).len(),
    ensures
        opened_in(source_blocks(source)[k], pieces::line_seq(source)),
{
    lemma_in_order(pieces::line_seq(source), 0);
}

/// The blocks come in the order of the source, and no two share a line.
pub proof fn law_blocks_in_order(source: Seq<char>, k: int, m: int)
    requires
        0 <= k < m < source_blocks(source).len(),
    ensures
        source_blocks(source)[k].end_line < source_blocks(source)[m].start_line,
{
    lemma_in_order(pieces::line_seq(source), 0);
}

/// Every line that opens a tag lies in a block.
pub proof fn law_tag_lines_are_covered(source: Seq<char>, line: int)
    requires
        0 <= line < pieces::line_seq(source).len(),
        tags::opening_tag(pieces::line_seq(source)[line]) is Some,
    ensures
        covers(source_blocks(source), line),
{
    lemma_covered(pieces::line_seq(source), 0, line);
}

/// The lines of a block's content are the source's lines from
/// `content_start_line` up to the closing line: the last one is left out where
/// it is empty, and the others are without a final carriage return.
pub proof fn law_content_lines(source: Seq<char>, k: int)
    requires
        0 <= k < source_blocks(source).len(),
    ensures
        ({
            let b = source_blocks(source)[k];
            let lines = pieces::line_seq(source);
            let content = pieces::line_seq(b.content);
            &&& b.content_start_line == b.start_line + 1
            &&& b.start_line < b.end_line ==> b.content_start_line + content.len() <= b.end_line
            &&& b.start_line == b.end_line ==> content.len() == 0
            &&& forall|j: int|
                0 <= j < content.len() ==> #[trigger] content[j] == (if b.content_start_line + j
                    == b.end_line - 1 {
                    lines[b.content_start_line + j]
                } else {
                    pieces::without_return(lines[b.content_start_line + j])
                })
            &&& b.content_start_line + content.len() == b.end_line || (b.content_start_line
                + content.len() == b.end_line - 1 && lines[b.end_line - 1].len() == 0)
                || b.content_start_line >= b.end_line
        }),
{
    law_blocks_are_opened(source, k);
    let b = source_blocks(source)[k];
    let lines = pieces::line_seq(source);
    let inner = lines_between(lines, b.start_line, b.end_line);
    pieces::lemma_lines_are_single(source);
    assert forall|i: int| 0 <= i < inner.len() implies pieces::single_line(#[trigger] inner[i]) by {
        assert(inner[i] == lines[b.start_line + 1 + i]);
    }
    pieces::lemma_lines_of_joined(inner);
}

/// A block with its line numbers moved by `n`.
pub open spec fn moved(block: BlockView, n: int) -> BlockView {
    BlockView {
        start_line: block.start_line + n,
        end_line: block.end_line + n,
        content_start_line: block.content_start_line + n,
        ..block
    }
}

/// The depth of a block depends on the lines from its first one on alone.
proof fn lemma_depth_moves(
    lines: Seq<Seq<char>>,
    all: Seq<Seq<char>>,
    n: int,
    tag: Seq<char>,
    start: int,
    j: int,
)
    requires
        0 <= n,
        n + lines.len() <= all.len(),
        all.subrange(n, n + lines.len()) == lines,
        0 <= start <= j < lines.len(),
    ensures
        depth_after(all, tag, n + start, n + j) == depth_after(lines, tag, start, j),
    decreases j - start,
{
    assert(forall|k: int| 0 <= k < lines.len() ==> #[trigger] lines[k] == all[n + k]);
    if start < j {
        lemma_depth_moves(lines, all, n, tag, start, j - 1);
    }
}

/// A line that closes a block or is the last, and before which the block is
/// open, is its closing line.
proof fn lemma_closing_line_is(
    lines: Seq<Seq<char>>,
    tag: Seq<char>,
    start: int,
    j: int,
    end: int,
)
    requires
        0 <= start <= j <= end < lines.len(),
        forall|k: int| j <= k < end ==> #[trigger] depth_after(lines, tag, start, k) > 0,
        end == lines.len() - 1 || depth_after(lines, tag, start, end) <= 0,
    ensures
        closing_line(lines, tag, start, j) == end,
    decreases end - j,
{
    if j < end {
        lemma_closing_line_is(lines, tag, start, j + 1, end);
    } else if depth_after(lines, tag, start, j) > 0 {
        assert(closing_line(lines, tag, start, j + 1) == lines.len() - 1);
    }
}

/// Lines that stand behind `n` others up to the end hold the same blocks, moved
/// by `n`.
proof fn lemma_blocks_move(lines: Seq<Seq<char>>, all: Seq<Seq<char>>, n: int, i: int)
    requires
        0 <= n,
        n + lines.len() == all.len(),
        all.skip(n) == lines,
        0 <= i,
    ensures
        blocks_from(all, n + i) == blocks_from(lines, i).map_values(|b: BlockView| moved(b, n)),
    decreases lines.len() - i,
{
    let f = |b: BlockView| moved(b, n);
    if i >= lines.len() {
        assert(blocks_from(lines, i).map_values(f) =~= blocks_from(all, n + i));
    } else {
        assert(lines[i] == all[n + i]);
        match tags::opening_tag(lines[i]) {
            Some((tag, attrs)) => {
                let end = closing_line(lines, tag, i, i);
                law_closing_line(lines, tag, i, i);
                assert forall|k: int| n + i <= k < n + end implies #[trigger] depth_after(
                    all,
                    tag,
                    n + i,
                    k,
                ) > 0 by {
                    lemma_depth_moves(lines, all, n, tag, i, k - n);
                    assert(depth_after(lines, tag, i, k - n) > 0);
                }
                lemma_depth_moves(lines, all, n, tag, i, end);
                lemma_closing_line_is(all, tag, n + i, n + i, n + end);
                assert(lines_between(lines, i, end) =~= lines_between(all, n + i, n + end));
                let block = block_at(lines, i, tag, attrs);
                assert(block_at(all, n + i, tag, attrs) == moved(block, n));
                lemma_blocks_move(lines, all, n, end + 1);
                assert((seq![block] + blocks_from(lines, end + 1)).map_values(f) =~= seq![
                    moved(block, n),
                ] + blocks_from(lines, end + 1).map_values(f));
            },
            None => {
                lemma_blocks_move(lines, all, n, i + 1);
            },
        }
    }
}

/// Lines that open no tag hold no block.
proof fn lemma_no_blocks(lines: Seq<Seq<char>>, i: int, n: int)
    requires
        0 <= i <= n <= lines.len(),
        forall|k: int| i <= k < n ==> tags::opening_tag(#[trigger] lines[k]) is None,
    ensures
        blocks_from(lines, i) == blocks_from(lines, n),
    decreases n - i,
{
    if i < n {
        lemma_no_blocks(lines, i + 1, n);
    }
}

/// Whole lines in front of a source that open no tag only move the line numbers
/// of its blocks.
pub proof fn law_lines_in_front_move_blocks(front: Seq<char>, source: Seq<char>)
    requires
        pieces::whole_lines(front),
        forall|i: int|
            0 <= i < pieces::line_seq(front).len() ==> tags::opening_tag(
                #[trigger] pieces::line_seq(front)[i],
            ) is None,
    ensures
        source_blocks(front + source) == source_blocks(source).map_values(
            |b: BlockView| moved(b, pieces::line_seq(front).len() as int),
        ),
{
    let before = pieces::line_seq(front);
    let lines = pieces::line_seq(source);
    let all = pieces::line_seq(front + source);
    let n = before.len() as int;
    pieces::lemma_lines_of_concat(front, source);
    assert forall|k: int| 0 <= k < n implies tags::opening_tag(#[trigger] all[k]) is None by {
        assert(all[k] == before[k]);
    }
    lemma_no_blocks(all, 0, n);
    assert(all.skip(n) =~= lines);
    lemma_blocks_move(lines, all, n, 0);
}

/// The lines of a block, read by themselves, are that one block at line zero.
proof fn lemma_block_alone(lines: Seq<Seq<char>>, block: BlockView)
    requires
        opened_in(block, lines),
    ensures
        blocks_from(lines.subrange(block.start_line, block.end_line + 1), 0) == seq![
            moved(block, -block.start_line),
        ],
{
    let start = block.start_line;
    let end = block.end_line;
    let own = lines.subrange(start, end + 1);
    let (tag, attrs) = tags::opening_tag(lines[start])->0;
    law_closing_line(lines, tag, start, start);
    assert(own[0] == lines[start]);
    assert forall|k: int| 0 <= k < end - start implies #[trigger] depth_after(own, tag, 0, k)
        > 0 by {
        lemma_depth_moves(own, lines, start, tag, 0, k);
        assert(depth_after(lines, tag, start, start + k) > 0);
    }
    lemma_closing_line_is(own, tag, 0, 0, end - start);
    assert(lines_between(own, 0, end - start) =~= lines_between(lines, start, end));
    assert(block_at(own, 0, tag, attrs) == moved(block, -start));
    assert(blocks_from(own, end - start + 1) =~= seq![]);
    assert(blocks_from(own, 0) =~= seq![moved(block, -start)]);
}

/// The lines of a block, each followed by a line feed and read by themselves,
/// are that one block at line zero, where none of them ends with a carriage
/// return.
pub proof fn law_block_lines_read_alone(source: Seq<char>, k: int)
    requires
        0 <= k < source_blocks(source).len(),
        forall|i: int|
            source_blocks(source)[k].start_line <= i <= source_blocks(source)[k].end_line
                ==> pieces::without_return(#[trigger] pieces::line_seq(source)[i])
                == pieces::line_seq(source)[i],
    ensures
        ({
            let b = source_blocks(source)[k];
            let own = pieces::line_seq(source).subrange(b.start_line, b.end_line + 1);
            source_blocks(pieces::terminated(own)) == seq![moved(b, -b.start_line)]
        }),
{
    let b = source_blocks(source)[k];
    let lines = pieces::line_seq(source);
    law_blocks_are_opened(source, k);
    let own = lines.subrange(b.start_line, b.end_line + 1);
    pieces::lemma_lines_are_single(source);
    assert forall|i: int| 0 <= i < own.len() implies pieces::single_line(#[trigger] own[i])
        && pieces::without_return(own[i]) == own[i] by {
        assert(own[i] == lines[b.start_line + i]);
    }
    pieces::lemma_lines_of_terminated(own);
    lemma_block_alone(lines, b);
}

/// In a source without carriage returns, the lines of a block, each followed by
/// a line feed and read by themselves, are that one block at line zero.
pub proof fn law_block_reads_alone(source: Seq<char>, k: int)
    requires
        0 <= k < source_blocks(source).len(),
        forall|i: int| 0 <= i < source.len() ==> #[trigger] source[i] != '\r',
    ensures
        ({
            let b = source_blocks(source)[k];
            let own = pieces::line_seq(source).subrange(b.start_line, b.end_line + 1);
            source_blocks(pieces::terminated(own)) == seq![moved(b, -b.start_line)]
        }),
{
    law_blocks_are_opened(source, k);
    pieces::lemma_lines_without_returns(source);
    law_block_lines_read_alone(source, k);
}

/// The kind of block that `tag` opens.
fn node_type_of(tag: &str) -> (r: &'static str)
    ensures
        r@ == block_type(tag@),
{
    if text::same_text(tag, "template") {
        "template_block"
    } else if text::same_text(tag, "script") {
        "script_block"
    } else if text::same_text(tag, "style") {
        "style_block"
    } else {
        "custom_block"
    }
}

/// The line that closes the block which `tag` opens in line `start`.
fn find_closing_line(lines: &Vec<&str>, tag: &str, start: usize) -> (r: usize)
    requires
        start < lines@.len() <= u32::MAX,
    ensures
        r == closing_line(lines.deep_view(), tag@, start as int, start as int),
        start <= r < lines@.len(),
{
    let ghost all = lines.deep_view();
    let mut open_prefix = "<".to_string();
    open_prefix.append(tag);
    let mut close_tag = "</".to_string();
    close_tag.append(tag);
    close_tag.append(">");
    proof {
        reveal_strlit("<");
        reveal_strlit("</");
    }
    assert(all[start as int] == lines@[start as int]@);
    let first = text::count_matches(lines[start], open_prefix.as_str());
    let extra = if first > 0 {
        first - 1
    } else {
        0
    };
    let mut depth: i128 = 1 + extra as i128 - text::count_matches(
        lines[start],
        close_tag.as_str(),
    ) as i128;
    let mut j: usize = start;
    proof {
        law_closing_line(all, tag@, start as int, start as int);
    }
    while depth > 0
        invariant
            all == lines.deep_view(),
            start <= j < lines@.len() <= u32::MAX,
            open_prefix@ == "<"@ + tag@,
            close_tag@ == "</"@ + tag@ + ">"@,
            open_prefix@.len() > 0,
            close_tag@.len() > 0,
            depth == depth_after(all, tag@, start as int, j as int),
            -0x1_0000_0000_0000_0000 * (j - start + 1) <= depth,
            depth <= 1 + 0x1_0000_0000_0000_0000 * (j - start + 1),
            closing_line(all, tag@, start as int, start as int) == closing_line(
                all,
                tag@,
                start as int,
                j as int,
            ),
        decreases lines@.len() - j,
    {
        assert(closing_line(all, tag@, start as int, j as int) == closing_line(
            all,
            tag@,
            start as int,
            j + 1,
        ));
        if j + 1 == lines.len() {
            return j;
        }
        j += 1;
        assert(all[j as int] == lines@[j as int]@);
        let up = text::count_matches(lines[j], open_prefix.as_str());
        let down = text::count_matches(lines[j], close_tag.as_str());
        depth = depth + up as i128 - down as i128;
    }
    j
}

/// The top-level blocks of `source`, in order.
pub fn extract_blocks(source: &str) -> (r: Vec<SfcBlock>)
    requires
        pieces::line_seq(source@).len() <= u32::MAX,
    ensures
        r.deep_view() == source_blocks(source@),
{
    let lines = pieces::lines(source);
    let ghost all = pieces::line_seq(source@);
    let mut blocks: Vec<SfcBlock> = Vec::new();
    let mut i: usize = 0;
    assert(blocks.deep_view() =~= seq![]);
    while i < lines.len()
        invariant
            lines.deep_view() == all,
            all.len() <= u32::MAX,
            i <= lines@.len(),
            blocks_from(all, 0) == blocks.deep_view() + blocks_from(all, i as int),
        decreases lines@.len() - i,
    {
        assert(all[i as int] == lines@[i as int]@);
        match tags::parse_tag_open(lines[i]) {
            Some((tag, attrs)) => {
                let end = find_closing_line(&lines, tag.as_str(), i);
                let from = if i + 1 < end {
                    i + 1
                } else {
                    end
                };
                let content = pieces::join(&lines, from, end, "\n");
                assert(lines_between(all, i as int, end as int) =~= all.subrange(
                    from as int,
                    end as int,
                ));
                let content_hash = hash::content_hash(content.as_str());
                let node_type = node_type_of(tag.as_str());
                let label = if text::same_text(node_type, "custom_block") {
                    tag.clone()
                } else {
                    tags::build_label(tag.as_str(), attrs.as_str())
                };
                let block = SfcBlock {
                    node_type,
                    label,
                    start_line: i as u32,
                    end_line: end as u32,
                    content_start_line: i as u32 + 1,
                    content,
                    content_hash,
                };
                let ghost before = blocks.deep_view();
                assert(block@ == block_at(all, i as int, tag@, attrs@));
                blocks.push(block);
                assert(blocks.deep_view() =~= before + seq![block@]);
                assert(before + blocks_from(all, i as int) =~= blocks.deep_view() + blocks_from(
                    all,
                    end + 1,
                ));
                i = end + 1;
            },
            None => {
                i += 1;
            },
        }
    }
    assert(blocks.deep_view() + blocks_from(all, i as int) =~= blocks.deep_view());
    blocks
}

// ---------------------------------------------------------------------------
// Nesting
// ---------------------------------------------------------------------------

/// How often a pattern is counted in some lines: the sum over the lines.
pub open spec fn total(lines: Seq<Seq<char>>, pattern: Seq<char>) -> int {
    lines.fold_left(
        0int,
        |sum: int, line: Seq<char>| sum + text::occurrences(line, pattern),
    )
}

/// One, where the first line does not show its own opening tag in lower case.
pub open spec fn hidden_opening(line: Seq<char>, tag: Seq<char>) -> int {
    if text::occurrences(line, "<"@ + tag) == 0 {
        1
    } else {
        0
    }
}

/// Whether more tags are opened than closed in some lines of a block: `<` and the
/// tag is counted against `</`, the tag and `>`.
pub open spec fn stays_open(lines: Seq<Seq<char>>, tag: Seq<char>) -> bool {
    total(lines, "<"@ + tag) + hidden_opening(lines[0], tag) > total(lines, "</"@ + tag + ">"@)
}

proof fn lemma_total_push(lines: Seq<Seq<char>>, pattern: Seq<char>)
    requires
        lines.len() > 0,
    ensures
        total(lines, pattern) == total(lines.drop_last(), pattern) + text::occurrences(
            lines.last(),
            pattern,
        ),
        lines.len() == 1 ==> total(lines, pattern) == text::occurrences(lines[0], pattern),
{
    if lines.len() == 1 {
        assert(lines.drop_last() =~= seq![]);
        assert(total(lines.drop_last(), pattern) == 0);
    }
}

proof fn lemma_depth_is_difference(lines: Seq<Seq<char>>, tag: Seq<char>, start: int, j: int)
    requires
        0 <= start <= j < lines.len(),
    ensures
        ({
            let some = lines.subrange(start, j + 1);
            depth_after(lines, tag, start, j) == total(some, "<"@ + tag) + hidden_opening(
                lines[start],
                tag,
            ) - total(some, "</"@ + tag + ">"@)
        }),
    decreases j - start,
{
    let some = lines.subrange(start, j + 1);
    lemma_total_push(some, "<"@ + tag);
    lemma_total_push(some, "</"@ + tag + ">"@);
    assert(some[0] == lines[start]);
    if j > start {
        lemma_depth_is_difference(lines, tag, start, j - 1);
        assert(some.drop_last() =~= lines.subrange(start, j));
        assert(some.last() == lines[j]);
    }
}

/// A block ends in the first line up to which as many tags of its name are closed
/// as opened, counted from its first line, or in the last line of the source
/// where there is none.
pub proof fn law_block_ends_when_closed(source: Seq<char>, k: int)
    requires
        0 <= k < source_blocks(source).len(),
    ensures
        ({
            let b = source_blocks(source)[k];
            let lines = pieces::line_seq(source);
            &&& 0 <= b.start_line <= b.end_line < lines.len()
            &&& tags::opening_tag(lines[b.start_line]) matches Some(t)
            &&& forall|j: int|
                b.start_line < j <= b.end_line ==> stays_open(
                    #[trigger] lines.subrange(b.start_line, j),
                    t.0,
                )
            &&& b.end_line + 1 == lines.len() || !stays_open(
                lines.subrange(b.start_line, b.end_line + 1),
                t.0,
            )
        }),
{
    law_blocks_are_opened(source, k);
    let b = source_blocks(source)[k];
    let lines = pieces::line_seq(source);
    let tag = (tags::opening_tag(lines[b.start_line])->0).0;
    law_closing_line(lines, tag, b.start_line, b.start_line);
    assert forall|j: int| b.start_line < j <= b.end_line implies stays_open(
        #[trigger] lines.subrange(b.start_line, j),
        tag,
    ) by {
        lemma_depth_is_difference(lines, tag, b.start_line, j - 1);
        assert(depth_after(lines, tag, b.start_line, j - 1) > 0);
        assert(lines.subrange(b.start_line, j)[0] == lines[b.start_line]);
    }
    lemma_depth_is_difference(lines, tag, b.start_line, b.end_line);
    assert(lines.subrange(b.start_line, b.end_line + 1)[0] == lines[b.start_line]);
}

/// A line that opens a tag in lower case shows its opening tag, so that the tags
/// opened and closed in a block are counted as they stand.
pub proof fn law_lower_case_opening_shows(pre: Seq<char>, name: Seq<char>, tail: Seq<char>)
    requires
        text::all_in(pre, text::CharSet::Space),
        tags::tag_name(name),
        case::plain_lower(name),
        tail.len() > 0 ==> text::white_space(tail[0]) || tail[0] == '>' || tail[0] == '/',
    ensures
        ({
            let line = pre + ("<"@ + (name + tail));
            &&& tags::opening_tag(line) matches Some(t)
            &&& t.0 == name
            &&& hidden_opening(line, t.0) == 0
        }),
{
    reveal_strlit("<");
    tags::law_opening_parts(pre, name, tail);
    case::law_lower_case_stays(name);
    let p = "<"@ + name;
    assert forall|i: int| 0 <= i < pre.len() implies !text::CharSet::One(p[0]).has(
        #[trigger] pre[i],
    ) by {
        assert(text::CharSet::Space.has(pre[i]));
    }
    assert forall|j: int| 0 <= j < pre.len() implies !text::occurs_at(pre + p, p, j) by {
        assert((pre + p)[j] == pre[j]);
        if text::occurs_at(pre + p, p, j) {
            assert((pre + p).subrange(j, j + p.len())[0] == p[0]);
            assert(!text::CharSet::One(p[0]).has(pre[j]));
        }
    }
    text::law_occurrences_are_counted(pre, p, tail);
    assert(pre + ("<"@ + (name + tail)) =~= pre + p + tail);
}

/// A block has the type and the label of its tag. Its content is the text of the
/// lines strictly between its first and its last line, each but the last of them
/// with its line feed, and its hash is that of the content.
pub proof fn law_block_fields(source: Seq<char>, k: int)
    requires
        0 <= k < source_blocks(source).len(),
    ensures
        ({
            let b = source_blocks(source)[k];
            let lines = pieces::line_seq(source);
            &&& tags::opening_tag(lines[b.start_line]) matches Some(t)
            &&& t.0 == "template"@ ==> b.node_type == "template_block"@ && b.label
                == tags::label_text(t.0, t.1)
            &&& t.0 == "script"@ ==> b.node_type == "script_block"@ && b.label == tags::label_text(
                t.0,
                t.1,
            )
            &&& t.0 == "style"@ ==> b.node_type == "style_block"@ && b.label == tags::label_text(
                t.0,
                t.1,
            )
            &&& t.0 != "template"@ && t.0 != "script"@ && t.0 != "style"@ ==> b.node_type
                == "custom_block"@ && b.label == t.0
            &&& b.content_start_line == b.start_line + 1
            &&& b.start_line + 1 < b.end_line ==> b.content.push('\n') == pieces::terminated(
                lines.subrange(b.start_line + 1, b.end_line),
            )
            &&& b.start_line + 1 >= b.end_line ==> b.content.len() == 0
            &&& b.content_hash == hash::hash_text(b.content)
        }),
{
    reveal_strlit("template_block");
    reveal_strlit("script_block");
    reveal_strlit("style_block");
    reveal_strlit("custom_block");
    reveal_strlit("template");
    reveal_strlit("script");
    reveal_strlit("style");
    assert("template_block"@[0] != "custom_block"@[0]);
    assert("script_block"@[0] != "custom_block"@[0]);
    assert("style_block"@[0] != "custom_block"@[0]);
    law_blocks_are_opened(source, k);
    let b = source_blocks(source)[k];
    let lines = pieces::line_seq(source);
    assert("template"@.len() == 8 && "script"@.len() == 6 && "style"@.len() == 5);
    if b.start_line + 1 < b.end_line {
        pieces::law_joined_lines_are_terminated(lines.subrange(b.start_line + 1, b.end_line));
    }
}

} // verus!
