//! Law of the rendered view: which lines make up a block, and what is
//! shown of them.

use vstd::prelude::*;
use vstd::utf8::{decode_utf8, valid_utf8};

use crate::markdown_core::{table_end, BlockKind, BlockLine};
use crate::markview::rendered::{
    block_at, blocks_from, fenced_content, heading_text, joined_lines, line_at, lines_of, list_body, list_depth,
    list_prefix, quote_start, run_end, runs_of, separated, table_model, unquoted, BlockModel,
};

verus! {

/// Lines of this kind make up one block together with those that follow.
pub open spec fn groups(kind: BlockKind) -> bool {
    kind is Paragraph || kind is BlockquoteLine || kind is FencedCode || kind is TableLine
}

/// Line `i` starts a block: its kind does not group, or the line before
/// it is of another kind.
pub open spec fn starts_block(blocks: Seq<BlockLine>, i: int) -> bool {
    i == 0 || !groups(blocks[i].kind) || blocks[i - 1].kind != blocks[i].kind
}

/// The lines from `i` on that start a block.
pub open spec fn block_starts(blocks: Seq<BlockLine>, i: int) -> Seq<int>
    decreases blocks.len() - i,
{
    if i < 0 || i >= blocks.len() {
        Seq::empty()
    } else if starts_block(blocks, i) {
        seq![i] + block_starts(blocks, i + 1)
    } else {
        block_starts(blocks, i + 1)
    }
}

/// What a block of the given kind shows of its lines.
pub open spec fn shows(block: BlockModel, kind: BlockKind, lines: Seq<Seq<char>>) -> bool {
    match kind {
        BlockKind::Blank => block is Blank,
        BlockKind::HorizontalRule => block is Rule,
        BlockKind::Heading { level } => block == (BlockModel::Heading { level, text: heading_text(lines[0]) }),
        BlockKind::Paragraph => block == (BlockModel::Paragraph { runs: runs_of(joined_lines(lines)) }),
        BlockKind::BlockquoteLine => block == (BlockModel::Quote {
            runs: runs_of(
                joined_lines(Seq::new(lines.len(), |i: int| lines[i].subrange(quote_start(lines[i]), lines[i].len() as int))),
            ),
        }),
        BlockKind::ListItem { ordered, marker_len } => block == (BlockModel::ListItem {
            depth: list_depth(lines[0]),
            prefix: list_prefix(lines[0], ordered),
            runs: runs_of(list_body(lines[0], marker_len as int)),
        }),
        BlockKind::FencedCode => block == (BlockModel::Code { text: separated(fenced_content(lines)) }),
        BlockKind::TableLine => block == table_model(lines),
    }
}

/// The texts of lines `a` to `b`.
pub open spec fn texts_between(bytes: Seq<u8>, starts: Seq<u32>, blocks: Seq<BlockLine>, a: int, b: int) -> Seq<
    Seq<char>,
> {
    Seq::new((b - a) as nat, |i: int| line_at(bytes, starts, blocks[a + i].line_index as int))
}

proof fn lemma_run(blocks: Seq<BlockLine>, i: int, kind: BlockKind)
    requires
        0 <= i <= blocks.len(),
    ensures
        i <= run_end(blocks, i, kind) <= blocks.len(),
        forall|k: int| i <= k < run_end(blocks, i, kind) ==> (#[trigger] blocks[k]).kind == kind,
        run_end(blocks, i, kind) < blocks.len() ==> blocks[run_end(blocks, i, kind)].kind != kind,
    decreases blocks.len() - i,
{
    if i < blocks.len() && blocks[i].kind == kind {
        lemma_run(blocks, i + 1, kind);
    }
}

proof fn lemma_no_starts(blocks: Seq<BlockLine>, i: int, j: int)
    requires
        0 <= i <= j <= blocks.len(),
        forall|k: int| i <= k < j ==> !#[trigger] starts_block(blocks, k),
    ensures
        block_starts(blocks, i) == block_starts(blocks, j),
    decreases j - i,
{
    if i < j {
        assert(!starts_block(blocks, i));
        lemma_no_starts(blocks, i + 1, j);
    }
}

/// Where the block that starts at the `j`th start ends.
pub open spec fn next_start(blocks: Seq<BlockLine>, heads: Seq<int>, j: int) -> int {
    if j + 1 < heads.len() {
        heads[j + 1]
    } else {
        blocks.len() as int
    }
}

spec fn all_shown(
    bytes: Seq<u8>,
    starts: Seq<u32>,
    blocks: Seq<BlockLine>,
    heads: Seq<int>,
    out: Seq<BlockModel>,
) -> bool {
    &&& out.len() == heads.len()
    &&& forall|j: int|
        0 <= j < out.len() ==> shows(
            #[trigger] out[j],
            blocks[heads[j]].kind,
            texts_between(bytes, starts, blocks, heads[j], next_start(blocks, heads, j)),
        )
}

proof fn lemma_blocks(bytes: Seq<u8>, starts: Seq<u32>, blocks: Seq<BlockLine>, i: int)
    requires
        0 <= i <= blocks.len(),
        i < blocks.len() ==> starts_block(blocks, i),
    ensures
        all_shown(bytes, starts, blocks, block_starts(blocks, i), blocks_from(bytes, starts, blocks, i)),
        i < blocks.len() ==> block_starts(blocks, i).len() > 0 && block_starts(blocks, i)[0] == i,
    decreases blocks.len() - i,
{
    if i < blocks.len() {
        let kind = blocks[i].kind;
        lemma_run(blocks, i, kind);
        let end = run_end(blocks, i, kind);
        let (block, next) = block_at(bytes, starts, blocks, i);
        assert(i < next <= blocks.len());
        if groups(kind) {
            assert(next == end);
            assert forall|k: int| i + 1 <= k < next implies !#[trigger] starts_block(blocks, k) by {
                assert(blocks[k].kind == kind && blocks[k - 1].kind == kind);
            }
            if next < blocks.len() {
                assert(blocks[next - 1].kind == kind);
            }
        } else {
            assert(next == i + 1);
        }
        lemma_no_starts(blocks, i + 1, next);
        lemma_blocks(bytes, starts, blocks, next);
        let heads = block_starts(blocks, i);
        let more = block_starts(blocks, next);
        let rest = blocks_from(bytes, starts, blocks, next);
        let out = blocks_from(bytes, starts, blocks, i);
        assert(heads == seq![i] + more);
        assert(out == seq![block] + rest);
        let lines = texts_between(bytes, starts, blocks, i, next);
        assert(next_start(blocks, heads, 0) == next) by {
            if next < blocks.len() {
                assert(heads[1] == more[0]);
            } else {
                assert(more.len() == 0);
            }
        }
        assert(lines[0] == line_at(bytes, starts, blocks[i].line_index as int));
        assert(lines_of(bytes, starts, blocks, i, next) =~= lines);
        assert(unquoted(lines) =~= Seq::new(
            lines.len(),
            |i: int| lines[i].subrange(quote_start(lines[i]), lines[i].len() as int),
        ));
        assert(shows(block, kind, lines));
        assert forall|j: int| 0 <= j < out.len() implies shows(
            #[trigger] out[j],
            blocks[heads[j]].kind,
            texts_between(bytes, starts, blocks, heads[j], next_start(blocks, heads, j)),
        ) by {
            if j > 0 {
                assert(out[j] == rest[j - 1]);
                assert(heads[j] == more[j - 1]);
                assert(next_start(blocks, heads, j) == next_start(blocks, more, j - 1));
            }
        }
    }
}

/// Lines that follow each other in a paragraph, quote, fence or table
/// make up one block, any other line one of its own, and each block shows
/// its own lines, in order and none of them twice.
pub proof fn law_rendered_blocks(bytes: Seq<u8>, starts: Seq<u32>, blocks: Seq<BlockLine>)
    ensures
        ({
            let out = blocks_from(bytes, starts, blocks, 0);
            let heads = block_starts(blocks, 0);
            &&& out.len() == heads.len()
            &&& forall|j: int|
                0 <= j < out.len() ==> shows(
                    #[trigger] out[j],
                    blocks[heads[j]].kind,
                    texts_between(bytes, starts, blocks, heads[j], next_start(blocks, heads, j)),
                )
        }),
{
    lemma_blocks(bytes, starts, blocks, 0);
}

/// The text of a line is what stands between its start and its line
/// ending.
pub proof fn law_line_text(bytes: Seq<u8>, starts: Seq<u32>, k: int, x: Seq<u8>, cr: bool)
    requires
        0 <= k < starts.len(),
        starts[k] + x.len() <= bytes.len(),
        bytes.subrange(starts[k] as int, starts[k] + x.len()) == x,
        valid_utf8(x),
        ({
            let e = starts[k] + x.len();
            let f = if cr {
                e + 1
            } else {
                e
            };
            &&& cr ==> e < bytes.len() && bytes[e] == 0x0d
            &&& !cr && x.len() > 0 ==> x.last() != 0x0d
            &&& if k + 1 < starts.len() {
                starts[k + 1] == f + 1
            } else {
                bytes.len() == f
            }
        }),
    ensures
        line_at(bytes, starts, k) == decode_utf8(x),
{
    let p = starts[k] as int;
    let e = p + x.len();
    if x.len() > 0 {
        assert(bytes[e - 1] == bytes.subrange(p, e)[x.len() - 1]);
    }
}

proof fn lemma_table_end(blocks: Seq<BlockLine>, i: int)
    requires
        0 <= i <= blocks.len(),
    ensures
        i <= table_end(blocks, i) <= blocks.len(),
        forall|k: int| i <= k < table_end(blocks, i) ==> (#[trigger] blocks[k]).kind is TableLine,
        table_end(blocks, i) < blocks.len() ==> !(blocks[table_end(blocks, i)].kind is TableLine),
    decreases blocks.len() - i,
{
    if i < blocks.len() && blocks[i].kind == BlockKind::TableLine {
        lemma_table_end(blocks, i + 1);
    }
}

/// A run of table lines goes on as long as lines are table lines.
pub proof fn law_table_run(blocks: Seq<BlockLine>, i: int, k: int)
    requires
        0 <= i <= k <= blocks.len(),
        forall|j: int| i <= j < k ==> (#[trigger] blocks[j]).kind is TableLine,
        k < blocks.len() ==> !(blocks[k].kind is TableLine),
    ensures
        table_end(blocks, i) == k,
{
    lemma_table_end(blocks, i);
    let e = table_end(blocks, i);
    if e < k {
        assert(blocks[e].kind is TableLine);
    } else if e > k {
        assert(blocks[k].kind is TableLine);
    }
}

} // verus!
