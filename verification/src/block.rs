//! The tree of text blocks that the indentation tokenizer hands over.

use vstd::prelude::*;

verus! {

/// One block of the indentation tree: the lines that stand at its own level
/// and the blocks that stand one level deeper.
#[derive(Debug)]
pub struct Block {
    pub lines: Vec<String>,
    pub children: Vec<Block>,
}

/// The mathematical value of a `Block`.
pub struct BlockView {
    pub lines: Seq<Seq<char>>,
    pub children: Seq<BlockView>,
}

/// The value of a block: its lines as character sequences and the values of
/// its children.
pub open spec fn block_view(block: Block) -> BlockView
    decreases block,
{
    BlockView {
        lines: line_views(block.lines@),
        children: Seq::new(
            block.children.len() as nat,
            |i: int|
                if 0 <= i < block.children.len() {
                    block_view(block.children[i])
                } else {
                    arbitrary()
                },
        ),
    }
}

impl View for Block {
    type V = BlockView;

    open spec fn view(&self) -> BlockView {
        block_view(*self)
    }
}

/// The lines of a block as sequences of characters.
pub open spec fn line_views(lines: Seq<String>) -> Seq<Seq<char>> {
    Seq::new(lines.len(), |i: int| lines[i]@)
}

/// The values of a sequence of blocks.
pub open spec fn block_views(blocks: Seq<Block>) -> Seq<BlockView> {
    Seq::new(blocks.len(), |i: int| blocks[i]@)
}

/// The children of a block's value are the values of its children.
pub proof fn lemma_children_view(block: &Block)
    ensures
        block@.children == block_views(block.children@),
        block@.lines == line_views(block.lines@),
{
    assert(block@.children =~= block_views(block.children@));
}

} // verus!
