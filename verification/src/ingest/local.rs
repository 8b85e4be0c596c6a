//! Files of this machine as sources. Markdown and plain text are taken as they are; of
//! the other formats only the text is.

use vstd::prelude::*;

use crate::order::{
    gathered, law_gathered_values_are_those_that_are_made, law_gathering_goes_value_by_value,
};
use crate::paths::{extension, extension_of, file_name, file_name_of};
use crate::text::{
    has_part, join, joined, law_joined_parts_are_there, lemma_part, lowercase_ascii, lowered,
    occurs_at, text_eq, views,
};

verus! {

/// How the text of a file is had.
#[derive(Debug, Clone, Copy, PartialEq, Eq, Structural)]
pub enum LocalFormat {
    /// It is the text.
    Text,
    Pdf,
    Docx,
}

/// The extension of a path in small letters, or nothing.
pub open spec fn path_extension(path: Seq<char>) -> Seq<char> {
    match file_name(path) {
        Some(name) => match extension(name) {
            Some(ext) => lowered(ext),
            None => seq![],
        },
        None => seq![],
    }
}

/// How the text of the file at `path` is had, by its extension.
pub fn local_format(path: &str) -> (r: Result<LocalFormat, String>)
    ensures
        ({
            let ext = path_extension(path@);
            if ext == "md"@ || ext == "txt"@ {
                r == Ok::<LocalFormat, String>(LocalFormat::Text)
            } else if ext == "pdf"@ {
                r == Ok::<LocalFormat, String>(LocalFormat::Pdf)
            } else if ext == "docx"@ {
                r == Ok::<LocalFormat, String>(LocalFormat::Docx)
            } else {
                r is Err && r->Err_0@ == "unsupported local file type '."@ + ext + "' for '"@
                    + path@ + "' — supported: .md, .txt, .pdf, .docx"@
            }
        }),
{
    let ext: String = match file_name_of(path) {
        Some(name) => match extension_of(name.as_str()) {
            Some(ext) => lowercase_ascii(ext.as_str()),
            None => String::new(),
        },
        None => String::new(),
    };
    assert(ext@ =~= path_extension(path@));
    if text_eq(ext.as_str(), "md") || text_eq(ext.as_str(), "txt") {
        return Ok(LocalFormat::Text);
    }
    if text_eq(ext.as_str(), "pdf") {
        return Ok(LocalFormat::Pdf);
    }
    if text_eq(ext.as_str(), "docx") {
        return Ok(LocalFormat::Docx);
    }
    let mut s = "unsupported local file type '.".to_string();
    s.append(ext.as_str());
    s.append("' for '");
    s.append(path);
    s.append("' — supported: .md, .txt, .pdf, .docx");
    Err(s)
}

// ---------------------------------------------------------------------------
// Word processor documents
// ---------------------------------------------------------------------------

/// A piece of a run.
#[derive(Debug)]
pub enum RunPiece {
    Text(String),
    Other,
}

/// A piece of a paragraph.
#[derive(Debug)]
pub enum Inline {
    Run(Vec<RunPiece>),
    Hyperlink(Vec<Inline>),
    Other,
}

/// A piece of a table's cell.
#[derive(Debug)]
pub enum CellContent {
    Paragraph(Vec<Inline>),
    Other,
}

#[derive(Debug)]
pub struct Cell {
    pub contents: Vec<CellContent>,
}

#[derive(Debug)]
pub struct Row {
    pub cells: Vec<Cell>,
}

/// A piece of a document.
#[derive(Debug)]
pub enum Block {
    Paragraph(Vec<Inline>),
    Table(Vec<Row>),
    Other,
}

/// The text of a run: that of its pieces, one after the other.
pub open spec fn run_text_of(pieces: Seq<RunPiece>) -> Seq<char>
    decreases pieces.len(),
{
    if pieces.len() == 0 {
        seq![]
    } else {
        run_text_of(pieces.drop_last()) + (match pieces.last() {
            RunPiece::Text(t) => t@,
            RunPiece::Other => seq![],
        })
    }
}

/// The text of a piece of a paragraph.
pub open spec fn inline_text_of(inline: Inline) -> Seq<char>
    decreases inline, 0nat,
{
    match inline {
        Inline::Run(pieces) => run_text_of(pieces@),
        Inline::Hyperlink(children) => front_text_of(children@, children@.len()),
        Inline::Other => seq![],
    }
}

/// The text of the first `n` pieces of a paragraph, one after the other.
pub open spec fn front_text_of(children: Seq<Inline>, n: nat) -> Seq<char>
    decreases children, n,
{
    if n == 0 || n > children.len() {
        seq![]
    } else {
        front_text_of(children, (n - 1) as nat) + inline_text_of(children[n - 1])
    }
}

/// The text of a paragraph.
pub open spec fn paragraph_text_of(children: Seq<Inline>) -> Seq<char> {
    front_text_of(children, children.len())
}

/// The texts of the paragraphs of a cell.
pub open spec fn cell_paragraphs(contents: Seq<CellContent>) -> Seq<Seq<char>>
    decreases contents.len(),
{
    if contents.len() == 0 {
        seq![]
    } else {
        let rest = cell_paragraphs(contents.drop_last());
        match contents.last() {
            CellContent::Paragraph(children) => rest.push(paragraph_text_of(children@)),
            CellContent::Other => rest,
        }
    }
}

/// The text of a cell: its paragraphs with blanks between them.
pub open spec fn cell_text_of(cell: Cell) -> Seq<char> {
    joined(cell_paragraphs(cell.contents@), " "@)
}

/// The text of a row: its cells with bars between them.
pub open spec fn row_text_of(row: Row) -> Seq<char> {
    joined(row.cells@.map_values(|c: Cell| cell_text_of(c)), " | "@)
}

/// The text of a table: a line for each row.
pub open spec fn table_text_of(rows: Seq<Row>) -> Seq<char> {
    joined(rows.map_values(|r: Row| row_text_of(r)), "\n"@)
}

/// The text of a block.
pub open spec fn block_text_of(block: Block) -> Seq<char> {
    match block {
        Block::Paragraph(children) => paragraph_text_of(children@),
        Block::Table(rows) => table_text_of(rows@),
        Block::Other => seq![],
    }
}

/// The texts of the blocks that have one.
pub open spec fn block_texts(blocks: Seq<Block>) -> Seq<Seq<char>>
    decreases blocks.len(),
{
    if blocks.len() == 0 {
        seq![]
    } else {
        let rest = block_texts(blocks.drop_last());
        let text = block_text_of(blocks.last());
        if text.len() == 0 {
            rest
        } else {
            rest.push(text)
        }
    }
}

fn run_text(pieces: &Vec<RunPiece>) -> (r: String)
    ensures
        r@ == run_text_of(pieces@),
{
    let mut out = String::new();
    let mut i: usize = 0;
    assert(pieces@.take(0) =~= seq![]);
    assert(out@ =~= seq![]);
    while i < pieces.len()
        invariant
            i <= pieces@.len(),
            out@ == run_text_of(pieces@.take(i as int)),
        decreases pieces@.len() - i,
    {
        proof {
            assert(pieces@.take(i + 1).drop_last() =~= pieces@.take(i as int));
            assert(pieces@.take(i + 1).last() == pieces@[i as int]);
        }
        match &pieces[i] {
            RunPiece::Text(t) => {
                out.append(t.as_str());
            },
            RunPiece::Other => {
                assert(out@ + seq![] =~= out@);
            },
        }
        i += 1;
    }
    assert(pieces@.take(pieces@.len() as int) =~= pieces@);
    out
}

fn inline_text(inline: &Inline) -> (r: String)
    ensures
        r@ == inline_text_of(*inline),
    decreases inline, 0nat,
{
    match inline {
        Inline::Run(pieces) => run_text(pieces),
        Inline::Hyperlink(children) => paragraph_text(children),
        Inline::Other => {
            let s = String::new();
            assert(s@ =~= seq![]);
            s
        },
    }
}

fn paragraph_text(children: &Vec<Inline>) -> (r: String)
    ensures
        r@ == paragraph_text_of(children@),
    decreases children, 1nat,
{
    let mut out = String::new();
    let mut i: usize = 0;
    assert(out@ =~= seq![]);
    while i < children.len()
        invariant
            i <= children@.len(),
            out@ == front_text_of(children@, i as nat),
        decreases children@.len() - i,
    {
        let text = inline_text(&children[i]);
        out.append(text.as_str());
        i += 1;
    }
    out
}

fn cell_text(cell: &Cell) -> (r: String)
    ensures
        r@ == cell_text_of(*cell),
{
    let contents = &cell.contents;
    let mut out: Vec<String> = Vec::new();
    let mut i: usize = 0;
    assert(contents@.take(0) =~= seq![]);
    assert(views(out@) =~= seq![]);
    while i < contents.len()
        invariant
            i <= contents@.len(),
            views(out@) == cell_paragraphs(contents@.take(i as int)),
        decreases contents@.len() - i,
    {
        let ghost before = out@;
        proof {
            assert(contents@.take(i + 1).drop_last() =~= contents@.take(i as int));
            assert(contents@.take(i + 1).last() == contents@[i as int]);
        }
        match &contents[i] {
            CellContent::Paragraph(children) => {
                let text = paragraph_text(children);
                let ghost what = text@;
                out.push(text);
                assert(views(out@) =~= views(before).push(what));
            },
            CellContent::Other => {},
        }
        i += 1;
    }
    assert(contents@.take(contents@.len() as int) =~= contents@);
    join(&out, " ")
}

fn row_text(row: &Row) -> (r: String)
    ensures
        r@ == row_text_of(*row),
{
    let ghost f = |c: Cell| cell_text_of(c);
    let ghost cells = row.cells@;
    let mut out: Vec<String> = Vec::new();
    let mut i: usize = 0;
    assert(views(out@) =~= cells.take(0).map_values(f));
    while i < row.cells.len()
        invariant
            cells == row.cells@,
            f == (|c: Cell| cell_text_of(c)),
            i <= cells.len(),
            views(out@) == cells.take(i as int).map_values(f),
        decreases cells.len() - i,
    {
        let ghost before = out@;
        let text = cell_text(&row.cells[i]);
        let ghost what = text@;
        out.push(text);
        proof {
            assert(views(out@) =~= views(before).push(what));
            assert(cells.take(i + 1).map_values(f) =~= cells.take(i as int).map_values(f).push(
                what,
            ));
        }
        i += 1;
    }
    assert(cells.take(cells.len() as int) =~= cells);
    join(&out, " | ")
}

fn table_text(rows: &Vec<Row>) -> (r: String)
    ensures
        r@ == table_text_of(rows@),
{
    let ghost f = |r: Row| row_text_of(r);
    let mut out: Vec<String> = Vec::new();
    let mut i: usize = 0;
    assert(views(out@) =~= rows@.take(0).map_values(f));
    while i < rows.len()
        invariant
            f == (|r: Row| row_text_of(r)),
            i <= rows@.len(),
            views(out@) == rows@.take(i as int).map_values(f),
        decreases rows@.len() - i,
    {
        let ghost before = out@;
        let text = row_text(&rows[i]);
        let ghost what = text@;
        out.push(text);
        proof {
            assert(views(out@) =~= views(before).push(what));
            assert(rows@.take(i + 1).map_values(f) =~= rows@.take(i as int).map_values(f).push(
                what,
            ));
        }
        i += 1;
    }
    assert(rows@.take(rows@.len() as int) =~= rows@);
    join(&out, "\n")
}

/// The text of a document: that of its paragraphs and tables, with an empty line between
/// them. What has no text is left out.
pub fn extract_docx_text(blocks: &Vec<Block>) -> (r: String)
    ensures
        r@ == joined(block_texts(blocks@), "\n\n"@),
{
    let mut out: Vec<String> = Vec::new();
    let mut i: usize = 0;
    assert(blocks@.take(0) =~= seq![]);
    assert(views(out@) =~= seq![]);
    while i < blocks.len()
        invariant
            i <= blocks@.len(),
            views(out@) == block_texts(blocks@.take(i as int)),
        decreases blocks@.len() - i,
    {
        let ghost before = out@;
        proof {
            assert(blocks@.take(i + 1).drop_last() =~= blocks@.take(i as int));
            assert(blocks@.take(i + 1).last() == blocks@[i as int]);
        }
        let text: String = match &blocks[i] {
            Block::Paragraph(children) => paragraph_text(children),
            Block::Table(rows) => table_text(rows),
            Block::Other => String::new(),
        };
        if !text.as_str().is_empty() {
            let ghost what = text@;
            out.push(text);
            assert(views(out@) =~= views(before).push(what));
        }
        i += 1;
    }
    assert(blocks@.take(blocks@.len() as int) =~= blocks@);
    join(&out, "\n\n")
}

// ---------------------------------------------------------------------------
// Laws
// ---------------------------------------------------------------------------

proof fn lemma_front_text(a: Seq<Inline>, b: Seq<Inline>, n: nat)
    ensures
        n <= a.len() ==> front_text_of(a + b, n) == front_text_of(a, n),
        n <= b.len() ==> front_text_of(a + b, a.len() + n) == front_text_of(a, a.len())
            + front_text_of(b, n),
    decreases n,
{
    if n > 0 {
        let m = (n - 1) as nat;
        lemma_front_text(a, b, m);
        if n <= a.len() {
            assert((a + b)[n - 1] == a[n - 1]);
        }
        if n <= b.len() {
            assert((a + b)[a.len() + n - 1] == b[n - 1]);
            assert(front_text_of(a + b, a.len() + n) =~= front_text_of(a, a.len()) + front_text_of(
                b,
                n,
            ));
        }
    } else {
        lemma_whole_front(a, b, a.len());
        assert(front_text_of(a, a.len()) + front_text_of(b, 0) =~= front_text_of(a, a.len()));
    }
}

proof fn lemma_whole_front(a: Seq<Inline>, b: Seq<Inline>, n: nat)
    requires
        n <= a.len(),
    ensures
        front_text_of(a + b, n) == front_text_of(a, n),
    decreases n,
{
    if n > 0 {
        lemma_whole_front(a, b, (n - 1) as nat);
        assert((a + b)[n - 1] == a[n - 1]);
    }
}

/// The text of a paragraph is that of its pieces, one after the other, with nothing left out
/// and nothing between them: a run is its texts, and a link is what it is put on.
pub proof fn law_a_paragraph_is_the_text_of_its_pieces(
    a: Seq<Inline>,
    b: Seq<Inline>,
    p: Seq<RunPiece>,
    q: Seq<RunPiece>,
    inline: Inline,
    piece: RunPiece,
)
    ensures
        paragraph_text_of(a + b) == paragraph_text_of(a) + paragraph_text_of(b),
        paragraph_text_of(seq![inline]) == (match inline {
            Inline::Run(pieces) => run_text_of(pieces@),
            Inline::Hyperlink(children) => paragraph_text_of(children@),
            Inline::Other => seq![],
        }),
        run_text_of(p + q) == run_text_of(p) + run_text_of(q),
        run_text_of(seq![piece]) == (match piece {
            RunPiece::Text(t) => t@,
            RunPiece::Other => seq![],
        }),
    decreases q.len(),
{
    lemma_front_text(a, b, b.len());
    assert(front_text_of(seq![inline], 0) =~= seq![]);
    assert(seq![inline][0] == inline);
    assert(front_text_of(seq![inline], 1) =~= inline_text_of(inline));
    assert(run_text_of(seq![piece].drop_last()) =~= seq![]);
    assert(run_text_of(seq![piece]) =~= (match piece {
        RunPiece::Text(t) => t@,
        RunPiece::Other => seq![],
    }));
    if q.len() == 0 {
        assert(p + q =~= p);
        assert(run_text_of(p) + run_text_of(q) =~= run_text_of(p));
    } else {
        law_a_paragraph_is_the_text_of_its_pieces(a, b, p, q.drop_last(), inline, piece);
        assert((p + q).drop_last() =~= p + q.drop_last());
        assert(run_text_of(p + q) =~= run_text_of(p) + run_text_of(q));
    }
}

proof fn lemma_block_texts(blocks: Seq<Block>)
    ensures
        block_texts(blocks) == gathered(
            blocks,
            |block: Block|
                if block_text_of(block).len() == 0 {
                    None
                } else {
                    Some(block_text_of(block))
                },
        ),
    decreases blocks.len(),
{
    if blocks.len() > 0 {
        lemma_block_texts(blocks.drop_last());
    }
}

proof fn lemma_cell_paragraphs(contents: Seq<CellContent>)
    ensures
        cell_paragraphs(contents) == gathered(
            contents,
            |content: CellContent|
                match content {
                    CellContent::Paragraph(children) => Some(paragraph_text_of(children@)),
                    CellContent::Other => None,
                },
        ),
    decreases contents.len(),
{
    if contents.len() > 0 {
        lemma_cell_paragraphs(contents.drop_last());
    }
}

/// The text of a document has every paragraph and every table of it that has a text, in
/// order, and a cell has every paragraph of it.
pub proof fn law_no_block_is_lost(
    a: Seq<Block>,
    b: Seq<Block>,
    c: Seq<CellContent>,
    d: Seq<CellContent>,
    text: Seq<char>,
)
    ensures
        block_texts(a + b) == block_texts(a) + block_texts(b),
        block_texts(a).contains(text) <==> text.len() > 0 && exists|i: int|
            0 <= i < a.len() && text == (match #[trigger] a[i] {
                Block::Paragraph(children) => paragraph_text_of(children@),
                Block::Table(rows) => table_text_of(rows@),
                Block::Other => seq![],
            }),
        cell_paragraphs(c + d) == cell_paragraphs(c) + cell_paragraphs(d),
        cell_paragraphs(c).contains(text) <==> exists|i: int|
            0 <= i < c.len() && (#[trigger] c[i]) is Paragraph && text == paragraph_text_of(
                c[i]->Paragraph_0@,
            ),
{
    let f = |block: Block|
        if block_text_of(block).len() == 0 {
            None
        } else {
            Some(block_text_of(block))
        };
    let g = |content: CellContent|
        match content {
            CellContent::Paragraph(children) => Some(paragraph_text_of(children@)),
            CellContent::Other => None,
        };
    lemma_block_texts(a);
    lemma_block_texts(b);
    lemma_block_texts(a + b);
    lemma_cell_paragraphs(c);
    lemma_cell_paragraphs(d);
    lemma_cell_paragraphs(c + d);
    law_gathering_goes_value_by_value(a, b, Block::Other, f);
    law_gathering_goes_value_by_value(c, d, CellContent::Other, g);
    law_gathered_values_are_those_that_are_made(a, f, text);
    law_gathered_values_are_those_that_are_made(c, g, text);
    if block_texts(a).contains(text) {
        let i = choose|i: int| 0 <= i < a.len() && f(#[trigger] a[i]) == Some(text);
        assert(text == block_text_of(a[i]));
    }
    if text.len() > 0 && exists|i: int|
        0 <= i < a.len() && text == (match #[trigger] a[i] {
            Block::Paragraph(children) => paragraph_text_of(children@),
            Block::Table(rows) => table_text_of(rows@),
            Block::Other => seq![],
        }) {
        let i = choose|i: int|
            0 <= i < a.len() && text == (match #[trigger] a[i] {
                Block::Paragraph(children) => paragraph_text_of(children@),
                Block::Table(rows) => table_text_of(rows@),
                Block::Other => seq![],
            });
        assert(f(a[i]) == Some(text));
    }
    if cell_paragraphs(c).contains(text) {
        let i = choose|i: int| 0 <= i < c.len() && g(#[trigger] c[i]) == Some(text);
        assert(c[i] is Paragraph);
    }
    if exists|i: int|
        0 <= i < c.len() && (#[trigger] c[i]) is Paragraph && text == paragraph_text_of(
            c[i]->Paragraph_0@,
        ) {
        let i = choose|i: int|
            0 <= i < c.len() && (#[trigger] c[i]) is Paragraph && text == paragraph_text_of(
                c[i]->Paragraph_0@,
            );
        assert(g(c[i]) == Some(text));
    }
}

/// A table has the text of every paragraph of every cell of every row of it.
pub proof fn law_every_cell_is_in_the_table(rows: Seq<Row>, i: int, j: int, k: int)
    requires
        0 <= i < rows.len(),
        0 <= j < rows[i].cells@.len(),
        0 <= k < rows[i].cells@[j].contents@.len(),
        rows[i].cells@[j].contents@[k] is Paragraph,
    ensures
        has_part(
            table_text_of(rows),
            paragraph_text_of(rows[i].cells@[j].contents@[k]->Paragraph_0@),
        ),
{
    let row = rows[i];
    let cell = row.cells@[j];
    let text = paragraph_text_of(cell.contents@[k]->Paragraph_0@);
    let parts = cell_paragraphs(cell.contents@);
    law_no_block_is_lost(seq![], seq![], cell.contents@, seq![], text);
    let m = choose|m: int| 0 <= m < parts.len() && parts[m] == text;
    law_joined_parts_are_there(parts, " "@, m);
    let cells = row.cells@.map_values(|c: Cell| cell_text_of(c));
    law_joined_parts_are_there(cells, " | "@, j);
    assert(cells[j] == cell_text_of(cell));
    lemma_part_of_a_part(row_text_of(row), cell_text_of(cell), text);
    let lines = rows.map_values(|r: Row| row_text_of(r));
    law_joined_parts_are_there(lines, "\n"@, i);
    assert(lines[i] == row_text_of(row));
    lemma_part_of_a_part(table_text_of(rows), row_text_of(row), text);
}

proof fn lemma_part_of_a_part(whole: Seq<char>, part: Seq<char>, pat: Seq<char>)
    requires
        has_part(whole, part),
        has_part(part, pat),
    ensures
        has_part(whole, pat),
{
    let i = choose|i: int| #[trigger] occurs_at(whole, part, i);
    let end = i + part.len();
    lemma_part(whole.take(i), part, whole.skip(end), pat);
    assert(whole =~= whole.take(i) + whole.subrange(i, end) + whole.skip(end));
}

/// How a file is read depends on its extension alone, in capitals or not; without an
/// extension it has none to go by.
pub proof fn law_capitals_in_an_extension_make_no_difference(a: Seq<char>, b: Seq<char>)
    requires
        file_name(a) is Some,
        file_name(b) is Some,
    ensures
        extension(file_name(a)->0) is Some && extension(file_name(b)->0) is Some && lowered(
            extension(file_name(a)->0)->0,
        ) == lowered(extension(file_name(b)->0)->0) ==> path_extension(a) == path_extension(b),
        extension(file_name(a)->0) is None ==> path_extension(a).len() == 0,
        extension(file_name(a)->0) is Some ==> path_extension(a).len() == extension(
            file_name(a)->0,
        )->0.len(),
{
}

} // verus!
