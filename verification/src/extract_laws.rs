use vstd::prelude::*;

use crate::extract::{
    ascii_lower, document_text, kind_of, lower, paragraph_text, row_line, rows_text, run_text,
    sheets_text, DocxBlock, DocxParagraphPart, DocxRunPart, FileKind,
};
use crate::text::join;

verus! {

// ---------------------------------------------------------------------------------
// Counting characters.
// ---------------------------------------------------------------------------------

/// How many times `c` occurs in `s`.
pub open spec fn count_char(s: Seq<char>, c: char) -> nat
    decreases s.len(),
{
    if s.len() == 0 {
        0
    } else {
        count_char(s.drop_last(), c) + if s.last() == c {
            1nat
        } else {
            0nat
        }
    }
}

proof fn lemma_count_concat(a: Seq<char>, b: Seq<char>, c: char)
    ensures
        count_char(a + b, c) == count_char(a, c) + count_char(b, c),
    decreases b.len(),
{
    if b.len() == 0 {
        assert(a + b =~= a);
    } else {
        lemma_count_concat(a, b.drop_last(), c);
        assert((a + b).drop_last() =~= a + b.drop_last());
    }
}

proof fn lemma_count_single(x: char, c: char)
    ensures
        count_char(seq![x], c) == if x == c {
            1nat
        } else {
            0nat
        },
{
    assert(seq![x].drop_last() =~= Seq::<char>::empty());
    assert(count_char(Seq::<char>::empty(), c) == 0);
    assert(seq![x].last() == x);
}

// ---------------------------------------------------------------------------------
// Spreadsheets.
// ---------------------------------------------------------------------------------

/// The number of separators between `n` cells.
pub open spec fn gaps(n: nat) -> nat {
    if n > 0 {
        (n - 1) as nat
    } else {
        0
    }
}

/// How many times `c` occurs in the cells of a row, all together.
pub open spec fn cells_count(cells: Seq<Seq<char>>, c: char) -> nat
    decreases cells.len(),
{
    if cells.len() == 0 {
        0
    } else {
        cells_count(cells.drop_last(), c) + count_char(cells.last(), c)
    }
}

/// The length of the cells of a row, all together.
pub open spec fn cells_len(cells: Seq<Seq<char>>) -> nat
    decreases cells.len(),
{
    if cells.len() == 0 {
        0
    } else {
        cells_len(cells.drop_last()) + cells.last().len()
    }
}

/// How many times `c` occurs in the cells of the rows, all together.
pub open spec fn rows_count(rows: Seq<Seq<Seq<char>>>, c: char) -> nat
    decreases rows.len(),
{
    if rows.len() == 0 {
        0
    } else {
        rows_count(rows.drop_last(), c) + cells_count(rows.last(), c)
    }
}

/// The length of the cells of the rows, all together.
pub open spec fn rows_len(rows: Seq<Seq<Seq<char>>>) -> nat
    decreases rows.len(),
{
    if rows.len() == 0 {
        0
    } else {
        rows_len(rows.drop_last()) + cells_len(rows.last())
    }
}

/// The number of separators between the cells of each row, all together.
pub open spec fn rows_gaps(rows: Seq<Seq<Seq<char>>>) -> nat
    decreases rows.len(),
{
    if rows.len() == 0 {
        0
    } else {
        rows_gaps(rows.drop_last()) + gaps(rows.last().len())
    }
}

/// The number of rows in the sheets that could be read.
pub open spec fn sheets_rows(sheets: Seq<Option<Seq<Seq<Seq<char>>>>>) -> nat
    decreases sheets.len(),
{
    if sheets.len() == 0 {
        0
    } else {
        sheets_rows(sheets.drop_last()) + match sheets.last() {
            Some(rows) => rows.len(),
            None => 0,
        }
    }
}

/// How many times `c` occurs in the cells of the sheets that could be read.
pub open spec fn sheets_count(sheets: Seq<Option<Seq<Seq<Seq<char>>>>>, c: char) -> nat
    decreases sheets.len(),
{
    if sheets.len() == 0 {
        0
    } else {
        sheets_count(sheets.drop_last(), c) + match sheets.last() {
            Some(rows) => rows_count(rows, c),
            None => 0,
        }
    }
}

/// The length of the cells of the sheets that could be read.
pub open spec fn sheets_len(sheets: Seq<Option<Seq<Seq<Seq<char>>>>>) -> nat
    decreases sheets.len(),
{
    if sheets.len() == 0 {
        0
    } else {
        sheets_len(sheets.drop_last()) + match sheets.last() {
            Some(rows) => rows_len(rows),
            None => 0,
        }
    }
}

/// The number of separators between the cells of each row of the sheets that could be
/// read.
pub open spec fn sheets_gaps(sheets: Seq<Option<Seq<Seq<Seq<char>>>>>) -> nat
    decreases sheets.len(),
{
    if sheets.len() == 0 {
        0
    } else {
        sheets_gaps(sheets.drop_last()) + match sheets.last() {
            Some(rows) => rows_gaps(rows),
            None => 0,
        }
    }
}

/// How often `c` occurs, and how long it is, in `n` cells joined by a separator.
proof fn lemma_join_measures(cells: Seq<Seq<char>>, sep: char, c: char)
    ensures
        count_char(join(cells, sep), c) == cells_count(cells, c) + if sep == c {
            gaps(cells.len())
        } else {
            0
        },
        join(cells, sep).len() == cells_len(cells) + gaps(cells.len()),
    decreases cells.len(),
{
    lemma_count_single(sep, c);
    if cells.len() == 1 {
        let init = cells.drop_last();
        assert(init.len() == 0);
        assert(cells_count(init, c) == 0);
        assert(cells_len(init) == 0);
        assert(cells.last() == cells[0]);
        assert(join(cells, sep) == cells[0]);
        assert(cells_count(cells, c) == count_char(cells[0], c));
        assert(cells_len(cells) == cells[0].len());
    } else if cells.len() > 1 {
        let init = cells.drop_last();
        lemma_join_measures(init, sep, c);
        lemma_count_concat(join(init, sep) + seq![sep], cells.last(), c);
        lemma_count_concat(join(init, sep), seq![sep], c);
        assert(join(cells, sep) == join(init, sep) + seq![sep] + cells.last());
        assert(gaps(cells.len()) == gaps(init.len()) + 1);
    }
}

proof fn lemma_rows_measures(rows: Seq<Seq<Seq<char>>>, c: char)
    ensures
        count_char(rows_text(rows), c) == rows_count(rows, c) + (if c == '\t' {
            rows_gaps(rows)
        } else {
            0
        }) + (if c == '\n' {
            rows.len()
        } else {
            0
        }),
        rows_text(rows).len() == rows_len(rows) + rows_gaps(rows) + rows.len(),
    decreases rows.len(),
{
    if rows.len() > 0 {
        let init = rows.drop_last();
        lemma_rows_measures(init, c);
        lemma_join_measures(rows.last(), '\t', c);
        lemma_count_concat(rows_text(init), row_line(rows.last()), c);
        lemma_count_concat(join(rows.last(), '\t'), seq!['\n'], c);
        lemma_count_single('\n', c);
        assert(rows_text(rows) == rows_text(init) + row_line(rows.last()));
    }
}

/// The text of a spreadsheet has one line per row of every sheet that could be read:
/// it holds one newline per row, besides those inside cells, and one tab between each
/// two neighbouring cells of a row, besides those inside cells; and it is as long as
/// the cells, those tabs and those newlines together. No row and no cell is left out.
pub proof fn law_spreadsheet_lines(sheets: Seq<Option<Seq<Seq<Seq<char>>>>>)
    ensures
        count_char(sheets_text(sheets), '\n') == sheets_count(sheets, '\n') + sheets_rows(sheets),
        count_char(sheets_text(sheets), '\t') == sheets_count(sheets, '\t') + sheets_gaps(sheets),
        sheets_text(sheets).len() == sheets_len(sheets) + sheets_gaps(sheets) + sheets_rows(
            sheets,
        ),
    decreases sheets.len(),
{
    if sheets.len() > 0 {
        let init = sheets.drop_last();
        law_spreadsheet_lines(init);
        match sheets.last() {
            Some(rows) => {
                lemma_rows_measures(rows, '\n');
                lemma_rows_measures(rows, '\t');
                lemma_count_concat(sheets_text(init), rows_text(rows), '\n');
                lemma_count_concat(sheets_text(init), rows_text(rows), '\t');
            },
            None => {
                assert(sheets_text(sheets) =~= sheets_text(init));
            },
        }
    }
}

// ---------------------------------------------------------------------------------
// Word documents.
// ---------------------------------------------------------------------------------

/// The text pieces of a run, in order; what is not text is left out.
pub open spec fn run_pieces(parts: Seq<DocxRunPart>) -> Seq<Seq<char>>
    decreases parts.len(),
{
    if parts.len() == 0 {
        seq![]
    } else {
        run_pieces(parts.drop_last()) + match parts.last() {
            DocxRunPart::Text(t) => seq![t@],
            DocxRunPart::Other => seq![],
        }
    }
}

/// The text pieces of all runs of a paragraph, in order; what is not a run is left
/// out.
pub open spec fn paragraph_pieces(parts: Seq<DocxParagraphPart>) -> Seq<Seq<char>>
    decreases parts.len(),
{
    if parts.len() == 0 {
        seq![]
    } else {
        paragraph_pieces(parts.drop_last()) + match parts.last() {
            DocxParagraphPart::Run(r) => run_pieces(r@),
            DocxParagraphPart::Other => seq![],
        }
    }
}

/// The paragraphs of a document, each as its text pieces in order; what is not a
/// paragraph is left out.
pub open spec fn document_paragraphs(blocks: Seq<DocxBlock>) -> Seq<Seq<Seq<char>>>
    decreases blocks.len(),
{
    if blocks.len() == 0 {
        seq![]
    } else {
        document_paragraphs(blocks.drop_last()) + match blocks.last() {
            DocxBlock::Paragraph(p) => seq![paragraph_pieces(p@)],
            DocxBlock::Other => seq![],
        }
    }
}

/// The length of the text pieces, all together.
pub open spec fn pieces_len(pieces: Seq<Seq<char>>) -> nat
    decreases pieces.len(),
{
    if pieces.len() == 0 {
        0
    } else {
        pieces_len(pieces.drop_last()) + pieces.last().len()
    }
}

/// How many times `c` occurs in the text pieces, all together.
pub open spec fn pieces_count(pieces: Seq<Seq<char>>, c: char) -> nat
    decreases pieces.len(),
{
    if pieces.len() == 0 {
        0
    } else {
        pieces_count(pieces.drop_last(), c) + count_char(pieces.last(), c)
    }
}

/// The length of the text pieces of all paragraphs.
pub open spec fn paragraphs_len(ps: Seq<Seq<Seq<char>>>) -> nat
    decreases ps.len(),
{
    if ps.len() == 0 {
        0
    } else {
        paragraphs_len(ps.drop_last()) + pieces_len(ps.last())
    }
}

/// How many times `c` occurs in the text pieces of all paragraphs.
pub open spec fn paragraphs_count(ps: Seq<Seq<Seq<char>>>, c: char) -> nat
    decreases ps.len(),
{
    if ps.len() == 0 {
        0
    } else {
        paragraphs_count(ps.drop_last(), c) + pieces_count(ps.last(), c)
    }
}

/// The pieces one after the other.
spec fn concat(pieces: Seq<Seq<char>>) -> Seq<char>
    decreases pieces.len(),
{
    if pieces.len() == 0 {
        seq![]
    } else {
        concat(pieces.drop_last()) + pieces.last()
    }
}

/// Each paragraph's pieces one after the other, followed by a newline.
spec fn render(ps: Seq<Seq<Seq<char>>>) -> Seq<char>
    decreases ps.len(),
{
    if ps.len() == 0 {
        seq![]
    } else {
        render(ps.drop_last()) + concat(ps.last()) + seq!['\n']
    }
}

proof fn lemma_concat_add(a: Seq<Seq<char>>, b: Seq<Seq<char>>)
    ensures
        concat(a + b) == concat(a) + concat(b),
    decreases b.len(),
{
    if b.len() == 0 {
        assert(a + b =~= a);
        assert(concat(a) + concat(b) =~= concat(a));
    } else {
        lemma_concat_add(a, b.drop_last());
        assert((a + b).drop_last() =~= a + b.drop_last());
        assert((a + b).last() == b.last());
        assert(concat(a) + concat(b.drop_last()) + b.last() =~= concat(a) + (concat(b.drop_last())
            + b.last()));
    }
}

proof fn lemma_concat_measures(pieces: Seq<Seq<char>>, c: char)
    ensures
        concat(pieces).len() == pieces_len(pieces),
        count_char(concat(pieces), c) == pieces_count(pieces, c),
    decreases pieces.len(),
{
    if pieces.len() > 0 {
        lemma_concat_measures(pieces.drop_last(), c);
        lemma_count_concat(concat(pieces.drop_last()), pieces.last(), c);
    }
}

proof fn lemma_run_pieces(parts: Seq<DocxRunPart>)
    ensures
        run_text(parts) == concat(run_pieces(parts)),
    decreases parts.len(),
{
    if parts.len() > 0 {
        let init = parts.drop_last();
        lemma_run_pieces(init);
        match parts.last() {
            DocxRunPart::Text(t) => {
                let ps = run_pieces(init) + seq![t@];
                assert(ps.drop_last() =~= run_pieces(init));
            },
            DocxRunPart::Other => {
                assert(run_pieces(init) + Seq::<Seq<char>>::empty() =~= run_pieces(init));
                assert(run_text(init) + Seq::<char>::empty() =~= run_text(init));
            },
        }
    }
}

proof fn lemma_paragraph_pieces(parts: Seq<DocxParagraphPart>)
    ensures
        paragraph_text(parts) == concat(paragraph_pieces(parts)),
    decreases parts.len(),
{
    if parts.len() > 0 {
        let init = parts.drop_last();
        lemma_paragraph_pieces(init);
        match parts.last() {
            DocxParagraphPart::Run(r) => {
                lemma_run_pieces(r@);
                lemma_concat_add(paragraph_pieces(init), run_pieces(r@));
            },
            DocxParagraphPart::Other => {
                assert(paragraph_pieces(init) + Seq::<Seq<char>>::empty() =~= paragraph_pieces(
                    init,
                ));
                assert(paragraph_text(init) + Seq::<char>::empty() =~= paragraph_text(init));
            },
        }
    }
}

proof fn lemma_document_render(blocks: Seq<DocxBlock>)
    ensures
        document_text(blocks) == render(document_paragraphs(blocks)),
    decreases blocks.len(),
{
    if blocks.len() > 0 {
        let init = blocks.drop_last();
        lemma_document_render(init);
        match blocks.last() {
            DocxBlock::Paragraph(p) => {
                lemma_paragraph_pieces(p@);
                let ps = document_paragraphs(init) + seq![paragraph_pieces(p@)];
                assert(ps.drop_last() =~= document_paragraphs(init));
                assert(render(document_paragraphs(init)) + (paragraph_text(p@) + seq!['\n'])
                    =~= render(document_paragraphs(init)) + concat(paragraph_pieces(p@)) + seq![
                    '\n',
                ]);
            },
            DocxBlock::Other => {
                assert(document_paragraphs(init) + Seq::<Seq<Seq<char>>>::empty()
                    =~= document_paragraphs(init));
                assert(document_text(init) + Seq::<char>::empty() =~= document_text(init));
            },
        }
    }
}

proof fn lemma_render_measures(ps: Seq<Seq<Seq<char>>>, c: char)
    ensures
        render(ps).len() == paragraphs_len(ps) + ps.len(),
        count_char(render(ps), c) == paragraphs_count(ps, c) + if c == '\n' {
            ps.len()
        } else {
            0
        },
    decreases ps.len(),
{
    if ps.len() > 0 {
        lemma_render_measures(ps.drop_last(), c);
        lemma_concat_measures(ps.last(), c);
        lemma_count_concat(render(ps.drop_last()) + concat(ps.last()), seq!['\n'], c);
        lemma_count_concat(render(ps.drop_last()), concat(ps.last()), c);
        lemma_count_single('\n', c);
    }
}

/// The text of a Word document depends only on the text pieces of its paragraphs:
/// two documents whose paragraphs hold the same text pieces, in the same order, give
/// the same text, whatever else (bookmarks, hyperlinks, tables, breaks, ...) stands
/// among them. Every text piece of every run is read, wherever it stands.
pub proof fn law_docx_text_ignores_other_parts(a: Seq<DocxBlock>, b: Seq<DocxBlock>)
    requires
        document_paragraphs(a) == document_paragraphs(b),
    ensures
        document_text(a) == document_text(b),
{
    lemma_document_render(a);
    lemma_document_render(b);
}

/// The text of a Word document holds all the text pieces of its paragraphs and one
/// newline per paragraph: it is as long as all the pieces plus one character per
/// paragraph, and it holds one newline per paragraph besides those inside the pieces.
pub proof fn law_docx_text_size(blocks: Seq<DocxBlock>)
    ensures
        document_text(blocks).len() == paragraphs_len(document_paragraphs(blocks))
            + document_paragraphs(blocks).len(),
        count_char(document_text(blocks), '\n') == paragraphs_count(
            document_paragraphs(blocks),
            '\n',
        ) + document_paragraphs(blocks).len(),
{
    lemma_document_render(blocks);
    lemma_render_measures(document_paragraphs(blocks), '\n');
}

/// The text of the sheets of two spreadsheets one after the other is the text of the first followed by that of the second: sheets are read in order, each on its own.
pub proof fn law_sheets_text_concat(a: Seq<Option<Seq<Seq<Seq<char>>>>>, b: Seq<Option<Seq<Seq<Seq<char>>>>>)
    ensures
        sheets_text(a + b) == sheets_text(a) + sheets_text(b),
    decreases b.len(),
{
    if b.len() == 0 {
        assert(a + b =~= a);
        assert(sheets_text(a) + sheets_text(b) =~= sheets_text(a));
    } else {
        law_sheets_text_concat(a, b.drop_last());
        assert((a + b).drop_last() =~= a + b.drop_last());
        assert((a + b).last() == b.last());
        assert(sheets_text(a) + sheets_text(b.drop_last()) + sheets_text(seq![b.last()]) =~= sheets_text(a) + (sheets_text(
            b.drop_last(),
        ) + sheets_text(seq![b.last()])));
        assert(seq![b.last()].drop_last() =~= Seq::<Option<Seq<Seq<Seq<char>>>>>::empty());
        assert(sheets_text(Seq::<Option<Seq<Seq<Seq<char>>>>>::empty()) =~= Seq::<char>::empty());
    }
}

/// The lines of two lists of rows one after the other are the lines of the first followed by those of the second: rows are read in order, each on its own.
pub proof fn law_rows_text_concat(a: Seq<Seq<Seq<char>>>, b: Seq<Seq<Seq<char>>>)
    ensures
        rows_text(a + b) == rows_text(a) + rows_text(b),
    decreases b.len(),
{
    if b.len() == 0 {
        assert(a + b =~= a);
        assert(rows_text(a) + rows_text(b) =~= rows_text(a));
    } else {
        law_rows_text_concat(a, b.drop_last());
        assert((a + b).drop_last() =~= a + b.drop_last());
        assert((a + b).last() == b.last());
        assert(rows_text(a) + rows_text(b.drop_last()) + rows_text(seq![b.last()]) =~= rows_text(a) + (rows_text(
            b.drop_last(),
        ) + rows_text(seq![b.last()])));
        assert(seq![b.last()].drop_last() =~= Seq::<Seq<Seq<char>>>::empty());
        assert(rows_text(Seq::<Seq<Seq<char>>>::empty()) =~= Seq::<char>::empty());
    }
}

/// The text of two pieces of a document one after the other is the text of the first followed by that of the second: blocks are read in order, each on its own.
pub proof fn law_document_text_concat(a: Seq<DocxBlock>, b: Seq<DocxBlock>)
    ensures
        document_text(a + b) == document_text(a) + document_text(b),
    decreases b.len(),
{
    if b.len() == 0 {
        assert(a + b =~= a);
        assert(document_text(a) + document_text(b) =~= document_text(a));
    } else {
        law_document_text_concat(a, b.drop_last());
        assert((a + b).drop_last() =~= a + b.drop_last());
        assert((a + b).last() == b.last());
        assert(document_text(a) + document_text(b.drop_last()) + document_text(seq![b.last()]) =~= document_text(a) + (document_text(
            b.drop_last(),
        ) + document_text(seq![b.last()])));
        assert(seq![b.last()].drop_last() =~= Seq::<DocxBlock>::empty());
        assert(document_text(Seq::<DocxBlock>::empty()) =~= Seq::<char>::empty());
    }
}

/// The text of two pieces of a paragraph one after the other is the text of the first followed by that of the second: parts are read in order, each on its own.
pub proof fn law_paragraph_text_concat(a: Seq<DocxParagraphPart>, b: Seq<DocxParagraphPart>)
    ensures
        paragraph_text(a + b) == paragraph_text(a) + paragraph_text(b),
    decreases b.len(),
{
    if b.len() == 0 {
        assert(a + b =~= a);
        assert(paragraph_text(a) + paragraph_text(b) =~= paragraph_text(a));
    } else {
        law_paragraph_text_concat(a, b.drop_last());
        assert((a + b).drop_last() =~= a + b.drop_last());
        assert((a + b).last() == b.last());
        assert(paragraph_text(a) + paragraph_text(b.drop_last()) + paragraph_text(seq![b.last()]) =~= paragraph_text(a) + (paragraph_text(
            b.drop_last(),
        ) + paragraph_text(seq![b.last()])));
        assert(seq![b.last()].drop_last() =~= Seq::<DocxParagraphPart>::empty());
        assert(paragraph_text(Seq::<DocxParagraphPart>::empty()) =~= Seq::<char>::empty());
    }
}

/// The text of two pieces of a run one after the other is the text of the first followed by that of the second: pieces are read in order, each on its own.
pub proof fn law_run_text_concat(a: Seq<DocxRunPart>, b: Seq<DocxRunPart>)
    ensures
        run_text(a + b) == run_text(a) + run_text(b),
    decreases b.len(),
{
    if b.len() == 0 {
        assert(a + b =~= a);
        assert(run_text(a) + run_text(b) =~= run_text(a));
    } else {
        law_run_text_concat(a, b.drop_last());
        assert((a + b).drop_last() =~= a + b.drop_last());
        assert((a + b).last() == b.last());
        assert(run_text(a) + run_text(b.drop_last()) + run_text(seq![b.last()]) =~= run_text(a) + (run_text(
            b.drop_last(),
        ) + run_text(seq![b.last()])));
        assert(seq![b.last()].drop_last() =~= Seq::<DocxRunPart>::empty());
        assert(run_text(Seq::<DocxRunPart>::empty()) =~= Seq::<char>::empty());
    }
}

/// What each piece on its own gives: a text piece its text, anything else in a run
/// nothing; a run its text, anything else in a paragraph nothing; a paragraph its text
/// and a newline, anything else in a document nothing; a row its cells joined by tabs
/// and a newline; a sheet that could be read its rows, one that could not nothing.
pub proof fn law_single_pieces(
    t: String,
    r: Vec<DocxRunPart>,
    p: Vec<DocxParagraphPart>,
    cells: Seq<Seq<char>>,
    rows: Seq<Seq<Seq<char>>>,
)
    ensures
        run_text(seq![DocxRunPart::Text(t)]) == t@,
        run_text(seq![DocxRunPart::Other]) == Seq::<char>::empty(),
        paragraph_text(seq![DocxParagraphPart::Run(r)]) == run_text(r@),
        paragraph_text(seq![DocxParagraphPart::Other]) == Seq::<char>::empty(),
        document_text(seq![DocxBlock::Paragraph(p)]) == paragraph_text(p@) + seq!['\n'],
        document_text(seq![DocxBlock::Other]) == Seq::<char>::empty(),
        rows_text(seq![cells]) == join(cells, '\t') + seq!['\n'],
        sheets_text(seq![Some(rows)]) == rows_text(rows),
        sheets_text(seq![None]) == Seq::<char>::empty(),
{
    assert(seq![DocxRunPart::Text(t)].drop_last() =~= Seq::<DocxRunPart>::empty());
    assert(seq![DocxRunPart::Other].drop_last() =~= Seq::<DocxRunPart>::empty());
    assert(seq![DocxParagraphPart::Run(r)].drop_last() =~= Seq::<DocxParagraphPart>::empty());
    assert(seq![DocxParagraphPart::Other].drop_last() =~= Seq::<DocxParagraphPart>::empty());
    assert(seq![DocxBlock::Paragraph(p)].drop_last() =~= Seq::<DocxBlock>::empty());
    assert(seq![DocxBlock::Other].drop_last() =~= Seq::<DocxBlock>::empty());
    assert(seq![cells].drop_last() =~= Seq::<Seq<Seq<char>>>::empty());
    assert(seq![Some(rows)].drop_last() =~= Seq::<Option<Seq<Seq<Seq<char>>>>>::empty());
    assert(seq![None::<Seq<Seq<Seq<char>>>>].drop_last() =~= Seq::<
        Option<Seq<Seq<Seq<char>>>>,
    >::empty());
    assert(run_text(Seq::<DocxRunPart>::empty()) + t@ =~= t@);
    assert(paragraph_text(Seq::<DocxParagraphPart>::empty()) + run_text(r@) =~= run_text(r@));
    assert(document_text(Seq::<DocxBlock>::empty()) + (paragraph_text(p@) + seq!['\n'])
        =~= paragraph_text(p@) + seq!['\n']);
    assert(rows_text(Seq::<Seq<Seq<char>>>::empty()) + row_line(cells) =~= row_line(cells));
    assert(sheets_text(Seq::<Option<Seq<Seq<Seq<char>>>>>::empty()) + rows_text(rows)
        =~= rows_text(rows));
}

// ---------------------------------------------------------------------------------
// File kinds.
// ---------------------------------------------------------------------------------

/// `a` and `b` are the same text up to the case of ASCII letters.
pub open spec fn same_up_to_ascii_case(a: Seq<char>, b: Seq<char>) -> bool {
    &&& a.len() == b.len()
    &&& forall|i: int|
        0 <= i < a.len() ==> {
            ||| #[trigger] a[i] == b[i]
            ||| ('A' <= a[i] && a[i] <= 'Z' && b[i] as u32 == a[i] as u32 + 32)
            ||| ('A' <= b[i] && b[i] <= 'Z' && a[i] as u32 == b[i] as u32 + 32)
        }
}

/// Only six extensions, in any case of their letters, get a reader other than plain
/// text: `docx` a Word reader, `pdf` a PDF reader, and `xlsx`, `xls`, `xlsm`, `ods` a
/// spreadsheet reader. Every other extension (`csv`, `txt`, none, ...) is read as text.
pub proof fn law_file_kinds(ext: Seq<char>)
    ensures
        (kind_of(ext) == FileKind::Docx) == (lower(ext) == seq!['d', 'o', 'c', 'x']),
        (kind_of(ext) == FileKind::Pdf) == (lower(ext) == seq!['p', 'd', 'f']),
        (kind_of(ext) == FileKind::Spreadsheet) == (lower(ext) == seq!['x', 'l', 's', 'x'] || lower(
            ext,
        ) == seq!['x', 'l', 's'] || lower(ext) == seq!['x', 'l', 's', 'm'] || lower(ext) == seq![
            'o',
            'd',
            's',
        ]),
        (kind_of(ext) == FileKind::Text) == !(lower(ext) == seq!['d', 'o', 'c', 'x'] || lower(ext)
            == seq!['p', 'd', 'f'] || lower(ext) == seq!['x', 'l', 's', 'x'] || lower(ext) == seq![
            'x',
            'l',
            's',
        ] || lower(ext) == seq!['x', 'l', 's', 'm'] || lower(ext) == seq!['o', 'd', 's']),
{
}

/// The kind of a file does not depend on the case of the letters of its extension.
pub proof fn law_file_kind_ignores_case(a: Seq<char>, b: Seq<char>)
    requires
        same_up_to_ascii_case(a, b),
    ensures
        kind_of(a) == kind_of(b),
{
    assert forall|i: int| 0 <= i < a.len() implies lower(a)[i] == lower(b)[i] by {
        assert(a[i] == b[i] || ('A' <= a[i] && a[i] <= 'Z' && b[i] as u32 == a[i] as u32 + 32) || (
        'A' <= b[i] && b[i] <= 'Z' && a[i] as u32 == b[i] as u32 + 32));
        assert(lower(a)[i] == ascii_lower(a[i]));
        assert(lower(b)[i] == ascii_lower(b[i]));
    }
    assert(lower(a) =~= lower(b));
}

} // verus!
