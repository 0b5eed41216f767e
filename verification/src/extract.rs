use vstd::prelude::*;
use vstd::string::StringExecFns;

use crate::text::join;

verus! {

/// How the text of a file is read, by its extension.
#[derive(PartialEq, Eq, Structural, Clone, Copy, Debug)]
pub enum FileKind {
    /// A Word document.
    Docx,
    /// A PDF document.
    Pdf,
    /// A spreadsheet (`xlsx`, `xls`, `xlsm`, `ods`).
    Spreadsheet,
    /// Anything else, read as plain text.
    Text,
}

/// `c` in lower case, for ASCII letters; other characters unchanged.
pub open spec fn ascii_lower(c: char) -> char {
    if 'A' <= c && c <= 'Z' {
        ((c as u32) + 32) as char
    } else {
        c
    }
}

/// `s` with its ASCII letters in lower case.
pub open spec fn lower(s: Seq<char>) -> Seq<char> {
    s.map_values(|c: char| ascii_lower(c))
}

/// The kind of a file with extension `ext`, compared without regard to case. Only
/// ASCII letters are lowered; the one other character whose lower case is an ASCII
/// letter (the Kelvin sign, to `k`) lowers to no letter of these extensions, so full
/// Unicode lower-casing gives the same kinds.
pub open spec fn kind_of(ext: Seq<char>) -> FileKind {
    let e = lower(ext);
    if e == seq!['d', 'o', 'c', 'x'] {
        FileKind::Docx
    } else if e == seq!['p', 'd', 'f'] {
        FileKind::Pdf
    } else if e == seq!['x', 'l', 's', 'x'] || e == seq!['x', 'l', 's'] || e == seq![
        'x',
        'l',
        's',
        'm',
    ] || e == seq!['o', 'd', 's'] {
        FileKind::Spreadsheet
    } else {
        FileKind::Text
    }
}

fn lower_char(c: char) -> (r: char)
    ensures
        r == ascii_lower(c),
{
    if 'A' <= c && c <= 'Z' {
        ((c as u8) + 32) as char
    } else {
        c
    }
}

/// Whether `v` holds exactly the characters of `w`.
fn same_chars(v: &Vec<char>, w: &Vec<char>) -> (b: bool)
    ensures
        b == (v@ == w@),
{
    if v.len() != w.len() {
        return false;
    }
    let mut i: usize = 0;
    while i < v.len()
        invariant
            i <= v.len() == w.len(),
            forall|k: int| 0 <= k < i ==> v@[k] == w@[k],
        decreases v.len() - i,
    {
        if v[i] != w[i] {
            return false;
        }
        i += 1;
    }
    assert(v@ =~= w@);
    true
}

/// The kind of a file with extension `extension` (without the dot; empty when the file
/// has none), compared without regard to case.
pub fn file_kind(extension: &str) -> (k: FileKind)
    ensures
        k == kind_of(extension@),
{
    let chars = crate::text::chars_of(extension);
    let mut e: Vec<char> = Vec::new();
    let mut i: usize = 0;
    while i < chars.len()
        invariant
            i <= chars.len(),
            e@ == lower(chars@.take(i as int)),
        decreases chars.len() - i,
    {
        e.push(lower_char(chars[i]));
        i += 1;
        assert(e@ =~= lower(chars@.take(i as int)));
    }
    assert(chars@.take(i as int) =~= chars@);
    if same_chars(&e, &vec!['d', 'o', 'c', 'x']) {
        FileKind::Docx
    } else if same_chars(&e, &vec!['p', 'd', 'f']) {
        FileKind::Pdf
    } else if same_chars(&e, &vec!['x', 'l', 's', 'x']) || same_chars(&e, &vec!['x', 'l', 's'])
        || same_chars(&e, &vec!['x', 'l', 's', 'm']) || same_chars(&e, &vec!['o', 'd', 's']) {
        FileKind::Spreadsheet
    } else {
        FileKind::Text
    }
}


/// A row of a sheet as a line of text: its cells separated by tabs, then a newline.
pub open spec fn row_line(cells: Seq<Seq<char>>) -> Seq<char> {
    join(cells, '\t') + seq!['\n']
}

/// The lines of the rows, one after the other.
pub open spec fn rows_text(rows: Seq<Seq<Seq<char>>>) -> Seq<char>
    decreases rows.len(),
{
    if rows.len() == 0 {
        seq![]
    } else {
        rows_text(rows.drop_last()) + row_line(rows.last())
    }
}

/// The text of all sheets that could be read, one after the other (`None` stands for a
/// sheet that could not be read, which is skipped).
pub open spec fn sheets_text(sheets: Seq<Option<Seq<Seq<Seq<char>>>>>) -> Seq<char>
    decreases sheets.len(),
{
    if sheets.len() == 0 {
        seq![]
    } else {
        sheets_text(sheets.drop_last()) + match sheets.last() {
            Some(rows) => rows_text(rows),
            None => seq![],
        }
    }
}

/// The text of a spreadsheet whose sheets, rows and cells (each cell already as text)
/// are given, `None` for a sheet that could not be read: every row of the sheets that
/// could be read becomes a line of tab-separated cells, sheet after sheet.
pub fn extract_spreadsheet(sheets: &Vec<Option<Vec<Vec<String>>>>) -> (r: String)
    ensures
        r@ == sheets_text(sheets.deep_view()),
{
    let ghost dv = sheets.deep_view();
    let mut out = String::new();
    let mut s: usize = 0;
    while s < sheets.len()
        invariant
            s <= sheets.len(),
            dv == sheets.deep_view(),
            out@ == sheets_text(dv.take(s as int)),
        decreases sheets.len() - s,
    {
        assert(dv.take(s + 1).drop_last() =~= dv.take(s as int));
        assert(dv.take(s + 1).last() == dv[s as int]);
        let rows = match &sheets[s] {
            Some(rows) => rows,
            None => {
                s += 1;
                continue;
            },
        };
        let ghost rv = dv[s as int]->0;
        assert(rv == rows.deep_view());
        let ghost before = out@;
        let mut r: usize = 0;
        while r < rows.len()
            invariant
                r <= rows.len(),
                rv == rows.deep_view(),
                out@ == before + rows_text(rv.take(r as int)),
            decreases rows.len() - r,
        {
            let cells = &rows[r];
            let ghost cv = rv[r as int];
            assert(cv == cells.deep_view());
            let ghost line_start = out@;
            let mut c: usize = 0;
            while c < cells.len()
                invariant
                    c <= cells.len(),
                    cv == cells.deep_view(),
                    out@ == line_start + join(cv.take(c as int), '\t'),
                decreases cells.len() - c,
            {
                let ghost before_cell = out@;
                if c > 0 {
                    proof {
                        reveal_strlit("\t");
                        assert("\t"@ =~= seq!['\t']);
                    }
                    out.append("\t");
                    assert(out@ == before_cell + seq!['\t']);
                }
                out.append(cells[c].as_str());
                proof {
                    assert(cv[c as int] == cells[c as int]@);
                    let t = cv.take(c + 1);
                    assert(t.drop_last() =~= cv.take(c as int));
                    assert(t.last() == cells[c as int]@);
                    if c == 0 {
                        assert(join(t, '\t') == t[0]);
                    }
                }
                c += 1;
                assert(out@ =~= line_start + join(cv.take(c as int), '\t'));
            }
            proof {
                reveal_strlit("\n");
                assert("\n"@ =~= seq!['\n']);
            }
            out.append("\n");
            assert(cv.take(c as int) =~= cv);
            assert(rv.take(r + 1).last() == cv);
            assert(out@ == line_start + join(cv, '\t') + seq!['\n']);
            assert(rv.take(r + 1).drop_last() =~= rv.take(r as int));
            r += 1;
            assert(out@ =~= before + rows_text(rv.take(r as int)));
        }
        assert(rv.take(r as int) =~= rv);
        s += 1;
        assert(out@ =~= sheets_text(dv.take(s as int)));
    }
    assert(dv.take(s as int) =~= dv);
    out
}

/// A piece of a run in a Word document: text, or something else (a tab, a break, a
/// drawing, ...), which holds no text.
pub enum DocxRunPart {
    Text(String),
    Other,
}

/// A piece of a paragraph in a Word document: a run of text pieces, or something else
/// (an insertion, a hyperlink, a bookmark, ...), whose text is not read.
pub enum DocxParagraphPart {
    Run(Vec<DocxRunPart>),
    Other,
}

/// A top-level piece of a Word document: a paragraph, or something else (a table, a
/// section, ...), whose text is not read.
pub enum DocxBlock {
    Paragraph(Vec<DocxParagraphPart>),
    Other,
}

/// The text pieces of a run, one after the other.
pub open spec fn run_text(parts: Seq<DocxRunPart>) -> Seq<char>
    decreases parts.len(),
{
    if parts.len() == 0 {
        seq![]
    } else {
        run_text(parts.drop_last()) + match parts.last() {
            DocxRunPart::Text(t) => t@,
            DocxRunPart::Other => seq![],
        }
    }
}

/// The text of the runs of a paragraph, one after the other.
pub open spec fn paragraph_text(parts: Seq<DocxParagraphPart>) -> Seq<char>
    decreases parts.len(),
{
    if parts.len() == 0 {
        seq![]
    } else {
        paragraph_text(parts.drop_last()) + match parts.last() {
            DocxParagraphPart::Run(r) => run_text(r@),
            DocxParagraphPart::Other => seq![],
        }
    }
}

/// The text of a document: each paragraph's text followed by a newline.
pub open spec fn document_text(blocks: Seq<DocxBlock>) -> Seq<char>
    decreases blocks.len(),
{
    if blocks.len() == 0 {
        seq![]
    } else {
        document_text(blocks.drop_last()) + match blocks.last() {
            DocxBlock::Paragraph(p) => paragraph_text(p@) + seq!['\n'],
            DocxBlock::Other => seq![],
        }
    }
}

/// Appends the text of the document pieces `children` to `output`: the text of every
/// paragraph, each followed by a newline.
pub fn collect_text(children: &Vec<DocxBlock>, output: &mut String)
    ensures
        final(output)@ == old(output)@ + document_text(children@),
{
    let mut i: usize = 0;
    while i < children.len()
        invariant
            i <= children.len(),
            output@ == old(output)@ + document_text(children@.take(i as int)),
        decreases children.len() - i,
    {
        assert(children@.take(i + 1).drop_last() =~= children@.take(i as int));
        assert(children@.take(i + 1).last() == children@[i as int]);
        let ghost block_start = output@;
        match &children[i] {
            DocxBlock::Paragraph(parts) => {
                let ghost start = output@;
                let mut j: usize = 0;
                while j < parts.len()
                    invariant
                        j <= parts.len(),
                        output@ == start + paragraph_text(parts@.take(j as int)),
                    decreases parts.len() - j,
                {
                    assert(parts@.take(j + 1).drop_last() =~= parts@.take(j as int));
                    assert(parts@.take(j + 1).last() == parts@[j as int]);
                    match &parts[j] {
                        DocxParagraphPart::Run(items) => {
                            let ghost run_start = output@;
                            let mut k: usize = 0;
                            while k < items.len()
                                invariant
                                    k <= items.len(),
                                    output@ == run_start + run_text(items@.take(k as int)),
                                decreases items.len() - k,
                            {
                                assert(items@.take(k + 1).drop_last() =~= items@.take(k as int));
                                assert(items@.take(k + 1).last() == items@[k as int]);
                                match &items[k] {
                                    DocxRunPart::Text(t) => {
                                        output.append(t.as_str());
                                    },
                                    DocxRunPart::Other => {},
                                }
                                k += 1;
                                assert(output@ =~= run_start + run_text(items@.take(k as int)));
                            }
                            assert(items@.take(k as int) =~= items@);
                        },
                        DocxParagraphPart::Other => {},
                    }
                    j += 1;
                    assert(output@ =~= start + paragraph_text(parts@.take(j as int)));
                }
                assert(parts@.take(j as int) =~= parts@);
                proof {
                    reveal_strlit("\n");
                    assert("\n"@ =~= seq!['\n']);
                }
                output.append("\n");
                assert(output@ == block_start + paragraph_text(parts@) + seq!['\n']);
            },
            DocxBlock::Other => {},
        }
        i += 1;
        assert(output@ =~= old(output)@ + document_text(children@.take(i as int)));
    }
    assert(children@.take(i as int) =~= children@);
}

} // verus!
