use snout::extract::{
    collect_text, extract_spreadsheet, file_kind, DocxBlock, DocxParagraphPart, DocxRunPart,
    FileKind,
};

#[test]
fn extensions_pick_the_reader() {
    assert_eq!(file_kind("docx"), FileKind::Docx);
    assert_eq!(file_kind("DocX"), FileKind::Docx);
    assert_eq!(file_kind("PDF"), FileKind::Pdf);
    assert_eq!(file_kind("xlsx"), FileKind::Spreadsheet);
    assert_eq!(file_kind("XLS"), FileKind::Spreadsheet);
    assert_eq!(file_kind("xlsm"), FileKind::Spreadsheet);
    assert_eq!(file_kind("ods"), FileKind::Spreadsheet);
}

#[test]
fn other_extensions_are_text() {
    assert_eq!(file_kind("txt"), FileKind::Text);
    assert_eq!(file_kind("md"), FileKind::Text);
    assert_eq!(file_kind("rs"), FileKind::Text);
    assert_eq!(file_kind(""), FileKind::Text);
    assert_eq!(file_kind("docx "), FileKind::Text);
    assert_eq!(file_kind("pdfx"), FileKind::Text);
}

fn cells(rows: &[&[&str]]) -> Vec<Vec<String>> {
    rows.iter().map(|r| r.iter().map(|c| c.to_string()).collect()).collect()
}

#[test]
fn spreadsheet_rows_become_tab_separated_lines() {
    let sheets = vec![
        Some(cells(&[&["a", "b"], &["c"]])),
        Some(cells(&[&[]])),
        Some(cells(&[&["1", "", "3"]])),
    ];
    assert_eq!(extract_spreadsheet(&sheets), "a\tb\nc\n\n1\t\t3\n");
}

#[test]
fn empty_spreadsheet_has_no_text() {
    assert_eq!(extract_spreadsheet(&vec![]), "");
    assert_eq!(extract_spreadsheet(&vec![Some(vec![])]), "");
}

#[test]
fn unreadable_sheets_are_skipped() {
    let sheets = vec![None, Some(cells(&[&["x", "y"]])), None, Some(cells(&[&["z"]]))];
    assert_eq!(extract_spreadsheet(&sheets), "x\ty\nz\n");
    assert_eq!(extract_spreadsheet(&vec![None, None]), "");
}

#[test]
fn docx_text_joins_runs_and_ends_paragraphs() {
    let blocks = vec![
        DocxBlock::Paragraph(vec![
            DocxParagraphPart::Run(vec![
                DocxRunPart::Text("Hel".to_string()),
                DocxRunPart::Other,
                DocxRunPart::Text("lo".to_string()),
            ]),
            DocxParagraphPart::Other,
            DocxParagraphPart::Run(vec![DocxRunPart::Text("!".to_string())]),
        ]),
        DocxBlock::Other,
        DocxBlock::Paragraph(vec![]),
    ];
    let mut out = String::from(">");
    collect_text(&blocks, &mut out);
    assert_eq!(out, ">Hello!\n\n");
}
