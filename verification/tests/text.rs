use crust::display_width;
use crust::text::{clean_wiki_extract, format_markdown_tables, format_table, Align};

fn cells(rows: &[&[&str]]) -> Vec<Vec<String>> {
    rows.iter().map(|r| r.iter().map(|c| c.to_string()).collect()).collect()
}

#[test]
fn a_table_is_drawn_with_a_rule_under_the_header() {
    let rows = cells(&[&["a", "b"], &["1", "22"]]);
    let out = format_table(&rows, &vec![Align::Left, Align::Right], 80);
    assert_eq!(out, " a │  b\n ──┼────\n 1 │ 22");
}

#[test]
fn short_rows_are_widened_and_alignments_default_to_left() {
    let rows = cells(&[&["h1", "h2", "h3"], &["x"]]);
    let out = format_table(&rows, &vec![Align::Center], 80);
    assert_eq!(out, " h1 │ h2 │ h3\n ───┼────┼────\n x  │    │   ");
}

#[test]
fn centred_cells_put_the_odd_space_on_the_right() {
    let rows = cells(&[&["abcd"], &["a"]]);
    let out = format_table(&rows, &vec![Align::Center], 80);
    assert_eq!(out, " abcd\n ─────\n  a  ");
}

#[test]
fn an_empty_table_draws_nothing() {
    assert_eq!(format_table(&[], &[], 80), "");
    assert_eq!(format_table(&[Vec::new()], &[], 80), "");
}

#[test]
fn a_header_without_body_rows_ends_after_the_rule() {
    let rows = cells(&[&["ab"]]);
    assert_eq!(format_table(&rows, &[], 80), " ab\n ───\n");
}

#[test]
fn wide_columns_shrink_and_wrap_to_fit() {
    let rows = cells(&[&["aaaa bbbb", "c"]]);
    // Natural widths 9 and 1, framing 6: 16 > 12, so the first column
    // loses columns until 5 + 1 + 6 = 12 fits.
    let out = format_table(&rows, &[], 12);
    assert_eq!(out, " aaaa  │ c\n bbbb  │  \n ──────┼───\n");
}

#[test]
fn long_words_are_cut() {
    let rows = cells(&[&["abcdefgh"]]);
    let out = format_table(&rows, &[], 7);
    assert_eq!(out, " abcd\n efgh\n ─────\n");
}

#[test]
fn markdown_tables_are_found_in_text() {
    let body = "x\n| a | b |\n|---|--:|\n| 1 | 22 |\ny";
    assert_eq!(format_markdown_tables(body, 80), "x\n a │  b\n ──┼────\n 1 │ 22\ny");
}

#[test]
fn text_without_tables_passes_through() {
    assert_eq!(format_markdown_tables("one\r\ntwo\n", 80), "one\r\ntwo\n");
    assert_eq!(format_markdown_tables("a\n", 80), "a\n");
    assert_eq!(format_markdown_tables("", 80), "");
    assert_eq!(format_markdown_tables("| just | pipes |\nno separator", 80), "| just | pipes |\nno separator");
    assert_eq!(format_markdown_tables("|a|\n|-x-|\n", 80), "|a|\n|-x-|\n");
}

#[test]
fn a_separator_row_needs_dashes_in_every_cell() {
    assert_eq!(format_markdown_tables("|a|b|\n|--|::|", 80), "|a|b|\n|--|::|");
    assert_eq!(format_markdown_tables("|a|b|\n|:-:|:-|", 80), " a │ b\n ──┼───\n");
}

#[test]
fn a_display_formula_stands_on_its_own_line() {
    let text = "Energy is\n\n  E\n  {\\displaystyle E={\\frac {a}{b}}}\nmore text.";
    assert_eq!(clean_wiki_extract(text), "Energy is\n\n    E=(a)/(b)\nmore text.");
}

#[test]
fn an_inline_formula_joins_its_sentence() {
    let text = "The mass\n  m\n  {\\displaystyle m}\n is small.";
    assert_eq!(clean_wiki_extract(text), "The massm is small.");
}

#[test]
fn symbols_become_characters() {
    let text = "Angle\n\n  {\\displaystyle \\alpha +\\beta \\sqrt {2}}\nend";
    assert_eq!(clean_wiki_extract(text), "Angle\n\n    α +β √(2)\nend");
}

#[test]
fn empty_brackets_and_blank_runs_go() {
    assert_eq!(clean_wiki_extract("Smith (; ), born here."), "Smith, born here.");
    assert_eq!(clean_wiki_extract("a [ ] b"), "a b");
    assert_eq!(clean_wiki_extract("Helium () is a gas."), "Helium is a gas.");
    assert_eq!(clean_wiki_extract("x\n\n\n\ny"), "x\n\ny");
    assert_eq!(clean_wiki_extract("  indented  text  "), "  indented text");
    assert_eq!(clean_wiki_extract("word ."), "word.");
}

#[test]
fn gaps_are_squeezed_and_punctuation_closes_up() {
    assert_eq!(clean_wiki_extract("a  b ,c   d ."), "a b,c d.");
    assert_eq!(clean_wiki_extract("  lead   and trail   "), "  lead and trail");
}

#[test]
fn every_line_of_a_table_fits_a_budget_of_six_per_column() {
    let rows = cells(&[
        &["name", "description"],
        &["alpha", "the first letter of the Greek alphabet"],
        &["omega", "the last\nletter"],
    ]);
    for max_width in [11, 12, 16, 20, 30] {
        let out = format_table(&rows, &[], max_width);
        for line in out.split('\n') {
            assert!(display_width(line) <= max_width, "{:?} at {}", line, max_width);
        }
    }
}
