use satteri::delim_runs::{delim_run_can_close, delim_run_can_open, TableParseMode};
use satteri::Options;

fn punct(c: char) -> bool {
    c.is_ascii_punctuation()
}

fn opens(s: &str, run_len: usize, ix: usize, mode: TableParseMode, options: Options) -> bool {
    delim_run_can_open(s, &s[ix..], run_len, ix, mode, options, &punct)
}

fn closes(s: &str, run_len: usize, ix: usize, mode: TableParseMode, options: Options) -> bool {
    delim_run_can_close(s, &s[ix..], run_len, ix, mode, options, &punct)
}

#[test]
fn emphasis_flanking() {
    let o = Options::empty();
    let m = TableParseMode::Disabled;
    // `*a`: at the start of the text, before a letter.
    assert!(opens("*a", 1, 0, m, o));
    assert!(!closes("*a", 1, 0, m, o));
    // `a*b`: `*` may open and close inside a word.
    assert!(opens("a*b", 1, 1, m, o));
    assert!(closes("a*b", 1, 1, m, o));
    // `a_b`: `_` may do neither inside a word.
    assert!(!opens("a_b", 1, 1, m, o));
    assert!(!closes("a_b", 1, 1, m, o));
    // A run at the end of the text closes, unless whitespace precedes it.
    assert!(!opens("a **", 2, 2, m, o));
    assert!(!closes("a **", 2, 2, m, o));
    assert!(closes("a**", 2, 1, m, o));
    // Before whitespace nothing opens.
    assert!(!opens("a * b", 1, 2, m, o));
    // `_` after punctuation and before a letter opens.
    assert!(opens("(_a", 1, 1, m, o));
    assert!(!closes("(_a", 1, 1, m, o));
}

#[test]
fn table_cells() {
    let o = Options::empty();
    // After a cell's `|` a run opens, and does not close.
    assert!(opens("|_a", 1, 1, TableParseMode::Active, o));
    assert!(!closes("|_.", 1, 1, TableParseMode::Active, o));
    assert!(closes("|_.", 1, 1, TableParseMode::Disabled, o));
    // An escaped `|` is no cell border.
    assert!(closes("\\|_.", 1, 2, TableParseMode::Active, o));
    // Before a cell's `|` a run closes and does not open.
    assert!(closes("a_|", 1, 1, TableParseMode::Active, o));
    assert!(!opens("a*|", 1, 1, TableParseMode::Active, o));
}

#[test]
fn tildes_and_quotes() {
    let m = TableParseMode::Disabled;
    let strike = Options::from_bits_truncate(Options::ENABLE_STRIKETHROUGH);
    let sub = Options::from_bits_truncate(Options::ENABLE_SUBSCRIPT);
    // `a~~/b`: a double tilde before punctuation after a letter does not open.
    assert!(!opens("a~~/b", 2, 1, m, strike));
    assert!(opens("a~~b", 2, 1, m, strike));
    // A single tilde with strikethrough follows the flanking rules.
    assert!(!opens("a~.b", 1, 1, m, strike));
    assert!(opens(" ~.b", 1, 1, m, strike));
    // With subscript a single tilde after a letter closes.
    assert!(closes("a~.", 1, 1, m, sub));
    // A double quote opens after a letter when a letter follows.
    assert!(opens("x\"a", 1, 1, m, Options::empty()));
    // An apostrophe after `)` does not open.
    assert!(!opens(")'.", 1, 1, m, Options::empty()));
    assert!(opens("('.", 1, 1, m, Options::empty()));
    // Non-ASCII text around a run.
    assert!(opens("é*a", 1, 2, m, Options::empty()));
    assert!(closes("a*é", 1, 1, m, Options::empty()));
}
