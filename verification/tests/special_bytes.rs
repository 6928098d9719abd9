use satteri::special_bytes::{
    compute_lookup, create_lut, iterate_special_bytes, special_bytes, LoopInstruction,
};
use satteri::Options;

fn check_expected_indices(bytes: &[u8], expected: &[usize], skip: usize) {
    let mut opts = Options::empty();
    opts.insert(Options::ENABLE_MATH);
    opts.insert(Options::ENABLE_TABLES);
    opts.insert(Options::ENABLE_FOOTNOTES);
    opts.insert(Options::ENABLE_STRIKETHROUGH);
    opts.insert(Options::ENABLE_SUPERSCRIPT);
    opts.insert(Options::ENABLE_TASKLISTS);

    let lut = create_lut(&opts);
    let mut indices = vec![];

    iterate_special_bytes::<_, i32>(&lut, bytes, 0, |ix, _byte_ty| {
        indices.push(ix);
        LoopInstruction::ContinueAndSkip(skip)
    });

    assert_eq!(&indices[..], expected);
}

#[test]
fn simple_no_match() {
    check_expected_indices("abcdef0123456789".as_bytes(), &[], 0);
}

#[test]
fn simple_match() {
    check_expected_indices("*bcd&f0123456789".as_bytes(), &[0, 4], 0);
}

#[test]
fn single_open_fish() {
    check_expected_indices("<".as_bytes(), &[0], 0);
}

#[test]
fn long_match() {
    check_expected_indices("0123456789abcde~*bcd&f0".as_bytes(), &[15, 16, 20], 0);
}

#[test]
fn border_skip() {
    check_expected_indices("0123456789abcde~~~~d&f0".as_bytes(), &[15, 20], 3);
}

#[test]
fn exhaustive_search() {
    let chars = [
        b'\n', b'\r', b'*', b'_', b'~', b'^', b'|', b'&', b'\\', b'[', b']', b'<', b'!', b'`',
        b'$', b'{', b'}',
    ];

    for &c in &chars {
        for i in 0u8..=255 {
            if !chars.contains(&i) {
                // full match
                let mut buf = [i; 18];
                buf[3] = c;
                buf[6] = c;

                check_expected_indices(&buf[..], &[3, 6], 0);
            }
        }
    }
}

#[test]
fn break_returns_the_callback_value() {
    let lut = create_lut(&Options::empty());
    let r = iterate_special_bytes(&lut, b"ab*cd", 0, |ix, b| {
        LoopInstruction::BreakAtWith(ix + 10, Some(b))
    });
    assert_eq!(r, (12, Some(b'*')));
    let r = iterate_special_bytes::<_, u8>(&lut, b"abcd", 1, |_, _| {
        LoopInstruction::ContinueAndSkip(0)
    });
    assert_eq!(r, (4, None));
}

#[test]
fn bitmap_and_table_agree_without_mdx_directive_gfm() {
    let mut opts = Options::empty();
    opts.insert(Options::ENABLE_MATH);
    opts.insert(Options::ENABLE_TABLES);
    opts.insert(Options::ENABLE_SMART_PUNCTUATION);
    let table = special_bytes(&opts);
    let lookup = compute_lookup(&opts);
    for b in 0u8..=255 {
        let in_map = b < 128 && (lookup[(b & 0x0f) as usize] >> (b >> 4)) & 1 == 1;
        assert_eq!(in_map, table[b as usize], "byte {b}");
    }
}

#[test]
fn gfm_directive_and_mdx_bytes_only_in_table() {
    let mut opts = Options::empty();
    opts.insert(Options::ENABLE_GFM);
    opts.insert(Options::ENABLE_DIRECTIVE);
    opts.insert(Options::ENABLE_MDX);
    let table = special_bytes(&opts);
    for b in [b'h', b'H', b'w', b'W', b'@', b':', b'{', b'}'] {
        assert!(table[b as usize]);
    }
    assert!(!table[b'$' as usize]);
    let lookup = compute_lookup(&opts);
    assert_eq!((lookup[(b':' & 0x0f) as usize] >> (b':' >> 4)) & 1, 0);
}
