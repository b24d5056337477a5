use term_snip::wrap::{pad, wrap};

fn strings(items: &[&str]) -> Vec<String> {
    items.iter().map(|s| s.to_string()).collect()
}

#[test]
fn short_text_is_one_chunk() {
    assert_eq!(wrap("test", 20, false), strings(&["test"]));
}

#[test]
fn seventeen_characters_in_six_columns() {
    let chunks = wrap("Lorem ipsum dolor", 6, false);
    assert_eq!(chunks, strings(&["Lorem ", "ipsum ", "dolor"]));
    let lengths: Vec<usize> = chunks.iter().map(|c| c.chars().count()).collect();
    assert_eq!(lengths, vec![6, 6, 5]);
}

#[test]
fn text_as_wide_as_terminal_leaves_empty_rest() {
    assert_eq!(wrap("abcdef", 6, false), strings(&["abcdef", ""]));
}

#[test]
fn multiple_of_width_leaves_empty_rest() {
    assert_eq!(wrap("abcdef", 3, false), strings(&["abc", "def", ""]));
}

#[test]
fn empty_text_is_one_empty_chunk() {
    assert_eq!(wrap("", 5, false), strings(&[""]));
}

#[test]
fn empty_text_fills_a_whole_line() {
    assert_eq!(wrap("", 5, true), strings(&["     "]));
}

#[test]
fn fill_pads_the_rest() {
    assert_eq!(wrap("abcde", 3, true), strings(&["abc", "de "]));
}

#[test]
fn fill_pads_an_empty_rest() {
    assert_eq!(wrap("abc", 3, true), strings(&["abc", "   "]));
}

#[test]
fn width_of_one_gives_single_characters() {
    assert_eq!(wrap("abc", 1, false), strings(&["a", "b", "c", ""]));
}

#[test]
fn no_columns_no_cut() {
    assert_eq!(wrap("abc", 0, false), strings(&["abc"]));
    assert_eq!(wrap("abc", 0, true), strings(&["abc"]));
    assert_eq!(wrap("", 0, true), strings(&[""]));
}

#[test]
fn wide_characters_count_once() {
    assert_eq!(wrap("日本語のテキスト", 3, false), strings(&["日本語", "のテキ", "スト"]));
}

#[test]
fn chunk_count_and_lengths() {
    let text = "abcdefghijklmnopqrstuvwxyz";
    for len in 0..text.len() + 1 {
        for width in 1..9usize {
            let chunks = wrap(&text[..len], width, false);
            assert_eq!(chunks.len(), len / width + 1);
            for chunk in &chunks[..len / width] {
                assert_eq!(chunk.len(), width);
            }
            assert_eq!(chunks[len / width].len(), len % width);
            assert_eq!(chunks.concat(), &text[..len]);
        }
    }
}

#[test]
fn filled_chunks_are_all_as_wide_as_the_terminal() {
    let text = "abcdefghijklmnopqrstuvwxyz";
    for len in 0..text.len() + 1 {
        for width in 1..9usize {
            let chunks = wrap(&text[..len], width, true);
            assert_eq!(chunks.len(), len / width + 1);
            for chunk in &chunks {
                assert_eq!(chunk.len(), width);
            }
            assert_eq!(chunks.concat().trim_end(), &text[..len]);
        }
    }
}

#[test]
fn pad_adds_spaces_up_to_width() {
    assert_eq!(pad("hi", 10), "hi        ");
    assert_eq!(pad("hi", 10).len(), 10);
    assert_eq!(pad("", 2), "  ");
}

#[test]
fn pad_leaves_wide_lines_alone() {
    assert_eq!(pad("hello", 5), "hello");
    assert_eq!(pad("hello", 3), "hello");
    assert_eq!(pad("hello", 0), "hello");
}

#[test]
fn pad_counts_characters() {
    assert_eq!(pad("äö", 4), "äö  ");
}
