use line_comment::comment::{
    find_line_comment, get_comment_token_and_position, handle_comment_continue,
    toggle_line_comments,
};
use line_comment::document::Document;
use line_comment::selection::Selection;

fn chars(s: &str) -> Vec<char> {
    s.chars().collect()
}

fn doc_of(s: &str) -> Document {
    Document::from_chars(&chars(s))
}

fn text_of(d: &Document) -> String {
    d.to_chars().into_iter().collect()
}

fn tokens_of(ts: &[&str]) -> Vec<Vec<char>> {
    ts.iter().map(|t| chars(t)).collect()
}

fn matched(tokens: &[Vec<char>], r: Option<(usize, usize)>) -> Option<(String, usize)> {
    r.map(|(i, p)| (tokens[i].iter().collect::<String>(), p))
}

#[test]
fn test_toggle_line_comments() {
    // four lines, two space indented, except for line 1 which is blank.
    let mut doc = doc_of("  1\n\n  2\n  3");
    // select whole document
    let mut selection = Selection::single(0, doc.len_chars() - 1);

    let res = find_line_comment(&chars("//"), &doc, &vec![0, 1, 2]);
    // (commented = false, to_change = [line 0, line 2], min = col 2, margin = 0)
    assert_eq!(res, (false, vec![0, 2], 2, 0));

    // comment
    let len = doc.len_chars();
    let transaction = toggle_line_comments(&doc, &selection, None);
    doc = transaction.apply_to(&doc);
    selection = selection.map_through(&transaction, len);

    assert_eq!(text_of(&doc), "  // 1\n\n  // 2\n  // 3");

    // uncomment
    let len = doc.len_chars();
    let transaction = toggle_line_comments(&doc, &selection, None);
    doc = transaction.apply_to(&doc);
    selection = selection.map_through(&transaction, len);
    assert_eq!(text_of(&doc), "  1\n\n  2\n  3");
    assert!(selection.len() == 1);

    // 0 margin comments
    doc = doc_of("  //1\n\n  //2\n  //3");
    // reset the selection.
    selection = Selection::single(0, doc.len_chars() - 1);

    let len = doc.len_chars();
    let transaction = toggle_line_comments(&doc, &selection, None);
    doc = transaction.apply_to(&doc);
    selection = selection.map_through(&transaction, len);
    assert_eq!(text_of(&doc), "  1\n\n  2\n  3");
    assert!(selection.len() == 1);

    // 0 margin comments, with no space
    doc = doc_of("//");
    // reset the selection.
    selection = Selection::single(0, doc.len_chars() - 1);

    let len = doc.len_chars();
    let transaction = toggle_line_comments(&doc, &selection, None);
    doc = transaction.apply_to(&doc);
    selection = selection.map_through(&transaction, len);
    assert_eq!(text_of(&doc), "");
    assert!(selection.len() == 1);
}

#[test]
fn test_get_comment_token_and_position() {
    let doc = doc_of("# 1\n    // 2    \n///3\n/// 4\n//! 5\n//! /// 6\n7 ///\n;8\n//////////// 9");
    let tokens = tokens_of(&["//", "///", "//!", ";"]);

    assert_eq!(matched(&tokens, get_comment_token_and_position(&doc, 0, &tokens)), None);
    assert_eq!(
        matched(&tokens, get_comment_token_and_position(&doc, 1, &tokens)),
        Some(("//".to_string(), 5))
    );
    assert_eq!(
        matched(&tokens, get_comment_token_and_position(&doc, 2, &tokens)),
        Some(("///".to_string(), 2))
    );
    assert_eq!(
        matched(&tokens, get_comment_token_and_position(&doc, 3, &tokens)),
        Some(("///".to_string(), 2))
    );
    assert_eq!(
        matched(&tokens, get_comment_token_and_position(&doc, 4, &tokens)),
        Some(("//!".to_string(), 2))
    );
    assert_eq!(
        matched(&tokens, get_comment_token_and_position(&doc, 5, &tokens)),
        Some(("//!".to_string(), 2))
    );
    assert_eq!(matched(&tokens, get_comment_token_and_position(&doc, 6, &tokens)), None);
    assert_eq!(
        matched(&tokens, get_comment_token_and_position(&doc, 7, &tokens)),
        Some((";".to_string(), 0))
    );
    assert_eq!(
        matched(&tokens, get_comment_token_and_position(&doc, 8, &tokens)),
        Some(("///".to_string(), 2))
    );
}

#[test]
fn test_handle_continue_comment() {
    let mut doc = doc_of("// 1\n");
    let mut text: String = text_of(&doc);
    let comment_tokens = tokens_of(&["//", "///"]);

    let prefix: String = handle_comment_continue(&doc, 0, &comment_tokens).into_iter().collect();
    text.push_str(&prefix);

    assert_eq!(text, String::from("// 1\n// "));

    doc = doc_of("///2\n");
    text = text_of(&doc);

    let prefix: String = handle_comment_continue(&doc, 0, &comment_tokens).into_iter().collect();
    text.push_str(&prefix);

    assert_eq!(text, String::from("///2\n/// "));

    doc = doc_of("      // 3\n");
    text = text_of(&doc);

    let prefix: String = handle_comment_continue(&doc, 0, &comment_tokens).into_iter().collect();
    text.push_str(&prefix);

    doc = doc_of("///          4\n");
    text = text_of(&doc);

    let prefix: String = handle_comment_continue(&doc, 0, &comment_tokens).into_iter().collect();
    text.push_str(&prefix);
    let _ = text;
}

#[test]
fn toggle_twice_restores_text() {
    // Toggling twice with the same token reproduces the original text.
    let original = "fn main() {\n\n    let x = 1;\n}";
    let mut doc = doc_of(original);
    let mut selection = Selection::single(0, doc.len_chars());

    let len = doc.len_chars();
    let t1 = toggle_line_comments(&doc, &selection, None);
    doc = t1.apply_to(&doc);
    selection = selection.map_through(&t1, len);
    assert_eq!(text_of(&doc), "// fn main() {\n\n//     let x = 1;\n// }");

    let t2 = toggle_line_comments(&doc, &selection, None);
    doc = t2.apply_to(&doc);
    assert_eq!(text_of(&doc), original);
}

#[test]
fn round_trip_deletion_removes_token_and_margin() {
    // Uniformly commented lines with margin 1: uncommenting deletes exactly
    // the token and the one space after it.
    let mut doc = doc_of("  // a\n  // b");
    let selection = Selection::single(0, doc.len_chars() - 1);
    let res = find_line_comment(&chars("//"), &doc, &vec![0, 1]);
    assert_eq!(res, (true, vec![0, 1], 2, 1));
    let t = toggle_line_comments(&doc, &selection, None);
    doc = t.apply_to(&doc);
    assert_eq!(text_of(&doc), "  a\n  b");
}

#[test]
fn blank_lines_are_neutral() {
    // Blank lines never reach the change list and never affect the commented flag,
    // the margin, or the least column.
    let doc = doc_of("  // x\n\n   \t\n  // y");
    let with_blanks = find_line_comment(&chars("//"), &doc, &vec![0, 1, 2, 3]);
    let without = find_line_comment(&chars("//"), &doc, &vec![0, 3]);
    assert_eq!(with_blanks, (true, vec![0, 3], 2, 1));
    assert_eq!(with_blanks, without);
}

#[test]
fn margin_is_zero_iff_some_token_lacks_space() {
    let doc = doc_of("// x\n//y");
    let res = find_line_comment(&chars("//"), &doc, &vec![0, 1]);
    assert_eq!(res.3, 0);
    let spaced = doc_of("// x\n// y");
    let res = find_line_comment(&chars("//"), &spaced, &vec![0, 1]);
    assert_eq!(res.3, 1);
}

#[test]
fn matcher_empty_inputs_find_nothing() {
    // An empty token list, or an all-whitespace line, never matches.
    let doc = doc_of("// commented");
    let no_tokens: Vec<Vec<char>> = Vec::new();
    assert_eq!(get_comment_token_and_position(&doc, 0, &no_tokens), None);
    let blank = doc_of(" \t  ");
    let tokens = tokens_of(&["//"]);
    assert_eq!(get_comment_token_and_position(&blank, 0, &tokens), None);
}

#[test]
fn token_longer_than_line_does_not_match() {
    let doc = doc_of("//");
    let res = find_line_comment(&chars("////"), &doc, &vec![0]);
    assert_eq!(res.0, false);
    let tokens = tokens_of(&["////"]);
    assert_eq!(get_comment_token_and_position(&doc, 0, &tokens), None);
}

#[test]
fn blank_selection_is_a_noop() {
    // A selection covering only blank lines yields an empty transaction.
    let mut doc = doc_of("\n   \n\t");
    let selection = Selection::single(0, doc.len_chars() - 1);
    let t = toggle_line_comments(&doc, &selection, None);
    assert_eq!(t.changes.len(), 0);
    doc = t.apply_to(&doc);
    assert_eq!(text_of(&doc), "\n   \n\t");
}

#[test]
fn continuation_aligns_with_comment_body() {
    // The continuation carries the matched token and enough spaces to align
    // with the source comment's body.
    let tokens = tokens_of(&["//", "///"]);
    let doc = doc_of("///          4\n");
    let prefix: String = handle_comment_continue(&doc, 0, &tokens).into_iter().collect();
    assert_eq!(prefix, format!("///{}", " ".repeat(10)));
    let plain = doc_of("no comment here");
    let prefix: String = handle_comment_continue(&plain, 0, &tokens).into_iter().collect();
    assert_eq!(prefix, "");
}

#[test]
fn custom_token_round_trip() {
    let original = "x = 1\ny = 2";
    let mut doc = doc_of(original);
    let selection = Selection::single(0, doc.len_chars() - 1);
    let token = chars("#");
    let t = toggle_line_comments(&doc, &selection, Some(&token));
    doc = t.apply_to(&doc);
    assert_eq!(text_of(&doc), "# x = 1\n# y = 2");
    let selection = Selection::single(0, doc.len_chars() - 1);
    let t = toggle_line_comments(&doc, &selection, Some(&token));
    doc = t.apply_to(&doc);
    assert_eq!(text_of(&doc), original);
}
