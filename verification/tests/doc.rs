use wrasm::studio::complete::context;
use wrasm::studio::doc::{Caret, Doc};
use wrasm::studio::syntax::TokKind;

#[test]
fn round_trips_text() {
    assert_eq!(Doc::from_str("a\nb\nc").text(), "a\nb\nc");
    assert_eq!(Doc::from_str("a\nb\nc").line_count(), 3);
}

#[test]
fn insert_advances_caret() {
    let mut d = Doc::new();
    d.insert("mov");
    assert_eq!(d.text(), "mov");
    assert_eq!(d.caret, Caret { row: 0, col: 3 });
}

#[test]
fn insert_with_newline_splits_and_moves_to_next_row() {
    let mut d = Doc::new();
    d.insert("a\nb");
    assert_eq!(d.text(), "a\nb");
    assert_eq!(d.caret, Caret { row: 1, col: 1 });
}

#[test]
fn insert_in_the_middle_keeps_the_tail() {
    let mut d = Doc::from_str("ad");
    d.set_caret(0, 1);
    d.insert("bc");
    assert_eq!(d.text(), "abcd");
    assert_eq!(d.caret, Caret { row: 0, col: 3 });
}

#[test]
fn backspace_within_and_across_lines() {
    let mut d = Doc::from_str("ab");
    d.set_caret(0, 2);
    d.backspace();
    assert_eq!(d.text(), "a");
    assert_eq!(d.caret, Caret { row: 0, col: 1 });

    let mut d = Doc::from_str("a\nb");
    d.set_caret(1, 0);
    d.backspace(); // joins line 1 onto line 0
    assert_eq!(d.text(), "ab");
    assert_eq!(d.caret, Caret { row: 0, col: 1 });
}

#[test]
fn apply_completion_replaces_the_typed_prefix() {
    // "invoke Crea" with the caret at end; complete the prefix at col 7.
    let mut d = Doc::from_str("invoke Crea");
    d.set_caret(0, 11);
    d.apply_completion(7, "CreateFileW");
    assert_eq!(d.text(), "invoke CreateFileW");
    assert_eq!(d.caret, Caret { row: 0, col: 18 });
}

#[test]
fn completion_context_then_apply_round_trips() {
    // The pieces compose: detect context, apply its replace range.
    let mut d = Doc::from_str("invoke Crea");
    d.set_caret(0, 11);
    let ctx = context(d.line(0), d.caret.col);
    d.apply_completion(ctx.start, "CreateFileW");
    assert_eq!(d.text(), "invoke CreateFileW");
}

#[test]
fn tokens_reflect_edits() {
    let mut d = Doc::new();
    d.insert("mov rax, 1");
    let t = d.tokens(0);
    assert_eq!(t[0].kind, TokKind::Mnemonic);
    assert_eq!(t[1].kind, TokKind::Register);
}

#[test]
fn insert_a_multiline_snippet() {
    let mut d = Doc::from_str("head\ntail");
    d.set_caret(0, 4); // end of "head"
    d.insert("\nmov rax, 1\nret");
    assert_eq!(d.text(), "head\nmov rax, 1\nret\ntail");
    assert_eq!(d.caret, Caret { row: 2, col: 3 });
}

#[test]
fn move_left_right_wrap_across_lines() {
    let mut d = Doc::from_str("ab\ncd");
    d.set_caret(1, 0);
    d.move_left(); // wraps to end of line 0
    assert_eq!(d.caret, Caret { row: 0, col: 2 });
    d.move_right(); // wraps back to start of line 1
    assert_eq!(d.caret, Caret { row: 1, col: 0 });
    // At the very start, left is a no-op.
    d.set_caret(0, 0);
    d.move_left();
    assert_eq!(d.caret, Caret { row: 0, col: 0 });
    // At the very end, right is a no-op.
    d.set_caret(1, 2);
    d.move_right();
    assert_eq!(d.caret, Caret { row: 1, col: 2 });
}

#[test]
fn move_up_down_tracks_the_goal_column() {
    let mut d = Doc::from_str("longline\nhi\nanother");
    d.set_caret(0, 8); // end of "longline" — goal column 8
    d.move_down(); // "hi" (len 2) clamps to col 2
    assert_eq!(d.caret, Caret { row: 1, col: 2 });
    d.move_down(); // "another" (len 7) restores toward the goal → col 7
    assert_eq!(d.caret, Caret { row: 2, col: 7 });
    d.move_up();
    assert_eq!(d.caret, Caret { row: 1, col: 2 }); // "hi" clamps again
}

#[test]
fn home_and_end() {
    let mut d = Doc::from_str("  mov rax, 1");
    d.set_caret(0, 5);
    d.home();
    assert_eq!(d.caret, Caret { row: 0, col: 0 });
    d.end();
    assert_eq!(d.caret, Caret { row: 0, col: 12 });
}

#[test]
fn selection_and_selected_text() {
    let mut d = Doc::from_str("hello\nworld");
    d.set_caret(0, 1);
    d.start_selection();
    d.set_caret(1, 3);
    assert_eq!(d.selected_text().as_deref(), Some("ello\nwor"));
    assert!(d.has_selection());
    d.clear_selection();
    assert!(!d.has_selection());
}

#[test]
fn typing_over_a_selection_replaces_it() {
    let mut d = Doc::from_str("hello");
    d.set_caret(0, 0);
    d.start_selection();
    d.set_caret(0, 5); // select "hello"
    d.insert("bye");
    assert_eq!(d.text(), "bye");
    assert_eq!(d.caret, Caret { row: 0, col: 3 });
    assert!(!d.has_selection());
}

#[test]
fn cut_copy_paste() {
    let mut d = Doc::from_str("abcdef");
    d.set_caret(0, 1);
    d.start_selection();
    d.set_caret(0, 4); // select "bcd"
    assert_eq!(d.copy().as_deref(), Some("bcd"));
    assert_eq!(d.cut().as_deref(), Some("bcd"));
    assert_eq!(d.text(), "aef");
    assert_eq!(d.caret, Caret { row: 0, col: 1 });
    d.insert("bcd"); // "paste"
    assert_eq!(d.text(), "abcdef");
}

#[test]
fn undo_redo_round_trip() {
    let mut d = Doc::new();
    d.insert("mov");
    d.insert(" rax");
    assert_eq!(d.text(), "mov rax");
    assert!(d.undo());
    assert_eq!(d.text(), "mov");
    assert!(d.undo());
    assert_eq!(d.text(), "");
    assert!(!d.undo());
    assert!(d.redo());
    assert_eq!(d.text(), "mov");
    assert!(d.redo());
    assert_eq!(d.text(), "mov rax");
}

#[test]
fn typing_coalesces_into_one_undo() {
    let mut d = Doc::new();
    d.type_char('a');
    d.type_char('b');
    d.type_char('c');
    assert_eq!(d.text(), "abc");
    assert!(d.undo());
    assert_eq!(d.text(), "", "a typing run undoes as one step");
    // A caret move breaks the run into a new undo group.
    d.type_char('x');
    d.move_left();
    d.type_char('y');
    assert_eq!(d.text(), "yx");
    d.undo();
    assert_eq!(d.text(), "x");
}

#[test]
fn edit_clears_redo() {
    let mut d = Doc::new();
    d.insert("a");
    d.undo();
    d.insert("b");
    assert!(!d.redo(), "a fresh edit discards the redo stack");
    assert_eq!(d.text(), "b");
}

#[test]
fn select_all_then_replace() {
    let mut d = Doc::from_str("line1\nline2");
    d.select_all();
    assert_eq!(d.selected_text().as_deref(), Some("line1\nline2"));
    d.insert("x");
    assert_eq!(d.text(), "x");
}

#[test]
fn delete_forward_and_join() {
    let mut d = Doc::from_str("ab\ncd");
    d.set_caret(0, 1);
    d.delete_forward();
    assert_eq!(d.text(), "a\ncd");
    d.set_caret(0, 1);
    d.delete_forward(); // join the next line
    assert_eq!(d.text(), "acd");
}

// ── Core text-editing extensions ─────────────────────────────────────────

#[test]
fn word_movement_skips_words_and_whitespace() {
    // cols: 0-1 spaces, 2-8 foo_bar, 9-10 spaces, 11-13 baz, len 14
    let mut d = Doc::from_str("  foo_bar  baz");
    d.set_caret(0, 14);
    d.move_word_left();
    assert_eq!(d.caret.col, 11);
    d.move_word_left();
    assert_eq!(d.caret.col, 2);
    d.move_word_left();
    assert_eq!(d.caret.col, 0);
    d.move_word_right();
    assert_eq!(d.caret.col, 2);
    d.move_word_right();
    assert_eq!(d.caret.col, 11);
}

#[test]
fn delete_word_left_and_right() {
    let mut d = Doc::from_str("hello world");
    d.set_caret(0, 11);
    d.delete_word_left();
    assert_eq!(d.text(), "hello ");
    let mut d = Doc::from_str("hello world");
    d.set_caret(0, 0);
    d.delete_word_right(); // word + the following whitespace
    assert_eq!(d.text(), "world");
}

#[test]
fn smart_home_toggles() {
    let mut d = Doc::from_str("    mov rax, 1");
    d.set_caret(0, 10);
    d.smart_home();
    assert_eq!(d.caret.col, 4); // first non-blank
    d.smart_home();
    assert_eq!(d.caret.col, 0); // toggle to start
    d.smart_home();
    assert_eq!(d.caret.col, 4);
}

#[test]
fn vertical_movement_keeps_the_goal_column() {
    let mut d = Doc::from_str("longer line\nx\nanother line");
    d.set_caret(0, 9);
    d.move_down(); // clamps to the short "x" line
    assert_eq!(d.caret.col, 1);
    d.move_down(); // goal column 9 is restored on the long line
    assert_eq!(d.caret.col, 9);
}

#[test]
fn indent_and_outdent_a_selection() {
    let mut d = Doc::from_str("a\nb\nc");
    d.set_caret(0, 0);
    d.start_selection();
    d.set_caret(2, 1);
    d.indent();
    assert_eq!(d.text(), "  a\n  b\n  c");
    d.outdent();
    assert_eq!(d.text(), "a\nb\nc");
}

#[test]
fn enter_auto_indents_to_the_previous_line() {
    let mut d = Doc::from_str("    mov rax, 1");
    d.set_caret(0, 14);
    d.insert_newline();
    assert_eq!(d.text(), "    mov rax, 1\n    ");
    assert_eq!(d.caret, Caret { row: 1, col: 4 });
}

#[test]
fn enter_after_a_block_opener_adds_a_level() {
    let mut d = Doc::from_str("proc foo");
    d.set_caret(0, 8);
    d.insert_newline();
    assert_eq!(d.text(), "proc foo\n  ");

    let mut d = Doc::from_str("  .if rax == 0");
    d.set_caret(0, 14);
    d.insert_newline();
    assert_eq!(d.text(), "  .if rax == 0\n    "); // nested: 2 + 2

    let mut d = Doc::from_str("  mov rax, 1"); // a plain line just copies indent
    d.set_caret(0, 12);
    d.insert_newline();
    assert_eq!(d.text(), "  mov rax, 1\n  ");
}

#[test]
fn line_ops_duplicate_delete_move() {
    let mut d = Doc::from_str("a\nb\nc");
    d.set_caret(1, 0);
    d.duplicate_line();
    assert_eq!(d.text(), "a\nb\nb\nc");
    assert_eq!(d.caret.row, 2);

    let mut d = Doc::from_str("a\nb\nc");
    d.set_caret(1, 0);
    d.delete_line();
    assert_eq!(d.text(), "a\nc");

    let mut d = Doc::from_str("a\nb\nc");
    d.set_caret(2, 0);
    d.move_line_up();
    assert_eq!(d.text(), "a\nc\nb");
    d.move_line_down();
    assert_eq!(d.text(), "a\nb\nc");
}

#[test]
fn find_all_case_sensitive_and_insensitive() {
    let d = Doc::from_str("foo bar\nFOO foo");
    assert_eq!(d.find_all("foo", true), vec![(0, 0, 3), (1, 4, 7)]);
    assert_eq!(d.find_all("foo", false), vec![(0, 0, 3), (1, 0, 3), (1, 4, 7)]);
    assert!(d.find_all("", false).is_empty());
}

#[test]
fn toggle_comment_round_trips() {
    let mut d = Doc::from_str("  mov rax, 1\n  ret");
    d.set_caret(0, 0);
    d.start_selection();
    d.set_caret(1, 5);
    d.toggle_comment();
    assert_eq!(d.text(), "  ; mov rax, 1\n  ; ret");
    d.toggle_comment();
    assert_eq!(d.text(), "  mov rax, 1\n  ret");
}

#[test]
fn select_word_and_line() {
    let mut d = Doc::from_str("foo bar_baz qux");
    d.select_word_at(0, 6);
    assert_eq!(d.selected_text().as_deref(), Some("bar_baz"));
    let mut d = Doc::from_str("a\nb\nc");
    d.select_line(1);
    assert_eq!(d.selected_text().as_deref(), Some("b\n"));
}

#[test]
fn matching_bracket_same_line() {
    let d = Doc::from_str("lea rax, [rbx + rcx*2]");
    assert_eq!(d.matching_bracket(0, 9), Some((0, 21))); // on '['
    assert_eq!(d.matching_bracket(0, 21), Some((0, 9))); // on ']'
    assert_eq!(d.matching_bracket(0, 0), None);
}


#[test]
fn redo_takes_an_undo_back() {
    let mut d = Doc::from_str("a\nb");
    d.set_caret(1, 1);
    d.insert("c\nd");
    let after = (d.text(), d.caret);
    assert!(d.undo());
    assert_eq!(d.text(), "a\nb");
    assert!(d.redo());
    assert_eq!((d.text(), d.caret), after);
}

#[test]
fn cut_text_inserted_again_restores_the_lines() {
    let mut d = Doc::from_str("alpha\nbeta\ngamma");
    d.set_caret(0, 2);
    d.start_selection();
    d.set_caret(2, 3);
    let t = d.cut().unwrap();
    assert_eq!(t, "pha\nbeta\ngam");
    assert_eq!(d.text(), "alma");
    d.insert(&t);
    assert_eq!(d.text(), "alpha\nbeta\ngamma");
}

#[test]
fn columns_stay_between_characters() {
    let mut d = Doc::from_str("aé\nb");
    d.set_caret(0, 2); // within the two bytes of é
    assert_eq!(d.caret, Caret { row: 0, col: 1 });
    d.move_right();
    assert_eq!(d.caret, Caret { row: 0, col: 3 });
    d.backspace();
    assert_eq!(d.text(), "a\nb");
}

#[test]
fn a_caret_beyond_the_text_is_kept_within_it() {
    let mut d = Doc::from_str("ab\ncd");
    d.set_caret(9, 9);
    assert_eq!(d.caret, Caret { row: 1, col: 2 });
}

#[test]
fn a_selection_ending_at_a_row_start_leaves_that_row_alone() {
    let mut d = Doc::from_str("a\nb\nc");
    d.set_caret(0, 0);
    d.start_selection();
    d.set_caret(2, 0);
    d.indent();
    assert_eq!(d.text(), "  a\n  b\nc");
}

#[test]
fn an_outdent_takes_two_spaces_at_most() {
    let mut d = Doc::from_str("   a");
    d.set_caret(0, 4);
    d.outdent();
    assert_eq!(d.text(), " a");
    assert_eq!(d.caret, Caret { row: 0, col: 2 });
    d.outdent();
    assert_eq!(d.text(), "a");
    assert_eq!(d.caret, Caret { row: 0, col: 1 });
}

#[test]
fn the_only_row_is_emptied() {
    let mut d = Doc::from_str("abc");
    d.delete_line();
    assert_eq!(d.text(), "");
    assert_eq!(d.line_count(), 1);
    assert!(d.undo());
    assert_eq!(d.text(), "abc");
}

#[test]
fn rows_at_the_edges_do_not_move() {
    let mut d = Doc::from_str("a\nb");
    d.move_line_up();
    assert_eq!(d.text(), "a\nb");
    d.set_caret(1, 0);
    d.move_line_down();
    assert_eq!(d.text(), "a\nb");
    assert!(!d.undo());
}

#[test]
fn at_most_five_hundred_edits_are_undone() {
    let mut d = Doc::new();
    for _ in 0..510 {
        d.insert("x");
    }
    let mut undone = 0;
    while d.undo() {
        undone += 1;
    }
    assert_eq!(undone, 500);
    assert_eq!(d.text(), "xxxxxxxxxx");
}

#[test]
fn matches_do_not_overlap() {
    let d = Doc::from_str("aaaa");
    assert_eq!(d.find_all("aa", true), vec![(0, 0, 2), (0, 2, 4)]);
}

#[test]
fn a_needle_is_a_word_of_two_bytes() {
    let mut d = Doc::from_str("mov rax, r");
    d.set_caret(0, 5);
    assert_eq!(d.occurrence_needle().as_deref(), Some("rax"));
    d.set_caret(0, 10);
    assert_eq!(d.occurrence_needle(), None);
    d.set_caret(0, 0);
    d.start_selection();
    d.set_caret(0, 5);
    assert_eq!(d.occurrence_needle(), None); // "mov r" is no word
}

#[test]
fn brackets_match_both_ways_and_nested() {
    let d = Doc::from_str("f(a[1], (b))");
    assert_eq!(d.matching_bracket(0, 1), Some((0, 11)));
    assert_eq!(d.matching_bracket(0, 12), Some((0, 1)));
    assert_eq!(d.matching_bracket(0, 3), Some((0, 5)));
    assert_eq!(Doc::from_str("(").matching_bracket(0, 0), None);
}

#[test]
fn a_mixed_selection_is_commented_and_restored() {
    let mut d = Doc::from_str("; a\n\n  b");
    d.select_all();
    d.toggle_comment();
    assert_eq!(d.text(), "; ; a\n\n  ; b");
    d.toggle_comment();
    assert_eq!(d.text(), "; a\n\n  b");
}

#[test]
fn rows_beyond_the_text_are_empty() {
    let d = Doc::from_str("a");
    assert_eq!(d.line(7), "");
    assert!(d.tokens(7).is_empty());
    assert_eq!(d.all_tokens().len(), 1);
}

#[test]
fn no_word_is_selected_on_white_space() {
    let mut d = Doc::from_str("ab  cd");
    d.set_caret(0, 0);
    d.select_word_at(0, 3);
    assert_eq!(d.caret, Caret { row: 0, col: 0 });
    assert_eq!(d.selection(), None);
    d.select_word_at(0, 5);
    assert_eq!(d.selection(), Some((Caret { row: 0, col: 4 }, Caret { row: 0, col: 6 })));
}

#[test]
fn a_selection_that_ends_within_a_character_is_toggled_back() {
    let mut d = Doc::from_str("€€");
    d.set_caret(0, 3);
    d.start_selection();
    d.set_caret(0, 0);
    d.toggle_comment();
    assert_eq!(d.text(), "; €€"); // byte 3 lies within the first character now
    d.toggle_comment();
    assert_eq!(d.text(), "€€");
    d.toggle_comment();
    d.indent();
    assert_eq!(d.text(), "  ; €€");
    d.outdent();
    assert_eq!(d.text(), "; €€");
}

#[test]
fn matches_come_in_order_and_do_not_overlap() {
    let d = Doc::from_str("aaaaa\nbAab");
    assert_eq!(d.find_all("aa", false), vec![(0, 0, 2), (0, 2, 4), (1, 1, 3)]);
    assert_eq!(d.find_all("aa", true), vec![(0, 0, 2), (0, 2, 4)]);
    assert!(d.find_all("", true).is_empty());
}

#[test]
fn a_click_on_punctuation_moves_the_caret() {
    let mut d = Doc::from_str("a, ,;");
    d.set_caret(0, 0);
    d.select_word_at(0, 3);
    assert_eq!((d.caret(), d.selection()), (Caret { row: 0, col: 3 }, None));
    d.select_word_at(0, 2); // a space between two commas
    assert_eq!(d.caret(), Caret { row: 0, col: 3 });
    d.select_word_at(0, 9); // behind the end
    assert_eq!(d.caret(), Caret { row: 0, col: 5 });
}
