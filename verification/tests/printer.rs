use ascheme::stdio_printer::StdioPrinter;
use ascheme::string_interner::StringInterner;
use ascheme::tracked_stats::TrackedStats;

#[test]
fn printing_keeps_all_text_in_order() {
    let mut printer = StdioPrinter::new();
    printer.print("hello ");
    printer.println("world");
    printer.print("partial");
    let flushed = printer.take_output();
    let buffered = printer.take_buffered_output();
    assert_eq!(flushed, "hello world\n");
    assert_eq!(buffered, "partial");
}

#[test]
fn long_lines_are_flushed_when_the_buffer_is_full() {
    let mut printer = StdioPrinter::new();
    let long = "x".repeat(300);
    printer.print(&long);
    let flushed = printer.take_output();
    let buffered = printer.take_buffered_output();
    assert_eq!(flushed.len(), 255);
    assert_eq!(format!("{flushed}{buffered}"), long);
}

#[test]
fn buffered_output_is_flushed_with_a_newline() {
    let mut printer = StdioPrinter::new();
    printer.disable_autoflush = true;
    printer.print("a\nb");
    printer.print_buffered_output();
    assert_eq!(printer.take_output(), "a\nb\n");
}

#[test]
fn stats_table_is_sorted_by_name() {
    let mut interner = StringInterner::new();
    let zeta = interner.intern("zeta");
    let alpha = interner.intern("alpha");
    let mut stats = TrackedStats::new();
    stats.track_call(Some(zeta));
    stats.track_call(Some(alpha));
    stats.track_tail_call(Some(alpha));
    stats.update_call_stack_depth(7);
    let table = stats.as_table(&interner);
    let lines: Vec<&str> = table.lines().collect();
    assert!(lines[0].starts_with("Name"));
    assert_eq!(lines[1], "-".repeat(60));
    assert!(lines[2].starts_with("alpha "));
    assert!(lines[3].starts_with("zeta "));
    assert_eq!(lines[2].split_whitespace().collect::<Vec<_>>(), vec!["alpha", "1", "1"]);
    assert_eq!(lines[5], "Maximum call stack depth: 7");
}
