use compile_commands::get_raw_commands;
use compile_commands::RawCommand;

fn strings(v: &[&str]) -> Vec<String> {
    v.iter().map(|s| s.to_string()).collect()
}

#[test]
fn empty_log_yields_no_commands() {
    let cmds = get_raw_commands("").unwrap();
    assert!(cmds.is_empty());
}

#[test]
fn log_without_command_starts_yields_nothing() {
    let log = "0001>BUILDMSG: Processing /proj\n\
               0002>Compiling /other/dir ****\n\
               some untagged noise\n\
               0001>warning C4996: deprecation\n";
    let cmds = get_raw_commands(log).unwrap();
    assert!(cmds.is_empty());
}

#[test]
fn single_command_is_reconstructed() {
    let log = "0001>BUILDMSG: Processing /proj\n\
               0001>cl /c foo.cpp bar.c\n\
               0001>done\n";
    let cmds = get_raw_commands(log).unwrap();
    assert_eq!(
        cmds,
        vec![RawCommand {
            dir: "/proj".to_string(),
            lines: strings(&["cl /c foo.cpp bar.c"]),
        }]
    );
}

#[test]
fn continuation_lines_extend_the_command() {
    let log = "0001>BUILDMSG: Processing /p\n\
               0001>cl /c\n\
               0001>   foo.cpp   \n\
               end\n";
    let cmds = get_raw_commands(log).unwrap();
    assert_eq!(cmds.len(), 1);
    assert_eq!(cmds[0].lines, strings(&["cl /c", "foo.cpp"]));
    assert_eq!(cmds[0].full_command(), "cl /c foo.cpp");
}

#[test]
fn interleaved_threads_are_not_cross_attributed() {
    let log = "0001>BUILDMSG: Processing /a\n\
               0002>BUILDMSG: Processing /b\n\
               0001>cl one.cpp\n\
               0002>cl two.cpp\n\
               0002>   extra2.cpp\n\
               end\n";
    let cmds = get_raw_commands(log).unwrap();
    assert_eq!(cmds.len(), 2);
    assert_eq!(cmds[0].dir, "/a");
    assert_eq!(cmds[0].lines, strings(&["cl one.cpp"]));
    assert_eq!(cmds[1].dir, "/b");
    assert_eq!(cmds[1].lines, strings(&["cl two.cpp", "extra2.cpp"]));
}

#[test]
fn continuation_of_another_thread_is_not_attached() {
    let log = "0001>BUILDMSG: Processing /a\n\
               0010>BUILDMSG: Processing /b\n\
               0001>cl a.cpp\n\
               0010>   stray.cpp\n\
               0010>cl b.cpp\n\
               end\n";
    let cmds = get_raw_commands(log).unwrap();
    assert_eq!(cmds.len(), 2);
    assert_eq!(cmds[0].dir, "/a");
    assert_eq!(cmds[0].lines, strings(&["cl a.cpp"]));
    assert_eq!(cmds[1].dir, "/b");
    assert_eq!(cmds[1].lines, strings(&["cl b.cpp"]));
}

#[test]
fn incomplete_command_at_end_of_log_is_dropped() {
    let log = "0001>BUILDMSG: Processing /p\n\
               0001>cl foo.cpp";
    let cmds = get_raw_commands(log).unwrap();
    assert!(cmds.is_empty());
}

#[test]
fn command_without_directory_is_fatal() {
    let log = "0001>cl foo.cpp\nend\n";
    let err = get_raw_commands(log).unwrap_err();
    assert_eq!(err.thread, "0001");
}

#[test]
fn second_directory_form_is_recognized() {
    let log = "0002>Compiling /some/dir ****\n\
               0002>cl a.cpp\n\
               .\n";
    let cmds = get_raw_commands(log).unwrap();
    assert_eq!(cmds.len(), 1);
    assert_eq!(cmds[0].dir, "/some/dir");
}

#[test]
fn second_directory_form_keeps_inner_stars() {
    let log = "0003>Compiling a *b *\n\
               0003>cl z.c\n\
               .\n";
    let cmds = get_raw_commands(log).unwrap();
    assert_eq!(cmds.len(), 1);
    assert_eq!(cmds[0].dir, "a *b");
}

#[test]
fn compiling_line_without_stars_announces_nothing() {
    let log = "0004>Compiling /dir\n\
               0004>cl a.c\n\
               x\n";
    let err = get_raw_commands(log).unwrap_err();
    assert_eq!(err.thread, "0004");
}

#[test]
fn processing_line_without_directory_text_announces_nothing() {
    let log = "0005>BUILDMSG: Processing \n\
               0005>cl a.c\n\
               x\n";
    let err = get_raw_commands(log).unwrap_err();
    assert_eq!(err.thread, "0005");
}

#[test]
fn reannounced_directory_wins() {
    let log = "0001>BUILDMSG: Processing /first\n\
               0001>BUILDMSG: Processing /second\n\
               0001>cl a.cpp\n\
               end\n";
    let cmds = get_raw_commands(log).unwrap();
    assert_eq!(cmds.len(), 1);
    assert_eq!(cmds[0].dir, "/second");
}

#[test]
fn command_start_line_also_ends_the_previous_command() {
    let log = "0001>BUILDMSG: Processing /p\n\
               0001>cl a.cpp\n\
               0001>cl b.cpp\n\
               end\n";
    let cmds = get_raw_commands(log).unwrap();
    assert_eq!(cmds.len(), 2);
    assert_eq!(cmds[0].lines, strings(&["cl a.cpp"]));
    assert_eq!(cmds[1].lines, strings(&["cl b.cpp"]));
}

#[test]
fn tags_must_be_exactly_four_digits() {
    let log = "0001>BUILDMSG: Processing /p\n\
               001>cl three.cpp\n\
               00012>cl five.cpp\n\
               00a1>cl letter.cpp\n";
    let cmds = get_raw_commands(log).unwrap();
    assert!(cmds.is_empty());
}

#[test]
fn fixed_width_prefix_is_stripped_and_trimmed() {
    let log = "0001>BUILDMSG: Processing /p\n\
               0001>cl    inner   spacing.cpp  \n\
               0001>    -I include  \n\
               end\n";
    let cmds = get_raw_commands(log).unwrap();
    assert_eq!(cmds.len(), 1);
    assert_eq!(
        cmds[0].lines,
        strings(&["cl    inner   spacing.cpp", "-I include"])
    );
}

#[test]
fn carriage_returns_are_stripped_from_line_endings() {
    let log = "0001>BUILDMSG: Processing /p\r\n\
               0001>cl a.cpp\r\n\
               end\r\n";
    let cmds = get_raw_commands(log).unwrap();
    assert_eq!(cmds.len(), 1);
    assert_eq!(cmds[0].dir, "/p");
    assert_eq!(cmds[0].lines, strings(&["cl a.cpp"]));
}
