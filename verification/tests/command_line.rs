use lib::command_line::executable_command_line;

fn part(line: &str) -> &str {
    let (start, end) = executable_command_line(line.as_bytes());
    &line[start..end]
}

#[test]
fn command_line_takes_what_follows_the_last_separator() {
    assert_eq!(part("stub -- app --verbose"), "app --verbose");
    assert_eq!(part("a -- b -- c "), "c");
    assert_eq!(part("stub --   spaced out \t"), "spaced out");
    assert_eq!(part("no separator"), "");
    assert_eq!(part("trailing -- "), "");
    assert_eq!(part(" -- "), "");
    assert_eq!(part(""), "");
}
