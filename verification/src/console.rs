use vstd::prelude::*;
use vstd::string::StrSliceExecFns;
use vstd::string::StringExecFns;

verus! {

/// A request to spawn an entity from the short type-name of a component,
/// as typed into the console.
#[derive(Debug)]
pub struct SpawnReflected(pub String);

/// A command line to try, its prefix already stripped.
#[derive(Debug)]
pub struct TryCommand(pub String);

/// Where a line submitted to the console goes: a command to try, or plain
/// chat to echo.
#[derive(Debug)]
pub enum RoutedText {
    Command(TryCommand),
    Chat(String),
}

/// Index of the first space in `s`, or its length when it has none.
pub open spec fn spec_first_space(s: Seq<char>) -> int
    decreases s.len(),
{
    if s.len() == 0 {
        0
    } else if s.first() == ' ' {
        0
    } else {
        1 + spec_first_space(s.drop_first())
    }
}

/// The command name: everything before the first space, or the whole line.
pub open spec fn command_part(s: Seq<char>) -> Seq<char> {
    s.subrange(0, spec_first_space(s))
}

/// The arguments: everything after the first space, or nothing.
pub open spec fn args_part(s: Seq<char>) -> Seq<char> {
    if spec_first_space(s) == s.len() {
        Seq::empty()
    } else {
        s.subrange(spec_first_space(s) + 1, s.len() as int)
    }
}

/// The first space of `s` sits at `i` exactly when no space precedes `i`
/// and `i` is a space or the end.
proof fn lemma_first_space_at(s: Seq<char>, i: int)
    requires
        0 <= i <= s.len(),
        forall|j: int| 0 <= j < i ==> s[j] != ' ',
        i < s.len() ==> s[i] == ' ',
    ensures
        spec_first_space(s) == i,
    decreases i,
{
    if s.len() == 0 {
    } else if i == 0 {
    } else {
        assert(s[0] != ' ');
        assert forall|j: int| 0 <= j < i - 1 implies s.drop_first()[j] != ' ' by {
            assert(s[j + 1] != ' ');
        }
        lemma_first_space_at(s.drop_first(), i - 1);
    }
}

/// Splits a console line at its first space into the command name and the
/// arguments, as `str::split_once` does; a line with no space is all
/// command and no arguments.
fn split_command(line: &str) -> (r: (String, String))
    ensures
        r.0@ == command_part(line@),
        r.1@ == args_part(line@),
{
    let n = line.unicode_len();
    let mut i: usize = 0;
    while i < n
        invariant
            0 <= i <= n,
            n == line@.len(),
            forall|j: int| 0 <= j < i ==> line@[j] != ' ',
        decreases n - i,
    {
        if line.get_char(i) == ' ' {
            proof {
                lemma_first_space_at(line@, i as int);
            }
            let cmd = line.substring_char(0, i);
            let args = line.substring_char(i + 1, n);
            return (String::from_str(cmd), String::from_str(args));
        }
        i = i + 1;
    }
    proof {
        lemma_first_space_at(line@, n as int);
        assert(line@.subrange(0, n as int) =~= line@);
    }
    (String::from_str(line), String::new())
}

/// Interprets one console line: `help` prints usage, `spawn` asks for a
/// reflected spawn of the named component, the retro greeting echoes
/// itself, and anything else is reported unknown. Returns the lines to
/// print and the spawn request, if the line asked for one.
pub fn handle_command(line: &str) -> (r: (Vec<String>, Option<SpawnReflected>))
    ensures
        ({
            let cmd = command_part(line@);
            let args = args_part(line@);
            if cmd == "help"@ {
                r.0@.len() == 2 && r.0@[0]@ == "spawn: spawn <Component>"@ && r.0@[1]@
                    == "\tThe <Component> must #[reflect(Component, Default)]"@ && r.1 is None
            } else if cmd == "spawn"@ {
                r.0@.len() == 1 && r.0@[0]@ == "Attempting to spawn..."@ && (r.1 matches Some(m)
                    && m.0@ == args)
            } else if cmd == "67"@ {
                r.0@.len() == 1 && r.0@[0]@ == "67"@ && r.1 is None
            } else {
                r.0@.len() == 1 && r.0@[0]@ == "Unknown command"@ && r.1 is None
            }
        }),
{
    let (cmd, args) = split_command(line);
    let mut outputs: Vec<String> = Vec::new();
    if cmd == String::from_str("help") {
        outputs.push(String::from_str("spawn: spawn <Component>"));
        outputs.push(String::from_str("\tThe <Component> must #[reflect(Component, Default)]"));
        (outputs, None)
    } else if cmd == String::from_str("spawn") {
        outputs.push(String::from_str("Attempting to spawn..."));
        (outputs, Some(SpawnReflected(args)))
    } else if cmd == String::from_str("67") {
        outputs.push(String::from_str("67"));
        (outputs, None)
    } else {
        outputs.push(String::from_str("Unknown command"));
        (outputs, None)
    }
}

/// The feedback of one reflected-spawn attempt. The caller looks the
/// component up in the engine's type registry and says whether it could
/// be built; this turns that outcome into the console line to print and
/// whether it reports success.
pub fn spawn_reflected(request: &SpawnReflected, resolved: bool) -> (r: (String, bool))
    ensures
        r.1 == resolved,
        resolved ==> r.0@ == "Entity "@ + request.0@ + " spawned successfully."@,
        !resolved ==> r.0@ == "DNE or missing ReflectDefault and/or ReflectComponent"@,
{
    if resolved {
        let mut message = String::from_str("Entity ");
        message.append(request.0.as_str());
        message.append(" spawned successfully.");
        (message, true)
    } else {
        (String::from_str("DNE or missing ReflectDefault and/or ReflectComponent"), false)
    }
}

/// What the console knows about a command, for its help text.
#[derive(Debug)]
pub struct CommandMetadata {
    pub description: String,
    pub usage: String,
}

/// The help lines of one command entry: its name, description and usage;
/// a command registered without metadata prints nothing.
pub open spec fn entry_lines(e: (String, Option<CommandMetadata>)) -> Seq<Seq<char>> {
    match e.1 {
        Option::None => Seq::empty(),
        Option::Some(md) => seq![
            "Command: "@ + e.0@,
            "   ->Description: "@ + md.description@,
            "   ->Usage: "@ + md.usage@,
        ],
    }
}

/// The full help listing of a command table, in table order.
pub open spec fn help_lines(cmds: Seq<(String, Option<CommandMetadata>)>) -> Seq<Seq<char>>
    decreases cmds.len(),
{
    if cmds.len() == 0 {
        Seq::empty()
    } else {
        help_lines(cmds.drop_last()) + entry_lines(cmds.last())
    }
}

/// The metadata of the first command named `name`, if it has any.
pub open spec fn find_metadata(
    cmds: Seq<(String, Option<CommandMetadata>)>,
    name: Seq<char>,
) -> Option<CommandMetadata>
    decreases cmds.len(),
{
    if cmds.len() == 0 {
        Option::None
    } else if cmds.first().0@ == name {
        cmds.first().1
    } else {
        find_metadata(cmds.drop_first(), name)
    }
}

/// The views of a list of lines.
pub open spec fn lines_view(lines: Seq<String>) -> Seq<Seq<char>> {
    lines.map_values(|s: String| s@)
}

/// Builds the console's help text from its command table. With no
/// argument it lists every documented command; with one it describes that
/// command, or reports it unknown.
pub fn help(argument: &String, commands: &Vec<(String, Option<CommandMetadata>)>) -> (r: Vec<
    String,
>)
    ensures
        argument@.len() == 0 ==> lines_view(r@) == help_lines(commands@),
        argument@.len() > 0 ==> match find_metadata(commands@, argument@) {
            Option::Some(md) => lines_view(r@) == seq![
                "Command: "@ + argument@,
                "   ->Description: "@ + md.description@,
                "   ->Usage: "@ + md.usage@,
            ],
            Option::None => lines_view(r@) == seq!["Command not found: "@ + argument@],
        },
{
    let mut lines: Vec<String> = Vec::new();
    if argument.unicode_len() == 0 {
        let mut i: usize = 0;
        while i < commands.len()
            invariant
                0 <= i <= commands@.len(),
                lines_view(lines@) == help_lines(commands@.subrange(0, i as int)),
            decreases commands@.len() - i,
        {
            let entry = &commands[i];
            let ghost pre = lines@;
            match &entry.1 {
                Option::Some(md) => {
                    let mut title = String::from_str("Command: ");
                    title.append(entry.0.as_str());
                    lines.push(title);
                    let mut description = String::from_str("   ->Description: ");
                    description.append(md.description.as_str());
                    lines.push(description);
                    let mut usage = String::from_str("   ->Usage: ");
                    usage.append(md.usage.as_str());
                    lines.push(usage);
                },
                Option::None => {},
            }
            proof {
                assert(commands@.subrange(0, i + 1).drop_last() =~= commands@.subrange(
                    0,
                    i as int,
                ));
                assert(commands@.subrange(0, i + 1).last() == commands@[i as int]);
                assert(lines_view(lines@) =~= lines_view(pre) + entry_lines(commands@[i as int]));
            }
            i = i + 1;
        }
        proof {
            assert(commands@.subrange(0, commands@.len() as int) =~= commands@);
        }
        lines
    } else {
        let mut i: usize = 0;
        proof {
            assert(commands@.subrange(0, commands@.len() as int) =~= commands@);
        }
        while i < commands.len()
            invariant
                0 <= i <= commands@.len(),
                argument@.len() > 0,
                find_metadata(commands@, argument@) == find_metadata(
                    commands@.subrange(i as int, commands@.len() as int),
                    argument@,
                ),
                lines@.len() == 0,
            decreases commands@.len() - i,
        {
            let entry = &commands[i];
            let ghost rest = commands@.subrange(i as int, commands@.len() as int);
            proof {
                assert(rest.first() == commands@[i as int]);
                assert(rest.drop_first() =~= commands@.subrange(
                    i + 1,
                    commands@.len() as int,
                ));
            }
            if entry.0 == *argument {
                match &entry.1 {
                    Option::Some(md) => {
                        let mut title = String::from_str("Command: ");
                        title.append(argument.as_str());
                        lines.push(title);
                        let mut description = String::from_str("   ->Description: ");
                        description.append(md.description.as_str());
                        lines.push(description);
                        let mut usage = String::from_str("   ->Usage: ");
                        usage.append(md.usage.as_str());
                        lines.push(usage);
                        proof {
                            assert(lines_view(lines@) =~= seq![
                                "Command: "@ + argument@,
                                "   ->Description: "@ + md.description@,
                                "   ->Usage: "@ + md.usage@,
                            ]);
                        }
                        return lines;
                    },
                    Option::None => {
                        let mut missing = String::from_str("Command not found: ");
                        missing.append(argument.as_str());
                        lines.push(missing);
                        proof {
                            assert(lines_view(lines@) =~= seq!["Command not found: "@ + argument@]);
                        }
                        return lines;
                    },
                }
            }
            i = i + 1;
        }
        let mut missing = String::from_str("Command not found: ");
        missing.append(argument.as_str());
        lines.push(missing);
        proof {
            assert(lines_view(lines@) =~= seq!["Command not found: "@ + argument@]);
        }
        lines
    }
}

/// Routes one submitted line: an empty submission from the command line
/// itself is dropped, a line opening with the command prefix is a command
/// with the prefix stripped, and everything else is chat.
pub fn route_submitted_text(text: &str, prefix: char, from_command_line: bool) -> (r: Option<
    RoutedText,
>)
    ensures
        text@.len() == 0 && from_command_line ==> r is None,
        !(text@.len() == 0 && from_command_line) ==> if text@.len() > 0 && text@[0] == prefix {
            r matches Some(RoutedText::Command(c)) && c.0@ == text@.drop_first()
        } else {
            r matches Some(RoutedText::Chat(c)) && c@ == text@
        },
{
    let n = text.unicode_len();
    if n == 0 && from_command_line {
        return None;
    }
    if n > 0 && text.get_char(0) == prefix {
        let rest = text.substring_char(1, n);
        proof {
            assert(rest@ =~= text@.drop_first());
        }
        Some(RoutedText::Command(TryCommand(String::from_str(rest))))
    } else {
        Some(RoutedText::Chat(String::from_str(text)))
    }
}

} // verus!
