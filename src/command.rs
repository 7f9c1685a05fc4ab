//! The command language of the directory: one command per line, its words separated by white
//! space, multi-word fields ended by a stop word or by the end of the line.
use vstd::prelude::*;
use crate::text::{same_text, slice_texts, split_words, words};

verus! {

/// A field read from the words of a command, as text.
pub enum FieldText {
    Present(Seq<char>),
    Empty,
    Malformed,
}

/// A field read from the words of a command.
pub enum Field {
    /// The field's words, joined by single spaces.
    Present(String),
    /// The stop word, or the end of the line, came before any word.
    Empty,
    /// The line ended before the expected stop word.
    Malformed,
}

impl View for Field {
    type V = FieldText;

    open spec fn view(&self) -> FieldText {
        match self {
            Field::Present(s) => FieldText::Present(s@),
            Field::Empty => FieldText::Empty,
            Field::Malformed => FieldText::Malformed,
        }
    }
}

/// The position of the first `w` in `ws`, or the length of `ws` where there is none.
pub open spec fn stop_index(ws: Seq<Seq<char>>, w: Seq<char>) -> int
    decreases ws.len(),
{
    if ws.len() == 0 {
        0
    } else if ws[0] == w {
        0
    } else {
        1 + stop_index(ws.drop_first(), w)
    }
}

/// The words of `ws` joined by single spaces.
pub open spec fn joined(ws: Seq<Seq<char>>) -> Seq<char>
    decreases ws.len(),
{
    if ws.len() == 0 {
        seq![]
    } else if ws.len() == 1 {
        ws[0]
    } else {
        joined(ws.drop_last()) + seq![' '] + ws.last()
    }
}

/// The field at the start of `ws` and the number of words it takes up, the stop word included.
pub open spec fn field_spec(ws: Seq<Seq<char>>, stop: Option<Seq<char>>) -> (FieldText, int) {
    match stop {
        None => if ws.len() == 0 {
            (FieldText::Empty, 0)
        } else {
            (FieldText::Present(joined(ws)), ws.len() as int)
        },
        Some(w) => {
            let k = stop_index(ws, w);
            if k == ws.len() {
                (FieldText::Malformed, ws.len() as int)
            } else if k == 0 {
                (FieldText::Empty, 1)
            } else {
                (FieldText::Present(joined(ws.take(k))), k + 1)
            }
        },
    }
}

/// The text of an optional stop word.
pub open spec fn opt_text(o: Option<&str>) -> Option<Seq<char>> {
    match o {
        Some(s) => Some(s@),
        None => None,
    }
}

proof fn lemma_stop_index(ws: Seq<Seq<char>>, w: Seq<char>, k: int)
    requires
        0 <= k <= ws.len(),
        forall|j: int| 0 <= j < k ==> ws[j] != w,
        k == ws.len() || ws[k] == w,
    ensures
        stop_index(ws, w) == k,
    decreases k,
{
    if k > 0 {
        lemma_stop_index(ws.drop_first(), w, k - 1);
    }
}

/// Reads one field from `words`, starting at `pos`: the words up to the stop word, or up to the
/// end where there is none. Returns the field and the position after it.
pub fn read_field(words: &Vec<&str>, pos: usize, stop: Option<&str>) -> (r: (Field, usize))
    requires
        pos <= words.len(),
    ensures
        pos <= r.1 <= words.len(),
        (r.0@, r.1 - pos) == field_spec(slice_texts(words@).skip(pos as int), opt_text(stop)),
{
    let ghost ws = slice_texts(words@).skip(pos as int);
    let mut name = String::new();
    let mut i: usize = pos;
    let mut found = false;
    assert(ws.take(0) =~= Seq::<Seq<char>>::empty());
    while i < words.len()
        invariant_except_break
            !found,
        invariant
            ws == slice_texts(words@).skip(pos as int),
            pos <= i <= words.len(),
            found ==> i < words.len() && stop is Some && words@[i as int]@ == stop->0@,
            name@ == joined(ws.take(i - pos)),
            forall|j: int| 0 <= j < i - pos ==> stop is None || ws[j] != stop->0@,
        ensures
            found || i == words.len(),
        decreases words.len() - i,
    {
        let w = words[i];
        match stop {
            Some(s) => {
                if same_text(w, s) {
                    found = true;
                    break;
                }
            },
            None => {},
        }
        assert(ws[i - pos] == w@);
        let ghost t = ws.take(i - pos);
        assert(ws.take(i - pos + 1) =~= t.push(w@));
        assert(t.push(w@).drop_last() =~= t);
        if i > pos {
            proof {
                reveal_strlit(" ");
            }
            name.append(" ");
            name.append(w);
            assert(name@ =~= joined(t) + seq![' '] + w@);
        } else {
            name.append(w);
            assert(name@ =~= w@);
        }
        i = i + 1;
    }
    let k = i - pos;
    let ghost kk = k as int;
    match stop {
        None => {
            assert(ws.take(kk) =~= ws);
            if k == 0 {
                (Field::Empty, i)
            } else {
                (Field::Present(name), i)
            }
        },
        Some(s) => {
            proof {
                lemma_stop_index(ws, s@, kk);
            }
            if !found {
                (Field::Malformed, i)
            } else if k == 0 {
                (Field::Empty, i + 1)
            } else {
                (Field::Present(name), i + 1)
            }
        },
    }
}


/// The verbs of the command language.
#[derive(Clone, Copy, Debug, PartialEq, Eq, Structural)]
pub enum Verb {
    Add,
    Remove,
    Move,
    Rename,
    Print,
    Help,
    Exit,
}

/// Why a command was not carried out. None of these changes the directory.
#[derive(Clone, Copy, Debug, PartialEq, Eq, Structural)]
pub enum DirError {
    /// A name or a department came out empty.
    MissingArgument,
    /// The line ended before an expected stop word.
    Malformed,
    DepartmentNotFound,
    EmployeeNotFound,
    DuplicateEmployee,
    /// The first word is no verb; a verb that differs from it only in letter case is suggested.
    UnknownCommand(Option<Verb>),
    /// The line holds no word at all.
    NoCommand,
    /// Words follow a verb that takes none.
    TrailingText,
}

/// `t` is `lower` (or `upper`) with each letter in either case.
pub open spec fn case_variant(t: Seq<char>, lower: Seq<char>, upper: Seq<char>) -> bool {
    &&& t.len() == lower.len()
    &&& lower.len() == upper.len()
    &&& forall|i: int| 0 <= i < t.len() ==> t[i] == lower[i] || t[i] == upper[i]
}

fn is_case_variant(t: &str, lower: &str, upper: &str) -> (r: bool)
    ensures
        r == case_variant(t@, lower@, upper@),
{
    let x = crate::text::chars_of(t);
    let lo = crate::text::chars_of(lower);
    let up = crate::text::chars_of(upper);
    if x.len() != lo.len() || lo.len() != up.len() {
        return false;
    }
    let mut i: usize = 0;
    while i < x.len()
        invariant
            x@ == t@,
            lo@ == lower@,
            up@ == upper@,
            x.len() == lo.len(),
            lo.len() == up.len(),
            i <= x.len(),
            forall|j: int| 0 <= j < i ==> x@[j] == lo@[j] || x@[j] == up@[j],
        decreases x.len() - i,
    {
        if x[i] != lo[i] && x[i] != up[i] {
            return false;
        }
        i = i + 1;
    }
    true
}

/// The verb that `t` spells in other letter case, if any.
pub open spec fn suggestion_spec(t: Seq<char>) -> Option<Verb> {
    if case_variant(t, "add"@, "ADD"@) {
        Some(Verb::Add)
    } else if case_variant(t, "remove"@, "REMOVE"@) {
        Some(Verb::Remove)
    } else if case_variant(t, "move"@, "MOVE"@) {
        Some(Verb::Move)
    } else if case_variant(t, "rename"@, "RENAME"@) {
        Some(Verb::Rename)
    } else if case_variant(t, "print"@, "PRINT"@) {
        Some(Verb::Print)
    } else if case_variant(t, "help"@, "HELP"@) {
        Some(Verb::Help)
    } else if case_variant(t, "exit"@, "EXIT"@) {
        Some(Verb::Exit)
    } else {
        None
    }
}

/// The verb that an unknown first word most likely meant: one that it spells in other letter
/// case.
pub fn check_command(txt: &str) -> (r: Option<Verb>)
    ensures
        r == suggestion_spec(txt@),
{
    if is_case_variant(txt, "add", "ADD") {
        Some(Verb::Add)
    } else if is_case_variant(txt, "remove", "REMOVE") {
        Some(Verb::Remove)
    } else if is_case_variant(txt, "move", "MOVE") {
        Some(Verb::Move)
    } else if is_case_variant(txt, "rename", "RENAME") {
        Some(Verb::Rename)
    } else if is_case_variant(txt, "print", "PRINT") {
        Some(Verb::Print)
    } else if is_case_variant(txt, "help", "HELP") {
        Some(Verb::Help)
    } else if is_case_variant(txt, "exit", "EXIT") {
        Some(Verb::Exit)
    } else {
        None
    }
}

/// A parsed command, as text.
pub enum CommandText {
    Add { name: Seq<char>, department: Seq<char> },
    Remove { name: Seq<char>, department: Seq<char> },
    Move { name: Seq<char>, from: Seq<char>, to: Seq<char> },
    Rename { name: Seq<char>, department: Seq<char>, new_name: Seq<char> },
    Print { department: Seq<char> },
    Help,
    Exit,
}

/// A parsed command.
pub enum Command {
    Add { name: String, department: String },
    Remove { name: String, department: String },
    Move { name: String, from: String, to: String },
    Rename { name: String, department: String, new_name: String },
    /// An empty department asks for every employee.
    Print { department: String },
    Help,
    Exit,
}

impl View for Command {
    type V = CommandText;

    open spec fn view(&self) -> CommandText {
        match self {
            Command::Add { name, department } => CommandText::Add {
                name: name@,
                department: department@,
            },
            Command::Remove { name, department } => CommandText::Remove {
                name: name@,
                department: department@,
            },
            Command::Move { name, from, to } => CommandText::Move {
                name: name@,
                from: from@,
                to: to@,
            },
            Command::Rename { name, department, new_name } => CommandText::Rename {
                name: name@,
                department: department@,
                new_name: new_name@,
            },
            Command::Print { department } => CommandText::Print { department: department@ },
            Command::Help => CommandText::Help,
            Command::Exit => CommandText::Exit,
        }
    }
}

/// A field that a command needs, read at `pos` of `ws`: its text and the position after it,
/// or the error that an empty or unended field gives.
pub open spec fn field_step(ws: Seq<Seq<char>>, pos: int, stop: Option<Seq<char>>) -> Result<
    (Seq<char>, int),
    DirError,
> {
    let (f, n) = field_spec(ws.skip(pos), stop);
    match f {
        FieldText::Present(s) => Ok((s, pos + n)),
        FieldText::Empty => Err(DirError::MissingArgument),
        FieldText::Malformed => Err(DirError::Malformed),
    }
}

/// The command that the words `ws` of a line make, or why they make none.
pub open spec fn parse_spec(ws: Seq<Seq<char>>) -> Result<CommandText, DirError> {
    if ws.len() == 0 {
        Err(DirError::NoCommand)
    } else if ws[0] == "Add"@ {
        match field_step(ws, 1, Some("to"@)) {
            Err(e) => Err(e),
            Ok((name, p)) => match field_step(ws, p, None) {
                Err(e) => Err(e),
                Ok((department, _)) => Ok(CommandText::Add { name, department }),
            },
        }
    } else if ws[0] == "Remove"@ {
        match field_step(ws, 1, Some("from"@)) {
            Err(e) => Err(e),
            Ok((name, p)) => match field_step(ws, p, None) {
                Err(e) => Err(e),
                Ok((department, _)) => Ok(CommandText::Remove { name, department }),
            },
        }
    } else if ws[0] == "Move"@ {
        match field_step(ws, 1, Some("from"@)) {
            Err(e) => Err(e),
            Ok((name, p)) => match field_step(ws, p, Some("to"@)) {
                Err(e) => Err(e),
                Ok((from, q)) => match field_step(ws, q, None) {
                    Err(e) => Err(e),
                    Ok((to, _)) => Ok(CommandText::Move { name, from, to }),
                },
            },
        }
    } else if ws[0] == "Rename"@ {
        match field_step(ws, 1, Some("in"@)) {
            Err(e) => Err(e),
            Ok((name, p)) => match field_step(ws, p, Some("to"@)) {
                Err(e) => Err(e),
                Ok((department, q)) => match field_step(ws, q, None) {
                    Err(e) => Err(e),
                    Ok((new_name, _)) => Ok(CommandText::Rename { name, department, new_name }),
                },
            },
        }
    } else if ws[0] == "Print"@ {
        match field_spec(ws.skip(1), None).0 {
            FieldText::Present(department) => Ok(CommandText::Print { department }),
            _ => Ok(CommandText::Print { department: seq![] }),
        }
    } else if ws[0] == "Help"@ || ws[0] == "Exit"@ {
        if ws.len() > 1 {
            Err(DirError::TrailingText)
        } else if ws[0] == "Help"@ {
            Ok(CommandText::Help)
        } else {
            Ok(CommandText::Exit)
        }
    } else {
        Err(DirError::UnknownCommand(suggestion_spec(ws[0])))
    }
}

/// A parse result, with the command as text.
pub open spec fn parsed_view(r: Result<Command, DirError>) -> Result<CommandText, DirError> {
    match r {
        Ok(c) => Ok(c@),
        Err(e) => Err(e),
    }
}

/// Reads a field that must be present.
fn take_field(ws: &Vec<&str>, pos: usize, stop: Option<&str>) -> (r: Result<(String, usize), DirError>)
    requires
        pos <= ws.len(),
    ensures
        match (r, field_step(slice_texts(ws@), pos as int, opt_text(stop))) {
            (Ok((s, p)), Ok((t, q))) => s@ == t && p == q && p <= ws.len(),
            (Err(e), Err(f)) => e == f,
            _ => false,
        },
{
    let (f, p) = read_field(ws, pos, stop);
    match f {
        Field::Present(s) => Ok((s, p)),
        Field::Empty => Err(DirError::MissingArgument),
        Field::Malformed => Err(DirError::Malformed),
    }
}

/// Parses one line of the command language.
pub fn parse_command(line: &str) -> (r: Result<Command, DirError>)
    ensures
        parsed_view(r) == parse_spec(words(line@)),
{
    let ws = split_words(line);
    let ghost t = slice_texts(ws@);
    if ws.len() == 0 {
        return Err(DirError::NoCommand);
    }
    let verb = ws[0];
    assert(t[0] == verb@);
    if same_text(verb, "Add") {
        let (name, p) = take_field(&ws, 1, Some("to"))?;
        let (department, _) = take_field(&ws, p, None)?;
        Ok(Command::Add { name, department })
    } else if same_text(verb, "Remove") {
        let (name, p) = take_field(&ws, 1, Some("from"))?;
        let (department, _) = take_field(&ws, p, None)?;
        Ok(Command::Remove { name, department })
    } else if same_text(verb, "Move") {
        let (name, p) = take_field(&ws, 1, Some("from"))?;
        let (from, q) = take_field(&ws, p, Some("to"))?;
        let (to, _) = take_field(&ws, q, None)?;
        Ok(Command::Move { name, from, to })
    } else if same_text(verb, "Rename") {
        let (name, p) = take_field(&ws, 1, Some("in"))?;
        let (department, q) = take_field(&ws, p, Some("to"))?;
        let (new_name, _) = take_field(&ws, q, None)?;
        Ok(Command::Rename { name, department, new_name })
    } else if same_text(verb, "Print") {
        let (f, _) = read_field(&ws, 1, None);
        match f {
            Field::Present(department) => Ok(Command::Print { department }),
            _ => Ok(Command::Print { department: String::new() }),
        }
    } else if same_text(verb, "Help") || same_text(verb, "Exit") {
        if ws.len() > 1 {
            Err(DirError::TrailingText)
        } else if same_text(verb, "Help") {
            Ok(Command::Help)
        } else {
            Ok(Command::Exit)
        }
    } else {
        Err(DirError::UnknownCommand(check_command(verb)))
    }
}

} // verus!
