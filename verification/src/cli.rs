use vstd::prelude::*;
use crate::fen::{tokens, chars_of, split_whitespace};
use crate::text::{push_char, push_str, string_of, string_from};

verus! {

// Reading the commands a chess GUI sends over the UCI protocol.

/// A command from the GUI.
pub enum GUICommand {
    /// `uci`
    UCI,
    /// `isready`
    IsReady,
    /// `position fen <fen>`
    FenPosition(String),
    /// `position startpos [moves ...]` or `ucinewgame`
    MovePosition(Option<Vec<String>>),
    /// `setoption name <name> [value <value>]`
    SetOption(String, String),
    /// `go perft <depth>`
    Perft(String),
    /// `go <params>`
    Search(Vec<String>),
    /// `stop`
    Stop,
    /// `quit`
    Quit,
    /// `eval`
    Eval,
    /// `joke`
    Joke,
    /// Anything else, with the text received.
    Invalid(String),
}

/// A command as plain values.
pub enum CommandView {
    Uci,
    IsReady,
    FenPosition(Seq<char>),
    MovePosition(Option<Seq<Seq<char>>>),
    SetOption(Seq<char>, Seq<char>),
    Perft(Seq<char>),
    Search(Seq<Seq<char>>),
    Stop,
    Quit,
    Eval,
    Joke,
    Invalid(Seq<char>),
}

/// The texts of a list of strings.
pub open spec fn string_texts(v: Seq<String>) -> Seq<Seq<char>> {
    v.map_values(|s: String| s@)
}

/// A command as plain values.
pub open spec fn command_view(c: GUICommand) -> CommandView {
    match c {
        GUICommand::UCI => CommandView::Uci,
        GUICommand::IsReady => CommandView::IsReady,
        GUICommand::FenPosition(f) => CommandView::FenPosition(f@),
        GUICommand::MovePosition(None) => CommandView::MovePosition(None),
        GUICommand::MovePosition(Some(ms)) => CommandView::MovePosition(Some(string_texts(ms@))),
        GUICommand::SetOption(n, v) => CommandView::SetOption(n@, v@),
        GUICommand::Perft(d) => CommandView::Perft(d@),
        GUICommand::Search(ps) => CommandView::Search(string_texts(ps@)),
        GUICommand::Stop => CommandView::Stop,
        GUICommand::Quit => CommandView::Quit,
        GUICommand::Eval => CommandView::Eval,
        GUICommand::Joke => CommandView::Joke,
        GUICommand::Invalid(s) => CommandView::Invalid(s@),
    }
}

/// Words joined with single spaces.
pub open spec fn join(ws: Seq<Seq<char>>) -> Seq<char>
    decreases ws.len(),
{
    if ws.len() == 0 {
        Seq::empty()
    } else if ws.len() == 1 {
        ws[0]
    } else {
        join(ws.drop_last()) + seq![' '] + ws.last()
    }
}

/// The position of the first `value` word, if any.
pub open spec fn value_position(ws: Seq<Seq<char>>, i: int) -> Option<int>
    decreases ws.len() - i,
{
    if i < 0 || i >= ws.len() {
        None
    } else if ws[i] == "value"@ {
        Some(i)
    } else {
        value_position(ws, i + 1)
    }
}

/// A `setoption name ...` command from the words after `name`: the words
/// before `value` name the option and those after it give the value; a
/// button option has no `value` word and an empty value.
pub open spec fn setoption_view(ws: Seq<Seq<char>>) -> CommandView {
    match value_position(ws, 0) {
        Some(k) => {
            let name = join(ws.subrange(0, k));
            let value = join(ws.subrange(k + 1, ws.len() as int));
            if name.len() > 0 && value.len() > 0 {
                CommandView::SetOption(name, value)
            } else {
                CommandView::Invalid("setoption name "@ + name + " value "@ + value)
            }
        },
        None => {
            let name = join(ws);
            if name.len() > 0 {
                CommandView::SetOption(name, Seq::empty())
            } else {
                CommandView::Invalid("setoption with empty name"@)
            }
        },
    }
}

/// The command a line of input gives, by its whitespace-separated words.
pub open spec fn command_of(input: Seq<char>) -> CommandView {
    let t = tokens(input);
    let n = t.len();
    if t == seq!["uci"@] {
        CommandView::Uci
    } else if t == seq!["isready"@] {
        CommandView::IsReady
    } else if t == seq!["ucinewgame"@] {
        CommandView::MovePosition(None)
    } else if t == seq!["position"@, "startpos"@] {
        CommandView::MovePosition(None)
    } else if n >= 3 && t[0] == "position"@ && t[1] == "startpos"@ && t[2] == "moves"@ {
        CommandView::MovePosition(Some(t.subrange(3, n as int)))
    } else if n >= 3 && t[0] == "position"@ && t[1] == "fen"@ {
        CommandView::FenPosition(join(t.subrange(2, n as int)))
    } else if n >= 3 && t[0] == "setoption"@ && t[1] == "name"@ {
        setoption_view(t.subrange(2, n as int))
    } else if n == 3 && t[0] == "go"@ && t[1] == "perft"@ {
        CommandView::Perft(t[2])
    } else if n >= 1 && t[0] == "go"@ {
        CommandView::Search(t.subrange(1, n as int))
    } else if t == seq!["stop"@] {
        CommandView::Stop
    } else if t == seq!["quit"@] {
        CommandView::Quit
    } else if t == seq!["eval"@] {
        CommandView::Eval
    } else if t == seq!["joke"@] {
        CommandView::Joke
    } else {
        CommandView::Invalid(input)
    }
}

/// Characters equal a given text.
fn chars_are(a: &Vec<char>, t: &str) -> (r: bool)
    ensures
        r == (a@ == t@),
{
    let n = a.len();
    if n != t.unicode_len() {
        return false;
    }
    let mut i: usize = 0;
    while i < n
        invariant
            n == a@.len(),
            n == t@.len(),
            i <= n,
            forall|j: int| 0 <= j < i ==> a@[j] == t@[j],
        decreases n - i,
    {
        if a[i] != t.get_char(i) {
            return false;
        }
        i = i + 1;
    }
    assert(a@ =~= t@);
    true
}

/// The words from `start` to `end`, joined with single spaces.
fn join_words(ws: &Vec<Vec<char>>, start: usize, end: usize) -> (r: String)
    requires
        start <= end <= ws@.len(),
    ensures
        r@ == join(ws@.map_values(|w: Vec<char>| w@).subrange(start as int, end as int)),
{
    let ghost all = ws@.map_values(|w: Vec<char>| w@);
    let mut r = String::new();
    let mut i: usize = start;
    assert(all.subrange(start as int, start as int) =~= Seq::<Seq<char>>::empty());
    while i < end
        invariant
            start <= i <= end <= ws@.len(),
            all == ws@.map_values(|w: Vec<char>| w@),
            r@ == join(all.subrange(start as int, i as int)),
        decreases end - i,
    {
        let ghost prev = all.subrange(start as int, i as int);
        let ghost next = all.subrange(start as int, i + 1);
        assert(next.drop_last() =~= prev);
        assert(next.last() == ws@[i as int]@);
        if i > start {
            push_char(&mut r, ' ');
        }
        let w = string_from(&ws[i]);
        push_str(&mut r, w.as_str());
        if i == start {
            assert(r@ =~= join(next));
        } else {
            assert(r@ =~= join(next));
        }
        i = i + 1;
    }
    r
}

/// The words from `start` to `end` as strings.
fn word_strings(ws: &Vec<Vec<char>>, start: usize, end: usize) -> (r: Vec<String>)
    requires
        start <= end <= ws@.len(),
    ensures
        string_texts(r@) == ws@.map_values(|w: Vec<char>| w@).subrange(start as int, end as int),
{
    let ghost all = ws@.map_values(|w: Vec<char>| w@);
    let mut r: Vec<String> = Vec::new();
    let mut i: usize = start;
    while i < end
        invariant
            start <= i <= end <= ws@.len(),
            all == ws@.map_values(|w: Vec<char>| w@),
            string_texts(r@) == all.subrange(start as int, i as int),
            r@.len() == i - start,
        decreases end - i,
    {
        let w = string_from(&ws[i]);
        let ghost before = r@;
        r.push(w);
        assert(r@ == before.push(w));
        assert forall|j: int| 0 <= j < r@.len() implies #[trigger] string_texts(r@)[j] == all.subrange(
            start as int,
            i + 1,
        )[j] by {
            if j < before.len() {
                assert(r@[j] == before[j]);
                assert(string_texts(before)[j] == all.subrange(start as int, i as int)[j]);
            } else {
                assert(r@[j] == w);
                assert(all[i as int] == ws@[i as int]@);
            }
        }
        assert(string_texts(r@) =~= all.subrange(start as int, i + 1));
        i = i + 1;
    }
    r
}

impl GUICommand {
    /// The command a line of input gives.
    pub fn parse(input: &str) -> (r: GUICommand)
        ensures
            command_view(r) == command_of(input@),
    {
        let cs = chars_of(input);
        let parts = split_whitespace(&cs);
        let ghost t = tokens(input@);
        let ghost all = parts@.map_values(|w: Vec<char>| w@);
        assert(all =~= t);
        let n = parts.len();
        proof {
            reveal_strlit("uci");
            reveal_strlit("isready");
            reveal_strlit("ucinewgame");
            reveal_strlit("position");
            reveal_strlit("startpos");
            reveal_strlit("moves");
            reveal_strlit("fen");
            reveal_strlit("setoption");
            reveal_strlit("name");
            reveal_strlit("go");
            reveal_strlit("perft");
            reveal_strlit("stop");
            reveal_strlit("quit");
            reveal_strlit("eval");
            reveal_strlit("joke");
        }
        if n == 1 && chars_are(&parts[0], "uci") {
            assert(t =~= seq!["uci"@]);
            return GUICommand::UCI;
        }
        assert(!(t =~= seq!["uci"@]));
        if n == 1 && chars_are(&parts[0], "isready") {
            assert(t =~= seq!["isready"@]);
            return GUICommand::IsReady;
        }
        assert(!(t =~= seq!["isready"@]));
        if n == 1 && chars_are(&parts[0], "ucinewgame") {
            assert(t =~= seq!["ucinewgame"@]);
            return GUICommand::MovePosition(None);
        }
        assert(!(t =~= seq!["ucinewgame"@]));
        if n == 2 && chars_are(&parts[0], "position") && chars_are(&parts[1], "startpos") {
            assert(t =~= seq!["position"@, "startpos"@]);
            return GUICommand::MovePosition(None);
        }
        assert(!(t =~= seq!["position"@, "startpos"@]));
        if n >= 3 && chars_are(&parts[0], "position") && chars_are(&parts[1], "startpos") && chars_are(
            &parts[2],
            "moves",
        ) {
            return GUICommand::MovePosition(Some(word_strings(&parts, 3, n)));
        }
        if n >= 3 && chars_are(&parts[0], "position") && chars_are(&parts[1], "fen") {
            return GUICommand::FenPosition(join_words(&parts, 2, n));
        }
        if n >= 3 && chars_are(&parts[0], "setoption") && chars_are(&parts[1], "name") {
            return Self::parse_setoption(&parts, 2);
        }
        if n == 3 && chars_are(&parts[0], "go") && chars_are(&parts[1], "perft") {
            return GUICommand::Perft(string_from(&parts[2]));
        }
        if n >= 1 && chars_are(&parts[0], "go") {
            return GUICommand::Search(word_strings(&parts, 1, n));
        }
        if n == 1 && chars_are(&parts[0], "stop") {
            assert(t =~= seq!["stop"@]);
            return GUICommand::Stop;
        }
        assert(!(t =~= seq!["stop"@]));
        if n == 1 && chars_are(&parts[0], "quit") {
            assert(t =~= seq!["quit"@]);
            return GUICommand::Quit;
        }
        assert(!(t =~= seq!["quit"@]));
        if n == 1 && chars_are(&parts[0], "eval") {
            assert(t =~= seq!["eval"@]);
            return GUICommand::Eval;
        }
        assert(!(t =~= seq!["eval"@]));
        if n == 1 && chars_are(&parts[0], "joke") {
            assert(t =~= seq!["joke"@]);
            return GUICommand::Joke;
        }
        assert(!(t =~= seq!["joke"@]));
        GUICommand::Invalid(string_of(input))
    }

    /// A `setoption` command from the words from `start` on, which come
    /// after `setoption name`.
    fn parse_setoption(parts: &Vec<Vec<char>>, start: usize) -> (r: GUICommand)
        requires
            start <= parts@.len(),
        ensures
            command_view(r) == setoption_view(
                parts@.map_values(|w: Vec<char>| w@).subrange(start as int, parts@.len() as int),
            ),
    {
        let ghost ws = parts@.map_values(|w: Vec<char>| w@).subrange(start as int, parts@.len() as int);
        let n = parts.len();
        let mut k: usize = start;
        proof {
            reveal_strlit("value");
        }
        while k < n && !chars_are(&parts[k], "value")
            invariant
                start <= k <= n,
                n == parts@.len(),
                ws == parts@.map_values(|w: Vec<char>| w@).subrange(start as int, n as int),
                value_position(ws, 0) == value_position(ws, k - start),
            decreases n - k,
        {
            assert(ws[k - start] == parts@[k as int]@);
            k = k + 1;
        }
        if k < n {
            assert(ws[k - start] == parts@[k as int]@);
            assert(value_position(ws, k - start) == Some(k - start));
            let name = join_words(parts, start, k);
            let value = join_words(parts, k + 1, n);
            assert(ws.subrange(0, k - start) =~= parts@.map_values(|w: Vec<char>| w@).subrange(
                start as int,
                k as int,
            ));
            assert(ws.subrange(k - start + 1, ws.len() as int) =~= parts@.map_values(
                |w: Vec<char>| w@,
            ).subrange(k + 1, n as int));
            if name.unicode_len() > 0 && value.unicode_len() > 0 {
                GUICommand::SetOption(name, value)
            } else {
                let mut text = string_of("setoption name ");
                push_str(&mut text, name.as_str());
                push_str(&mut text, " value ");
                push_str(&mut text, value.as_str());
                GUICommand::Invalid(text)
            }
        } else {
            assert(value_position(ws, k - start) is None);
            let name = join_words(parts, start, n);
            if name.unicode_len() > 0 {
                let empty = String::new();
                assert(empty@ =~= Seq::<char>::empty());
                GUICommand::SetOption(name, empty)
            } else {
                GUICommand::Invalid(string_of("setoption with empty name"))
            }
        }
    }
}

} // verus!
