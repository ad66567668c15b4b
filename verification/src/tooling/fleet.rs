//! Command lines for a fleet of machines.
use vstd::prelude::*;

use crate::order;
use crate::text::{
    begins, fold, folded, joined, replace, replaced, same, split, split_on, starts_with,
    strip_prefix, texts, trim, trimmed,
};

verus! {

/// A machine name: trimmed and in lower case.
pub fn normalize_machine(name: &str) -> (machine: String)
    ensures
        machine@ == folded(name@),
{
    fold(name)
}

/// A word as a shell reads it back, in single quotes.
pub open spec fn quoted(word: Seq<char>) -> Seq<char> {
    if word.len() == 0 {
        "''"@
    } else {
        "'"@ + replaced(word, '\'', "'\\''"@) + "'"@
    }
}

/// Quotes a word for a shell.
pub fn shell_quote(input: &str) -> (word: String)
    ensures
        word@ == quoted(input@),
{
    if crate::text::chars_of(input).len() == 0 {
        return "''".to_owned();
    }
    let mut out = "'".to_owned();
    let body = replace(input, '\'', "'\\''");
    out.append(body.as_str());
    out.append("'");
    out
}

/// Every word quoted.
pub open spec fn quoted_words(words: Seq<Seq<char>>) -> Seq<Seq<char>> {
    words.map_values(|word: Seq<char>| quoted(word))
}

/// The words quoted, with blanks between them.
pub open spec fn command_line(words: Seq<Seq<char>>) -> Seq<char> {
    joined(quoted_words(words), " "@)
}

/// The command line for some words.
pub fn format_cmd(args: &[String]) -> (line: String)
    ensures
        line@ == command_line(texts(args@)),
{
    let mut words: Vec<String> = Vec::new();
    let mut i: usize = 0;
    while i < args.len()
        invariant
            i <= args@.len(),
            words@.len() == i,
            forall|j: int| 0 <= j < i ==> #[trigger] words@[j]@ == quoted(args@[j]@),
        decreases args@.len() - i,
    {
        words.push(shell_quote(args[i].as_str()));
        i = i + 1;
    }
    assert(texts(words@) =~= quoted_words(texts(args@)));
    crate::text::join(&words, " ")
}

/// Where a shell is within a word.
pub enum Quoting {
    Plain,
    Quoted,
    Escaped,
}

/// A shell as it reads a line: the words before, the word it is in, and where
/// it is within it.
pub struct ShellReader {
    pub words: Seq<Seq<char>>,
    pub word: Option<Seq<char>>,
    pub quoting: Quoting,
}

impl ShellReader {
    /// The characters of the word so far.
    pub open spec fn begun(self) -> Seq<char> {
        match self.word {
            Some(word) => word,
            None => Seq::empty(),
        }
    }

    /// The reader after one more character: outside quotes a blank ends a
    /// word, a quote opens quotes, and a backslash takes the next character as
    /// it is; inside quotes only the closing quote is special.
    pub open spec fn step(self, c: char) -> ShellReader {
        match self.quoting {
            Quoting::Plain => if c == ' ' {
                match self.word {
                    Some(word) => ShellReader {
                        words: self.words.push(word),
                        word: None,
                        quoting: Quoting::Plain,
                    },
                    None => self,
                }
            } else if c == '\'' {
                ShellReader { word: Some(self.begun()), quoting: Quoting::Quoted, ..self }
            } else if c == '\\' {
                ShellReader { word: Some(self.begun()), quoting: Quoting::Escaped, ..self }
            } else {
                ShellReader { word: Some(self.begun().push(c)), ..self }
            },
            Quoting::Quoted => if c == '\'' {
                ShellReader { quoting: Quoting::Plain, ..self }
            } else {
                ShellReader { word: Some(self.begun().push(c)), ..self }
            },
            Quoting::Escaped => ShellReader {
                word: Some(self.begun().push(c)),
                quoting: Quoting::Plain,
                ..self
            },
        }
    }

    /// The reader after some characters.
    pub open spec fn reads(self, s: Seq<char>) -> ShellReader
        decreases s.len(),
    {
        if s.len() == 0 {
            self
        } else {
            self.reads(s.drop_last()).step(s.last())
        }
    }
}

/// The words that a shell reads in a line.
pub open spec fn shell_words(line: Seq<char>) -> Seq<Seq<char>> {
    let start = ShellReader { words: Seq::empty(), word: None, quoting: Quoting::Plain };
    let end = start.reads(line);
    match end.word {
        Some(word) => end.words.push(word),
        None => end.words,
    }
}

proof fn lemma_reads_both(reader: ShellReader, a: Seq<char>, b: Seq<char>)
    ensures
        reader.reads(a + b) == reader.reads(a).reads(b),
    decreases b.len(),
{
    if b.len() == 0 {
        assert(a + b =~= a);
    } else {
        lemma_reads_both(reader, a, b.drop_last());
        assert((a + b).drop_last() =~= a + b.drop_last());
        assert((a + b).last() == b.last());
    }
}

proof fn lemma_reads_one(reader: ShellReader, c: char)
    ensures
        reader.reads(seq![c]) == reader.step(c),
{
    assert(seq![c].drop_last() =~= Seq::<char>::empty());
    assert(reader.reads(Seq::<char>::empty()) == reader);
}

/// Inside quotes a shell reads the characters of a word, a quote among them by
/// leaving the quotes for it.
proof fn lemma_reads_body(reader: ShellReader, word: Seq<char>)
    requires
        reader.quoting is Quoted,
        reader.word is Some,
    ensures
        reader.reads(replaced(word, '\'', "'\\''"@)) == (ShellReader {
            word: Some(reader.begun() + word),
            ..reader
        }),
    decreases word.len(),
{
    let with = "'\\''"@;
    if word.len() == 0 {
        assert(reader.begun() + word =~= reader.begun());
    } else {
        let before = word.drop_last();
        let c = word.last();
        lemma_reads_body(reader, before);
        let there = reader.reads(replaced(before, '\'', with));
        assert(reader.begun() + word =~= (reader.begun() + before).push(c));
        if c == '\'' {
            reveal_strlit("'\\''");
            lemma_reads_both(reader, replaced(before, '\'', with), with);
            let a = seq!['\''];
            let b = seq!['\\'];
            assert(with =~= a + b + a + a);
            lemma_reads_both(there, a + b + a, a);
            lemma_reads_both(there, a + b, a);
            lemma_reads_both(there, a, b);
            lemma_reads_one(there, '\'');
            lemma_reads_one(there.reads(a), '\\');
            lemma_reads_one(there.reads(a + b), '\'');
            lemma_reads_one(there.reads(a + b + a), '\'');
        } else {
            lemma_reads_both(reader, replaced(before, '\'', with), seq![c]);
            lemma_reads_one(there, c);
        }
    }
}

/// A shell reads a quoted word as that word.
proof fn lemma_reads_word(reader: ShellReader, word: Seq<char>)
    requires
        reader.quoting is Plain,
        reader.word is None,
    ensures
        reader.reads(quoted(word)) == (ShellReader { word: Some(word), ..reader }),
{
    reveal_strlit("'");
    let quote = seq!['\''];
    assert("'"@ =~= quote);
    let inside = reader.reads(quote);
    lemma_reads_one(reader, '\'');
    assert(inside.begun() =~= Seq::<char>::empty());
    let body = replaced(word, '\'', "'\\''"@);
    if word.len() == 0 {
        reveal_strlit("''");
        assert(quoted(word) =~= quote + quote);
        lemma_reads_both(reader, quote, quote);
        lemma_reads_one(inside, '\'');
        assert(word =~= Seq::<char>::empty());
    } else {
        lemma_reads_both(reader, quote + body, quote);
        lemma_reads_both(reader, quote, body);
        lemma_reads_body(inside, word);
        assert(inside.begun() + word =~= word);
        lemma_reads_one(inside.reads(body), '\'');
    }
}

proof fn lemma_reads_line(words: Seq<Seq<char>>)
    requires
        words.len() > 0,
    ensures
        (ShellReader { words: Seq::empty(), word: None, quoting: Quoting::Plain }).reads(
            command_line(words),
        ) == (ShellReader {
            words: words.drop_last(),
            word: Some(words.last()),
            quoting: Quoting::Plain,
        }),
    decreases words.len(),
{
    let start = ShellReader { words: Seq::empty(), word: None, quoting: Quoting::Plain };
    let all = quoted_words(words);
    if words.len() == 1 {
        lemma_reads_word(start, words[0]);
        assert(words.drop_last() =~= Seq::<Seq<char>>::empty());
        assert(command_line(words) == quoted(words[0]));
    } else {
        let before = words.drop_last();
        lemma_reads_line(before);
        assert(all.drop_last() =~= quoted_words(before));
        assert(all.last() == quoted(words.last()));
        let line = command_line(before);
        reveal_strlit(" ");
        assert(" "@ =~= seq![' ']);
        lemma_reads_both(start, line + " "@, quoted(words.last()));
        lemma_reads_both(start, line, " "@);
        lemma_reads_one(start.reads(line), ' ');
        assert(before.drop_last().push(before.last()) =~= before);
        lemma_reads_word(start.reads(line + " "@), words.last());
    }
}

/// A shell reads the words of a command line back as they were.
pub proof fn law_a_shell_reads_the_words_back(words: Seq<Seq<char>>)
    ensures
        shell_words(command_line(words)) == words,
{
    if words.len() > 0 {
        lemma_reads_line(words);
        assert(words.drop_last().push(words.last()) =~= words);
    } else {
        assert(command_line(words) =~= Seq::<char>::empty());
        assert(words =~= Seq::<Seq<char>>::empty());
    }
}

/// Equal command lines come from equal words. The line for no words is empty,
/// and that for one word is the quoted word.
pub proof fn law_command_lines_differ(a: Seq<Seq<char>>, b: Seq<Seq<char>>, word: Seq<char>)
    ensures
        command_line(a) == command_line(b) <==> a == b,
        command_line(Seq::empty()) == Seq::<char>::empty(),
        command_line(seq![word]) == quoted(word),
{
    law_a_shell_reads_the_words_back(a);
    law_a_shell_reads_the_words_back(b);
}

/// `arg` sets the option `key`.
pub open spec fn sets(arg: Seq<char>, key: Seq<char>) -> bool {
    arg == key || begins(arg, key + "="@)
}

/// What is said of an argument that sets a protected option.
pub open spec fn protected_message(arg: Seq<char>, key: Seq<char>) -> Seq<char> {
    "forwarded arg '"@ + arg + "' cannot set protected option '"@ + key + "'"@
}

/// Refuses arguments that set one of the `forbidden` options.
///
/// The message names the first such argument, with the first option it sets.
pub fn validate_forwarded_args(args: &[String], forbidden: &[&str]) -> (result: Result<(), String>)
    ensures
        match result {
            Ok(_) => forall|i: int, j: int|
                0 <= i < args@.len() && 0 <= j < forbidden@.len() ==> !sets(
                    #[trigger] args@[i]@,
                    #[trigger] forbidden@[j]@,
                ),
            Err(message) => exists|i: int, j: int|
                {
                    &&& 0 <= i < args@.len()
                    &&& 0 <= j < forbidden@.len()
                    &&& sets(#[trigger] args@[i]@, #[trigger] forbidden@[j]@)
                    &&& message@ == protected_message(args@[i]@, forbidden@[j]@)
                    &&& forall|k: int|
                        0 <= k < j ==> !sets(args@[i]@, #[trigger] forbidden@[k]@)
                    &&& forall|m: int, k: int|
                        0 <= m < i && 0 <= k < forbidden@.len() ==> !sets(
                            #[trigger] args@[m]@,
                            #[trigger] forbidden@[k]@,
                        )
                },
        },
{
    let mut i: usize = 0;
    while i < args.len()
        invariant
            i <= args@.len(),
            forall|m: int, k: int|
                0 <= m < i && 0 <= k < forbidden@.len() ==> !sets(
                    #[trigger] args@[m]@,
                    #[trigger] forbidden@[k]@,
                ),
        decreases args@.len() - i,
    {
        let arg: &str = args[i].as_str();
        let mut j: usize = 0;
        while j < forbidden.len()
            invariant
                i < args@.len(),
                arg@ == args@[i as int]@,
                j <= forbidden@.len(),
                forall|k: int| 0 <= k < j ==> !sets(arg@, #[trigger] forbidden@[k]@),
                forall|m: int, k: int|
                    0 <= m < i && 0 <= k < forbidden@.len() ==> !sets(
                        #[trigger] args@[m]@,
                        #[trigger] forbidden@[k]@,
                    ),
            decreases forbidden@.len() - j,
        {
            let key: &str = forbidden[j];
            let mut assignment = key.to_owned();
            assignment.append("=");
            if same(arg, key) || starts_with(arg, assignment.as_str()) {
                let mut message = "forwarded arg '".to_owned();
                message.append(arg);
                message.append("' cannot set protected option '");
                message.append(key);
                message.append("'");
                assert(sets(args@[i as int]@, forbidden@[j as int]@));
                return Err(message);
            }
            j = j + 1;
        }
        i = i + 1;
    }
    Ok(())
}

/// Without leading slashes.
pub open spec fn trim_start_slashes(s: Seq<char>) -> Seq<char>
    decreases s.len(),
{
    if s.len() > 0 && s[0] == '/' {
        trim_start_slashes(s.drop_first())
    } else {
        s
    }
}

/// Without trailing slashes.
pub open spec fn trim_end_slashes(s: Seq<char>) -> Seq<char>
    decreases s.len(),
{
    if s.len() > 0 && s.last() == '/' {
        trim_end_slashes(s.drop_last())
    } else {
        s
    }
}

pub fn without_leading_slashes(text: &str) -> (rest: String)
    ensures
        rest@ == trim_start_slashes(text@),
{
    let chars = crate::text::chars_of(text);
    let mut from: usize = 0;
    assert(chars@.skip(0) =~= chars@);
    while from < chars.len() && chars[from] == '/'
        invariant
            chars@ == text@,
            from <= chars@.len(),
            trim_start_slashes(chars@) == trim_start_slashes(chars@.skip(from as int)),
        decreases chars@.len() - from,
    {
        assert(chars@.skip(from as int).drop_first() =~= chars@.skip(from + 1));
        from = from + 1;
    }
    assert(chars@.subrange(from as int, chars@.len() as int) =~= chars@.skip(from as int));
    crate::text::string_of(&chars, from, chars.len())
}

pub fn without_trailing_slashes(text: &str) -> (rest: String)
    ensures
        rest@ == trim_end_slashes(text@),
{
    let chars = crate::text::chars_of(text);
    let mut to: usize = chars.len();
    assert(chars@.take(to as int) =~= chars@);
    while to > 0 && chars[to - 1] == '/'
        invariant
            chars@ == text@,
            to <= chars@.len(),
            trim_end_slashes(chars@) == trim_end_slashes(chars@.take(to as int)),
        decreases to,
    {
        assert(chars@.take(to as int).drop_last() =~= chars@.take(to - 1));
        to = to - 1;
    }
    assert(chars@.subrange(0, to as int) =~= chars@.take(to as int));
    crate::text::string_of(&chars, 0, to)
}

/// `child` below `base`, unless it is absolute or relative to a home.
pub open spec fn joined_path(base: Seq<char>, child: Seq<char>) -> Seq<char> {
    if begins(child, "/"@) || begins(child, "~/"@) {
        child
    } else {
        trim_end_slashes(base) + "/"@ + trim_start_slashes(child)
    }
}

/// The path of `child` on a machine where relative paths start at `base`.
pub fn join_remote_path(base: &str, child: &str) -> (path: String)
    ensures
        path@ == joined_path(base@, child@),
{
    if starts_with(child, "/") || starts_with(child, "~/") {
        return child.to_owned();
    }
    let mut path = without_trailing_slashes(base);
    path.append("/");
    let tail = without_leading_slashes(child);
    path.append(tail.as_str());
    path
}

/// With every character marked that has a meaning between double quotes.
pub open spec fn escaped(value: Seq<char>) -> Seq<char> {
    replaced(
        replaced(replaced(replaced(value, '\\', "\\\\"@), '"', "\\\""@), '$', "\\$"@),
        '`',
        "\\`"@,
    )
}

/// Escapes a text for use between double quotes.
pub fn escape_for_double_quotes(value: &str) -> (text: String)
    ensures
        text@ == escaped(value@),
{
    let slashes = replace(value, '\\', "\\\\");
    let quotes = replace(slashes.as_str(), '"', "\\\"");
    let dollars = replace(quotes.as_str(), '$', "\\$");
    replace(dollars.as_str(), '`', "\\`")
}

/// A directory as an argument of `cd`, with the home directory left to the
/// remote shell.
pub open spec fn cd_argument(path: Seq<char>) -> Seq<char> {
    let raw = trimmed(path);
    if raw == "~"@ {
        "\"$HOME\""@
    } else if begins(raw, "~/"@) {
        "\"$HOME/"@ + escaped(raw.skip("~/"@.len() as int)) + "\""@
    } else {
        quoted(raw)
    }
}

/// The argument for `cd` to a directory on another machine.
pub fn remote_cd_expr(path: &str) -> (text: String)
    ensures
        text@ == cd_argument(path@),
{
    let raw = trim(path);
    if same(raw.as_str(), "~") {
        return "\"$HOME\"".to_owned();
    }
    match strip_prefix(raw.as_str(), "~/") {
        Some(tail) => {
            let mut text = "\"$HOME/".to_owned();
            let body = escape_for_double_quotes(tail.as_str());
            text.append(body.as_str());
            text.append("\"");
            text
        },
        None => shell_quote(raw.as_str()),
    }
}

/// Every string trimmed and in lower case.
pub open spec fn folded_all(list: Seq<Seq<char>>) -> Seq<Seq<char>> {
    list.map_values(|item: Seq<char>| folded(item))
}

/// The strings that are not empty, each at its first place only.
pub open spec fn distinct(list: Seq<Seq<char>>) -> Seq<Seq<char>>
    decreases list.len(),
{
    if list.len() == 0 {
        Seq::empty()
    } else {
        let rest = distinct(list.drop_last());
        if list.last().len() == 0 || rest.contains(list.last()) {
            rest
        } else {
            rest.push(list.last())
        }
    }
}

/// `distinct` keeps what is not empty, and keeps nothing twice.
pub proof fn law_distinct(list: Seq<Seq<char>>)
    ensures
        distinct(list).no_duplicates(),
        forall|t: Seq<char>| #[trigger]
            distinct(list).contains(t) <==> list.contains(t) && t.len() > 0,
    decreases list.len(),
{
    if list.len() > 0 {
        let rest = list.drop_last();
        law_distinct(rest);
        let kept = distinct(rest);
        let all = distinct(list);
        assert forall|t: Seq<char>| #[trigger] all.contains(t) <==> list.contains(t) && t.len()
            > 0 by {
            if all.contains(t) {
                let k = all.index_of(t);
                assert(all[k] == t);
                if k < kept.len() {
                    assert(kept[k] == t);
                    assert(kept.contains(t));
                    assert(rest.contains(t));
                    let m = rest.index_of(t);
                    assert(list[m] == t);
                } else {
                    assert(list[list.len() - 1] == t);
                }
            }
            if list.contains(t) && t.len() > 0 {
                let k = list.index_of(t);
                assert(list[k] == t);
                if k < rest.len() {
                    assert(rest[k] == t);
                    assert(rest.contains(t));
                    assert(kept.contains(t));
                    let m = kept.index_of(t);
                    assert(all[m] == t);
                } else if kept.contains(t) {
                    let m = kept.index_of(t);
                    assert(all[m] == t);
                } else {
                    assert(all[kept.len() as int] == t);
                }
            }
        }
    }
}

/// Adds a string to a list, unless it is empty or there already.
pub(crate) fn add_distinct(list: &mut Vec<String>, value: String)
    ensures
        value@.len() == 0 || texts(old(list)@).contains(value@) ==> final(list)@ == old(list)@,
        value@.len() > 0 && !texts(old(list)@).contains(value@) ==> texts(final(list)@) == texts(
            old(list)@,
        ).push(value@),
{
    let ghost before = texts(list@);
    let ghost text = value@;
    if crate::text::chars_of(value.as_str()).len() > 0 && !order::holds(list, value.as_str()) {
        list.push(value);
        assert(texts(list@) =~= before.push(text));
    }
}

/// The machines of a comma-separated list, normalized, each once.
pub fn normalize_machine_list(raw: &str) -> (machines: Vec<String>)
    ensures
        texts(machines@) == distinct(folded_all(split(raw@, ','))),
{
    let parts = split_on(raw, ',');
    let ghost names = folded_all(split(raw@, ','));
    let mut machines: Vec<String> = Vec::new();
    let mut i: usize = 0;
    assert(names.take(0) =~= Seq::<Seq<char>>::empty());
    assert(texts(machines@) =~= Seq::<Seq<char>>::empty());
    while i < parts.len()
        invariant
            texts(parts@) == split(raw@, ','),
            names == folded_all(split(raw@, ',')),
            i <= parts@.len(),
            texts(machines@) == distinct(names.take(i as int)),
        decreases parts@.len() - i,
    {
        let machine = normalize_machine(parts[i].as_str());
        proof {
            assert(texts(parts@)[i as int] == parts@[i as int]@);
            assert(names.take(i + 1).drop_last() =~= names.take(i as int));
            assert(names.take(i + 1).last() == machine@);
        }
        add_distinct(&mut machines, machine);
        i = i + 1;
    }
    assert(names.take(i as int) =~= names);
    machines
}

/// The requested machines of which nothing was seen.
pub open spec fn unseen(requested: Seq<Seq<char>>, seen: Seq<Seq<char>>) -> Seq<Seq<char>> {
    requested.filter(|name: Seq<char>| !folded_all(seen).contains(folded(name)))
}

/// The requested machines of which nothing was seen, as they were requested.
pub fn find_missing_machine_labels(requested: &[String], seen: &[String]) -> (missing: Vec<String>)
    ensures
        texts(missing@) == unseen(texts(requested@), texts(seen@)),
{
    let ghost known = folded_all(texts(seen@));
    let mut names: Vec<String> = Vec::new();
    let mut i: usize = 0;
    while i < seen.len()
        invariant
            i <= seen@.len(),
            names@.len() == i,
            forall|j: int| 0 <= j < i ==> #[trigger] names@[j]@ == folded(seen@[j]@),
        decreases seen@.len() - i,
    {
        names.push(normalize_machine(seen[i].as_str()));
        i = i + 1;
    }
    assert(texts(names@) =~= known);
    let ghost keep = |name: Seq<char>| !known.contains(folded(name));
    let ghost all = texts(requested@);
    let mut missing: Vec<String> = Vec::new();
    let mut k: usize = 0;
    proof {
        assert(all.take(0) =~= Seq::<Seq<char>>::empty());
        reveal(Seq::filter);
        assert(texts(missing@) =~= all.take(0).filter(keep));
    }
    while k < requested.len()
        invariant
            texts(names@) == known,
            all == texts(requested@),
            keep == (|name: Seq<char>| !known.contains(folded(name))),
            k <= requested@.len(),
            texts(missing@) == all.take(k as int).filter(keep),
        decreases requested@.len() - k,
    {
        let machine = normalize_machine(requested[k].as_str());
        let ghost before = texts(missing@);
        proof {
            reveal(Seq::filter);
            assert(all.take(k + 1).drop_last() =~= all.take(k as int));
            assert(all.take(k + 1).last() == requested@[k as int]@);
        }
        if !order::holds(&names, machine.as_str()) {
            missing.push(requested[k].clone());
            assert(texts(missing@) =~= before.push(requested@[k as int]@));
        }
        k = k + 1;
    }
    assert(all.take(k as int) =~= all);
    missing
}

/// The machine labels of some runs: trimmed, without the empty ones, in order.
pub fn machine_labels(labels: &Vec<Option<String>>) -> (machines: Vec<String>)
    ensures
        order::ascending(texts(machines@)),
        forall|t: Seq<char>| #[trigger]
            texts(machines@).contains(t) <==> t.len() > 0 && exists|i: int|
                0 <= i < labels@.len() && #[trigger] labels@[i] is Some && trimmed(labels@[i]->0@)
                    == t,
{
    let mut machines: Vec<String> = Vec::new();
    let mut i: usize = 0;
    while i < labels.len()
        invariant
            i <= labels@.len(),
            order::ascending(texts(machines@)),
            forall|t: Seq<char>| #[trigger]
                texts(machines@).contains(t) <==> t.len() > 0 && exists|j: int|
                    0 <= j < i && #[trigger] labels@[j] is Some && trimmed(labels@[j]->0@) == t,
        decreases labels@.len() - i,
    {
        if let Some(label) = &labels[i] {
            let name = trim(label.as_str());
            if crate::text::chars_of(name.as_str()).len() > 0 {
                let _inserted = order::insert(&mut machines, name);
            }
        }
        i = i + 1;
    }
    machines
}

/// Only slashes are cut off, all of them, and only at the one end.
pub proof fn law_only_slashes_are_cut_off(s: Seq<char>)
    ensures
        exists|n: int|
            #![trigger s.skip(n)]
            {
                &&& 0 <= n <= s.len()
                &&& trim_start_slashes(s) == s.skip(n)
                &&& forall|i: int| 0 <= i < n ==> #[trigger] s[i] == '/'
                &&& n < s.len() ==> s[n] != '/'
            },
        exists|n: int|
            #![trigger s.take(n)]
            {
                &&& 0 <= n <= s.len()
                &&& trim_end_slashes(s) == s.take(n)
                &&& forall|i: int| n <= i < s.len() ==> #[trigger] s[i] == '/'
                &&& n > 0 ==> s[n - 1] != '/'
            },
    decreases s.len(),
{
    if s.len() > 0 && s[0] == '/' {
        let rest = s.drop_first();
        law_only_slashes_are_cut_off(rest);
        let n = choose|n: int|
            #![trigger rest.skip(n)]
            {
                &&& 0 <= n <= rest.len()
                &&& trim_start_slashes(rest) == rest.skip(n)
                &&& forall|i: int| 0 <= i < n ==> #[trigger] rest[i] == '/'
                &&& n < rest.len() ==> rest[n] != '/'
            };
        assert(s.skip(n + 1) =~= rest.skip(n));
        assert forall|i: int| 0 <= i < n + 1 implies #[trigger] s[i] == '/' by {
            if i > 0 {
                assert(rest[i - 1] == s[i]);
            }
        }
    } else {
        assert(s.skip(0) =~= s);
    }
    if s.len() > 0 && s.last() == '/' {
        let rest = s.drop_last();
        law_only_slashes_are_cut_off(rest);
        let n = choose|n: int|
            #![trigger rest.take(n)]
            {
                &&& 0 <= n <= rest.len()
                &&& trim_end_slashes(rest) == rest.take(n)
                &&& forall|i: int| n <= i < rest.len() ==> #[trigger] rest[i] == '/'
                &&& n > 0 ==> rest[n - 1] != '/'
            };
        assert(s.take(n) =~= rest.take(n));
        assert forall|i: int| n <= i < s.len() implies #[trigger] s[i] == '/' by {
            if i < rest.len() {
                assert(rest[i] == s[i]);
            }
        }
    } else {
        assert(s.take(s.len() as int) =~= s);
    }
}

/// A path that is absolute or begins at a home stays as it is. Any other comes
/// below the base, with one slash between them, whether or not the base ends with
/// slashes.
pub proof fn law_a_relative_path_comes_below_the_base(base: Seq<char>, child: Seq<char>)
    ensures
        child.len() > 0 && child[0] == '/' ==> joined_path(base, child) == child,
        child.len() > 1 && child[0] == '~' && child[1] == '/' ==> joined_path(base, child) == child,
        ({
            &&& base.len() > 0 && base.last() != '/'
            &&& child.len() > 0 && child[0] != '/'
            &&& child[0] == '~' && child.len() > 1 ==> child[1] != '/'
        }) ==> {
            &&& joined_path(base, child) == base + seq!['/'] + child
            &&& joined_path(base + seq!['/'], child) == base + seq!['/'] + child
        },
{
    reveal_strlit("/");
    reveal_strlit("~/");
    assert("/"@ =~= seq!['/']);
    if child.len() > 0 && child[0] == '/' {
        assert(child.take(1) =~= "/"@);
    }
    if child.len() > 1 && child[0] == '~' && child[1] == '/' {
        assert(child.take(2) =~= "~/"@);
    }
    if begins(child, "/"@) {
        assert(child.take(1)[0] == '/');
    }
    if begins(child, "~/"@) {
        assert(child.take(2)[0] == '~' && child.take(2)[1] == '/');
    }
    assert((base + seq!['/']).drop_last() =~= base);
}

/// Between double quotes every character stands for itself, the four that have a
/// meaning there behind a backslash.
pub proof fn law_escaped_piece_by_piece(a: Seq<char>, b: Seq<char>, c: char)
    ensures
        escaped(a + b) == escaped(a) + escaped(b),
        c == '\\' || c == '"' || c == '$' || c == '`' ==> escaped(seq![c]) == seq!['\\', c],
        c != '\\' && c != '"' && c != '$' && c != '`' ==> escaped(seq![c]) == seq![c],
        escaped(Seq::empty()) == Seq::<char>::empty(),
{
    let bb = "\\\\"@;
    let bq = "\\\""@;
    let bd = "\\$"@;
    let bt = "\\`"@;
    crate::text::law_replaced_piece_by_piece(a, b, '\\', bb, c);
    let a1 = replaced(a, '\\', bb);
    let b1 = replaced(b, '\\', bb);
    crate::text::law_replaced_piece_by_piece(a1, b1, '"', bq, c);
    let a2 = replaced(a1, '"', bq);
    let b2 = replaced(b1, '"', bq);
    crate::text::law_replaced_piece_by_piece(a2, b2, '$', bd, c);
    let a3 = replaced(a2, '$', bd);
    let b3 = replaced(b2, '$', bd);
    crate::text::law_replaced_piece_by_piece(a3, b3, '`', bt, c);
    lemma_escaped_one(c);
}

/// A character and a backslash before it are kept where neither is replaced.
proof fn lemma_pair_kept(c: char, d: char, with: Seq<char>)
    requires
        c != d,
        d != '\\',
    ensures
        replaced(seq!['\\', c], d, with) == seq!['\\', c],
{
    crate::text::law_replaced_piece_by_piece(seq!['\\'], seq![c], d, with, '\\');
    crate::text::law_replaced_piece_by_piece(seq!['\\'], seq![c], d, with, c);
    assert(seq!['\\', c] =~= seq!['\\'] + seq![c]);
}

proof fn lemma_escaped_one(c: char)
    ensures
        c == '\\' || c == '"' || c == '$' || c == '`' ==> escaped(seq![c]) == seq!['\\', c],
        c != '\\' && c != '"' && c != '$' && c != '`' ==> escaped(seq![c]) == seq![c],
        escaped(Seq::empty()) == Seq::<char>::empty(),
{
    reveal_strlit("\\\\");
    reveal_strlit("\\\"");
    reveal_strlit("\\$");
    reveal_strlit("\\`");
    let bb = "\\\\"@;
    let bq = "\\\""@;
    let bd = "\\$"@;
    let bt = "\\`"@;
    assert(bb =~= seq!['\\', '\\']);
    assert(bq =~= seq!['\\', '"']);
    assert(bd =~= seq!['\\', '$']);
    assert(bt =~= seq!['\\', '`']);
    let none = Seq::<char>::empty();
    crate::text::law_replaced_piece_by_piece(none, none, '\\', bb, c);
    crate::text::law_replaced_piece_by_piece(none, none, '"', bq, c);
    crate::text::law_replaced_piece_by_piece(none, none, '$', bd, c);
    crate::text::law_replaced_piece_by_piece(none, none, '`', bt, c);
    lemma_pair_kept('\\', '"', bq);
    lemma_pair_kept('\\', '$', bd);
    lemma_pair_kept('\\', '`', bt);
    lemma_pair_kept('"', '$', bd);
    lemma_pair_kept('"', '`', bt);
    lemma_pair_kept('$', '`', bt);
}

/// A remote shell goes to the directory that is named, white space around it left
/// out: to the home directory for a tilde, below it for a path that begins with a
/// tilde and a slash, and else to where a shell reads the path itself.
pub proof fn law_a_remote_shell_goes_to_the_directory(path: Seq<char>, tail: Seq<char>)
    ensures
        trimmed(path) == seq!['~'] ==> cd_argument(path) == "\"$HOME\""@,
        trimmed(path) == seq!['~', '/'] + tail ==> cd_argument(path) == "\"$HOME/"@ + escaped(tail)
            + "\""@,
        (trimmed(path).len() == 0 || trimmed(path)[0] != '~') ==> shell_words(cd_argument(path))
            == seq![trimmed(path)],
{
    reveal_strlit("~");
    reveal_strlit("~/");
    let raw = trimmed(path);
    assert("~"@ =~= seq!['~']);
    assert("~/"@ =~= seq!['~', '/']);
    if raw == seq!['~', '/'] + tail {
        assert(raw.take(2) =~= "~/"@);
        assert(raw.skip(2) =~= tail);
        assert(raw.len() >= 2);
    }
    if raw.len() == 0 || raw[0] != '~' {
        if begins(raw, "~/"@) {
            assert(raw.take(2)[0] == '~');
        }
        law_a_shell_reads_the_words_back(seq![raw]);
        law_command_lines_differ(seq![raw], seq![raw], raw);
    }
}

/// What is kept of a list stands in the order of the list, each string where it
/// occurred first. The returned places are those in the list.
pub proof fn law_distinct_keeps_the_first_of_each(list: Seq<Seq<char>>) -> (places: Seq<int>)
    ensures
        places.len() == distinct(list).len(),
        forall|i: int, j: int|
            0 <= i < j < places.len() ==> #[trigger] places[i] < #[trigger] places[j],
        forall|k: int|
            0 <= k < places.len() ==> {
                &&& 0 <= #[trigger] places[k] < list.len()
                &&& list[places[k]] == distinct(list)[k]
                &&& forall|m: int| 0 <= m < places[k] ==> list[m] != distinct(list)[k]
            },
    decreases list.len(),
{
    if list.len() == 0 {
        Seq::empty()
    } else {
        let rest = list.drop_last();
        let before = law_distinct_keeps_the_first_of_each(rest);
        law_distinct(rest);
        let kept = distinct(rest);
        let x = list.last();
        let places = if x.len() == 0 || kept.contains(x) {
            before
        } else {
            before.push(list.len() - 1)
        };
        let all = distinct(list);
        assert forall|k: int| 0 <= k < places.len() implies {
            &&& 0 <= #[trigger] places[k] < list.len()
            &&& list[places[k]] == all[k]
            &&& forall|m: int| 0 <= m < places[k] ==> list[m] != all[k]
        } by {
            if k < before.len() {
                assert(places[k] == before[k]);
                assert(all[k] == kept[k]);
                assert(rest[before[k]] == kept[k]);
                assert forall|m: int| 0 <= m < places[k] implies list[m] != all[k] by {
                    assert(rest[m] != kept[k]);
                }
            } else {
                assert forall|m: int| 0 <= m < places[k] implies list[m] != all[k] by {
                    if list[m] == x {
                        assert(rest[m] == x);
                        assert(rest.contains(x));
                        assert(kept.contains(x));
                    }
                }
            }
        }
        assert forall|i: int, j: int| 0 <= i < j < places.len() implies #[trigger] places[i]
            < #[trigger] places[j] by {
            assert(places[i] == before[i]);
            if j < before.len() {
                assert(places[j] == before[j]);
            }
        }
        places
    }
}

/// A machine is missing exactly if it was asked for and none that was seen has
/// its name, trimmed and in lower case.
pub proof fn law_missing_machines(requested: Seq<Seq<char>>, seen: Seq<Seq<char>>, i: int)
    requires
        0 <= i < requested.len(),
    ensures
        unseen(requested, seen).contains(requested[i]) <==> forall|j: int|
            0 <= j < seen.len() ==> folded(#[trigger] seen[j]) != folded(requested[i]),
        unseen(requested, seen).len() <= requested.len(),
{
    let keep = |name: Seq<char>| !folded_all(seen).contains(folded(name));
    broadcast use vstd::seq_lib::group_filter_ensures;
    let name = requested[i];
    if keep(name) {
        assert forall|j: int| 0 <= j < seen.len() implies folded(#[trigger] seen[j]) != folded(
            name,
        ) by {
            assert(folded_all(seen)[j] == folded(seen[j]));
        }
    } else {
        let j = folded_all(seen).index_of(folded(name));
        assert(folded_all(seen)[j] == folded(seen[j]));
        if unseen(requested, seen).contains(name) {
            let k = unseen(requested, seen).index_of(name);
            assert(keep(unseen(requested, seen)[k]));
        }
    }
}

} // verus!
