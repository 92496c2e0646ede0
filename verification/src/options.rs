//! Parsing of configuration text into ordered `(name, value)` pairs.

use vstd::prelude::*;
use vstd::string::StrSliceExecFns;
use vstd::string::StringExecFns;
use crate::text::find_char;
use crate::text::find_first;
use crate::text::line_seq;
use crate::text::split_lines;
use crate::text::strip_quotes;
use crate::text::strip_quotes_spec;

verus! {

/// Failure of the parser itself (as opposed to a failure of the I/O that
/// a caller performs around it).
#[derive(Clone, Copy, Debug, PartialEq, Eq, Structural)]
pub enum ConfigError {
    /// A non-blank, non-comment line held no `=` separator.
    MalformedLine,
}

/// A line the parser passes over: a blank line, or a comment line,
/// whose first character is `#`.
pub open spec fn is_skipped(line: Seq<char>) -> bool {
    line.len() == 0 || line[0] == '#'
}

/// What one parsed line contributes: the text before its first `=` as
/// the name, the text after it, with surrounding double quotes
/// stripped, as the value; `None` for a line with no `=`.
pub open spec fn line_entry(line: Seq<char>) -> Option<(Seq<char>, Seq<char>)> {
    match find_char(line, '=') {
        None => None,
        Some(i) => Some((line.take(i), strip_quotes_spec(line.skip(i + 1)))),
    }
}

/// The entries of a sequence of lines, in line order; an error as soon
/// as a line that is not skipped lacks an `=`.
pub open spec fn lines_entries(lines: Seq<Seq<char>>) -> Result<
    Seq<(Seq<char>, Seq<char>)>,
    ConfigError,
>
    decreases lines.len(),
{
    if lines.len() == 0 {
        Ok(seq![])
    } else if is_skipped(lines[0]) {
        lines_entries(lines.skip(1))
    } else {
        match line_entry(lines[0]) {
            None => Err(ConfigError::MalformedLine),
            Some(kv) => match lines_entries(lines.skip(1)) {
                Ok(rest) => Ok(seq![kv] + rest),
                Err(e) => Err(e),
            },
        }
    }
}

/// The entries of a whole configuration text.
pub open spec fn options_spec(s: Seq<char>) -> Result<Seq<(Seq<char>, Seq<char>)>, ConfigError> {
    lines_entries(line_seq(s))
}

/// The character sequences behind a vector of `(name, value)` pairs.
pub open spec fn entries_view(v: Seq<(String, String)>) -> Seq<(Seq<char>, Seq<char>)> {
    v.map_values(|p: (String, String)| (p.0@, p.1@))
}

/// Parses configuration text into its `(name, value)` pairs, in line
/// order: blank and `#`-comment lines are skipped, every other line is
/// split at its first `=`, and surrounding double quotes are stripped
/// from the value.  Fails exactly when such a line has no `=`.
pub fn parse_options(contents: &str) -> (r: Result<Vec<(String, String)>, ConfigError>)
    ensures
        match r {
            Ok(v) => options_spec(contents@) == Ok::<_, ConfigError>(entries_view(v@)),
            Err(e) => options_spec(contents@) == Err::<Seq<(Seq<char>, Seq<char>)>, _>(e),
        },
{
    let lines = split_lines(contents);
    let ghost all: Seq<Seq<char>> = lines@.map_values(|l: String| l@);
    let mut out: Vec<(String, String)> = Vec::new();
    let mut idx: usize = 0;
    proof {
        assert(all.skip(0) =~= all);
        assert(entries_view(out@) =~= Seq::<(Seq<char>, Seq<char>)>::empty());
        if lines_entries(all) is Ok {
            assert(lines_entries(all) == Ok::<_, ConfigError>(
                entries_view(out@) + lines_entries(all)->Ok_0,
            )) by {
                assert(entries_view(out@) + lines_entries(all)->Ok_0 =~= lines_entries(all)->Ok_0);
            }
        }
    }
    while idx < lines.len()
        invariant
            all == lines@.map_values(|l: String| l@),
            all == line_seq(contents@),
            0 <= idx <= lines.len(),
            match lines_entries(all.skip(idx as int)) {
                Ok(rest) => lines_entries(all) == Ok::<_, ConfigError>(entries_view(out@) + rest),
                Err(e) => lines_entries(all) == Err::<Seq<(Seq<char>, Seq<char>)>, _>(e),
            },
        decreases lines.len() - idx,
    {
        let line: &str = lines[idx].as_str();
        let ghost tail = all.skip(idx as int);
        proof {
            assert(tail[0] == all[idx as int]);
            assert(tail.skip(1) =~= all.skip(idx as int + 1));
        }
        let line_len = line.unicode_len();
        if line_len == 0 || line.get_char(0) == '#' {
            idx += 1;
            continue;
        }
        match find_first(line, '=') {
            None => {
                proof {
                    assert(lines_entries(tail) == Err::<Seq<(Seq<char>, Seq<char>)>, _>(
                        ConfigError::MalformedLine,
                    ));
                }
                return Err(ConfigError::MalformedLine);
            },
            Some(eq_pos) => {
                let name = line.substring_char(0, eq_pos).to_owned();
                let value = strip_quotes(line.substring_char(eq_pos + 1, line_len));
                proof {
                    assert(line@.subrange(0, eq_pos as int) =~= line@.take(eq_pos as int));
                    assert(line@.subrange(eq_pos as int + 1, line@.len() as int)
                        =~= line@.skip(eq_pos as int + 1));
                    assert(line_entry(all[idx as int]) == Some((name@, value@)));
                    assert(entries_view(out@.push((name, value)))
                        =~= entries_view(out@) + seq![(name@, value@)]);
                    if lines_entries(all.skip(idx as int + 1)) is Ok {
                        let rest = lines_entries(all.skip(idx as int + 1))->Ok_0;
                        assert(entries_view(out@) + (seq![(name@, value@)] + rest)
                            =~= (entries_view(out@) + seq![(name@, value@)]) + rest);
                    }
                }
                out.push((name, value));
            },
        }
        idx += 1;
    }
    proof {
        assert(all.skip(lines@.len() as int) =~= Seq::<Seq<char>>::empty());
        assert(lines_entries(all) == Ok::<_, ConfigError>(entries_view(out@))) by {
            assert(entries_view(out@) + Seq::<(Seq<char>, Seq<char>)>::empty()
                =~= entries_view(out@));
        }
    }
    Ok(out)
}

/// A blank or comment line contributes nothing: a sequence of lines
/// that begins with one parses to exactly what the remaining lines do.
pub proof fn lemma_skipped_line_dropped(line: Seq<char>, rest: Seq<Seq<char>>)
    requires
        is_skipped(line),
    ensures
        lines_entries(seq![line] + rest) == lines_entries(rest),
{
    let lines = seq![line] + rest;
    assert(lines[0] == line);
    assert(lines.skip(1) =~= rest);
}

/// Some line of `lines` is neither blank nor a comment and holds no `=`.
pub open spec fn has_malformed_line(lines: Seq<Seq<char>>) -> bool {
    exists|k: int| 0 <= k < lines.len() && !is_skipped(lines[k]) && line_entry(lines[k]) is None
}

proof fn lemma_lines_entries_err_iff(lines: Seq<Seq<char>>)
    ensures
        lines_entries(lines) is Err <==> has_malformed_line(lines),
        lines_entries(lines) is Err ==> lines_entries(lines) == Err::<
            Seq<(Seq<char>, Seq<char>)>,
            _,
        >(ConfigError::MalformedLine),
    decreases lines.len(),
{
    if lines.len() > 0 {
        let rest = lines.skip(1);
        lemma_lines_entries_err_iff(rest);
        if has_malformed_line(rest) {
            let k = choose|k: int|
                0 <= k < rest.len() && !is_skipped(rest[k]) && line_entry(rest[k]) is None;
            assert(lines[k + 1] == rest[k]);
            assert(has_malformed_line(lines));
        }
        if !is_skipped(lines[0]) && line_entry(lines[0]) is None {
            assert(has_malformed_line(lines));
        }
        if has_malformed_line(lines) && !(lines_entries(lines) is Err) {
            let k = choose|k: int|
                0 <= k < lines.len() && !is_skipped(lines[k]) && line_entry(lines[k]) is None;
            assert(k > 0);
            assert(rest[k - 1] == lines[k]);
            assert(has_malformed_line(rest));
        }
    }
}

/// Parsing a configuration text fails, and fails with `MalformedLine`,
/// exactly when some line of the text is neither blank nor a comment
/// and holds no `=`.
pub proof fn lemma_malformed_iff(s: Seq<char>)
    ensures
        options_spec(s) is Err <==> has_malformed_line(line_seq(s)),
        options_spec(s) is Err ==> options_spec(s) == Err::<Seq<(Seq<char>, Seq<char>)>, _>(
            ConfigError::MalformedLine,
        ),
{
    lemma_lines_entries_err_iff(line_seq(s));
}

/// Round trip of one quoted entry: a text of the single line
/// `name="value"`, terminated by a newline as `default_file_contents`
/// terminates a created file, parses back to exactly that name and
/// value, provided the name holds no newline or `=` and does not open a
/// comment, and the value holds no newline and no quote at its ends.
pub proof fn lemma_quoted_entry_round_trip(name: Seq<char>, value: Seq<char>)
    requires
        forall|j: int| 0 <= j < name.len() ==> name[j] != '\n' && name[j] != '=',
        name.len() == 0 || name[0] != '#',
        forall|j: int| 0 <= j < value.len() ==> value[j] != '\n',
        value.len() == 0 || (value[0] != '"' && value[value.len() - 1] != '"'),
    ensures
        options_spec(name + seq!['='] + seq!['"'] + value + seq!['"', '\n']) == Ok::<
            _,
            ConfigError,
        >(seq![(name, value)]),
{
    let line = name + seq!['='] + seq!['"'] + value + seq!['"'];
    let text = name + seq!['='] + seq!['"'] + value + seq!['"', '\n'];
    assert(text =~= line + seq!['\n']);
    let nl = name.len() as int;
    let ll = line.len() as int;
    assert(line[nl] == '=');
    assert(line[nl + 1] == '"');
    assert(line[ll - 1] == '"');
    assert(forall|j: int| 0 <= j < value.len() ==> line[nl + 2 + j] == value[j]);
    assert forall|j: int| 0 <= j < ll implies text[j] != '\n' by {
        assert(text[j] == line[j]);
    }
    assert(text[ll] == '\n');
    crate::text::lemma_find_char_some(text, '\n', ll);
    assert(text.take(ll) =~= line);
    assert(crate::text::strip_cr(line) == line);
    assert(text.skip(ll + 1) =~= Seq::<char>::empty());
    assert(line_seq(text) == seq![line] + line_seq(Seq::<char>::empty()));
    assert(seq![line] + Seq::<Seq<char>>::empty() =~= seq![line]);
    assert(line_seq(text) == seq![line]);

    assert(!is_skipped(line));
    assert forall|j: int| 0 <= j < nl implies line[j] != '=' by {
        assert(line[j] == name[j]);
    }
    crate::text::lemma_find_char_some(line, '=', nl);
    assert(line.take(nl) =~= name);

    let qv = line.skip(nl + 1);
    assert(qv =~= seq!['"'] + value + seq!['"']);
    let vq = value + seq!['"'];
    assert(qv[0] == '"');
    assert(qv.skip(1) =~= vq);
    assert(strip_quotes_spec(qv) == strip_quotes_spec(vq));
    if value.len() == 0 {
        assert(vq[0] == '"');
        assert(vq.skip(1) =~= Seq::<char>::empty());
        assert(strip_quotes_spec(vq) == strip_quotes_spec(Seq::<char>::empty()));
        assert(strip_quotes_spec(vq) =~= value);
    } else {
        assert(vq[0] == value[0]);
        assert(vq[vq.len() - 1] == '"');
        assert(vq.take(vq.len() - 1) =~= value);
        assert(strip_quotes_spec(vq) == strip_quotes_spec(value));
        assert(value[value.len() - 1] != '"');
        assert(strip_quotes_spec(value) == value);
    }
    assert(line_entry(line) == Some((name, value)));

    let lines = seq![line];
    assert(lines.skip(1) =~= Seq::<Seq<char>>::empty());
    assert(lines_entries(lines.skip(1)) == Ok::<_, ConfigError>(Seq::<(Seq<char>, Seq<char>)>::empty()));
    assert(seq![(name, value)] + Seq::<(Seq<char>, Seq<char>)>::empty() =~= seq![(name, value)]);
    assert(lines_entries(lines) == Ok::<_, ConfigError>(seq![(name, value)]));
}

/// The exact payload a caller should write when it creates a missing
/// configuration file from a default text: the text itself followed by
/// one newline, whether or not the text already ends in one.
pub fn default_file_contents(default_text: &str) -> (r: String)
    ensures
        r@ == default_text@ + seq!['\n'],
{
    let mut out: String = default_text.to_owned();
    out.append("\n");
    proof {
        reveal_strlit("\n");
        assert(out@ =~= default_text@ + seq!['\n']);
    }
    out
}

} // verus!
